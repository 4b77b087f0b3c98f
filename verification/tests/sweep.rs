use hexspect::blocks::Section;
use hexspect::hexprinter::HexPrinter;
use hexspect::sweep::SectionEvents;

fn sec(addr: u64, size: u64, name: &str) -> Section {
    Section { addr, size, name: String::from(name) }
}

#[test]
fn enter_and_exit_counts_match_range_count() {
    let ranges = vec![sec(0x10, 0x10, "a"), sec(0x14, 0x8, "b"), sec(0x30, 0, "z")];
    let n = ranges.len();
    let se = SectionEvents::new(ranges);
    let enters = se.events.iter().filter(|e| e.is_start).count();
    let exits = se.events.iter().filter(|e| !e.is_start).count();
    assert_eq!(enters, n);
    assert_eq!(exits, n);
    assert_eq!(se.events.len(), 2 * n);
}

#[test]
fn advancing_to_the_end_empties_the_active_set() {
    let ranges = vec![sec(0, 0x100, "a"), sec(0x50, 0x1000, "b"), sec(0x50, 0x1000, "c")];
    let mut se = SectionEvents::new(ranges);
    let mut hp = HexPrinter::new(16, false);
    se.advance(0x60, &mut hp, false);
    assert!(se.get().is_some());
    se.advance(u64::MAX, &mut hp, false);
    assert_eq!(se.cur_symbols.len(), 0);
    assert_eq!(se.get(), None);
}

#[test]
fn enters_precede_exits_at_equal_addresses() {
    let ranges = vec![
        sec(0x10, 0x10, "a"),
        sec(0x20, 0x10, "b"),
        sec(0x20, 0, "z"),
        sec(0x08, 0x18, "c"),
    ];
    let se = SectionEvents::new(ranges);
    for i in 0..se.events.len() {
        for j in (i + 1)..se.events.len() {
            let a = se.events[i];
            let b = se.events[j];
            if a.addr == b.addr && b.is_start {
                assert!(a.is_start, "exit processed before enter at {:#x}", a.addr);
            }
        }
    }
}

#[test]
fn get_returns_highest_active_index() {
    let ranges = vec![sec(0x10, 0x10, "A"), sec(0x14, 0x8, "B")];
    let mut se = SectionEvents::new(ranges);
    let mut hp = HexPrinter::new(16, false);
    assert_eq!(se.get(), None);
    se.advance(0x0f, &mut hp, false);
    assert_eq!(se.get(), None);
    se.advance(0x10, &mut hp, false);
    assert_eq!(se.get(), Some(0));
    se.advance(0x13, &mut hp, false);
    assert_eq!(se.get(), Some(0));
    se.advance(0x14, &mut hp, false);
    assert_eq!(se.get(), Some(1));
    se.advance(0x1b, &mut hp, false);
    assert_eq!(se.get(), Some(1));
    se.advance(0x1c, &mut hp, false);
    assert_eq!(se.get(), Some(0));
    se.advance(0x1f, &mut hp, false);
    assert_eq!(se.get(), Some(0));
    se.advance(0x20, &mut hp, false);
    assert_eq!(se.get(), None);
}

#[test]
fn ties_go_to_the_later_declaration() {
    let ranges = vec![sec(0x10, 0x10, "outer"), sec(0x10, 0x10, "inner")];
    let mut se = SectionEvents::new(ranges);
    let mut hp = HexPrinter::new(16, false);
    se.advance(0x10, &mut hp, false);
    assert_eq!(se.get(), Some(1));
}

#[test]
fn zero_size_range_is_never_active() {
    let ranges = vec![sec(0x08, 0, "z")];
    let mut se = SectionEvents::new(ranges);
    let mut hp = HexPrinter::new(16, false);
    se.advance(0x08, &mut hp, false);
    assert_eq!(se.get(), None);
    assert_eq!(se.cur_symbols.len(), 0);
}

#[test]
fn repeated_advance_is_a_no_op() {
    let ranges = vec![sec(0x04, 0x10, "a"), sec(0x08, 0x2, "b")];
    let mut se = SectionEvents::new(ranges);
    let mut hp = HexPrinter::new(16, true);
    se.advance(0x09, &mut hp, false);
    let idx = se.idx;
    let cur = se.cur_symbols.clone();
    let runs: Vec<String> = hp.printer.runs.iter().map(|r| r.text.clone()).collect();
    let nlabels = hp.labels.len();
    se.advance(0x09, &mut hp, false);
    assert_eq!(se.idx, idx);
    assert_eq!(se.cur_symbols, cur);
    let runs2: Vec<String> = hp.printer.runs.iter().map(|r| r.text.clone()).collect();
    assert_eq!(runs, runs2);
    assert_eq!(hp.labels.len(), nlabels);
    // a smaller address is a no-op as well
    se.advance(0x02, &mut hp, false);
    assert_eq!(se.idx, idx);
    assert_eq!(se.cur_symbols, cur);
}

#[test]
fn events_at_address_zero_trigger_the_boundary() {
    // a range starting at address 0 gets the boundary flush and address
    // reset like any other first-reached event address
    let ranges = vec![sec(0, 4, "a")];
    let mut se = SectionEvents::new(ranges);
    let mut hp = HexPrinter::new(4, true);
    hp.push_byte(0x41, 1, 2);
    se.advance(0, &mut hp, false);
    let text: String = hp.printer.runs.iter().map(|r| r.text.clone()).collect();
    assert!(text.starts_with("0x00000000 | 41 "));
    assert_eq!(text.matches('\n').count(), 1);
    assert_eq!(hp.labels.len(), 1);
}
