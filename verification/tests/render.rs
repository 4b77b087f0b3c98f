use hexspect::app::run_inner;
use hexspect::blocks::{Block, Section};
use hexspect::style::{Paint, StyledRun, TextStyle};

fn sec(addr: u64, size: u64, name: &str) -> Section {
    Section { addr, size, name: String::from(name) }
}

fn blk(addr: u64, body: Vec<u8>) -> Block {
    Block { addr, name: String::from("blk"), body }
}

fn text_of(runs: &[StyledRun]) -> String {
    let mut s = String::new();
    for r in runs.iter() {
        s.push_str(&r.text);
    }
    s
}

#[test]
fn one_full_width_block_renders_one_line() {
    let out = run_inner(vec![blk(0, vec![0x41u8; 16])], vec![], vec![], 16, false);
    let text = text_of(&out);
    assert_eq!(
        text,
        "0x00000000 | 41 41 41 41 41 41 41 41  41 41 41 41 41 41 41 41  | AAAAAAAAAAAAAAAA | \n"
    );
    assert_eq!(text.matches('\n').count(), 1);
    assert!(!text.contains("..."));
}

#[test]
fn distant_blocks_get_a_single_gap_marker() {
    let out = run_inner(
        vec![blk(0, vec![0u8; 16]), blk(0x30, vec![0u8; 16])],
        vec![],
        vec![],
        16,
        false,
    );
    let text = text_of(&out);
    let lines: Vec<&str> = text.split('\n').collect();
    assert_eq!(lines.iter().filter(|l| **l == "...").count(), 1);
    assert_eq!(text.matches('\n').count(), 3);
    assert!(lines[0].starts_with("0x00000000 | "));
    assert_eq!(lines[1], "...");
    assert!(lines[2].starts_with("0x00000030 | "));
}

#[test]
fn adjacent_lines_get_no_gap_marker() {
    let out = run_inner(
        vec![blk(0, vec![0u8; 16]), blk(0x20, vec![0u8; 16])],
        vec![],
        vec![],
        16,
        false,
    );
    let text = text_of(&out);
    assert!(!text.split('\n').any(|l| l == "..."));
    assert_eq!(text.matches('\n').count(), 2);
}

#[test]
fn repeated_base_address_renders_blank() {
    let out = run_inner(
        vec![blk(0, vec![1, 2, 3, 4]), blk(4, vec![5, 6, 7, 8])],
        vec![],
        vec![],
        16,
        true,
    );
    let text = text_of(&out);
    let lines: Vec<&str> = text.split('\n').collect();
    assert!(lines[0].starts_with("0x00000000 | 01 02 03 04 "));
    assert!(lines[1].starts_with("           | "));
    assert!(lines[1].contains("05 06 07 08 "));
}

#[test]
fn overlapping_ranges_label_and_color_by_declaration() {
    let sections = vec![sec(0x10, 0x10, "A"), sec(0x14, 0x8, "B")];
    let out = run_inner(vec![blk(0, vec![0u8; 32])], sections, vec![], 16, false);
    let text = text_of(&out);
    let lines: Vec<&str> = text.split('\n').collect();
    assert_eq!(lines.len(), 3);
    assert!(lines[0].starts_with("0x00000000 | "));
    assert!(lines[1].starts_with("0x00000010 | "));
    assert!(lines[1].ends_with(" | [A] [B] "));
    assert!(!lines[0].contains("[A]"));
    let a_run = out.iter().find(|r| r.text == "[A]").expect("label [A] missing");
    assert_eq!(
        a_run.style,
        TextStyle { fg: Paint::Fixed(1), bg: Paint::Plain, bold: false }
    );
    let b_run = out.iter().find(|r| r.text == "[B]").expect("label [B] missing");
    assert_eq!(
        b_run.style,
        TextStyle { fg: Paint::Fixed(2), bg: Paint::Plain, bold: false }
    );
}

#[test]
fn section_backgrounds_alternate_by_index() {
    let sections = vec![sec(0x10, 0x10, "A"), sec(0x14, 0x8, "B")];
    let out = run_inner(vec![blk(0, vec![0u8; 32])], sections, vec![], 16, false);
    // bytes under only A (index 0) use the first shade; under B (index 1) the second
    let shade_a = out
        .iter()
        .any(|r| r.text.contains("00 ")
            && r.style == TextStyle { fg: Paint::Fixed(8), bg: Paint::Fixed(232), bold: false });
    let shade_b = out
        .iter()
        .any(|r| r.text.contains("00 ")
            && r.style == TextStyle { fg: Paint::Fixed(8), bg: Paint::Fixed(236), bold: false });
    assert!(shade_a);
    assert!(shade_b);
}

#[test]
fn symbols_get_verbose_labels() {
    let symbols = vec![sec(0x4, 0x8, "sym")];
    let out = run_inner(vec![blk(0, vec![0u8; 16])], vec![], symbols, 16, false);
    let text = text_of(&out);
    assert!(text.contains("0x00000004+0x8: sym"));
    let run = out
        .iter()
        .find(|r| r.text == "0x00000004+0x8: sym")
        .expect("verbose label missing");
    assert_eq!(
        run.style,
        TextStyle { fg: Paint::Fixed(1), bg: Paint::Plain, bold: false }
    );
}

#[test]
fn grouping_space_only_for_multiples_of_eight() {
    let out16 = run_inner(vec![blk(0, vec![0u8; 16])], vec![], vec![], 16, false);
    let text16 = text_of(&out16);
    assert!(text16.contains("00 00 00 00 00 00 00 00  00"));
    let out15 = run_inner(vec![blk(0, vec![0u8; 15])], vec![], vec![], 15, false);
    let text15 = text_of(&out15);
    assert_eq!(
        text15,
        "0x00000000 | 00 00 00 00 00 00 00 00 00 00 00 00 00 00 00 | ............... | \n"
    );
}

#[test]
fn ascii_column_shows_graphic_characters() {
    let out = run_inner(vec![blk(0, b"Hi!~ \x7f".to_vec())], vec![], vec![], 8, false);
    let text = text_of(&out);
    assert!(text.contains("48 69 21 7e 20 7f"));
    assert!(text.contains("Hi!~.."));
}

#[test]
fn empty_input_renders_nothing() {
    let out = run_inner(vec![], vec![], vec![], 16, false);
    assert_eq!(text_of(&out), "");
    let out2 = run_inner(vec![blk(0, vec![])], vec![], vec![], 16, true);
    assert_eq!(text_of(&out2), "");
}

#[test]
fn zero_size_range_still_shows_its_label() {
    let sections = vec![sec(0x4, 0, "z")];
    let out = run_inner(vec![blk(0, vec![0u8; 16])], sections, vec![], 16, false);
    let text = text_of(&out);
    assert!(text.contains("[z]"));
}

#[test]
fn adjacent_runs_always_differ_in_style() {
    let sections = vec![sec(0x2, 0x6, "A"), sec(0x4, 0x8, "B")];
    let symbols = vec![sec(0x1, 0x4, "s")];
    let out = run_inner(vec![blk(0, vec![0x41u8; 16])], sections, symbols, 16, true);
    for w in out.windows(2) {
        assert_ne!(w[0].style, w[1].style, "adjacent runs coalesce");
    }
}

#[test]
fn re_annotating_written_columns_restarts_the_line() {
    // a second pass over columns already written flushes what is buffered
    // and renders a fresh line at the same base address
    let out = run_inner(
        vec![blk(0, vec![1u8; 8]), blk(2, vec![2u8; 4])],
        vec![],
        vec![],
        16,
        false,
    );
    let text = text_of(&out);
    let lines: Vec<&str> = text.split('\n').collect();
    assert_eq!(lines.len(), 3);
    assert!(lines[0].starts_with("0x00000000 | 01 01 01 01 01 01 01 01 "));
    assert!(lines[1].starts_with("           |       02 02 02 02 "));
}

#[test]
fn boundary_breaking_splits_lines_at_range_starts() {
    let sections = vec![sec(8, 4, "A")];
    let out = run_inner(vec![blk(0, vec![0u8; 16])], sections, vec![], 16, true);
    let text = text_of(&out);
    let lines: Vec<&str> = text.split('\n').collect();
    // the line is broken both where the range enters and where it exits
    assert_eq!(lines.len(), 4);
    assert!(lines[0].starts_with("0x00000000 | 00 00 00 00 00 00 00 00 "));
    assert!(!lines[0].contains("[A]"));
    assert!(lines[1].starts_with("           | "));
    assert!(lines[1].ends_with(" | [A] "));
    assert!(lines[2].starts_with("           | "));
    assert!(!lines[2].contains("[A]"));
}

#[test]
fn partial_line_pads_with_blanks() {
    let out = run_inner(vec![blk(0, vec![0xffu8; 3])], vec![], vec![], 8, false);
    let text = text_of(&out);
    let mut expected = String::from("0x00000000 | ");
    expected.push_str("ff ff ff ");
    for _ in 0..5 {
        expected.push_str("   ");
    }
    expected.push_str(" ");
    expected.push_str("| ");
    expected.push_str("...");
    for _ in 0..5 {
        expected.push_str(" ");
    }
    expected.push_str(" | \n");
    assert_eq!(text, expected);
}

#[test]
fn a_range_starting_at_address_zero_is_announced() {
    let sections = vec![sec(0, 4, "a")];
    let out = run_inner(vec![blk(0, vec![0u8; 4])], sections, vec![], 4, false);
    let text = text_of(&out);
    assert!(text.starts_with("0x00000000 | "));
    assert!(text.contains("[a]"));
    assert_eq!(text.matches('\n').count(), 1);
}
