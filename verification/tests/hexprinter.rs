use hexspect::hexprinter::HexPrinter;
use hexspect::style::{Paint, StyledOut, TextStyle};

fn text_of(hp: &HexPrinter) -> String {
    let mut s = String::new();
    for r in hp.printer.runs.iter() {
        s.push_str(&r.text);
    }
    s
}

#[test]
fn forced_flush_emits_even_an_empty_line() {
    let mut hp = HexPrinter::new(4, false);
    hp.flush_line_force();
    let mut expected = String::from("0x00000000 | ");
    for _ in 0..4 {
        expected.push_str("   ");
    }
    expected.push_str("| ");
    expected.push_str("    ");
    expected.push_str(" | \n");
    assert_eq!(text_of(&hp), expected);
}

#[test]
fn conditional_flush_skips_a_line_without_data() {
    let mut hp = HexPrinter::new(4, false);
    hp.flush_line();
    assert_eq!(text_of(&hp), "");
    hp.add_label(String::from("L"), TextStyle::plain());
    hp.flush_line();
    assert!(text_of(&hp).ends_with(" | L \n"));
}

#[test]
fn a_full_line_flushes_itself() {
    let mut hp = HexPrinter::new(2, false);
    hp.push_byte(0x41, 1, 2);
    assert_eq!(text_of(&hp), "");
    hp.push_byte(0x42, 1, 2);
    assert_eq!(text_of(&hp), "0x00000000 | 41 42 | AB | \n");
    assert_eq!(hp.line_addr, 2);
}

#[test]
fn setting_a_distant_address_emits_the_gap_marker() {
    let mut hp = HexPrinter::new(4, false);
    hp.push_byte(0x41, 1, 2);
    hp.set_addr(0x41);
    let text = text_of(&hp);
    assert!(text.split('\n').any(|l| l == "..."));
    assert_eq!(hp.line_addr, 0x40);
    assert_eq!(hp.bytes.len(), 1);
}

#[test]
fn bound_respects_the_configuration() {
    let mut hp = HexPrinter::new(4, false);
    hp.push_byte(0x41, 1, 2);
    hp.bound();
    assert_eq!(text_of(&hp), "");
    let mut hp = HexPrinter::new(4, true);
    hp.push_byte(0x41, 1, 2);
    hp.bound();
    assert!(text_of(&hp).starts_with("0x00000000 | 41 "));
}

#[test]
fn prints_coalesce_by_style() {
    let mut so = StyledOut::new();
    let plain = TextStyle::plain();
    let red = TextStyle { fg: Paint::Fixed(1), bg: Paint::Plain, bold: false };
    so.print(plain, "a");
    so.print(plain, "b");
    assert_eq!(so.runs.len(), 1);
    assert_eq!(so.runs[0].text, "ab");
    so.print(red, "c");
    assert_eq!(so.runs.len(), 2);
    so.raw("d");
    assert_eq!(so.runs.len(), 2);
    assert_eq!(so.runs[1].text, "cd");
    assert_eq!(so.runs[1].style, red);
}
