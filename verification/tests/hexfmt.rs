use hexspect::hexfmt::{glyph_of, hex_digit_of, hex_len_of, push_hex_addr, push_hex_bare, push_hex_digits};

#[test]
fn hex_digits_cover_all_values() {
    let digits = "0123456789abcdef";
    for (i, expected) in digits.chars().enumerate() {
        assert_eq!(hex_digit_of(i as u64), expected);
    }
}

#[test]
fn hex_len_counts_minimal_digits() {
    assert_eq!(hex_len_of(0), 1);
    assert_eq!(hex_len_of(0xf), 1);
    assert_eq!(hex_len_of(0x10), 2);
    assert_eq!(hex_len_of(0xff), 2);
    assert_eq!(hex_len_of(0x100), 3);
    assert_eq!(hex_len_of(u64::MAX), 16);
}

#[test]
fn address_form_pads_to_eight_digits() {
    let mut s = String::new();
    push_hex_addr(&mut s, 0);
    assert_eq!(s, "0x00000000");
    let mut s = String::new();
    push_hex_addr(&mut s, 0xdeadbeef);
    assert_eq!(s, "0xdeadbeef");
    let mut s = String::new();
    push_hex_addr(&mut s, 0x10);
    assert_eq!(s, "0x00000010");
}

#[test]
fn address_form_grows_past_eight_digits() {
    let mut s = String::new();
    push_hex_addr(&mut s, 0x1_2345_6789);
    assert_eq!(s, "0x123456789");
    let mut s = String::new();
    push_hex_addr(&mut s, u64::MAX);
    assert_eq!(s, "0xffffffffffffffff");
}

#[test]
fn bare_form_is_minimal() {
    let mut s = String::new();
    push_hex_bare(&mut s, 0);
    assert_eq!(s, "0x0");
    let mut s = String::new();
    push_hex_bare(&mut s, 0x10);
    assert_eq!(s, "0x10");
    let mut s = String::new();
    push_hex_bare(&mut s, 0xabc);
    assert_eq!(s, "0xabc");
}

#[test]
fn fixed_width_digits_append() {
    let mut s = String::from("x");
    push_hex_digits(&mut s, 0xab, 2);
    assert_eq!(s, "xab");
    let mut s = String::new();
    push_hex_digits(&mut s, 0x5, 2);
    assert_eq!(s, "05");
}

#[test]
fn glyphs_show_graphic_ascii_only() {
    assert_eq!(glyph_of(b'A'), 'A');
    assert_eq!(glyph_of(b'~'), '~');
    assert_eq!(glyph_of(b'!'), '!');
    assert_eq!(glyph_of(0x20), '.');
    assert_eq!(glyph_of(0x00), '.');
    assert_eq!(glyph_of(0x7f), '.');
    assert_eq!(glyph_of(0xff), '.');
}
