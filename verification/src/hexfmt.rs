//! Verified hexadecimal text formatting.
//!
//! Addresses are rendered as `0x`-prefixed, zero-padded hex (at least eight
//! digits); sizes as `0x`-prefixed minimal hex; byte values as two digits.

use vstd::prelude::*;

verus! {

/// The lowercase character for one hex digit value.
pub open spec fn hex_digit(n: int) -> char {
    if n == 0 { '0' }
    else if n == 1 { '1' }
    else if n == 2 { '2' }
    else if n == 3 { '3' }
    else if n == 4 { '4' }
    else if n == 5 { '5' }
    else if n == 6 { '6' }
    else if n == 7 { '7' }
    else if n == 8 { '8' }
    else if n == 9 { '9' }
    else if n == 10 { 'a' }
    else if n == 11 { 'b' }
    else if n == 12 { 'c' }
    else if n == 13 { 'd' }
    else if n == 14 { 'e' }
    else { 'f' }
}

/// The low `width` hex digits of `v`, most significant first.
pub open spec fn hex_digits(v: int, width: nat) -> Seq<char>
    decreases width,
{
    if width == 0 {
        Seq::empty()
    } else {
        hex_digits(v / 16, (width - 1) as nat).push(hex_digit(v % 16))
    }
}

/// The number of digits in the minimal hex rendering of `v`.
pub open spec fn hex_len(v: int) -> nat
    decreases v,
{
    if v < 16 { 1 } else { (1 + hex_len(v / 16)) as nat }
}

/// The text of an address: `0x` plus hex digits zero-padded to at least
/// eight.
pub open spec fn hex_addr(v: int) -> Seq<char> {
    seq!['0', 'x'] + hex_digits(v, if hex_len(v) < 8 { 8 } else { hex_len(v) })
}

/// The text of a size: `0x` plus minimal hex digits.
pub open spec fn hex_bare(v: int) -> Seq<char> {
    seq!['0', 'x'] + hex_digits(v, hex_len(v))
}

/// The character shown in the ASCII column for a byte: the byte itself when
/// it is a graphic ASCII character, a dot otherwise.
pub open spec fn glyph(b: u8) -> char {
    if 0x21 <= b && b <= 0x7e { b as char } else { '.' }
}

/// Relies on `String::push`: appends the given character to the end of the
/// string.
#[verifier::external_body]
pub fn push_char(s: &mut String, c: char)
    ensures
        final(s)@ == old(s)@.push(c),
{
    s.push(c);
}

pub fn hex_digit_of(n: u64) -> (c: char)
    requires
        n < 16,
    ensures
        c == hex_digit(n as int),
{
    if n == 0 { '0' }
    else if n == 1 { '1' }
    else if n == 2 { '2' }
    else if n == 3 { '3' }
    else if n == 4 { '4' }
    else if n == 5 { '5' }
    else if n == 6 { '6' }
    else if n == 7 { '7' }
    else if n == 8 { '8' }
    else if n == 9 { '9' }
    else if n == 10 { 'a' }
    else if n == 11 { 'b' }
    else if n == 12 { 'c' }
    else if n == 13 { 'd' }
    else if n == 14 { 'e' }
    else { 'f' }
}

/// A fixed-width rendering has exactly its width in characters.
pub proof fn lemma_hex_digits_len(v: int, width: nat)
    ensures
        hex_digits(v, width).len() == width,
    decreases width,
{
    if width > 0 {
        lemma_hex_digits_len(v / 16, (width - 1) as nat);
    }
}

/// `hex_len` never exceeds `k` digits for values below `16^k`.
proof fn lemma_hex_len_le(v: int, k: nat)
    requires
        0 <= v,
        1 <= k,
        v < pow16(k),
    ensures
        hex_len(v) <= k,
    decreases k,
{
    if v < 16 {
    } else if k == 1 {
        assert(pow16(0) == 1);
        assert(pow16(1) == 16 * pow16(0));
        assert(false);
    } else {
        lemma_pow16_pos((k - 1) as nat);
        assert(pow16(k) == 16 * pow16((k - 1) as nat));
        assert(v / 16 < pow16((k - 1) as nat)) by (nonlinear_arith)
            requires
                0 <= v,
                v < 16 * pow16((k - 1) as nat),
                pow16((k - 1) as nat) >= 1,
        ;
        lemma_hex_len_le(v / 16, (k - 1) as nat);
    }
}

proof fn lemma_pow16_pos(k: nat)
    ensures
        pow16(k) >= 1,
    decreases k,
{
    if k > 0 {
        lemma_pow16_pos((k - 1) as nat);
    }
}

/// `16^k`, used only to bound digit counts.
pub open spec fn pow16(k: nat) -> int
    decreases k,
{
    if k == 0 { 1 } else { 16 * pow16((k - 1) as nat) }
}

pub fn hex_len_of(v: u64) -> (n: usize)
    ensures
        n == hex_len(v as int),
        1 <= n <= 16,
    decreases v,
{
    proof {
        reveal_with_fuel(pow16, 17);
        assert(pow16(16) == 0x1_0000_0000_0000_0000);
        lemma_hex_len_le(v as int, 16);
    }
    if v < 16 {
        1
    } else {
        let m = hex_len_of(v / 16);
        m + 1
    }
}

/// Appends the low `width` hex digits of `v` to `s`.
pub fn push_hex_digits(s: &mut String, v: u64, width: usize)
    ensures
        final(s)@ == old(s)@ + hex_digits(v as int, width as nat),
    decreases width,
{
    if width > 0 {
        push_hex_digits(s, v / 16, width - 1);
        push_char(s, hex_digit_of(v % 16));
        proof {
            assert(s@ =~= old(s)@ + hex_digits(v as int, width as nat));
        }
    } else {
        proof {
            assert(s@ =~= old(s)@ + hex_digits(v as int, 0));
        }
    }
}

/// Appends the address form `{:#010x}` of `v` to `s`.
pub fn push_hex_addr(s: &mut String, v: u64)
    ensures
        final(s)@ == old(s)@ + hex_addr(v as int),
{
    push_char(s, '0');
    push_char(s, 'x');
    let len = hex_len_of(v);
    let width = if len < 8 { 8 } else { len };
    push_hex_digits(s, v, width);
    proof {
        assert(s@ =~= old(s)@ + hex_addr(v as int));
    }
}

/// Appends the minimal form `{:#x}` of `v` to `s`.
pub fn push_hex_bare(s: &mut String, v: u64)
    ensures
        final(s)@ == old(s)@ + hex_bare(v as int),
{
    push_char(s, '0');
    push_char(s, 'x');
    let len = hex_len_of(v);
    push_hex_digits(s, v, len);
    proof {
        assert(s@ =~= old(s)@ + hex_bare(v as int));
    }
}

pub fn glyph_of(b: u8) -> (c: char)
    ensures
        c == glyph(b),
{
    if 0x21 <= b && b <= 0x7e {
        b as char
    } else {
        '.'
    }
}

} // verus!
