//! Number-to-text rendering used for decoded values and summaries.

use vstd::prelude::*;

verus! {

/// The text of one decimal digit.
pub open spec fn digit_text(d: nat) -> Seq<char> {
    if d == 0 { "0"@ }
    else if d == 1 { "1"@ }
    else if d == 2 { "2"@ }
    else if d == 3 { "3"@ }
    else if d == 4 { "4"@ }
    else if d == 5 { "5"@ }
    else if d == 6 { "6"@ }
    else if d == 7 { "7"@ }
    else if d == 8 { "8"@ }
    else { "9"@ }
}

/// The text of one uppercase hexadecimal digit.
pub open spec fn hex_digit_text(d: nat) -> Seq<char> {
    if d < 10 { digit_text(d) }
    else if d == 10 { "A"@ }
    else if d == 11 { "B"@ }
    else if d == 12 { "C"@ }
    else if d == 13 { "D"@ }
    else if d == 14 { "E"@ }
    else { "F"@ }
}

/// The decimal rendering of a natural number, without leading zeros.
pub open spec fn dec(n: nat) -> Seq<char>
    decreases n,
{
    if n < 10 { digit_text(n) } else { dec(n / 10) + digit_text(n % 10) }
}

/// The decimal rendering of an integer, with a leading minus sign when negative.
pub open spec fn signed_dec(i: int) -> Seq<char> {
    if i < 0 { "-"@ + dec((-i) as nat) } else { dec(i as nat) }
}

/// The last `count` uppercase hexadecimal digits of `n`, most significant first.
pub open spec fn hex_digits(n: nat, count: nat) -> Seq<char>
    decreases count,
{
    if count == 0 { Seq::empty() } else { hex_digits(n / 16, (count - 1) as nat) + hex_digit_text(n % 16) }
}

/// Appends one decimal digit.
pub fn push_digit(s: &mut String, d: u128)
    requires
        d < 10,
    ensures
        final(s)@ == old(s)@ + digit_text(d as nat),
{
    if d == 0 { s.append("0"); }
    else if d == 1 { s.append("1"); }
    else if d == 2 { s.append("2"); }
    else if d == 3 { s.append("3"); }
    else if d == 4 { s.append("4"); }
    else if d == 5 { s.append("5"); }
    else if d == 6 { s.append("6"); }
    else if d == 7 { s.append("7"); }
    else if d == 8 { s.append("8"); }
    else { s.append("9"); }
}

/// Appends one uppercase hexadecimal digit.
pub fn push_hex_digit(s: &mut String, d: u128)
    requires
        d < 16,
    ensures
        final(s)@ == old(s)@ + hex_digit_text(d as nat),
{
    if d < 10 { push_digit(s, d); }
    else if d == 10 { s.append("A"); }
    else if d == 11 { s.append("B"); }
    else if d == 12 { s.append("C"); }
    else if d == 13 { s.append("D"); }
    else if d == 14 { s.append("E"); }
    else { s.append("F"); }
}

/// Appends the decimal rendering of `n`.
pub fn push_dec(s: &mut String, n: u128)
    ensures
        final(s)@ == old(s)@ + dec(n as nat),
    decreases n,
{
    if n >= 10 {
        push_dec(s, n / 10);
        push_digit(s, n % 10);
        assert(final(s)@ =~= old(s)@ + dec(n as nat));
    } else {
        push_digit(s, n);
    }
}

/// Appends the decimal rendering of a signed number.
pub fn push_signed(s: &mut String, i: i64)
    ensures
        final(s)@ == old(s)@ + signed_dec(i as int),
{
    if i < 0 {
        s.append("-");
        let m: u128 = ((-(i + 1)) as u128) + 1;
        push_dec(s, m);
        assert(final(s)@ =~= old(s)@ + signed_dec(i as int));
    } else {
        push_dec(s, i as u128);
    }
}

/// Appends the last `count` uppercase hexadecimal digits of `n`.
pub fn push_hex(s: &mut String, n: u128, count: u64)
    ensures
        final(s)@ == old(s)@ + hex_digits(n as nat, count as nat),
    decreases count,
{
    if count > 0 {
        push_hex(s, n / 16, count - 1);
        push_hex_digit(s, n % 16);
        assert(final(s)@ =~= old(s)@ + hex_digits(n as nat, count as nat));
    }
}

/// The last `count` binary digits of `n`, most significant first.
pub open spec fn bin_digits(n: nat, count: nat) -> Seq<char>
    decreases count,
{
    if count == 0 { Seq::empty() } else { bin_digits(n / 2, (count - 1) as nat) + digit_text(n % 2) }
}

/// Appends the last `count` binary digits of `n`.
pub fn push_bin(s: &mut String, n: u128, count: u64)
    ensures
        final(s)@ == old(s)@ + bin_digits(n as nat, count as nat),
    decreases count,
{
    if count > 0 {
        push_bin(s, n / 2, count - 1);
        push_digit(s, n % 2);
        assert(final(s)@ =~= old(s)@ + bin_digits(n as nat, count as nat));
    }
}

/// How a byte shows as text: its character from space to `~`, else `.`.
pub open spec fn shown_char(b: u8) -> char {
    if 0x20 <= b < 0x7f { b as char } else { '.' }
}

/// Appends the character a byte shows as.
pub fn push_shown_char(s: &mut String, b: u8)
    ensures
        final(s)@ == old(s)@.push(shown_char(b)),
{
    let table = " !\"#$%&'()*+,-./0123456789:;<=>?@ABCDEFGHIJKLMNOPQRSTUVWXYZ[\\]^_`abcdefghijklmnopqrstuvwxyz{|}~";
    proof {
        reveal_strlit(" !\"#$%&'()*+,-./0123456789:;<=>?@ABCDEFGHIJKLMNOPQRSTUVWXYZ[\\]^_`abcdefghijklmnopqrstuvwxyz{|}~");
        reveal_strlit(".");
    }
    if 0x20 <= b && b < 0x7f {
        let i = (b - 0x20) as usize;
        assert(table@.len() == 95);
        assert(table.is_ascii());
        let one = table.substring_ascii(i, i + 1);
        assert(table@[i as int] == b as char);
        s.append(one);
        assert(final(s)@ =~= old(s)@.push(shown_char(b)));
    } else {
        s.append(".");
        assert(final(s)@ =~= old(s)@.push(shown_char(b)));
    }
}

/// The inspector's line for a byte: hexadecimal, decimal, binary, and the
/// character it shows as.
pub open spec fn byte_line_text(b: u8) -> Seq<char> {
    "0x"@ + hex_digits(b as nat, 2) + " · "@ + dec(b as nat) + " · 0b"@ + bin_digits(b as nat, 8) + " · '"@
        + seq![shown_char(b)] + "'"@
}

/// The inspector's line for a byte, such as `0x41 · 65 · 0b01000001 · 'A'`.
pub fn byte_line(b: u8) -> (s: String)
    ensures
        s@ == byte_line_text(b),
{
    let mut s = String::new();
    s.append("0x");
    push_hex(&mut s, b as u128, 2);
    s.append(" · ");
    push_dec(&mut s, b as u128);
    s.append(" · 0b");
    push_bin(&mut s, b as u128, 8);
    s.append(" · '");
    push_shown_char(&mut s, b);
    s.append("'");
    assert(s@ =~= byte_line_text(b));
    s
}

/// The text that `String::from_utf8_lossy` makes of some bytes: the bytes
/// decoded as UTF-8, each invalid sequence replaced by U+FFFD.
pub uninterp spec fn utf8_lossy(bytes: Seq<u8>) -> Seq<char>;

/// Decodes bytes as UTF-8 with `String::from_utf8_lossy`. The contract names
/// the result, and states only that ASCII bytes (valid UTF-8, one character
/// each) come back as their characters.
#[verifier::external_body]
pub(crate) fn lossy_text(bytes: &[u8]) -> (s: String)
    ensures
        s@ == utf8_lossy(bytes@),
        (forall|i: int| 0 <= i < bytes@.len() ==> #[trigger] bytes@[i] < 0x80) ==> s@ == bytes@.map_values(|b: u8| b as char),
{
    String::from_utf8_lossy(bytes).into_owned()
}

/// The decimal rendering of `n` as a fresh string.
pub fn dec_string(n: u128) -> (r: String)
    ensures
        r@ == dec(n as nat),
{
    let mut s = String::new();
    push_dec(&mut s, n);
    assert(s@ =~= dec(n as nat));
    s
}

} // verus!
