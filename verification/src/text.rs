//! Decimal text: what a message, a header and a line of output are spelled with.

use vstd::prelude::*;

verus! {

/// The character of a decimal digit.
pub open spec fn digit(d: nat) -> char {
    if d == 0 { '0' }
    else if d == 1 { '1' }
    else if d == 2 { '2' }
    else if d == 3 { '3' }
    else if d == 4 { '4' }
    else if d == 5 { '5' }
    else if d == 6 { '6' }
    else if d == 7 { '7' }
    else if d == 8 { '8' }
    else { '9' }
}

/// A number in decimal, without leading zeros.
pub open spec fn dec(n: nat) -> Seq<char>
    decreases n,
{
    if n < 10 {
        seq![digit(n)]
    } else {
        dec(n / 10).push(digit(n % 10))
    }
}

/// `width` decimal digits of `n`, padded with zeros on the left.
pub open spec fn padded(n: nat, width: nat) -> Seq<char>
    decreases width,
{
    if width == 0 {
        Seq::empty()
    } else {
        padded(n / 10, (width - 1) as nat).push(digit(n % 10))
    }
}

/// Text that is all ASCII, as bytes.
pub open spec fn ascii(s: Seq<char>) -> Seq<u8> {
    Seq::new(s.len(), |i: int| s[i] as u8)
}

/// `String::push` of the standard library: the string with one character more
/// at its end.
pub assume_specification[ String::push ](s: &mut String, c: char)
    ensures
        final(s)@ == old(s)@.push(c),
;

/// The character of a decimal digit.
pub fn digit_char(d: u64) -> (c: char)
    requires
        d < 10,
    ensures
        c == digit(d as nat),
{
    match d {
        0 => '0',
        1 => '1',
        2 => '2',
        3 => '3',
        4 => '4',
        5 => '5',
        6 => '6',
        7 => '7',
        8 => '8',
        _ => '9',
    }
}

/// The ASCII byte of a decimal digit.
pub fn digit_byte(d: u64) -> (b: u8)
    requires
        d < 10,
    ensures
        b == digit(d as nat) as u8,
{
    (48 + d) as u8
}

/// Appends `n` in decimal.
pub fn push_dec(s: &mut String, n: u64)
    ensures
        final(s)@ == old(s)@ + dec(n as nat),
    decreases n,
{
    if n >= 10 {
        push_dec(s, n / 10);
        s.push(digit_char(n % 10));
    } else {
        s.push(digit_char(n));
    }
    assert(s@ =~= old(s)@ + dec(n as nat));
}

/// Appends `n` in decimal.
pub fn push_wide(s: &mut String, n: u128)
    ensures
        final(s)@ == old(s)@ + dec(n as nat),
    decreases n,
{
    if n >= 10 {
        push_wide(s, n / 10);
        s.push(digit_char((n % 10) as u64));
    } else {
        s.push(digit_char(n as u64));
    }
    assert(s@ =~= old(s)@ + dec(n as nat));
}

/// An integer in decimal, with its sign if it has one.
pub open spec fn signed(n: int) -> Seq<char> {
    if n < 0 {
        seq!['-'] + dec((-n) as nat)
    } else {
        dec(n as nat)
    }
}

/// Appends `n` in decimal, with its sign if it has one.
pub fn push_signed(s: &mut String, n: i128)
    requires
        n > i128::MIN,
    ensures
        final(s)@ == old(s)@ + signed(n as int),
{
    if n < 0 {
        s.push('-');
        push_wide(s, (-n) as u128);
        assert(s@ =~= old(s)@ + signed(n as int));
    } else {
        push_wide(s, n as u128);
    }
}

/// `n` in decimal.
pub fn decimal(n: u64) -> (s: String)
    ensures
        s@ == dec(n as nat),
{
    let mut s = String::new();
    push_dec(&mut s, n);
    assert(s@ =~= dec(n as nat));
    s
}

/// Appends `value` in decimal to a line of bytes.
pub fn push_long(out: &mut Vec<u8>, value: u64)
    ensures
        final(out)@ == old(out)@ + ascii(dec(value as nat)),
    decreases value,
{
    if value >= 10 {
        push_long(out, value / 10);
        out.push(digit_byte(value % 10));
    } else {
        out.push(digit_byte(value));
    }
    assert(out@ =~= old(out)@ + ascii(dec(value as nat)));
}

/// Appends `value` in decimal to a line of bytes.
pub fn push_int(out: &mut Vec<u8>, value: usize)
    ensures
        final(out)@ == old(out)@ + ascii(dec(value as nat)),
{
    push_long(out, value as u64);
}

/// Appends `width` decimal digits of `value` to a line of bytes, padded with
/// zeros on the left.
pub fn push_padded(out: &mut Vec<u8>, value: u64, width: usize)
    ensures
        final(out)@ == old(out)@ + ascii(padded(value as nat, width as nat)),
    decreases width,
{
    if width > 0 {
        push_padded(out, value / 10, width - 1);
        out.push(digit_byte(value % 10));
    }
    assert(out@ =~= old(out)@ + ascii(padded(value as nat, width as nat)));
}

} // verus!
