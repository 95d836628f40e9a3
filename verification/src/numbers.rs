//! Numbers as they are written on a command line.

use vstd::prelude::*;

use crate::text::{dec, digit};

verus! {

/// What a digit stands for, if a character is one.
pub open spec fn digit_value(c: char) -> Option<nat> {
    if '0' <= c && c <= '9' {
        Some((c as nat - '0' as nat) as nat)
    } else {
        None
    }
}

/// Whether every character is a digit.
pub open spec fn all_digits(s: Seq<char>) -> bool {
    forall|i: int| 0 <= i < s.len() ==> digit_value(#[trigger] s[i]) is Some
}

/// What a row of digits stands for.
pub open spec fn value(s: Seq<char>) -> nat
    decreases s.len(),
{
    if s.len() == 0 {
        0
    } else {
        10 * value(s.drop_last()) + digit_value(s.last()).unwrap_or(0)
    }
}

/// The number a row of digits stands for, if it is one and no larger than `max`.
pub open spec fn digits(s: Seq<char>, max: nat) -> Option<nat> {
    if s.len() > 0 && all_digits(s) && value(s) <= max {
        Some(value(s))
    } else {
        None
    }
}

/// The number a text stands for, if it is one and no larger than `max`: digits,
/// with or without a plus sign.
pub open spec fn number(s: Seq<char>, max: nat) -> Option<nat> {
    if s.len() > 0 && s[0] == '+' {
        digits(s.skip(1), max)
    } else {
        digits(s, max)
    }
}

/// The number a text stands for, if it is one of 64 bits: digits, with or
/// without a sign.
pub open spec fn whole(s: Seq<char>) -> Option<int> {
    if s.len() > 0 && s[0] == '-' {
        match digits(s.skip(1), 0x8000_0000_0000_0000) {
            None => None,
            Some(n) => Some(-(n as int)),
        }
    } else {
        match number(s, 0x7fff_ffff_ffff_ffff) {
            None => None,
            Some(n) => Some(n as int),
        }
    }
}

/// The characters of a text.
pub fn letters(s: &str) -> (v: Vec<char>)
    ensures
        v@ == s@,
{
    let n: usize = s.unicode_len();
    let mut v: Vec<char> = Vec::new();
    let mut i: usize = 0;
    while i < n
        invariant
            i <= n,
            n == s@.len(),
            v@ == s@.take(i as int),
        decreases n - i,
    {
        v.push(s.get_char(i));
        i += 1;
        assert(v@ =~= s@.take(i as int));
    }
    assert(s@.take(n as int) =~= s@);
    v
}

/// A longer row of digits stands for no less.
proof fn value_grows(s: Seq<char>, k: int)
    requires
        0 <= k <= s.len(),
    ensures
        value(s.take(k)) <= value(s),
    decreases s.len() - k,
{
    if k == s.len() {
        assert(s.take(k) =~= s);
    } else {
        value_grows(s, k + 1);
        assert(s.take(k + 1).drop_last() =~= s.take(k));
    }
}

/// The number the characters from `from` to `to` stand for.
pub fn read_digits(text: &Vec<char>, from: usize, to: usize, max: u64) -> (n: Option<u64>)
    requires
        from <= to <= text@.len(),
    ensures
        n is Some <==> digits(text@.subrange(from as int, to as int), max as nat) is Some,
        n matches Some(v) ==> digits(text@.subrange(from as int, to as int), max as nat) == Some(
            v as nat,
        ),
{
    let ghost s = text@.subrange(from as int, to as int);
    if from == to {
        return None;
    }
    let mut n: u128 = 0;
    let mut i: usize = from;
    while i < to
        invariant
            from <= i <= to <= text@.len(),
            s == text@.subrange(from as int, to as int),
            n == value(s.take(i - from)),
            n <= max,
            forall|j: int| 0 <= j < i - from ==> digit_value(#[trigger] s[j]) is Some,
        decreases to - i,
    {
        let c = text[i];
        assert(s[i - from] == c);
        if !('0' <= c && c <= '9') {
            assert(digit_value(s[i - from]) is None);
            return None;
        }
        proof {
            assert(s.take(i - from + 1).drop_last() =~= s.take(i - from));
            value_grows(s, i - from + 1);
        }
        let d: u32 = c as u32 - '0' as u32;
        n = n * 10 + d as u128;
        i += 1;
        if n > max as u128 {
            return None;
        }
    }
    assert(s.take(to - from) =~= s);
    Some(n as u64)
}

/// The number the characters from `from` to `to` stand for, with or without a
/// plus sign.
pub fn read_number(text: &Vec<char>, from: usize, to: usize, max: u64) -> (n: Option<u64>)
    requires
        from <= to <= text@.len(),
    ensures
        n is Some <==> number(text@.subrange(from as int, to as int), max as nat) is Some,
        n matches Some(v) ==> number(text@.subrange(from as int, to as int), max as nat) == Some(
            v as nat,
        ),
{
    let ghost s = text@.subrange(from as int, to as int);
    if from < to && text[from] == '+' {
        assert(s.skip(1) =~= text@.subrange(from + 1, to as int));
        read_digits(text, from + 1, to, max)
    } else {
        read_digits(text, from, to, max)
    }
}

/// The number a text stands for, if it is one of 64 bits.
pub fn read_whole(text: &Vec<char>) -> (n: Option<i64>)
    ensures
        n is Some <==> whole(text@) is Some,
        n matches Some(v) ==> whole(text@) == Some(v as int),
{
    let len: usize = text.len();
    assert(text@.subrange(0, len as int) =~= text@);
    if len > 0 && text[0] == '-' {
        assert(text@.skip(1) =~= text@.subrange(1, len as int));
        match read_digits(text, 1, len, 0x8000_0000_0000_0000) {
            None => None,
            Some(n) => Some((-(n as i128)) as i64),
        }
    } else {
        match read_number(text, 0, len, 0x7fff_ffff_ffff_ffff) {
            None => None,
            Some(n) => Some(n as i64),
        }
    }
}

/// Where the first comma is, or the end.
pub open spec fn comma(s: Seq<char>) -> int
    decreases s.len(),
{
    if s.len() == 0 || s[0] == ',' {
        0
    } else {
        1 + comma(s.skip(1))
    }
}

/// The comma is within the text.
proof fn comma_within(s: Seq<char>)
    ensures
        0 <= comma(s) <= s.len(),
    decreases s.len(),
{
    if s.len() > 0 && s[0] != ',' {
        comma_within(s.skip(1));
    }
}

/// Numbers before others, unless those were refused.
pub open spec fn prepend(front: Seq<usize>, rest: Result<Seq<usize>, Seq<char>>) -> Result<
    Seq<usize>,
    Seq<char>,
> {
    match rest {
        Ok(ids) => Ok(front + ids),
        Err(bad) => Err(bad),
    }
}

/// The numbers a text lists, parted by commas, or the first part that is none.
pub open spec fn id_list(s: Seq<char>) -> Result<Seq<usize>, Seq<char>>
    decreases s.len(),
    via id_list_shrinks
{
    let c = comma(s);
    let part = s.take(c);
    match number(part, usize::MAX as nat) {
        None => Err(part),
        Some(n) => if c >= s.len() {
            Ok(seq![n as usize])
        } else {
            prepend(seq![n as usize], id_list(s.skip(c + 1)))
        },
    }
}

#[via_fn]
proof fn id_list_shrinks(s: Seq<char>) {
    comma_within(s);
}

/// The numbers a text lists, if all of its parts are numbers.
pub fn read_ids(text: &Vec<char>) -> (r: Result<Vec<usize>, Vec<char>>)
    ensures
        match r {
            Ok(ids) => id_list(text@) == Ok::<Seq<usize>, Seq<char>>(ids@),
            Err(bad) => id_list(text@) == Err::<Seq<usize>, Seq<char>>(bad@),
        },
{
    let n: usize = text.len();
    let mut ids: Vec<usize> = Vec::new();
    let mut at: usize = 0;
    proof {
        assert(text@.skip(0) =~= text@);
        let whole = id_list(text@);
        if let Ok(all) = whole {
            assert(Seq::<usize>::empty() + all =~= all);
        }
        assert(whole == prepend(ids@, id_list(text@.skip(0))));
    }
    loop
        invariant
            at <= n,
            n == text@.len(),
            id_list(text@) == prepend(ids@, id_list(text@.skip(at as int))),
        decreases n - at,
    {
        let ghost s = text@.skip(at as int);
        let mut c: usize = at;
        while c < n && text[c] != ','
            invariant
                at <= c <= n,
                n == text@.len(),
                s == text@.skip(at as int),
                comma(s) == c - at + comma(text@.skip(c as int)),
            decreases n - c,
        {
            assert(text@.skip(c as int).skip(1) =~= text@.skip(c + 1));
            c += 1;
        }
        assert(comma(s) == c - at);
        assert(s.take(c - at) =~= text@.subrange(at as int, c as int));
        match read_number(text, at, c, usize::MAX as u64) {
            None => {
                let mut bad: Vec<char> = Vec::new();
                let mut k: usize = at;
                while k < c
                    invariant
                        at <= k <= c <= text@.len(),
                        bad@ == text@.subrange(at as int, k as int),
                    decreases c - k,
                {
                    bad.push(text[k]);
                    k += 1;
                    assert(bad@ =~= text@.subrange(at as int, k as int));
                }
                return Err(bad);
            },
            Some(v) => {
                let ghost before = ids@;
                ids.push(v as usize);
                if c >= n {
                    assert(ids@ =~= before + seq![v as usize]);
                    return Ok(ids);
                }
                proof {
                    let rest = id_list(s.skip(c - at + 1));
                    assert(s.skip(c - at + 1) =~= text@.skip(c + 1));
                    if let Ok(all) = rest {
                        assert(before + (seq![v as usize] + all) =~= ids@ + all);
                    }
                }
                at = c + 1;
            },
        }
    }
}

pub(crate) proof fn digits_of_a_number(n: nat)
    ensures
        dec(n).len() > 0,
        all_digits(dec(n)),
        value(dec(n)) == n,
    decreases n,
{
    if n < 10 {
        let s = dec(n);
        assert(s.drop_last() =~= Seq::<char>::empty());
        assert(value(s.drop_last()) == 0);
        assert(s.last() == digit(n));
    } else {
        digits_of_a_number(n / 10);
        let s = dec(n);
        let front = dec(n / 10);
        assert(s.drop_last() =~= front);
        assert(s.last() == digit(n % 10));
        assert forall|i: int| 0 <= i < s.len() implies digit_value(#[trigger] s[i]) is Some by {
            if i < front.len() {
                assert(s[i] == front[i]);
            }
        }
    }
}

/// A number that was written reads back, if it is within the bound it is read
/// with.
pub proof fn a_written_number_reads_back(n: nat, max: nat)
    ensures
        number(dec(n), max) == if n <= max {
            Some(n)
        } else {
            None
        },
{
    digits_of_a_number(n);
    let s = dec(n);
    assert(digit_value(s[0]) is Some);
}

} // verus!
