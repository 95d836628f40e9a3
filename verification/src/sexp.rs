//! Records as text: nested lists of numbers.
//!
//! A record is three lists: a header, whose second and third numbers are the block
//! and the transaction; the inputs, each a list whose second and third numbers are
//! the amount and the transaction whose output is spent; and the outputs, each a
//! list. Lists are in round brackets, and blanks stand where they like between
//! numbers and brackets.

use vstd::prelude::*;
use vstd::string::*;

use crate::records::{Input, Record, RecordView};
use crate::text::{dec, push_dec};

verus! {

/// A blank: a space, a tab, or the end of a line.
pub open spec fn is_blank(b: u8) -> bool {
    b == 0x20 || b == 0x09 || b == 0x0a || b == 0x0d
}

/// Where the blanks from `at` on end.
pub open spec fn past_blanks(s: Seq<u8>, at: int) -> int
    decreases s.len() - at,
{
    if 0 <= at < s.len() && is_blank(s[at]) {
        past_blanks(s, at + 1)
    } else {
        at
    }
}

/// Where the digits from `at` on end.
pub open spec fn past_digits(s: Seq<u8>, at: int) -> int
    decreases s.len() - at,
{
    if 0 <= at < s.len() && 0x30 <= s[at] <= 0x39 {
        past_digits(s, at + 1)
    } else {
        at
    }
}

/// What the digits from `from` to `to` stand for.
pub open spec fn value_of(s: Seq<u8>, from: int, to: int) -> nat
    decreases to - from,
{
    if to <= from {
        0
    } else {
        10 * value_of(s, from, to - 1) + (s[to - 1] - 0x30) as nat
    }
}

/// The number at `at`, blanks before it passed over, and where it ends: one that a
/// machine word holds.
pub open spec fn number_at(s: Seq<u8>, at: int) -> Option<(usize, int)> {
    let i = past_blanks(s, at);
    let e = past_digits(s, i);
    if e == i || value_of(s, i, e) > usize::MAX {
        None
    } else {
        Some((value_of(s, i, e) as usize, e))
    }
}

/// Past the byte at `at`, blanks before it passed over, if it is the one wanted.
pub open spec fn past_byte(s: Seq<u8>, at: int, b: u8) -> Option<int> {
    let i = past_blanks(s, at);
    if 0 <= i < s.len() && s[i] == b {
        Some(i + 1)
    } else {
        None
    }
}

proof fn blanks_within(s: Seq<u8>, at: int)
    requires
        0 <= at <= s.len(),
    ensures
        at <= past_blanks(s, at) <= s.len(),
    decreases s.len() - at,
{
    if at < s.len() && is_blank(s[at]) {
        blanks_within(s, at + 1);
    }
}

proof fn digits_within(s: Seq<u8>, at: int)
    requires
        0 <= at <= s.len(),
    ensures
        at <= past_digits(s, at) <= s.len(),
    decreases s.len() - at,
{
    if at < s.len() && 0x30 <= s[at] <= 0x39 {
        digits_within(s, at + 1);
    }
}

proof fn steps_within(s: Seq<u8>, at: int)
    requires
        0 <= at <= s.len(),
    ensures
        number_at(s, at) matches Some((_, e)) ==> at < e <= s.len(),
        forall|b: u8| #[trigger] past_byte(s, at, b) matches Some(e) ==> at < e <= s.len(),
{
    blanks_within(s, at);
    digits_within(s, past_blanks(s, at));
}

/// The rest of a list of numbers, from `at` on, after `got`, and where it ends.
pub open spec fn numbers_at(s: Seq<u8>, at: int, got: Seq<usize>) -> Option<(Seq<usize>, int)>
    decreases s.len() - at,
    when 0 <= at <= s.len()
    via numbers_shrink
{
    match past_byte(s, at, 0x29) {
        Some(e) => Some((got, e)),
        None => match number_at(s, at) {
            Some((n, e)) => numbers_at(s, e, got.push(n)),
            None => None,
        },
    }
}

#[via_fn]
proof fn numbers_shrink(s: Seq<u8>, at: int, got: Seq<usize>) {
    steps_within(s, at);
}

/// The list of numbers at `at`, and where it ends.
pub open spec fn list_at(s: Seq<u8>, at: int) -> Option<(Seq<usize>, int)> {
    match past_byte(s, at, 0x28) {
        Some(e) => numbers_at(s, e, Seq::empty()),
        None => None,
    }
}

proof fn numbers_within(s: Seq<u8>, at: int, got: Seq<usize>)
    requires
        0 <= at <= s.len(),
    ensures
        numbers_at(s, at, got) matches Some((_, e)) ==> at < e <= s.len(),
    decreases s.len() - at,
{
    steps_within(s, at);
    if past_byte(s, at, 0x29) is None {
        if let Some((n, e)) = number_at(s, at) {
            numbers_within(s, e, got.push(n));
        }
    }
}

proof fn list_within(s: Seq<u8>, at: int)
    requires
        0 <= at <= s.len(),
    ensures
        list_at(s, at) matches Some((_, e)) ==> at < e <= s.len(),
{
    steps_within(s, at);
    if let Some(e) = past_byte(s, at, 0x28) {
        numbers_within(s, e, Seq::empty());
    }
}

/// The rest of a list of lists, from `at` on, after `got`, and where it ends.
pub open spec fn lists_at(s: Seq<u8>, at: int, got: Seq<Seq<usize>>) -> Option<
    (Seq<Seq<usize>>, int),
>
    decreases s.len() - at,
    when 0 <= at <= s.len()
    via lists_shrink
{
    match past_byte(s, at, 0x29) {
        Some(e) => Some((got, e)),
        None => match list_at(s, at) {
            Some((list, e)) => lists_at(s, e, got.push(list)),
            None => None,
        },
    }
}

#[via_fn]
proof fn lists_shrink(s: Seq<u8>, at: int, got: Seq<Seq<usize>>) {
    list_within(s, at);
}

proof fn lists_within(s: Seq<u8>, at: int, got: Seq<Seq<usize>>)
    requires
        0 <= at <= s.len(),
    ensures
        lists_at(s, at, got) matches Some((_, e)) ==> at < e <= s.len(),
    decreases s.len() - at,
{
    steps_within(s, at);
    if past_byte(s, at, 0x29) is None {
        list_within(s, at);
        if let Some((list, e)) = list_at(s, at) {
            lists_within(s, e, got.push(list));
        }
    }
}

/// Whether every list has so many numbers.
pub open spec fn all_long(lists: Seq<Seq<usize>>, n: nat) -> bool {
    forall|i: int| 0 <= i < lists.len() ==> (#[trigger] lists[i]).len() >= n
}

/// The inputs the lists are.
pub open spec fn inputs_of(lists: Seq<Seq<usize>>) -> Seq<Input> {
    Seq::new(lists.len(), |i: int| Input { prev_tx_id: lists[i][2], amount: lists[i][1] as u64 })
}

/// The record at `at`, and where it ends.
pub open spec fn record_at(s: Seq<u8>, at: int) -> Option<(RecordView, int)> {
    match past_byte(s, at, 0x28) {
        None => None,
        Some(a) => match list_at(s, a) {
            None => None,
            Some((header, b)) => match past_byte(s, b, 0x28) {
                None => None,
                Some(c) => match lists_at(s, c, Seq::empty()) {
                    None => None,
                    Some((inputs, d)) => match past_byte(s, d, 0x28) {
                        None => None,
                        Some(e) => match lists_at(s, e, Seq::empty()) {
                            None => None,
                            Some((outputs, f)) => match past_byte(s, f, 0x29) {
                                None => None,
                                Some(end) => if header.len() < 3 || !all_long(inputs, 3) {
                                    None
                                } else {
                                    Some(
                                        (
                                            RecordView {
                                                block_id: header[1],
                                                tx_id: header[2],
                                                outputs: outputs.len() as usize,
                                                inputs: inputs_of(inputs),
                                            },
                                            end,
                                        ),
                                    )
                                },
                            },
                        },
                    },
                },
            },
        },
    }
}

/// What is said of text that is no record.
pub open spec fn malformed(at: nat) -> Seq<char> {
    "malformed record at byte "@ + dec(at)
}

fn skip_blanks(s: &Vec<u8>, at: usize) -> (end: usize)
    requires
        at <= s@.len(),
    ensures
        end == past_blanks(s@, at as int),
        at <= end <= s@.len(),
{
    let mut i: usize = at;
    while i < s.len() && (s[i] == 0x20 || s[i] == 0x09 || s[i] == 0x0a || s[i] == 0x0d)
        invariant
            at <= i <= s@.len(),
            past_blanks(s@, at as int) == past_blanks(s@, i as int),
        decreases s@.len() - i,
    {
        i += 1;
    }
    i
}

fn read_byte(s: &Vec<u8>, at: usize, b: u8) -> (end: Option<usize>)
    requires
        at <= s@.len(),
    ensures
        end is Some <==> past_byte(s@, at as int, b) is Some,
        end matches Some(e) ==> past_byte(s@, at as int, b) == Some(e as int) && at < e <= s@.len(),
{
    let i: usize = skip_blanks(s, at);
    if i < s.len() && s[i] == b {
        Some(i + 1)
    } else {
        None
    }
}

proof fn value_grows(s: Seq<u8>, from: int, k: int, to: int)
    requires
        from <= k <= to,
    ensures
        value_of(s, from, k) <= value_of(s, from, to),
    decreases to - k,
{
    if k < to {
        value_grows(s, from, k, to - 1);
    }
}

fn read_number(s: &Vec<u8>, at: usize) -> (r: Option<(usize, usize)>)
    requires
        at <= s@.len(),
    ensures
        r is Some <==> number_at(s@, at as int) is Some,
        r matches Some((n, e)) ==> number_at(s@, at as int) == Some((n, e as int)) && at < e
            <= s@.len(),
{
    let i: usize = skip_blanks(s, at);
    let ghost end = past_digits(s@, i as int);
    proof {
        digits_within(s@, i as int);
    }
    let mut e: usize = i;
    let mut n: u128 = 0;
    while e < s.len() && 0x30 <= s[e] && s[e] <= 0x39
        invariant
            i <= e <= s@.len(),
            i == past_blanks(s@, at as int),
            end == past_digits(s@, i as int),
            end == past_digits(s@, e as int),
            e <= end <= s@.len(),
            n == value_of(s@, i as int, e as int),
            n <= usize::MAX,
        decreases s@.len() - e,
    {
        proof {
            digits_within(s@, e + 1);
        }
        n = n * 10 + (s[e] - 0x30) as u128;
        e += 1;
        if n > usize::MAX as u128 {
            proof {
                value_grows(s@, i as int, e as int, end);
            }
            return None;
        }
    }
    if e == i {
        None
    } else {
        Some((n as usize, e))
    }
}

fn read_list(s: &Vec<u8>, at: usize) -> (r: Option<(Vec<usize>, usize)>)
    requires
        at <= s@.len(),
    ensures
        r is Some <==> list_at(s@, at as int) is Some,
        r matches Some((list, e)) ==> list_at(s@, at as int) == Some((list@, e as int)) && at < e
            <= s@.len(),
{
    let start: usize = match read_byte(s, at, 0x28) {
        None => {
            return None;
        },
        Some(e) => e,
    };
    let mut list: Vec<usize> = Vec::new();
    let mut e: usize = start;
    assert(list@ =~= Seq::<usize>::empty());
    loop
        invariant
            at < start <= e <= s@.len(),
            list_at(s@, at as int) == numbers_at(s@, e as int, list@),
        decreases s@.len() - e,
    {
        if let Some(end) = read_byte(s, e, 0x29) {
            return Some((list, end));
        }
        match read_number(s, e) {
            None => {
                return None;
            },
            Some((n, next)) => {
                list.push(n);
                e = next;
            },
        }
    }
}

/// Lists as mathematical values.
pub open spec fn list_views(lists: Seq<Vec<usize>>) -> Seq<Seq<usize>> {
    Seq::new(lists.len(), |i: int| lists[i]@)
}

fn read_lists(s: &Vec<u8>, at: usize) -> (r: Option<(Vec<Vec<usize>>, usize)>)
    requires
        at <= s@.len(),
    ensures
        r is Some <==> (past_byte(s@, at as int, 0x28) matches Some(a) && lists_at(
            s@,
            a,
            Seq::empty(),
        ) is Some),
        r matches Some((lists, e)) ==> at < e <= s@.len() && (past_byte(s@, at as int, 0x28) matches Some(
            a,
        ) && lists_at(s@, a, Seq::empty()) == Some((list_views(lists@), e as int))),
{
    let start: usize = match read_byte(s, at, 0x28) {
        None => {
            return None;
        },
        Some(e) => e,
    };
    let mut lists: Vec<Vec<usize>> = Vec::new();
    let mut e: usize = start;
    assert(list_views(lists@) =~= Seq::<Seq<usize>>::empty());
    loop
        invariant
            at < start <= e <= s@.len(),
            past_byte(s@, at as int, 0x28) == Some(start as int),
            lists_at(s@, start as int, Seq::empty()) == lists_at(
                s@,
                e as int,
                list_views(lists@),
            ),
        decreases s@.len() - e,
    {
        if let Some(end) = read_byte(s, e, 0x29) {
            return Some((lists, end));
        }
        match read_list(s, e) {
            None => {
                return None;
            },
            Some((list, next)) => {
                let ghost before = lists@;
                let ghost l = list@;
                lists.push(list);
                assert(list_views(lists@) =~= list_views(before).push(l));
                e = next;
            },
        }
    }
}

fn read_inputs(lists: &Vec<Vec<usize>>) -> (r: Option<Vec<Input>>)
    ensures
        r is Some <==> all_long(list_views(lists@), 3),
        r matches Some(inputs) ==> inputs@ == inputs_of(list_views(lists@)),
{
    let ghost all = list_views(lists@);
    let mut inputs: Vec<Input> = Vec::new();
    let mut i: usize = 0;
    while i < lists.len()
        invariant
            i <= lists@.len(),
            all == list_views(lists@),
            forall|j: int| 0 <= j < i ==> (#[trigger] all[j]).len() >= 3,
            inputs@ == inputs_of(all).take(i as int),
        decreases lists@.len() - i,
    {
        assert(all[i as int] == lists@[i as int]@);
        if lists[i].len() < 3 {
            return None;
        }
        inputs.push(Input { prev_tx_id: lists[i][2], amount: lists[i][1] as u64 });
        i += 1;
        assert(inputs@ =~= inputs_of(all).take(i as int));
    }
    assert(inputs_of(all).take(i as int) =~= inputs_of(all));
    Some(inputs)
}

fn read_record(s: &Vec<u8>, at: usize) -> (r: Option<(Record, usize)>)
    requires
        at <= s@.len(),
    ensures
        r is Some <==> record_at(s@, at as int) is Some,
        r matches Some((record, e)) ==> record_at(s@, at as int) == Some((record@, e as int)) && at
            < e <= s@.len(),
{
    let a: usize = match read_byte(s, at, 0x28) {
        None => {
            return None;
        },
        Some(e) => e,
    };
    let (header, b) = match read_list(s, a) {
        None => {
            return None;
        },
        Some(pair) => pair,
    };
    let (inputs, d) = match read_lists(s, b) {
        None => {
            return None;
        },
        Some(pair) => pair,
    };
    let (outputs, f) = match read_lists(s, d) {
        None => {
            return None;
        },
        Some(pair) => pair,
    };
    let end: usize = match read_byte(s, f, 0x29) {
        None => {
            return None;
        },
        Some(e) => e,
    };
    if header.len() < 3 {
        return None;
    }
    match read_inputs(&inputs) {
        None => None,
        Some(inputs) => Some(
            (
                Record {
                    block_id: header[1],
                    tx_id: header[2],
                    outputs: outputs.len(),
                    inputs,
                },
                end,
            ),
        ),
    }
}

/// Text being read, record by record.
pub struct Reader {
    text: Vec<u8>,
    at: usize,
}

impl Reader {
    /// The text.
    pub closed spec fn whole(&self) -> Seq<u8> {
        self.text@
    }

    /// How much of it was read.
    pub closed spec fn done(&self) -> nat {
        self.at as nat
    }

    #[verifier::type_invariant]
    spec fn inside(self) -> bool {
        self.at <= self.text@.len()
    }

    /// Begins at the beginning.
    pub fn new(text: Vec<u8>) -> (r: Reader)
        ensures
            r.whole() == text@,
            r.done() == 0,
    {
        Reader { text, at: 0 }
    }

    /// The next record, or none once only blanks are left.
    pub fn next_record(&mut self) -> (r: Result<Option<Record>, String>)
        ensures
            final(self).whole() == old(self).whole(),
            ({
                let s = old(self).whole();
                let at = old(self).done() as int;
                match r {
                    Ok(None) => past_blanks(s, at) == s.len() && final(self).done() == s.len(),
                    Ok(Some(record)) => past_blanks(s, at) < s.len() && record_at(s, at) == Some(
                        (record@, final(self).done() as int),
                    ) && at < final(self).done(),
                    Err(e) => past_blanks(s, at) < s.len() && record_at(s, at) is None && e@
                        == malformed(past_blanks(s, at) as nat) && final(self).done() == at,
                }
            }),
    {
        proof {
            use_type_invariant(&*self);
        }
        let start: usize = skip_blanks(&self.text, self.at);
        if start == self.text.len() {
            self.at = start;
            return Ok(None);
        }
        match read_record(&self.text, self.at) {
            Some((record, end)) => {
                self.at = end;
                Ok(Some(record))
            },
            None => {
                let mut e = "malformed record at byte ".to_owned();
                push_dec(&mut e, start as u64);
                Err(e)
            },
        }
    }
}

/// What the records from `at` on come to, after `got`: at most `limit` of them in
/// all, or what is said of the first that is none.
pub open spec fn records_at(s: Seq<u8>, at: int, limit: nat, got: Seq<RecordView>) -> Result<
    Seq<RecordView>,
    Seq<char>,
>
    decreases s.len() - at,
    when 0 <= at <= s.len()
    via records_shrink
{
    if got.len() >= limit || past_blanks(s, at) >= s.len() {
        Ok(got)
    } else {
        match record_at(s, at) {
            None => Err(malformed(past_blanks(s, at) as nat)),
            Some((record, e)) => records_at(s, e, limit, got.push(record)),
        }
    }
}

pub(crate) proof fn record_within(s: Seq<u8>, at: int)
    requires
        0 <= at <= s.len(),
    ensures
        record_at(s, at) matches Some((_, e)) ==> at < e <= s.len(),
{
    steps_within(s, at);
    if let Some(a) = past_byte(s, at, 0x28) {
        list_within(s, a);
        if let Some((_, b)) = list_at(s, a) {
            steps_within(s, b);
            if let Some(c) = past_byte(s, b, 0x28) {
                lists_within(s, c, Seq::empty());
                if let Some((_, d)) = lists_at(s, c, Seq::empty()) {
                    steps_within(s, d);
                    if let Some(e) = past_byte(s, d, 0x28) {
                        lists_within(s, e, Seq::empty());
                        if let Some((_, f)) = lists_at(s, e, Seq::empty()) {
                            steps_within(s, f);
                        }
                    }
                }
            }
        }
    }
}

#[via_fn]
proof fn records_shrink(s: Seq<u8>, at: int, limit: nat, got: Seq<RecordView>) {
    record_within(s, at);
}

/// Records as mathematical values.
pub open spec fn views(records: Seq<Record>) -> Seq<RecordView> {
    Seq::new(records.len(), |i: int| records[i]@)
}

/// At most so many records of a text, or what is said of the first that is none.
pub fn read_records(text: Vec<u8>, limit: usize) -> (r: Result<Vec<Record>, String>)
    ensures
        match r {
            Ok(records) => records_at(text@, 0, limit as nat, Seq::empty()) == Ok::<
                Seq<RecordView>,
                Seq<char>,
            >(views(records@)),
            Err(e) => records_at(text@, 0, limit as nat, Seq::empty()) == Err::<
                Seq<RecordView>,
                Seq<char>,
            >(e@),
        },
{
    let ghost s = text@;
    let mut reader = Reader::new(text);
    let mut records: Vec<Record> = Vec::new();
    assert(views(records@) =~= Seq::<RecordView>::empty());
    loop
        invariant
            s == text@,
            reader.whole() == s,
            reader.done() <= s.len(),
            records_at(s, 0, limit as nat, Seq::empty()) == records_at(
                s,
                reader.done() as int,
                limit as nat,
                views(records@),
            ),
        decreases s.len() - reader.done(),
    {
        assert(views(records@).len() == records@.len());
        if records.len() >= limit {
            return Ok(records);
        }
        proof {
            record_within(s, reader.done() as int);
        }
        match reader.next_record() {
            Err(e) => {
                return Err(e);
            },
            Ok(None) => {
                return Ok(records);
            },
            Ok(Some(record)) => {
                let ghost before = records@;
                let ghost v = record@;
                records.push(record);
                assert(views(records@) =~= views(before).push(v));
            },
        }
    }
}

} // verus!
