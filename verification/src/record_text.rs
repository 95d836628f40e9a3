//! Records written as text, as they are read.

use vstd::prelude::*;

use crate::records::{Input, Record, RecordView};
use crate::sexp::{
    is_blank, list_at, lists_at, number_at, numbers_at, past_blanks, past_byte, past_digits,
    record_at, records_at, value_of,
};
use crate::text::{ascii, dec, digit, push_int, push_long};

verus! {

/// A number as text.
pub open spec fn number_text(n: nat) -> Seq<u8> {
    ascii(dec(n))
}

/// What is left of a list of numbers from the `k`th on: the numbers, a space
/// between two of them, and the bracket that closes it.
pub open spec fn numbers_text(list: Seq<usize>, k: int) -> Seq<u8>
    decreases list.len() - k,
{
    if k >= list.len() {
        seq![0x29u8]
    } else {
        (if k > 0 {
            seq![0x20u8]
        } else {
            Seq::empty()
        }) + number_text(list[k] as nat) + numbers_text(list, k + 1)
    }
}

/// A list of numbers.
pub open spec fn list_text(list: Seq<usize>) -> Seq<u8> {
    seq![0x28u8] + numbers_text(list, 0)
}

/// What is left of a list of lists from the `k`th on.
pub open spec fn lists_text(lists: Seq<Seq<usize>>, k: int) -> Seq<u8>
    decreases lists.len() - k,
{
    if k >= lists.len() {
        seq![0x29u8]
    } else {
        list_text(lists[k]) + lists_text(lists, k + 1)
    }
}

/// The numbers at the head of a record.
pub open spec fn header_of(r: RecordView) -> Seq<usize> {
    seq![1, r.block_id, r.tx_id, 0, 0, 0, 0]
}

/// The numbers of an input.
pub open spec fn input_numbers(i: Input) -> Seq<usize> {
    seq![7, i.amount as usize, i.prev_tx_id, 0]
}

/// The numbers of every input.
pub open spec fn inputs_numbers(r: RecordView) -> Seq<Seq<usize>> {
    Seq::new(r.inputs.len(), |k: int| input_numbers(r.inputs[k]))
}

/// The numbers of every output.
pub open spec fn outputs_numbers(r: RecordView) -> Seq<Seq<usize>> {
    Seq::new(r.outputs as nat, |k: int| seq![7usize, 1, 0])
}

/// A record on a line of its own.
pub open spec fn record_text(r: RecordView) -> Seq<u8> {
    seq![0x28u8] + list_text(header_of(r)) + seq![0x20u8, 0x28u8] + lists_text(
        inputs_numbers(r),
        0,
    ) + seq![0x20u8, 0x28u8] + lists_text(outputs_numbers(r), 0) + seq![0x29u8, 0x0au8]
}

/// Records one after another.
pub open spec fn records_text(records: Seq<RecordView>, k: int) -> Seq<u8>
    decreases records.len() - k,
{
    if k >= records.len() {
        Seq::empty()
    } else {
        record_text(records[k]) + records_text(records, k + 1)
    }
}

/// A record whose numbers a machine word holds.
pub open spec fn writable(r: RecordView) -> bool {
    forall|k: int| 0 <= k < r.inputs.len() ==> (#[trigger] r.inputs[k]).amount <= usize::MAX
}

fn push_space(out: &mut Vec<u8>)
    ensures
        final(out)@ == old(out)@.push(0x20),
{
    out.push(0x20)
}

/// Appends an input.
fn push_input(out: &mut Vec<u8>, i: Input)
    requires
        i.amount <= usize::MAX,
    ensures
        final(out)@ == old(out)@ + list_text(input_numbers(i)),
{
    let ghost list = input_numbers(i);
    out.push(0x28);
    push_int(out, 7);
    push_space(out);
    push_long(out, i.amount);
    push_space(out);
    push_int(out, i.prev_tx_id);
    push_space(out);
    push_int(out, 0);
    out.push(0x29);
    proof {
        reveal_with_fuel(numbers_text, 5);
        assert(out@ =~= old(out)@ + list_text(list));
    }
}

/// Appends an output, of which nothing is kept but that it is there.
fn push_output(out: &mut Vec<u8>)
    ensures
        final(out)@ == old(out)@ + list_text(seq![7usize, 1, 0]),
{
    out.push(0x28);
    push_int(out, 7);
    push_space(out);
    push_int(out, 1);
    push_space(out);
    push_int(out, 0);
    out.push(0x29);
    proof {
        reveal_with_fuel(numbers_text, 4);
        assert(out@ =~= old(out)@ + list_text(seq![7usize, 1, 0]));
    }
}

fn push_header(out: &mut Vec<u8>, block: usize, tx: usize)
    ensures
        final(out)@ == old(out)@ + list_text(seq![1usize, block, tx, 0, 0, 0, 0]),
{
    out.push(0x28);
    push_int(out, 1);
    push_space(out);
    push_int(out, block);
    push_space(out);
    push_int(out, tx);
    proof {
        reveal_with_fuel(numbers_text, 4);
        let list = seq![1usize, block, tx, 0, 0, 0, 0];
        assert(list[0] == 1 && list[1] == block && list[2] == tx);
        assert(out@ + numbers_text(list, 3) =~= old(out)@ + list_text(list));
    }
    let mut k: usize = 0;
    while k < 4
        invariant
            k <= 4,
            out@ + numbers_text(seq![1usize, block, tx, 0, 0, 0, 0], 3 + k) == old(out)@
                + list_text(seq![1usize, block, tx, 0, 0, 0, 0]),
        decreases 4 - k,
    {
        let ghost before = out@;
        push_space(out);
        push_int(out, 0);
        proof {
            let list = seq![1usize, block, tx, 0, 0, 0, 0];
            assert(list[3 + k] == 0);
            assert(out@ + numbers_text(list, 4 + k) =~= before + numbers_text(list, 3 + k));
        }
        k += 1;
    }
    out.push(0x29);
}

/// Appends a record, on a line of its own.
pub fn write_record(out: &mut Vec<u8>, record: &Record)
    requires
        writable(record@),
    ensures
        final(out)@ == old(out)@ + record_text(record@),
{
    let ghost r = record@;
    let ghost ins = inputs_numbers(r);
    let ghost outs = outputs_numbers(r);
    out.push(0x28);
    push_header(out, record.block_id, record.tx_id);
    out.push(0x20);
    out.push(0x28);
    let ghost base = out@;
    let mut k: usize = 0;
    while k < record.inputs.len()
        invariant
            k <= record.inputs@.len(),
            r == record@,
            writable(r),
            ins == inputs_numbers(r),
            out@ + lists_text(ins, k as int) == base + lists_text(ins, 0),
        decreases record.inputs@.len() - k,
    {
        let ghost before = out@;
        push_input(out, record.inputs[k]);
        proof {
            assert(ins[k as int] == input_numbers(r.inputs[k as int]));
            assert(out@ + lists_text(ins, k + 1) =~= before + lists_text(ins, k as int));
        }
        k += 1;
    }
    out.push(0x29);
    assert(out@ =~= base + lists_text(ins, 0));
    out.push(0x20);
    out.push(0x28);
    let ghost next = out@;
    let mut j: usize = 0;
    while j < record.outputs
        invariant
            j <= record.outputs,
            r == record@,
            outs == outputs_numbers(r),
            out@ + lists_text(outs, j as int) == next + lists_text(outs, 0),
        decreases record.outputs - j,
    {
        let ghost before = out@;
        push_output(out);
        proof {
            assert(outs[j as int] == seq![7usize, 1, 0]);
            assert(out@ + lists_text(outs, j + 1) =~= before + lists_text(outs, j as int));
        }
        j += 1;
    }
    out.push(0x29);
    assert(out@ =~= next + lists_text(outs, 0));
    out.push(0x29);
    out.push(0x0a);
    assert(out@ =~= old(out)@ + record_text(r));
}

/// The piece stands in the text at `at`.
spec fn stands(s: Seq<u8>, at: int, piece: Seq<u8>) -> bool {
    &&& 0 <= at
    &&& at + piece.len() <= s.len()
    &&& forall|i: int| 0 <= i < piece.len() ==> s[at + i] == #[trigger] piece[i]
}

proof fn stands_in_two(s: Seq<u8>, at: int, a: Seq<u8>, b: Seq<u8>)
    requires
        stands(s, at, a + b),
    ensures
        stands(s, at, a),
        stands(s, at + a.len(), b),
{
    let both = a + b;
    assert forall|i: int| 0 <= i < a.len() implies s[at + i] == #[trigger] a[i] by {
        assert(both[i] == a[i]);
    }
    assert forall|i: int| 0 <= i < b.len() implies s[at + a.len() + i] == #[trigger] b[i] by {
        assert(both[a.len() + i] == b[i]);
    }
}

/// A number in the text: digits all, and worth what was written.
proof fn number_stands(s: Seq<u8>, at: int, n: nat)
    requires
        stands(s, at, number_text(n)),
    ensures
        number_text(n).len() > 0,
        forall|i: int| at <= i < at + number_text(n).len() ==> 0x30 <= #[trigger] s[i] <= 0x39,
        value_of(s, at, at + number_text(n).len() as int) == n,
    decreases n,
{
    let t = number_text(n);
    if n < 10 {
        assert(t.len() == 1);
        assert(t[0] == digit(n) as u8);
        assert(s[at + 0] == t[0]);
        assert(value_of(s, at, at) == 0);
        assert forall|i: int| at <= i < at + t.len() implies 0x30 <= #[trigger] s[i] <= 0x39 by {
            assert(i == at);
        }
    } else {
        let front = number_text(n / 10);
        assert(t =~= front.push(digit(n % 10) as u8));
        let last = t.len() - 1;
        assert(s[at + last] == t[last]);
        assert forall|i: int| 0 <= i < front.len() implies s[at + i] == #[trigger] front[i] by {
            assert(t[i] == front[i]);
        }
        number_stands(s, at, n / 10);
        assert forall|i: int| at <= i < at + t.len() implies 0x30 <= #[trigger] s[i] <= 0x39 by {
            if i == at + last {
                assert(s[i] == digit(n % 10) as u8);
            }
        }
    }
}

proof fn digits_end(s: Seq<u8>, at: int, e: int)
    requires
        0 <= at <= e < s.len(),
        forall|i: int| at <= i < e ==> 0x30 <= #[trigger] s[i] <= 0x39,
        !(0x30 <= s[e] <= 0x39),
    ensures
        past_digits(s, at) == e,
    decreases e - at,
{
    if at < e {
        assert(0x30 <= s[at] <= 0x39);
        digits_end(s, at + 1, e);
    }
}

/// Where reading goes on: at `at`, or before one blank that stands there.
spec fn just_before(s: Seq<u8>, from: int, at: int) -> bool {
    &&& 0 <= from <= at < s.len()
    &&& from == at || from + 1 == at && is_blank(s[from])
    &&& !is_blank(s[at])
}

proof fn blanks_end(s: Seq<u8>, from: int, at: int)
    requires
        just_before(s, from, at),
    ensures
        past_blanks(s, from) == at,
{
    if from < at {
        assert(past_blanks(s, from + 1) == at);
    }
}

proof fn byte_reads(s: Seq<u8>, from: int, at: int)
    requires
        just_before(s, from, at),
    ensures
        past_byte(s, from, s[at]) == Some(at + 1),
        forall|b: u8| b != s[at] ==> #[trigger] past_byte(s, from, b) is None,
{
    blanks_end(s, from, at);
}

proof fn number_reads(s: Seq<u8>, from: int, at: int, n: usize)
    requires
        just_before(s, from, at),
        stands(s, at, number_text(n as nat)),
        at + number_text(n as nat).len() < s.len(),
        !(0x30 <= s[at + number_text(n as nat).len()] <= 0x39),
    ensures
        number_at(s, from) == Some((n, at + number_text(n as nat).len())),
        past_byte(s, from, 0x29) is None,
{
    number_stands(s, at, n as nat);
    blanks_end(s, from, at);
    digits_end(s, at, at + number_text(n as nat).len());
    assert(0x30 <= s[at] <= 0x39);
}

proof fn numbers_read(s: Seq<u8>, at: int, list: Seq<usize>, k: int)
    requires
        0 <= k <= list.len(),
        stands(s, at, numbers_text(list, k)),
    ensures
        numbers_at(s, at, list.take(k)) == Some((list, at + numbers_text(list, k).len())),
        numbers_text(list, k).len() > 0,
        s[at] == 0x20 || s[at] == 0x29 || k == 0,
    decreases list.len() - k,
{
    let whole = numbers_text(list, k);
    if k == list.len() {
        assert(s[at + 0] == whole[0]);
        assert(list.take(k) =~= list);
        byte_reads(s, at, at);
    } else {
        let gap = if k > 0 {
            seq![0x20u8]
        } else {
            Seq::empty()
        };
        let number = number_text(list[k] as nat);
        let rest = numbers_text(list, k + 1);
        assert(whole == gap + number + rest);
        stands_in_two(s, at, gap + number, rest);
        stands_in_two(s, at, gap, number);
        let start = at + gap.len();
        number_stands(s, start, list[k] as nat);
        if k > 0 {
            assert(s[at + 0] == gap[0]);
        }
        assert(0x30 <= s[start] <= 0x39);
        assert(just_before(s, at, start));
        numbers_read(s, start + number.len(), list, k + 1);
        number_reads(s, at, start, list[k]);
        assert(list.take(k).push(list[k]) =~= list.take(k + 1));
        assert(whole.len() == gap.len() + number.len() + rest.len());
    }
}

proof fn list_reads(s: Seq<u8>, at: int, list: Seq<usize>)
    requires
        stands(s, at, list_text(list)),
    ensures
        list_at(s, at) == Some((list, at + list_text(list).len())),
        past_byte(s, at, 0x29) is None,
{
    let open = seq![0x28u8];
    stands_in_two(s, at, open, numbers_text(list, 0));
    assert(s[at + 0] == open[0]);
    byte_reads(s, at, at);
    numbers_read(s, at + 1, list, 0);
    assert(list.take(0) =~= Seq::<usize>::empty());
}

proof fn lists_read(s: Seq<u8>, at: int, lists: Seq<Seq<usize>>, k: int)
    requires
        0 <= k <= lists.len(),
        stands(s, at, lists_text(lists, k)),
    ensures
        lists_at(s, at, lists.take(k)) == Some((lists, at + lists_text(lists, k).len())),
    decreases lists.len() - k,
{
    let whole = lists_text(lists, k);
    if k == lists.len() {
        assert(s[at + 0] == whole[0]);
        assert(lists.take(k) =~= lists);
        byte_reads(s, at, at);
    } else {
        stands_in_two(s, at, list_text(lists[k]), lists_text(lists, k + 1));
        list_reads(s, at, lists[k]);
        lists_read(s, at + list_text(lists[k]).len(), lists, k + 1);
        assert(lists.take(k).push(lists[k]) =~= lists.take(k + 1));
    }
}

/// A record that stands in the text is read, all of it but the end of its line.
proof fn record_reads(s: Seq<u8>, from: int, at: int, r: RecordView)
    requires
        just_before(s, from, at),
        stands(s, at, record_text(r)),
        writable(r),
    ensures
        record_at(s, from) == Some((r, at + record_text(r).len() - 1)),
        s[at + record_text(r).len() - 1] == 0x0a,
{
    let open = seq![0x28u8];
    let head = list_text(header_of(r));
    let gap = seq![0x20u8, 0x28u8];
    let ins = lists_text(inputs_numbers(r), 0);
    let outs = lists_text(outputs_numbers(r), 0);
    let end = seq![0x29u8, 0x0au8];
    stands_in_two(s, at, open + head + gap + ins + gap + outs, end);
    stands_in_two(s, at, open + head + gap + ins + gap, outs);
    stands_in_two(s, at, open + head + gap + ins, gap);
    stands_in_two(s, at, open + head + gap, ins);
    stands_in_two(s, at, open + head, gap);
    stands_in_two(s, at, open, head);
    assert(s[at + 0] == open[0]);
    byte_reads(s, from, at);
    let a = at + 1;
    list_reads(s, a, header_of(r));
    let b = a + head.len();
    assert(s[b + 0] == gap[0] && s[b + 1] == gap[1]);
    byte_reads(s, b, b + 1);
    let c = b + 2;
    assert(inputs_numbers(r).take(0) =~= Seq::<Seq<usize>>::empty());
    lists_read(s, c, inputs_numbers(r), 0);
    let d = c + ins.len();
    assert(s[d + 0] == gap[0] && s[d + 1] == gap[1]);
    byte_reads(s, d, d + 1);
    let e = d + 2;
    assert(outputs_numbers(r).take(0) =~= Seq::<Seq<usize>>::empty());
    lists_read(s, e, outputs_numbers(r), 0);
    let f = e + outs.len();
    assert(s[f + 0] == end[0] && s[f + 1] == end[1]);
    byte_reads(s, f, f);
    assert(crate::sexp::inputs_of(inputs_numbers(r)) =~= r.inputs) by {
        assert forall|k: int| 0 <= k < r.inputs.len() implies #[trigger] crate::sexp::inputs_of(
            inputs_numbers(r),
        )[k] == r.inputs[k] by {
            assert(r.inputs[k].amount <= usize::MAX);
        }
    }
}

proof fn records_read(
    s: Seq<u8>,
    from: int,
    at: int,
    records: Seq<RecordView>,
    k: int,
    limit: nat,
)
    requires
        0 <= k <= records.len() <= limit,
        forall|i: int| 0 <= i < records.len() ==> writable(#[trigger] records[i]),
        stands(s, at, records_text(records, k)),
        at + records_text(records, k).len() == s.len(),
        from == at || 0 <= from == at - 1 && s[from] == 0x0a,
    ensures
        records_at(s, from, limit, records.take(k)) == Ok::<Seq<RecordView>, Seq<char>>(records),
    decreases records.len() - k,
{
    if k == records.len() {
        assert(records.take(k) =~= records);
        assert(past_blanks(s, at) == at);
        if from < at {
            assert(past_blanks(s, from + 1) == at);
        }
        assert(past_blanks(s, from) == s.len());
    } else {
        let r = records[k];
        let here = record_text(r);
        stands_in_two(s, at, here, records_text(records, k + 1));
        assert(s[at + 0] == here[0]);
        assert(just_before(s, from, at));
        record_reads(s, from, at, r);
        blanks_end(s, from, at);
        let end = at + here.len();
        records_read(s, end - 1, end, records, k + 1, limit);
        assert(records.take(k).push(r) =~= records.take(k + 1));
    }
}

/// Records that were written read back, all of them and nothing else.
pub proof fn written_records_read_back(records: Seq<RecordView>, limit: nat)
    requires
        records.len() <= limit,
        forall|i: int| 0 <= i < records.len() ==> writable(#[trigger] records[i]),
    ensures
        records_at(records_text(records, 0), 0, limit, Seq::empty()) == Ok::<
            Seq<RecordView>,
            Seq<char>,
        >(records),
{
    let s = records_text(records, 0);
    assert(records.take(0) =~= Seq::<RecordView>::empty());
    records_read(s, 0, 0, records, 0, limit);
}

} // verus!
