//! Blocks: the complete bipartite pieces K(I, O) a payments graph is made of.
//!
//! One block per transaction: its inputs I are the outputs it spent, its
//! outputs O the ones it created, and every one of the |I|·|O| arcs of I × O is
//! in the graph. The transpose gives an output's predecessors, which are the
//! block's inputs; the graph gives the first input's successors, which are the
//! whole output side. A block that is not complete bipartite is refused, and
//! the refusal names what breaks it.

use vstd::prelude::*;
use vstd::string::*;

use crate::graph::{successor_list, well_formed, Graph, Lists};
use crate::kept::{ascending, ascending_fits, listed, Cut, Kept};
use crate::text::{dec, push_dec};

verus! {

/// One complete bipartite block K(I, O), keyed by its first output.
#[derive(Clone, Debug)]
pub struct Block {
    /// `O[0]`: the block's identity.
    pub first_out: usize,
    /// The predecessors of `first_out`, in increasing order.
    pub inputs: Vec<usize>,
    /// The successors of the first input, contiguous from `first_out`.
    pub outputs: Vec<usize>,
    /// Depth in the drawn forest of blocks: a seed is 0, a block one arc
    /// under a seed is 1.
    pub level: usize,
    /// The block this one hangs under, and the output of it through which
    /// this one was discovered. `None` for a seed.
    pub parent: Option<(u32, usize)>,
    pub kept_in: Kept,
    pub kept_out: Kept,
}

/// A block as a mathematical value.
pub struct BlockView {
    pub first_out: usize,
    pub inputs: Seq<usize>,
    pub outputs: Seq<usize>,
    pub level: nat,
    pub parent: Option<(u32, usize)>,
    pub kept_in: Cut,
    pub kept_out: Cut,
}

impl View for Block {
    type V = BlockView;

    open spec fn view(&self) -> BlockView {
        BlockView {
            first_out: self.first_out,
            inputs: self.inputs@,
            outputs: self.outputs@,
            level: self.level as nat,
            parent: self.parent,
            kept_in: self.kept_in@,
            kept_out: self.kept_out@,
        }
    }
}

impl BlockView {
    /// What a block of the walk always is: both sides there, the outputs
    /// contiguous from the first, the inputs in order and before the outputs,
    /// and what is kept of a side a cut of that side.
    pub open spec fn is_block(self) -> bool {
        &&& self.inputs.len() > 0
        &&& self.outputs.len() > 0
        &&& ascending(self.inputs)
        &&& self.inputs.last() < self.first_out
        &&& self.first_out + self.outputs.len() <= usize::MAX
        &&& forall|k: int|
            0 <= k < self.outputs.len() ==> #[trigger] self.outputs[k] == self.first_out + k
        &&& self.kept_in.fits(self.inputs.len())
        &&& self.kept_out.fits(self.outputs.len())
    }

    /// Both sides are nodes of a graph of `n` nodes.
    pub open spec fn within(self, n: nat) -> bool {
        &&& forall|k: int| 0 <= k < self.inputs.len() ==> #[trigger] self.inputs[k] < n
        &&& forall|k: int| 0 <= k < self.outputs.len() ==> #[trigger] self.outputs[k] < n
    }

    /// `K(2,2) at 564`: how a block is named in messages.
    pub open spec fn name(self) -> Seq<char> {
        "K("@ + dec(self.inputs.len()) + ","@ + dec(self.outputs.len()) + ") at "@ + dec(
            self.first_out as nat,
        )
    }

    /// How many arcs the block has.
    pub open spec fn arcs(self) -> nat {
        self.inputs.len() * self.outputs.len()
    }
}

/// A count as a `u64` holds it: modulo 2^64.
pub open spec fn wrapped(n: nat) -> u64 {
    (n % 0x1_0000_0000_0000_0000) as u64
}

impl Block {
    /// How many arcs the block has: |I|·|O|.
    pub fn arcs(&self) -> (n: u64)
        ensures
            n == wrapped(self@.arcs()),
            self@.arcs() <= u64::MAX ==> n == self@.arcs(),
    {
        (self.inputs.len() as u64).wrapping_mul(self.outputs.len() as u64)
    }

    /// `K(2,2) at 564`: how a block is named in messages.
    pub fn name(&self) -> (s: String)
        ensures
            s@ == self@.name(),
    {
        let mut s = "K(".to_owned();
        push_dec(&mut s, self.inputs.len() as u64);
        s.append(",");
        push_dec(&mut s, self.outputs.len() as u64);
        s.append(") at ");
        push_dec(&mut s, self.first_out as u64);
        s
    }
}

/// The first entry from `k` on that breaks a run of consecutive numbers.
pub open spec fn first_gap(s: Seq<usize>, k: int) -> Option<int>
    decreases s.len() - k,
{
    if k >= s.len() {
        None
    } else if s[k] != s[0] + k {
        Some(k)
    } else {
        first_gap(s, k + 1)
    }
}

/// The first member from `k` on whose list is not the one wanted.
pub open spec fn first_odd(lists: Lists, members: Seq<usize>, wanted: Seq<usize>, k: int) -> Option<
    int,
>
    decreases members.len() - k,
{
    if k >= members.len() {
        None
    } else if lists[members[k] as int] != wanted {
        Some(k)
    } else {
        first_odd(lists, members, wanted, k + 1)
    }
}

/// The first entry from `k` on that is not among `known`.
pub open spec fn first_stranger(s: Seq<usize>, known: Seq<usize>, k: int) -> Option<int>
    decreases s.len() - k,
{
    if k >= s.len() {
        None
    } else if !known.contains(s[k]) {
        Some(k)
    } else {
        first_stranger(s, known, k + 1)
    }
}

/// A graph and its transpose, as far as a walk over blocks leans on it: the
/// same nodes, and the first node the transpose names as a predecessor has
/// successors in the graph.
pub open spec fn paired(g: Lists, t: Lists) -> bool {
    &&& g.len() == t.len()
    &&& forall|v: int|
        0 <= v < t.len() && (#[trigger] t[v]).len() > 0 ==> t[v][0] < g.len() && g[t[v][0] as int].len()
            > 0
}

pub open spec fn no_predecessor(key: usize) -> Seq<char> {
    "node "@ + dec(key as nat) + " has no predecessor: it is not the output of any block"@
}

pub open spec fn not_among(key: usize, first: nat, last: nat, input: usize) -> Seq<char> {
    "node "@ + dec(key as nat) + " is not among the successors ["@ + dec(first) + ".."@ + dec(last)
        + "] of its own first predecessor "@ + dec(input as nat) + ": not a block"@
}

pub open spec fn not_contiguous(first: nat, found: usize, expected: nat) -> Seq<char> {
    "the outputs of the block at "@ + dec(first) + " are not contiguous: "@ + dec(found as nat)
        + " where "@ + dec(expected) + " was expected"@
}

pub open spec fn input_too_late(first: nat, input: usize) -> Seq<char> {
    "the block at "@ + dec(first) + " has an input "@ + dec(input as nat)
        + " at or after its first output"@
}

/// An optional number as a message spells it.
pub open spec fn spelled(n: Option<usize>) -> Seq<char> {
    match n {
        Some(v) => "Some("@ + dec(v as nat) + ")"@,
        None => "None"@,
    }
}

pub open spec fn wrong_successors(
    first: nat,
    input: usize,
    successors: Seq<usize>,
    outputs: nat,
) -> Seq<char> {
    "the block at "@ + dec(first) + " is not complete bipartite: input "@ + dec(input as nat)
        + " has "@ + dec(successors.len()) + " successors starting at "@ + spelled(
        if successors.len() > 0 { Some(successors[0]) } else { None },
    ) + ", not the block's "@ + dec(outputs) + " outputs"@
}

pub open spec fn wrong_predecessors(
    first: nat,
    output: usize,
    predecessors: Seq<usize>,
    inputs: Seq<usize>,
) -> Seq<char> {
    match first_stranger(predecessors, inputs, 0) {
        Some(j) => "the block at "@ + dec(first) + " is not complete bipartite: output "@ + dec(
            output as nat,
        ) + " has a predecessor "@ + dec(predecessors[j] as nat)
            + " that is not among the block's "@ + dec(inputs.len()) + " inputs"@,
        None => "the block at "@ + dec(first) + " is not complete bipartite: output "@ + dec(
            output as nat,
        ) + " has "@ + dec(predecessors.len()) + " predecessors, not the block's "@ + dec(
            inputs.len(),
        ) + " inputs"@,
    }
}

/// The block one of whose outputs `key` is, as it is before a walk places it;
/// or the first of the clauses of a block that fails, in words.
pub open spec fn fetched(g: Lists, t: Lists, key: usize, check: bool) -> Result<
    BlockView,
    Seq<char>,
> {
    let inputs = t[key as int];
    let outputs = g[inputs[0] as int];
    let first = outputs[0];
    let gap = first_gap(outputs, 0);
    let odd_input = first_odd(g, inputs, outputs, 1);
    let odd_output = first_odd(t, outputs, inputs, 0);
    if inputs.len() == 0 {
        Err(no_predecessor(key))
    } else if !(first <= key < first + outputs.len()) {
        Err(not_among(key, first as nat, (first + outputs.len() - 1) as nat, inputs[0]))
    } else if gap is Some {
        Err(not_contiguous(first as nat, outputs[gap->0], (first + gap->0) as nat))
    } else if inputs.last() >= first {
        Err(input_too_late(first as nat, inputs.last()))
    } else if check && odd_input is Some {
        let u = inputs[odd_input->0];
        Err(wrong_successors(first as nat, u, g[u as int], outputs.len()))
    } else if check && odd_output is Some {
        let o = outputs[odd_output->0];
        Err(wrong_predecessors(first as nat, o, t[o as int], inputs))
    } else {
        Ok(
            BlockView {
                first_out: first,
                inputs,
                outputs,
                level: 0,
                parent: None,
                kept_in: Cut::All,
                kept_out: Cut::All,
            },
        )
    }
}

/// Whether two lists hold the same entries in the same order.
fn same(a: &Vec<usize>, b: &Vec<usize>) -> (r: bool)
    ensures
        r == (a@ == b@),
{
    if a.len() != b.len() {
        return false;
    }
    for i in 0..a.len()
        invariant
            a@.len() == b@.len(),
            forall|j: int| 0 <= j < i ==> a@[j] == b@[j],
    {
        if a[i] != b[i] {
            return false;
        }
    }
    assert(a@ =~= b@);
    true
}

fn say_no_predecessor(key: usize) -> (s: String)
    ensures
        s@ == no_predecessor(key),
{
    let mut s = "node ".to_owned();
    push_dec(&mut s, key as u64);
    s.append(" has no predecessor: it is not the output of any block");
    s
}

fn say_not_among(key: usize, first: usize, last: usize, input: usize) -> (s: String)
    ensures
        s@ == not_among(key, first as nat, last as nat, input),
{
    let mut s = "node ".to_owned();
    push_dec(&mut s, key as u64);
    s.append(" is not among the successors [");
    push_dec(&mut s, first as u64);
    s.append("..");
    push_dec(&mut s, last as u64);
    s.append("] of its own first predecessor ");
    push_dec(&mut s, input as u64);
    s.append(": not a block");
    s
}

fn say_not_contiguous(first: usize, found: usize, expected: usize) -> (s: String)
    ensures
        s@ == not_contiguous(first as nat, found, expected as nat),
{
    let mut s = "the outputs of the block at ".to_owned();
    push_dec(&mut s, first as u64);
    s.append(" are not contiguous: ");
    push_dec(&mut s, found as u64);
    s.append(" where ");
    push_dec(&mut s, expected as u64);
    s.append(" was expected");
    s
}

fn say_input_too_late(first: usize, input: usize) -> (s: String)
    ensures
        s@ == input_too_late(first as nat, input),
{
    let mut s = "the block at ".to_owned();
    push_dec(&mut s, first as u64);
    s.append(" has an input ");
    push_dec(&mut s, input as u64);
    s.append(" at or after its first output");
    s
}

fn spell(n: Option<usize>) -> (s: String)
    ensures
        s@ == spelled(n),
{
    match n {
        Some(v) => {
            let mut s = "Some(".to_owned();
            push_dec(&mut s, v as u64);
            s.append(")");
            s
        },
        None => "None".to_owned(),
    }
}

fn say_wrong_successors(first: usize, input: usize, successors: &Vec<usize>, outputs: usize) -> (s:
    String)
    ensures
        s@ == wrong_successors(first as nat, input, successors@, outputs as nat),
{
    let mut s = "the block at ".to_owned();
    push_dec(&mut s, first as u64);
    s.append(" is not complete bipartite: input ");
    push_dec(&mut s, input as u64);
    s.append(" has ");
    push_dec(&mut s, successors.len() as u64);
    s.append(" successors starting at ");
    let head: Option<usize> = if successors.len() > 0 {
        Some(successors[0])
    } else {
        None
    };
    s.append(spell(head).as_str());
    s.append(", not the block's ");
    push_dec(&mut s, outputs as u64);
    s.append(" outputs");
    s
}

fn say_wrong_predecessors(
    first: usize,
    output: usize,
    predecessors: &Vec<usize>,
    inputs: &Vec<usize>,
) -> (s: String)
    ensures
        s@ == wrong_predecessors(first as nat, output, predecessors@, inputs@),
{
    let mut s = "the block at ".to_owned();
    push_dec(&mut s, first as u64);
    s.append(" is not complete bipartite: output ");
    push_dec(&mut s, output as u64);
    let ghost prefix = s@;
    for j in 0..predecessors.len()
        invariant
            s@ == prefix,
            prefix == "the block at "@ + dec(first as nat)
                + " is not complete bipartite: output "@ + dec(output as nat),
            first_stranger(predecessors@, inputs@, 0) == first_stranger(
                predecessors@,
                inputs@,
                j as int,
            ),
    {
        if !listed(inputs, predecessors[j]) {
            s.append(" has a predecessor ");
            push_dec(&mut s, predecessors[j] as u64);
            s.append(" that is not among the block's ");
            push_dec(&mut s, inputs.len() as u64);
            s.append(" inputs");
            return s;
        }
    }
    s.append(" has ");
    push_dec(&mut s, predecessors.len() as u64);
    s.append(" predecessors, not the block's ");
    push_dec(&mut s, inputs.len() as u64);
    s.append(" inputs");
    s
}

/// The block one of whose outputs `key` is: inputs from the transpose, outputs
/// from the first input, and the clauses of a block checked on the result.
///
/// `check` is that every input's successors are exactly O and every output's
/// predecessors exactly I, |O| + |I| - 1 probes; that O is contiguous and I
/// before O cost nothing and are always checked. Level, parent and cut are a
/// walk's to fill in.
pub fn fetch_block<G: Graph, T: Graph>(pg: &G, pgt: &T, key: usize, check: bool) -> (r: Result<
    Block,
    String,
>)
    requires
        paired(pg.lists(), pgt.lists()),
        key < pg.lists().len(),
    ensures
        match r {
            Ok(b) => fetched(pg.lists(), pgt.lists(), key, check) == Ok::<BlockView, Seq<char>>(b@)
                && b@.is_block() && b@.within(pg.lists().len()),
            Err(e) => fetched(pg.lists(), pgt.lists(), key, check) == Err::<BlockView, Seq<char>>(
                e@,
            ),
        },
{
    let ghost g = pg.lists();
    let ghost t = pgt.lists();
    let inputs = pgt.successors(key);
    if inputs.len() == 0 {
        return Err(say_no_predecessor(key));
    }
    let outputs = pg.successors(inputs[0]);
    let first_out: usize = outputs[0];
    proof {
        assert forall|k: int| 0 <= k < outputs@.len() implies first_out <= #[trigger] outputs@[k]
            < g.len() by {
            assert(outputs@[0] <= outputs@[k]);
        }
        ascending_fits(outputs@, first_out as int, g.len() as int);
    }
    if !(first_out <= key && key < first_out + outputs.len()) {
        return Err(say_not_among(key, first_out, first_out + outputs.len() - 1, inputs[0]));
    }
    for k in 0..outputs.len()
        invariant
            first_out + outputs@.len() <= usize::MAX,
            first_gap(outputs@, 0) == first_gap(outputs@, k as int),
            inputs@ == t[key as int],
            inputs@.len() > 0,
            outputs@ == g[inputs@[0] as int],
            outputs@.len() > 0,
            first_out == outputs@[0],
            first_out <= key < first_out + outputs@.len(),
            g == pg.lists(),
            t == pgt.lists(),
            forall|j: int| 0 <= j < k ==> #[trigger] outputs@[j] == first_out + j,
    {
        let o: usize = outputs[k];
        if o != first_out + k {
            return Err(say_not_contiguous(first_out, o, first_out + k));
        }
    }
    let last: usize = inputs[inputs.len() - 1];
    if last >= first_out {
        return Err(say_input_too_late(first_out, last));
    }
    if check {
        for j in 1..inputs.len()
            invariant
                inputs@.len() > 0,
                g == pg.lists(),
                t == pgt.lists(),
                g.len() == t.len(),
                inputs@ == t[key as int],
                successor_list(inputs@, t.len()),
                outputs@ == g[inputs@[0] as int],
                outputs@.len() > 0,
                first_out == outputs@[0],
                first_out <= key < first_out + outputs@.len(),
                inputs@.last() < first_out,
                check,
                first_gap(outputs@, 0) is None,
                first_odd(g, inputs@, outputs@, 1) == first_odd(g, inputs@, outputs@, j as int),
        {
            let u: usize = inputs[j];
            let suc = pg.successors(u);
            if !same(&suc, &outputs) {
                return Err(say_wrong_successors(first_out, u, &suc, outputs.len()));
            }
        }
        for j in 0..outputs.len()
            invariant
                outputs@.len() > 0,
                g == pg.lists(),
                t == pgt.lists(),
                g.len() == t.len(),
                inputs@ == t[key as int],
                inputs@.len() > 0,
                outputs@ == g[inputs@[0] as int],
                successor_list(outputs@, g.len()),
                first_out == outputs@[0],
                first_out <= key < first_out + outputs@.len(),
                inputs@.last() < first_out,
                check,
                first_gap(outputs@, 0) is None,
                first_odd(g, inputs@, outputs@, 1) is None,
                first_odd(t, outputs@, inputs@, 0) == first_odd(t, outputs@, inputs@, j as int),
        {
            let o: usize = outputs[j];
            let pre = pgt.successors(o);
            if !same(&pre, &inputs) {
                return Err(say_wrong_predecessors(first_out, o, &pre, &inputs));
            }
        }
    }
    Ok(
        Block {
            first_out,
            inputs,
            outputs,
            level: 0,
            parent: None,
            kept_in: Kept::All,
            kept_out: Kept::All,
        },
    )
}

/// Which block a root names: the one that produced it, or the one that
/// consumes it.
#[derive(Clone, Copy, Debug, PartialEq, Eq, Structural)]
pub enum Seed {
    Producing,
    Consuming,
}

pub open spec fn no_such_node(root: usize, n: nat) -> Seq<char> {
    "node "@ + dec(root as nat) + " is not in a graph of "@ + dec(n) + " nodes"@
}

pub open spec fn isolated(root: usize) -> Seq<char> {
    "node "@ + dec(root as nat) + " is isolated: no block contains it"@
}

pub open spec fn seed_sentence(root: usize, reading: Seq<char>, b: BlockView) -> Seq<char> {
    "seed: root "@ + dec(root as nat) + reading + b.name()
}

/// A fetched block with the sentence that says how the root was read.
pub open spec fn with_sentence(
    r: Result<BlockView, Seq<char>>,
    root: usize,
    reading: Seq<char>,
) -> Result<(BlockView, Seq<char>), Seq<char>> {
    match r {
        Ok(b) => Ok((b, seed_sentence(root, reading, b))),
        Err(e) => Err(e),
    }
}

/// The block a root names, and the sentence saying which reading was taken:
/// the block that produced it, where that is wanted and there is one; else the
/// block it feeds; else, for a node that feeds none, the block that produced
/// it; else none.
pub open spec fn seeded(g: Lists, t: Lists, root: usize, mode: Seed, check: bool) -> Result<
    (BlockView, Seq<char>),
    Seq<char>,
> {
    if root >= g.len() {
        Err(no_such_node(root, g.len()))
    } else if mode == Seed::Producing && t[root as int].len() > 0 {
        with_sentence(fetched(g, t, root, check), root, " is an output of "@)
    } else if g[root as int].len() > 0 {
        with_sentence(
            fetched(g, t, g[root as int][0], check),
            root,
            if t[root as int].len() == 0 {
                " is a source (in-degree 0); drawing the block it feeds, "@
            } else {
                " is an input of "@
            },
        )
    } else if t[root as int].len() > 0 {
        with_sentence(
            fetched(g, t, root, check),
            root,
            " is a sink (out-degree 0); drawing the block that produced it, "@,
        )
    } else {
        Err(isolated(root))
    }
}

fn say_seed(root: usize, reading: &str, b: &Block) -> (s: String)
    ensures
        s@ == seed_sentence(root, reading@, b@),
{
    let mut s = "seed: root ".to_owned();
    push_dec(&mut s, root as u64);
    s.append(reading);
    s.append(b.name().as_str());
    s
}

/// The block a root names, and the sentence saying which reading was taken.
pub fn seed_of<G: Graph, T: Graph>(pg: &G, pgt: &T, root: usize, mode: Seed, check: bool) -> (r:
    Result<(Block, String), String>)
    requires
        paired(pg.lists(), pgt.lists()),
    ensures
        match r {
            Ok((b, msg)) => seeded(pg.lists(), pgt.lists(), root, mode, check) == Ok::<
                (BlockView, Seq<char>),
                Seq<char>,
            >((b@, msg@)) && b@.is_block() && b@.within(pg.lists().len()),
            Err(e) => seeded(pg.lists(), pgt.lists(), root, mode, check) == Err::<
                (BlockView, Seq<char>),
                Seq<char>,
            >(e@),
        },
{
    let n: usize = pg.num_nodes();
    if root >= n {
        let mut s = "node ".to_owned();
        push_dec(&mut s, root as u64);
        s.append(" is not in a graph of ");
        push_dec(&mut s, n as u64);
        s.append(" nodes");
        return Err(s);
    }
    let indeg: usize = pgt.outdegree(root);
    let outdeg: usize = pg.outdegree(root);
    if mode == Seed::Producing && indeg > 0 {
        return match fetch_block(pg, pgt, root, check) {
            Ok(b) => {
                let msg = say_seed(root, " is an output of ", &b);
                Ok((b, msg))
            },
            Err(e) => Err(e),
        };
    }
    if outdeg > 0 {
        let successors = pg.successors(root);
        let first: usize = successors[0];
        return match fetch_block(pg, pgt, first, check) {
            Ok(b) => {
                let msg = if indeg == 0 {
                    say_seed(root, " is a source (in-degree 0); drawing the block it feeds, ", &b)
                } else {
                    say_seed(root, " is an input of ", &b)
                };
                Ok((b, msg))
            },
            Err(e) => Err(e),
        };
    }
    if indeg > 0 {
        return match fetch_block(pg, pgt, root, check) {
            Ok(b) => {
                let msg = say_seed(
                    root,
                    " is a sink (out-degree 0); drawing the block that produced it, ",
                    &b,
                );
                Ok((b, msg))
            },
            Err(e) => Err(e),
        };
    }
    let mut s = "node ".to_owned();
    push_dec(&mut s, root as u64);
    s.append(" is isolated: no block contains it");
    Err(s)
}

proof fn no_odd(lists: Lists, members: Seq<usize>, wanted: Seq<usize>, k: int)
    requires
        first_odd(lists, members, wanted, k) is None,
    ensures
        forall|j: int| k <= j < members.len() ==> lists[#[trigger] members[j] as int] == wanted,
    decreases members.len() - k,
{
    if k < members.len() {
        no_odd(lists, members, wanted, k + 1);
    }
}

proof fn no_gap(s: Seq<usize>, k: int)
    requires
        0 <= k,
        first_gap(s, k) is None,
    ensures
        forall|j: int| k <= j < s.len() ==> #[trigger] s[j] == s[0] + j,
    decreases s.len() - k,
{
    if k < s.len() {
        no_gap(s, k + 1);
    }
}

/// A block fetched with the check on is complete bipartite: the successors of
/// every input are exactly the outputs, and the predecessors of every output
/// are exactly the inputs. No arc into a drawn output comes from anywhere but
/// the block's input side, so nothing is ever dropped.
pub proof fn a_checked_block_is_complete(g: Lists, t: Lists, key: usize)
    requires
        fetched(g, t, key, true) is Ok,
    ensures
        ({
            let b = fetched(g, t, key, true)->Ok_0;
            &&& forall|i: int|
                0 <= i < b.inputs.len() ==> g[#[trigger] b.inputs[i] as int] == b.outputs
            &&& forall|j: int|
                0 <= j < b.outputs.len() ==> t[#[trigger] b.outputs[j] as int] == b.inputs
        }),
{
    let b = fetched(g, t, key, true)->Ok_0;
    no_odd(g, b.inputs, b.outputs, 1);
    no_odd(t, b.outputs, b.inputs, 0);
}

/// A fetched block holds the node it was fetched by among its outputs, which
/// are consecutive nodes, and every input comes before every output.
pub proof fn a_fetched_block_holds_its_key(g: Lists, t: Lists, key: usize, check: bool)
    requires
        well_formed(t),
        key < t.len(),
        fetched(g, t, key, check) is Ok,
    ensures
        ({
            let b = fetched(g, t, key, check)->Ok_0;
            &&& b.outputs.contains(key)
            &&& b.inputs == t[key as int]
            &&& forall|j: int|
                0 <= j < b.outputs.len() ==> #[trigger] b.outputs[j] == b.first_out + j
            &&& forall|i: int, j: int|
                0 <= i < b.inputs.len() && 0 <= j < b.outputs.len() ==> b.inputs[i] < b.outputs[j]
        }),
{
    let b = fetched(g, t, key, check)->Ok_0;
    no_gap(b.outputs, 0);
    assert(b.outputs[key - b.first_out] == key);
    assert(successor_list(t[key as int], t.len()));
    assert forall|i: int, j: int|
        0 <= i < b.inputs.len() && 0 <= j < b.outputs.len() implies b.inputs[i] < b.outputs[j] by {
        assert(b.inputs[i] <= b.inputs.last());
        assert(b.outputs[j] == b.first_out + j);
    }
}

} // verus!
