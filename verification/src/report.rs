//! What a walk over blocks is told to stop at, and what it says of itself when
//! it is done.

use vstd::prelude::*;
use vstd::string::*;

use crate::text::{dec, decimal, push_dec};

verus! {

/// Blocks a walk may draw when the caller does not say.
pub const DEFAULT_MAX_BLOCKS: usize = 20_000;

/// Where a walk over blocks is told to stop, in blocks.
///
/// - `depth`: block levels drawn below the seed, the seed being level 0. A
///   block on the last level is drawn whole, and what its outputs feed is not.
/// - `max_blocks`, `max_nodes`: budgets, spent breadth first on the nearest
///   blocks.
/// - `fanout_in`, `fanout_out`: how many inputs and outputs a block may show.
pub struct BlockPrune {
    pub depth: Option<usize>,
    pub max_blocks: usize,
    pub max_nodes: usize,
    pub fanout_in: Option<usize>,
    pub fanout_out: Option<usize>,
}

impl Default for BlockPrune {
    fn default() -> (prune: Self)
        ensures
            prune == (BlockPrune {
                depth: None,
                max_blocks: DEFAULT_MAX_BLOCKS,
                max_nodes: usize::MAX,
                fanout_in: None,
                fanout_out: None,
            }),
    {
        BlockPrune {
            depth: None,
            max_blocks: DEFAULT_MAX_BLOCKS,
            max_nodes: usize::MAX,
            fanout_in: None,
            fanout_out: None,
        }
    }
}

/// An optional limit in words: the number, or `none`.
pub open spec fn limit_text(limit: Option<usize>) -> Seq<char> {
    match limit {
        Some(n) => dec(n as nat),
        None => "none"@,
    }
}

fn say_limit(limit: Option<usize>) -> (s: String)
    ensures
        s@ == limit_text(limit),
{
    match limit {
        Some(n) => decimal(n as u64),
        None => "none".to_owned(),
    }
}

impl BlockPrune {
    /// The limits in words.
    pub open spec fn words(&self) -> Seq<char> {
        let fanout = if self.fanout_in is None && self.fanout_out is None {
            "none"@
        } else {
            "in="@ + limit_text(self.fanout_in) + " out="@ + limit_text(self.fanout_out)
        };
        "walk: depth "@ + limit_text(self.depth) + " (blocks), max-blocks "@ + dec(
            self.max_blocks as nat,
        ) + ", max-nodes "@ + (if self.max_nodes == usize::MAX {
            "none"@
        } else {
            dec(self.max_nodes as nat)
        }) + ", fanout "@ + fanout
    }

    /// What the scissors are set to, in one line.
    pub fn summary(&self) -> (s: String)
        ensures
            s@ == self.words(),
    {
        let fanout = match (self.fanout_in, self.fanout_out) {
            (None, None) => "none".to_owned(),
            (i, o) => {
                let mut f = "in=".to_owned();
                f.append(say_limit(i).as_str());
                f.append(" out=");
                f.append(say_limit(o).as_str());
                f
            },
        };
        let mut s = "walk: depth ".to_owned();
        s.append(say_limit(self.depth).as_str());
        s.append(" (blocks), max-blocks ");
        push_dec(&mut s, self.max_blocks as u64);
        s.append(", max-nodes ");
        if self.max_nodes == usize::MAX {
            s.append("none");
        } else {
            push_dec(&mut s, self.max_nodes as u64);
        }
        s.append(", fanout ");
        s.append(fanout.as_str());
        s
    }
}

/// The numbers a caption quotes.
#[derive(Debug, Clone, Copy, PartialEq, Eq, Structural)]
pub struct Report {
    pub blocks_drawn: usize,
    pub deepest_level: usize,
    pub blocks_cut_by_fanout: usize,
    /// Discovered but not admitted, by the block or the node budget.
    pub blocks_refused_by_budget: usize,
    /// Distinct consuming blocks of frontier outputs that the depth stopped,
    /// or that a hidden output leads to: what the picture stops short of.
    pub blocks_beyond_depth: usize,
    /// Blocks whose inputs are partly drawn outputs and partly outside inputs
    /// or inputs the fanout hid.
    pub blocks_mixed: usize,
    /// Blocks verified as complete bipartite on fetch.
    pub blocks_checked: usize,
    pub nodes_drawn: usize,
    pub outputs_drawn: usize,
    pub outside_inputs: usize,
    /// Of the outside inputs, the true sources.
    pub outside_sources: usize,
    /// Of the outside inputs, the outputs of blocks not on the page.
    pub outside_from_undrawn: usize,
    pub inputs_hidden: usize,
    pub outputs_hidden: usize,
    /// Hidden outputs with an out-degree: each leads to a block the ellipsis
    /// stands in front of.
    pub hidden_outputs_with_consumer: usize,
    pub arcs_drawn: u64,
    /// The sum of |I||O| over the drawn blocks.
    pub arcs_in_drawn_blocks: u64,
    pub arcs_hidden_by_fanout: u64,
    pub arcs_cross: u64,
    pub arcs_stray: u64,
    /// Always 0; the field exists to be printed.
    pub arcs_dropped: u64,
    /// Drawn arcs that cross a row close to a node or an ellipsis they do not
    /// end at.
    pub arcs_over_nodes: u64,
    /// Drawn nodes with an out-degree and no drawn out-arc.
    pub frontier_outputs: usize,
    pub sinks: usize,
}

impl Report {
    /// The report of a run that has drawn nothing.
    pub open spec fn nothing() -> Report {
        Report {
            blocks_drawn: 0,
            deepest_level: 0,
            blocks_cut_by_fanout: 0,
            blocks_refused_by_budget: 0,
            blocks_beyond_depth: 0,
            blocks_mixed: 0,
            blocks_checked: 0,
            nodes_drawn: 0,
            outputs_drawn: 0,
            outside_inputs: 0,
            outside_sources: 0,
            outside_from_undrawn: 0,
            inputs_hidden: 0,
            outputs_hidden: 0,
            hidden_outputs_with_consumer: 0,
            arcs_drawn: 0,
            arcs_in_drawn_blocks: 0,
            arcs_hidden_by_fanout: 0,
            arcs_cross: 0,
            arcs_stray: 0,
            arcs_dropped: 0,
            arcs_over_nodes: 0,
            frontier_outputs: 0,
            sinks: 0,
        }
    }

    /// The four report lines.
    pub open spec fn text(&self) -> Seq<char> {
        "blocks: drawn="@ + dec(self.blocks_drawn as nat)
            + " deepest_level="@ + dec(self.deepest_level as nat)
            + " cut_by_fanout="@ + dec(self.blocks_cut_by_fanout as nat)
            + " refused_by_budget="@ + dec(self.blocks_refused_by_budget as nat)
            + " beyond_depth="@ + dec(self.blocks_beyond_depth as nat)
            + " mixed_blocks="@ + dec(self.blocks_mixed as nat)
            + " checked="@ + dec(self.blocks_checked as nat)
            + " violations=0\nnodes: drawn="@ + dec(self.nodes_drawn as nat)
            + " outputs="@ + dec(self.outputs_drawn as nat)
            + " outside_inputs="@ + dec(self.outside_inputs as nat)
            + " (sources="@ + dec(self.outside_sources as nat)
            + ", from_undrawn_blocks="@ + dec(self.outside_from_undrawn as nat)
            + ") hidden_inputs="@ + dec(self.inputs_hidden as nat)
            + " hidden_outputs="@ + dec(self.outputs_hidden as nat)
            + " hidden_outputs_with_consumer="@ + dec(self.hidden_outputs_with_consumer as nat)
            + "\narcs: drawn="@ + dec(self.arcs_drawn as nat)
            + " in_drawn_blocks="@ + dec(self.arcs_in_drawn_blocks as nat)
            + " hidden_by_fanout="@ + dec(self.arcs_hidden_by_fanout as nat)
            + " cross="@ + dec(self.arcs_cross as nat)
            + " stray="@ + dec(self.arcs_stray as nat)
            + " dropped="@ + dec(self.arcs_dropped as nat)
            + " over_nodes="@ + dec(self.arcs_over_nodes as nat)
            + "\nfrontier: outputs_with_undrawn_consumer="@ + dec(self.frontier_outputs as nat)
            + " sinks="@ + dec(self.sinks as nat)
    }

    /// The four report lines, in the order and under the names a script can
    /// rely on.
    pub fn lines(&self) -> (s: String)
        ensures
            s@ == self.text(),
    {
        let mut s = "blocks: drawn=".to_owned();
        push_dec(&mut s, self.blocks_drawn as u64);
        s.append(" deepest_level=");
        push_dec(&mut s, self.deepest_level as u64);
        s.append(" cut_by_fanout=");
        push_dec(&mut s, self.blocks_cut_by_fanout as u64);
        s.append(" refused_by_budget=");
        push_dec(&mut s, self.blocks_refused_by_budget as u64);
        s.append(" beyond_depth=");
        push_dec(&mut s, self.blocks_beyond_depth as u64);
        s.append(" mixed_blocks=");
        push_dec(&mut s, self.blocks_mixed as u64);
        s.append(" checked=");
        push_dec(&mut s, self.blocks_checked as u64);
        s.append(" violations=0\nnodes: drawn=");
        push_dec(&mut s, self.nodes_drawn as u64);
        s.append(" outputs=");
        push_dec(&mut s, self.outputs_drawn as u64);
        s.append(" outside_inputs=");
        push_dec(&mut s, self.outside_inputs as u64);
        s.append(" (sources=");
        push_dec(&mut s, self.outside_sources as u64);
        s.append(", from_undrawn_blocks=");
        push_dec(&mut s, self.outside_from_undrawn as u64);
        s.append(") hidden_inputs=");
        push_dec(&mut s, self.inputs_hidden as u64);
        s.append(" hidden_outputs=");
        push_dec(&mut s, self.outputs_hidden as u64);
        s.append(" hidden_outputs_with_consumer=");
        push_dec(&mut s, self.hidden_outputs_with_consumer as u64);
        s.append("\narcs: drawn=");
        push_dec(&mut s, self.arcs_drawn as u64);
        s.append(" in_drawn_blocks=");
        push_dec(&mut s, self.arcs_in_drawn_blocks as u64);
        s.append(" hidden_by_fanout=");
        push_dec(&mut s, self.arcs_hidden_by_fanout as u64);
        s.append(" cross=");
        push_dec(&mut s, self.arcs_cross as u64);
        s.append(" stray=");
        push_dec(&mut s, self.arcs_stray as u64);
        s.append(" dropped=");
        push_dec(&mut s, self.arcs_dropped as u64);
        s.append(" over_nodes=");
        push_dec(&mut s, self.arcs_over_nodes as u64);
        s.append("\nfrontier: outputs_with_undrawn_consumer=");
        push_dec(&mut s, self.frontier_outputs as u64);
        s.append(" sinks=");
        push_dec(&mut s, self.sinks as u64);
        s
    }
}

impl Default for Report {
    fn default() -> (report: Self)
        ensures
            report == Report::nothing(),
    {
        Report {
            blocks_drawn: 0,
            deepest_level: 0,
            blocks_cut_by_fanout: 0,
            blocks_refused_by_budget: 0,
            blocks_beyond_depth: 0,
            blocks_mixed: 0,
            blocks_checked: 0,
            nodes_drawn: 0,
            outputs_drawn: 0,
            outside_inputs: 0,
            outside_sources: 0,
            outside_from_undrawn: 0,
            inputs_hidden: 0,
            outputs_hidden: 0,
            hidden_outputs_with_consumer: 0,
            arcs_drawn: 0,
            arcs_in_drawn_blocks: 0,
            arcs_hidden_by_fanout: 0,
            arcs_cross: 0,
            arcs_stray: 0,
            arcs_dropped: 0,
            arcs_over_nodes: 0,
            frontier_outputs: 0,
            sinks: 0,
        }
    }
}

} // verus!
