//! What the programs are told on their command lines.
//!
//! Every program reads its arguments the same way: one after another, a flag
//! taking the argument behind it where it wants one, and what is no flag being a
//! name. What is wrong is said in the program's own words, with its usage where
//! that helps.

use std::collections::HashSet;

use vstd::prelude::*;
use vstd::string::*;

use crate::blocks::Seed;
use crate::forest::{Prune, PruneView};
use crate::ink::PAGE_NODES;
use crate::labels::Labels;
use crate::numbers::{id_list, letters, number, read_ids, read_number, read_whole, whole};
use crate::raster::Format;
use crate::report::{BlockPrune, DEFAULT_MAX_BLOCKS};
use crate::text::{dec, push_dec};

verus! {

broadcast use vstd::std_specs::hash::group_hash_axioms;

/// The programs.
#[derive(Clone, Copy, Debug, PartialEq, Eq, Structural)]
pub enum Program {
    BlockPdf,
    TreePdf,
    TreeView,
    TreeJp2,
    TreeBitmap,
    TreeSvg,
    TxView,
}

/// What an argument is when it is read as a size.
#[derive(Clone, Copy, Debug, PartialEq, Eq, Structural)]
pub enum Measure {
    NotANumber,
    TooSmall,
    Usable,
}

/// How a program is called.
pub open spec fn usage_of(program: Program) -> Seq<char> {
    match program {
        Program::BlockPdf => "usage: block-pdf <graph-basename> <transpose-basename> --root <id>[,<id>...] -o <file>\n[--depth <n>] [--max-blocks <n>] [--max-nodes <n>]\n[--fanout <n>] [--fanout-in <n>] [--fanout-out <n>]\n[--seed producing|consuming]\n[--horizontal] [--fill] [--width <pt>] [--max-height <pt>]\n[--mark <id>[,<id>...]] [--labels [compact]] [--label-base <id>]\n[--dash-cross] [--no-check]"@,
        Program::TreePdf => "usage: tree-pdf <graph-basename> --root <id>[,<id>...] -o <file>\n[--depth <n>] [--max-nodes <n>] [--fanout <n>]\n[--vertical] [--fill] [--width <pt>] [--max-height <pt>]\n[--mark <id>[,<id>...]] [--labels] [--spine <id>[,<id>...]]\n[--ancestors <transpose-basename> [--depth-up <n>] [--fanout-up <n>] [--max-nodes-up <n>]]"@,
        Program::TreeView => "usage: tree-view <graph-basename> [--width <px>] [--height <px>]"@,
        Program::TreeJp2 => "usage: tree-jp2 <graph-basename> -o <file> [--zoom <n>]"@,
        Program::TreeBitmap => "usage: tree-bitmap <graph-basename> <transpose-basename> [-o <file>] [--format pbm|pgm] [--zoom <n>]"@,
        Program::TreeSvg => "usage: tree-svg <graph-basename> <transpose-basename> [-o <file>] [--scale <px-per-node>]"@,
        Program::TxView => "usage: tx-view <records-file> [--limit <n>|all] [--width <px>] [--height <px>]"@,
    }
}

/// How a program is called.
pub fn usage(program: Program) -> (s: &'static str)
    ensures
        s@ == usage_of(program),
{
    match program {
        Program::BlockPdf => "usage: block-pdf <graph-basename> <transpose-basename> --root <id>[,<id>...] -o <file>\n[--depth <n>] [--max-blocks <n>] [--max-nodes <n>]\n[--fanout <n>] [--fanout-in <n>] [--fanout-out <n>]\n[--seed producing|consuming]\n[--horizontal] [--fill] [--width <pt>] [--max-height <pt>]\n[--mark <id>[,<id>...]] [--labels [compact]] [--label-base <id>]\n[--dash-cross] [--no-check]",
        Program::TreePdf => "usage: tree-pdf <graph-basename> --root <id>[,<id>...] -o <file>\n[--depth <n>] [--max-nodes <n>] [--fanout <n>]\n[--vertical] [--fill] [--width <pt>] [--max-height <pt>]\n[--mark <id>[,<id>...]] [--labels] [--spine <id>[,<id>...]]\n[--ancestors <transpose-basename> [--depth-up <n>] [--fanout-up <n>] [--max-nodes-up <n>]]",
        Program::TreeView => "usage: tree-view <graph-basename> [--width <px>] [--height <px>]",
        Program::TreeJp2 => "usage: tree-jp2 <graph-basename> -o <file> [--zoom <n>]",
        Program::TreeBitmap => "usage: tree-bitmap <graph-basename> <transpose-basename> [-o <file>] [--format pbm|pgm] [--zoom <n>]",
        Program::TreeSvg => "usage: tree-svg <graph-basename> <transpose-basename> [-o <file>] [--scale <px-per-node>]",
        Program::TxView => "usage: tx-view <records-file> [--limit <n>|all] [--width <px>] [--height <px>]",
    }
}

/// The flags.
#[derive(Clone, Copy, Debug, PartialEq, Eq, Structural)]
pub enum Flag {
    Out,
    Help,
    Root,
    Depth,
    MaxBlocks,
    MaxNodes,
    Fanout,
    FanoutIn,
    FanoutOut,
    Seed,
    Width,
    MaxHeight,
    Height,
    Horizontal,
    Vertical,
    Fill,
    Labels,
    LabelBase,
    Mark,
    DashCross,
    NoCheck,
    Spine,
    Ancestors,
    DepthUp,
    FanoutUp,
    MaxNodesUp,
    Zoom,
    Format,
    Scale,
    Limit,
}

/// How a flag is spelled in messages.
pub open spec fn flag_text(flag: Flag) -> Seq<char> {
    match flag {
        Flag::Out => "-o"@,
        Flag::Help => "-h"@,
        Flag::Root => "--root"@,
        Flag::Depth => "--depth"@,
        Flag::MaxBlocks => "--max-blocks"@,
        Flag::MaxNodes => "--max-nodes"@,
        Flag::Fanout => "--fanout"@,
        Flag::FanoutIn => "--fanout-in"@,
        Flag::FanoutOut => "--fanout-out"@,
        Flag::Seed => "--seed"@,
        Flag::Width => "--width"@,
        Flag::MaxHeight => "--max-height"@,
        Flag::Height => "--height"@,
        Flag::Horizontal => "--horizontal"@,
        Flag::Vertical => "--vertical"@,
        Flag::Fill => "--fill"@,
        Flag::Labels => "--labels"@,
        Flag::LabelBase => "--label-base"@,
        Flag::Mark => "--mark"@,
        Flag::DashCross => "--dash-cross"@,
        Flag::NoCheck => "--no-check"@,
        Flag::Spine => "--spine"@,
        Flag::Ancestors => "--ancestors"@,
        Flag::DepthUp => "--depth-up"@,
        Flag::FanoutUp => "--fanout-up"@,
        Flag::MaxNodesUp => "--max-nodes-up"@,
        Flag::Zoom => "--zoom"@,
        Flag::Format => "--format"@,
        Flag::Scale => "--scale"@,
        Flag::Limit => "--limit"@,
    }
}

/// How a flag is spelled in messages.
pub fn spelled(flag: Flag) -> (s: &'static str)
    ensures
        s@ == flag_text(flag),
{
    match flag {
        Flag::Out => "-o",
        Flag::Help => "-h",
        Flag::Root => "--root",
        Flag::Depth => "--depth",
        Flag::MaxBlocks => "--max-blocks",
        Flag::MaxNodes => "--max-nodes",
        Flag::Fanout => "--fanout",
        Flag::FanoutIn => "--fanout-in",
        Flag::FanoutOut => "--fanout-out",
        Flag::Seed => "--seed",
        Flag::Width => "--width",
        Flag::MaxHeight => "--max-height",
        Flag::Height => "--height",
        Flag::Horizontal => "--horizontal",
        Flag::Vertical => "--vertical",
        Flag::Fill => "--fill",
        Flag::Labels => "--labels",
        Flag::LabelBase => "--label-base",
        Flag::Mark => "--mark",
        Flag::DashCross => "--dash-cross",
        Flag::NoCheck => "--no-check",
        Flag::Spine => "--spine",
        Flag::Ancestors => "--ancestors",
        Flag::DepthUp => "--depth-up",
        Flag::FanoutUp => "--fanout-up",
        Flag::MaxNodesUp => "--max-nodes-up",
        Flag::Zoom => "--zoom",
        Flag::Format => "--format",
        Flag::Scale => "--scale",
        Flag::Limit => "--limit",
    }
}

/// The flag an argument is, in any of the programs.
pub open spec fn known(arg: Seq<char>) -> Option<Flag> {
    if arg == "-o"@ || arg == "--out"@ {
        Some(Flag::Out)
    } else if arg == "-h"@ || arg == "--help"@ {
        Some(Flag::Help)
    } else if arg == "--root"@ {
        Some(Flag::Root)
    } else if arg == "--depth"@ {
        Some(Flag::Depth)
    } else if arg == "--max-blocks"@ {
        Some(Flag::MaxBlocks)
    } else if arg == "--max-nodes"@ {
        Some(Flag::MaxNodes)
    } else if arg == "--fanout"@ {
        Some(Flag::Fanout)
    } else if arg == "--fanout-in"@ {
        Some(Flag::FanoutIn)
    } else if arg == "--fanout-out"@ {
        Some(Flag::FanoutOut)
    } else if arg == "--seed"@ {
        Some(Flag::Seed)
    } else if arg == "--width"@ {
        Some(Flag::Width)
    } else if arg == "--max-height"@ {
        Some(Flag::MaxHeight)
    } else if arg == "--height"@ {
        Some(Flag::Height)
    } else if arg == "--horizontal"@ {
        Some(Flag::Horizontal)
    } else if arg == "--vertical"@ {
        Some(Flag::Vertical)
    } else if arg == "--fill"@ {
        Some(Flag::Fill)
    } else if arg == "--labels"@ {
        Some(Flag::Labels)
    } else if arg == "--label-base"@ {
        Some(Flag::LabelBase)
    } else if arg == "--mark"@ {
        Some(Flag::Mark)
    } else if arg == "--dash-cross"@ {
        Some(Flag::DashCross)
    } else if arg == "--no-check"@ {
        Some(Flag::NoCheck)
    } else if arg == "--spine"@ {
        Some(Flag::Spine)
    } else if arg == "--ancestors"@ {
        Some(Flag::Ancestors)
    } else if arg == "--depth-up"@ {
        Some(Flag::DepthUp)
    } else if arg == "--fanout-up"@ {
        Some(Flag::FanoutUp)
    } else if arg == "--max-nodes-up"@ {
        Some(Flag::MaxNodesUp)
    } else if arg == "--zoom"@ {
        Some(Flag::Zoom)
    } else if arg == "--format"@ {
        Some(Flag::Format)
    } else if arg == "--scale"@ {
        Some(Flag::Scale)
    } else if arg == "--limit"@ {
        Some(Flag::Limit)
    } else {
        None
    }
}

fn is(arg: &String, text: &str) -> (b: bool)
    ensures
        b == (arg@ == text@),
{
    *arg == text.to_owned()
}

fn know(arg: &String) -> (flag: Option<Flag>)
    ensures
        flag == known(arg@),
{
    if is(arg, "-o") || is(arg, "--out") {
        Some(Flag::Out)
    } else if is(arg, "-h") || is(arg, "--help") {
        Some(Flag::Help)
    } else if is(arg, "--root") {
        Some(Flag::Root)
    } else if is(arg, "--depth") {
        Some(Flag::Depth)
    } else if is(arg, "--max-blocks") {
        Some(Flag::MaxBlocks)
    } else if is(arg, "--max-nodes") {
        Some(Flag::MaxNodes)
    } else if is(arg, "--fanout") {
        Some(Flag::Fanout)
    } else if is(arg, "--fanout-in") {
        Some(Flag::FanoutIn)
    } else if is(arg, "--fanout-out") {
        Some(Flag::FanoutOut)
    } else if is(arg, "--seed") {
        Some(Flag::Seed)
    } else if is(arg, "--width") {
        Some(Flag::Width)
    } else if is(arg, "--max-height") {
        Some(Flag::MaxHeight)
    } else if is(arg, "--height") {
        Some(Flag::Height)
    } else if is(arg, "--horizontal") {
        Some(Flag::Horizontal)
    } else if is(arg, "--vertical") {
        Some(Flag::Vertical)
    } else if is(arg, "--fill") {
        Some(Flag::Fill)
    } else if is(arg, "--labels") {
        Some(Flag::Labels)
    } else if is(arg, "--label-base") {
        Some(Flag::LabelBase)
    } else if is(arg, "--mark") {
        Some(Flag::Mark)
    } else if is(arg, "--dash-cross") {
        Some(Flag::DashCross)
    } else if is(arg, "--no-check") {
        Some(Flag::NoCheck)
    } else if is(arg, "--spine") {
        Some(Flag::Spine)
    } else if is(arg, "--ancestors") {
        Some(Flag::Ancestors)
    } else if is(arg, "--depth-up") {
        Some(Flag::DepthUp)
    } else if is(arg, "--fanout-up") {
        Some(Flag::FanoutUp)
    } else if is(arg, "--max-nodes-up") {
        Some(Flag::MaxNodesUp)
    } else if is(arg, "--zoom") {
        Some(Flag::Zoom)
    } else if is(arg, "--format") {
        Some(Flag::Format)
    } else if is(arg, "--scale") {
        Some(Flag::Scale)
    } else if is(arg, "--limit") {
        Some(Flag::Limit)
    } else {
        None
    }
}

/// Whether a program has a flag.
pub open spec fn has_flag(program: Program, flag: Flag) -> bool {
    match flag {
        Flag::Help => true,
        Flag::Out => program != Program::TreeView && program != Program::TxView,
        Flag::Root => program == Program::BlockPdf || program == Program::TreePdf,
        Flag::Depth => program == Program::BlockPdf || program == Program::TreePdf,
        Flag::MaxBlocks => program == Program::BlockPdf,
        Flag::MaxNodes => program == Program::BlockPdf || program == Program::TreePdf,
        Flag::Fanout => program == Program::BlockPdf || program == Program::TreePdf,
        Flag::FanoutIn => program == Program::BlockPdf,
        Flag::FanoutOut => program == Program::BlockPdf,
        Flag::Seed => program == Program::BlockPdf,
        Flag::Width => program == Program::BlockPdf || program == Program::TreePdf || program == Program::TreeView || program == Program::TxView,
        Flag::MaxHeight => program == Program::BlockPdf || program == Program::TreePdf,
        Flag::Height => program == Program::TreeView || program == Program::TxView,
        Flag::Horizontal => program == Program::BlockPdf,
        Flag::Vertical => program == Program::BlockPdf || program == Program::TreePdf,
        Flag::Fill => program == Program::BlockPdf || program == Program::TreePdf,
        Flag::Labels => program == Program::BlockPdf || program == Program::TreePdf,
        Flag::LabelBase => program == Program::BlockPdf,
        Flag::Mark => program == Program::BlockPdf || program == Program::TreePdf,
        Flag::DashCross => program == Program::BlockPdf,
        Flag::NoCheck => program == Program::BlockPdf,
        Flag::Spine => program == Program::TreePdf,
        Flag::Ancestors => program == Program::TreePdf,
        Flag::DepthUp => program == Program::TreePdf,
        Flag::FanoutUp => program == Program::TreePdf,
        Flag::MaxNodesUp => program == Program::TreePdf,
        Flag::Zoom => program == Program::TreeJp2 || program == Program::TreeBitmap,
        Flag::Format => program == Program::TreeBitmap,
        Flag::Scale => program == Program::TreeSvg,
        Flag::Limit => program == Program::TxView,
    }
}

fn takes(program: Program, flag: Flag) -> (b: bool)
    ensures
        b == has_flag(program, flag),
{
    match flag {
        Flag::Help => true,
        Flag::Out => program != Program::TreeView && program != Program::TxView,
        Flag::Root => program == Program::BlockPdf || program == Program::TreePdf,
        Flag::Depth => program == Program::BlockPdf || program == Program::TreePdf,
        Flag::MaxBlocks => program == Program::BlockPdf,
        Flag::MaxNodes => program == Program::BlockPdf || program == Program::TreePdf,
        Flag::Fanout => program == Program::BlockPdf || program == Program::TreePdf,
        Flag::FanoutIn => program == Program::BlockPdf,
        Flag::FanoutOut => program == Program::BlockPdf,
        Flag::Seed => program == Program::BlockPdf,
        Flag::Width => program == Program::BlockPdf || program == Program::TreePdf || program == Program::TreeView || program == Program::TxView,
        Flag::MaxHeight => program == Program::BlockPdf || program == Program::TreePdf,
        Flag::Height => program == Program::TreeView || program == Program::TxView,
        Flag::Horizontal => program == Program::BlockPdf,
        Flag::Vertical => program == Program::BlockPdf || program == Program::TreePdf,
        Flag::Fill => program == Program::BlockPdf || program == Program::TreePdf,
        Flag::Labels => program == Program::BlockPdf || program == Program::TreePdf,
        Flag::LabelBase => program == Program::BlockPdf,
        Flag::Mark => program == Program::BlockPdf || program == Program::TreePdf,
        Flag::DashCross => program == Program::BlockPdf,
        Flag::NoCheck => program == Program::BlockPdf,
        Flag::Spine => program == Program::TreePdf,
        Flag::Ancestors => program == Program::TreePdf,
        Flag::DepthUp => program == Program::TreePdf,
        Flag::FanoutUp => program == Program::TreePdf,
        Flag::MaxNodesUp => program == Program::TreePdf,
        Flag::Zoom => program == Program::TreeJp2 || program == Program::TreeBitmap,
        Flag::Format => program == Program::TreeBitmap,
        Flag::Scale => program == Program::TreeSvg,
        Flag::Limit => program == Program::TxView,
    }
}

/// Whether a flag stands alone.
pub open spec fn alone(flag: Flag) -> bool {
    flag == Flag::Horizontal || flag == Flag::Vertical || flag == Flag::Fill || flag == Flag::Labels || flag == Flag::DashCross || flag == Flag::NoCheck
}

fn is_alone(flag: Flag) -> (b: bool)
    ensures
        b == alone(flag),
{
    flag == Flag::Horizontal || flag == Flag::Vertical || flag == Flag::Fill || flag == Flag::Labels || flag == Flag::DashCross || flag == Flag::NoCheck
}

/// What was chosen of what is no list and no text.
#[derive(Clone, Copy, Debug, PartialEq, Eq, Structural)]
pub struct Choices {
    pub depth: Option<usize>,
    pub max_blocks: Option<usize>,
    pub max_nodes: Option<usize>,
    pub fanout: Option<usize>,
    pub fanout_in: Option<usize>,
    pub fanout_out: Option<usize>,
    pub depth_up: Option<usize>,
    pub fanout_up: Option<usize>,
    pub max_nodes_up: Option<usize>,
    pub label_base: Option<i64>,
    pub seed: Seed,
    pub labels: Labels,
    pub format: Format,
    pub zoom: usize,
    /// How many records are read, at most.
    pub limit: usize,
    pub vertical: bool,
    pub fill: bool,
    pub dash_cross: bool,
    pub check: bool,
}

/// What a program was told.
pub struct Settings {
    /// The arguments that are no flags.
    pub names: Vec<String>,
    pub out: Option<String>,
    pub roots: Vec<usize>,
    pub marks: Vec<usize>,
    pub spine: Option<Vec<usize>>,
    pub ancestors: Option<String>,
    /// The size of the page or the window, or the scale of the drawing, as it was
    /// written.
    pub width: Option<String>,
    pub height: Option<String>,
    pub scale: Option<String>,
    pub choices: Choices,
}

/// What a program was told, as a mathematical value.
pub struct SettingsView {
    pub names: Seq<Seq<char>>,
    pub out: Option<Seq<char>>,
    pub roots: Seq<usize>,
    pub marks: Seq<usize>,
    pub spine: Option<Seq<usize>>,
    pub ancestors: Option<Seq<char>>,
    pub width: Option<Seq<char>>,
    pub height: Option<Seq<char>>,
    pub scale: Option<Seq<char>>,
    pub choices: Choices,
}

/// A text, if there is one.
pub open spec fn maybe(t: Option<String>) -> Option<Seq<char>> {
    match t {
        None => None,
        Some(s) => Some(s@),
    }
}

/// The texts as mathematical values.
pub open spec fn texts(list: Seq<String>) -> Seq<Seq<char>> {
    Seq::new(list.len(), |i: int| list[i]@)
}

impl View for Settings {
    type V = SettingsView;

    open spec fn view(&self) -> SettingsView {
        SettingsView {
            names: texts(self.names@),
            out: maybe(self.out),
            roots: self.roots@,
            marks: self.marks@,
            spine: match self.spine {
                None => None,
                Some(list) => Some(list@),
            },
            ancestors: maybe(self.ancestors),
            width: maybe(self.width),
            height: maybe(self.height),
            scale: maybe(self.scale),
            choices: self.choices,
        }
    }
}

/// What a program does when it is told nothing. A page of blocks has the past
/// above the event; a page of a subtree, whose subjects are chains, runs across.
pub open spec fn defaults(program: Program) -> Choices {
    Choices {
        depth: None,
        max_blocks: None,
        max_nodes: None,
        fanout: None,
        fanout_in: None,
        fanout_out: None,
        depth_up: None,
        fanout_up: None,
        max_nodes_up: None,
        label_base: None,
        seed: Seed::Producing,
        labels: Labels::Nothing,
        format: Format::Pbm,
        zoom: 1,
        limit: usize::MAX,
        vertical: program == Program::BlockPdf,
        fill: false,
        dash_cross: false,
        check: true,
    }
}

/// What a program was told before its first argument.
pub open spec fn untold(program: Program) -> SettingsView {
    SettingsView {
        names: Seq::empty(),
        out: None,
        roots: Seq::empty(),
        marks: Seq::empty(),
        spine: None,
        ancestors: None,
        width: None,
        height: None,
        scale: None,
        choices: defaults(program),
    }
}

/// What is wrong when the argument behind a flag is missing.
pub open spec fn missing(program: Program, flag: Flag) -> Seq<char> {
    let what = match flag {
        Flag::Out => " wants a file\n"@,
        Flag::Root | Flag::Mark | Flag::LabelBase => " wants a node id\n"@,
        Flag::Spine => " wants node ids\n"@,
        Flag::Ancestors => " wants a graph basename\n"@,
        Flag::Seed => " wants producing or consuming\n"@,
        Flag::Format => " wants pbm or pgm\n"@,
        Flag::Limit => " wants a count\n"@,
        _ => " wants a number\n"@,
    };
    flag_text(flag) + what + usage_of(program)
}

fn say_missing(program: Program, flag: Flag) -> (s: String)
    ensures
        s@ == missing(program, flag),
{
    let mut s = spelled(flag).to_owned();
    match flag {
        Flag::Out => s.append(" wants a file\n"),
        Flag::Root | Flag::Mark | Flag::LabelBase => s.append(" wants a node id\n"),
        Flag::Spine => s.append(" wants node ids\n"),
        Flag::Ancestors => s.append(" wants a graph basename\n"),
        Flag::Seed => s.append(" wants producing or consuming\n"),
        Flag::Format => s.append(" wants pbm or pgm\n"),
        Flag::Limit => s.append(" wants a count\n"),
        _ => s.append(" wants a number\n"),
    }
    s.append(usage(program));
    s
}

/// What is wrong with the argument behind a flag.
pub open spec fn refused(flag: Flag, arg: Seq<char>, why: Seq<char>) -> Seq<char> {
    flag_text(flag) + " "@ + arg + why
}

fn refuse(flag: Flag, arg: &str, why: &str) -> (s: String)
    ensures
        s@ == refused(flag, arg@, why@),
{
    let mut s = spelled(flag).to_owned();
    s.append(" ");
    s.append(arg);
    s.append(why);
    s
}

fn spell(text: &Vec<char>) -> (s: String)
    ensures
        s@ == text@,
{
    let mut s = String::new();
    let mut i: usize = 0;
    while i < text.len()
        invariant
            i <= text@.len(),
            s@ == text@.take(i as int),
        decreases text@.len() - i,
    {
        s.push(text[i]);
        i += 1;
        assert(s@ =~= text@.take(i as int));
    }
    assert(text@.take(text@.len() as int) =~= text@);
    s
}

/// The number behind a flag.
pub open spec fn count_of(arg: Seq<char>) -> Option<usize> {
    match number(arg, usize::MAX as nat) {
        None => None,
        Some(n) => Some(n as usize),
    }
}

fn count(arg: &str) -> (n: Option<usize>)
    ensures
        n == count_of(arg@),
{
    let text = letters(arg);
    assert(text@.subrange(0, text@.len() as int) =~= text@);
    match read_number(&text, 0, text.len(), usize::MAX as u64) {
        None => None,
        Some(n) => Some(n as usize),
    }
}

/// A number behind a flag that may not be zero.
pub open spec fn positive(arg: Seq<char>) -> Option<usize> {
    match count_of(arg) {
        Some(n) if n > 0 => Some(n),
        _ => None,
    }
}

fn count_positive(arg: &str) -> (n: Option<usize>)
    ensures
        n == positive(arg@),
{
    match count(arg) {
        Some(n) if n > 0 => Some(n),
        _ => None,
    }
}

/// Whether an argument is a size in pixels.
pub open spec fn is_pixels(arg: Seq<char>) -> bool {
    number(arg, 0x7fff_ffff) matches Some(n) && n > 0
}

/// The choices with a number put where its flag says. The fanout of a page of
/// blocks is for both sides, unless a side was given its own.
pub open spec fn with_count(program: Program, c: Choices, flag: Flag, n: usize) -> Choices {
    match flag {
        Flag::Depth => Choices { depth: Some(n), ..c },
        Flag::MaxBlocks => Choices { max_blocks: Some(n), ..c },
        Flag::MaxNodes => Choices { max_nodes: Some(n), ..c },
        Flag::FanoutIn => Choices { fanout_in: Some(n), ..c },
        Flag::FanoutOut => Choices { fanout_out: Some(n), ..c },
        Flag::Fanout => if program == Program::BlockPdf {
            Choices {
                fanout_in: if c.fanout_in is Some {
                    c.fanout_in
                } else {
                    Some(n)
                },
                fanout_out: if c.fanout_out is Some {
                    c.fanout_out
                } else {
                    Some(n)
                },
                ..c
            }
        } else {
            Choices { fanout: Some(n), ..c }
        },
        Flag::DepthUp => Choices { depth_up: Some(n), ..c },
        Flag::FanoutUp => Choices { fanout_up: Some(n), ..c },
        Flag::MaxNodesUp => Choices { max_nodes_up: Some(n), ..c },
        Flag::Zoom => Choices { zoom: n, ..c },
        Flag::Limit => Choices { limit: n, ..c },
        _ => c,
    }
}

fn put_count(program: Program, c: Choices, flag: Flag, n: usize) -> (d: Choices)
    ensures
        d == with_count(program, c, flag, n),
{
    let mut c = c;
    match flag {
        Flag::Depth => c.depth = Some(n),
        Flag::MaxBlocks => c.max_blocks = Some(n),
        Flag::MaxNodes => c.max_nodes = Some(n),
        Flag::FanoutIn => c.fanout_in = Some(n),
        Flag::FanoutOut => c.fanout_out = Some(n),
        Flag::Fanout => if program == Program::BlockPdf {
            if c.fanout_in.is_none() {
                c.fanout_in = Some(n);
            }
            if c.fanout_out.is_none() {
                c.fanout_out = Some(n);
            }
        } else {
            c.fanout = Some(n);
        },
        Flag::DepthUp => c.depth_up = Some(n),
        Flag::FanoutUp => c.fanout_up = Some(n),
        Flag::MaxNodesUp => c.max_nodes_up = Some(n),
        Flag::Zoom => c.zoom = n,
        Flag::Limit => c.limit = n,
        _ => {},
    }
    c
}

/// What a program was told once a flag took the argument behind it, or what is
/// wrong with that.
pub open spec fn taken(
    program: Program,
    st: SettingsView,
    flag: Flag,
    arg: Seq<char>,
    size: Measure,
) -> Result<SettingsView, Seq<char>> {
    let page = program == Program::BlockPdf || program == Program::TreePdf;
    match flag {
        Flag::Out => Ok(SettingsView { out: Some(arg), ..st }),
        Flag::Ancestors => Ok(SettingsView { ancestors: Some(arg), ..st }),
        Flag::Root => match id_list(arg) {
            Ok(ids) => Ok(SettingsView { roots: st.roots + ids, ..st }),
            Err(bad) => Err(refused(flag, bad, ": not a node id"@)),
        },
        Flag::Mark => match id_list(arg) {
            Ok(ids) => Ok(SettingsView { marks: st.marks + ids, ..st }),
            Err(bad) => Err(refused(flag, bad, ": not a node id"@)),
        },
        Flag::Spine => match id_list(arg) {
            Ok(ids) => Ok(
                SettingsView {
                    spine: Some(
                        match st.spine {
                            None => ids,
                            Some(before) => before + ids,
                        },
                    ),
                    ..st
                },
            ),
            Err(bad) => Err(refused(flag, bad, ": not a node id"@)),
        },
        Flag::LabelBase => match whole(arg) {
            Some(n) => Ok(
                SettingsView {
                    choices: Choices { label_base: Some(n as i64), ..st.choices },
                    ..st
                },
            ),
            None => Err(refused(flag, arg, ": not a node id"@)),
        },
        Flag::Seed => if arg == "producing"@ {
            Ok(SettingsView { choices: Choices { seed: Seed::Producing, ..st.choices }, ..st })
        } else if arg == "consuming"@ {
            Ok(SettingsView { choices: Choices { seed: Seed::Consuming, ..st.choices }, ..st })
        } else {
            Err(refused(flag, arg, ": producing or consuming\n"@) + usage_of(program))
        },
        Flag::Format => if arg == "pbm"@ {
            Ok(SettingsView { choices: Choices { format: Format::Pbm, ..st.choices }, ..st })
        } else if arg == "pgm"@ {
            Ok(SettingsView { choices: Choices { format: Format::Pgm, ..st.choices }, ..st })
        } else {
            Err(refused(flag, arg, ": pbm or pgm"@))
        },
        Flag::Width | Flag::Height | Flag::MaxHeight => if page && size != Measure::Usable {
            Err(refused(flag, arg, ": a page needs a positive size"@))
        } else if !page && !is_pixels(arg) {
            Err(refused(flag, arg, ": a window needs a positive size"@))
        } else if flag == Flag::Width {
            Ok(SettingsView { width: Some(arg), ..st })
        } else {
            Ok(SettingsView { height: Some(arg), ..st })
        },
        Flag::Scale => match size {
            Measure::NotANumber => Err(refused(flag, arg, ": not a number"@)),
            Measure::TooSmall => Err(refused(flag, arg, ": a drawing needs a positive scale"@)),
            Measure::Usable => Ok(SettingsView { scale: Some(arg), ..st }),
        },
        Flag::Depth | Flag::Zoom => match count_of(arg) {
            None => Err(refused(flag, arg, ": not a number"@)),
            Some(n) => if n == 0 && flag == Flag::Zoom {
                Err("--zoom 0: a node is at least one pixel"@)
            } else {
                Ok(SettingsView { choices: with_count(program, st.choices, flag, n), ..st })
            },
        },
        Flag::DepthUp => match count_of(arg) {
            None => Err(refused(flag, arg, ": not a usable number"@)),
            Some(n) => Ok(
                SettingsView { choices: with_count(program, st.choices, flag, n), ..st },
            ),
        },
        Flag::Limit => if arg == "all"@ {
            Ok(
                SettingsView { choices: with_count(program, st.choices, flag, usize::MAX), ..st },
            )
        } else {
            match positive(arg) {
                None => Err(refused(flag, arg, ": a drawing needs a record or more"@)),
                Some(n) => Ok(
                    SettingsView { choices: with_count(program, st.choices, flag, n), ..st },
                ),
            }
        },
        _ => match positive(arg) {
            None => Err(
                refused(
                    flag,
                    arg,
                    if flag == Flag::FanoutUp || flag == Flag::MaxNodesUp {
                        ": not a usable number"@
                    } else {
                        ": wants a positive number"@
                    },
                ),
            ),
            Some(n) => Ok(
                SettingsView { choices: with_count(program, st.choices, flag, n), ..st },
            ),
        },
    }
}

fn append_ids(list: &mut Vec<usize>, more: &Vec<usize>)
    ensures
        final(list)@ == old(list)@ + more@,
{
    let mut i: usize = 0;
    assert(list@ =~= list@ + more@.take(0));
    while i < more.len()
        invariant
            i <= more@.len(),
            list@ == old(list)@ + more@.take(i as int),
        decreases more@.len() - i,
    {
        list.push(more[i]);
        i += 1;
        assert(list@ =~= old(list)@ + more@.take(i as int));
    }
    assert(more@.take(more@.len() as int) =~= more@);
}

fn ids(flag: Flag, arg: &str) -> (r: Result<Vec<usize>, String>)
    ensures
        match r {
            Ok(list) => id_list(arg@) == Ok::<Seq<usize>, Seq<char>>(list@),
            Err(e) => exists|bad: Seq<char>|
                id_list(arg@) == Err::<Seq<usize>, Seq<char>>(bad) && e@ == #[trigger] refused(
                    flag,
                    bad,
                    ": not a node id"@,
                ),
        },
{
    match read_ids(&letters(arg)) {
        Ok(list) => Ok(list),
        Err(bad) => {
            let e = refuse(flag, spell(&bad).as_str(), ": not a node id");
            assert(e@ == refused(flag, bad@, ": not a node id"@));
            Err(e)
        },
    }
}

fn take_text(
    program: Program,
    st: Settings,
    flag: Flag,
    arg: &String,
    size: Measure,
) -> (r: Result<Settings, String>)
    requires
        flag is Out || flag is Ancestors || flag is Width || flag is Height || flag is MaxHeight
            || flag is Scale,
    ensures
        match r {
            Ok(after) => taken(program, st@, flag, arg@, size) == Ok::<SettingsView, Seq<char>>(
                after@,
            ),
            Err(e) => taken(program, st@, flag, arg@, size) == Err::<SettingsView, Seq<char>>(e@),
        },
{
    let mut st = st;
    let page = program == Program::BlockPdf || program == Program::TreePdf;
    match flag {
        Flag::Out => st.out = Some(arg.clone()),
        Flag::Ancestors => st.ancestors = Some(arg.clone()),
        Flag::Scale => match size {
            Measure::NotANumber => {
                return Err(refuse(flag, arg.as_str(), ": not a number"));
            },
            Measure::TooSmall => {
                return Err(refuse(flag, arg.as_str(), ": a drawing needs a positive scale"));
            },
            Measure::Usable => st.scale = Some(arg.clone()),
        },
        _ => {
            if page {
                if size != Measure::Usable {
                    return Err(refuse(flag, arg.as_str(), ": a page needs a positive size"));
                }
            } else {
                let text = letters(arg.as_str());
                assert(text@.subrange(0, text@.len() as int) =~= text@);
                let pixels = match read_number(&text, 0, text.len(), 0x7fff_ffff) {
                    Some(n) => n > 0,
                    None => false,
                };
                if !pixels {
                    return Err(refuse(flag, arg.as_str(), ": a window needs a positive size"));
                }
            }
            if flag == Flag::Width {
                st.width = Some(arg.clone());
            } else {
                st.height = Some(arg.clone());
            }
        },
    }
    Ok(st)
}

fn take_ids(program: Program, st: Settings, flag: Flag, arg: &String, size: Measure) -> (r: Result<
    Settings,
    String,
>)
    requires
        flag is Root || flag is Mark || flag is Spine,
    ensures
        match r {
            Ok(after) => taken(program, st@, flag, arg@, size) == Ok::<SettingsView, Seq<char>>(
                after@,
            ),
            Err(e) => taken(program, st@, flag, arg@, size) == Err::<SettingsView, Seq<char>>(e@),
        },
{
    let mut st = st;
    let list = match ids(flag, arg.as_str()) {
        Ok(list) => list,
        Err(e) => {
            return Err(e);
        },
    };
    match flag {
        Flag::Root => append_ids(&mut st.roots, &list),
        Flag::Mark => append_ids(&mut st.marks, &list),
        _ => {
            st.spine =
            match st.spine {
                None => Some(list),
                Some(before) => {
                    let mut before = before;
                    append_ids(&mut before, &list);
                    Some(before)
                },
            };
        },
    }
    Ok(st)
}

fn take_choice(
    program: Program,
    st: Settings,
    flag: Flag,
    arg: &String,
    size: Measure,
) -> (r: Result<Settings, String>)
    requires
        flag is LabelBase || flag is Seed || flag is Format,
    ensures
        match r {
            Ok(after) => taken(program, st@, flag, arg@, size) == Ok::<SettingsView, Seq<char>>(
                after@,
            ),
            Err(e) => taken(program, st@, flag, arg@, size) == Err::<SettingsView, Seq<char>>(e@),
        },
{
    let mut st = st;
    match flag {
        Flag::LabelBase => match read_whole(&letters(arg.as_str())) {
            Some(n) => st.choices.label_base = Some(n),
            None => {
                return Err(refuse(flag, arg.as_str(), ": not a node id"));
            },
        },
        Flag::Seed => if is(arg, "producing") {
            st.choices.seed = Seed::Producing;
        } else if is(arg, "consuming") {
            st.choices.seed = Seed::Consuming;
        } else {
            let mut e = refuse(flag, arg.as_str(), ": producing or consuming\n");
            e.append(usage(program));
            return Err(e);
        },
        _ => if is(arg, "pbm") {
            st.choices.format = Format::Pbm;
        } else if is(arg, "pgm") {
            st.choices.format = Format::Pgm;
        } else {
            return Err(refuse(flag, arg.as_str(), ": pbm or pgm"));
        },
    }
    Ok(st)
}

/// Whether a flag takes a number.
pub open spec fn is_count(flag: Flag) -> bool {
    !(flag is Out || flag is Ancestors || flag is Width || flag is Height || flag is MaxHeight
        || flag is Scale || flag is Root || flag is Mark || flag is Spine || flag is LabelBase
        || flag is Seed || flag is Format)
}

fn take_count(
    program: Program,
    st: Settings,
    flag: Flag,
    arg: &String,
    size: Measure,
) -> (r: Result<Settings, String>)
    requires
        is_count(flag),
    ensures
        match r {
            Ok(after) => taken(program, st@, flag, arg@, size) == Ok::<SettingsView, Seq<char>>(
                after@,
            ),
            Err(e) => taken(program, st@, flag, arg@, size) == Err::<SettingsView, Seq<char>>(e@),
        },
{
    let mut st = st;
    let n: usize = match flag {
        Flag::Depth | Flag::Zoom => match count(arg.as_str()) {
            Some(n) => n,
            None => {
                return Err(refuse(flag, arg.as_str(), ": not a number"));
            },
        },
        Flag::DepthUp => match count(arg.as_str()) {
            Some(n) => n,
            None => {
                return Err(refuse(flag, arg.as_str(), ": not a usable number"));
            },
        },
        Flag::Limit => if is(arg, "all") {
            usize::MAX
        } else {
            match count_positive(arg.as_str()) {
                Some(n) => n,
                None => {
                    return Err(refuse(flag, arg.as_str(), ": a drawing needs a record or more"));
                },
            }
        },
        _ => match count_positive(arg.as_str()) {
            Some(n) => n,
            None => {
                let why = if flag == Flag::FanoutUp || flag == Flag::MaxNodesUp {
                    ": not a usable number"
                } else {
                    ": wants a positive number"
                };
                return Err(refuse(flag, arg.as_str(), why));
            },
        },
    };
    if flag == Flag::Zoom && n == 0 {
        return Err("--zoom 0: a node is at least one pixel".to_owned());
    }
    st.choices = put_count(program, st.choices, flag, n);
    Ok(st)
}

fn take(program: Program, st: Settings, flag: Flag, arg: &String, size: Measure) -> (r: Result<
    Settings,
    String,
>)
    ensures
        match r {
            Ok(after) => taken(program, st@, flag, arg@, size) == Ok::<SettingsView, Seq<char>>(
                after@,
            ),
            Err(e) => taken(program, st@, flag, arg@, size) == Err::<SettingsView, Seq<char>>(e@),
        },
{
    match flag {
        Flag::Out
        | Flag::Ancestors
        | Flag::Width
        | Flag::Height
        | Flag::MaxHeight
        | Flag::Scale => take_text(program, st, flag, arg, size),
        Flag::Root | Flag::Mark | Flag::Spine => take_ids(program, st, flag, arg, size),
        Flag::LabelBase | Flag::Seed | Flag::Format => take_choice(program, st, flag, arg, size),
        _ => take_count(program, st, flag, arg, size),
    }
}

/// The choices once a flag that stands alone was read; `compact` is whether the
/// word for compact labels follows.
pub open spec fn switched(c: Choices, flag: Flag, compact: bool) -> Choices {
    match flag {
        Flag::Horizontal => Choices { vertical: false, ..c },
        Flag::Vertical => Choices { vertical: true, ..c },
        Flag::Fill => Choices { fill: true, ..c },
        Flag::Labels => Choices {
            labels: if compact {
                Labels::Compact
            } else {
                Labels::Each
            },
            ..c
        },
        Flag::DashCross => Choices { dash_cross: true, ..c },
        Flag::NoCheck => Choices { check: false, ..c },
        _ => c,
    }
}

fn switch(c: Choices, flag: Flag, compact: bool) -> (d: Choices)
    ensures
        d == switched(c, flag, compact),
{
    let mut c = c;
    match flag {
        Flag::Horizontal => c.vertical = false,
        Flag::Vertical => c.vertical = true,
        Flag::Fill => c.fill = true,
        Flag::Labels => c.labels =
        if compact {
            Labels::Compact
        } else {
            Labels::Each
        },
        Flag::DashCross => c.dash_cross = true,
        Flag::NoCheck => c.check = false,
        _ => {},
    }
    c
}

/// Whether the labels asked for by argument `i` are to be compact: a page of
/// blocks takes a word for that.
pub open spec fn says_compact(program: Program, flag: Flag, argv: Seq<Seq<char>>, i: int) -> bool {
    program == Program::BlockPdf && flag == Flag::Labels && i + 1 < argv.len() && argv[i + 1]
        == "compact"@
}

/// The flag an argument is, in this program.
pub open spec fn flag_of(program: Program, arg: Seq<char>) -> Option<Flag> {
    match known(arg) {
        Some(flag) if has_flag(program, flag) => Some(flag),
        _ => None,
    }
}

/// What a program was told by its arguments from `i` on, after `st`, or what is
/// wrong with the first that is wrong.
pub open spec fn told(
    program: Program,
    argv: Seq<Seq<char>>,
    sizes: Seq<Measure>,
    st: SettingsView,
    i: int,
) -> Result<SettingsView, Seq<char>>
    decreases argv.len() - i,
{
    if i >= argv.len() {
        Ok(st)
    } else {
        match flag_of(program, argv[i]) {
            None => if argv[i].len() > 0 && argv[i][0] == '-' {
                Err("unknown flag "@ + argv[i] + "\n"@ + usage_of(program))
            } else {
                told(program, argv, sizes, SettingsView { names: st.names.push(argv[i]), ..st }, i + 1)
            },
            Some(flag) => if flag == Flag::Help {
                Err(usage_of(program))
            } else if alone(flag) {
                let compact = says_compact(program, flag, argv, i);
                let after = SettingsView { choices: switched(st.choices, flag, compact), ..st };
                if compact {
                    told(program, argv, sizes, after, i + 2)
                } else {
                    told(program, argv, sizes, after, i + 1)
                }
            } else if i + 1 >= argv.len() {
                Err(missing(program, flag))
            } else {
                match taken(program, st, flag, argv[i + 1], sizes[i + 1]) {
                    Err(e) => Err(e),
                    Ok(after) => told(program, argv, sizes, after, i + 2),
                }
            },
        }
    }
}

/// How many names a program takes.
pub open spec fn names_wanted(program: Program) -> nat {
    if program == Program::BlockPdf || program == Program::TreeBitmap || program
        == Program::TreeSvg {
        2
    } else {
        1
    }
}

/// What is wrong when a program was given another number of names.
pub open spec fn names_wrong(program: Program, given: nat) -> Seq<char> {
    match program {
        Program::BlockPdf => "expected a graph basename and its transpose's, got "@ + dec(given)
            + "\n"@ + usage_of(program),
        Program::TreeBitmap | Program::TreeSvg => "expected a graph and its transpose, got "@
            + dec(given) + " basename(s)\n"@ + usage_of(program),
        Program::TxView => "expected one records file, got "@ + dec(given) + "\n"@ + usage_of(
            program,
        ),
        _ => "expected one graph basename, got "@ + dec(given) + "\n"@ + usage_of(program),
    }
}

/// What is wrong with everything a program was told, if something is: the names,
/// what is written to, the roots.
pub open spec fn lacking(program: Program, st: SettingsView) -> Option<Seq<char>> {
    let page = program == Program::BlockPdf || program == Program::TreePdf;
    if st.names.len() != names_wanted(program) {
        Some(names_wrong(program, st.names.len()))
    } else if st.out is None && page {
        Some("-o is required\n"@ + usage_of(program))
    } else if st.out is None && program == Program::TreeJp2 {
        Some(
            "-o is required: a JPEG 2000 is written by seeking back over it, which a pipe cannot do\n"@
                + usage_of(program),
        )
    } else if st.roots.len() == 0 && program == Program::BlockPdf {
        Some("--root is required\n"@ + usage_of(program))
    } else if st.roots.len() == 0 && program == Program::TreePdf {
        Some(
            "--root is required: the whole graph is what tree-jp2 is for\n"@ + usage_of(program),
        )
    } else {
        None
    }
}

/// What a program was told by its arguments, or what is wrong with them.
pub open spec fn understood(program: Program, argv: Seq<Seq<char>>, sizes: Seq<Measure>) -> Result<
    SettingsView,
    Seq<char>,
> {
    match told(program, argv, sizes, untold(program), 0) {
        Err(e) => Err(e),
        Ok(st) => match lacking(program, st) {
            Some(e) => Err(e),
            None => Ok(st),
        },
    }
}

fn begin(program: Program) -> (st: Settings)
    ensures
        st@ == untold(program),
{
    let st = Settings {
        names: Vec::new(),
        out: None,
        roots: Vec::new(),
        marks: Vec::new(),
        spine: None,
        ancestors: None,
        width: None,
        height: None,
        scale: None,
        choices: Choices {
            depth: None,
            max_blocks: None,
            max_nodes: None,
            fanout: None,
            fanout_in: None,
            fanout_out: None,
            depth_up: None,
            fanout_up: None,
            max_nodes_up: None,
            label_base: None,
            seed: Seed::Producing,
            labels: Labels::Nothing,
            format: Format::Pbm,
            zoom: 1,
            limit: usize::MAX,
            vertical: program == Program::BlockPdf,
            fill: false,
            dash_cross: false,
            check: true,
        },
    };
    assert(st@.names =~= untold(program).names);
    assert(st@.roots =~= untold(program).roots);
    assert(st@.marks =~= untold(program).marks);
    st
}

fn say_names_wrong(program: Program, given: usize) -> (s: String)
    ensures
        s@ == names_wrong(program, given as nat),
{
    let mut s = match program {
        Program::BlockPdf => "expected a graph basename and its transpose's, got ".to_owned(),
        Program::TreeBitmap | Program::TreeSvg => "expected a graph and its transpose, got ".to_owned(),
        Program::TxView => "expected one records file, got ".to_owned(),
        _ => "expected one graph basename, got ".to_owned(),
    };
    push_dec(&mut s, given as u64);
    match program {
        Program::TreeBitmap | Program::TreeSvg => s.append(" basename(s)\n"),
        _ => s.append("\n"),
    }
    s.append(usage(program));
    s
}

fn find_lacking(program: Program, st: &Settings) -> (e: Option<String>)
    ensures
        maybe(e) == lacking(program, st@),
{
    let page = program == Program::BlockPdf || program == Program::TreePdf;
    let wanted: usize = if program == Program::BlockPdf || program == Program::TreeBitmap || program
        == Program::TreeSvg {
        2
    } else {
        1
    };
    assert(st@.names.len() == st.names@.len());
    if st.names.len() != wanted {
        return Some(say_names_wrong(program, st.names.len()));
    }
    let mut e = if st.out.is_none() && page {
        "-o is required\n".to_owned()
    } else if st.out.is_none() && program == Program::TreeJp2 {
        "-o is required: a JPEG 2000 is written by seeking back over it, which a pipe cannot do\n".to_owned()
    } else if st.roots.len() == 0 && program == Program::BlockPdf {
        "--root is required\n".to_owned()
    } else if st.roots.len() == 0 && program == Program::TreePdf {
        "--root is required: the whole graph is what tree-jp2 is for\n".to_owned()
    } else {
        return None;
    };
    e.append(usage(program));
    Some(e)
}

/// Reads the arguments of a program, the program's own name left out; `sizes`
/// says of each what it is when it is read as a size.
pub fn understand(program: Program, argv: &Vec<String>, sizes: &Vec<Measure>) -> (r: Result<
    Settings,
    String,
>)
    requires
        sizes@.len() == argv@.len(),
    ensures
        match r {
            Ok(st) => understood(program, texts(argv@), sizes@) == Ok::<SettingsView, Seq<char>>(
                st@,
            ),
            Err(e) => understood(program, texts(argv@), sizes@) == Err::<SettingsView, Seq<char>>(
                e@,
            ),
        },
{
    let ghost all = texts(argv@);
    let ghost whole = told(program, all, sizes@, untold(program), 0);
    let mut st = begin(program);
    let n: usize = argv.len();
    let mut i: usize = 0;
    while i < n
        invariant
            i <= n,
            n == argv@.len() == sizes@.len(),
            all == texts(argv@),
            whole == told(program, all, sizes@, st@, i as int),
            understood(program, all, sizes@) == match whole {
                Err(e) => Err(e),
                Ok(st) => match lacking(program, st) {
                    Some(e) => Err(e),
                    None => Ok(st),
                },
            },
        decreases n - i,
    {
        let arg = &argv[i];
        assert(all[i as int] == arg@);
        let flag = match know(arg) {
            Some(flag) => if takes(program, flag) {
                Some(flag)
            } else {
                None
            },
            None => None,
        };
        match flag {
            None => {
                if arg.as_str().unicode_len() > 0 && arg.as_str().get_char(0) == '-' {
                    let mut e = "unknown flag ".to_owned();
                    e.append(arg.as_str());
                    e.append("\n");
                    e.append(usage(program));
                    return Err(e);
                }
                let ghost before = st@;
                let ghost names = st.names@;
                st.names.push(arg.clone());
                proof {
                    assert(texts(st.names@) =~= texts(names).push(arg@));
                    assert(st@ == (SettingsView { names: before.names.push(arg@), ..before }));
                }
                i += 1;
            },
            Some(flag) => {
                if flag == Flag::Help {
                    return Err(usage(program).to_owned());
                }
                if is_alone(flag) {
                    let mut compact = false;
                    if program == Program::BlockPdf && flag == Flag::Labels && n - i > 1 {
                        assert(all[i + 1] == argv@[i + 1]@);
                        compact = is(&argv[i + 1], "compact");
                    }
                    let ghost before = st@;
                    st.choices = switch(st.choices, flag, compact);
                    assert(st@ == (SettingsView {
                        choices: switched(before.choices, flag, compact),
                        ..before
                    }));
                    i += if compact {
                        2
                    } else {
                        1
                    };
                } else {
                    if n - i <= 1 {
                        return Err(say_missing(program, flag));
                    }
                    assert(all[i + 1] == argv@[i + 1]@);
                    match take(program, st, flag, &argv[i + 1], sizes[i + 1]) {
                        Err(e) => {
                            return Err(e);
                        },
                        Ok(after) => st = after,
                    }
                    i += 2;
                }
            },
        }
    }
    match find_lacking(program, &st) {
        Some(e) => Err(e),
        None => Ok(st),
    }
}

impl Settings {
    /// The limits of a walk over blocks.
    pub fn block_prune(&self) -> (prune: BlockPrune)
        ensures
            prune == (BlockPrune {
                depth: self@.choices.depth,
                max_blocks: self@.choices.max_blocks.unwrap_or(DEFAULT_MAX_BLOCKS),
                max_nodes: self@.choices.max_nodes.unwrap_or(PAGE_NODES),
                fanout_in: self@.choices.fanout_in,
                fanout_out: self@.choices.fanout_out,
            }),
    {
        let c = self.choices;
        BlockPrune {
            depth: c.depth,
            max_blocks: c.max_blocks.unwrap_or(DEFAULT_MAX_BLOCKS),
            max_nodes: c.max_nodes.unwrap_or(PAGE_NODES),
            fanout_in: c.fanout_in,
            fanout_out: c.fanout_out,
        }
    }

    /// The limits of a walk down from the roots. The roots expand whether or not
    /// they are repeated in the spine.
    pub fn prune(&self) -> (prune: Prune)
        ensures
            prune@ == (PruneView {
                depth: self@.choices.depth,
                max_nodes: self@.choices.max_nodes.unwrap_or(PAGE_NODES),
                fanout: self@.choices.fanout,
                expand: match self@.spine {
                    None => None,
                    Some(list) => Some(list.to_set().union(self@.roots.to_set())),
                },
            }),
    {
        let c = self.choices;
        let expand = match &self.spine {
            None => None,
            Some(list) => {
                let mut set: HashSet<usize> = HashSet::new();
                insert_all(&mut set, list);
                insert_all(&mut set, &self.roots);
                assert(set@ =~= list@.to_set().union(self@.roots.to_set()));
                Some(set)
            },
        };
        Prune {
            depth: c.depth,
            max_nodes: c.max_nodes.unwrap_or(PAGE_NODES),
            fanout: c.fanout,
            expand,
        }
    }

    /// The limits of a walk up from the root: those of the walk down where it was
    /// given none of its own, and no spine.
    pub fn prune_up(&self) -> (prune: Prune)
        ensures
            prune@ == (PruneView {
                depth: if self@.choices.depth_up is Some {
                    self@.choices.depth_up
                } else {
                    self@.choices.depth
                },
                max_nodes: self@.choices.max_nodes_up.unwrap_or(
                    self@.choices.max_nodes.unwrap_or(PAGE_NODES),
                ),
                fanout: if self@.choices.fanout_up is Some {
                    self@.choices.fanout_up
                } else {
                    self@.choices.fanout
                },
                expand: None,
            }),
    {
        let c = self.choices;
        Prune {
            depth: if c.depth_up.is_some() {
                c.depth_up
            } else {
                c.depth
            },
            max_nodes: c.max_nodes_up.unwrap_or(c.max_nodes.unwrap_or(PAGE_NODES)),
            fanout: if c.fanout_up.is_some() {
                c.fanout_up
            } else {
                c.fanout
            },
            expand: None,
        }
    }

    /// The one root of an hourglass, or what is wrong.
    pub fn waist(&self) -> (r: Result<usize, String>)
        ensures
            match r {
                Ok(root) => self@.roots == seq![root],
                Err(e) => self@.roots.len() != 1 && e@
                    == "--ancestors wants exactly one --root: the hourglass has one waist"@,
            },
    {
        if self.roots.len() == 1 {
            assert(self@.roots =~= seq![self.roots@[0]]);
            Ok(self.roots[0])
        } else {
            Err("--ancestors wants exactly one --root: the hourglass has one waist".to_owned())
        }
    }

    /// The nodes to ink apart.
    pub fn marked(&self) -> (set: HashSet<usize>)
        ensures
            set@ == self@.marks.to_set(),
    {
        let mut set: HashSet<usize> = HashSet::new();
        insert_all(&mut set, &self.marks);
        assert(set@ =~= self@.marks.to_set());
        set
    }
}

fn insert_all(set: &mut HashSet<usize>, list: &Vec<usize>)
    ensures
        final(set)@ == old(set)@.union(list@.to_set()),
{
    let mut i: usize = 0;
    assert(set@ =~= set@.union(list@.take(0).to_set()));
    while i < list.len()
        invariant
            i <= list@.len(),
            set@ == old(set)@.union(list@.take(i as int).to_set()),
        decreases list@.len() - i,
    {
        let ghost before = list@.take(i as int);
        let v: usize = list[i];
        set.insert(v);
        proof {
            let after = list@.take(i + 1);
            assert(after =~= before.push(v));
            assert(after.to_set() =~= before.to_set().insert(v)) by {
                assert forall|x: usize| after.to_set().contains(x) == before.to_set().insert(
                    v,
                ).contains(x) by {
                    if before.contains(x) {
                        let k = before.index_of(x);
                        assert(after[k] == x);
                    }
                    if x == v {
                        assert(after[i as int] == x);
                    }
                }
            }
        }
        i += 1;
        assert(set@ =~= old(set)@.union(list@.take(i as int).to_set()));
    }
    assert(list@.take(list@.len() as int) =~= list@);
}

/// How many records the arguments from `i` on say to read, the last word being
/// the one that counts, or nothing if one of them is neither a number nor the
/// word for all of them.
pub open spec fn limit_told(argv: Seq<Seq<char>>, limit: usize, i: int) -> Option<usize>
    decreases argv.len() - i,
{
    if i >= argv.len() {
        Some(limit)
    } else if argv[i] == "all"@ {
        limit_told(argv, usize::MAX, i + 1)
    } else {
        match count_of(argv[i]) {
            Some(n) => limit_told(argv, n, i + 1),
            None => None,
        }
    }
}

/// How many records are to be read: all of them, if nothing is said.
pub fn record_limit(argv: &Vec<String>) -> (limit: Option<usize>)
    ensures
        limit == limit_told(texts(argv@), usize::MAX, 0),
{
    let ghost all = texts(argv@);
    let mut limit: usize = usize::MAX;
    let mut i: usize = 0;
    while i < argv.len()
        invariant
            i <= argv@.len(),
            all == texts(argv@),
            limit_told(all, usize::MAX, 0) == limit_told(all, limit, i as int),
        decreases argv@.len() - i,
    {
        assert(all[i as int] == argv@[i as int]@);
        if is(&argv[i], "all") {
            limit = usize::MAX;
        } else {
            match count(argv[i].as_str()) {
                Some(n) => limit = n,
                None => {
                    return None;
                },
            }
        }
        i += 1;
    }
    Some(limit)
}

} // verus!
