//! What the arguments of the programs come to.

use vstd::prelude::*;

use crate::args::{
    alone, flag_of, flag_text, has_flag, known, says_compact, switched, taken, told, untold,
    Choices, Flag, Measure, Program, SettingsView,
};
use crate::blocks::Seed;
use crate::labels::Labels;
use crate::numbers::{
    a_written_number_reads_back, comma, digit_value, digits_of_a_number, id_list, number,
};
use crate::text::dec;

verus! {

/// What a program was told by arguments and two more.
pub open spec fn told_more(
    program: Program,
    head: Seq<Seq<char>>,
    sizes: Seq<Measure>,
    word: Seq<char>,
    arg: Seq<char>,
) -> Result<SettingsView, Seq<char>> {
    told(program, head.push(word).push(arg), sizes, untold(program), 0)
}

/// A flag is known by how it is spelled.
proof fn a_spelled_flag_is_known(flag: Flag)
    ensures
        known(flag_text(flag)) == Some(flag),
        flag_text(flag) != "compact"@,
{
    reveal_strlit("-o");
    reveal_strlit("--out");
    reveal_strlit("-h");
    reveal_strlit("--help");
    reveal_strlit("--root");
    reveal_strlit("--depth");
    reveal_strlit("--max-blocks");
    reveal_strlit("--max-nodes");
    reveal_strlit("--fanout");
    reveal_strlit("--fanout-in");
    reveal_strlit("--fanout-out");
    reveal_strlit("--seed");
    reveal_strlit("--width");
    reveal_strlit("--max-height");
    reveal_strlit("--height");
    reveal_strlit("--horizontal");
    reveal_strlit("--vertical");
    reveal_strlit("--fill");
    reveal_strlit("--labels");
    reveal_strlit("--label-base");
    reveal_strlit("--mark");
    reveal_strlit("--dash-cross");
    reveal_strlit("--no-check");
    reveal_strlit("--spine");
    reveal_strlit("--ancestors");
    reveal_strlit("--depth-up");
    reveal_strlit("--fanout-up");
    reveal_strlit("--max-nodes-up");
    reveal_strlit("--zoom");
    reveal_strlit("--format");
    reveal_strlit("--scale");
    reveal_strlit("--limit");
    reveal_strlit("compact");
    assert("-o"@.len() == 2);
    assert("--out"@.len() == 5);
    assert("-h"@.len() == 2);
    assert("--help"@.len() == 6);
    assert("--root"@.len() == 6);
    assert("--depth"@.len() == 7);
    assert("--max-blocks"@.len() == 12);
    assert("--max-nodes"@.len() == 11);
    assert("--fanout"@.len() == 8);
    assert("--fanout-in"@.len() == 11);
    assert("--fanout-out"@.len() == 12);
    assert("--seed"@.len() == 6);
    assert("--width"@.len() == 7);
    assert("--max-height"@.len() == 12);
    assert("--height"@.len() == 8);
    assert("--horizontal"@.len() == 12);
    assert("--vertical"@.len() == 10);
    assert("--fill"@.len() == 6);
    assert("--labels"@.len() == 8);
    assert("--label-base"@.len() == 12);
    assert("--mark"@.len() == 6);
    assert("--dash-cross"@.len() == 12);
    assert("--no-check"@.len() == 10);
    assert("--spine"@.len() == 7);
    assert("--ancestors"@.len() == 11);
    assert("--depth-up"@.len() == 10);
    assert("--fanout-up"@.len() == 11);
    assert("--max-nodes-up"@.len() == 14);
    assert("--zoom"@.len() == 6);
    assert("--format"@.len() == 8);
    assert("--scale"@.len() == 7);
    assert("--limit"@.len() == 7);
    assert("compact"@.len() == 7);
    assert("-o"@[1] != "-h"@[1]);
    assert("--help"@[2] != "--root"@[2]);
    assert("--help"@[2] != "--seed"@[2]);
    assert("--help"@[2] != "--fill"@[2]);
    assert("--help"@[2] != "--mark"@[2]);
    assert("--help"@[2] != "--zoom"@[2]);
    assert("--root"@[2] != "--seed"@[2]);
    assert("--root"@[2] != "--fill"@[2]);
    assert("--root"@[2] != "--mark"@[2]);
    assert("--root"@[2] != "--zoom"@[2]);
    assert("--depth"@[2] != "--width"@[2]);
    assert("--depth"@[2] != "--spine"@[2]);
    assert("--depth"@[2] != "--scale"@[2]);
    assert("--depth"@[2] != "--limit"@[2]);
    assert("--depth"@[0] != "compact"@[0]);
    assert("--max-blocks"@[2] != "--fanout-out"@[2]);
    assert("--max-blocks"@[6] != "--max-height"@[6]);
    assert("--max-blocks"@[2] != "--horizontal"@[2]);
    assert("--max-blocks"@[2] != "--label-base"@[2]);
    assert("--max-blocks"@[2] != "--dash-cross"@[2]);
    assert("--max-nodes"@[2] != "--fanout-in"@[2]);
    assert("--max-nodes"@[2] != "--ancestors"@[2]);
    assert("--max-nodes"@[2] != "--fanout-up"@[2]);
    assert("--fanout"@[2] != "--height"@[2]);
    assert("--fanout"@[2] != "--labels"@[2]);
    assert("--fanout"@[3] != "--format"@[3]);
    assert("--fanout-in"@[2] != "--ancestors"@[2]);
    assert("--fanout-in"@[9] != "--fanout-up"@[9]);
    assert("--fanout-out"@[2] != "--max-height"@[2]);
    assert("--fanout-out"@[2] != "--horizontal"@[2]);
    assert("--fanout-out"@[2] != "--label-base"@[2]);
    assert("--fanout-out"@[2] != "--dash-cross"@[2]);
    assert("--seed"@[2] != "--fill"@[2]);
    assert("--seed"@[2] != "--mark"@[2]);
    assert("--seed"@[2] != "--zoom"@[2]);
    assert("--width"@[2] != "--spine"@[2]);
    assert("--width"@[2] != "--scale"@[2]);
    assert("--width"@[2] != "--limit"@[2]);
    assert("--width"@[0] != "compact"@[0]);
    assert("--max-height"@[2] != "--horizontal"@[2]);
    assert("--max-height"@[2] != "--label-base"@[2]);
    assert("--max-height"@[2] != "--dash-cross"@[2]);
    assert("--height"@[2] != "--labels"@[2]);
    assert("--height"@[2] != "--format"@[2]);
    assert("--horizontal"@[2] != "--label-base"@[2]);
    assert("--horizontal"@[2] != "--dash-cross"@[2]);
    assert("--vertical"@[2] != "--no-check"@[2]);
    assert("--vertical"@[2] != "--depth-up"@[2]);
    assert("--fill"@[2] != "--mark"@[2]);
    assert("--fill"@[2] != "--zoom"@[2]);
    assert("--labels"@[2] != "--format"@[2]);
    assert("--label-base"@[2] != "--dash-cross"@[2]);
    assert("--mark"@[2] != "--zoom"@[2]);
    assert("--no-check"@[2] != "--depth-up"@[2]);
    assert("--spine"@[3] != "--scale"@[3]);
    assert("--spine"@[2] != "--limit"@[2]);
    assert("--spine"@[0] != "compact"@[0]);
    assert("--ancestors"@[2] != "--fanout-up"@[2]);
    assert("--scale"@[2] != "--limit"@[2]);
    assert("--scale"@[0] != "compact"@[0]);
    assert("--limit"@[0] != "compact"@[0]);
}

/// Arguments that are understood are understood the same whatever comes after them.
proof fn what_was_told_stays(
    program: Program,
    head: Seq<Seq<char>>,
    tail: Seq<Seq<char>>,
    sizes: Seq<Measure>,
    st: SettingsView,
    i: int,
)
    requires
        told(program, head, sizes, st, i) is Ok,
        0 <= i <= head.len(),
        tail.len() > 0 ==> tail[0] != "compact"@,
    ensures
        told(program, head + tail, sizes, st, i) == told(
            program,
            head + tail,
            sizes,
            told(program, head, sizes, st, i)->Ok_0,
            head.len() as int,
        ),
    decreases head.len() - i,
{
    let all = head + tail;
    if i < head.len() {
        assert(all[i] == head[i]);
        match flag_of(program, head[i]) {
            None => {
                let next = SettingsView { names: st.names.push(head[i]), ..st };
                what_was_told_stays(program, head, tail, sizes, next, i + 1);
            },
            Some(flag) => {
                if i + 1 < head.len() {
                    assert(all[i + 1] == head[i + 1]);
                } else if i + 1 < all.len() {
                    assert(all[i + 1] == tail[0]);
                }
                if alone(flag) {
                    let compact = says_compact(program, flag, head, i);
                    assert(compact == says_compact(program, flag, all, i));
                    let next = SettingsView { choices: switched(st.choices, flag, compact), ..st };
                    if compact {
                        what_was_told_stays(program, head, tail, sizes, next, i + 2);
                    } else {
                        what_was_told_stays(program, head, tail, sizes, next, i + 1);
                    }
                } else {
                    let next = taken(program, st, flag, head[i + 1], sizes[i + 1])->Ok_0;
                    what_was_told_stays(program, head, tail, sizes, next, i + 2);
                }
            },
        }
    }
}

proof fn one_more_flag(
    program: Program,
    head: Seq<Seq<char>>,
    sizes: Seq<Measure>,
    st: SettingsView,
    flag: Flag,
    arg: Seq<char>,
)
    requires
        told(program, head, sizes, untold(program), 0) == Ok::<SettingsView, Seq<char>>(st),
        !alone(flag),
        flag != Flag::Help,
    ensures
        has_flag(program, flag) ==> told_more(program, head, sizes, flag_text(flag), arg) == taken(
            program,
            st,
            flag,
            arg,
            sizes[head.len() as int + 1],
        ),
{
    let word = flag_text(flag);
    let tail = seq![word, arg];
    let all = head.push(word).push(arg);
    a_spelled_flag_is_known(flag);
    assert(all =~= head + tail);
    what_was_told_stays(program, head, tail, sizes, untold(program), 0);
    let n = head.len() as int;
    assert(all[n] == word && all[n + 1] == arg);
    if has_flag(program, flag) {
        assert(flag_of(program, all[n]) == Some(flag));
        if let Ok(after) = taken(program, st, flag, arg, sizes[n + 1]) {
            assert(told(program, all, sizes, after, n + 2) == Ok::<SettingsView, Seq<char>>(after));
        }
    }
}

proof fn one_more_switch(
    program: Program,
    head: Seq<Seq<char>>,
    sizes: Seq<Measure>,
    st: SettingsView,
    flag: Flag,
)
    requires
        told(program, head, sizes, untold(program), 0) == Ok::<SettingsView, Seq<char>>(st),
        alone(flag),
    ensures
        has_flag(program, flag) ==> told(
            program,
            head.push(flag_text(flag)),
            sizes,
            untold(program),
            0,
        ) == Ok::<SettingsView, Seq<char>>(
            SettingsView { choices: switched(st.choices, flag, false), ..st },
        ),
{
    let word = flag_text(flag);
    let all = head.push(word);
    a_spelled_flag_is_known(flag);
    assert(all =~= head + seq![word]);
    what_was_told_stays(program, head, seq![word], sizes, untold(program), 0);
    let n = head.len() as int;
    assert(all[n] == word);
    if has_flag(program, flag) {
        assert(flag_of(program, all[n]) == Some(flag));
        let after = SettingsView { choices: switched(st.choices, flag, false), ..st };
        assert(told(program, all, sizes, after, n + 1) == Ok::<SettingsView, Seq<char>>(after));
    }
}

/// A number behind a flag is what the flag is about, and changes nothing else, whatever
/// was told before. The fanout of a page of blocks is that of the sides that were not
/// given their own.
pub proof fn a_number_is_what_its_flag_is_about(
    program: Program,
    head: Seq<Seq<char>>,
    sizes: Seq<Measure>,
    st: SettingsView,
    n: usize,
)
    requires
        told(program, head, sizes, untold(program), 0) == Ok::<SettingsView, Seq<char>>(st),
    ensures
        (program == Program::BlockPdf || program == Program::TreePdf) ==> told_more(program, head, sizes, "--depth"@, dec(n as nat)) == Ok::<
            SettingsView,
            Seq<char>,
        >(SettingsView { choices: Choices { depth: Some(n), ..st.choices }, ..st }),
        (program == Program::BlockPdf || program == Program::TreePdf) && n > 0 ==> told_more(program, head, sizes, "--max-nodes"@, dec(n as nat)) == Ok::<
            SettingsView,
            Seq<char>,
        >(SettingsView { choices: Choices { max_nodes: Some(n), ..st.choices }, ..st }),
        program == Program::BlockPdf && n > 0 ==> told_more(program, head, sizes, "--max-blocks"@, dec(n as nat)) == Ok::<
            SettingsView,
            Seq<char>,
        >(SettingsView { choices: Choices { max_blocks: Some(n), ..st.choices }, ..st }),
        program == Program::BlockPdf && n > 0 ==> told_more(program, head, sizes, "--fanout-in"@, dec(n as nat)) == Ok::<
            SettingsView,
            Seq<char>,
        >(SettingsView { choices: Choices { fanout_in: Some(n), ..st.choices }, ..st }),
        program == Program::BlockPdf && n > 0 ==> told_more(program, head, sizes, "--fanout-out"@, dec(n as nat)) == Ok::<
            SettingsView,
            Seq<char>,
        >(SettingsView { choices: Choices { fanout_out: Some(n), ..st.choices }, ..st }),
        program == Program::TreePdf && n > 0 ==> told_more(program, head, sizes, "--fanout"@, dec(n as nat)) == Ok::<
            SettingsView,
            Seq<char>,
        >(SettingsView { choices: Choices { fanout: Some(n), ..st.choices }, ..st }),
        program == Program::TreePdf ==> told_more(program, head, sizes, "--depth-up"@, dec(n as nat)) == Ok::<
            SettingsView,
            Seq<char>,
        >(SettingsView { choices: Choices { depth_up: Some(n), ..st.choices }, ..st }),
        program == Program::TreePdf && n > 0 ==> told_more(program, head, sizes, "--fanout-up"@, dec(n as nat)) == Ok::<
            SettingsView,
            Seq<char>,
        >(SettingsView { choices: Choices { fanout_up: Some(n), ..st.choices }, ..st }),
        program == Program::TreePdf && n > 0 ==> told_more(program, head, sizes, "--max-nodes-up"@, dec(n as nat)) == Ok::<
            SettingsView,
            Seq<char>,
        >(SettingsView { choices: Choices { max_nodes_up: Some(n), ..st.choices }, ..st }),
        program == Program::BlockPdf && n > 0 ==> told_more(
            program,
            head,
            sizes,
            "--fanout"@,
            dec(n as nat),
        ) == Ok::<SettingsView, Seq<char>>(
            SettingsView {
                choices: Choices {
                    fanout_in: if st.choices.fanout_in is None {
                        Some(n)
                    } else {
                        st.choices.fanout_in
                    },
                    fanout_out: if st.choices.fanout_out is None {
                        Some(n)
                    } else {
                        st.choices.fanout_out
                    },
                    ..st.choices
                },
                ..st
            },
        ),
        (program == Program::TreeJp2 || program == Program::TreeBitmap) && n > 0 ==> told_more(program, head, sizes, "--zoom"@, dec(n as nat)) == Ok::<
            SettingsView,
            Seq<char>,
        >(SettingsView { choices: Choices { zoom: n, ..st.choices }, ..st }),
        program == Program::TxView && n > 0 ==> told_more(program, head, sizes, "--limit"@, dec(n as nat)) == Ok::<
            SettingsView,
            Seq<char>,
        >(SettingsView { choices: Choices { limit: n, ..st.choices }, ..st }),
{
    a_written_number_reads_back(n as nat, usize::MAX as nat);
    reveal_strlit("all");
    a_number_is_no_word(n as nat);
    one_more_flag(program, head, sizes, st, Flag::Depth, dec(n as nat));
    one_more_flag(program, head, sizes, st, Flag::MaxNodes, dec(n as nat));
    one_more_flag(program, head, sizes, st, Flag::MaxBlocks, dec(n as nat));
    one_more_flag(program, head, sizes, st, Flag::FanoutIn, dec(n as nat));
    one_more_flag(program, head, sizes, st, Flag::FanoutOut, dec(n as nat));
    one_more_flag(program, head, sizes, st, Flag::Fanout, dec(n as nat));
    one_more_flag(program, head, sizes, st, Flag::DepthUp, dec(n as nat));
    one_more_flag(program, head, sizes, st, Flag::FanoutUp, dec(n as nat));
    one_more_flag(program, head, sizes, st, Flag::MaxNodesUp, dec(n as nat));
    one_more_flag(program, head, sizes, st, Flag::Zoom, dec(n as nat));
    one_more_flag(program, head, sizes, st, Flag::Limit, dec(n as nat));
}

proof fn a_number_is_no_word(n: nat)
    ensures
        dec(n) != "all"@,
{
    reveal_strlit("all");
    a_written_number_reads_back(n, n);
    if dec(n) == "all"@ {
        assert(number("all"@, n) == Some(n));
    }
}

/// A flag that stands alone turns on or off what it is about, and changes nothing else.
pub proof fn a_switch_is_what_it_is_about(
    program: Program,
    head: Seq<Seq<char>>,
    sizes: Seq<Measure>,
    st: SettingsView,
)
    requires
        told(program, head, sizes, untold(program), 0) == Ok::<SettingsView, Seq<char>>(st),
    ensures
        program == Program::BlockPdf ==> told(program, head.push("--horizontal"@), sizes, untold(program), 0) == Ok::<
            SettingsView,
            Seq<char>,
        >(SettingsView { choices: Choices { vertical: false, ..st.choices }, ..st }),
        (program == Program::BlockPdf || program == Program::TreePdf) ==> told(program, head.push("--vertical"@), sizes, untold(program), 0) == Ok::<
            SettingsView,
            Seq<char>,
        >(SettingsView { choices: Choices { vertical: true, ..st.choices }, ..st }),
        (program == Program::BlockPdf || program == Program::TreePdf) ==> told(program, head.push("--fill"@), sizes, untold(program), 0) == Ok::<
            SettingsView,
            Seq<char>,
        >(SettingsView { choices: Choices { fill: true, ..st.choices }, ..st }),
        (program == Program::BlockPdf || program == Program::TreePdf) ==> told(program, head.push("--labels"@), sizes, untold(program), 0) == Ok::<
            SettingsView,
            Seq<char>,
        >(SettingsView { choices: Choices { labels: Labels::Each, ..st.choices }, ..st }),
        program == Program::BlockPdf ==> told(program, head.push("--dash-cross"@), sizes, untold(program), 0) == Ok::<
            SettingsView,
            Seq<char>,
        >(SettingsView { choices: Choices { dash_cross: true, ..st.choices }, ..st }),
        program == Program::BlockPdf ==> told(program, head.push("--no-check"@), sizes, untold(program), 0) == Ok::<
            SettingsView,
            Seq<char>,
        >(SettingsView { choices: Choices { check: false, ..st.choices }, ..st }),
{
    one_more_switch(program, head, sizes, st, Flag::Horizontal);
    one_more_switch(program, head, sizes, st, Flag::Vertical);
    one_more_switch(program, head, sizes, st, Flag::Fill);
    one_more_switch(program, head, sizes, st, Flag::Labels);
    one_more_switch(program, head, sizes, st, Flag::DashCross);
    one_more_switch(program, head, sizes, st, Flag::NoCheck);
}

proof fn no_comma(s: Seq<char>)
    requires
        forall|i: int| 0 <= i < s.len() ==> #[trigger] s[i] != ',',
    ensures
        comma(s) == s.len(),
    decreases s.len(),
{
    if s.len() > 0 {
        no_comma(s.skip(1));
    }
}

/// A node behind a flag for nodes is one more of them; a reading behind the flag for it
/// is how roots are read; neither changes anything else.
pub proof fn a_root_is_one_more(
    program: Program,
    head: Seq<Seq<char>>,
    sizes: Seq<Measure>,
    st: SettingsView,
    n: usize,
)
    requires
        told(program, head, sizes, untold(program), 0) == Ok::<SettingsView, Seq<char>>(st),
        program == Program::BlockPdf || program == Program::TreePdf,
    ensures
        told_more(program, head, sizes, "--root"@, dec(n as nat)) == Ok::<SettingsView, Seq<char>>(
            SettingsView { roots: st.roots.push(n), ..st },
        ),
        told_more(program, head, sizes, "--mark"@, dec(n as nat)) == Ok::<SettingsView, Seq<char>>(
            SettingsView { marks: st.marks.push(n), ..st },
        ),
        program == Program::BlockPdf ==> told_more(
            program,
            head,
            sizes,
            "--seed"@,
            "producing"@,
        ) == Ok::<SettingsView, Seq<char>>(
            SettingsView { choices: Choices { seed: Seed::Producing, ..st.choices }, ..st },
        ),
        program == Program::BlockPdf ==> told_more(
            program,
            head,
            sizes,
            "--seed"@,
            "consuming"@,
        ) == Ok::<SettingsView, Seq<char>>(
            SettingsView { choices: Choices { seed: Seed::Consuming, ..st.choices }, ..st },
        ),
{
    let s = dec(n as nat);
    a_written_number_reads_back(n as nat, usize::MAX as nat);
    digits_of_a_number(n as nat);
    assert forall|i: int| 0 <= i < s.len() implies #[trigger] s[i] != ',' by {
        assert(digit_value(s[i]) is Some);
    }
    no_comma(s);
    assert(s.take(s.len() as int) =~= s);
    assert(id_list(s) == Ok::<Seq<usize>, Seq<char>>(seq![n]));
    assert(st.roots + seq![n] =~= st.roots.push(n));
    assert(st.marks + seq![n] =~= st.marks.push(n));
    reveal_strlit("producing");
    reveal_strlit("consuming");
    assert("producing"@[0] != "consuming"@[0]);
    one_more_flag(program, head, sizes, st, Flag::Root, s);
    one_more_flag(program, head, sizes, st, Flag::Mark, s);
    one_more_flag(program, head, sizes, st, Flag::Seed, "producing"@);
    one_more_flag(program, head, sizes, st, Flag::Seed, "consuming"@);
}

} // verus!
