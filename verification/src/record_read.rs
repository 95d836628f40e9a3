//! Records read off their text and coloured, one after another.

use vstd::prelude::*;
use vstd::string::*;

use crate::records::{
    mintable, nothing_read, read_one, recorded, Account, Ledger, Records, RecordsView,
};
use crate::scene::is_tree;
use crate::sexp::{malformed, past_blanks, record_at, record_within, Reader};

verus! {

/// Why reading stopped: what is said of it, or the block of a coinbase that is
/// wider than a colour can name.
pub enum Stop {
    Refused(String),
    TooWide(usize),
}

/// Why reading stopped, as a mathematical value.
pub enum StopView {
    Refused(Seq<char>),
    TooWide(usize),
}

impl View for Stop {
    type V = StopView;

    open spec fn view(&self) -> StopView {
        match self {
            Stop::Refused(why) => StopView::Refused(why@),
            Stop::TooWide(block) => StopView::TooWide(*block),
        }
    }
}

/// The account after the records of the text from `at` on, up to `limit` of them in
/// all. A record is read off the text once the one before it is coloured.
pub open spec fn text_read_from(s: Seq<u8>, at: int, st: Account, limit: nat) -> Result<
    Account,
    StopView,
>
    decreases s.len() - at,
    when 0 <= at <= s.len()
    via reading_shrinks
{
    if st.txs.len() >= limit || past_blanks(s, at) >= s.len() {
        Ok(st)
    } else {
        match record_at(s, at) {
            None => Err(StopView::Refused(malformed(past_blanks(s, at) as nat))),
            Some((record, e)) => if !mintable(record) {
                Err(StopView::TooWide(record.block_id))
            } else {
                match read_one(st, record) {
                    Err(why) => Err(StopView::Refused(why)),
                    Ok(next) => text_read_from(s, e, next, limit),
                }
            },
        }
    }
}

#[via_fn]
proof fn reading_shrinks(s: Seq<u8>, at: int, st: Account, limit: nat) {
    record_within(s, at);
}

/// What reading a text comes to, or why it stopped.
pub open spec fn text_read(s: Seq<u8>, limit: nat) -> Result<RecordsView, StopView> {
    match text_read_from(s, 0, nothing_read(), limit) {
        Err(stop) => Err(stop),
        Ok(st) => if st.txs.len() == 0 {
            Err(StopView::Refused("the file has no transactions to draw"@))
        } else {
            Ok(recorded(st))
        },
    }
}

/// Reads at most `limit` records of a text, colouring each before the next is read.
pub fn read_text(text: Vec<u8>, limit: usize) -> (r: Result<Records, Stop>)
    ensures
        match r {
            Ok(read) => text_read(text@, limit as nat) == Ok::<RecordsView, StopView>(read@)
                && is_tree(read.tree@, read.root as int),
            Err(stop) => text_read(text@, limit as nat) == Err::<RecordsView, StopView>(stop@),
        },
{
    let ghost s = text@;
    let mut reader = Reader::new(text);
    let mut ledger = Ledger::new();
    while ledger.len() < limit
        invariant
            s == text@,
            reader.whole() == s,
            reader.done() <= s.len(),
            ledger.sound(),
            text_read_from(s, 0, nothing_read(), limit as nat) == text_read_from(
                s,
                reader.done() as int,
                ledger.account(),
                limit as nat,
            ),
        ensures
            ledger.sound(),
            text_read_from(s, 0, nothing_read(), limit as nat) == Ok::<Account, StopView>(
                ledger.account(),
            ),
        decreases s.len() - reader.done(),
    {
        proof {
            record_within(s, reader.done() as int);
        }
        let record = match reader.next_record() {
            Err(why) => {
                return Err(Stop::Refused(why));
            },
            Ok(None) => {
                break ;
            },
            Ok(Some(record)) => record,
        };
        if record.inputs.len() == 0 && record.block_id > u32::MAX as usize {
            return Err(Stop::TooWide(record.block_id));
        }
        match ledger.take(&record) {
            Ok(()) => {},
            Err(why) => {
                return Err(Stop::Refused(why));
            },
        }
    }
    match ledger.finish() {
        Ok(read) => Ok(read),
        Err(why) => Err(Stop::Refused(why)),
    }
}

} // verus!
