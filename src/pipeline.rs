use vstd::prelude::*;
use crate::decode::{
    join_lines, lemma_empty_input, lemma_lines_round_trip, lemma_records_ignore_tail, lines_of,
    plain_line, records_of, split_lines, split_records, NEWLINE,
};
use crate::dispatch::{
    action_of, clean, dispatched, lemma_clean_run, lemma_empty_run, run, start, upto, Action,
    Event,
};

verus! {

/// The records of an input, decoded by the variant that the mode selects.
pub enum Records {
    /// Text mode: the lines, each to be read as a decimal number.
    Lines(Vec<Vec<u8>>),
    /// Raw mode: the complete 4-byte records, in native byte order.
    Raw(Vec<[u8; 4]>),
}

/// The records that an input holds in the given mode.
pub open spec fn records_in(s: Seq<u8>, raw: bool) -> Seq<Seq<u8>> {
    if raw {
        records_of(s)
    } else {
        lines_of(s)
    }
}

impl Records {
    /// The records' bytes, in order.
    pub open spec fn contents(&self) -> Seq<Seq<u8>> {
        match self {
            Records::Lines(v) => v@.map_values(|l: Vec<u8>| l@),
            Records::Raw(v) => v@.map_values(|a: [u8; 4]| a@),
        }
    }

    /// The number of records.
    pub fn len(&self) -> (r: usize)
        ensures
            r == self.contents().len(),
    {
        match self {
            Records::Lines(v) => v.len(),
            Records::Raw(v) => v.len(),
        }
    }
}

/// Decodes an input: as raw 4-byte records when `raw` holds, else as lines.
pub fn decode(input: &Vec<u8>, raw: bool) -> (r: Records)
    ensures
        (r is Raw) == raw,
        r.contents() == records_in(input@, raw),
{
    if raw {
        Records::Raw(split_records(input))
    } else {
        Records::Lines(split_lines(input))
    }
}

/// Decoding and dispatch depend on the input alone: the same input, decoded
/// again and run with the same outcomes, gives the same records and the same
/// dispatches in the same order.
pub proof fn lemma_repeatable(a: Seq<u8>, b: Seq<u8>, raw: bool, evs: Seq<Event>)
    requires
        a == b,
        records_in(a, raw).len() <= usize::MAX,
    ensures
        records_in(a, raw) == records_in(b, raw),
        dispatched(start(records_in(a, raw).len() as usize), evs) == dispatched(
            start(records_in(b, raw).len() as usize),
            evs,
        ),
{
}

/// A text of N lines, each holding a number, gives N records; when each
/// decodes and each tone is emitted, exactly those N are dispatched, in file
/// order, and the run succeeds. A last line without its `\n` changes nothing.
pub proof fn lemma_text_run(ls: Seq<Seq<u8>>, last: Seq<u8>)
    requires
        forall|i: int| 0 <= i < ls.len() ==> plain_line(#[trigger] ls[i]),
        forall|j: int| 0 <= j < last.len() ==> last[j] != NEWLINE,
        last.len() > 0,
        ls.len() < usize::MAX,
    ensures
        records_in(join_lines(ls), false) == ls,
        records_in(join_lines(ls) + last, false) == ls.push(last),
        dispatched(start(ls.len() as usize), clean(ls.len())) == upto(ls.len()),
        action_of(run(start(ls.len() as usize), clean(ls.len()))) == Action::Finish,
{
    lemma_lines_round_trip(ls, last);
    lemma_clean_run(ls.len() as usize);
}

/// A raw stream of N whole records, with or without 1 to 3 trailing bytes,
/// gives those N records; when each tone is emitted, exactly N are
/// dispatched, in record order, and the run succeeds.
pub proof fn lemma_raw_run(s: Seq<u8>, t: Seq<u8>)
    requires
        s.len() % 4 == 0,
        t.len() < 4,
        s.len() / 4 <= usize::MAX,
    ensures
        records_in(s + t, true) == records_in(s, true),
        records_in(s, true).len() == s.len() / 4,
        dispatched(start((s.len() / 4) as usize), clean(s.len() / 4)) == upto(s.len() / 4),
        action_of(run(start((s.len() / 4) as usize), clean(s.len() / 4))) == Action::Finish,
{
    lemma_records_ignore_tail(s, t);
    lemma_clean_run((s.len() / 4) as usize);
}

/// An empty input, in either mode, has no records: its run finishes at once
/// and dispatches nothing.
pub proof fn lemma_empty_file(raw: bool, evs: Seq<Event>)
    ensures
        records_in(Seq::<u8>::empty(), raw).len() == 0,
        action_of(start(0)) == Action::Finish,
        dispatched(start(0), evs) == Seq::<int>::empty(),
{
    lemma_empty_input();
    lemma_empty_run(evs);
}

} // verus!
