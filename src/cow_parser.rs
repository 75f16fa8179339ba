//! The tokenizer and the emitter composed: from markup to lines of events.
use vstd::prelude::*;

use crate::emitter::{emit_events, lemma_render_concat, render};
use crate::event::{events_view, Event, EventView};
use crate::parser::{events_of, scan, step, ScanState, Tokenizer};

verus! {

/// Reads the characters of `chunk` in order and appends the line of each
/// event to `out` as soon as the event is complete.
pub fn emit_chunk(tokenizer: &mut Tokenizer, chunk: &str, out: &mut String)
    ensures
        final(tokenizer)@ == scan(old(tokenizer)@, chunk@).0,
        final(out)@ == old(out)@ + render(scan(old(tokenizer)@, chunk@).1),
{
    let ghost st0: ScanState = tokenizer@;
    let ghost out0 = out@;
    assert(out0 + Seq::<char>::empty() =~= out0);
    for c in it: chunk.chars()
        invariant
            st0 == old(tokenizer)@,
            out0 == old(out)@,
            tokenizer@ == scan(st0, it.seq().take(it.index() as int)).0,
            out@ == out0 + render(scan(st0, it.seq().take(it.index() as int)).1),
    {
        let ghost done = it.seq().take(it.index() as int);
        let ghost next = it.seq().take(it.index() as int + 1);
        assert(next.drop_last() =~= done);
        let ghost before: Seq<EventView> = scan(st0, done).1;
        let mut pending: Vec<Event> = Vec::new();
        assert(events_view(pending@) =~= Seq::<EventView>::empty());
        tokenizer.feed(c, &mut pending);
        let ghost more: Seq<EventView> = step(scan(st0, done).0, c).1;
        assert(events_view(pending@) =~= more);
        emit_events(out, &pending);
        proof {
            lemma_render_concat(before, more);
            assert(out0 + render(before) + render(more) =~= out0 + (render(before) + render(more)));
        }
    }
    assert(chunk@.take(chunk@.len() as int) =~= chunk@);
}

/// Appends to `out` the line of each event of `input`, in order. With
/// `strip_layout`, line feeds, carriage returns and tabs are dropped on
/// reading.
pub fn start_parsing_cow(input: &str, strip_layout: bool, out: &mut String)
    ensures
        final(out)@ == old(out)@ + render(events_of(input@, strip_layout)),
{
    let mut tokenizer = Tokenizer::new(strip_layout);
    emit_chunk(&mut tokenizer, input, out);
}

} // verus!
