//! The tokenizer: a single left-to-right pass from characters to events.
use vstd::prelude::*;

use crate::event::{events_view, push_event, Event, EventView};
use crate::tools::{process_tag, tag_events};
use crate::whitespace::{is_layout, is_layout_char, string_of, trim, trim_range};

verus! {

/// The model of a tokenizer between two characters.
pub ghost struct ScanState {
    /// Whether line feeds, carriage returns and tabs are dropped on reading.
    pub strip_layout: bool,
    /// Whether the last `<` has not been closed by a `>` yet.
    pub inside_tag: bool,
    /// The raw text read since the last `<`, inside a tag.
    pub tag: Seq<char>,
    /// The raw text read outside tags since the last flush.
    pub text: Seq<char>,
}

/// The state before the first character.
pub open spec fn initial_state(strip_layout: bool) -> ScanState {
    ScanState { strip_layout, inside_tag: false, tag: seq![], text: seq![] }
}

/// The event that flushing the text buffer `t` gives: the trimmed text, if
/// anything is left of it.
pub open spec fn text_events(t: Seq<char>) -> Seq<EventView> {
    let c = trim(t);
    if c.len() == 0 {
        seq![]
    } else {
        seq![EventView::Text { content: c }]
    }
}

/// What reading `c` in state `st` does: the next state and the events emitted.
pub open spec fn step(st: ScanState, c: char) -> (ScanState, Seq<EventView>) {
    if st.strip_layout && is_layout(c) {
        (st, seq![])
    } else if c == '<' {
        (
            ScanState { strip_layout: st.strip_layout, inside_tag: true, tag: st.tag, text: seq![] },
            text_events(st.text),
        )
    } else if c == '>' && st.inside_tag {
        (
            ScanState {
                strip_layout: st.strip_layout,
                inside_tag: false,
                tag: seq![],
                text: st.text,
            },
            tag_events(st.tag),
        )
    } else if st.inside_tag {
        (
            ScanState {
                strip_layout: st.strip_layout,
                inside_tag: true,
                tag: st.tag.push(c),
                text: st.text,
            },
            seq![],
        )
    } else {
        (
            ScanState {
                strip_layout: st.strip_layout,
                inside_tag: false,
                tag: st.tag,
                text: st.text.push(c),
            },
            seq![],
        )
    }
}

/// What reading `s` from state `st` does: the state after its last character
/// and the events emitted, in order.
pub open spec fn scan(st: ScanState, s: Seq<char>) -> (ScanState, Seq<EventView>)
    decreases s.len(),
{
    if s.len() == 0 {
        (st, seq![])
    } else {
        let (mid, first) = scan(st, s.drop_last());
        let (last, more) = step(mid, s.last());
        (last, first + more)
    }
}

/// The events of a whole input. What the buffers hold at its end (an
/// unterminated tag, trailing text) gives no event.
pub open spec fn events_of(input: Seq<char>, strip_layout: bool) -> Seq<EventView> {
    scan(initial_state(strip_layout), input).1
}

/// A tokenizer in the middle of a stream. Characters are fed to it one at a
/// time or in chunks of any size; each recognised construct is appended to
/// the caller's list of events as soon as it is complete.
pub struct Tokenizer {
    strip_layout: bool,
    inside_tag: bool,
    tag_buffer: Vec<char>,
    text_buffer: Vec<char>,
}

impl View for Tokenizer {
    type V = ScanState;

    closed spec fn view(&self) -> ScanState {
        ScanState {
            strip_layout: self.strip_layout,
            inside_tag: self.inside_tag,
            tag: self.tag_buffer@,
            text: self.text_buffer@,
        }
    }
}

impl Tokenizer {
    /// A tokenizer before the first character. With `strip_layout`, line
    /// feeds, carriage returns and tabs are dropped wherever they occur.
    pub fn new(strip_layout: bool) -> (t: Tokenizer)
        ensures
            t@ == initial_state(strip_layout),
    {
        Tokenizer { strip_layout, inside_tag: false, tag_buffer: Vec::new(), text_buffer: Vec::new() }
    }

    /// Emits the trimmed text buffer, unless nothing is left of it, and
    /// empties the buffer.
    fn flush_text(&mut self, events: &mut Vec<Event>)
        ensures
            final(self)@ == (ScanState { text: seq![], ..old(self)@ }),
            events_view(final(events)@) == events_view(old(events)@) + text_events(old(self)@.text),
    {
        let ghost before = events_view(events@);
        let (a, b) = trim_range(self.text_buffer.as_slice(), 0, self.text_buffer.len());
        assert(self.text_buffer@.subrange(0, self.text_buffer@.len() as int) =~= self.text_buffer@);
        if a < b {
            let content = string_of(self.text_buffer.as_slice(), a, b);
            push_event(events, Event::Text { content });
        }
        self.text_buffer = Vec::new();
        assert(events_view(events@) =~= before + text_events(old(self)@.text));
    }

    /// Reads one character.
    pub fn feed(&mut self, c: char, events: &mut Vec<Event>)
        ensures
            final(self)@ == step(old(self)@, c).0,
            events_view(final(events)@) == events_view(old(events)@) + step(old(self)@, c).1,
    {
        let ghost before = events_view(events@);
        if self.strip_layout && is_layout_char(c) {
            assert(before + Seq::<EventView>::empty() =~= before);
        } else if c == '<' {
            self.inside_tag = true;
            self.flush_text(events);
        } else if c == '>' && self.inside_tag {
            self.inside_tag = false;
            process_tag(self.tag_buffer.as_slice(), events);
            self.tag_buffer = Vec::new();
        } else if self.inside_tag {
            self.tag_buffer.push(c);
            assert(before + Seq::<EventView>::empty() =~= before);
        } else {
            self.text_buffer.push(c);
            assert(before + Seq::<EventView>::empty() =~= before);
        }
    }

    /// Reads the characters of `chunk` in order.
    pub fn feed_str(&mut self, chunk: &str, events: &mut Vec<Event>)
        ensures
            final(self)@ == scan(old(self)@, chunk@).0,
            events_view(final(events)@) == events_view(old(events)@) + scan(old(self)@, chunk@).1,
    {
        let ghost st0 = self@;
        let ghost ev0 = events_view(events@);
        assert(ev0 + Seq::<EventView>::empty() =~= ev0);
        for c in it: chunk.chars()
            invariant
                st0 == old(self)@,
                ev0 == events_view(old(events)@),
                self@ == scan(st0, it.seq().take(it.index() as int)).0,
                events_view(events@) == ev0 + scan(st0, it.seq().take(it.index() as int)).1,
        {
            let ghost done = it.seq().take(it.index() as int);
            let ghost next = it.seq().take(it.index() as int + 1);
            assert(next.drop_last() =~= done);
            let ghost mid = events_view(events@);
            self.feed(c, events);
            assert(ev0 + scan(st0, next).1 =~= mid + step(scan(st0, done).0, c).1);
        }
        assert(chunk@.take(chunk@.len() as int) =~= chunk@);
    }
}

/// The events of the whole of `input`, read from the start.
pub fn start_parsing(input: &str, strip_layout: bool) -> (events: Vec<Event>)
    ensures
        events_view(events@) == events_of(input@, strip_layout),
{
    let mut tokenizer = Tokenizer::new(strip_layout);
    let mut events: Vec<Event> = Vec::new();
    tokenizer.feed_str(input, &mut events);
    assert(events_view(events@) =~= events_of(input@, strip_layout));
    events
}

} // verus!
