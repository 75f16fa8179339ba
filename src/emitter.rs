//! Serialisation of events: one JSON object per line.
use vstd::prelude::*;

use crate::event::{attrs_view, events_view, Event, EventView};
use crate::whitespace::push_char;

verus! {

/// The lower-case hexadecimal digit of `n`, for `n < 16`.
pub open spec fn hex_digit(n: u8) -> char {
    if n < 10 {
        (48 + n) as u8 as char
    } else {
        (87 + n) as u8 as char
    }
}

/// `c` as it stands inside a JSON string: `"` and `\` behind a backslash,
/// control characters as `\u00XX`, everything else as it is.
pub open spec fn escape_char(c: char) -> Seq<char> {
    if c == '"' {
        seq!['\\', '"']
    } else if c == '\\' {
        seq!['\\', '\\']
    } else if (c as u32) < 0x20 {
        seq![
            '\\',
            'u',
            '0',
            '0',
            hex_digit(((c as u32) / 16) as u8),
            hex_digit(((c as u32) % 16) as u8),
        ]
    } else {
        seq![c]
    }
}

/// `s` as it stands inside a JSON string.
pub open spec fn escape(s: Seq<char>) -> Seq<char>
    decreases s.len(),
{
    if s.len() == 0 {
        seq![]
    } else {
        escape(s.drop_last()) + escape_char(s.last())
    }
}

/// One attribute as a JSON member: `"name":"value"`.
pub open spec fn pair_text(p: (Seq<char>, Seq<char>)) -> Seq<char> {
    "\""@ + escape(p.0) + "\":\""@ + escape(p.1) + "\""@
}

/// The attributes as JSON members, separated by commas.
pub open spec fn attrs_text(a: Seq<(Seq<char>, Seq<char>)>) -> Seq<char>
    decreases a.len(),
{
    if a.len() == 0 {
        seq![]
    } else if a.len() == 1 {
        pair_text(a[0])
    } else {
        attrs_text(a.drop_last()) + ","@ + pair_text(a.last())
    }
}

/// The line of a start tag.
pub open spec fn start_line(name: Seq<char>, a: Seq<(Seq<char>, Seq<char>)>) -> Seq<char> {
    "{\"type\":\"start_element\",\"name\":\""@ + escape(name) + "\",\"attributes\":{"@
        + attrs_text(a) + "}}\n"@
}

/// The line of an end tag.
pub open spec fn end_line(name: Seq<char>) -> Seq<char> {
    "{\"type\":\"end_element\",\"name\":\""@ + escape(name) + "\"}\n"@
}

/// The line of a run of text.
pub open spec fn text_line(content: Seq<char>) -> Seq<char> {
    "{\"type\":\"text\",\"content\":\""@ + escape(content) + "\"}\n"@
}

/// The line of one event.
pub open spec fn event_line(e: EventView) -> Seq<char> {
    match e {
        EventView::Start { name, attributes } => start_line(name, attributes),
        EventView::End { name } => end_line(name),
        EventView::Text { content } => text_line(content),
    }
}

/// The lines of a list of events, in order.
pub open spec fn render(events: Seq<EventView>) -> Seq<char>
    decreases events.len(),
{
    if events.len() == 0 {
        seq![]
    } else {
        render(events.drop_last()) + event_line(events.last())
    }
}

pub proof fn lemma_render_concat(a: Seq<EventView>, b: Seq<EventView>)
    ensures
        render(a + b) == render(a) + render(b),
    decreases b.len(),
{
    if b.len() == 0 {
        assert(a + b =~= a);
        assert(render(a) + Seq::<char>::empty() =~= render(a));
    } else {
        assert((a + b).drop_last() =~= a + b.drop_last());
        lemma_render_concat(a, b.drop_last());
        assert(render(a) + render(b.drop_last()) + event_line(b.last()) =~= render(a) + (render(
            b.drop_last(),
        ) + event_line(b.last())));
    }
}

fn hex_digit_of(n: u8) -> (r: char)
    requires
        n < 16,
    ensures
        r == hex_digit(n),
{
    if n < 10 {
        (48 + n) as char
    } else {
        (87 + n) as char
    }
}

/// Appends `s`, escaped as inside a JSON string.
fn push_escaped(out: &mut String, s: &str)
    ensures
        final(out)@ == old(out)@ + escape(s@),
{
    let ghost start = out@;
    assert(start + Seq::<char>::empty() =~= start);
    for c in it: s.chars()
        invariant
            start == old(out)@,
            out@ == start + escape(it.seq().take(it.index() as int)),
    {
        let ghost done = it.seq().take(it.index() as int);
        assert(it.seq().take(it.index() as int + 1).drop_last() =~= done);
        let ghost mid = out@;
        if c == '"' {
            push_char(out, '\\');
            push_char(out, '"');
        } else if c == '\\' {
            push_char(out, '\\');
            push_char(out, '\\');
        } else if (c as u32) < 0x20 {
            push_char(out, '\\');
            push_char(out, 'u');
            push_char(out, '0');
            push_char(out, '0');
            push_char(out, hex_digit_of(((c as u32) / 16) as u8));
            push_char(out, hex_digit_of(((c as u32) % 16) as u8));
        } else {
            push_char(out, c);
        }
        assert(out@ =~= mid + escape_char(c));
        assert(start + escape(done) + escape_char(c) =~= start + (escape(done) + escape_char(c)));
    }
    assert(s@.take(s@.len() as int) =~= s@);
}

/// Appends the attributes `attrs[..n]` as JSON members.
fn push_attributes(out: &mut String, attrs: &Vec<(String, String)>)
    ensures
        final(out)@ == old(out)@ + attrs_text(attrs_view(attrs@)),
{
    let ghost start = out@;
    let ghost av = attrs_view(attrs@);
    let mut i: usize = 0;
    assert(av.take(0) =~= Seq::<(Seq<char>, Seq<char>)>::empty());
    assert(start + Seq::<char>::empty() =~= start);
    while i < attrs.len()
        invariant
            i <= attrs@.len(),
            start == old(out)@,
            av == attrs_view(attrs@),
            out@ == start + attrs_text(av.take(i as int)),
        decreases attrs@.len() - i,
    {
        let ghost mid = out@;
        let ghost next = av.take(i as int + 1);
        assert(next.drop_last() =~= av.take(i as int));
        if i > 0 {
            out.append(",");
        }
        out.append("\"");
        push_escaped(out, attrs[i].0.as_str());
        out.append("\":\"");
        push_escaped(out, attrs[i].1.as_str());
        out.append("\"");
        if i == 0 {
            assert(next =~= seq![av[0]]);
            assert(out@ =~= mid + pair_text(av[0]));
            assert(attrs_text(av.take(0)) =~= Seq::<char>::empty());
            assert(out@ =~= start + attrs_text(next));
        } else {
            assert(out@ =~= mid + ","@ + pair_text(av[i as int]));
            assert(out@ =~= start + attrs_text(next));
        }
        i = i + 1;
    }
    assert(av.take(attrs@.len() as int) =~= av);
}

/// Appends the line of a start tag with its attributes.
pub fn start_tag(out: &mut String, name: &str, attrs: &Vec<(String, String)>)
    ensures
        final(out)@ == old(out)@ + start_line(name@, attrs_view(attrs@)),
{
    let ghost start = out@;
    out.append("{\"type\":\"start_element\",\"name\":\"");
    push_escaped(out, name);
    out.append("\",\"attributes\":{");
    push_attributes(out, attrs);
    out.append("}}\n");
    assert(out@ =~= start + start_line(name@, attrs_view(attrs@)));
}

/// Appends the line of an end tag.
pub fn end_tag(out: &mut String, name: &str)
    ensures
        final(out)@ == old(out)@ + end_line(name@),
{
    let ghost start = out@;
    out.append("{\"type\":\"end_element\",\"name\":\"");
    push_escaped(out, name);
    out.append("\"}\n");
    assert(out@ =~= start + end_line(name@));
}

/// Appends the line of a run of text.
pub fn text(out: &mut String, text: &str)
    ensures
        final(out)@ == old(out)@ + text_line(text@),
{
    let ghost start = out@;
    out.append("{\"type\":\"text\",\"content\":\"");
    push_escaped(out, text);
    out.append("\"}\n");
    assert(out@ =~= start + text_line(text@));
}

/// Appends the line of one event.
pub fn emit_event(out: &mut String, e: &Event)
    ensures
        final(out)@ == old(out)@ + event_line(e@),
{
    match e {
        Event::StartElement { name, attributes } => start_tag(out, name.as_str(), attributes),
        Event::EndElement { name } => end_tag(out, name.as_str()),
        Event::Text { content } => text(out, content.as_str()),
    }
}

/// Appends the lines of `events`, in order.
pub fn emit_events(out: &mut String, events: &Vec<Event>)
    ensures
        final(out)@ == old(out)@ + render(events_view(events@)),
{
    let ghost start = out@;
    let ghost ev = events_view(events@);
    let mut i: usize = 0;
    assert(ev.take(0) =~= Seq::<EventView>::empty());
    assert(start + Seq::<char>::empty() =~= start);
    while i < events.len()
        invariant
            i <= events@.len(),
            start == old(out)@,
            ev == events_view(events@),
            out@ == start + render(ev.take(i as int)),
        decreases events@.len() - i,
    {
        assert(ev.take(i as int + 1).drop_last() =~= ev.take(i as int));
        emit_event(out, &events[i]);
        assert(start + render(ev.take(i as int)) + event_line(ev[i as int]) =~= start + render(
            ev.take(i as int + 1),
        ));
        i = i + 1;
    }
    assert(ev.take(events@.len() as int) =~= ev);
}

} // verus!
