//! Structural events and their mathematical model.
use vstd::prelude::*;

verus! {

/// One unit of parsed output: a start tag, an end tag or a run of text.
///
/// The attributes of a start tag hold each name once, in the order in which
/// the names first appeared in the tag.
#[derive(Debug, PartialEq, Eq)]
pub enum Event {
    StartElement { name: String, attributes: Vec<(String, String)> },
    EndElement { name: String },
    Text { content: String },
}

/// The model of an [`Event`], over character sequences.
pub ghost enum EventView {
    Start { name: Seq<char>, attributes: Seq<(Seq<char>, Seq<char>)> },
    End { name: Seq<char> },
    Text { content: Seq<char> },
}

/// The model of a list of attributes.
pub open spec fn attrs_view(a: Seq<(String, String)>) -> Seq<(Seq<char>, Seq<char>)> {
    a.map_values(|p: (String, String)| (p.0@, p.1@))
}

impl View for Event {
    type V = EventView;

    open spec fn view(&self) -> EventView {
        match self {
            Event::StartElement { name, attributes } => EventView::Start {
                name: name@,
                attributes: attrs_view(attributes@),
            },
            Event::EndElement { name } => EventView::End { name: name@ },
            Event::Text { content } => EventView::Text { content: content@ },
        }
    }
}

/// The model of a list of events.
pub open spec fn events_view(v: Seq<Event>) -> Seq<EventView> {
    v.map_values(|e: Event| e@)
}

pub proof fn lemma_events_view_push(v: Seq<Event>, e: Event)
    ensures
        events_view(v.push(e)) == events_view(v).push(e@),
{
    assert(events_view(v.push(e)) =~= events_view(v).push(e@));
}

/// Appends `e` to `events`.
pub fn push_event(events: &mut Vec<Event>, e: Event)
    ensures
        events_view(final(events)@) == events_view(old(events)@).push(e@),
{
    proof {
        lemma_events_view_push(events@, e);
    }
    events.push(e);
}

} // verus!
