//! Attribute parsing and tag classification.
use vstd::prelude::*;

use crate::event::{attrs_view, events_view, push_event, Event, EventView};
use crate::whitespace::{split_whitespace, split_ws, string_of, trim, trim_range};

verus! {

/// Index of the first `=` in `t`, or the length of `t` where there is none.
pub open spec fn first_eq(t: Seq<char>) -> nat
    decreases t.len(),
{
    if t.len() == 0 || t[0] == '=' {
        0
    } else {
        1 + first_eq(t.drop_first())
    }
}

/// `v` without one pair of matching `"` or `'` around it, where it has one.
pub open spec fn unquote(v: Seq<char>) -> Seq<char> {
    if v.len() >= 2 && (v[0] == '"' || v[0] == '\'') && v.last() == v[0] {
        v.subrange(1, v.len() - 1)
    } else {
        v
    }
}

/// Whether some entry of `attrs` has the name `k`.
pub open spec fn has_key(attrs: Seq<(Seq<char>, Seq<char>)>, k: Seq<char>) -> bool {
    exists|j: int| 0 <= j < attrs.len() && (#[trigger] attrs[j]).0 == k
}

/// Whether no two entries of `attrs` share a name.
pub open spec fn keys_unique(attrs: Seq<(Seq<char>, Seq<char>)>) -> bool {
    forall|i: int, j: int|
        0 <= i < attrs.len() && 0 <= j < attrs.len() && i != j ==> (#[trigger] attrs[i]).0 != (
        #[trigger] attrs[j]).0
}

/// `attrs` with the value of `k` set to `v`: in place where `k` is present,
/// else as a new last entry.
pub open spec fn set_attribute(
    attrs: Seq<(Seq<char>, Seq<char>)>,
    k: Seq<char>,
    v: Seq<char>,
) -> Seq<(Seq<char>, Seq<char>)> {
    if has_key(attrs, k) {
        attrs.update(choose|j: int| 0 <= j < attrs.len() && (#[trigger] attrs[j]).0 == k, (k, v))
    } else {
        attrs.push((k, v))
    }
}

/// What one `key=value` token adds: the text before its first `=` names the
/// attribute, the text after it, unquoted, is the value. A token without `=`
/// adds nothing.
pub open spec fn add_token(attrs: Seq<(Seq<char>, Seq<char>)>, t: Seq<char>) -> Seq<
    (Seq<char>, Seq<char>),
> {
    let i = first_eq(t) as int;
    if i < t.len() {
        set_attribute(attrs, t.take(i), unquote(t.skip(i + 1)))
    } else {
        attrs
    }
}

/// The attributes that the tokens `toks` give, taken in order; a later value
/// of a name replaces an earlier one.
pub open spec fn attributes_of(toks: Seq<Seq<char>>) -> Seq<(Seq<char>, Seq<char>)>
    decreases toks.len(),
{
    if toks.len() == 0 {
        seq![]
    } else {
        add_token(attributes_of(toks.drop_last()), toks.last())
    }
}

/// The events that the raw text `b` between `<` and `>` gives.
///
/// - `/name`: an end tag; the name is the rest, trimmed.
/// - `?...` (a processing instruction) and `!...` (a comment or declaration):
///   nothing.
/// - `name k=v .../`: a start tag and its end tag.
/// - `name k=v ...`: a start tag.
///
/// Text that gives no name gives no event.
pub open spec fn tag_events(b: Seq<char>) -> Seq<EventView> {
    if b.len() > 0 && b[0] == '/' {
        let name = trim(b.drop_first());
        if name.len() == 0 {
            seq![]
        } else {
            seq![EventView::End { name }]
        }
    } else if b.len() > 0 && (b[0] == '?' || b[0] == '!') {
        seq![]
    } else if b.len() > 0 && b.last() == '/' {
        let toks = split_ws(b.drop_last());
        if toks.len() == 0 {
            seq![]
        } else {
            seq![
                EventView::Start { name: toks[0], attributes: attributes_of(toks.drop_first()) },
                EventView::End { name: toks[0] },
            ]
        }
    } else {
        let toks = split_ws(b);
        if toks.len() == 0 {
            seq![]
        } else {
            seq![EventView::Start { name: toks[0], attributes: attributes_of(toks.drop_first()) }]
        }
    }
}

pub proof fn lemma_set_attribute_unique(
    attrs: Seq<(Seq<char>, Seq<char>)>,
    k: Seq<char>,
    v: Seq<char>,
)
    requires
        keys_unique(attrs),
    ensures
        keys_unique(set_attribute(attrs, k, v)),
        has_key(set_attribute(attrs, k, v), k),
{
    let r = set_attribute(attrs, k, v);
    if has_key(attrs, k) {
        let j = choose|j: int| 0 <= j < attrs.len() && (#[trigger] attrs[j]).0 == k;
        assert(r[j].0 == k);
    } else {
        assert(r[attrs.len() as int].0 == k);
    }
}

pub proof fn lemma_attributes_unique(toks: Seq<Seq<char>>)
    ensures
        keys_unique(attributes_of(toks)),
    decreases toks.len(),
{
    if toks.len() > 0 {
        lemma_attributes_unique(toks.drop_last());
        let t = toks.last();
        let i = first_eq(t) as int;
        if i < t.len() {
            lemma_set_attribute_unique(attributes_of(toks.drop_last()), t.take(i), unquote(t.skip(i + 1)));
        }
    }
}

proof fn lemma_first_eq_step(t: Seq<char>, i: int)
    requires
        0 <= i < t.len(),
        t[i] != '=',
    ensures
        first_eq(t.skip(i)) == 1 + first_eq(t.skip(i + 1)),
{
    assert(t.skip(i).drop_first() =~= t.skip(i + 1));
}

/// Index of the first `=` in `t`, or its length.
fn find_eq(t: &[char]) -> (r: usize)
    ensures
        r == first_eq(t@),
{
    let mut i: usize = 0;
    assert(t@.skip(0) =~= t@);
    while i < t.len() && t[i] != '='
        invariant
            i <= t@.len(),
            first_eq(t@) == i + first_eq(t@.skip(i as int)),
        decreases t@.len() - i,
    {
        proof {
            lemma_first_eq_step(t@, i as int);
        }
        i = i + 1;
    }
    i
}

/// Bounds of the unquoted part of `t[lo..hi]`.
fn unquote_range(t: &[char], lo: usize, hi: usize) -> (r: (usize, usize))
    requires
        lo <= hi <= t@.len(),
    ensures
        lo <= r.0 <= r.1 <= hi,
        t@.subrange(r.0 as int, r.1 as int) == unquote(t@.subrange(lo as int, hi as int)),
{
    let ghost v = t@.subrange(lo as int, hi as int);
    if hi - lo >= 2 && (t[lo] == '"' || t[lo] == '\'') && t[hi - 1] == t[lo] {
        assert(t@.subrange(lo as int + 1, hi as int - 1) =~= v.subrange(1, v.len() - 1));
        (lo + 1, hi - 1)
    } else {
        (lo, hi)
    }
}

/// Sets the value of `k` to `v`, in place where `k` is present.
fn set_attribute_in(attrs: &mut Vec<(String, String)>, k: String, v: String)
    requires
        keys_unique(attrs_view(old(attrs)@)),
    ensures
        attrs_view(final(attrs)@) == set_attribute(attrs_view(old(attrs)@), k@, v@),
{
    let ghost before = attrs_view(attrs@);
    let mut j: usize = 0;
    while j < attrs.len()
        invariant
            j <= attrs@.len(),
            attrs_view(attrs@) == before,
            before == attrs_view(old(attrs)@),
            keys_unique(before),
            forall|m: int| 0 <= m < j ==> (#[trigger] before[m]).0 != k@,
        decreases attrs@.len() - j,
    {
        if attrs[j].0 == k {
            proof {
                assert(before[j as int].0 == k@);
                let c = choose|c: int| 0 <= c < before.len() && (#[trigger] before[c]).0 == k@;
                assert(c == j as int);
            }
            attrs[j] = (k, v);
            assert(attrs_view(attrs@) =~= before.update(j as int, (k@, v@)));
            return;
        }
        j = j + 1;
    }
    assert(!has_key(before, k@));
    attrs.push((k, v));
    assert(attrs_view(attrs@) =~= before.push((k@, v@)));
}

/// Adds the attribute that the token `t` gives, if any.
fn add_token_in(attrs: &mut Vec<(String, String)>, t: &[char])
    requires
        keys_unique(attrs_view(old(attrs)@)),
    ensures
        attrs_view(final(attrs)@) == add_token(attrs_view(old(attrs)@), t@),
{
    let i = find_eq(t);
    if i < t.len() {
        let k = string_of(t, 0, i);
        let (a, b) = unquote_range(t, i + 1, t.len());
        let v = string_of(t, a, b);
        assert(t@.subrange(0, i as int) =~= t@.take(i as int));
        assert(t@.subrange(i as int + 1, t@.len() as int) =~= t@.skip(i as int + 1));
        set_attribute_in(attrs, k, v);
    }
}

/// The attributes that the tokens `toks[from..]` give.
fn collect_attributes(toks: &Vec<Vec<char>>, from: usize) -> (r: Vec<(String, String)>)
    requires
        from <= toks@.len(),
    ensures
        attrs_view(r@) == attributes_of(toks.deep_view().skip(from as int)),
{
    let ghost dv = toks.deep_view();
    let mut attrs: Vec<(String, String)> = Vec::new();
    let mut i: usize = from;
    assert(attrs_view(attrs@) =~= attributes_of(dv.subrange(from as int, from as int)));
    while i < toks.len()
        invariant
            from <= i <= toks@.len(),
            dv == toks.deep_view(),
            attrs_view(attrs@) == attributes_of(dv.subrange(from as int, i as int)),
        decreases toks@.len() - i,
    {
        proof {
            lemma_attributes_unique(dv.subrange(from as int, i as int));
            assert(dv.subrange(from as int, i as int + 1).drop_last() =~= dv.subrange(
                from as int,
                i as int,
            ));
            assert(toks@[i as int]@ =~= dv[i as int]);
        }
        add_token_in(&mut attrs, toks[i].as_slice());
        i = i + 1;
    }
    assert(dv.subrange(from as int, toks@.len() as int) =~= dv.skip(from as int));
    attrs
}

/// The attributes that the `key=value` tokens `parts` give: the text before
/// the first `=` names the attribute, the text after it, without one pair of
/// matching quotes, is the value. Tokens without `=` are skipped; a later
/// value for a name replaces an earlier one.
pub fn get_attributes(parts: &[&str]) -> (r: Vec<(String, String)>)
    ensures
        attrs_view(r@) == attributes_of(parts@.map_values(|p: &str| p@)),
{
    let ghost pv = parts@.map_values(|p: &str| p@);
    let mut attrs: Vec<(String, String)> = Vec::new();
    let mut i: usize = 0;
    assert(attrs_view(attrs@) =~= attributes_of(pv.take(0)));
    while i < parts.len()
        invariant
            i <= parts@.len(),
            pv == parts@.map_values(|p: &str| p@),
            attrs_view(attrs@) == attributes_of(pv.take(i as int)),
        decreases parts@.len() - i,
    {
        proof {
            lemma_attributes_unique(pv.take(i as int));
            assert(pv.take(i as int + 1).drop_last() =~= pv.take(i as int));
        }
        let t = crate::whitespace::chars_of(parts[i]);
        add_token_in(&mut attrs, t.as_slice());
        i = i + 1;
    }
    assert(pv.take(parts@.len() as int) =~= pv);
    attrs
}

/// Classifies the raw text `buff_tag` found between `<` and `>` and appends
/// the events it gives to `events`.
pub fn process_tag(buff_tag: &[char], events: &mut Vec<Event>)
    ensures
        events_view(final(events)@) == events_view(old(events)@) + tag_events(buff_tag@),
{
    let ghost b = buff_tag@;
    let ghost before = events_view(events@);
    let n = buff_tag.len();
    if n > 0 && buff_tag[0] == '/' {
        let (a, z) = trim_range(buff_tag, 1, n);
        assert(b.subrange(1, n as int) =~= b.drop_first());
        if a < z {
            let name = string_of(buff_tag, a, z);
            push_event(events, Event::EndElement { name });
        }
    } else if n > 0 && (buff_tag[0] == '?' || buff_tag[0] == '!') {
    } else {
        let self_closing = n > 0 && buff_tag[n - 1] == '/';
        let hi = if self_closing {
            n - 1
        } else {
            n
        };
        let toks = split_whitespace(buff_tag, 0, hi);
        let ghost dv = toks.deep_view();
        if self_closing {
            assert(b.subrange(0, hi as int) =~= b.drop_last());
        } else {
            assert(b.subrange(0, hi as int) =~= b);
        }
        if toks.len() > 0 {
            let attributes = collect_attributes(&toks, 1);
            assert(dv.skip(1) =~= dv.drop_first());
            let name = string_of(toks[0].as_slice(), 0, toks[0].len());
            assert(toks@[0]@.subrange(0, toks@[0]@.len() as int) =~= dv[0]);
            if self_closing {
                let end_name = name.clone();
                push_event(events, Event::StartElement { name, attributes });
                push_event(events, Event::EndElement { name: end_name });
            } else {
                push_event(events, Event::StartElement { name, attributes });
            }
        }
    }
    assert(events_view(events@) =~= before + tag_events(b));
}

} // verus!
