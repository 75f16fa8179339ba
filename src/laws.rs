//! Laws of the tokenizer, stated over its model and proved.
use vstd::prelude::*;

use crate::emitter::{lemma_render_concat, render};
use crate::event::EventView;
use crate::parser::{events_of, initial_state, scan, step, text_events, ScanState};
use crate::tools::{add_token, attributes_of, first_eq, has_key, set_attribute, tag_events, unquote};
use crate::whitespace::{
    all_ws, is_layout, is_ws, lemma_split_word, lemma_split_word_then, lemma_trim_keeps,
    lemma_trim_start_edges, no_ws, split_ws, trim_start,
};

verus! {

/// Feeding a stream in two chunks gives the state and the events that
/// feeding it in one piece gives.
pub proof fn lemma_scan_concat(st: ScanState, a: Seq<char>, b: Seq<char>)
    ensures
        scan(st, a + b) == (
            scan(scan(st, a).0, b).0,
            scan(st, a).1 + scan(scan(st, a).0, b).1,
        ),
    decreases b.len(),
{
    if b.len() == 0 {
        assert(a + b =~= a);
        assert(scan(st, a).1 + Seq::<EventView>::empty() =~= scan(st, a).1);
    } else {
        assert((a + b).drop_last() =~= a + b.drop_last());
        lemma_scan_concat(st, a, b.drop_last());
        let mid = scan(st, a);
        let x = scan(mid.0, b.drop_last());
        let y = step(x.0, b.last());
        assert(mid.1 + x.1 + y.1 =~= mid.1 + (x.1 + y.1));
    }
}

proof fn lemma_scan_one(st: ScanState, c: char)
    ensures
        scan(st, seq![c]) == step(st, c),
{
    assert(seq![c].drop_last() =~= Seq::<char>::empty());
    assert(seq![c].last() == c);
    assert(scan(st, Seq::<char>::empty()) == (st, Seq::<EventView>::empty()));
    assert(Seq::<EventView>::empty() + step(st, c).1 =~= step(st, c).1);
}

/// Inside a tag, characters other than `<`, `>` and dropped layout go to the
/// tag buffer and emit nothing.
proof fn lemma_scan_tag_body(st: ScanState, s: Seq<char>)
    requires
        st.inside_tag,
        forall|i: int|
            0 <= i < s.len() ==> #[trigger] s[i] != '<' && s[i] != '>' && !(st.strip_layout
                && is_layout(s[i])),
    ensures
        scan(st, s) == (
            ScanState {
                strip_layout: st.strip_layout,
                inside_tag: true,
                tag: st.tag + s,
                text: st.text,
            },
            Seq::<EventView>::empty(),
        ),
    decreases s.len(),
{
    if s.len() == 0 {
        assert(st.tag + s =~= st.tag);
    } else {
        let p = s.drop_last();
        assert forall|i: int| 0 <= i < p.len() implies #[trigger] p[i] != '<' && p[i] != '>' && !(
        st.strip_layout && is_layout(p[i])) by {
            assert(p[i] == s[i]);
        }
        lemma_scan_tag_body(st, p);
        assert(s[s.len() - 1] == s.last());
        assert((st.tag + p).push(s.last()) =~= st.tag + s);
        assert(Seq::<EventView>::empty() + Seq::<EventView>::empty() =~= Seq::<EventView>::empty());
    }
}

/// Outside a tag, text without `<` emits nothing and stays outside.
proof fn lemma_scan_no_open(st: ScanState, s: Seq<char>)
    requires
        !st.inside_tag,
        forall|i: int| 0 <= i < s.len() ==> #[trigger] s[i] != '<',
    ensures
        !scan(st, s).0.inside_tag,
        scan(st, s).1 == Seq::<EventView>::empty(),
    decreases s.len(),
{
    if s.len() > 0 {
        let p = s.drop_last();
        assert forall|i: int| 0 <= i < p.len() implies #[trigger] p[i] != '<' by {
            assert(p[i] == s[i]);
        }
        lemma_scan_no_open(st, p);
        assert(s[s.len() - 1] == s.last());
        assert(Seq::<EventView>::empty() + Seq::<EventView>::empty() =~= Seq::<EventView>::empty());
    }
}

/// Empty input gives no event.
pub proof fn empty_input_has_no_events(strip_layout: bool)
    ensures
        events_of(Seq::<char>::empty(), strip_layout) == Seq::<EventView>::empty(),
{
}

/// Input without tags gives no event: its text is never followed by a `<`
/// that would flush it, so at most one (in fact no) text event comes out.
pub proof fn tagless_input_has_no_events(input: Seq<char>, strip_layout: bool)
    requires
        forall|i: int| 0 <= i < input.len() ==> #[trigger] input[i] != '<',
    ensures
        events_of(input, strip_layout) == Seq::<EventView>::empty(),
        events_of(input, strip_layout).len() <= 1,
{
    lemma_scan_no_open(initial_state(strip_layout), input);
}

/// Whether, after `p`, the tokenizer is outside a tag with only whitespace
/// buffered, as it is at the start and right after a tag closes.
pub open spec fn between_tags(p: Seq<char>, strip_layout: bool) -> bool {
    let st = scan(initial_state(strip_layout), p).0;
    !st.inside_tag && all_ws(st.text)
}

/// Two states that differ only in leading whitespace of the text buffer.
spec fn same_but_leading_ws(s1: ScanState, s2: ScanState) -> bool {
    &&& s1.strip_layout == s2.strip_layout
    &&& s1.inside_tag == s2.inside_tag
    &&& s1.tag == s2.tag
    &&& trim_start(s1.text) == trim_start(s2.text)
}

proof fn lemma_trim_start_push(t: Seq<char>, c: char)
    ensures
        trim_start(t.push(c)) == if trim_start(t).len() == 0 {
            if is_ws(c) {
                Seq::<char>::empty()
            } else {
                seq![c]
            }
        } else {
            trim_start(t).push(c)
        },
    decreases t.len(),
{
    if t.len() > 0 && is_ws(t[0]) {
        assert(t.push(c)[0] == t[0]);
        assert(t.push(c).drop_first() =~= t.drop_first().push(c));
        lemma_trim_start_push(t.drop_first(), c);
    } else if t.len() == 0 {
        assert(t.push(c) =~= seq![c]);
        assert(seq![c].drop_first() =~= Seq::<char>::empty());
        assert(trim_start(Seq::<char>::empty()) == Seq::<char>::empty());
        assert(seq![c][0] == c);
    } else {
        assert(t.push(c)[0] == t[0]);
    }
}

proof fn lemma_step_same(s1: ScanState, s2: ScanState, c: char)
    requires
        same_but_leading_ws(s1, s2),
    ensures
        same_but_leading_ws(step(s1, c).0, step(s2, c).0),
        step(s1, c).1 == step(s2, c).1,
{
    lemma_trim_start_push(s1.text, c);
    lemma_trim_start_push(s2.text, c);
    assert(text_events(s1.text) == text_events(s2.text));
}

proof fn lemma_scan_same(s1: ScanState, s2: ScanState, q: Seq<char>)
    requires
        same_but_leading_ws(s1, s2),
    ensures
        same_but_leading_ws(scan(s1, q).0, scan(s2, q).0),
        scan(s1, q).1 == scan(s2, q).1,
    decreases q.len(),
{
    if q.len() > 0 {
        lemma_scan_same(s1, s2, q.drop_last());
        lemma_step_same(scan(s1, q.drop_last()).0, scan(s2, q.drop_last()).0, q.last());
    }
}

/// Outside a tag, whitespace only adds whitespace to the text buffer.
proof fn lemma_scan_ws_run(st: ScanState, w: Seq<char>)
    requires
        !st.inside_tag,
        all_ws(st.text),
        all_ws(w),
    ensures
        !scan(st, w).0.inside_tag,
        scan(st, w).0.tag == st.tag,
        scan(st, w).0.strip_layout == st.strip_layout,
        all_ws(scan(st, w).0.text),
        scan(st, w).1 == Seq::<EventView>::empty(),
    decreases w.len(),
{
    if w.len() > 0 {
        let p = w.drop_last();
        assert forall|i: int| 0 <= i < p.len() implies is_ws(#[trigger] p[i]) by {
            assert(p[i] == w[i]);
        }
        lemma_scan_ws_run(st, p);
        let mid = scan(st, p).0;
        let c = w.last();
        assert(is_ws(w[w.len() - 1]));
        assert(c != '<' && c != '>');
        let t = mid.text.push(c);
        assert forall|i: int| 0 <= i < t.len() implies is_ws(#[trigger] t[i]) by {
            if i < mid.text.len() {
                assert(t[i] == mid.text[i]);
            }
        }
        assert(Seq::<EventView>::empty() + Seq::<EventView>::empty() =~= Seq::<EventView>::empty());
    }
}

/// A run of whitespace between tags gives no event: inserting it right
/// after a tag (or at the start) changes nothing that comes out.
pub proof fn whitespace_run_is_silent(
    p: Seq<char>,
    w: Seq<char>,
    q: Seq<char>,
    strip_layout: bool,
)
    requires
        between_tags(p, strip_layout),
        all_ws(w),
    ensures
        events_of(p + w + q, strip_layout) == events_of(p + q, strip_layout),
{
    let init = initial_state(strip_layout);
    let s = scan(init, p).0;
    lemma_scan_concat(init, p, w);
    lemma_scan_concat(init, p + w, q);
    lemma_scan_concat(init, p, q);
    lemma_scan_ws_run(s, w);
    let s2 = scan(s, w).0;
    lemma_trim_start_edges(s.text);
    lemma_trim_start_edges(s2.text);
    lemma_scan_same(s2, s, q);
    assert(scan(init, p).1 + Seq::<EventView>::empty() =~= scan(init, p).1);
}

/// Every text event holds trimmed, non-empty text.
pub proof fn text_events_are_trimmed(input: Seq<char>, strip_layout: bool, i: int)
    requires
        0 <= i < events_of(input, strip_layout).len(),
        events_of(input, strip_layout)[i] is Text,
    ensures
        ({
            let c = events_of(input, strip_layout)[i]->Text_content;
            c.len() > 0 && !is_ws(c[0]) && !is_ws(c.last())
        }),
{
    lemma_text_events_trimmed(initial_state(strip_layout), input, i);
}

proof fn lemma_text_events_trimmed(st: ScanState, s: Seq<char>, i: int)
    requires
        0 <= i < scan(st, s).1.len(),
        scan(st, s).1[i] is Text,
    ensures
        ({
            let c = scan(st, s).1[i]->Text_content;
            c.len() > 0 && !is_ws(c[0]) && !is_ws(c.last())
        }),
    decreases s.len(),
{
    if s.len() > 0 {
        let (mid, first) = scan(st, s.drop_last());
        let (last, more) = step(mid, s.last());
        if i < first.len() {
            assert(scan(st, s).1[i] == first[i]);
            lemma_text_events_trimmed(st, s.drop_last(), i);
        } else {
            let j = i - first.len();
            assert(scan(st, s).1[i] == more[j]);
            crate::whitespace::lemma_trim_edges(mid.text);
        }
    }
}

/// A token without `=` adds no attribute, and the tokens after it are read
/// as if it were not there.
pub proof fn token_without_eq_is_skipped(a: Seq<Seq<char>>, t: Seq<char>, b: Seq<Seq<char>>)
    requires
        forall|i: int| 0 <= i < t.len() ==> #[trigger] t[i] != '=',
    ensures
        attributes_of(a + seq![t] + b) == attributes_of(a + b),
    decreases b.len(),
{
    lemma_first_eq_absent(t);
    if b.len() == 0 {
        assert(a + seq![t] + b =~= a.push(t));
        assert(a.push(t).drop_last() =~= a);
        assert(a + b =~= a);
    } else {
        assert((a + seq![t] + b).drop_last() =~= a + seq![t] + b.drop_last());
        assert((a + b).drop_last() =~= a + b.drop_last());
        token_without_eq_is_skipped(a, t, b.drop_last());
    }
}

proof fn lemma_first_eq_absent(t: Seq<char>)
    requires
        forall|i: int| 0 <= i < t.len() ==> #[trigger] t[i] != '=',
    ensures
        first_eq(t) == t.len(),
    decreases t.len(),
{
    if t.len() > 0 {
        let r = t.drop_first();
        assert forall|i: int| 0 <= i < r.len() implies #[trigger] r[i] != '=' by {
            assert(r[i] == t[i + 1]);
        }
        lemma_first_eq_absent(r);
    }
}

proof fn lemma_first_eq_at(t: Seq<char>, k: int)
    requires
        0 <= k < t.len(),
        t[k] == '=',
        forall|i: int| 0 <= i < k ==> #[trigger] t[i] != '=',
    ensures
        first_eq(t) == k,
    decreases k,
{
    if k > 0 {
        let r = t.drop_first();
        assert forall|i: int| 0 <= i < k - 1 implies #[trigger] r[i] != '=' by {
            assert(r[i] == t[i + 1]);
        }
        lemma_first_eq_at(r, k - 1);
    }
}

/// Whether `n` can name an element in markup that reads back as written:
/// non-empty, with no whitespace, `<`, `>` or `/`, and not starting like a
/// processing instruction or a comment.
pub open spec fn is_name(n: Seq<char>) -> bool {
    &&& n.len() > 0
    &&& n[0] != '?'
    &&& n[0] != '!'
    &&& forall|i: int|
        0 <= i < n.len() ==> !is_ws(#[trigger] n[i]) && n[i] != '<' && n[i] != '>' && n[i]
            != '/'
}

/// Whether `k` can name an attribute: no whitespace, `<`, `>` or `=`.
pub open spec fn is_attribute_name(k: Seq<char>) -> bool {
    forall|i: int| 0 <= i < k.len() ==> !is_ws(#[trigger] k[i]) && k[i] != '<' && k[i] != '>' && k[i] != '='
}

/// Whether `v` can stand as a quoted attribute value: no whitespace, `<`
/// or `>`.
pub open spec fn is_attribute_value(v: Seq<char>) -> bool {
    forall|i: int| 0 <= i < v.len() ==> !is_ws(#[trigger] v[i]) && v[i] != '<' && v[i] != '>'
}

/// The markup `<name key="value"/>`.
pub open spec fn self_closing_text(name: Seq<char>, key: Seq<char>, value: Seq<char>) -> Seq<
    char,
> {
    seq!['<'] + name + seq![' '] + key + seq!['=', '"'] + value + seq!['"', '/', '>']
}

/// A self-closing tag with one attribute gives exactly its start tag, with
/// that attribute, followed by its end tag.
pub proof fn self_closing_tag_events(
    name: Seq<char>,
    key: Seq<char>,
    value: Seq<char>,
    strip_layout: bool,
)
    requires
        is_name(name),
        is_attribute_name(key),
        is_attribute_value(value),
    ensures
        events_of(self_closing_text(name, key, value), strip_layout) == seq![
            EventView::Start { name, attributes: seq![(key, value)] },
            EventView::End { name },
        ],
{
    let init = initial_state(strip_layout);
    let tok = key + seq!['=', '"'] + value + seq!['"'];
    let body = name + seq![' '] + tok;
    let buffer = body + seq!['/'];
    assert(self_closing_text(name, key, value) =~= seq!['<'] + buffer + seq!['>']);
    // Characters of the tag: none is `<`, `>` or layout.
    assert forall|i: int| 0 <= i < buffer.len() implies #[trigger] buffer[i] != '<' && buffer[i]
        != '>' && !(strip_layout && is_layout(buffer[i])) by {
        if i < name.len() {
            assert(buffer[i] == name[i]);
        } else if i == name.len() {
        } else if i < name.len() + 1 + key.len() {
            assert(buffer[i] == key[i - name.len() - 1]);
        } else if i < name.len() + 1 + key.len() + 2 {
        } else if i < name.len() + 1 + key.len() + 2 + value.len() {
            assert(buffer[i] == value[i - name.len() - 1 - key.len() - 2]);
        }
    }
    lemma_scan_one(init, '<');
    let s1 = step(init, '<').0;
    lemma_scan_tag_body(s1, buffer);
    lemma_scan_concat(init, seq!['<'], buffer);
    lemma_scan_concat(init, seq!['<'] + buffer, seq!['>']);
    let s2 = scan(s1, buffer).0;
    lemma_scan_one(s2, '>');
    assert(s2.tag =~= buffer);
    // How the tag reads.
    assert(buffer.last() == '/');
    assert(buffer[0] == name[0]);
    assert(buffer.drop_last() =~= body);
    assert forall|i: int| 0 <= i < tok.len() implies !is_ws(#[trigger] tok[i]) by {
        if i < key.len() {
            assert(tok[i] == key[i]);
        } else if i < key.len() + 2 {
        } else if i < key.len() + 2 + value.len() {
            assert(tok[i] == value[i - key.len() - 2]);
        }
    }
    assert(no_ws(name));
    assert(all_ws(seq![' ']));
    lemma_split_word_then(name, seq![' '], tok);
    lemma_split_word(tok);
    let toks = split_ws(body);
    assert(toks =~= seq![name, tok]);
    assert(toks.drop_first() =~= seq![tok]);
    assert forall|i: int| 0 <= i < key.len() implies #[trigger] tok[i] != '=' by {
        assert(tok[i] == key[i]);
    }
    lemma_first_eq_at(tok, key.len() as int);
    assert(tok.take(key.len() as int) =~= key);
    let raw = tok.skip(key.len() as int + 1);
    assert(raw =~= seq!['"'] + value + seq!['"']);
    assert(unquote(raw) =~= value);
    let empty_attrs = Seq::<(Seq<char>, Seq<char>)>::empty();
    assert(seq![tok].drop_last() =~= Seq::<Seq<char>>::empty());
    assert(seq![tok].last() == tok);
    assert(attributes_of(Seq::<Seq<char>>::empty()) == empty_attrs);
    assert(!has_key(empty_attrs, key));
    assert(set_attribute(empty_attrs, key, value) == empty_attrs.push((key, value)));
    assert(add_token(empty_attrs, tok) == set_attribute(empty_attrs, key, value));
    assert(attributes_of(seq![tok]) =~= seq![(key, value)]);
    assert(tag_events(buffer) =~= seq![
        EventView::Start { name, attributes: seq![(key, value)] },
        EventView::End { name },
    ]);
    assert(Seq::<EventView>::empty() + Seq::<EventView>::empty() + tag_events(buffer) =~= tag_events(
        buffer,
    ));
}

/// Markup made of properly nested start and end tags.
pub ghost enum Markup {
    Nothing,
    Element { name: Seq<char>, inner: Box<Markup> },
    Then { first: Box<Markup>, second: Box<Markup> },
}

/// Whether every element of `m` has a name that reads back as written.
pub open spec fn well_named(m: Markup) -> bool
    decreases m,
{
    match m {
        Markup::Nothing => true,
        Markup::Element { name, inner } => is_name(name) && well_named(*inner),
        Markup::Then { first, second } => well_named(*first) && well_named(*second),
    }
}

/// The text of `m`: `<name>`, what is inside, `</name>`.
pub open spec fn markup_text(m: Markup) -> Seq<char>
    decreases m,
{
    match m {
        Markup::Nothing => seq![],
        Markup::Element { name, inner } => seq!['<'] + name + seq!['>'] + markup_text(*inner)
            + seq!['<', '/'] + name + seq!['>'],
        Markup::Then { first, second } => markup_text(*first) + markup_text(*second),
    }
}

/// The events that `m` stands for.
pub open spec fn markup_events(m: Markup) -> Seq<EventView>
    decreases m,
{
    match m {
        Markup::Nothing => seq![],
        Markup::Element { name, inner } => seq![
            EventView::Start { name, attributes: seq![] },
        ] + markup_events(*inner) + seq![EventView::End { name }],
        Markup::Then { first, second } => markup_events(*first) + markup_events(*second),
    }
}

/// The names of the elements still open after `events`, read from the open
/// elements `open`; `None` where an end tag does not close the element opened
/// last.
pub open spec fn unwind(events: Seq<EventView>, open: Seq<Seq<char>>) -> Option<Seq<Seq<char>>>
    decreases events.len(),
{
    if events.len() == 0 {
        Some(open)
    } else {
        match events[0] {
            EventView::Start { name, .. } => unwind(events.drop_first(), open.push(name)),
            EventView::End { name } => if open.len() > 0 && open.last() == name {
                unwind(events.drop_first(), open.drop_last())
            } else {
                None
            },
            EventView::Text { .. } => unwind(events.drop_first(), open),
        }
    }
}

/// Whether every end tag of `events` closes the element opened last, and
/// every element is closed.
pub open spec fn balanced(events: Seq<EventView>) -> bool {
    unwind(events, seq![]) == Some(Seq::<Seq<char>>::empty())
}

proof fn lemma_unwind_markup(m: Markup, rest: Seq<EventView>, open: Seq<Seq<char>>)
    ensures
        unwind(markup_events(m) + rest, open) == unwind(rest, open),
    decreases m,
{
    match m {
        Markup::Nothing => {
            assert(markup_events(m) + rest =~= rest);
        },
        Markup::Element { name, inner } => {
            let all = markup_events(m) + rest;
            let tail = seq![EventView::End { name }] + rest;
            assert(all.drop_first() =~= markup_events(*inner) + tail);
            lemma_unwind_markup(*inner, tail, open.push(name));
            assert(tail.drop_first() =~= rest);
            assert(open.push(name).drop_last() =~= open);
        },
        Markup::Then { first, second } => {
            assert(markup_events(m) + rest =~= markup_events(*first) + (markup_events(*second)
                + rest));
            lemma_unwind_markup(*first, markup_events(*second) + rest, open);
            lemma_unwind_markup(*second, rest, open);
        },
    }
}

/// Reads `<` + `tag` + `>` from the state between tags.
proof fn lemma_scan_tag(strip_layout: bool, tag: Seq<char>)
    requires
        forall|i: int|
            0 <= i < tag.len() ==> #[trigger] tag[i] != '<' && tag[i] != '>' && !is_ws(tag[i]),
    ensures
        scan(initial_state(strip_layout), seq!['<'] + tag + seq!['>']) == (
            initial_state(strip_layout),
            tag_events(tag),
        ),
{
    let init = initial_state(strip_layout);
    assert forall|i: int| 0 <= i < tag.len() implies #[trigger] tag[i] != '<' && tag[i] != '>'
        && !(strip_layout && is_layout(tag[i])) by {}
    lemma_scan_one(init, '<');
    let s1 = step(init, '<').0;
    lemma_scan_tag_body(s1, tag);
    lemma_scan_concat(init, seq!['<'], tag);
    lemma_scan_concat(init, seq!['<'] + tag, seq!['>']);
    let s2 = scan(s1, tag).0;
    lemma_scan_one(s2, '>');
    assert(s2.tag =~= tag);
    assert(step(s2, '>').0 == init);
    assert(Seq::<EventView>::empty() + Seq::<EventView>::empty() + tag_events(tag) =~= tag_events(
        tag,
    ));
}

proof fn lemma_scan_markup(m: Markup, strip_layout: bool)
    requires
        well_named(m),
    ensures
        scan(initial_state(strip_layout), markup_text(m)) == (
            initial_state(strip_layout),
            markup_events(m),
        ),
    decreases m,
{
    let init = initial_state(strip_layout);
    match m {
        Markup::Nothing => {},
        Markup::Element { name, inner } => {
            let open_text = seq!['<'] + name + seq!['>'];
            let close_tag = seq!['/'] + name;
            let close_text = seq!['<'] + close_tag + seq!['>'];
            assert(markup_text(m) =~= open_text + markup_text(*inner) + close_text);
            assert(forall|i: int| 0 <= i < name.len() ==> !is_ws(#[trigger] name[i]));
            lemma_scan_tag(strip_layout, name);
            assert forall|i: int| 0 <= i < close_tag.len() implies #[trigger] close_tag[i] != '<'
                && close_tag[i] != '>' && !is_ws(close_tag[i]) by {
                if i > 0 {
                    assert(close_tag[i] == name[i - 1]);
                }
            }
            lemma_scan_tag(strip_layout, close_tag);
            lemma_scan_markup(*inner, strip_layout);
            lemma_scan_concat(init, open_text, markup_text(*inner));
            lemma_scan_concat(init, open_text + markup_text(*inner), close_text);
            // The start tag.
            assert(no_ws(name));
            lemma_split_word(name);
            assert(name.last() == name[name.len() - 1]);
            assert(seq![name].drop_first() =~= Seq::<Seq<char>>::empty());
            assert(tag_events(name) =~= seq![EventView::Start { name, attributes: seq![] }]);
            // The end tag.
            assert(close_tag.drop_first() =~= name);
            lemma_trim_keeps(name);
            assert(tag_events(close_tag) =~= seq![EventView::End { name }]);
            assert(markup_events(m) =~= tag_events(name) + markup_events(*inner) + tag_events(
                close_tag,
            ));
        },
        Markup::Then { first, second } => {
            lemma_scan_markup(*first, strip_layout);
            lemma_scan_markup(*second, strip_layout);
            lemma_scan_concat(init, markup_text(*first), markup_text(*second));
        },
    }
}

/// Properly nested markup gives the events it stands for, and in them every
/// end tag closes the element opened last.
pub proof fn nested_tags_balance(m: Markup, strip_layout: bool)
    requires
        well_named(m),
    ensures
        events_of(markup_text(m), strip_layout) == markup_events(m),
        balanced(events_of(markup_text(m), strip_layout)),
{
    lemma_scan_markup(m, strip_layout);
    lemma_unwind_markup(m, seq![], seq![]);
    assert(markup_events(m) + Seq::<EventView>::empty() =~= markup_events(m));
}

/// Output does not depend on how the input is cut into chunks: any two ways
/// of feeding the same input give the same bytes, those of the input read in
/// one piece.
pub proof fn rerun_output_is_identical(
    a1: Seq<char>,
    b1: Seq<char>,
    a2: Seq<char>,
    b2: Seq<char>,
    strip_layout: bool,
)
    requires
        a1 + b1 == a2 + b2,
    ensures
        ({
            let init = initial_state(strip_layout);
            let out1 = render(scan(init, a1).1) + render(scan(scan(init, a1).0, b1).1);
            let out2 = render(scan(init, a2).1) + render(scan(scan(init, a2).0, b2).1);
            out1 == out2 && out1 == render(events_of(a1 + b1, strip_layout))
        }),
{
    let init = initial_state(strip_layout);
    lemma_scan_concat(init, a1, b1);
    lemma_scan_concat(init, a2, b2);
    lemma_render_concat(scan(init, a1).1, scan(scan(init, a1).0, b1).1);
    lemma_render_concat(scan(init, a2).1, scan(scan(init, a2).0, b2).1);
}

} // verus!
