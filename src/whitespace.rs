//! Character classes, trimming and splitting on whitespace.
use vstd::prelude::*;

verus! {

/// Whether `c` has the Unicode `White_Space` property.
pub open spec fn is_ws(c: char) -> bool {
    let u = c as u32;
    (0x09 <= u && u <= 0x0d) || u == 0x20 || u == 0x85 || u == 0xa0 || u == 0x1680 || (0x2000 <= u
        && u <= 0x200a) || u == 0x2028 || u == 0x2029 || u == 0x202f || u == 0x205f || u == 0x3000
}

/// Whether `c` is a layout character: line feed, carriage return or tab.
pub open spec fn is_layout(c: char) -> bool {
    c == '\n' || c == '\r' || c == '\t'
}

/// Whether every character of `s` is whitespace.
pub open spec fn all_ws(s: Seq<char>) -> bool {
    forall|i: int| 0 <= i < s.len() ==> is_ws(#[trigger] s[i])
}

/// Whether no character of `s` is whitespace.
pub open spec fn no_ws(s: Seq<char>) -> bool {
    forall|i: int| 0 <= i < s.len() ==> !is_ws(#[trigger] s[i])
}

/// `s` without its leading whitespace.
pub open spec fn trim_start(s: Seq<char>) -> Seq<char>
    decreases s.len(),
{
    if s.len() > 0 && is_ws(s[0]) {
        trim_start(s.drop_first())
    } else {
        s
    }
}

/// `s` without its trailing whitespace.
pub open spec fn trim_end(s: Seq<char>) -> Seq<char>
    decreases s.len(),
{
    if s.len() > 0 && is_ws(s.last()) {
        trim_end(s.drop_last())
    } else {
        s
    }
}

/// `s` without leading and trailing whitespace.
pub open spec fn trim(s: Seq<char>) -> Seq<char> {
    trim_end(trim_start(s))
}

/// Length of the run of non-whitespace characters that starts `s`.
pub open spec fn word_len(s: Seq<char>) -> nat
    decreases s.len(),
{
    if s.len() == 0 || is_ws(s[0]) {
        0
    } else {
        1 + word_len(s.drop_first())
    }
}

/// The maximal runs of non-whitespace characters of `s`, in order.
pub open spec fn split_ws(s: Seq<char>) -> Seq<Seq<char>>
    decreases s.len(),
{
    if s.len() == 0 {
        seq![]
    } else if is_ws(s[0]) {
        split_ws(s.drop_first())
    } else {
        proof {
            lemma_word_len_bound(s);
        }
        let n = word_len(s) as int;
        seq![s.take(n)] + split_ws(s.skip(n))
    }
}

pub proof fn lemma_word_len_bound(s: Seq<char>)
    ensures
        word_len(s) <= s.len(),
        s.len() > 0 && !is_ws(s[0]) ==> word_len(s) >= 1,
    decreases s.len(),
{
    if s.len() > 0 && !is_ws(s[0]) {
        lemma_word_len_bound(s.drop_first());
    }
}

/// A run of `n` non-whitespace characters that ends `s` or stops at whitespace
/// is the first word of `s`.
pub proof fn lemma_word_len_run(s: Seq<char>, n: int)
    requires
        0 <= n <= s.len(),
        forall|k: int| 0 <= k < n ==> !is_ws(#[trigger] s[k]),
        n == s.len() || is_ws(s[n]),
    ensures
        word_len(s) == n,
    decreases n,
{
    if n > 0 {
        let t = s.drop_first();
        assert forall|k: int| 0 <= k < n - 1 implies !is_ws(#[trigger] t[k]) by {
            assert(t[k] == s[k + 1]);
        }
        lemma_word_len_run(t, n - 1);
    }
}

/// A word with no whitespace splits into itself alone.
pub proof fn lemma_split_word(w: Seq<char>)
    requires
        w.len() > 0,
        no_ws(w),
    ensures
        split_ws(w) == seq![w],
{
    lemma_word_len_run(w, w.len() as int);
    assert(w.take(w.len() as int) =~= w);
    assert(split_ws(w.skip(w.len() as int)) == Seq::<Seq<char>>::empty()) by {
        assert(w.skip(w.len() as int).len() == 0);
    }
    assert(seq![w] + Seq::<Seq<char>>::empty() =~= seq![w]);
}

/// A word followed by whitespace and more text splits into the word and the
/// words of what follows.
pub proof fn lemma_split_word_then(w: Seq<char>, gap: Seq<char>, rest: Seq<char>)
    requires
        w.len() > 0,
        no_ws(w),
        gap.len() > 0,
        all_ws(gap),
    ensures
        split_ws(w + gap + rest) == seq![w] + split_ws(rest),
{
    let s = w + gap + rest;
    lemma_word_len_run(s, w.len() as int);
    assert(s.take(w.len() as int) =~= w);
    assert(s.skip(w.len() as int) =~= gap + rest);
    lemma_split_skips_ws(gap, rest);
}

/// Leading whitespace does not change the words.
pub proof fn lemma_split_skips_ws(gap: Seq<char>, rest: Seq<char>)
    requires
        all_ws(gap),
    ensures
        split_ws(gap + rest) == split_ws(rest),
    decreases gap.len(),
{
    if gap.len() > 0 {
        assert((gap + rest).drop_first() =~= gap.drop_first() + rest);
        lemma_split_skips_ws(gap.drop_first(), rest);
    } else {
        assert(gap + rest =~= rest);
    }
}

/// Text whose first and last characters are not whitespace is its own trim.
pub proof fn lemma_trim_keeps(s: Seq<char>)
    requires
        s.len() > 0 ==> !is_ws(s[0]) && !is_ws(s.last()),
    ensures
        trim(s) == s,
{
}

/// The trim of any text is empty, or starts and ends with non-whitespace.
pub proof fn lemma_trim_edges(s: Seq<char>)
    ensures
        trim(s).len() > 0 ==> !is_ws(trim(s)[0]) && !is_ws(trim(s).last()),
        all_ws(s) <==> trim(s).len() == 0,
{
    lemma_trim_start_edges(s);
    lemma_trim_end_edges(trim_start(s));
    lemma_trim_end_prefix(trim_start(s));
}

pub proof fn lemma_trim_start_edges(s: Seq<char>)
    ensures
        trim_start(s).len() > 0 ==> !is_ws(trim_start(s)[0]),
        all_ws(s) <==> trim_start(s).len() == 0,
        all_ws(s) ==> trim_start(s) == Seq::<char>::empty(),
    decreases s.len(),
{
    if s.len() > 0 && is_ws(s[0]) {
        lemma_trim_start_edges(s.drop_first());
        if all_ws(s.drop_first()) {
            assert forall|i: int| 0 <= i < s.len() implies is_ws(#[trigger] s[i]) by {
                if i > 0 {
                    assert(s[i] == s.drop_first()[i - 1]);
                }
            }
        }
        if all_ws(s) {
            assert forall|i: int| 0 <= i < s.drop_first().len() implies is_ws(
                #[trigger] s.drop_first()[i],
            ) by {
                assert(s.drop_first()[i] == s[i + 1]);
            }
        }
    } else if s.len() > 0 {
        assert(!is_ws(s[0]));
    }
}

proof fn lemma_trim_end_edges(s: Seq<char>)
    ensures
        trim_end(s).len() > 0 ==> !is_ws(trim_end(s).last()),
        trim_end(s).len() <= s.len(),
    decreases s.len(),
{
    if s.len() > 0 && is_ws(s.last()) {
        lemma_trim_end_edges(s.drop_last());
    }
}

/// `trim_end` keeps a prefix of its argument.
proof fn lemma_trim_end_prefix(s: Seq<char>)
    ensures
        trim_end(s).len() <= s.len(),
        trim_end(s) =~= s.take(trim_end(s).len() as int),
        s.len() > 0 && !is_ws(s[0]) ==> trim_end(s).len() > 0,
    decreases s.len(),
{
    if s.len() > 0 && is_ws(s.last()) {
        lemma_trim_end_prefix(s.drop_last());
        let t = trim_end(s.drop_last());
        assert(s.drop_last().take(t.len() as int) =~= s.take(t.len() as int));
        if s.len() > 0 && !is_ws(s[0]) {
            assert(s.drop_last().len() > 0 ==> s.drop_last()[0] == s[0]);
        }
    }
}

pub fn is_whitespace(c: char) -> (r: bool)
    ensures
        r == is_ws(c),
{
    let u = c as u32;
    (0x09 <= u && u <= 0x0d) || u == 0x20 || u == 0x85 || u == 0xa0 || u == 0x1680 || (0x2000 <= u
        && u <= 0x200a) || u == 0x2028 || u == 0x2029 || u == 0x202f || u == 0x205f || u == 0x3000
}

pub fn is_layout_char(c: char) -> (r: bool)
    ensures
        r == is_layout(c),
{
    c == '\n' || c == '\r' || c == '\t'
}

/// Bounds of the trimmed part of `s[lo..hi]`.
pub fn trim_range(s: &[char], lo: usize, hi: usize) -> (r: (usize, usize))
    requires
        lo <= hi <= s@.len(),
    ensures
        lo <= r.0 <= r.1 <= hi,
        s@.subrange(r.0 as int, r.1 as int) == trim(s@.subrange(lo as int, hi as int)),
{
    let mut a: usize = lo;
    while a < hi && is_whitespace(s[a])
        invariant
            lo <= a <= hi <= s@.len(),
            trim_start(s@.subrange(lo as int, hi as int)) == trim_start(
                s@.subrange(a as int, hi as int),
            ),
        decreases hi - a,
    {
        assert(s@.subrange(a as int, hi as int).drop_first() =~= s@.subrange(
            a as int + 1,
            hi as int,
        ));
        a = a + 1;
    }
    assert(trim_start(s@.subrange(lo as int, hi as int)) == s@.subrange(a as int, hi as int));
    let mut b: usize = hi;
    while b > a && is_whitespace(s[b - 1])
        invariant
            lo <= a <= b <= hi <= s@.len(),
            trim_end(s@.subrange(a as int, hi as int)) == trim_end(
                s@.subrange(a as int, b as int),
            ),
        decreases b - a,
    {
        assert(s@.subrange(a as int, b as int).drop_last() =~= s@.subrange(
            a as int,
            b as int - 1,
        ));
        b = b - 1;
    }
    (a, b)
}

/// Relies on `String::push`: the character is appended at the end.
#[verifier::external_body]
pub(crate) fn push_char(s: &mut String, c: char)
    ensures
        final(s)@ == old(s)@.push(c),
{
    s.push(c);
}

/// The characters `s[lo..hi]` as a string.
pub fn string_of(s: &[char], lo: usize, hi: usize) -> (r: String)
    requires
        lo <= hi <= s@.len(),
    ensures
        r@ == s@.subrange(lo as int, hi as int),
{
    let mut r = String::new();
    let mut i: usize = lo;
    while i < hi
        invariant
            lo <= i <= hi <= s@.len(),
            r@ == s@.subrange(lo as int, i as int),
        decreases hi - i,
    {
        push_char(&mut r, s[i]);
        assert(s@.subrange(lo as int, i as int + 1) =~= s@.subrange(lo as int, i as int).push(
            s@[i as int],
        ));
        i = i + 1;
    }
    r
}

/// The characters of `s`.
pub fn chars_of(s: &str) -> (r: Vec<char>)
    ensures
        r@ == s@,
{
    let mut r: Vec<char> = Vec::new();
    for c in it: s.chars()
        invariant
            r@ == it.seq().take(it.index() as int),
    {
        r.push(c);
    }
    assert(r@ =~= s@);
    r
}

/// The words of `s[lo..hi]`, as `split_ws` gives them.
pub fn split_whitespace(s: &[char], lo: usize, hi: usize) -> (r: Vec<Vec<char>>)
    requires
        lo <= hi <= s@.len(),
    ensures
        r.deep_view() == split_ws(s@.subrange(lo as int, hi as int)),
{
    let mut toks: Vec<Vec<char>> = Vec::new();
    let mut i: usize = lo;
    while i < hi
        invariant
            lo <= i <= hi <= s@.len(),
            toks.deep_view() + split_ws(s@.subrange(i as int, hi as int)) == split_ws(
                s@.subrange(lo as int, hi as int),
            ),
        decreases hi - i,
    {
        let ghost rest = s@.subrange(i as int, hi as int);
        if is_whitespace(s[i]) {
            assert(rest.drop_first() =~= s@.subrange(i as int + 1, hi as int));
            i = i + 1;
        } else {
            let mut word: Vec<char> = Vec::new();
            let mut j: usize = i;
            while j < hi && !is_whitespace(s[j])
                invariant
                    i <= j <= hi <= s@.len(),
                    word@ == s@.subrange(i as int, j as int),
                    forall|k: int| i <= k < j ==> !is_ws(#[trigger] s@[k]),
                decreases hi - j,
            {
                word.push(s[j]);
                j = j + 1;
                assert(word@ =~= s@.subrange(i as int, j as int));
            }
            proof {
                assert forall|k: int| 0 <= k < j - i implies !is_ws(#[trigger] rest[k]) by {
                    assert(rest[k] == s@[i + k]);
                }
                lemma_word_len_run(rest, j - i);
                assert(rest.take(j - i) =~= word@);
                assert(rest.skip(j - i) =~= s@.subrange(j as int, hi as int));
            }
            let ghost before = toks.deep_view();
            assert(word.deep_view() =~= word@);
            toks.push(word);
            assert(toks.deep_view() =~= before.push(word@));
            assert(before.push(word@) + split_ws(s@.subrange(j as int, hi as int)) =~= before + (
            seq![word@] + split_ws(s@.subrange(j as int, hi as int))));
            i = j;
        }
    }
    assert(s@.subrange(hi as int, hi as int).len() == 0);
    assert(toks.deep_view() + Seq::<Seq<char>>::empty() =~= toks.deep_view());
    toks
}

} // verus!
