//! Inline Markdown: emphasis, links, wikilinks, embeds, code, math, tags and
//! footnote references.  Malformed markup stays text.
//!
//! The parser works on a region `a..b` of the source's characters; every span
//! it reports is a byte offset into the whole source.
use vstd::prelude::*;
use crate::text::{
    byte_at, find_after, is_ascii_ws, is_ascii_whitespace, is_whitespace, is_ws, lemma_find_after,
    lemma_run_end, lemma_skip_ws, match_at, next_ws, next_ws_exec, run_end, run_end_exec,
    string_of, trim_ws, trimmed, window_find, window_match, index_of, index_of_in, lemma_index_of, };
use super::{Inline, Span};

verus! {

/// An inline node with its text as characters and its span as byte offsets.
pub enum InlineView {
    Text { value: Seq<char>, start: int, end: int },
    Emphasis { children: Seq<InlineView>, start: int, end: int },
    Strong { children: Seq<InlineView>, start: int, end: int },
    Code { value: Seq<char>, start: int, end: int },
    Link { label: Seq<char>, target: Seq<char>, start: int, end: int },
    WikiLink {
        target: Seq<char>,
        alias: Option<Seq<char>>,
        heading: Option<Seq<char>>,
        block: Option<Seq<char>>,
        start: int,
        end: int,
    },
    Embed { target: Seq<char>, alias: Option<Seq<char>>, start: int, end: int },
    Tag { value: Seq<char>, start: int, end: int },
    Highlight { children: Seq<InlineView>, start: int, end: int },
    Math { value: Seq<char>, display: bool, start: int, end: int },
    FootnoteRef { label: Seq<char>, start: int, end: int },
}

pub open spec fn opt_text(o: Option<String>) -> Option<Seq<char>> {
    match o {
        Some(s) => Some(s@),
        None => None,
    }
}

/// The view of an inline node.
pub open spec fn iview(x: Inline) -> InlineView
    decreases x,
{
    match x {
        Inline::Text { value, span } => InlineView::Text { value: value@, start: span.start as int, end: span.end as int },
        Inline::Emphasis { children, span } => InlineView::Emphasis {
            children: iviews(children@),
            start: span.start as int,
            end: span.end as int,
        },
        Inline::Strong { children, span } => InlineView::Strong {
            children: iviews(children@),
            start: span.start as int,
            end: span.end as int,
        },
        Inline::Code { value, span } => InlineView::Code { value: value@, start: span.start as int, end: span.end as int },
        Inline::Link { label, target, span } => InlineView::Link {
            label: label@,
            target: target@,
            start: span.start as int,
            end: span.end as int,
        },
        Inline::WikiLink { target, alias, heading, block, span } => InlineView::WikiLink {
            target: target@,
            alias: opt_text(alias),
            heading: opt_text(heading),
            block: opt_text(block),
            start: span.start as int,
            end: span.end as int,
        },
        Inline::Embed { target, alias, span } => InlineView::Embed {
            target: target@,
            alias: opt_text(alias),
            start: span.start as int,
            end: span.end as int,
        },
        Inline::Tag { value, span } => InlineView::Tag { value: value@, start: span.start as int, end: span.end as int },
        Inline::Highlight { children, span } => InlineView::Highlight {
            children: iviews(children@),
            start: span.start as int,
            end: span.end as int,
        },
        Inline::Math { value, display, span } => InlineView::Math {
            value: value@,
            display,
            start: span.start as int,
            end: span.end as int,
        },
        Inline::FootnoteRef { label, span } => InlineView::FootnoteRef {
            label: label@,
            start: span.start as int,
            end: span.end as int,
        },
    }
}

/// The views of a sequence of inline nodes.
pub open spec fn iviews(v: Seq<Inline>) -> Seq<InlineView>
    decreases v,
{
    if v.len() == 0 {
        Seq::empty()
    } else {
        seq![iview(v[0])] + iviews(v.drop_first())
    }
}

pub proof fn lemma_iviews_push(v: Seq<Inline>, x: Inline)
    ensures
        iviews(v.push(x)) == iviews(v).push(iview(x)),
    decreases v.len(),
{
    if v.len() == 0 {
        assert(v.push(x).drop_first() =~= Seq::<Inline>::empty());
        assert(iviews(v.push(x).drop_first()) =~= Seq::<InlineView>::empty());
        assert(v.push(x)[0] == x);
        assert(iviews(v.push(x)) =~= seq![iview(x)]);
        assert(iviews(v) =~= Seq::<InlineView>::empty());
    } else {
        assert(v.push(x).drop_first() =~= v.drop_first().push(x));
        lemma_iviews_push(v.drop_first(), x);
        assert(iviews(v.push(x)) =~= iviews(v).push(iview(x)));
    }
}

pub proof fn lemma_iviews_concat(v: Seq<Inline>, w: Seq<Inline>)
    ensures
        iviews(v + w) == iviews(v) + iviews(w),
    decreases v.len(),
{
    if v.len() == 0 {
        assert(v + w =~= w);
        assert(iviews(v) =~= Seq::<InlineView>::empty());
        assert(iviews(v) + iviews(w) =~= iviews(w));
    } else {
        assert((v + w).drop_first() =~= v.drop_first() + w);
        lemma_iviews_concat(v.drop_first(), w);
        assert(iviews(v + w) =~= iviews(v) + iviews(w));
    }
}

pub fn copy_text(o: &Option<String>) -> (r: Option<String>)
    ensures
        opt_text(r) == opt_text(*o),
{
    match o {
        Some(t) => Some(t.clone()),
        None => None,
    }
}

/// A deep copy of an inline node.
pub fn clone_inline(x: &Inline) -> (r: Inline)
    ensures
        iview(r) == iview(*x),
    decreases x,
{
    match x {
        Inline::Text { value, span } => Inline::Text { value: value.clone(), span: *span },
        Inline::Emphasis { children, span } => Inline::Emphasis { children: clone_inlines(children), span: *span },
        Inline::Strong { children, span } => Inline::Strong { children: clone_inlines(children), span: *span },
        Inline::Code { value, span } => Inline::Code { value: value.clone(), span: *span },
        Inline::Link { label, target, span } => Inline::Link { label: label.clone(), target: target.clone(), span: *span },
        Inline::WikiLink { target, alias, heading, block, span } => Inline::WikiLink {
            target: target.clone(),
            alias: copy_text(alias),
            heading: copy_text(heading),
            block: copy_text(block),
            span: *span,
        },
        Inline::Embed { target, alias, span } => Inline::Embed { target: target.clone(), alias: copy_text(alias), span: *span },
        Inline::Tag { value, span } => Inline::Tag { value: value.clone(), span: *span },
        Inline::Highlight { children, span } => Inline::Highlight { children: clone_inlines(children), span: *span },
        Inline::Math { value, display, span } => Inline::Math { value: value.clone(), display: *display, span: *span },
        Inline::FootnoteRef { label, span } => Inline::FootnoteRef { label: label.clone(), span: *span },
    }
}

/// A deep copy of a sequence of inline nodes.
pub fn clone_inlines(v: &Vec<Inline>) -> (r: Vec<Inline>)
    ensures
        iviews(r@) == iviews(v@),
    decreases v,
{
    let mut r: Vec<Inline> = Vec::new();
    let mut k: usize = 0;
    while k < v.len()
        invariant
            k <= v@.len(),
            iviews(r@) == iviews(v@.take(k as int)),
        decreases v@.len() - k,
    {
        proof {
            assert(decreases_to!(v => v@[k as int]));
        }
        let c = clone_inline(&v[k]);
        proof {
            lemma_iviews_push(r@, c);
            lemma_iviews_push(v@.take(k as int), v@[k as int]);
            assert(v@.take(k as int).push(v@[k as int]) =~= v@.take(k + 1));
        }
        r.push(c);
        k = k + 1;
    }
    proof {
        assert(v@.take(v@.len() as int) =~= v@);
    }
    r
}

impl Clone for Inline {
    fn clone(&self) -> (r: Self)
        ensures
            iview(r) == iview(*self),
    {
        clone_inline(self)
    }
}

/// The characters that may begin an inline construct.
pub open spec fn is_special(c: char) -> bool {
    c == '[' || c == '!' || c == '`' || c == '#' || c == '~' || c == '$' || c == '<' || c == '*' || c == '_'
}

/// The first index in `i..b` holding a special character, or `b`.
pub open spec fn next_special(s: Seq<char>, i: int, b: int) -> int
    decreases b - i,
{
    if i < b && !is_special(s[i]) {
        next_special(s, i + 1, b)
    } else {
        i
    }
}

pub proof fn lemma_next_special(s: Seq<char>, i: int, b: int)
    requires
        i <= b,
    ensures
        i <= next_special(s, i, b) <= b,
        next_special(s, i, b) < b ==> is_special(s[next_special(s, i, b)]),
    decreases b - i,
{
    if i < b && !is_special(s[i]) {
        lemma_next_special(s, i + 1, b);
    }
}

/// The number of backslashes directly before `at`, within the region starting at `a`.
pub open spec fn slashes_before(s: Seq<char>, a: int, at: int) -> nat
    decreases at - a,
{
    if at > a && s[at - 1] == '\\' {
        1 + slashes_before(s, a, at - 1)
    } else {
        0
    }
}

/// Whether the character at `at` is escaped by an odd run of backslashes.
pub open spec fn escaped(s: Seq<char>, a: int, at: int) -> bool {
    slashes_before(s, a, at) % 2 == 1
}

/// Whether `pat` occurs at `k` and ends by `b`.
pub open spec fn at_is(s: Seq<char>, b: int, k: int, pat: Seq<char>) -> bool {
    match_at(s.take(b), k, pat)
}

/// The first occurrence of `pat` at or after `from` that ends by `b`.
pub open spec fn find_in(s: Seq<char>, b: int, from: int, pat: Seq<char>) -> Option<int> {
    find_after(s.take(b), from, pat)
}

pub proof fn lemma_find_in(s: Seq<char>, b: int, from: int, pat: Seq<char>)
    requires
        0 <= from <= b <= s.len(),
    ensures
        find_in(s, b, from, pat) matches Some(k) ==> from <= k && k + pat.len() <= b && at_is(s, b, k, pat)
            && forall|t: int| from <= t < k ==> !#[trigger] at_is(s, b, t, pat),
        find_in(s, b, from, pat) is None ==> forall|t: int| from <= t ==> !#[trigger] at_is(s, b, t, pat),
{
    lemma_find_after(s.take(b), from, pat);
}

/// `char::is_alphanumeric`: whether the character is alphabetic or numeric in Unicode.
pub uninterp spec fn is_alnum(c: char) -> bool;

/// `char::is_alphanumeric`, which holds of the Unicode Alphabetic and Numeric characters.
#[verifier::external_body]
pub fn char_is_alphanumeric(c: char) -> (r: bool)
    ensures
        r == is_alnum(c),
{
    c.is_alphanumeric()
}

/// Whether an alphanumeric character touches a marker of width `w` at `at`.
pub open spec fn adjacent(s: Seq<char>, a: int, b: int, at: int, w: int) -> bool {
    (at > a && is_alnum(s[at - 1])) || (at + w < b && is_alnum(s[at + w]))
}

/// The delimiter markers, tried in this order: `**`, `__`, `*`, `_`.
pub open spec fn marker(m: int) -> Seq<char> {
    if m == 0 {
        seq!['*', '*']
    } else if m == 1 {
        seq!['_', '_']
    } else if m == 2 {
        seq!['*']
    } else {
        seq!['_']
    }
}

/// The first unescaped closing marker at or after `at`; a run of three or
/// more characters closes a two-character marker with its last two.
pub open spec fn closing(s: Seq<char>, a: int, b: int, at: int, m: Seq<char>) -> Option<int>
    decreases b + 1 - at,
{
    if at < 0 || at > b || b > s.len() || m.len() == 0 {
        None
    } else {
        proof {
            lemma_find_in(s, b, at, m);
        }
        match find_in(s, b, at, m) {
            None => None,
            Some(c) => if !escaped(s, a, c) {
                Some(if m.len() == 2 { run_end(s, b, m[0], c + 2) - 2 } else { c })
            } else {
                closing(s, a, b, c + m.len(), m)
            },
        }
    }
}

pub proof fn lemma_closing(s: Seq<char>, a: int, b: int, at: int, m: Seq<char>)
    requires
        0 <= at <= b <= s.len(),
        1 <= m.len() <= 2,
    ensures
        closing(s, a, b, at, m) matches Some(c) ==> at <= c && c + m.len() <= b,
    decreases b + 1 - at,
{
    lemma_find_in(s, b, at, m);
    if let Some(c) = find_in(s, b, at, m) {
        if !escaped(s, a, c) {
            if m.len() == 2 {
                lemma_run_end(s, b, m[0], c + 2);
            }
        } else {
            lemma_closing(s, a, b, c + m.len(), m);
        }
    }
}

/// Whether the delimiter `marker(m)` may open at `p`.
pub open spec fn delim_ok(s: Seq<char>, a: int, b: int, p: int, m: int) -> bool {
    let mk = marker(m);
    &&& at_is(s, b, p, mk)
    &&& !escaped(s, a, p)
    &&& !(mk.len() == 1 && p + 1 < b && s[p + 1] == mk[0])
    &&& (mk.len() == 2 || m == 2 || !adjacent(s, a, b, p, 1))
}

/// The first delimiter, from `marker(m)` on, that opens at `p` and encloses
/// some text, with the index of its closing marker.
pub open spec fn delim_try(s: Seq<char>, a: int, b: int, p: int, m: int) -> Option<(int, int)>
    decreases 4 - m,
{
    if m < 0 || m >= 4 {
        None
    } else if delim_ok(s, a, b, p, m) && closing(s, a, b, p + marker(m).len(), marker(m)) is Some && closing(
        s,
        a,
        b,
        p + marker(m).len(),
        marker(m),
    )->0 > p + marker(m).len() {
        Some((m, closing(s, a, b, p + marker(m).len(), marker(m))->0))
    } else {
        delim_try(s, a, b, p, m + 1)
    }
}

pub proof fn lemma_delim_try(s: Seq<char>, a: int, b: int, p: int, m: int)
    requires
        0 <= a <= p < b <= s.len(),
        0 <= m,
    ensures
        delim_try(s, a, b, p, m) matches Some((k, c)) ==> 0 <= k < 4 && p + marker(k).len() < c && c
            + marker(k).len() <= b,
    decreases 4 - m,
{
    if m < 4 {
        if delim_ok(s, a, b, p, m) {
            lemma_find_in(s, b, p, marker(m));
            lemma_closing(s, a, b, p + marker(m).len(), marker(m));
        }
        lemma_delim_try(s, a, b, p, m + 1);
    }
}

/// The target and the optional alias after the first `|`.
pub open spec fn split_target(x: Seq<char>) -> (Seq<char>, Option<Seq<char>>) {
    match index_of(x, '|') {
        Some(k) => (x.take(k), Some(x.skip(k + 1))),
        None => (x, None),
    }
}

/// A wikilink target split into page, heading (after `#`) and block (after `^`).
pub open spec fn split_wiki_target(x: Seq<char>) -> (Seq<char>, Option<Seq<char>>, Option<Seq<char>>) {
    let (wb, block) = match index_of(x, '^') {
        Some(k) => (x.take(k), Some(x.skip(k + 1))),
        None => (x, None),
    };
    match index_of(wb, '#') {
        Some(k) => (wb.take(k), Some(wb.skip(k + 1)), block),
        None => (wb, None, block),
    }
}

/// A link's inner text splits at its first `|`: the target before it and the
/// alias after it; without a `|` the whole text is the target and there is no alias.
pub proof fn lemma_split_target(x: Seq<char>, k: int)
    ensures
        (forall|i: int| 0 <= i < x.len() ==> x[i] != '|') ==> split_target(x) == (x, None::<Seq<char>>),
        (0 <= k < x.len() && x[k] == '|' && forall|i: int| 0 <= i < k ==> x[i] != '|') ==> split_target(x) == (
            x.take(k),
            Some(x.skip(k + 1)),
        ),
{
    lemma_index_of(x, '|');
    if let Some(j) = index_of(x, '|') {
        if 0 <= k < x.len() && x[k] == '|' && forall|i: int| 0 <= i < k ==> x[i] != '|' {
            if j < k {
                assert(x[j] == '|');
            } else if k < j {
                assert(x[k] == '|');
            }
        }
    }
}

/// How a wikilink target splits: the block is what follows the first `^`
/// (there is none without a `^`); the heading is what follows the first `#`
/// standing before any `^`, up to that `^` (there is none without such a `#`);
/// the page is what precedes both.
pub proof fn lemma_split_wiki_target(x: Seq<char>, h: int, b: int)
    ensures
        (forall|i: int| 0 <= i < x.len() ==> x[i] != '^') ==> split_wiki_target(x).2 is None,
        (0 <= b < x.len() && x[b] == '^' && forall|i: int| 0 <= i < b ==> x[i] != '^') ==> split_wiki_target(x).2 == Some(
            x.skip(b + 1),
        ),
        (0 <= h < x.len() && x[h] == '#' && (forall|i: int| 0 <= i < h ==> x[i] != '#') && (forall|i: int|
            0 <= i < x.len() ==> x[i] != '^')) ==> split_wiki_target(x).0 == x.take(h) && split_wiki_target(x).1 == Some(
            x.skip(h + 1),
        ),
        (0 <= h < b < x.len() && x[h] == '#' && x[b] == '^' && (forall|i: int| 0 <= i < h ==> x[i] != '#') && (forall|i: int|
            0 <= i < b ==> x[i] != '^')) ==> split_wiki_target(x).0 == x.take(h) && split_wiki_target(x).1 == Some(
            x.subrange(h + 1, b),
        ),
        (forall|i: int| 0 <= i < x.len() ==> x[i] != '^' && x[i] != '#') ==> split_wiki_target(x) == (x, None::<Seq<char>>, None::<
            Seq<char>,
        >),
        (0 <= b < x.len() && x[b] == '^' && forall|i: int| 0 <= i < b ==> x[i] != '^' && x[i] != '#') ==> split_wiki_target(x).0
            == x.take(b) && split_wiki_target(x).1 is None,
{
    lemma_index_of(x, '^');
    let wb = match index_of(x, '^') {
        Some(k) => x.take(k),
        None => x,
    };
    lemma_index_of(wb, '#');
    if let Some(k) = index_of(x, '^') {
        if 0 <= b < x.len() && x[b] == '^' && forall|i: int| 0 <= i < b ==> x[i] != '^' {
            if k < b {
                assert(x[k] == '^');
            } else if b < k {
                assert(x[b] == '^');
            }
        }
        if 0 <= h < b < x.len() && x[h] == '#' && x[b] == '^' && (forall|i: int| 0 <= i < h ==> x[i] != '#') && (forall|i: int|
            0 <= i < b ==> x[i] != '^') {
            assert(k == b) by {
                if k < b {
                    assert(x[k] == '^');
                } else if b < k {
                    assert(x[b] == '^');
                }
            }
            assert(wb[h] == '#');
            if let Some(j) = index_of(wb, '#') {
                if j < h {
                    assert(wb[j] == x[j]);
                } else if h < j {
                    assert(wb[h] == '#');
                }
            }
            assert(wb.skip(h + 1) =~= x.subrange(h + 1, b));
            assert(wb.take(h) =~= x.take(h));
        }
        if 0 <= b < x.len() && x[b] == '^' && forall|i: int| 0 <= i < b ==> x[i] != '^' && x[i] != '#' {
            assert(k == b) by {
                if k < b {
                    assert(x[k] == '^');
                } else if b < k {
                    assert(x[b] == '^');
                }
            }
            if let Some(j) = index_of(wb, '#') {
                assert(wb[j] == x[j]);
            }
        }
    } else {
        if 0 <= h < x.len() && x[h] == '#' && (forall|i: int| 0 <= i < h ==> x[i] != '#') {
            if let Some(j) = index_of(wb, '#') {
                if j < h {
                    assert(wb[j] == x[j]);
                } else if h < j {
                    assert(wb[h] == '#');
                }
            }
        }
        if 0 <= b < x.len() && x[b] == '^' {
            assert(x[b] != '^');
        }
    }
}

/// A tag: non-empty, of alphanumeric characters and `_`, `-`, `/`.
pub open spec fn valid_tag(t: Seq<char>) -> bool {
    t.len() > 0 && forall|k: int| 0 <= k < t.len() ==> is_alnum(#[trigger] t[k]) || t[k] == '_' || t[k] == '-' || t[k] == '/'
}

/// A footnote label: non-empty, without whitespace or `]`.
pub open spec fn valid_label(t: Seq<char>) -> bool {
    t.len() > 0 && forall|k: int| 0 <= k < t.len() ==> !is_ws(#[trigger] t[k]) && t[k] != ']'
}

/// A link's label and target: both non-empty, the target on one line.
pub open spec fn valid_link(label: Seq<char>, target: Seq<char>) -> bool {
    label.len() > 0 && target.len() > 0 && forall|k: int| 0 <= k < target.len() ==> #[trigger] target[k] != '\n' && target[k]
        != '\r'
}

/// The first of two alternatives that applies.
pub open spec fn first_of<T>(x: Option<T>, y: Option<T>) -> Option<T> {
    match x {
        Some(v) => Some(v),
        None => y,
    }
}

/// An embed `![[target|alias]]` at `p`; a blank target yields no node.
pub open spec fn embed_c(s: Seq<char>, b: int, p: int) -> Option<(Option<InlineView>, int)> {
    if at_is(s, b, p, seq!['!', '[', '[']) && find_in(s, b, p + 3, seq![']', ']']) is Some {
        let e = find_in(s, b, p + 3, seq![']', ']'])->0;
        let (target, alias) = split_target(s.subrange(p + 3, e));
        let node = if trim_ws(target).len() > 0 {
            Some(InlineView::Embed { target, alias, start: byte_at(s, p), end: byte_at(s, e + 2) })
        } else {
            None
        };
        Some((node, e + 2))
    } else {
        None
    }
}

/// A wikilink `[[target#heading^block|alias]]` at `p`.
pub open spec fn wiki_c(s: Seq<char>, b: int, p: int) -> Option<(Option<InlineView>, int)> {
    if at_is(s, b, p, seq!['[', '[']) && find_in(s, b, p + 2, seq![']', ']']) is Some {
        let e = find_in(s, b, p + 2, seq![']', ']'])->0;
        let (t0, alias) = split_target(s.subrange(p + 2, e));
        let (target, heading, block) = split_wiki_target(t0);
        Some((Some(InlineView::WikiLink { target, alias, heading, block, start: byte_at(s, p), end: byte_at(s, e + 2) }), e + 2))
    } else {
        None
    }
}

/// Inline code between backticks at `p`.
pub open spec fn code_c(s: Seq<char>, b: int, p: int) -> Option<(Option<InlineView>, int)> {
    if s[p] == '`' && find_in(s, b, p + 1, seq!['`']) is Some {
        let e = find_in(s, b, p + 1, seq!['`'])->0;
        Some((Some(InlineView::Code { value: s.subrange(p + 1, e), start: byte_at(s, p), end: byte_at(s, e + 1) }), e + 1))
    } else {
        None
    }
}

/// A highlight `==text==` at `p`.
pub open spec fn highlight_c(s: Seq<char>, b: int, p: int) -> Option<(Option<InlineView>, int)> {
    if at_is(s, b, p, seq!['=', '=']) && find_in(s, b, p + 2, seq!['=', '=']) is Some {
        let e = find_in(s, b, p + 2, seq!['=', '='])->0;
        Some((
            Some(InlineView::Highlight {
                children: seq![InlineView::Text { value: s.subrange(p + 2, e), start: byte_at(s, p + 2), end: byte_at(s, e) }],
                start: byte_at(s, p),
                end: byte_at(s, e + 2),
            }),
            e + 2,
        ))
    } else {
        None
    }
}

/// Math between `$` or, for display math, `$$` at `p`.
pub open spec fn math_c(s: Seq<char>, b: int, p: int) -> Option<(Option<InlineView>, int)> {
    let q = math_q(s, b, p);
    if s[p] == '$' && find_in(s, b, p + q.len(), q) is Some {
        let e = find_in(s, b, p + q.len(), q)->0;
        Some((
            Some(InlineView::Math {
                value: s.subrange(p + q.len(), e),
                display: q.len() == 2,
                start: byte_at(s, p),
                end: byte_at(s, e + q.len()),
            }),
            e + q.len(),
        ))
    } else {
        None
    }
}

/// A footnote reference `[^label]` at `p`.
pub open spec fn fnote_c(s: Seq<char>, b: int, p: int) -> Option<(Option<InlineView>, int)> {
    if at_is(s, b, p, seq!['[', '^']) && find_in(s, b, p, seq![']']) is Some && valid_label(
        s.subrange(p + 2, find_in(s, b, p, seq![']'])->0),
    ) {
        let e = find_in(s, b, p, seq![']'])->0;
        Some((Some(InlineView::FootnoteRef { label: s.subrange(p + 2, e), start: byte_at(s, p), end: byte_at(s, e + 1) }), e + 1))
    } else {
        None
    }
}

/// A link `[label](target)` at `p`.
pub open spec fn link_c(s: Seq<char>, b: int, p: int) -> Option<(Option<InlineView>, int)> {
    if s[p] == '[' && link_at(s, b, p) is Some {
        let (mid, e) = link_at(s, b, p)->0;
        Some((
            Some(InlineView::Link {
                label: s.subrange(p + 1, mid),
                target: s.subrange(mid + 2, e),
                start: byte_at(s, p),
                end: byte_at(s, e + 1),
            }),
            e + 1,
        ))
    } else {
        None
    }
}

/// A tag `#name` at `p`, at the start of the region or after ASCII whitespace.
pub open spec fn tag_c(s: Seq<char>, a: int, b: int, p: int) -> Option<(Option<InlineView>, int)> {
    if s[p] == '#' && (p == a || is_ascii_ws(s[p - 1])) && next_ws(s, p, b) > p + 1 && valid_tag(
        s.subrange(p + 1, next_ws(s, p, b)),
    ) {
        let e = next_ws(s, p, b);
        Some((Some(InlineView::Tag { value: s.subrange(p + 1, e), start: byte_at(s, p), end: byte_at(s, e) }), e))
    } else {
        None
    }
}

/// The non-delimiter construct at `p`, if one applies: the node it yields
/// (an embed with a blank target yields none) and where scanning resumes.
pub open spec fn construct(s: Seq<char>, a: int, b: int, p: int) -> Option<(Option<InlineView>, int)> {
    first_of(
        embed_c(s, b, p),
        first_of(
            wiki_c(s, b, p),
            first_of(
                code_c(s, b, p),
                first_of(
                    highlight_c(s, b, p),
                    first_of(math_c(s, b, p), first_of(fnote_c(s, b, p), first_of(link_c(s, b, p), tag_c(s, a, b, p)))),
                ),
            ),
        ),
    )
}

/// The math delimiter at `p`: `$$` for display math, otherwise `$`.
pub open spec fn math_q(s: Seq<char>, b: int, p: int) -> Seq<char> {
    if at_is(s, b, p, seq!['$', '$']) {
        seq!['$', '$']
    } else {
        seq!['$']
    }
}

/// A link `[label](target)` at `p`: the index of `](` and of `)`.
pub open spec fn link_at(s: Seq<char>, b: int, p: int) -> Option<(int, int)> {
    match find_in(s, b, p, seq![']', '(']) {
        Some(mid) => match find_in(s, b, mid + 2, seq![')']) {
            Some(e) => if mid >= p + 1 && valid_link(s.subrange(p + 1, mid), s.subrange(mid + 2, e)) {
                Some((mid, e))
            } else {
                None
            },
            None => None,
        },
        None => None,
    }
}

pub proof fn lemma_construct(s: Seq<char>, a: int, b: int, p: int)
    requires
        0 <= a <= p < b <= s.len(),
    ensures
        construct(s, a, b, p) matches Some((_, next)) ==> p < next <= b,
{
    lemma_find_in(s, b, p, seq![']']);
    lemma_find_in(s, b, p, seq![']', '(']);
    lemma_skip_ws(s, p, b);
    if at_is(s, b, p, seq!['!', '[', '[']) {
        lemma_find_in(s, b, p + 3, seq![']', ']']);
    }
    if at_is(s, b, p, seq!['[', '[']) {
        lemma_find_in(s, b, p + 2, seq![']', ']']);
    }
    lemma_find_in(s, b, p + 1, seq!['`']);
    if at_is(s, b, p, seq!['=', '=']) {
        lemma_find_in(s, b, p + 2, seq!['=', '=']);
    }
    if at_is(s, b, p, seq!['$', '$']) {
        lemma_find_in(s, b, p + 2, seq!['$', '$']);
    }
    lemma_find_in(s, b, p + 1, seq!['$']);
    if let Some(mid) = find_in(s, b, p, seq![']', '(']) {
        lemma_find_in(s, b, mid + 2, seq![')']);
    }
}

/// The result of the inline scanner: its nodes.
pub struct InlRes {
    pub nodes: Seq<InlineView>,
}

pub open spec fn text_node(s: Seq<char>, x: int, y: int) -> InlineView {
    InlineView::Text { value: s.subrange(x, y), start: byte_at(s, x), end: byte_at(s, y) }
}

/// The trailing text from `ts` to the end of the region.
pub open spec fn tail(s: Seq<char>, b: int, ts: int) -> InlRes {
    if ts < b {
        InlRes { nodes: seq![text_node(s, ts, b)] }
    } else {
        InlRes { nodes: Seq::empty() }
    }
}

/// The inline nodes of region `a..b`, scanning from `i` with pending text from `ts`.
pub open spec fn inl(s: Seq<char>, a: int, b: int, i: int, ts: int) -> InlRes
    decreases b - a, b - i,
{
    if !(0 <= a <= ts <= i && b <= s.len()) || i >= b {
        tail(s, b, ts)
    } else {
        proof {
            lemma_next_special(s, i, b);
        }
        let p = next_special(s, i, b);
        if p >= b {
            tail(s, b, ts)
        } else if escaped(s, a, p) && (s[p] == '*' || s[p] == '_') {
            inl(s, a, b, p + 1, ts)
        } else {
            let pre = if p > ts {
                seq![text_node(s, ts, p)]
            } else {
                Seq::empty()
            };
            proof {
                lemma_delim_try(s, a, b, p, 0);
                lemma_construct(s, a, b, p);
            }
            match delim_try(s, a, b, p, 0) {
                Some((m, c)) => {
                    let ml = marker(m).len() as int;
                    let inner = inl(s, p + ml, c, p + ml, p + ml);
                    let rest = inl(s, a, b, c + ml, c + ml);
                    let node = if m < 2 {
                        InlineView::Strong { children: inner.nodes, start: byte_at(s, p), end: byte_at(s, c + ml) }
                    } else {
                        InlineView::Emphasis { children: inner.nodes, start: byte_at(s, p), end: byte_at(s, c + ml) }
                    };
                    InlRes { nodes: pre.push(node) + rest.nodes }
                },
                None => match construct(s, a, b, p) {
                    Some((o, next)) => {
                        let rest = inl(s, a, b, next, next);
                        let here = match o {
                            Some(n) => pre.push(n),
                            None => pre,
                        };
                        InlRes { nodes: here + rest.nodes }
                    },
                    None => {
                        let w = if at_is(s, b, p, seq!['*', '*']) || at_is(s, b, p, seq!['_', '_']) {
                            2int
                        } else {
                            1int
                        };
                        let rest = inl(s, a, b, p + w, p);
                        InlRes { nodes: pre + rest.nodes }
                    },
                },
            }
        }
    }
}

/// The inline nodes of the source region `a..b`.
pub open spec fn inlines(s: Seq<char>, a: int, b: int) -> Seq<InlineView> {
    inl(s, a, b, a, a).nodes
}

} // verus!

verus! {

pub open spec fn opt_iview(o: Option<Inline>) -> Option<InlineView> {
    match o {
        Some(x) => Some(iview(x)),
        None => None,
    }
}

/// Whether `offs` holds the byte offset of every character boundary of `s`.
pub open spec fn offsets_of(offs: Seq<usize>, s: Seq<char>) -> bool {
    &&& offs.len() == s.len() + 1
    &&& forall|k: int| 0 <= k <= s.len() ==> #[trigger] offs[k] == byte_at(s, k)
}

/// The character patterns the inline scanner looks for.
pub struct Pats {
    pub embed: Vec<char>,
    pub wiki: Vec<char>,
    pub close2: Vec<char>,
    pub tick: Vec<char>,
    pub eq2: Vec<char>,
    pub dollar2: Vec<char>,
    pub dollar: Vec<char>,
    pub fnote: Vec<char>,
    pub rbracket: Vec<char>,
    pub mid: Vec<char>,
    pub rparen: Vec<char>,
    pub star2: Vec<char>,
    pub under2: Vec<char>,
    pub star: Vec<char>,
    pub under: Vec<char>,
}

impl Pats {
    pub open spec fn wf(&self) -> bool {
        &&& self.embed@ == seq!['!', '[', '[']
        &&& self.wiki@ == seq!['[', '[']
        &&& self.close2@ == seq![']', ']']
        &&& self.tick@ == seq!['`']
        &&& self.eq2@ == seq!['=', '=']
        &&& self.dollar2@ == seq!['$', '$']
        &&& self.dollar@ == seq!['$']
        &&& self.fnote@ == seq!['[', '^']
        &&& self.rbracket@ == seq![']']
        &&& self.mid@ == seq![']', '(']
        &&& self.rparen@ == seq![')']
        &&& self.star2@ == marker(0)
        &&& self.under2@ == marker(1)
        &&& self.star@ == marker(2)
        &&& self.under@ == marker(3)
    }
}

fn chars2(x: char, y: char) -> (r: Vec<char>)
    ensures
        r@ == seq![x, y],
{
    let mut r: Vec<char> = Vec::new();
    r.push(x);
    r.push(y);
    proof {
        assert(r@ =~= seq![x, y]);
    }
    r
}

fn chars1(x: char) -> (r: Vec<char>)
    ensures
        r@ == seq![x],
{
    let mut r: Vec<char> = Vec::new();
    r.push(x);
    proof {
        assert(r@ =~= seq![x]);
    }
    r
}

pub fn pats() -> (p: Pats)
    ensures
        p.wf(),
{
    let mut embed = chars2('!', '[');
    embed.push('[');
    proof {
        assert(embed@ =~= seq!['!', '[', '[']);
    }
    Pats {
        embed,
        wiki: chars2('[', '['),
        close2: chars2(']', ']'),
        tick: chars1('`'),
        eq2: chars2('=', '='),
        dollar2: chars2('$', '$'),
        dollar: chars1('$'),
        fnote: chars2('[', '^'),
        rbracket: chars1(']'),
        mid: chars2(']', '('),
        rparen: chars1(')'),
        star2: chars2('*', '*'),
        under2: chars2('_', '_'),
        star: chars1('*'),
        under: chars1('_'),
    }
}

fn is_special_exec(c: char) -> (r: bool)
    ensures
        r == is_special(c),
{
    c == '[' || c == '!' || c == '`' || c == '#' || c == '~' || c == '$' || c == '<' || c == '*' || c == '_'
}

fn next_special_exec(cs: &Vec<char>, i: usize, b: usize) -> (r: usize)
    requires
        i <= b <= cs@.len(),
    ensures
        r == next_special(cs@, i as int, b as int),
        i <= r <= b,
{
    let mut k = i;
    while k < b && !is_special_exec(cs[k])
        invariant
            i <= k <= b <= cs@.len(),
            next_special(cs@, k as int, b as int) == next_special(cs@, i as int, b as int),
        decreases b - k,
    {
        k = k + 1;
    }
    k
}

fn escaped_exec(cs: &Vec<char>, a: usize, at: usize) -> (r: bool)
    requires
        a <= at <= cs@.len(),
    ensures
        r == escaped(cs@, a as int, at as int),
{
    let mut k = at;
    let mut n: usize = 0;
    while k > a && cs[k - 1] == '\\'
        invariant
            a <= k <= at <= cs@.len(),
            n == at - k,
            slashes_before(cs@, a as int, at as int) == n + slashes_before(cs@, a as int, k as int),
        decreases k,
    {
        k = k - 1;
        n = n + 1;
    }
    n % 2 == 1
}

fn closing_exec(cs: &Vec<char>, a: usize, b: usize, at: usize, m: &Vec<char>) -> (r: Option<usize>)
    requires
        a <= at <= b <= cs@.len(),
        1 <= m@.len() <= 2,
    ensures
        r matches Some(c) ==> closing(cs@, a as int, b as int, at as int, m@) == Some(c as int),
        r is None ==> closing(cs@, a as int, b as int, at as int, m@) is None,
{
    let ghost s = cs@;
    let mut x = at;
    loop
        invariant
            a <= x <= b <= cs@.len(),
            cs@ == s,
            1 <= m@.len() <= 2,
            closing(s, a as int, b as int, x as int, m@) == closing(s, a as int, b as int, at as int, m@),
        decreases b + 1 - x,
    {
        let found = window_find(cs, b, x, m);
        proof {
            lemma_find_in(s, b as int, x as int, m@);
        }
        match found {
            None => {
                return None;
            },
            Some(c) => {
                if !escaped_exec(cs, a, c) {
                    if m.len() == 2 {
                        let e = run_end_exec(cs, b, m[0], c + 2);
                        return Some(e - 2);
                    } else {
                        return Some(c);
                    }
                }
                x = c + m.len();
            },
        }
    }
}

fn adjacent_exec(cs: &Vec<char>, a: usize, b: usize, at: usize) -> (r: bool)
    requires
        a <= at < b <= cs@.len(),
    ensures
        r == adjacent(cs@, a as int, b as int, at as int, 1),
{
    (at > a && char_is_alphanumeric(cs[at - 1])) || (at + 1 < b && char_is_alphanumeric(cs[at + 1]))
}

fn marker_pat(pt: &Pats, m: usize) -> (r: &Vec<char>)
    requires
        pt.wf(),
        m < 4,
    ensures
        r@ == marker(m as int),
{
    if m == 0 {
        &pt.star2
    } else if m == 1 {
        &pt.under2
    } else if m == 2 {
        &pt.star
    } else {
        &pt.under
    }
}

fn delim_exec(cs: &Vec<char>, pt: &Pats, a: usize, b: usize, p: usize) -> (r: Option<(usize, usize)>)
    requires
        a <= p < b <= cs@.len(),
        pt.wf(),
    ensures
        r matches Some((m, c)) ==> delim_try(cs@, a as int, b as int, p as int, 0) == Some((m as int, c as int)),
        r is None ==> delim_try(cs@, a as int, b as int, p as int, 0) is None,
{
    let ghost s = cs@;
    let mut m: usize = 0;
    while m < 4
        invariant
            m <= 4,
            a <= p < b <= cs@.len(),
            cs@ == s,
            pt.wf(),
            delim_try(s, a as int, b as int, p as int, m as int) == delim_try(s, a as int, b as int, p as int, 0),
        decreases 4 - m,
    {
        let mk = marker_pat(pt, m);
        let ml = mk.len();
        let ok = window_match(cs, b, p, mk) && !escaped_exec(cs, a, p) && !(ml == 1 && p + 1 < b && cs[p + 1] == mk[0]) && (
        ml == 2 || m == 2 || !adjacent_exec(cs, a, b, p));
        if ok {
            proof {
                lemma_find_in(s, b as int, p as int, mk@);
            }
            if let Some(c) = closing_exec(cs, a, b, p + ml, mk) {
                if c > p + ml {
                    return Some((m, c));
                }
            }
        }
        m = m + 1;
    }
    None
}

/// The text of characters `x..y` split at the first `|`.
fn split_target_exec(cs: &Vec<char>, x: usize, y: usize) -> (r: (String, Option<String>))
    requires
        x <= y <= cs@.len(),
    ensures
        (r.0@, opt_text(r.1)) == split_target(cs@.subrange(x as int, y as int)),
{
    let ghost t = cs@.subrange(x as int, y as int);
    match index_of_in(cs, x, y, '|') {
        Some(k) => {
            proof {
                assert(t.take(k - x) =~= cs@.subrange(x as int, k as int));
                assert(t.skip(k - x + 1) =~= cs@.subrange(k + 1, y as int));
            }
            (string_of(cs, x, k), Some(string_of(cs, k + 1, y)))
        },
        None => (string_of(cs, x, y), None),
    }
}

fn split_wiki_exec(t: &Vec<char>) -> (r: (String, Option<String>, Option<String>))
    ensures
        (r.0@, opt_text(r.1), opt_text(r.2)) == split_wiki_target(t@),
{
    let n = t.len();
    let (wb_end, block) = match index_of_in(t, 0, n, '^') {
        Some(k) => (k, Some(string_of(t, k + 1, n))),
        None => (n, None),
    };
    proof {
        assert(t@.subrange(0, n as int) =~= t@);
        if wb_end < n {
            assert(t@.take(wb_end as int) =~= t@.subrange(0, wb_end as int));
            assert(t@.skip(wb_end + 1) =~= t@.subrange(wb_end + 1, n as int));
        }
    }
    let ghost wb = t@.subrange(0, wb_end as int);
    match index_of_in(t, 0, wb_end, '#') {
        Some(k) => {
            proof {
                assert(wb.take(k as int) =~= t@.subrange(0, k as int));
                assert(wb.skip(k + 1) =~= t@.subrange(k + 1, wb_end as int));
            }
            (string_of(t, 0, k), Some(string_of(t, k + 1, wb_end)), block)
        },
        None => (string_of(t, 0, wb_end), None, block),
    }
}

fn valid_tag_exec(cs: &Vec<char>, x: usize, y: usize) -> (r: bool)
    requires
        x <= y <= cs@.len(),
    ensures
        r == valid_tag(cs@.subrange(x as int, y as int)),
{
    let ghost t = cs@.subrange(x as int, y as int);
    if x == y {
        return false;
    }
    let mut k = x;
    while k < y
        invariant
            x <= k <= y <= cs@.len(),
            t == cs@.subrange(x as int, y as int),
            forall|j: int| 0 <= j < k - x ==> is_alnum(#[trigger] t[j]) || t[j] == '_' || t[j] == '-' || t[j] == '/',
        decreases y - k,
    {
        let c = cs[k];
        if !(char_is_alphanumeric(c) || c == '_' || c == '-' || c == '/') {
            proof {
                assert(t[k - x] == c);
            }
            return false;
        }
        k = k + 1;
    }
    true
}

fn valid_label_exec(cs: &Vec<char>, x: usize, y: usize) -> (r: bool)
    requires
        x <= y <= cs@.len(),
    ensures
        r == valid_label(cs@.subrange(x as int, y as int)),
{
    let ghost t = cs@.subrange(x as int, y as int);
    if x == y {
        return false;
    }
    let mut k = x;
    while k < y
        invariant
            x <= k <= y <= cs@.len(),
            t == cs@.subrange(x as int, y as int),
            forall|j: int| 0 <= j < k - x ==> !is_ws(#[trigger] t[j]) && t[j] != ']',
        decreases y - k,
    {
        let c = cs[k];
        if is_whitespace(c) || c == ']' {
            proof {
                assert(t[k - x] == c);
            }
            return false;
        }
        k = k + 1;
    }
    true
}

fn valid_link_exec(cs: &Vec<char>, p: usize, mid: usize, e: usize) -> (r: bool)
    requires
        p + 1 <= mid,
        mid + 2 <= e <= cs@.len(),
    ensures
        r == valid_link(cs@.subrange(p + 1, mid as int), cs@.subrange(mid + 2, e as int)),
{
    let ghost target = cs@.subrange(mid + 2, e as int);
    if mid == p + 1 || e == mid + 2 {
        return false;
    }
    let mut k = mid + 2;
    while k < e
        invariant
            mid + 2 <= k <= e <= cs@.len(),
            target == cs@.subrange(mid + 2, e as int),
            forall|j: int| 0 <= j < k - mid - 2 ==> #[trigger] target[j] != '\n' && target[j] != '\r',
        decreases e - k,
    {
        if cs[k] == '\n' || cs[k] == '\r' {
            proof {
                assert(target[k - mid - 2] == cs@[k as int]);
            }
            return false;
        }
        k = k + 1;
    }
    true
}

fn span_of(offs: &Vec<usize>, x: usize, y: usize) -> (r: Span)
    requires
        x < offs@.len(),
        y < offs@.len(),
    ensures
        r.start == offs@[x as int],
        r.end == offs@[y as int],
{
    Span { start: offs[x], end: offs[y] }
}

fn embed_exec(cs: &Vec<char>, offs: &Vec<usize>, pt: &Pats, b: usize, p: usize) -> (r: Option<(Option<Inline>, usize)>)
    requires
        p < b <= cs@.len(),
        offsets_of(offs@, cs@),
        pt.wf(),
    ensures
        r matches Some((o, n)) ==> embed_c(cs@, b as int, p as int) == Some((opt_iview(o), n as int)),
        r is None ==> embed_c(cs@, b as int, p as int) is None,
{
    if window_match(cs, b, p, &pt.embed) {
        proof {
            lemma_find_in(cs@, b as int, p as int, seq!['!', '[', '[']);
            lemma_find_in(cs@, b as int, p + 3, seq![']', ']']);
        }
        if let Some(e) = window_find(cs, b, p + 3, &pt.close2) {
            let (target, alias) = split_target_exec(cs, p + 3, e);
            let blank = trimmed_is_empty(&target);
            let node = if !blank {
                Some(Inline::Embed { target, alias, span: span_of(offs, p, e + 2) })
            } else {
                None
            };
            return Some((node, e + 2));
        }
    }
    None
}

fn wiki_exec(cs: &Vec<char>, offs: &Vec<usize>, pt: &Pats, b: usize, p: usize) -> (r: Option<(Option<Inline>, usize)>)
    requires
        p < b <= cs@.len(),
        offsets_of(offs@, cs@),
        pt.wf(),
    ensures
        r matches Some((o, n)) ==> wiki_c(cs@, b as int, p as int) == Some((opt_iview(o), n as int)),
        r is None ==> wiki_c(cs@, b as int, p as int) is None,
{
    if window_match(cs, b, p, &pt.wiki) {
        proof {
            lemma_find_in(cs@, b as int, p as int, seq!['[', '[']);
            lemma_find_in(cs@, b as int, p + 2, seq![']', ']']);
        }
        if let Some(e) = window_find(cs, b, p + 2, &pt.close2) {
            let (t0, alias) = split_target_exec(cs, p + 2, e);
            let t0c = crate::text::chars_of(t0.as_str());
            let (target, heading, block) = split_wiki_exec(&t0c);
            return Some((Some(Inline::WikiLink { target, alias, heading, block, span: span_of(offs, p, e + 2) }), e + 2));
        }
    }
    None
}

fn code_exec(cs: &Vec<char>, offs: &Vec<usize>, pt: &Pats, b: usize, p: usize) -> (r: Option<(Option<Inline>, usize)>)
    requires
        p < b <= cs@.len(),
        offsets_of(offs@, cs@),
        pt.wf(),
    ensures
        r matches Some((o, n)) ==> code_c(cs@, b as int, p as int) == Some((opt_iview(o), n as int)),
        r is None ==> code_c(cs@, b as int, p as int) is None,
{
    if cs[p] == '`' {
        proof {
            lemma_find_in(cs@, b as int, p + 1, seq!['`']);
        }
        if let Some(e) = window_find(cs, b, p + 1, &pt.tick) {
            return Some((Some(Inline::Code { value: string_of(cs, p + 1, e), span: span_of(offs, p, e + 1) }), e + 1));
        }
    }
    None
}

fn highlight_exec(cs: &Vec<char>, offs: &Vec<usize>, pt: &Pats, b: usize, p: usize) -> (r: Option<(Option<Inline>, usize)>)
    requires
        p < b <= cs@.len(),
        offsets_of(offs@, cs@),
        pt.wf(),
    ensures
        r matches Some((o, n)) ==> highlight_c(cs@, b as int, p as int) == Some((opt_iview(o), n as int)),
        r is None ==> highlight_c(cs@, b as int, p as int) is None,
{
    if window_match(cs, b, p, &pt.eq2) {
        proof {
            lemma_find_in(cs@, b as int, p as int, seq!['=', '=']);
            lemma_find_in(cs@, b as int, p + 2, seq!['=', '=']);
        }
        if let Some(e) = window_find(cs, b, p + 2, &pt.eq2) {
            let text = Inline::Text { value: string_of(cs, p + 2, e), span: span_of(offs, p + 2, e) };
            let mut children: Vec<Inline> = Vec::new();
            children.push(text);
            proof {
                lemma_iviews_push(Seq::<Inline>::empty(), children@[0]);
                assert(Seq::<Inline>::empty().push(children@[0]) =~= children@);
                assert(iviews(Seq::<Inline>::empty()) =~= Seq::<InlineView>::empty());
            }
            return Some((Some(Inline::Highlight { children, span: span_of(offs, p, e + 2) }), e + 2));
        }
    }
    None
}

fn math_exec(cs: &Vec<char>, offs: &Vec<usize>, pt: &Pats, b: usize, p: usize) -> (r: Option<(Option<Inline>, usize)>)
    requires
        p < b <= cs@.len(),
        offsets_of(offs@, cs@),
        pt.wf(),
    ensures
        r matches Some((o, n)) ==> math_c(cs@, b as int, p as int) == Some((opt_iview(o), n as int)),
        r is None ==> math_c(cs@, b as int, p as int) is None,
{
    if cs[p] == '$' {
        let display = window_match(cs, b, p, &pt.dollar2);
        let q = if display {
            &pt.dollar2
        } else {
            &pt.dollar
        };
        proof {
            if display {
                lemma_find_in(cs@, b as int, p as int, seq!['$', '$']);
            }
            assert(q@ == math_q(cs@, b as int, p as int));
        }
        if let Some(e) = window_find(cs, b, p + q.len(), q) {
            proof {
                lemma_find_in(cs@, b as int, p + q@.len(), q@);
            }
            return Some((
                Some(Inline::Math { value: string_of(cs, p + q.len(), e), display, span: span_of(offs, p, e + q.len()) }),
                e + q.len(),
            ));
        }
    }
    None
}

fn fnote_exec(cs: &Vec<char>, offs: &Vec<usize>, pt: &Pats, b: usize, p: usize) -> (r: Option<(Option<Inline>, usize)>)
    requires
        p < b <= cs@.len(),
        offsets_of(offs@, cs@),
        pt.wf(),
    ensures
        r matches Some((o, n)) ==> fnote_c(cs@, b as int, p as int) == Some((opt_iview(o), n as int)),
        r is None ==> fnote_c(cs@, b as int, p as int) is None,
{
    if window_match(cs, b, p, &pt.fnote) {
        proof {
            lemma_find_in(cs@, b as int, p as int, seq!['[', '^']);
            lemma_find_in(cs@, b as int, p as int, seq![']']);
        }
        if let Some(e) = window_find(cs, b, p, &pt.rbracket) {
            proof {
                let w = cs@.take(b as int);
                assert(w.skip(p as int).take(2)[0] == cs@[p as int]);
                assert(w.skip(p as int).take(2)[1] == cs@[p + 1]);
                assert(w.skip(e as int).take(1)[0] == cs@[e as int]);
            }
            if e >= p + 2 && valid_label_exec(cs, p + 2, e) {
                return Some((Some(Inline::FootnoteRef { label: string_of(cs, p + 2, e), span: span_of(offs, p, e + 1) }), e + 1));
            }
        }
    }
    None
}

fn link_exec(cs: &Vec<char>, offs: &Vec<usize>, pt: &Pats, b: usize, p: usize) -> (r: Option<(Option<Inline>, usize)>)
    requires
        p < b <= cs@.len(),
        offsets_of(offs@, cs@),
        pt.wf(),
    ensures
        r matches Some((o, n)) ==> link_c(cs@, b as int, p as int) == Some((opt_iview(o), n as int)),
        r is None ==> link_c(cs@, b as int, p as int) is None,
{
    if cs[p] == '[' {
        proof {
            lemma_find_in(cs@, b as int, p as int, seq![']', '(']);
        }
        if let Some(mid) = window_find(cs, b, p, &pt.mid) {
            proof {
                lemma_find_in(cs@, b as int, mid + 2, seq![')']);
            }
            if let Some(e) = window_find(cs, b, mid + 2, &pt.rparen) {
                if mid >= p + 1 && valid_link_exec(cs, p, mid, e) {
                    return Some((
                        Some(Inline::Link {
                            label: string_of(cs, p + 1, mid),
                            target: string_of(cs, mid + 2, e),
                            span: span_of(offs, p, e + 1),
                        }),
                        e + 1,
                    ));
                }
            }
        }
    }
    None
}

fn tag_exec(cs: &Vec<char>, offs: &Vec<usize>, a: usize, b: usize, p: usize) -> (r: Option<(Option<Inline>, usize)>)
    requires
        a <= p < b <= cs@.len(),
        offsets_of(offs@, cs@),
    ensures
        r matches Some((o, n)) ==> tag_c(cs@, a as int, b as int, p as int) == Some((opt_iview(o), n as int)),
        r is None ==> tag_c(cs@, a as int, b as int, p as int) is None,
{
    if cs[p] == '#' && (p == a || is_ascii_whitespace(cs[p - 1])) {
        let e = next_ws_exec(cs, p, b);
        if e > p + 1 && valid_tag_exec(cs, p + 1, e) {
            return Some((Some(Inline::Tag { value: string_of(cs, p + 1, e), span: span_of(offs, p, e) }), e));
        }
    }
    None
}

fn construct_exec(
    cs: &Vec<char>,
    offs: &Vec<usize>,
    pt: &Pats,
    a: usize,
    b: usize,
    p: usize,
) -> (r: Option<(Option<Inline>, usize)>)
    requires
        a <= p < b <= cs@.len(),
        offsets_of(offs@, cs@),
        pt.wf(),
    ensures
        r matches Some((o, n)) ==> construct(cs@, a as int, b as int, p as int) == Some((opt_iview(o), n as int)),
        r is None ==> construct(cs@, a as int, b as int, p as int) is None,
{
    if let Some(r) = embed_exec(cs, offs, pt, b, p) {
        return Some(r);
    }
    if let Some(r) = wiki_exec(cs, offs, pt, b, p) {
        return Some(r);
    }
    if let Some(r) = code_exec(cs, offs, pt, b, p) {
        return Some(r);
    }
    if let Some(r) = highlight_exec(cs, offs, pt, b, p) {
        return Some(r);
    }
    if let Some(r) = math_exec(cs, offs, pt, b, p) {
        return Some(r);
    }
    if let Some(r) = fnote_exec(cs, offs, pt, b, p) {
        return Some(r);
    }
    if let Some(r) = link_exec(cs, offs, pt, b, p) {
        return Some(r);
    }
    tag_exec(cs, offs, a, b, p)
}

/// Whether a string is empty once surrounding whitespace is removed.
fn trimmed_is_empty(t: &String) -> (r: bool)
    ensures
        r == (trim_ws(t@).len() == 0),
{
    let cs = crate::text::chars_of(t.as_str());
    let tr = trimmed(&cs, 0, cs.len());
    proof {
        assert(cs@.subrange(0, cs@.len() as int) =~= cs@);
    }
    tr.as_str().is_empty()
}

} // verus!

verus! {

fn text_exec(cs: &Vec<char>, offs: &Vec<usize>, x: usize, y: usize) -> (r: Inline)
    requires
        x <= y <= cs@.len(),
        offsets_of(offs@, cs@),
    ensures
        iview(r) == text_node(cs@, x as int, y as int),
{
    Inline::Text { value: string_of(cs, x, y), span: span_of(offs, x, y) }
}

/// One step of the inline scanner from `i` with pending text from `ts`:
/// pushes what the step yields and returns where scanning resumes.
#[verifier::spinoff_prover]
#[verifier::rlimit(80)]
fn inline_step(
    cs: &Vec<char>,
    offs: &Vec<usize>,
    pt: &Pats,
    a: usize,
    b: usize,
    i: usize,
    ts: usize,
    out: &mut Vec<Inline>,
) -> (r: (usize, usize))
    requires
        a <= ts <= i < b <= cs@.len(),
        offsets_of(offs@, cs@),
        pt.wf(),
    ensures
        i < r.0 <= b,
        a <= r.1 <= r.0,
        iviews(final(out)@) + inl(cs@, a as int, b as int, r.0 as int, r.1 as int).nodes == iviews(old(out)@) + inl(
            cs@,
            a as int,
            b as int,
            i as int,
            ts as int,
        ).nodes,
    decreases b - a, 0int,
{
    let ghost s = cs@;
    let ghost cur = inl(s, a as int, b as int, i as int, ts as int);
    let ghost before = iviews(out@);
    let p = next_special_exec(cs, i, b);
    proof {
        lemma_next_special(s, i as int, b as int);
    }
    if p >= b {
        return (b, ts);
    }
    if (cs[p] == '*' || cs[p] == '_') && escaped_exec(cs, a, p) {
        return (p + 1, ts);
    }
    proof {
        lemma_delim_try(s, a as int, b as int, p as int, 0);
        lemma_construct(s, a as int, b as int, p as int);
    }
    let ghost pre: Seq<InlineView> = if p > ts {
        seq![text_node(s, ts as int, p as int)]
    } else {
        Seq::empty()
    };
    if p > ts {
        let t = text_exec(cs, offs, ts, p);
        proof {
            lemma_iviews_push(out@, t);
        }
        out.push(t);
    }
    proof {
        assert(iviews(out@) =~= before + pre);
    }
    match delim_exec(cs, pt, a, b, p) {
        Some((m, c)) => {
            let ml = marker_pat(pt, m).len();
            let children = parse_inlines(cs, offs, pt, p + ml, c);
            let span = span_of(offs, p, c + ml);
            let node = if m < 2 {
                Inline::Strong { children, span }
            } else {
                Inline::Emphasis { children, span }
            };
            proof {
                lemma_iviews_push(out@, node);
            }
            out.push(node);
            proof {
                assert(iviews(out@) + inl(s, a as int, b as int, c + ml, c + ml).nodes =~= before + cur.nodes);
            }
            (c + ml, c + ml)
        },
        None => match construct_exec(cs, offs, pt, a, b, p) {
            Some((o, next)) => {
                match o {
                    Some(n) => {
                        proof {
                            lemma_iviews_push(out@, n);
                        }
                        out.push(n);
                    },
                    None => {},
                }
                proof {
                    assert(iviews(out@) + inl(s, a as int, b as int, next as int, next as int).nodes =~= before + cur.nodes);
                }
                (next, next)
            },
            None => {
                let w: usize = if window_match(cs, b, p, &pt.star2) || window_match(cs, b, p, &pt.under2) {
                    2
                } else {
                    1
                };
                proof {
                    lemma_find_in(s, b as int, p as int, seq!['*', '*']);
                    lemma_find_in(s, b as int, p as int, seq!['_', '_']);
                    assert(iviews(out@) + inl(s, a as int, b as int, p + w, p as int).nodes =~= before + cur.nodes);
                }
                (p + w, p)
            },
        },
    }
}

/// Parses the inline nodes of the source region `a..b`.
pub fn parse_inlines(cs: &Vec<char>, offs: &Vec<usize>, pt: &Pats, a: usize, b: usize) -> (out: Vec<Inline>)
    requires
        a <= b <= cs@.len(),
        offsets_of(offs@, cs@),
        pt.wf(),
    ensures
        iviews(out@) == inlines(cs@, a as int, b as int),
    decreases b - a, 1int,
{
    let ghost s = cs@;
    let ghost total = inlines(s, a as int, b as int);
    let mut out: Vec<Inline> = Vec::new();
    let mut i = a;
    let mut ts = a;
    proof {
        assert(iviews(out@) =~= Seq::<InlineView>::empty());
        assert(iviews(out@) + inl(s, a as int, b as int, i as int, ts as int).nodes =~= total);
    }
    while i < b
        invariant
            a <= ts <= i <= b <= cs@.len(),
            cs@ == s,
            offsets_of(offs@, cs@),
            pt.wf(),
            iviews(out@) + inl(s, a as int, b as int, i as int, ts as int).nodes == total,
        decreases b - i,
    {
        let (ni, nts) = inline_step(cs, offs, pt, a, b, i, ts, &mut out);
        i = ni;
        ts = nts;
    }
    let ghost before = iviews(out@);
    if ts < b {
        let t = text_exec(cs, offs, ts, b);
        proof {
            lemma_iviews_push(out@, t);
        }
        out.push(t);
    }
    proof {
        assert(iviews(out@) =~= before + tail(s, b as int, ts as int).nodes);
    }
    out
}

} // verus!
