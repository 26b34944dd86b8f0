//! Ranked full-text search over the index: relevance, snippets and ordering.
use vstd::prelude::*;
use vstd::utf8::is_char_boundary;
use crate::text::{
    byte_at, char_offsets, chars_of, contains_seq, contains_text, enc, find_after, find_next,
    find_seq, lemma_boundary_char, lemma_byte_at_boundary, lemma_byte_at_mono, lemma_find_after,
    lowercase, match_at, next_ws, next_ws_exec, push_char, skip_ws, skip_ws_exec, string_of,
    text_lt, compare_str, to_lowercase, lemma_text_lt_order,
};
use super::{
    Document, SortKey, VaultIndex, key_order, lemma_sort_with_map, lemma_sort_with_sorted, lemma_text_not_lt,
    ordered_by, sort_items, sort_with, strict_weak,
};
use super::query::{QueryError, QueryView, matches_query, parse_query, parse_spec, q_matches, qview, unterminated_message};

verus! {

#[derive(Clone, Debug, PartialEq, Eq)]
pub struct SearchResult {
    pub path: String,
    pub score: u32,
    pub snippet: String,
}

/// A search result as (path, score, snippet) texts.
pub type Row = (Seq<char>, u32, Seq<char>);

pub open spec fn rview(r: SearchResult) -> Row {
    (r.path@, r.score, r.snippet@)
}

/// Results rank by descending score, then by ascending path.
pub open spec fn row_before(a: Row, b: Row) -> bool {
    a.1 > b.1 || (a.1 == b.1 && text_lt(a.0, b.0))
}

pub open spec fn row_order() -> spec_fn(Row, Row) -> bool {
    |a: Row, b: Row| row_before(a, b)
}

impl SortKey for SearchResult {
    open spec fn spec_before(a: Self, b: Self) -> bool {
        row_before(rview(a), rview(b))
    }

    fn before(&self, other: &Self) -> (r: bool) {
        self.score > other.score || (self.score == other.score && compare_str(&self.path, &other.path) == -1)
    }
}

// ---------------------------------------------------------------- relevance

/// The number of non-overlapping occurrences of a non-empty `p` in `s`
/// from index `i`, leftmost first.
pub open spec fn count_from(s: Seq<char>, p: Seq<char>, i: int) -> nat
    decreases s.len() - i,
{
    if p.len() == 0 || i < 0 || i > s.len() {
        0
    } else {
        match find_after(s, i, p) {
            Some(k) => {
                proof {
                    lemma_find_after(s, i, p);
                }
                1 + count_from(s, p, k + p.len())
            },
            None => 0,
        }
    }
}

/// How many matches `str::matches` yields: the non-overlapping occurrences
/// of `p`, or one per character boundary when `p` is empty.
pub open spec fn count_matches(s: Seq<char>, p: Seq<char>) -> nat {
    if p.len() == 0 {
        s.len() + 1
    } else {
        count_from(s, p, 0)
    }
}

/// The score of a note for a lowercased query: 30 when the lowercased path
/// contains it, plus 10 per occurrence in the lowercased content (the count
/// taken modulo 2^32); `None` where that overflows a `u32`.
pub open spec fn relevance_spec(d: Document, needle: Seq<char>) -> Option<u32> {
    let bonus: int = if contains_seq(lowercase(d.path@), needle) { 30 } else { 0 };
    let c: int = (count_matches(lowercase(d.content@), needle) % 0x1_0000_0000) as int;
    if c * 10 <= u32::MAX && bonus + c * 10 <= u32::MAX {
        Some((bonus + c * 10) as u32)
    } else {
        None
    }
}

/// A note's score depends on its path and content only through their
/// lowercase forms: notes whose paths and contents lowercase alike score
/// alike, whatever the letter case of either.
pub proof fn lemma_relevance_ignores_case(d1: Document, d2: Document, needle: Seq<char>)
    requires
        lowercase(d1.path@) == lowercase(d2.path@),
        lowercase(d1.content@) == lowercase(d2.content@),
    ensures
        relevance_spec(d1, needle) == relevance_spec(d2, needle),
{
}

/// A path that contains the query is worth 30 more than one that does not,
/// for notes whose contents lowercase alike.
pub proof fn lemma_relevance_path_bonus(d1: Document, d2: Document, needle: Seq<char>)
    requires
        lowercase(d1.content@) == lowercase(d2.content@),
        contains_seq(lowercase(d1.path@), needle),
        !contains_seq(lowercase(d2.path@), needle),
        relevance_spec(d1, needle) is Some,
    ensures
        relevance_spec(d2, needle) is Some,
        relevance_spec(d1, needle)->0 == relevance_spec(d2, needle)->0 + 30,
{
}

proof fn lemma_count_from_bound(s: Seq<char>, p: Seq<char>, i: int)
    requires
        0 <= i <= s.len(),
        p.len() > 0,
    ensures
        count_from(s, p, i) * p.len() <= s.len() - i,
    decreases s.len() - i,
{
    lemma_find_after(s, i, p);
    if let Some(k) = find_after(s, i, p) {
        lemma_count_from_bound(s, p, k + p.len());
        let c = count_from(s, p, k + p.len());
        assert(count_from(s, p, i) == 1 + c);
        assert((1 + c) * p.len() == p.len() + c * p.len()) by (nonlinear_arith);
        assert(c * p.len() <= s.len() - (k + p.len()));
    }
}

/// The occurrences a score counts do not overlap: a non-empty query occurs
/// at most `len(text) / len(query)` times.
pub proof fn lemma_count_matches_disjoint(s: Seq<char>, p: Seq<char>)
    requires
        p.len() > 0,
    ensures
        count_matches(s, p) * p.len() <= s.len(),
{
    lemma_count_from_bound(s, p, 0);
}

/// Each further occurrence of the query in the lowercased content is worth 10.
pub proof fn lemma_relevance_per_occurrence(d1: Document, d2: Document, needle: Seq<char>)
    requires
        lowercase(d1.path@) == lowercase(d2.path@),
        count_matches(lowercase(d2.content@), needle) == count_matches(lowercase(d1.content@), needle) + 1,
        count_matches(lowercase(d2.content@), needle) < 0x1_0000_0000,
        relevance_spec(d2, needle) is Some,
    ensures
        relevance_spec(d1, needle) is Some,
        relevance_spec(d2, needle)->0 == relevance_spec(d1, needle)->0 + 10,
{
}

/// A non-empty query is counted at least once exactly when it occurs.
pub proof fn lemma_count_matches_occurs(s: Seq<char>, p: Seq<char>)
    requires
        p.len() > 0,
    ensures
        count_matches(s, p) > 0 <==> contains_seq(s, p),
{
    lemma_find_after(s, 0, p);
    if let Some(k) = find_after(s, 0, p) {
        assert(match_at(s, k, p));
    } else {
        assert forall|k: int| !#[trigger] match_at(s, k, p) by {
            if k < 0 {
            } else {
            }
        }
    }
}

const WRAP: u64 = 0x1_0000_0000;

/// The number of matches of `needle` in `hay`, modulo 2^32.
fn count_wrapped(hay: &str, needle: &str) -> (r: u64)
    ensures
        r == count_matches(hay@, needle@) % 0x1_0000_0000,
{
    let hc = chars_of(hay);
    let nc = chars_of(needle);
    let n = hc.len();
    let m = nc.len();
    if m == 0 {
        return ((n as u64) % WRAP + 1) % WRAP;
    }
    let mut c: u64 = 0;
    let mut i: usize = 0;
    let ghost mut seen: nat = 0;
    while i <= n
        invariant
            n == hc@.len(),
            m == nc@.len(),
            hc@ == hay@,
            nc@ == needle@,
            m > 0,
            i <= n + 1,
            c == seen % 0x1_0000_0000,
            seen + count_from(hc@, nc@, i as int) == count_from(hc@, nc@, 0),
        decreases n + 1 - i,
    {
        match find_next(&hc, i, &nc) {
            Some(k) => {
                proof {
                    lemma_find_after(hc@, i as int, nc@);
                    seen = seen + 1;
                }
                c = (c + 1) % WRAP;
                i = k + m;
            },
            None => {
                proof {
                    assert(count_from(hc@, nc@, i as int) == 0);
                }
                return c;
            },
        }
    }
    c
}

/// The relevance of a note for a lowercased query, where it fits a `u32`.
fn relevance(d: &Document, needle: &str) -> (r: Option<u32>)
    ensures
        r == relevance_spec(*d, needle@),
{
    let lp = to_lowercase(&d.path);
    let bonus: u64 = if contains_text(&lp, needle) { 30 } else { 0 };
    let lc = to_lowercase(&d.content);
    let c = count_wrapped(&lc, needle);
    if c * 10 <= 0xffff_ffff && bonus + c * 10 <= 0xffff_ffff {
        Some((bonus + c * 10) as u32)
    } else {
        None
    }
}

// ---------------------------------------------------------------- snippets

/// The first whitespace-separated word of `s`, empty when there is none.
pub open spec fn first_word(s: Seq<char>) -> Seq<char> {
    let a = skip_ws(s, 0, s.len() as int);
    s.subrange(a, next_ws(s, a, s.len() as int))
}

/// The lowercased first word of a query: what a snippet looks for.
pub open spec fn snippet_word(query: Seq<char>) -> Seq<char> {
    lowercase(first_word(query))
}

/// The byte offset of the first match of `q` in the lowercased text, or 0.
pub open spec fn snippet_byte(text: Seq<char>, q: Seq<char>) -> int {
    match find_seq(lowercase(text), q) {
        Some(j) => byte_at(lowercase(text), j),
        None => 0,
    }
}

/// Whether a snippet can be cut: that offset, taken from the lowercased
/// text, must fall on a character boundary of the text itself.
pub open spec fn snippet_ok(text: Seq<char>, query: Seq<char>) -> bool {
    let q = snippet_word(query);
    q.len() == 0 || is_char_boundary(enc(text), snippet_byte(text, q))
}

/// The character index at that offset.
pub open spec fn snippet_char(text: Seq<char>, q: Seq<char>) -> int {
    choose|a: int| 0 <= a <= text.len() && byte_at(text, a) == snippet_byte(text, q)
}

pub open spec fn ellipsis_if(b: bool) -> Seq<char> {
    if b { seq!['…'] } else { Seq::empty() }
}

/// A snippet of `text` for `query`: without a word, its first 160
/// characters; otherwise 41 characters before the match and 120 from it,
/// with `…` where text was cut off.
pub open spec fn snippet_spec(text: Seq<char>, query: Seq<char>) -> Seq<char> {
    let q = snippet_word(query);
    if q.len() == 0 {
        text.take(if text.len() < 160 { text.len() as int } else { 160 })
    } else {
        let a = snippet_char(text, q);
        let start = if a >= 41 { a - 41 } else { 0 };
        let end = if text.len() - a > 120 { a + 120 } else { text.len() as int };
        ellipsis_if(start > 0) + text.subrange(start, end) + ellipsis_if(end < text.len())
    }
}

/// Appends characters `a..b` of `cs` to `out`.
fn push_range(out: &mut String, cs: &Vec<char>, a: usize, b: usize)
    requires
        a <= b <= cs@.len(),
    ensures
        final(out)@ == old(out)@ + cs@.subrange(a as int, b as int),
{
    let mut i = a;
    while i < b
        invariant
            a <= i <= b <= cs@.len(),
            out@ == old(out)@ + cs@.subrange(a as int, i as int),
        decreases b - i,
    {
        push_char(out, cs[i]);
        proof {
            assert(out@ =~= old(out)@ + cs@.subrange(a as int, i + 1));
        }
        i = i + 1;
    }
}

/// Where a snippet of `text` for `query` is centred: `None` where the
/// match offset found in the lowercased text is not a character boundary
/// of `text`, `Some(None)` when the query has no word, else the character
/// index of the match.
fn snippet_at(text: &str, tcs: &Vec<char>, query: &str) -> (r: Option<Option<usize>>)
    requires
        tcs@ == text@,
    ensures
        r is Some <==> snippet_ok(text@, query@),
        r == Some(None::<usize>) <==> snippet_word(query@).len() == 0,
        r matches Some(Some(a)) ==> a == snippet_char(text@, snippet_word(query@)) && a <= text@.len(),
{
    let qcs = chars_of(query);
    let qn = qcs.len();
    let a0 = skip_ws_exec(&qcs, 0, qn);
    let b0 = next_ws_exec(&qcs, a0, qn);
    let word = string_of(&qcs, a0, b0);
    let q = to_lowercase(&word);
    let qc = chars_of(&q);
    let tn = tcs.len();
    if qc.len() == 0 {
        return Some(None);
    }
    let low = to_lowercase(text);
    let lc = chars_of(&low);
    proof {
        assert(lc@.skip(0) =~= lc@);
    }
    let at: usize = match find_next(&lc, 0, &qc) {
        Some(j) => {
            proof {
                lemma_find_after(lc@, 0, qc@);
            }
            let offs = char_offsets(&low, &lc);
            offs[j]
        },
        None => 0,
    };
    let ghost sb = snippet_byte(text@, q@);
    assert(at == sb);
    let toffs = char_offsets(text, tcs);
    let mut a: usize = 0;
    while a < toffs.len() && toffs[a] != at
        invariant
            toffs@.len() == tn + 1,
            tcs@ == text@,
            a <= tn + 1,
            forall|k: int| 0 <= k <= tn ==> #[trigger] toffs@[k] == byte_at(text@, k),
            forall|k: int| 0 <= k < a ==> byte_at(text@, k) != at,
        decreases tn + 1 - a,
    {
        a = a + 1;
    }
    if a == toffs.len() {
        proof {
            if is_char_boundary(enc(text@), sb) {
                lemma_boundary_char(text@, sb);
                let k = choose|k: int| 0 <= k <= text@.len() && #[trigger] byte_at(text@, k) == sb;
                assert(byte_at(text@, k) != at);
            }
        }
        return None;
    }
    proof {
        lemma_byte_at_boundary(text@, a as int);
        let c = snippet_char(text@, q@);
        assert(0 <= c <= text@.len() && byte_at(text@, c) == sb);
        if c < a {
            lemma_byte_at_mono(text@, c, a as int);
        } else if c > a {
            lemma_byte_at_mono(text@, a as int, c);
        }
        assert(c == a);
    }
    Some(Some(a))
}

/// A snippet of `text` around the first match of the query's first word,
/// found ignoring case.
pub fn snippet(text: &str, query: &str) -> (r: String)
    requires
        snippet_ok(text@, query@),
    ensures
        r@ == snippet_spec(text@, query@),
{
    let tcs = chars_of(text);
    let tn = tcs.len();
    match snippet_at(text, &tcs, query) {
        Some(Some(a)) => {
            let start = if a >= 41 { a - 41 } else { 0 };
            let end = if tn - a > 120 { a + 120 } else { tn };
            let mut out = String::new();
            if start > 0 {
                push_char(&mut out, '…');
            }
            push_range(&mut out, &tcs, start, end);
            if end < tn {
                push_char(&mut out, '…');
            }
            proof {
                assert(out@ =~= snippet_spec(text@, query@));
            }
            out
        },
        _ => {
            let e = if tn < 160 { tn } else { 160 };
            proof {
                assert(tcs@.subrange(0, e as int) =~= text@.take(e as int));
            }
            string_of(&tcs, 0, e)
        },
    }
}

/// A snippet of `text` for `query`, or `None` where the match offset found
/// in the lowercased text is not a character boundary of `text`.
pub fn try_snippet(text: &str, query: &str) -> (r: Option<String>)
    ensures
        r is Some <==> snippet_ok(text@, query@),
        r matches Some(s) ==> s@ == snippet_spec(text@, query@),
{
    let tcs = chars_of(text);
    match snippet_at(text, &tcs, query) {
        Some(_) => Some(snippet(text, query)),
        None => None,
    }
}

// ---------------------------------------------------------------- search

/// The result row of a note for a query.
pub open spec fn row_of(d: Document, query: Seq<char>) -> Row {
    let needle = lowercase(query);
    (d.path@, relevance_spec(d, needle)->0, snippet_spec(d.content@, needle))
}

/// The rows of the notes that satisfy `q`, in note order.
pub open spec fn search_rows(docs: Seq<Document>, q: QueryView, query: Seq<char>) -> Seq<Row>
    decreases docs.len(),
{
    if docs.len() == 0 {
        Seq::empty()
    } else {
        let rest = search_rows(docs.drop_last(), q, query);
        if q_matches(q, docs.last()) {
            rest.push(row_of(docs.last(), query))
        } else {
            rest
        }
    }
}

/// Whether every note that satisfies `q` has a score that fits a `u32` and a snippet that can be cut.
pub open spec fn search_ok(docs: Seq<Document>, q: QueryView, query: Seq<char>) -> bool {
    forall|i: int| 0 <= i < docs.len() && q_matches(q, #[trigger] docs[i]) ==>
        relevance_spec(docs[i], lowercase(query)) is Some && snippet_ok(docs[i].content@, lowercase(query))
}

/// What a search answers, where every matching note can be scored.
pub open spec fn search_outcome(docs: Seq<Document>, query: Seq<char>) -> Option<Result<Seq<Row>, int>> {
    match parse_spec(query) {
        Err(p) => Some(Err(p)),
        Ok(q) => if search_ok(docs, q, query) {
            Some(Ok(sort_with(search_rows(docs, q, query), row_order())))
        } else {
            None
        },
    }
}

pub open spec fn outcome_of(r: Result<Vec<SearchResult>, QueryError>) -> Result<Seq<Row>, int> {
    match r {
        Ok(v) => Ok(v@.map_values(|x: SearchResult| rview(x))),
        Err(e) => Err(e.position as int),
    }
}

/// Searches the index; `None` where a matching note's score overflows a
/// `u32` or its snippet cannot be cut.
fn search_core(index: &VaultIndex, query: &str) -> (r: Option<Result<Vec<SearchResult>, QueryError>>)
    ensures
        r is None <==> search_outcome(index.notes(), query@) is None,
        r matches Some(x) ==> search_outcome(index.notes(), query@) == Some(outcome_of(x))
            && (x matches Err(e) ==> e.message@ == unterminated_message()),
{
    let q = match parse_query(query) {
        Ok(q) => q,
        Err(e) => return Some(Err(e)),
    };
    let ghost qv = qview(q);
    let needle = to_lowercase(query);
    let docs = index.documents();
    let ghost notes = index.notes();
    let mut out: Vec<SearchResult> = Vec::new();
    let mut k: usize = 0;
    proof {
        assert(out@.map_values(|x: SearchResult| rview(x)) =~= Seq::<Row>::empty());
        assert(notes.take(0) =~= Seq::<Document>::empty());
    }
    while k < docs.len()
        invariant
            k <= docs@.len(),
            docs@.len() == notes.len(),
            forall|j: int| 0 <= j < docs@.len() ==> *#[trigger] docs@[j] == notes[j],
            needle@ == lowercase(query@),
            qv == qview(q),
            parse_spec(query@) == Ok::<QueryView, int>(qv),
            notes == index.notes(),
            out@.map_values(|x: SearchResult| rview(x)) == search_rows(notes.take(k as int), qv, query@),
            forall|i: int| 0 <= i < k && q_matches(qv, #[trigger] notes[i]) ==>
                relevance_spec(notes[i], lowercase(query@)) is Some && snippet_ok(notes[i].content@, lowercase(query@)),
        decreases docs@.len() - k,
    {
        let d = docs[k];
        let ghost before = out@;
        proof {
            assert(notes.take(k + 1).drop_last() =~= notes.take(k as int));
            assert(notes.take(k + 1).last() == notes[k as int]);
        }
        if matches_query(&q, d) {
            let score = match relevance(d, &needle) {
                Some(s) => s,
                None => {
                    proof {
                        assert(!search_ok(notes, qv, query@));
                    }
                    return None;
                },
            };
            let ok = {
                let tcs = chars_of(&d.content);
                snippet_at(&d.content, &tcs, &needle).is_some()
            };
            if !ok {
                proof {
                    assert(!search_ok(notes, qv, query@));
                }
                return None;
            }
            let snip = snippet(&d.content, &needle);
            let row = SearchResult { path: d.path.clone(), score, snippet: snip };
            out.push(row);
            proof {
                assert(out@.map_values(|x: SearchResult| rview(x)) =~= before.map_values(|x: SearchResult| rview(x)).push(rview(row)));
            }
        }
        k = k + 1;
    }
    proof {
        assert(notes.take(k as int) =~= notes);
        lemma_sort_with_map(out@, key_order::<SearchResult>(), |x: SearchResult| rview(x), row_order());
    }
    let sorted = sort_items(out);
    Some(Ok(sorted))
}

/// Searches the index with the query language, ranking the matching notes
/// by relevance (descending), then by path.
pub fn search(index: &VaultIndex, query: &str) -> (r: Result<Vec<SearchResult>, QueryError>)
    requires
        search_outcome(index.notes(), query@) is Some,
    ensures
        search_outcome(index.notes(), query@) == Some(outcome_of(r)),
        r matches Err(e) ==> e.message@ == unterminated_message(),
{
    match search_core(index, query) {
        Some(x) => x,
        None => Ok(Vec::new()),
    }
}

/// [`search`], or `None` where a matching note's score overflows a `u32`
/// or its snippet cannot be cut.
pub fn try_search(index: &VaultIndex, query: &str) -> (r: Option<Result<Vec<SearchResult>, QueryError>>)
    ensures
        r is None <==> search_outcome(index.notes(), query@) is None,
        r matches Some(x) ==> search_outcome(index.notes(), query@) == Some(outcome_of(x))
            && (x matches Err(e) ==> e.message@ == unterminated_message()),
{
    match search_core(index, query) {
        Some(_) => Some(search(index, query)),
        None => None,
    }
}


// ---------------------------------------------------------------- laws

proof fn lemma_row_order_weak()
    ensures
        strict_weak(row_order()),
{
    assert forall|a: Row, b: Row| #[trigger] row_order()(a, b) implies !row_order()(b, a) by {
        lemma_text_lt_order(a.0, b.0, a.0);
    }
    assert forall|a: Row, b: Row, c: Row| #![trigger row_order()(a, b), row_order()(b, c)]
        !row_order()(a, b) && !row_order()(b, c) implies !row_order()(a, c) by {
        lemma_text_not_lt(a.0, b.0, c.0);
    }
}

/// Whether `r` is the row of one of `docs` that satisfies `q`.
pub open spec fn row_source(docs: Seq<Document>, q: QueryView, query: Seq<char>, r: Row) -> bool {
    exists|i: int| 0 <= i < docs.len() && q_matches(q, #[trigger] docs[i]) && r == row_of(docs[i], query)
}

/// Every search row comes from a note that satisfies the query.
pub proof fn lemma_search_rows_match(docs: Seq<Document>, q: QueryView, query: Seq<char>)
    ensures
        forall|k: int| 0 <= k < search_rows(docs, q, query).len() ==> row_source(docs, q, query, #[trigger] search_rows(docs, q, query)[k]),
    decreases docs.len(),
{
    if docs.len() > 0 {
        lemma_search_rows_match(docs.drop_last(), q, query);
        let rest = search_rows(docs.drop_last(), q, query);
        assert forall|k: int| 0 <= k < search_rows(docs, q, query).len() implies row_source(docs, q, query, #[trigger] search_rows(docs, q, query)[k]) by {
            if k < rest.len() {
                assert(search_rows(docs, q, query)[k] == rest[k]);
                assert(row_source(docs.drop_last(), q, query, rest[k]));
                let i = choose|i: int| 0 <= i < docs.drop_last().len() && q_matches(q, #[trigger] docs.drop_last()[i])
                    && rest[k] == row_of(docs.drop_last()[i], query);
                assert(docs[i] == docs.drop_last()[i]);
            } else {
                assert(docs[docs.len() - 1] == docs.last());
            }
        }
    }
}

/// Search results come by descending score, then ascending path, and are
/// exactly the rows of the notes that satisfy the query.
pub proof fn lemma_search_ranked(docs: Seq<Document>, q: QueryView, query: Seq<char>)
    ensures
        ordered_by(sort_with(search_rows(docs, q, query), row_order()), row_order()),
        sort_with(search_rows(docs, q, query), row_order()).to_multiset() == search_rows(docs, q, query).to_multiset(),
{
    lemma_row_order_weak();
    lemma_sort_with_sorted(search_rows(docs, q, query), row_order());
}

} // verus!
