//! A renderer-independent find and replace bar.
//!
//! Offsets are UTF-8 byte offsets into the supplied source.  The model
//! computes plans only; applying them remains the caller's responsibility.
use vstd::prelude::*;
use std::ops::Range;
use crate::text::{byte_at, char_offsets, chars_of, enc, lemma_byte_at_mono, vec_eq};

verus! {

/// One occurrence of the current query in the source.
#[derive(Debug, Eq, PartialEq)]
pub struct ResultSpan {
    pub span: Range<usize>,
}

impl Clone for ResultSpan {
    fn clone(&self) -> (r: Self)
        ensures
            r == *self,
    {
        ResultSpan { span: self.span.start..self.span.end }
    }
}

/// A requested replacement, expressed as a source range and replacement text.
#[derive(Debug, Eq, PartialEq)]
pub struct ReplacementPlan {
    pub span: Range<usize>,
    pub replacement: String,
}

impl Clone for ReplacementPlan {
    fn clone(&self) -> (r: Self)
        ensures
            r.span == self.span,
            r.replacement@ == self.replacement@,
    {
        ReplacementPlan { span: self.span.start..self.span.end, replacement: self.replacement.clone() }
    }
}

/// The Unicode lowercase mapping of one character, as `char::to_lowercase` yields it.
pub uninterp spec fn char_lower(c: char) -> Seq<char>;

/// `char::to_lowercase`: the characters of the Unicode lowercase mapping of `c`.
#[verifier::external_body]
fn char_to_lowercase(c: char) -> (r: Vec<char>)
    ensures
        r@ == char_lower(c),
{
    c.to_lowercase().collect()
}

/// Whether a source character matches a query character.
pub open spec fn chars_match(actual: char, wanted: char, case_sensitive: bool) -> bool {
    if case_sensitive {
        actual == wanted
    } else {
        char_lower(actual) == char_lower(wanted)
    }
}

/// Whether the query matches the source characters starting at character `i`.
pub open spec fn match_here(src: Seq<char>, q: Seq<char>, i: int, case_sensitive: bool) -> bool {
    &&& 0 <= i
    &&& i + q.len() <= src.len()
    &&& forall|j: int| 0 <= j < q.len() ==> #[trigger] chars_match(src[i + j], q[j], case_sensitive)
}

/// The byte spans of the matches that start before character `n`, in order.
pub open spec fn spans_before(src: Seq<char>, q: Seq<char>, case_sensitive: bool, n: int) -> Seq<(int, int)>
    decreases n,
{
    if n <= 0 {
        Seq::empty()
    } else {
        let prev = spans_before(src, q, case_sensitive, n - 1);
        if match_here(src, q, n - 1, case_sensitive) {
            prev.push((enc(src.take(n - 1)).len() as int, enc(src.take(n - 1 + q.len())).len() as int))
        } else {
            prev
        }
    }
}

/// The byte spans of every occurrence of a non-empty query, including overlapping ones.
pub open spec fn result_spans(src: Seq<char>, q: Seq<char>, case_sensitive: bool) -> Seq<(int, int)> {
    if q.len() == 0 {
        Seq::empty()
    } else {
        spans_before(src, q, case_sensitive, src.len() as int)
    }
}

pub open spec fn span_view(r: ResultSpan) -> (int, int) {
    (r.span.start as int, r.span.end as int)
}

pub open spec fn plan_view(p: ReplacementPlan) -> ((int, int), Seq<char>) {
    ((p.span.start as int, p.span.end as int), p.replacement@)
}

/// The observable state of a [`SearchBar`].
pub struct SearchView {
    pub query: Seq<char>,
    pub replacement: Seq<char>,
    pub source: Seq<char>,
    pub case_sensitive: bool,
    pub results: Seq<(int, int)>,
    pub active: Option<int>,
}

/// State and operations for a find/replace bar.
#[derive(Debug, Eq, PartialEq)]
pub struct SearchBar {
    query: String,
    replacement: String,
    source: String,
    case_sensitive: bool,
    results: Vec<ResultSpan>,
    active: Option<usize>,
}

impl View for SearchBar {
    type V = SearchView;

    closed spec fn view(&self) -> SearchView {
        SearchView {
            query: self.query@,
            replacement: self.replacement@,
            source: self.source@,
            case_sensitive: self.case_sensitive,
            results: self.results@.map_values(|r: ResultSpan| span_view(r)),
            active: match self.active {
                Some(i) => Some(i as int),
                None => None,
            },
        }
    }
}

/// Whether the results are those of the query in the source and the active index is in range.
pub open spec fn consistent(v: SearchView) -> bool {
    &&& v.results == result_spans(v.source, v.query, v.case_sensitive)
    &&& v.active matches Some(i) ==> 0 <= i < v.results.len()
}

fn compute_results(source: &str, query: &str, case_sensitive: bool) -> (out: Vec<ResultSpan>)
    ensures
        out@.map_values(|r: ResultSpan| span_view(r)) == result_spans(source@, query@, case_sensitive),
{
    let q = chars_of(query);
    let mut out: Vec<ResultSpan> = Vec::new();
    if q.len() == 0 {
        proof {
            assert(out@.map_values(|r: ResultSpan| span_view(r)) =~= Seq::<(int, int)>::empty());
        }
        return out;
    }
    let chars = chars_of(source);
    let offs = char_offsets(source, &chars);
    let mut start: usize = 0;
    while start < chars.len()
        invariant
            start <= chars@.len(),
            chars@ == source@,
            q@ == query@,
            q@.len() > 0,
            offs@.len() == chars@.len() + 1,
            forall|i: int| 0 <= i <= chars@.len() ==> #[trigger] offs@[i] == enc(chars@.take(i)).len(),
            out@.map_values(|r: ResultSpan| span_view(r)) == spans_before(source@, query@, case_sensitive, start as int),
        decreases chars@.len() - start,
    {
        let mut matches = q.len() <= chars.len() - start;
        if matches {
            let mut j: usize = 0;
            while j < q.len() && matches
                invariant
                    start + q@.len() <= chars.len(),
                    j <= q@.len(),
                    chars@ == source@,
                    q@ == query@,
                    matches ==> forall|t: int| 0 <= t < j ==> #[trigger] chars_match(chars@[start + t], q@[t], case_sensitive),
                    !matches ==> !match_here(source@, query@, start as int, case_sensitive),
                decreases q@.len() - j + (if matches { 1int } else { 0int }),
            {
                assert(start + j < chars@.len());
                let actual = chars[start + j];
                let wanted = q[j];
                let same = if case_sensitive {
                    actual == wanted
                } else {
                    let a = char_to_lowercase(actual);
                    let b = char_to_lowercase(wanted);
                    vec_eq(&a, &b)
                };
                if !same {
                    matches = false;
                    proof {
                        assert(!chars_match(source@[start + j], query@[j as int], case_sensitive));
                        assert(!match_here(source@, query@, start as int, case_sensitive));
                    }
                } else {
                    j = j + 1;
                }
            }
            proof {
                if matches {
                    assert forall|t: int| 0 <= t < q@.len() implies #[trigger] chars_match(source@[start + t], query@[t], case_sensitive) by {
                        assert(chars_match(chars@[start + t], q@[t], case_sensitive));
                    }
                    assert(match_here(source@, query@, start as int, case_sensitive));
                }
            }
        } else {
            proof {
                assert(!match_here(source@, query@, start as int, case_sensitive));
            }
        }
        if matches {
            let begin = offs[start];
            let end = offs[start + q.len()];
            out.push(ResultSpan { span: begin..end });
        }
        proof {
            assert(out@.map_values(|r: ResultSpan| span_view(r)) =~= spans_before(source@, query@, case_sensitive, start + 1));
        }
        start = start + 1;
    }
    out
}

fn copy_span(r: &ResultSpan) -> (c: ResultSpan)
    ensures
        span_view(c) == span_view(*r),
{
    ResultSpan { span: r.span.start..r.span.end }
}

impl Clone for SearchBar {
    fn clone(&self) -> (b: Self)
        ensures
            b@ == self@,
    {
        proof {
            use_type_invariant(self);
        }
        SearchBar {
            query: self.query.clone(),
            replacement: self.replacement.clone(),
            source: self.source.clone(),
            case_sensitive: self.case_sensitive,
            results: copy_results(&self.results),
            active: self.active,
        }
    }
}

impl Default for SearchBar {
    /// An empty, case-sensitive bar with no results.
    fn default() -> (b: Self)
        ensures
            b@.query.len() == 0,
            b@.replacement.len() == 0,
            b@.source.len() == 0,
            b@.case_sensitive,
            b@.results.len() == 0,
            b@.active is None,
    {
        let results: Vec<ResultSpan> = Vec::new();
        let query = String::new();
        proof {
            assert(results@.map_values(|r: ResultSpan| span_view(r)) =~= Seq::<(int, int)>::empty());
        }
        SearchBar { query, replacement: String::new(), source: String::new(), case_sensitive: true, results, active: None }
    }
}

impl SearchBar {
    #[verifier::type_invariant]
    closed spec fn inv(&self) -> bool {
        consistent(self@)
    }

    pub fn new(source: &str) -> (b: Self)
        ensures
            b@.source == source@,
            b@.query.len() == 0,
            b@.replacement.len() == 0,
            b@.case_sensitive,
            b@.results.len() == 0,
            b@.active is None,
    {
        let results: Vec<ResultSpan> = Vec::new();
        let query = String::new();
        proof {
            assert(results@.map_values(|r: ResultSpan| span_view(r)) =~= Seq::<(int, int)>::empty());
        }
        SearchBar { query, replacement: String::new(), source: source.to_owned(), case_sensitive: true, results, active: None }
    }

    pub fn source(&self) -> (s: &str)
        ensures
            s@ == self@.source,
    {
        self.source.as_str()
    }

    pub fn query(&self) -> (s: &str)
        ensures
            s@ == self@.query,
    {
        self.query.as_str()
    }

    pub fn replacement(&self) -> (s: &str)
        ensures
            s@ == self@.replacement,
    {
        self.replacement.as_str()
    }

    pub fn case_sensitive(&self) -> (b: bool)
        ensures
            b == self@.case_sensitive,
    {
        self.case_sensitive
    }

    /// Every occurrence of the query, in source order.
    pub fn results(&self) -> (r: &[ResultSpan])
        ensures
            r@.map_values(|x: ResultSpan| span_view(x)) == self@.results,
            self@.results == result_spans(self@.source, self@.query, self@.case_sensitive),
    {
        proof {
            use_type_invariant(self);
        }
        self.results.as_slice()
    }

    pub fn active_result_index(&self) -> (r: Option<usize>)
        ensures
            r matches Some(i) ==> self@.active == Some(i as int) && i < self@.results.len(),
            r is None ==> self@.active is None,
    {
        proof {
            use_type_invariant(self);
        }
        self.active
    }

    pub fn active_result(&self) -> (r: Option<ResultSpan>)
        ensures
            self@.active matches Some(i) ==> (r matches Some(x) && span_view(x) == self@.results[i]),
            self@.active is None ==> r is None,
    {
        proof {
            use_type_invariant(self);
        }
        match self.active {
            Some(i) => Some(copy_span(&self.results[i])),
            None => None,
        }
    }

    /// Replaces the source; results are recomputed and nothing is active.
    pub fn set_source(&mut self, source: &str)
        ensures
            final(self)@ == (SearchView {
                source: source@,
                results: result_spans(source@, old(self)@.query, old(self)@.case_sensitive),
                active: None,
                ..old(self)@
            }),
    {
        let results = compute_results(source, self.query.as_str(), self.case_sensitive);
        *self = SearchBar {
            query: self.query.clone(),
            replacement: self.replacement.clone(),
            source: source.to_owned(),
            case_sensitive: self.case_sensitive,
            results,
            active: None,
        };
    }

    /// Replaces the query; results are recomputed and nothing is active.
    pub fn set_query(&mut self, query: &str)
        ensures
            final(self)@ == (SearchView {
                query: query@,
                results: result_spans(old(self)@.source, query@, old(self)@.case_sensitive),
                active: None,
                ..old(self)@
            }),
    {
        let results = compute_results(self.source.as_str(), query, self.case_sensitive);
        *self = SearchBar {
            query: query.to_owned(),
            replacement: self.replacement.clone(),
            source: self.source.clone(),
            case_sensitive: self.case_sensitive,
            results,
            active: None,
        };
    }

    pub fn set_replacement(&mut self, replacement: &str)
        ensures
            final(self)@ == (SearchView { replacement: replacement@, ..old(self)@ }),
    {
        proof {
            use_type_invariant(&*self);
        }
        *self = SearchBar {
            query: self.query.clone(),
            replacement: replacement.to_owned(),
            source: self.source.clone(),
            case_sensitive: self.case_sensitive,
            results: copy_results(&self.results),
            active: self.active,
        };
    }

    /// Switches case sensitivity; a change recomputes the results and clears the active one.
    pub fn set_case_sensitive(&mut self, value: bool)
        ensures
            old(self)@.case_sensitive == value ==> final(self)@ == old(self)@,
            old(self)@.case_sensitive != value ==> final(self)@ == (SearchView {
                case_sensitive: value,
                results: result_spans(old(self)@.source, old(self)@.query, value),
                active: None,
                ..old(self)@
            }),
    {
        if self.case_sensitive != value {
            let results = compute_results(self.source.as_str(), self.query.as_str(), value);
            *self = SearchBar {
                query: self.query.clone(),
                replacement: self.replacement.clone(),
                source: self.source.clone(),
                case_sensitive: value,
                results,
                active: None,
            };
        }
    }

    /// Moves to the next result, wrapping to the first; with no results nothing is active.
    pub fn next_result(&mut self) -> (r: Option<ResultSpan>)
        ensures
            final(self)@.active == next_active(old(self)@.active, old(self)@.results.len() as int),
            final(self)@ == (SearchView { active: final(self)@.active, ..old(self)@ }),
            final(self)@.active matches Some(i) ==> (r matches Some(x) && span_view(x) == final(self)@.results[i]),
            final(self)@.active is None ==> r is None,
    {
        proof {
            use_type_invariant(&*self);
        }
        let n = self.results.len();
        let next = if n == 0 {
            None
        } else {
            match self.active {
                None => Some(0),
                Some(i) => Some((i + 1) % n),
            }
        };
        self.set_active(next);
        self.active_result()
    }

    /// Moves to the previous result, wrapping to the last; with no results nothing is active.
    pub fn previous_result(&mut self) -> (r: Option<ResultSpan>)
        ensures
            final(self)@.active == previous_active(old(self)@.active, old(self)@.results.len() as int),
            final(self)@ == (SearchView { active: final(self)@.active, ..old(self)@ }),
            final(self)@.active matches Some(i) ==> (r matches Some(x) && span_view(x) == final(self)@.results[i]),
            final(self)@.active is None ==> r is None,
    {
        proof {
            use_type_invariant(&*self);
        }
        let n = self.results.len();
        let next = if n == 0 {
            None
        } else {
            match self.active {
                None => Some(n - 1),
                Some(i) => if i == 0 {
                    Some(n - 1)
                } else {
                    Some(i - 1)
                },
            }
        };
        self.set_active(next);
        self.active_result()
    }

    fn set_active(&mut self, active: Option<usize>)
        requires
            active matches Some(i) ==> i < old(self)@.results.len(),
        ensures
            final(self)@ == (SearchView {
                active: match active {
                    Some(i) => Some(i as int),
                    None => None,
                },
                ..old(self)@
            }),
    {
        proof {
            use_type_invariant(&*self);
        }
        *self = SearchBar {
            query: self.query.clone(),
            replacement: self.replacement.clone(),
            source: self.source.clone(),
            case_sensitive: self.case_sensitive,
            results: copy_results(&self.results),
            active,
        };
    }

    /// A plan to replace the active result, if any.
    pub fn replace_current_plan(&self) -> (p: Option<ReplacementPlan>)
        ensures
            self@.active matches Some(i) ==> (p matches Some(x) && (x.span.start as int, x.span.end as int) == self@.results[i]
                && x.replacement@ == self@.replacement),
            self@.active is None ==> p is None,
    {
        match self.active_result() {
            Some(r) => Some(ReplacementPlan { span: r.span, replacement: self.replacement.clone() }),
            None => None,
        }
    }

    /// A plan to replace every result, in source order.
    pub fn replace_all_plans(&self) -> (v: Vec<ReplacementPlan>)
        ensures
            v@.len() == self@.results.len(),
            forall|i: int| 0 <= i < v@.len() ==> (#[trigger] v@[i].span.start as int, v@[i].span.end as int) == self@.results[i]
                && v@[i].replacement@ == self@.replacement,
    {
        let mut v: Vec<ReplacementPlan> = Vec::new();
        let mut i: usize = 0;
        while i < self.results.len()
            invariant
                i <= self.results@.len(),
                v@.len() == i,
                forall|k: int| 0 <= k < i ==> plan_view(#[trigger] v@[k]) == (span_view(self.results@[k]), self.replacement@),
            decreases self.results@.len() - i,
        {
            let r = &self.results[i];
            v.push(ReplacementPlan { span: r.span.start..r.span.end, replacement: self.replacement.clone() });
            i = i + 1;
        }
        proof {
            assert forall|k: int| 0 <= k < v@.len() implies span_view(self.results@[k]) == #[trigger] self@.results[k] by {}
        }
        v
    }
}

fn copy_results(rs: &Vec<ResultSpan>) -> (out: Vec<ResultSpan>)
    ensures
        out@.map_values(|r: ResultSpan| span_view(r)) == rs@.map_values(|r: ResultSpan| span_view(r)),
{
    let mut out: Vec<ResultSpan> = Vec::new();
    let mut i: usize = 0;
    while i < rs.len()
        invariant
            i <= rs@.len(),
            out@.len() == i,
            forall|k: int| 0 <= k < i ==> span_view(#[trigger] out@[k]) == span_view(rs@[k]),
        decreases rs@.len() - i,
    {
        out.push(copy_span(&rs[i]));
        i = i + 1;
    }
    proof {
        assert(out@.map_values(|r: ResultSpan| span_view(r)) =~= rs@.map_values(|r: ResultSpan| span_view(r)));
    }
    out
}

/// The active index after moving forward through `n` results.
pub open spec fn next_active(active: Option<int>, n: int) -> Option<int> {
    if n == 0 {
        None
    } else {
        match active {
            None => Some(0),
            Some(i) => Some((i + 1) % n),
        }
    }
}

/// The active index after moving backward through `n` results.
pub open spec fn previous_active(active: Option<int>, n: int) -> Option<int> {
    if n == 0 {
        None
    } else {
        match active {
            None => Some(n - 1),
            Some(i) => if i == 0 { Some(n - 1) } else { Some(i - 1) },
        }
    }
}

/// Moving forward then backward returns to the same result, and moving
/// forward `n` times from the last result visits every result once, in order.
pub proof fn lemma_navigation_round_trip(i: int, n: int)
    requires
        0 <= i < n,
    ensures
        previous_active(next_active(Some(i), n), n) == Some(i),
        next_active(previous_active(Some(i), n), n) == Some(i),
        next_active(Some(i), n) matches Some(j) && 0 <= j < n,
{
    if i + 1 < n {
        vstd::arithmetic::div_mod::lemma_small_mod((i + 1) as nat, n as nat);
    } else {
        vstd::arithmetic::div_mod::lemma_mod_self_0(n);
    }
    if i > 0 {
        vstd::arithmetic::div_mod::lemma_small_mod(i as nat, n as nat);
    } else {
        vstd::arithmetic::div_mod::lemma_mod_self_0(n);
    }
}

/// The byte span of an occurrence of `q` at character `i` of `src`.
pub open spec fn occurrence(src: Seq<char>, q: Seq<char>, i: int) -> (int, int) {
    (enc(src.take(i)).len() as int, enc(src.take(i + q.len())).len() as int)
}

proof fn lemma_spans_before(src: Seq<char>, q: Seq<char>, case_sensitive: bool, n: int)
    requires
        0 <= n <= src.len(),
    ensures
        forall|x: (int, int)| #[trigger] spans_before(src, q, case_sensitive, n).contains(x) ==> exists|i: int|
            0 <= i < n && match_here(src, q, i, case_sensitive) && x == occurrence(src, q, i),
        forall|i: int| 0 <= i < n && #[trigger] match_here(src, q, i, case_sensitive)
            ==> spans_before(src, q, case_sensitive, n).contains(occurrence(src, q, i)),
        forall|x: (int, int)| #[trigger] spans_before(src, q, case_sensitive, n).contains(x) ==> x.0 < byte_at(src, n)
            || n == 0,
        forall|j: int, k: int| 0 <= j < k < spans_before(src, q, case_sensitive, n).len()
            ==> #[trigger] spans_before(src, q, case_sensitive, n)[j].0 < #[trigger] spans_before(src, q, case_sensitive, n)[k].0,
    decreases n,
{
    if n > 0 {
        lemma_spans_before(src, q, case_sensitive, n - 1);
        let prev = spans_before(src, q, case_sensitive, n - 1);
        let cur = spans_before(src, q, case_sensitive, n);
        let y = occurrence(src, q, n - 1);
        if match_here(src, q, n - 1, case_sensitive) {
            assert(cur == prev.push(y));
            assert forall|x: (int, int)| #[trigger] cur.contains(x) implies exists|i: int|
                0 <= i < n && match_here(src, q, i, case_sensitive) && x == occurrence(src, q, i) by {
                if x != y {
                    let t = choose|t: int| 0 <= t < cur.len() && cur[t] == x;
                    assert(prev.contains(x)) by {
                        assert(prev[t] == x);
                    }
                }
            }
            assert forall|i: int| 0 <= i < n && #[trigger] match_here(src, q, i, case_sensitive)
                implies cur.contains(occurrence(src, q, i)) by {
                if i < n - 1 {
                    let t = choose|t: int| 0 <= t < prev.len() && prev[t] == occurrence(src, q, i);
                    assert(cur[t] == occurrence(src, q, i));
                } else {
                    assert(cur[cur.len() - 1] == y);
                }
            }
            if n >= 2 {
                lemma_byte_at_mono(src, n - 2, n - 1);
            }
            lemma_byte_at_mono(src, n - 1, n);
            assert forall|x: (int, int)| #[trigger] cur.contains(x) implies x.0 < byte_at(src, n) || n == 0 by {
                if x != y {
                    let t = choose|t: int| 0 <= t < cur.len() && cur[t] == x;
                    assert(prev[t] == x);
                    assert(prev.contains(x));
                }
            }
            assert forall|j: int, k: int| 0 <= j < k < cur.len() implies #[trigger] cur[j].0 < #[trigger] cur[k].0 by {
                if k == cur.len() - 1 {
                    assert(prev.contains(prev[j]));
                } else {
                    assert(cur[j] == prev[j] && cur[k] == prev[k]);
                }
            }
        } else {
            assert(cur == prev);
            assert forall|i: int| 0 <= i < n && #[trigger] match_here(src, q, i, case_sensitive)
                implies cur.contains(occurrence(src, q, i)) by {
                assert(i < n - 1);
            }
            lemma_byte_at_mono(src, n - 1, n);
        }
    }
}

/// The results of a search are exactly the character-aligned occurrences of a
/// non-empty query in the source, overlapping ones included, each as its byte
/// span, in increasing order of their starts; an empty query has no results.
pub proof fn lemma_results_are_occurrences(src: Seq<char>, q: Seq<char>, case_sensitive: bool)
    ensures
        q.len() == 0 ==> result_spans(src, q, case_sensitive).len() == 0,
        q.len() > 0 ==> forall|x: (int, int)| #[trigger] result_spans(src, q, case_sensitive).contains(x) <==> exists|i: int|
            match_here(src, q, i, case_sensitive) && x == occurrence(src, q, i),
        forall|j: int, k: int| 0 <= j < k < result_spans(src, q, case_sensitive).len()
            ==> #[trigger] result_spans(src, q, case_sensitive)[j].0 < #[trigger] result_spans(src, q, case_sensitive)[k].0,
{
    if q.len() > 0 {
        lemma_spans_before(src, q, case_sensitive, src.len() as int);
        assert forall|x: (int, int)| (exists|i: int| match_here(src, q, i, case_sensitive) && x == occurrence(src, q, i))
            implies #[trigger] result_spans(src, q, case_sensitive).contains(x) by {
            let i = choose|i: int| match_here(src, q, i, case_sensitive) && x == occurrence(src, q, i);
            assert(0 <= i < src.len());
        }
    }
}

} // verus!
