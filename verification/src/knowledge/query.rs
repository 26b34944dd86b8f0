//! The search query language: terms, `key:value` atoms, negation, `OR`.
use vstd::prelude::*;
use crate::text::{
    chars_of, contains_seq, contains_text, index_of, index_of_in, is_ws, is_whitespace, lower_ascii,
    lower_ascii_seq, lower_ascii_range, lowercase, run_end, run_end_exec, string_of, string_from_chars,
    sub_chars, to_lowercase, vec_eq, enc, rfind_chars, match_at,
};
use super::{Document, prop_texts, tag_texts, task_views};

verus! {

#[derive(Debug, PartialEq, Eq)]
pub enum Query {
    Term(String),
    Path(String),
    File(String),
    Content(String),
    Tag(String),
    Property(String, String),
    Task(Option<bool>),
    Not(Box<Query>),
    And(Vec<Query>),
    Or(Vec<Query>),
}

#[derive(Clone, Debug, PartialEq, Eq)]
pub struct QueryError {
    pub message: String,
    pub position: usize,
}

/// A query with its texts as characters.
pub enum QueryView {
    Term(Seq<char>),
    Path(Seq<char>),
    File(Seq<char>),
    Content(Seq<char>),
    Tag(Seq<char>),
    Property(Seq<char>, Seq<char>),
    Task(Option<bool>),
    Not(Box<QueryView>),
    And(Seq<QueryView>),
    Or(Seq<QueryView>),
}

pub open spec fn qview(q: Query) -> QueryView
    decreases q,
{
    match q {
        Query::Term(s) => QueryView::Term(s@),
        Query::Path(s) => QueryView::Path(s@),
        Query::File(s) => QueryView::File(s@),
        Query::Content(s) => QueryView::Content(s@),
        Query::Tag(s) => QueryView::Tag(s@),
        Query::Property(k, v) => QueryView::Property(k@, v@),
        Query::Task(d) => QueryView::Task(d),
        Query::Not(x) => QueryView::Not(Box::new(qview(*x))),
        Query::And(xs) => QueryView::And(qviews(xs@)),
        Query::Or(xs) => QueryView::Or(qviews(xs@)),
    }
}

pub open spec fn qviews(v: Seq<Query>) -> Seq<QueryView>
    decreases v,
{
    if v.len() == 0 {
        Seq::empty()
    } else {
        seq![qview(v[0])] + qviews(v.drop_first())
    }
}

pub proof fn lemma_qviews(v: Seq<Query>)
    ensures
        qviews(v).len() == v.len(),
        forall|k: int| 0 <= k < v.len() ==> #[trigger] qviews(v)[k] == qview(v[k]),
    decreases v.len(),
{
    if v.len() > 0 {
        lemma_qviews(v.drop_first());
        assert forall|k: int| 0 <= k < v.len() implies #[trigger] qviews(v)[k] == qview(v[k]) by {
            if k > 0 {
                assert(v.drop_first()[k - 1] == v[k]);
            }
        }
    }
}

// ---------------------------------------------------------------- parsing

/// The tokenizer's state: where the pending token starts, whether a quote
/// is open, and the tokens so far.
pub struct Tok {
    pub start: Option<int>,
    pub quote: bool,
    pub tokens: Seq<Seq<char>>,
}

/// Splits `s` from character `i` on whitespace outside quotes; a quote opens
/// or closes quoting and, at a token's start, starts the token after it.
pub open spec fn tokenize(s: Seq<char>, i: int, st: Tok) -> Tok
    decreases s.len() - i,
{
    if i < 0 || i >= s.len() {
        st
    } else if s[i] == '"' {
        tokenize(s, i + 1, Tok { start: if st.start is None { Some(i + 1) } else { st.start }, quote: !st.quote, tokens: st.tokens })
    } else if is_ws(s[i]) && !st.quote {
        match st.start {
            Some(a) => tokenize(s, i + 1, Tok { start: None, quote: st.quote, tokens: st.tokens.push(s.subrange(a, i)) }),
            None => tokenize(s, i + 1, st),
        }
    } else if st.start is None {
        tokenize(s, i + 1, Tok { start: Some(i), ..st })
    } else {
        tokenize(s, i + 1, st)
    }
}

/// `t` without trailing `"`.
pub open spec fn trim_quotes_end(t: Seq<char>) -> Seq<char>
    decreases t.len(),
{
    if t.len() > 0 && t.last() == '"' {
        trim_quotes_end(t.drop_last())
    } else {
        t
    }
}

/// The tokens of a query, the last one without trailing quotes; `None` when a quote is left open.
pub open spec fn tokens_of(s: Seq<char>) -> Option<Seq<Seq<char>>> {
    let st = tokenize(s, 0, Tok { start: None, quote: false, tokens: Seq::empty() });
    if st.quote {
        None
    } else {
        match st.start {
            Some(a) => Some(st.tokens.push(trim_quotes_end(s.subrange(a, s.len() as int)))),
            None => Some(st.tokens),
        }
    }
}

/// `t` without leading `#`.
pub open spec fn trim_hashes(t: Seq<char>) -> Seq<char> {
    t.skip(run_end(t, t.len() as int, '#', 0))
}

/// The text before and after the first `sep`, if there is one.
pub open spec fn split_once(t: Seq<char>, sep: char) -> Option<(Seq<char>, Seq<char>)> {
    match index_of(t, sep) {
        Some(k) => Some((t.take(k), t.skip(k + 1))),
        None => None,
    }
}

/// One query atom: `key:value` for the known keys, otherwise a term.
pub open spec fn atom(raw: Seq<char>) -> QueryView {
    let (key, value) = match split_once(raw, ':') {
        Some(kv) => kv,
        None => (Seq::empty(), raw),
    };
    let k = lower_ascii_seq(key);
    if k == seq!['p', 'a', 't', 'h'] {
        QueryView::Path(value)
    } else if k == seq!['f', 'i', 'l', 'e'] {
        QueryView::File(value)
    } else if k == seq!['c', 'o', 'n', 't', 'e', 'n', 't'] {
        QueryView::Content(value)
    } else if k == seq!['t', 'a', 'g'] {
        QueryView::Tag(trim_hashes(value))
    } else if k == seq!['t', 'a', 's', 'k'] {
        QueryView::Task(
            if value == seq!['d', 'o', 'n', 'e'] {
                Some(true)
            } else if value == seq!['t', 'o', 'd', 'o'] || value == seq!['o', 'p', 'e', 'n'] {
                Some(false)
            } else {
                None
            },
        )
    } else if k == seq!['p', 'r', 'o', 'p', 'e', 'r', 't', 'y'] {
        match split_once(value, '=') {
            Some((a, b)) => QueryView::Property(a, b),
            None => QueryView::Property(value, Seq::empty()),
        }
    } else {
        QueryView::Term(raw)
    }
}

/// Whether a token is `OR` in any ASCII case.
pub open spec fn is_or(t: Seq<char>) -> bool {
    t.len() == 2 && lower_ascii(t[0]) == 'o' && lower_ascii(t[1]) == 'r'
}

/// Folds tokens into groups separated by `OR`; a leading `-` negates an atom.
pub open spec fn group_tokens(tokens: Seq<Seq<char>>, groups: Seq<Seq<QueryView>>, or: bool) -> (Seq<Seq<QueryView>>, bool)
    decreases tokens.len(),
{
    if tokens.len() == 0 {
        (groups, or)
    } else {
        let raw = tokens[0];
        if is_or(raw) {
            group_tokens(tokens.drop_first(), groups.push(Seq::empty()), true)
        } else {
            let neg = raw.len() > 0 && raw[0] == '-';
            let q = atom(if neg { raw.skip(1) } else { raw });
            let item = if neg { QueryView::Not(Box::new(q)) } else { q };
            group_tokens(tokens.drop_first(), groups.update(groups.len() - 1, groups.last().push(item)), or)
        }
    }
}

/// A group as one query: its only member, or their conjunction.
pub open spec fn group_query(g: Seq<QueryView>) -> QueryView {
    if g.len() == 1 {
        g[0]
    } else {
        QueryView::And(g)
    }
}

/// The query that `s` denotes, or the position of an unterminated quote.
pub open spec fn parse_spec(s: Seq<char>) -> Result<QueryView, int> {
    match tokens_of(s) {
        None => Err(enc(s).len() as int),
        Some(tokens) => if tokens.len() == 0 {
            Ok(QueryView::Term(Seq::empty()))
        } else {
            let (groups, or) = group_tokens(tokens, seq![Seq::empty()], false);
            let parts = groups.map_values(|g: Seq<QueryView>| group_query(g));
            if or {
                Ok(QueryView::Or(parts))
            } else if parts.len() == 1 {
                Ok(parts[0])
            } else {
                Ok(QueryView::And(parts))
            }
        },
    }
}

pub open spec fn unterminated_message() -> Seq<char> {
    seq!['u', 'n', 't', 'e', 'r', 'm', 'i', 'n', 'a', 't', 'e', 'd', ' ', 'q', 'u', 'o', 't', 'e']
}


/// The texts of a list of character vectors.
pub open spec fn cviews(v: Seq<Vec<char>>) -> Seq<Seq<char>> {
    v.map_values(|t: Vec<char>| t@)
}

pub open spec fn opt_int(o: Option<usize>) -> Option<int> {
    match o {
        Some(a) => Some(a as int),
        None => None,
    }
}

pub open spec fn tok_start() -> Tok {
    Tok { start: None, quote: false, tokens: Seq::empty() }
}

proof fn lemma_qviews_push(v: Seq<Query>, x: Query)
    ensures
        qviews(v.push(x)) == qviews(v).push(qview(x)),
{
    lemma_qviews(v);
    lemma_qviews(v.push(x));
    assert(qviews(v.push(x)) =~= qviews(v).push(qview(x))) by {
        assert forall|k: int| 0 <= k < v.len() implies qviews(v.push(x))[k] == qviews(v)[k] by {
            assert(v.push(x)[k] == v[k]);
        }
        assert(v.push(x)[v.len() as int] == x);
    }
}

/// Splits `cs` into raw tokens as [`tokenize`] does.
fn tokenize_exec(cs: &Vec<char>) -> (r: (Vec<Vec<char>>, Option<usize>, bool))
    ensures
        tokenize(cs@, 0, tok_start()) == (Tok { start: opt_int(r.1), quote: r.2, tokens: cviews(r.0@) }),
        r.1 matches Some(a) ==> a <= cs@.len(),
{
    let mut tokens: Vec<Vec<char>> = Vec::new();
    let mut start: Option<usize> = None;
    let mut quote = false;
    let mut i: usize = 0;
    proof {
        assert(cviews(tokens@) =~= Seq::<Seq<char>>::empty());
    }
    while i < cs.len()
        invariant
            i <= cs@.len(),
            start matches Some(a) ==> a <= i,
            tokenize(cs@, i as int, Tok { start: opt_int(start), quote, tokens: cviews(tokens@) })
                == tokenize(cs@, 0, tok_start()),
        decreases cs@.len() - i,
    {
        let ghost st = Tok { start: opt_int(start), quote, tokens: cviews(tokens@) };
        let c = cs[i];
        if c == '"' {
            if start.is_none() {
                start = Some(i + 1);
            }
            quote = !quote;
        } else if is_whitespace(c) && !quote {
            match start {
                Some(a) => {
                    let t = sub_chars(cs, a, i);
                    let ghost before = tokens@;
                    tokens.push(t);
                    proof {
                        assert(cviews(tokens@) =~= cviews(before).push(cs@.subrange(a as int, i as int)));
                    }
                    start = None;
                },
                None => {},
            }
        } else if start.is_none() {
            start = Some(i);
        }
        proof {
            assert(tokenize(cs@, i as int, st) == tokenize(cs@, i + 1, Tok { start: opt_int(start), quote, tokens: cviews(tokens@) }));
        }
        i = i + 1;
    }
    (tokens, start, quote)
}

/// The end of `cs[a..]` once trailing `"` are dropped.
fn trim_quotes_end_exec(cs: &Vec<char>, a: usize) -> (b: usize)
    requires
        a <= cs@.len(),
    ensures
        a <= b <= cs@.len(),
        cs@.subrange(a as int, b as int) == trim_quotes_end(cs@.subrange(a as int, cs@.len() as int)),
{
    let mut b = cs.len();
    while b > a && cs[b - 1] == '"'
        invariant
            a <= b <= cs@.len(),
            trim_quotes_end(cs@.subrange(a as int, b as int)) == trim_quotes_end(cs@.subrange(a as int, cs@.len() as int)),
        decreases b,
    {
        proof {
            assert(cs@.subrange(a as int, b as int).drop_last() =~= cs@.subrange(a as int, b - 1));
        }
        b = b - 1;
    }
    b
}

/// Whether `k` holds exactly the characters of `w`.
fn is_word(k: &Vec<char>, w: &str) -> (r: bool)
    ensures
        r == (k@ == w@),
{
    let wc = chars_of(w);
    vec_eq(k, &wc)
}

/// One query atom, as [`atom`] reads it.
fn parse_atom(raw: &Vec<char>) -> (q: Query)
    ensures
        qview(q) == atom(raw@),
{
    proof {
        assert(raw@.subrange(0, raw@.len() as int) =~= raw@);
        reveal_strlit("path");
        reveal_strlit("file");
        reveal_strlit("content");
        reveal_strlit("tag");
        reveal_strlit("task");
        reveal_strlit("property");
        reveal_strlit("done");
        reveal_strlit("todo");
        reveal_strlit("open");
        assert("path"@ =~= seq!['p', 'a', 't', 'h']);
        assert("file"@ =~= seq!['f', 'i', 'l', 'e']);
        assert("content"@ =~= seq!['c', 'o', 'n', 't', 'e', 'n', 't']);
        assert("tag"@ =~= seq!['t', 'a', 'g']);
        assert("task"@ =~= seq!['t', 'a', 's', 'k']);
        assert("property"@ =~= seq!['p', 'r', 'o', 'p', 'e', 'r', 't', 'y']);
        assert("done"@ =~= seq!['d', 'o', 'n', 'e']);
        assert("todo"@ =~= seq!['t', 'o', 'd', 'o']);
        assert("open"@ =~= seq!['o', 'p', 'e', 'n']);
    }
    let n = raw.len();
    let colon = index_of_in(raw, 0, n, ':');
    let at = match colon {
        Some(at) => at,
        None => {
            proof {
                assert(lower_ascii_seq(Seq::<char>::empty()) =~= Seq::<char>::empty());
            }
            return Query::Term(string_from_chars(raw));
        },
    };
    let key = lower_ascii_range(raw, 0, at);
    let value = sub_chars(raw, at + 1, n);
    proof {
        assert(raw@.subrange(0, at as int) =~= raw@.take(at as int));
        assert(raw@.subrange(at + 1, n as int) =~= raw@.skip(at + 1));
    }
    let vn = value.len();
    if is_word(&key, "path") {
        Query::Path(string_from_chars(&value))
    } else if is_word(&key, "file") {
        Query::File(string_from_chars(&value))
    } else if is_word(&key, "content") {
        Query::Content(string_from_chars(&value))
    } else if is_word(&key, "tag") {
        let e = run_end_exec(&value, vn, '#', 0);
        let t = string_of(&value, e, vn);
        proof {
            assert(value@.subrange(e as int, vn as int) =~= value@.skip(e as int));
        }
        Query::Tag(t)
    } else if is_word(&key, "task") {
        let d = if is_word(&value, "done") {
            Some(true)
        } else if is_word(&value, "todo") || is_word(&value, "open") {
            Some(false)
        } else {
            None
        };
        Query::Task(d)
    } else if is_word(&key, "property") {
        proof {
            assert(value@.subrange(0, vn as int) =~= value@);
        }
        match index_of_in(&value, 0, vn, '=') {
            Some(j) => {
                proof {
                    assert(value@.subrange(0, j as int) =~= value@.take(j as int));
                    assert(value@.subrange(j + 1, vn as int) =~= value@.skip(j + 1));
                }
                Query::Property(string_of(&value, 0, j), string_of(&value, j + 1, vn))
            },
            None => Query::Property(string_from_chars(&value), String::new()),
        }
    } else {
        Query::Term(string_from_chars(raw))
    }
}

/// One token as an item of a group: an atom, negated after a leading `-`.
fn token_item(raw: &Vec<char>) -> (q: Query)
    ensures
        qview(q) == ({
            let neg = raw@.len() > 0 && raw@[0] == '-';
            let a = atom(if neg { raw@.skip(1) } else { raw@ });
            if neg { QueryView::Not(Box::new(a)) } else { a }
        }),
{
    if raw.len() > 0 && raw[0] == '-' {
        let rest = sub_chars(raw, 1, raw.len());
        proof {
            assert(raw@.subrange(1, raw@.len() as int) =~= raw@.skip(1));
        }
        Query::Not(Box::new(parse_atom(&rest)))
    } else {
        parse_atom(raw)
    }
}

/// Whether a token is `OR` in any ASCII case.
fn is_or_exec(t: &Vec<char>) -> (r: bool)
    ensures
        r == is_or(t@),
{
    if t.len() != 2 {
        return false;
    }
    let a = crate::text::to_ascii_lower_char(t[0]);
    let b = crate::text::to_ascii_lower_char(t[1]);
    a == 'o' && b == 'r'
}

/// A group as one query, as [`group_query`] folds it.
fn group_into(g: Vec<Query>) -> (q: Query)
    ensures
        qview(q) == group_query(qviews(g@)),
{
    proof {
        lemma_qviews(g@);
    }
    if g.len() == 1 {
        let mut g = g;
        g.pop().unwrap()
    } else {
        Query::And(g)
    }
}

/// Parses the search query language: whitespace separates terms (quotes
/// keep whitespace inside a term), `OR` separates alternatives, a leading
/// `-` negates, and `path:`, `file:`, `content:`, `tag:`, `task:` and
/// `property:` select a field. An open quote is an error at the input's end.
pub fn parse_query(input: &str) -> (r: Result<Query, QueryError>)
    ensures
        match r {
            Ok(q) => parse_spec(input@) == Ok::<QueryView, int>(qview(q)),
            Err(e) => parse_spec(input@) == Err::<QueryView, int>(e.position as int) && e.message@ == unterminated_message(),
        },
{
    let cs = chars_of(input);
    let (mut tokens, start, quote) = tokenize_exec(&cs);
    if quote {
        let message = "unterminated quote".to_owned();
        proof {
            reveal_strlit("unterminated quote");
            assert(message@ =~= unterminated_message());
        }
        return Err(QueryError { message, position: input.as_bytes().len() });
    }
    match start {
        Some(a) => {
            let b = trim_quotes_end_exec(&cs, a);
            let ghost before = tokens@;
            tokens.push(sub_chars(&cs, a, b));
            proof {
                assert(cviews(tokens@) =~= cviews(before).push(cs@.subrange(a as int, b as int)));
            }
        },
        None => {},
    }
    let ghost tv = cviews(tokens@);
    assert(tokens_of(input@) == Some(tv));
    if tokens.len() == 0 {
        proof {
            reveal_strlit("");
        }
        return Ok(Query::Term(String::new()));
    }
    let mut done: Vec<Query> = Vec::new();
    let mut cur: Vec<Query> = Vec::new();
    let ghost mut done_g: Seq<Seq<QueryView>> = Seq::empty();
    let mut or = false;
    let mut k: usize = 0;
    proof {
        assert(tv.skip(0) =~= tv);
        assert(qviews(cur@) =~= Seq::<QueryView>::empty());
        assert(done_g.push(qviews(cur@)) =~= seq![Seq::<QueryView>::empty()]);
    }
    while k < tokens.len()
        invariant
            k <= tokens@.len(),
            tv == cviews(tokens@),
            group_tokens(tv.skip(k as int), done_g.push(qviews(cur@)), or) == group_tokens(tv, seq![Seq::<QueryView>::empty()], false),
            done@.len() == done_g.len(),
            forall|j: int| 0 <= j < done@.len() ==> qview(#[trigger] done@[j]) == group_query(done_g[j]),
        decreases tokens@.len() - k,
    {
        let ghost rest = tv.skip(k as int);
        let ghost groups = done_g.push(qviews(cur@));
        proof {
            assert(rest[0] == tokens@[k as int]@);
            assert(rest.drop_first() =~= tv.skip(k + 1));
        }
        if is_or_exec(&tokens[k]) {
            let finished = cur;
            cur = Vec::new();
            let ghost fg = qviews(finished@);
            let q = group_into(finished);
            done.push(q);
            proof {
                done_g = done_g.push(fg);
                assert(qviews(cur@) =~= Seq::<QueryView>::empty());
                assert(done_g.push(qviews(cur@)) =~= groups.push(Seq::empty()));
            }
            or = true;
        } else {
            let item = token_item(&tokens[k]);
            let ghost before = cur@;
            cur.push(item);
            proof {
                lemma_qviews_push(before, item);
                assert(done_g.push(qviews(cur@)) =~= groups.update(groups.len() - 1, groups.last().push(qview(item))));
            }
        }
        k = k + 1;
    }
    let ghost last = qviews(cur@);
    let q = group_into(cur);
    done.push(q);
    proof {
        assert(tv.skip(k as int) =~= Seq::<Seq<char>>::empty());
        let groups = done_g.push(last);
        let parts = groups.map_values(|g: Seq<QueryView>| group_query(g));
        lemma_qviews(done@);
        assert(qviews(done@) =~= parts);
    }
    if or {
        Ok(Query::Or(done))
    } else if done.len() == 1 {
        Ok(done.pop().unwrap())
    } else {
        Ok(Query::And(done))
    }
}

// ---------------------------------------------------------------- matching

/// Whether `b` occurs in `a`, ignoring case.
pub open spec fn contains_ci(a: Seq<char>, b: Seq<char>) -> bool {
    contains_seq(lowercase(a), lowercase(b))
}

/// The part of a path after its last `/`.
pub open spec fn file_part(p: Seq<char>) -> Seq<char> {
    match crate::text::rfind_seq(p, seq!['/']) {
        Some(k) => p.skip(k + 1),
        None => p,
    }
}

/// Whether some tag of `d` (without its leading `#`, when `hashes`) contains `s`, ignoring case.
pub open spec fn tag_hit(d: Document, s: Seq<char>, hashes: bool) -> bool {
    exists|k: int| 0 <= k < tag_texts(d).len() && contains_ci(
        if hashes { trim_hashes(#[trigger] tag_texts(d)[k]) } else { tag_texts(d)[k] }, s)
}

/// Whether note `d` satisfies query `q`.
pub open spec fn q_matches(q: QueryView, d: Document) -> bool
    decreases q,
{
    match q {
        QueryView::Term(s) => contains_ci(d.path@, s) || contains_ci(d.content@, s) || tag_hit(d, s, false),
        QueryView::Path(s) => contains_ci(d.path@, s),
        QueryView::File(s) => contains_ci(file_part(d.path@), s),
        QueryView::Content(s) => contains_ci(d.content@, s),
        QueryView::Tag(s) => tag_hit(d, s, true),
        QueryView::Property(k, v) => prop_texts(d).contains_key(k) && contains_ci(prop_texts(d)[k], v),
        QueryView::Task(done) => task_hit(d, done),
        QueryView::Not(x) => !q_matches(*x, d),
        QueryView::And(xs) => all_match(xs, d),
        QueryView::Or(xs) => any_match(xs, d),
    }
}

pub open spec fn all_match(xs: Seq<QueryView>, d: Document) -> bool
    decreases xs,
{
    if xs.len() == 0 {
        true
    } else {
        q_matches(xs[0], d) && all_match(xs.drop_first(), d)
    }
}

pub open spec fn any_match(xs: Seq<QueryView>, d: Document) -> bool
    decreases xs,
{
    if xs.len() == 0 {
        false
    } else {
        q_matches(xs[0], d) || any_match(xs.drop_first(), d)
    }
}


proof fn lemma_all_match(xs: Seq<QueryView>, d: Document)
    ensures
        all_match(xs, d) <==> forall|j: int| 0 <= j < xs.len() ==> q_matches(#[trigger] xs[j], d),
    decreases xs.len(),
{
    if xs.len() > 0 {
        lemma_all_match(xs.drop_first(), d);
        assert forall|j: int| 1 <= j < xs.len() implies #[trigger] xs[j] == xs.drop_first()[j - 1] by {}
    }
}

proof fn lemma_any_match(xs: Seq<QueryView>, d: Document)
    ensures
        any_match(xs, d) <==> exists|j: int| 0 <= j < xs.len() && q_matches(#[trigger] xs[j], d),
    decreases xs.len(),
{
    if xs.len() > 0 {
        lemma_any_match(xs.drop_first(), d);
        assert forall|j: int| 1 <= j < xs.len() implies #[trigger] xs[j] == xs.drop_first()[j - 1] by {}
        if any_match(xs.drop_first(), d) {
            let j = choose|j: int| 0 <= j < xs.drop_first().len() && q_matches(#[trigger] xs.drop_first()[j], d);
            assert(xs[j + 1] == xs.drop_first()[j]);
        }
    }
}

/// Whether `b` occurs in `a`, ignoring case as `str::to_lowercase` folds it.
pub fn contains_ignoring_case(a: &str, b: &str) -> (r: bool)
    ensures
        r == contains_ci(a@, b@),
{
    let la = to_lowercase(a);
    let lb = to_lowercase(b);
    contains_text(&la, &lb)
}

/// `t` without its leading `#`.
pub fn trim_hash_prefix(t: &str) -> (r: String)
    ensures
        r@ == trim_hashes(t@),
{
    let cs = chars_of(t);
    let n = cs.len();
    let e = run_end_exec(&cs, n, '#', 0);
    proof {
        assert(cs@.subrange(e as int, n as int) =~= cs@.skip(e as int));
    }
    string_of(&cs, e, n)
}

/// The part of a path after its last `/`.
pub fn file_name_part(p: &str) -> (r: String)
    ensures
        r@ == file_part(p@),
{
    let cs = chars_of(p);
    let n = cs.len();
    let slash = vec!['/'];
    proof {
        assert(slash@ =~= seq!['/']);
    }
    match rfind_chars(&cs, &slash) {
        Some(k) => {
            proof {
                assert(match_at(cs@, k as int, slash@));
                assert(k < n);
                assert(cs@.subrange(k + 1, cs@.len() as int) =~= cs@.skip(k + 1));
            }
            string_of(&cs, k + 1, cs.len())
        },
        None => string_from_chars(&cs),
    }
}

fn any_tag(d: &Document, s: &str, hashes: bool) -> (r: bool)
    ensures
        r == tag_hit(*d, s@, hashes),
{
    let mut k: usize = 0;
    while k < d.tags.len()
        invariant
            k <= d.tags@.len(),
            forall|j: int| 0 <= j < k ==> !contains_ci(
                if hashes { trim_hashes(#[trigger] tag_texts(*d)[j]) } else { tag_texts(*d)[j] }, s@),
        decreases d.tags@.len() - k,
    {
        let hit = if hashes {
            let t = trim_hash_prefix(&d.tags[k]);
            contains_ignoring_case(&t, s)
        } else {
            contains_ignoring_case(&d.tags[k], s)
        };
        if hit {
            proof {
                assert(tag_texts(*d)[k as int] == d.tags@[k as int]@);
            }
            return true;
        }
        proof {
            assert(tag_texts(*d)[k as int] == d.tags@[k as int]@);
        }
        k = k + 1;
    }
    proof {
        assert(tag_texts(*d).len() == d.tags@.len());
    }
    false
}

/// Whether a task's state is the one asked for (any state, for `None`).
pub open spec fn state_fits(done: bool, want: Option<bool>) -> bool {
    match want {
        Some(x) => done == x,
        None => true,
    }
}

/// Whether some task of `d` has the given state.
pub open spec fn task_hit(d: Document, want: Option<bool>) -> bool {
    exists|k: int| 0 <= k < task_views(d).len() && state_fits((#[trigger] task_views(d)[k]).1, want)
}

fn any_task(d: &Document, want: Option<bool>) -> (r: bool)
    ensures
        r == task_hit(*d, want),
{
    let n = d.tasks.len();
    let mut k: usize = 0;
    while k < n
        invariant
            n == d.tasks@.len(),
            k <= n,
            forall|j: int| 0 <= j < k ==> !state_fits((#[trigger] d.tasks@[j]).done, want),
        decreases n - k,
    {
        let hit = match want {
            None => true,
            Some(x) => d.tasks[k].done == x,
        };
        if hit {
            proof {
                assert(task_views(*d)[k as int] == (d.tasks@[k as int].text@, d.tasks@[k as int].done));
            }
            return true;
        }
        k = k + 1;
    }
    proof {
        if task_hit(*d, want) {
            let j = choose|j: int| 0 <= j < task_views(*d).len() && state_fits((#[trigger] task_views(*d)[j]).1, want);
            assert(task_views(*d)[j] == (d.tasks@[j].text@, d.tasks@[j].done));
            assert(!state_fits(d.tasks@[j].done, want));
        }
    }
    false
}

/// Whether note `d` satisfies query `q`: texts match ignoring case, a tag
/// matches without its leading `#`, and `Not`, `And`, `Or` combine.
pub fn matches_query(q: &Query, d: &Document) -> (r: bool)
    ensures
        r == q_matches(qview(*q), *d),
    decreases q,
{
    match q {
        Query::Term(s) => {
            let a = contains_ignoring_case(&d.path, s);
            let b = contains_ignoring_case(&d.content, s);
            let c = any_tag(d, s, false);
            a || b || c
        },
        Query::Path(s) => contains_ignoring_case(&d.path, s),
        Query::File(s) => {
            let f = file_name_part(&d.path);
            contains_ignoring_case(&f, s)
        },
        Query::Content(s) => contains_ignoring_case(&d.content, s),
        Query::Tag(s) => any_tag(d, s, true),
        Query::Property(k, v) => match d.properties.get(k) {
            Some(x) => contains_ignoring_case(x, v),
            None => false,
        },
        Query::Task(done) => any_task(d, *done),
        Query::Not(x) => !matches_query(x, d),
        Query::And(xs) => matches_all(xs, d),
        Query::Or(xs) => matches_any(xs, d),
    }
}

fn matches_all(xs: &Vec<Query>, d: &Document) -> (r: bool)
    ensures
        r == all_match(qviews(xs@), *d),
    decreases xs,
{
    proof {
        lemma_qviews(xs@);
        lemma_all_match(qviews(xs@), *d);
    }
    let mut k: usize = 0;
    while k < xs.len()
        invariant
            k <= xs@.len(),
            qviews(xs@).len() == xs@.len(),
            forall|j: int| 0 <= j < xs@.len() ==> #[trigger] qviews(xs@)[j] == qview(xs@[j]),
            forall|j: int| 0 <= j < k ==> q_matches(#[trigger] qviews(xs@)[j], *d),
        decreases xs@.len() - k,
    {
        proof {
            assert(decreases_to!(xs => xs@[k as int]));
        }
        if !matches_query(&xs[k], d) {
            proof {
                assert(!q_matches(qviews(xs@)[k as int], *d));
                lemma_all_match(qviews(xs@), *d);
            }
            return false;
        }
        k = k + 1;
    }
    true
}

fn matches_any(xs: &Vec<Query>, d: &Document) -> (r: bool)
    ensures
        r == any_match(qviews(xs@), *d),
    decreases xs,
{
    proof {
        lemma_qviews(xs@);
        lemma_any_match(qviews(xs@), *d);
    }
    let mut k: usize = 0;
    while k < xs.len()
        invariant
            k <= xs@.len(),
            qviews(xs@).len() == xs@.len(),
            forall|j: int| 0 <= j < xs@.len() ==> #[trigger] qviews(xs@)[j] == qview(xs@[j]),
            forall|j: int| 0 <= j < k ==> !q_matches(#[trigger] qviews(xs@)[j], *d),
        decreases xs@.len() - k,
    {
        proof {
            assert(decreases_to!(xs => xs@[k as int]));
        }
        if matches_query(&xs[k], d) {
            proof {
                assert(q_matches(qviews(xs@)[k as int], *d));
                lemma_any_match(qviews(xs@), *d);
            }
            return true;
        }
        k = k + 1;
    }
    false
}

} // verus!
