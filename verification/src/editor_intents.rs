//! Small, renderer-independent intents produced by interactions with Markdown.
//!
//! The scanner only borrows its input.  It deliberately does not try to be a
//! Markdown parser; callers can use it as a conservative hit-test helper and
//! decide how to execute the returned intent.  Spans are UTF-8 byte offsets.
use vstd::prelude::*;
use vstd::string::*;
use vstd::utf8::*;
use std::ops::Range;
use crate::text::{
    chars_of, char_offsets, enc, find_after, find_next, is_ascii_whitespace, is_ascii_ws, lemma_find_after, match_at, match_at_exec, next_ws, next_ws_exec, rfind_chars,
    rfind_seq, skip_ws, skip_ws_exec, string_of, sub_chars, trim_ws, trimmed,
};

verus! {

broadcast use vstd::utf8::encode_utf8_valid_utf8;

#[derive(Clone, Copy, Debug, Eq, PartialEq, Structural)]
pub struct SourceSpan {
    pub start: usize,
    pub end: usize,
}

impl SourceSpan {
    pub fn new(start: usize, end: usize) -> (s: Self)
        ensures
            s.start == start,
            s.end == end,
    {
        SourceSpan { start, end }
    }

    pub fn range(self) -> (r: Range<usize>)
        ensures
            r.start == self.start,
            r.end == self.end,
    {
        self.start..self.end
    }
}

#[derive(Clone, Debug, Eq, PartialEq)]
pub enum EditorIntent {
    Link { destination: String, span: SourceSpan },
    WikiLink { target: String, span: SourceSpan },
    Tag { name: String, span: SourceSpan },
    ToggleTask { checked: bool, span: SourceSpan },
    Embed { target: String, span: SourceSpan },
    NavigateBlock { reference: String, span: SourceSpan },
}

/// An intent with its text as characters and its span as byte offsets.
pub enum IntentView {
    Link { destination: Seq<char>, start: int, end: int },
    WikiLink { target: Seq<char>, start: int, end: int },
    Tag { name: Seq<char>, start: int, end: int },
    ToggleTask { checked: bool, start: int, end: int },
    Embed { target: Seq<char>, start: int, end: int },
    NavigateBlock { reference: Seq<char>, start: int, end: int },
}

impl IntentView {
    pub open spec fn start(self) -> int {
        match self {
            IntentView::Link { start, .. } => start,
            IntentView::WikiLink { start, .. } => start,
            IntentView::Tag { start, .. } => start,
            IntentView::ToggleTask { start, .. } => start,
            IntentView::Embed { start, .. } => start,
            IntentView::NavigateBlock { start, .. } => start,
        }
    }

    pub open spec fn end(self) -> int {
        match self {
            IntentView::Link { end, .. } => end,
            IntentView::WikiLink { end, .. } => end,
            IntentView::Tag { end, .. } => end,
            IntentView::ToggleTask { end, .. } => end,
            IntentView::Embed { end, .. } => end,
            IntentView::NavigateBlock { end, .. } => end,
        }
    }
}

impl View for EditorIntent {
    type V = IntentView;

    open spec fn view(&self) -> IntentView {
        match self {
            EditorIntent::Link { destination, span } => IntentView::Link {
                destination: destination@,
                start: span.start as int,
                end: span.end as int,
            },
            EditorIntent::WikiLink { target, span } => IntentView::WikiLink {
                target: target@,
                start: span.start as int,
                end: span.end as int,
            },
            EditorIntent::Tag { name, span } => IntentView::Tag {
                name: name@,
                start: span.start as int,
                end: span.end as int,
            },
            EditorIntent::ToggleTask { checked, span } => IntentView::ToggleTask {
                checked: *checked,
                start: span.start as int,
                end: span.end as int,
            },
            EditorIntent::Embed { target, span } => IntentView::Embed {
                target: target@,
                start: span.start as int,
                end: span.end as int,
            },
            EditorIntent::NavigateBlock { reference, span } => IntentView::NavigateBlock {
                reference: reference@,
                start: span.start as int,
                end: span.end as int,
            },
        }
    }
}

/// The views of a sequence of intents.
pub open spec fn views(v: Seq<EditorIntent>) -> Seq<IntentView> {
    v.map_values(|e: EditorIntent| e@)
}

/// The view of an optional intent.
pub open spec fn opt_view(o: Option<EditorIntent>) -> Option<IntentView> {
    match o {
        Some(e) => Some(e@),
        None => None,
    }
}

/// An optional item as a sequence of zero or one items.
pub open spec fn opt_seq(o: Option<IntentView>) -> Seq<IntentView> {
    match o {
        Some(v) => seq![v],
        None => Seq::empty(),
    }
}

/// The byte offset of character `k` of `s`.
pub open spec fn byte_at(s: Seq<char>, k: int) -> int {
    enc(s.take(k)).len() as int
}

pub open spec fn embed_open() -> Seq<char> {
    seq!['!', '[', '[']
}

pub open spec fn wiki_open() -> Seq<char> {
    seq!['[', '[']
}

pub open spec fn wiki_close() -> Seq<char> {
    seq![']', ']']
}

pub open spec fn block_marker() -> Seq<char> {
    seq!['#', '^']
}

pub open spec fn task_marker() -> Seq<char> {
    seq!['-', ' ', '[']
}

/// A wikilink's target, or the block it refers to when the target holds `#^`.
pub open spec fn wiki_view(t: Seq<char>, start: int, end: int) -> IntentView {
    match rfind_seq(t, block_marker()) {
        Some(k) => IntentView::NavigateBlock { reference: t.subrange(k + 2, t.len() as int), start, end },
        None => IntentView::WikiLink { target: t, start, end },
    }
}

/// What the link scanner finds at character `i`, and where it resumes.
pub open spec fn link_step(s: Seq<char>, i: int) -> (Option<IntentView>, int) {
    if match_at(s, i, embed_open()) {
        match find_after(s, i + 3, wiki_close()) {
            Some(k) => (
                Some(IntentView::Embed { target: s.subrange(i + 3, k), start: byte_at(s, i), end: byte_at(s, k + 2) }),
                k + 2,
            ),
            None => (None, i + 1),
        }
    } else if match_at(s, i, wiki_open()) {
        match find_after(s, i + 2, wiki_close()) {
            Some(k) => (Some(wiki_view(s.subrange(i + 2, k), byte_at(s, i), byte_at(s, k + 2))), k + 2),
            None => (None, i + 1),
        }
    } else if s[i] == '[' && i + 1 < s.len() && s[i + 1] != ' ' {
        match find_after(s, i + 1, seq![']']) {
            Some(c) => if c + 1 < s.len() && s[c + 1] == '(' {
                match find_after(s, c + 2, seq![')']) {
                    Some(e) => (
                        Some(IntentView::Link {
                            destination: trim_ws(s.subrange(c + 2, e)),
                            start: byte_at(s, i),
                            end: byte_at(s, e + 1),
                        }),
                        e + 1,
                    ),
                    None => (None, i + 1),
                }
            } else {
                (None, i + 1)
            },
            None => (None, i + 1),
        }
    } else {
        (None, i + 1)
    }
}

pub proof fn lemma_link_step(s: Seq<char>, i: int)
    requires
        0 <= i < s.len(),
    ensures
        i < link_step(s, i).1 <= s.len(),
{
    if match_at(s, i, embed_open()) {
        lemma_find_after(s, i + 3, wiki_close());
    } else if match_at(s, i, wiki_open()) {
        lemma_find_after(s, i + 2, wiki_close());
    } else if s[i] == '[' && i + 1 < s.len() && s[i + 1] != ' ' {
        lemma_find_after(s, i + 1, seq![']']);
        if let Some(c) = find_after(s, i + 1, seq![']']) {
            if c + 1 < s.len() && s[c + 1] == '(' {
                lemma_find_after(s, c + 2, seq![')']);
            }
        }
    }
}

/// The links, wikilinks, embeds and block references from character `i` on.
pub open spec fn scan_links(s: Seq<char>, i: int) -> Seq<IntentView>
    decreases s.len() - i,
{
    if i < 0 || i >= s.len() {
        Seq::empty()
    } else {
        proof {
            lemma_link_step(s, i);
        }
        let (o, next) = link_step(s, i);
        opt_seq(o) + scan_links(s, next)
    }
}

/// The end of the line starting at `p`, past its line feed.
pub open spec fn line_end(s: Seq<char>, p: int) -> int {
    match find_after(s, p, seq!['\n']) {
        Some(k) => k + 1,
        None => s.len() as int,
    }
}

/// The end of `p..e` once trailing line feeds and carriage returns are removed.
pub open spec fn content_end(s: Seq<char>, p: int, e: int) -> int
    decreases e - p,
{
    if p < e && (s[e - 1] == '\n' || s[e - 1] == '\r') {
        content_end(s, p, e - 1)
    } else {
        e
    }
}

/// A task checkbox on the line whose content without leading whitespace is `l..ce`.
pub open spec fn task_at(s: Seq<char>, l: int, ce: int) -> Option<IntentView> {
    match find_after(s.subrange(l, ce), 0, task_marker()) {
        Some(t) => {
            let m = l + t + 3;
            if m + 1 < ce && (s[m] == ' ' || s[m] == 'x' || s[m] == 'X') && s[m + 1] == ']' {
                Some(IntentView::ToggleTask {
                    checked: s[m] == 'x' || s[m] == 'X',
                    start: byte_at(s, l + t + 2),
                    end: byte_at(s, l + t + 5),
                })
            } else {
                None
            }
        },
        None => None,
    }
}

/// A tag starting with the `#` at character `j` of the line content `p..ce`.
pub open spec fn tag_at(s: Seq<char>, p: int, ce: int, j: int) -> Seq<IntentView> {
    if s[j] == '#' && (j == p || is_ascii_ws(s[j - 1])) {
        let e = next_ws(s, j + 1, ce);
        if e > j + 1 {
            seq![IntentView::Tag { name: s.subrange(j + 1, e), start: byte_at(s, j), end: byte_at(s, e) }]
        } else {
            Seq::empty()
        }
    } else {
        Seq::empty()
    }
}

/// The tags of the line content `p..ce` that start at or after character `j`.
pub open spec fn tags_from(s: Seq<char>, p: int, ce: int, j: int) -> Seq<IntentView>
    decreases ce - j,
{
    if j < p || j >= ce {
        Seq::empty()
    } else {
        tag_at(s, p, ce, j) + tags_from(s, p, ce, j + 1)
    }
}

/// The task and the tags of the line `p..e`.
pub open spec fn line_intents(s: Seq<char>, p: int, e: int) -> Seq<IntentView> {
    let ce = content_end(s, p, e);
    opt_seq(task_at(s, skip_ws(s, p, ce), ce)) + tags_from(s, p, ce, p)
}

pub proof fn lemma_line_end(s: Seq<char>, p: int)
    requires
        0 <= p < s.len(),
    ensures
        p < line_end(s, p) <= s.len(),
{
    lemma_find_after(s, p, seq!['\n']);
}

/// The tasks and tags of the lines from the one starting at character `p` on.
pub open spec fn scan_lines(s: Seq<char>, p: int) -> Seq<IntentView>
    decreases s.len() - p,
{
    if p < 0 || p >= s.len() {
        Seq::empty()
    } else {
        proof {
            lemma_line_end(s, p);
        }
        line_intents(s, p, line_end(s, p)) + scan_lines(s, line_end(s, p))
    }
}

/// Everything the scanner reports for `s`: links first, then tasks and tags line by line.
pub open spec fn scan_spec(s: Seq<char>) -> Seq<IntentView> {
    scan_links(s, 0) + scan_lines(s, 0)
}

/// Whether the span of `x` contains `offset` (both ends included).
pub open spec fn covers(x: IntentView, offset: int) -> bool {
    x.start() <= offset <= x.end()
}

/// The width of the span of `x`.
pub open spec fn width(x: IntentView) -> int {
    x.end() - x.start()
}

/// The narrowest of the first `k` intents of `v` whose span contains `offset`;
/// among equally narrow ones, the earliest.
pub open spec fn narrowest_in(v: Seq<IntentView>, k: int, offset: int) -> Option<IntentView>
    decreases k,
{
    if k <= 0 {
        None
    } else {
        let best = narrowest_in(v, k - 1, offset);
        let x = v[k - 1];
        if covers(x, offset) && (best is None || width(x) < width(best->0)) {
            Some(x)
        } else {
            best
        }
    }
}

/// The innermost intent of `v` containing `offset`: the narrowest one, the
/// earliest in scan order among equally narrow ones.
pub open spec fn innermost(v: Seq<IntentView>, offset: int) -> Option<IntentView> {
    narrowest_in(v, v.len() as int, offset)
}

proof fn lemma_narrowest_in(v: Seq<IntentView>, k: int, offset: int)
    requires
        0 <= k <= v.len(),
    ensures
        narrowest_in(v, k, offset) is None <==> forall|j: int| 0 <= j < k ==> !covers(#[trigger] v[j], offset),
        narrowest_in(v, k, offset) matches Some(x) ==> {
            &&& covers(x, offset)
            &&& exists|j: int| 0 <= j < k && #[trigger] v[j] == x && forall|i: int| 0 <= i < j ==> !(covers(#[trigger] v[i], offset) && width(v[i]) <= width(x))
            &&& forall|j: int| 0 <= j < k && covers(#[trigger] v[j], offset) ==> width(x) <= width(v[j])
        },
    decreases k,
{
    if k > 0 {
        lemma_narrowest_in(v, k - 1, offset);
        let best = narrowest_in(v, k - 1, offset);
        let x = v[k - 1];
        if covers(x, offset) && (best is None || width(x) < width(best->0)) {
            assert(v[k - 1] == x);
            assert forall|i: int| 0 <= i < k - 1 implies !(covers(#[trigger] v[i], offset) && width(v[i]) <= width(x)) by {
                if covers(v[i], offset) {
                    assert(best is Some);
                }
            }
        } else if best is Some {
            let b = best->0;
            let j = choose|j: int| 0 <= j < k - 1 && #[trigger] v[j] == b && forall|i: int| 0 <= i < j ==> !(covers(#[trigger] v[i], offset) && width(v[i]) <= width(b));
            assert(0 <= j < k && v[j] == b);
        }
    }
}

/// The intent `at` picks contains the offset, no intent containing it is
/// narrower, and none before it in scan order is as narrow; when nothing
/// contains the offset, there is none.
pub proof fn lemma_innermost(v: Seq<IntentView>, offset: int)
    ensures
        innermost(v, offset) is None <==> forall|j: int| 0 <= j < v.len() ==> !covers(#[trigger] v[j], offset),
        innermost(v, offset) matches Some(x) ==> {
            &&& covers(x, offset)
            &&& exists|j: int| 0 <= j < v.len() && #[trigger] v[j] == x && forall|i: int| 0 <= i < j ==> !(covers(#[trigger] v[i], offset) && width(v[i]) <= width(x))
            &&& forall|j: int| 0 <= j < v.len() && covers(#[trigger] v[j], offset) ==> width(x) <= width(v[j])
        },
{
    lemma_narrowest_in(v, v.len() as int, offset);
}

fn pattern(a: char, b: char, c: Option<char>) -> (r: Vec<char>)
    ensures
        r@ == match c {
            Some(c) => seq![a, b, c],
            None => seq![a, b],
        },
{
    let mut r: Vec<char> = Vec::new();
    r.push(a);
    r.push(b);
    if let Some(c) = c {
        r.push(c);
    }
    proof {
        match c {
            Some(c) => assert(r@ =~= seq![a, b, c]),
            None => assert(r@ =~= seq![a, b]),
        }
    }
    r
}

fn single(a: char) -> (r: Vec<char>)
    ensures
        r@ == seq![a],
{
    let mut r: Vec<char> = Vec::new();
    r.push(a);
    proof {
        assert(r@ =~= seq![a]);
    }
    r
}

fn intent_of(
    cs: &Vec<char>,
    offs: &Vec<usize>,
    i: usize,
) -> (r: (Option<EditorIntent>, usize))
    requires
        i < cs@.len(),
        offs@.len() == cs@.len() + 1,
        forall|k: int| 0 <= k <= cs@.len() ==> #[trigger] offs@[k] == byte_at(cs@, k),
    ensures
        (opt_view(r.0), r.1 as int) == link_step(cs@, i as int),
{
    let s = Ghost(cs@);
    let n = cs.len();
    let close = pattern(']', ']', None);
    if match_at_exec(cs, i, &pattern('!', '[', Some('['))) {
        match find_next(cs, i + 3, &close) {
            Some(k) => {
                proof {
                    lemma_find_after(s@, i + 3, wiki_close());
                }
                let target = string_of(cs, i + 3, k);
                let span = SourceSpan::new(offs[i], offs[k + 2]);
                (Some(EditorIntent::Embed { target, span }), k + 2)
            },
            None => (None, i + 1),
        }
    } else if match_at_exec(cs, i, &pattern('[', '[', None)) {
        match find_next(cs, i + 2, &close) {
            Some(k) => {
                proof {
                    lemma_find_after(s@, i + 2, wiki_close());
                }
                let t = sub_chars(cs, i + 2, k);
                let span = SourceSpan::new(offs[i], offs[k + 2]);
                match rfind_chars(&t, &pattern('#', '^', None)) {
                    Some(b) => {
                        let reference = string_of(&t, b + 2, t.len());
                        (Some(EditorIntent::NavigateBlock { reference, span }), k + 2)
                    },
                    None => {
                        let target = string_of(&t, 0, t.len());
                        proof {
                            assert(t@.subrange(0, t@.len() as int) =~= t@);
                        }
                        (Some(EditorIntent::WikiLink { target, span }), k + 2)
                    },
                }
            },
            None => (None, i + 1),
        }
    } else if cs[i] == '[' && i + 1 < n && cs[i + 1] != ' ' {
        match find_next(cs, i + 1, &single(']')) {
            Some(c) => {
                proof {
                    lemma_find_after(s@, i + 1, seq![']']);
                }
                if c + 1 < n && cs[c + 1] == '(' {
                    match find_next(cs, c + 2, &single(')')) {
                        Some(e) => {
                            proof {
                                lemma_find_after(s@, c + 2, seq![')']);
                            }
                            let destination = trimmed(cs, c + 2, e);
                            let span = SourceSpan::new(offs[i], offs[e + 1]);
                            (Some(EditorIntent::Link { destination, span }), e + 1)
                        },
                        None => (None, i + 1),
                    }
                } else {
                    (None, i + 1)
                }
            },
            None => (None, i + 1),
        }
    } else {
        (None, i + 1)
    }
}

fn content_end_exec(cs: &Vec<char>, p: usize, e: usize) -> (r: usize)
    requires
        p <= e <= cs@.len(),
    ensures
        p <= r <= e,
        r == content_end(cs@, p as int, e as int),
{
    let mut x = e;
    while x > p && (cs[x - 1] == '\n' || cs[x - 1] == '\r')
        invariant
            p <= x <= e <= cs@.len(),
            content_end(cs@, p as int, x as int) == content_end(cs@, p as int, e as int),
        decreases x,
    {
        x = x - 1;
    }
    x
}

fn task_exec(cs: &Vec<char>, offs: &Vec<usize>, l: usize, ce: usize) -> (r: Option<EditorIntent>)
    requires
        l <= ce <= cs@.len(),
        offs@.len() == cs@.len() + 1,
        forall|k: int| 0 <= k <= cs@.len() ==> #[trigger] offs@[k] == byte_at(cs@, k),
    ensures
        opt_view(r) == task_at(cs@, l as int, ce as int),
{
    let rest = sub_chars(cs, l, ce);
    match find_next(&rest, 0, &pattern('-', ' ', Some('['))) {
        Some(t) => {
            proof {
                lemma_find_after(rest@, 0, task_marker());
            }
            let m = l + t + 3;
            if ce > 0 && m < ce - 1 && (cs[m] == ' ' || cs[m] == 'x' || cs[m] == 'X') && cs[m + 1] == ']' {
                let checked = cs[m] == 'x' || cs[m] == 'X';
                let span = SourceSpan::new(offs[l + t + 2], offs[l + t + 5]);
                Some(EditorIntent::ToggleTask { checked, span })
            } else {
                None
            }
        },
        None => None,
    }
}

fn push_line_intents(
    cs: &Vec<char>,
    offs: &Vec<usize>,
    p: usize,
    e: usize,
    out: &mut Vec<EditorIntent>,
)
    requires
        p <= e <= cs@.len(),
        offs@.len() == cs@.len() + 1,
        forall|k: int| 0 <= k <= cs@.len() ==> #[trigger] offs@[k] == byte_at(cs@, k),
    ensures
        views(final(out)@) == views(old(out)@) + line_intents(cs@, p as int, e as int),
{
    let ghost s = cs@;
    let ce = content_end_exec(cs, p, e);
    let l = skip_ws_exec(cs, p, ce);
    let task = task_exec(cs, offs, l, ce);
    let ghost start = views(out@);
    if let Some(t) = task {
        out.push(t);
    }
    proof {
        assert(views(out@) =~= start + opt_seq(task_at(s, l as int, ce as int)));
    }
    let ghost mid = views(out@);
    let mut j = p;
    while j < ce
        invariant
            p <= j <= ce <= e <= cs@.len(),
            cs@ == s,
            offs@.len() == cs@.len() + 1,
            forall|k: int| 0 <= k <= cs@.len() ==> #[trigger] offs@[k] == byte_at(cs@, k),
            views(out@) + tags_from(s, p as int, ce as int, j as int) == mid + tags_from(s, p as int, ce as int, p as int),
        decreases ce - j,
    {
        let ghost before = views(out@);
        if cs[j] == '#' && (j == p || is_ascii_whitespace(cs[j - 1])) {
            let end = next_ws_exec(cs, j + 1, ce);
            if end > j + 1 {
                let name = string_of(cs, j + 1, end);
                let span = SourceSpan::new(offs[j], offs[end]);
                out.push(EditorIntent::Tag { name, span });
            }
        }
        proof {
            assert(views(out@) =~= before + tag_at(s, p as int, ce as int, j as int));
            assert(tags_from(s, p as int, ce as int, j as int) == tag_at(s, p as int, ce as int, j as int)
                + tags_from(s, p as int, ce as int, j + 1));
        }
        j = j + 1;
    }
    proof {
        assert(tags_from(s, p as int, ce as int, ce as int) =~= Seq::<IntentView>::empty());
        assert(views(out@) =~= views(old(out)@) + line_intents(s, p as int, e as int));
    }
}

/// Every intent in `source`: links, wikilinks, embeds and block references in
/// source order, followed by the task checkboxes and tags of each line.
pub fn scan(source: &str) -> (out: Vec<EditorIntent>)
    ensures
        views(out@) == scan_spec(source@),
{
    let cs = chars_of(source);
    let offs = char_offsets(source, &cs);
    let ghost s = cs@;
    let n = cs.len();
    let mut out: Vec<EditorIntent> = Vec::new();
    let mut i: usize = 0;
    while i < n
        invariant
            i <= n == s.len(),
            cs@ == s,
            offs@.len() == cs@.len() + 1,
            forall|k: int| 0 <= k <= cs@.len() ==> #[trigger] offs@[k] == byte_at(cs@, k),
            views(out@) + scan_links(s, i as int) == scan_links(s, 0),
        decreases n - i,
    {
        let ghost before = views(out@);
        let (found, next) = intent_of(&cs, &offs, i);
        proof {
            lemma_link_step(s, i as int);
        }
        if let Some(intent) = found {
            out.push(intent);
        }
        proof {
            assert(views(out@) =~= before + opt_seq(link_step(s, i as int).0));
            assert(views(out@) + scan_links(s, next as int) =~= before + scan_links(s, i as int));
        }
        i = next;
    }
    proof {
        assert(views(out@) =~= scan_links(s, 0));
    }
    let ghost links = views(out@);
    let mut p: usize = 0;
    while p < n
        invariant
            p <= n == s.len(),
            cs@ == s,
            offs@.len() == cs@.len() + 1,
            forall|k: int| 0 <= k <= cs@.len() ==> #[trigger] offs@[k] == byte_at(cs@, k),
            views(out@) + scan_lines(s, p as int) == links + scan_lines(s, 0),
        decreases n - p,
    {
        let ghost before = views(out@);
        let found = find_next(&cs, p, &single('\n'));
        proof {
            lemma_line_end(s, p as int);
            lemma_find_after(s, p as int, seq!['\n']);
        }
        let e = match found {
            Some(k) => k + 1,
            None => n,
        };
        push_line_intents(&cs, &offs, p, e, &mut out);
        proof {
            assert(views(out@) + scan_lines(s, e as int) =~= before + scan_lines(s, p as int));
        }
        p = e;
    }
    proof {
        assert(views(out@) =~= scan_spec(s));
    }
    out
}

fn copy_intent(e: &EditorIntent) -> (r: EditorIntent)
    ensures
        r@ == e@,
{
    match e {
        EditorIntent::Link { destination, span } => EditorIntent::Link { destination: destination.clone(), span: *span },
        EditorIntent::WikiLink { target, span } => EditorIntent::WikiLink { target: target.clone(), span: *span },
        EditorIntent::Tag { name, span } => EditorIntent::Tag { name: name.clone(), span: *span },
        EditorIntent::ToggleTask { checked, span } => EditorIntent::ToggleTask { checked: *checked, span: *span },
        EditorIntent::Embed { target, span } => EditorIntent::Embed { target: target.clone(), span: *span },
        EditorIntent::NavigateBlock { reference, span } => EditorIntent::NavigateBlock {
            reference: reference.clone(),
            span: *span,
        },
    }
}

impl EditorIntent {
    /// Finds the innermost actionable construct containing `offset`: the one
    /// with the narrowest span, the earliest in scan order among equally narrow ones.
    pub fn at(source: &str, offset: usize) -> (r: Option<Self>)
        ensures
            !is_char_boundary(source.spec_bytes(), offset as int) ==> r is None,
            is_char_boundary(source.spec_bytes(), offset as int) ==> opt_view(r) == innermost(
                scan_spec(source@),
                offset as int,
            ),
    {
        if !source.is_char_boundary(offset) {
            return None;
        }
        let all = scan(source);
        let ghost v = views(all@);
        let mut best: Option<usize> = None;
        let mut k: usize = 0;
        while k < all.len()
            invariant
                k <= all@.len(),
                v == views(all@),
                v == scan_spec(source@),
                best matches Some(b) ==> b < k && covers(v[b as int], offset as int),
                narrowest_in(v, k as int, offset as int) == match best {
                    Some(b) => Some(v[b as int]),
                    None => None,
                },
            decreases all@.len() - k,
        {
            let sp = all[k].span();
            proof {
                assert(v[k as int] == all@[k as int]@);
            }
            if sp.start <= offset && offset <= sp.end {
                let narrower = match best {
                    Some(b) => {
                        let bs = all[b].span();
                        proof {
                            assert(v[b as int] == all@[b as int]@);
                        }
                        sp.end - sp.start < bs.end - bs.start
                    },
                    None => true,
                };
                if narrower {
                    best = Some(k);
                }
            }
            k = k + 1;
        }
        match best {
            Some(b) => {
                proof {
                    assert(v[b as int] == all@[b as int]@);
                }
                Some(copy_intent(&all[b]))
            },
            None => None,
        }
    }

    pub fn span(&self) -> (s: SourceSpan)
        ensures
            s.start == self@.start(),
            s.end == self@.end(),
    {
        match self {
            EditorIntent::Link { span, .. } => *span,
            EditorIntent::WikiLink { span, .. } => *span,
            EditorIntent::Tag { span, .. } => *span,
            EditorIntent::ToggleTask { span, .. } => *span,
            EditorIntent::Embed { span, .. } => *span,
            EditorIntent::NavigateBlock { span, .. } => *span,
        }
    }
}

} // verus!
