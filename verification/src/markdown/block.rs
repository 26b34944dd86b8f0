//! Block-level Markdown: lines, frontmatter, and the block structure of the body.
//!
//! Positions are character indices into the source; every span the parser
//! reports is the byte offset of such a position.
use vstd::prelude::*;
use crate::text::{
    byte_at, contains_seq, find_after, index_of, is_ws, lemma_find_after, lower_ascii, match_at,
    next_ws, skip_ws, starts_with, trim_end_ws, trim_ws,
};
use super::inline::{InlRes, InlineView, inl, inlines, is_alnum, valid_label, iviews, opt_text, offsets_of};
use super::{Block, Footnote, Frontmatter, ListItem, Property, Span};
use crate::text::{chars_of, string_of, sub_chars, trimmed, window_find, window_match, index_of_in, find_next, region_starts_with, region_is, skip_ws_exec, trim_end_exec, next_ws_exec, lemma_skip_ws};

verus! {

/// A block with its text as characters and its span as byte offsets.
pub enum BlockView {
    Paragraph { children: Seq<InlineView>, start: int, end: int },
    Heading { level: int, text: Seq<char>, slug: Seq<char>, children: Seq<InlineView>, start: int, end: int },
    Quote { children: Seq<BlockView>, start: int, end: int },
    List { ordered: bool, items: Seq<ItemView>, start: int, end: int },
    Code { language: Option<Seq<char>>, value: Seq<char>, start: int, end: int },
    Table { headers: Seq<Seq<char>>, rows: Seq<Seq<Seq<char>>>, start: int, end: int },
    ThematicBreak { start: int, end: int },
    Html { value: Seq<char>, start: int, end: int },
    Callout {
        kind: Seq<char>,
        title: Option<Seq<char>>,
        foldable: Option<bool>,
        children: Seq<BlockView>,
        start: int,
        end: int,
    },
    Comment { value: Seq<char>, start: int, end: int },
}

pub struct ItemView {
    pub checked: Option<bool>,
    pub blocks: Seq<BlockView>,
    pub start: int,
    pub end: int,
}

pub struct FootView {
    pub label: Seq<char>,
    pub definition: Seq<char>,
    pub start: int,
    pub end: int,
}

pub struct PropView {
    pub key: Seq<char>,
    pub value: Seq<char>,
    pub start: int,
    pub end: int,
}

pub struct FrontView {
    pub raw: Seq<char>,
    pub properties: Seq<PropView>,
    pub start: int,
    pub end: int,
}

// ---------------------------------------------------------------- lines

/// The end of the raw line starting at `p` within `..b`: past its line feed, or `b`.
pub open spec fn raw_end(s: Seq<char>, p: int, b: int) -> int {
    match find_after(s.take(b), p, seq!['\n']) {
        Some(k) => k + 1,
        None => b,
    }
}

/// The end of `p..e` once trailing carriage returns are removed.
pub open spec fn strip_cr(s: Seq<char>, p: int, e: int) -> int
    decreases e - p,
{
    if p < e && s[e - 1] == '\r' {
        strip_cr(s, p, e - 1)
    } else {
        e
    }
}

/// The end of the line content of raw line `p..e`: without its line feed,
/// then without trailing carriage returns.
pub open spec fn content_stop(s: Seq<char>, p: int, e: int) -> int {
    strip_cr(s, p, if p < e && s[e - 1] == '\n' { e - 1 } else { e })
}

pub proof fn lemma_raw_end(s: Seq<char>, p: int, b: int)
    requires
        0 <= p < b <= s.len(),
    ensures
        p < raw_end(s, p, b) <= b,
        p <= content_stop(s, p, raw_end(s, p, b)) <= raw_end(s, p, b),
{
    lemma_find_after(s.take(b), p, seq!['\n']);
    lemma_strip_cr(s, p, raw_end(s, p, b));
    lemma_strip_cr(s, p, raw_end(s, p, b) - 1);
}

pub proof fn lemma_strip_cr(s: Seq<char>, p: int, e: int)
    requires
        p <= e,
    ensures
        p <= strip_cr(s, p, e) <= e,
    decreases e - p,
{
    if p < e && s[e - 1] == '\r' {
        lemma_strip_cr(s, p, e - 1);
    }
}

/// The lines of `q..b` as (start, content end) pairs, as `split_inclusive('\n')` yields them.
pub open spec fn md_lines(s: Seq<char>, q: int, b: int) -> Seq<(int, int)>
    decreases b - q,
{
    if q < 0 || q >= b || b > s.len() {
        Seq::empty()
    } else {
        proof {
            lemma_raw_end(s, q, b);
        }
        seq![(q, content_stop(s, q, raw_end(s, q, b)))] + md_lines(s, raw_end(s, q, b), b)
    }
}

// ---------------------------------------------------------------- frontmatter

/// The first line from `k` on whose content is exactly `---`.
pub open spec fn fence_line(s: Seq<char>, l: Seq<(int, int)>, k: int) -> Option<int>
    decreases l.len() - k,
{
    if k < 0 || k >= l.len() {
        None
    } else if s.subrange(l[k].0, l[k].1) == seq!['-', '-', '-'] {
        Some(k)
    } else {
        fence_line(s, l, k + 1)
    }
}

/// The width of the line break that ends just before `at`.
pub open spec fn newline_before(s: Seq<char>, at: int) -> int {
    if at >= 2 && s[at - 2] == '\r' && s[at - 1] == '\n' {
        2
    } else if at >= 1 && s[at - 1] == '\n' {
        1
    } else {
        0
    }
}

/// The width of a blank-line or CRLF break starting at `at`.
pub open spec fn newline_after(s: Seq<char>, at: int) -> int {
    if at + 2 <= s.len() && s[at] == '\r' && s[at + 1] == '\n' {
        2
    } else if at + 2 <= s.len() && s[at] == '\n' && s[at + 1] == '\n' {
        1
    } else {
        0
    }
}

/// A `key: value` property on the line `p..ce`, if the key is not blank.
pub open spec fn property_of(s: Seq<char>, p: int, ce: int) -> Option<PropView> {
    let t = s.subrange(p, ce);
    match index_of(t, ':') {
        Some(k) => if trim_ws(t.take(k)).len() > 0 {
            Some(PropView { key: trim_ws(t.take(k)), value: trim_ws(t.skip(k + 1)), start: byte_at(s, p), end: byte_at(s, ce) })
        } else {
            None
        },
        None => None,
    }
}

/// The properties of the given lines, in order.
pub open spec fn properties_of(s: Seq<char>, l: Seq<(int, int)>) -> Seq<PropView>
    decreases l.len(),
{
    if l.len() == 0 {
        Seq::empty()
    } else {
        (match property_of(s, l[0].0, l[0].1) {
            Some(p) => seq![p],
            None => Seq::empty(),
        }) + properties_of(s, l.drop_first())
    }
}

/// Frontmatter: a first line `---` closed by a later line `---`.  Yields the
/// frontmatter and where the body starts.  The YAML body runs from the end of
/// the first line to the line break before the closing line; a closing line
/// right after the first gives an empty body.
pub open spec fn frontmatter_of(s: Seq<char>) -> (Option<FrontView>, int) {
    let l = md_lines(s, 0, s.len() as int);
    if l.len() == 0 || s.subrange(l[0].0, l[0].1) != seq!['-', '-', '-'] {
        (None, 0)
    } else {
        match fence_line(s, l, 1) {
            None => (None, 0),
            Some(k) => {
                let first_len = raw_end(s, 0, s.len() as int);
                let close_start = l[k].0;
                let end = raw_end(s, close_start, s.len() as int);
                let raw_stop = if close_start >= newline_before(s, close_start) {
                    close_start - newline_before(s, close_start)
                } else {
                    0
                };
                let stop = if raw_stop < first_len { first_len } else { raw_stop };
                (
                    Some(FrontView {
                        raw: s.subrange(first_len, stop),
                        properties: properties_of(s, md_lines(s, first_len, stop)),
                        start: 0,
                        end: byte_at(s, end),
                    }),
                    end,
                )
            },
        }
    }
}

// ---------------------------------------------------------------- block helpers

pub open spec fn line_text(s: Seq<char>, l: Seq<(int, int)>, k: int) -> Seq<char> {
    s.subrange(l[k].0, l[k].1)
}

pub open spec fn line_stop_byte(s: Seq<char>, l: Seq<(int, int)>, k: int) -> int {
    byte_at(s, l[k].1)
}

/// The end of a comment starting at line `k`: past the first line from `k`
/// on that holds `-->`, or the number of lines.
pub open spec fn comment_end(s: Seq<char>, l: Seq<(int, int)>, k: int) -> int
    decreases l.len() - k,
{
    if k < 0 || k >= l.len() {
        l.len() as int
    } else if contains_seq(line_text(s, l, k), seq!['-', '-', '>']) {
        k + 1
    } else {
        comment_end(s, l, k + 1)
    }
}

/// The first line from `k` on that starts with the fence `marker`, or the number of lines.
pub open spec fn fence_close(s: Seq<char>, l: Seq<(int, int)>, k: int, marker: Seq<char>) -> int
    decreases l.len() - k,
{
    if k < 0 || k >= l.len() {
        l.len() as int
    } else if starts_with(line_text(s, l, k), marker) {
        k
    } else {
        fence_close(s, l, k + 1, marker)
    }
}

/// The first whitespace-separated word of `t`, if any.
pub open spec fn first_word(t: Seq<char>) -> Option<Seq<char>> {
    let a = skip_ws(t, 0, t.len() as int);
    if a >= t.len() {
        None
    } else {
        Some(t.subrange(a, next_ws(t, a, t.len() as int)))
    }
}

/// The number of leading `#` of `t`.
pub open spec fn hashes(t: Seq<char>, k: int) -> int
    decreases t.len() - k,
{
    if 0 <= k < t.len() && t[k] == '#' {
        hashes(t, k + 1)
    } else {
        k
    }
}

/// A heading slug: the trimmed text with whitespace as `-`, other characters
/// kept when alphanumeric or `-`, ASCII-lowercased.
pub open spec fn slug_chars(u: Seq<char>) -> Seq<char>
    decreases u.len(),
{
    if u.len() == 0 {
        Seq::empty()
    } else {
        let c = u[0];
        (if is_ws(c) {
            seq!['-']
        } else if is_alnum(c) || c == '-' {
            seq![lower_ascii(c)]
        } else {
            Seq::empty()
        }) + slug_chars(u.drop_first())
    }
}

pub open spec fn slugify(t: Seq<char>) -> Seq<char> {
    slug_chars(trim_ws(t))
}

/// The first line from `k` on that does not start with `>`, or the number of lines.
pub open spec fn quote_end(s: Seq<char>, l: Seq<(int, int)>, k: int) -> int
    decreases l.len() - k,
{
    if k < 0 || k >= l.len() {
        l.len() as int
    } else if l[k].0 < l[k].1 && s[l[k].0] == '>' {
        quote_end(s, l, k + 1)
    } else {
        k
    }
}

/// Where the content of quote line `k` starts: after `>` and any whitespace.
pub open spec fn quote_content(s: Seq<char>, l: Seq<(int, int)>, k: int) -> int {
    skip_ws(s, l[k].0 + 1, l[k].1)
}

/// The inline nodes of quote lines `k..j`, one line after another.
pub open spec fn quote_inlines(s: Seq<char>, l: Seq<(int, int)>, k: int, j: int) -> InlRes
    decreases j - k,
{
    if k < 0 || k >= j {
        InlRes { nodes: Seq::empty() }
    } else {
        let here = inl(s, quote_content(s, l, k), l[k].1, quote_content(s, l, k), quote_content(s, l, k));
        let rest = quote_inlines(s, l, k + 1, j);
        InlRes { nodes: here.nodes + rest.nodes }
    }
}

/// A callout header `[!kind]` (optionally `+`/`-` for foldable) with an optional title.
pub open spec fn callout_of(t: Seq<char>) -> Option<(Seq<char>, Option<Seq<char>>, Option<bool>)> {
    if starts_with(t, seq!['[', '!']) && index_of(t, ']') is Some {
        let end = index_of(t, ']')->0;
        let head = t.subrange(2, end);
        let (kind, fold) = if head.len() > 0 && head[head.len() - 1] == '+' {
            (head.drop_last(), Some(true))
        } else if head.len() > 0 && head[head.len() - 1] == '-' {
            (head.drop_last(), Some(false))
        } else {
            (head, None)
        };
        let title = trim_ws(t.skip(end + 1));
        Some((kind, if title.len() > 0 { Some(title) } else { None }, fold))
    } else {
        None
    }
}

/// A list marker on the line `p..ce`: whether it is ordered, and where the item content starts.
pub open spec fn list_marker(s: Seq<char>, p: int, ce: int) -> Option<(bool, int)> {
    let ls = skip_ws(s, p, ce);
    let d = digit_run(s, ls, ce);
    if d > ls && d + 1 < ce && s[d] == '.' && s[d + 1] == ' ' {
        Some((true, d + 2))
    } else if ls + 1 < ce && (s[ls] == '-' || s[ls] == '*' || s[ls] == '+') && s[ls + 1] == ' ' {
        Some((false, ls + 2))
    } else {
        None
    }
}

/// The end of the run of ASCII digits starting at `k`, before `e`.
pub open spec fn digit_run(s: Seq<char>, k: int, e: int) -> int
    decreases e - k,
{
    if 0 <= k < e && '0' <= s[k] <= '9' {
        digit_run(s, k + 1, e)
    } else {
        k
    }
}

/// A task state: `[ ] ` is open, `[x] ` or `[X] ` is done.
pub open spec fn task_state(t: Seq<char>) -> Option<bool> {
    if starts_with(t, seq!['[', ' ', ']', ' ']) {
        Some(false)
    } else if starts_with(t, seq!['[', 'x', ']', ' ']) || starts_with(t, seq!['[', 'X', ']', ' ']) {
        Some(true)
    } else {
        None
    }
}

/// The list items of lines `k..`, while they carry a marker of the same kind.
pub open spec fn list_items(s: Seq<char>, l: Seq<(int, int)>, k: int, ordered: bool) -> (Seq<ItemView>, int)
    decreases l.len() - k,
{
    if k < 0 || k >= l.len() {
        (Seq::empty(), k)
    } else {
        match list_marker(s, l[k].0, l[k].1) {
            Some((o, cs)) => if o == ordered {
                let t = s.subrange(cs, l[k].1);
                let checked = task_state(t);
                let c0 = if checked is Some { cs + 4 } else { cs };
                let inner = inl(s, c0, l[k].1, c0, c0);
                let item = ItemView {
                    checked,
                    blocks: seq![BlockView::Paragraph { children: inner.nodes, start: byte_at(s, c0), end: byte_at(s, l[k].1) }],
                    start: byte_at(s, l[k].0),
                    end: byte_at(s, l[k].1),
                };
                let (rest, j) = list_items(s, l, k + 1, ordered);
                (seq![item] + rest, j)
            } else {
                (Seq::empty(), k)
            },
            None => (Seq::empty(), k),
        }
    }
}

/// Whether the trimmed-start text of line `p..ce` begins with `|`.
pub open spec fn pipe_line(s: Seq<char>, p: int, ce: int) -> bool {
    skip_ws(s, p, ce) < ce && s[skip_ws(s, p, ce)] == '|'
}

/// The first line from `k` on that is not a table row, or the number of lines.
pub open spec fn table_end(s: Seq<char>, l: Seq<(int, int)>, k: int) -> int
    decreases l.len() - k,
{
    if k < 0 || k >= l.len() {
        l.len() as int
    } else if pipe_line(s, l[k].0, l[k].1) {
        table_end(s, l, k + 1)
    } else {
        k
    }
}

/// The end of `a..e` once trailing `|` are removed.
pub open spec fn pipe_back(t: Seq<char>, a: int, e: int) -> int
    decreases e - a,
{
    if e > a && t[e - 1] == '|' {
        pipe_back(t, a, e - 1)
    } else {
        e
    }
}

/// `t` without leading and trailing `|`.
pub open spec fn trim_pipes(t: Seq<char>) -> Seq<char> {
    let a = crate::text::run_end(t, t.len() as int, '|', 0);
    t.subrange(a, pipe_back(t, a, t.len() as int))
}

/// The trimmed pieces of `t` between `|`.
pub open spec fn split_cells(t: Seq<char>) -> Seq<Seq<char>>
    decreases t.len(),
{
    match index_of(t, '|') {
        Some(k) => if 0 <= k < t.len() {
            seq![trim_ws(t.take(k))] + split_cells(t.skip(k + 1))
        } else {
            seq![trim_ws(t)]
        },
        None => seq![trim_ws(t)],
    }
}

/// The trimmed cells of a table row.
pub open spec fn table_cells(t: Seq<char>) -> Seq<Seq<char>> {
    split_cells(trim_pipes(trim_ws(t)))
}

/// The rows of table lines `k..j`.
pub open spec fn table_rows(s: Seq<char>, l: Seq<(int, int)>, k: int, j: int) -> Seq<Seq<Seq<char>>>
    decreases j - k,
{
    if k < 0 || k >= j {
        Seq::empty()
    } else {
        seq![table_cells(line_text(s, l, k))] + table_rows(s, l, k + 1, j)
    }
}

/// Whether a trimmed line is a thematic break: three or more of `-`, `*`, `_`.
pub open spec fn is_break(t: Seq<char>) -> bool {
    t.len() >= 3 && forall|k: int| 0 <= k < t.len() ==> #[trigger] t[k] == '-' || t[k] == '*' || t[k] == '_'
}

/// The first blank line after `k`, or the number of lines.
pub open spec fn para_end(s: Seq<char>, l: Seq<(int, int)>, k: int) -> int
    decreases l.len() - k,
{
    if k < 0 || k >= l.len() {
        l.len() as int
    } else if trim_ws(line_text(s, l, k)).len() == 0 {
        k
    } else {
        para_end(s, l, k + 1)
    }
}

/// A footnote definition `[^label]: text` on the line `p..ce`.
pub open spec fn footnote_of(s: Seq<char>, p: int, ce: int) -> Option<FootView> {
    let t = s.subrange(p, ce);
    if starts_with(t, seq!['[', '^']) && find_after(t, 2, seq![']', ':', ' ']) is Some && valid_label(
        t.subrange(2, find_after(t, 2, seq![']', ':', ' '])->0),
    ) {
        let k = find_after(t, 2, seq![']', ':', ' '])->0;
        Some(FootView { label: t.subrange(2, k), definition: t.skip(k + 3), start: byte_at(s, p), end: byte_at(s, ce) })
    } else {
        None
    }
}

/// The footnote definitions of the given lines, in order.
pub open spec fn footnotes_of(s: Seq<char>, l: Seq<(int, int)>) -> Seq<FootView>
    decreases l.len(),
{
    if l.len() == 0 {
        Seq::empty()
    } else {
        (match footnote_of(s, l[0].0, l[0].1) {
            Some(f) => seq![f],
            None => Seq::empty(),
        }) + footnotes_of(s, l.drop_first())
    }
}

/// What the block parser produces at line `i`: a block (none for a blank
/// line), footnote definitions and the next line.
pub struct Step {
    pub block: Option<BlockView>,
    pub notes: Seq<FootView>,
    pub next: int,
}

} // verus!

verus! {

pub open spec fn para_block(s: Seq<char>, a: int, b: int, r: InlRes) -> BlockView {
    BlockView::Paragraph { children: r.nodes, start: byte_at(s, a), end: byte_at(s, b) }
}

/// A heading line `p..ce`: its level, and where its trimmed text starts and ends.
pub open spec fn heading_of(s: Seq<char>, p: int, ce: int) -> Option<(int, int, int)> {
    let t = s.subrange(p, ce);
    let n = hashes(t, 0);
    if 1 <= n <= 6 && n < t.len() && t[n] == ' ' {
        let ts = skip_ws(s, p + n + 1, ce);
        Some((n, ts, trim_end_ws(s, ts, ce)))
    } else {
        None
    }
}

#[verifier::opaque]
pub open spec fn comment_step(s: Seq<char>, l: Seq<(int, int)>, i: int) -> Step {
    let end = comment_end(s, l, i);
    Step {
        block: Some(BlockView::Comment { value: s.subrange(l[i].0, l[end - 1].1), start: byte_at(s, l[i].0), end: line_stop_byte(s, l, end - 1) }),
        notes: Seq::empty(),
        next: end,
    }
}

#[verifier::opaque]
pub open spec fn fence_step(s: Seq<char>, l: Seq<(int, int)>, i: int) -> Step {
    let (p, ce) = l[i];
    let t = s.subrange(p, ce);
    let j = fence_close(s, l, i + 1, t.take(3));
    let e = if j < l.len() { line_stop_byte(s, l, j) } else { byte_at(s, s.len() as int) };
    let cstart = ce + newline_after(s, ce);
    let cend = if j < l.len() {
        if l[j].0 >= newline_before(s, l[j].0) { l[j].0 - newline_before(s, l[j].0) } else { 0 }
    } else {
        s.len() as int
    };
    Step {
        block: Some(BlockView::Code {
            language: first_word(t.skip(3)),
            value: if cstart <= cend { s.subrange(cstart, cend) } else { Seq::empty() },
            start: byte_at(s, p),
            end: e,
        }),
        notes: Seq::empty(),
        next: if j + 1 < l.len() { j + 1 } else { l.len() as int },
    }
}

#[verifier::opaque]
pub open spec fn heading_step(s: Seq<char>, l: Seq<(int, int)>, i: int) -> Step {
    let (p, ce) = l[i];
    let (n, ts, te) = heading_of(s, p, ce)->0;
    let r = inl(s, ts, te, ts, ts);
    Step {
        block: Some(BlockView::Heading {
            level: n,
            text: s.subrange(ts, te),
            slug: slugify(s.subrange(ts, te)),
            children: r.nodes,
            start: byte_at(s, p),
            end: byte_at(s, ce),
        }),
        notes: Seq::empty(),
        next: i + 1,
    }
}

#[verifier::opaque]
pub open spec fn quote_step(s: Seq<char>, l: Seq<(int, int)>, i: int) -> Step {
    let (p, ce) = l[i];
    let j = quote_end(s, l, i);
    let e = line_stop_byte(s, l, j - 1);
    match callout_of(s.subrange(quote_content(s, l, i), ce)) {
        Some((kind, title, foldable)) => {
            let body = quote_inlines(s, l, i + 1, j);
            let child_start = if j > i + 1 { byte_at(s, quote_content(s, l, i + 1)) } else { e };
            let child_end = if j > i + 1 { e } else { child_start };
            Step {
                block: Some(BlockView::Callout {
                    kind,
                    title,
                    foldable,
                    children: seq![BlockView::Paragraph { children: body.nodes, start: child_start, end: child_end }],
                    start: byte_at(s, p),
                    end: e,
                }),
                notes: Seq::empty(),
                next: j,
            }
        },
        None => {
            let body = quote_inlines(s, l, i, j);
            Step {
                block: Some(BlockView::Quote {
                    children: seq![BlockView::Paragraph { children: body.nodes, start: byte_at(s, quote_content(s, l, i)), end: e }],
                    start: byte_at(s, p),
                    end: e,
                }),
                notes: Seq::empty(),
                next: j,
            }
        },
    }
}

#[verifier::opaque]
pub open spec fn list_step(s: Seq<char>, l: Seq<(int, int)>, i: int) -> Step {
    let (p, ce) = l[i];
    let (ordered, _) = list_marker(s, p, ce)->0;
    let (items, j) = list_items(s, l, i, ordered);
    Step {
        block: Some(BlockView::List { ordered, items, start: byte_at(s, p), end: line_stop_byte(s, l, j - 1) }),
        notes: Seq::empty(),
        next: j,
    }
}

#[verifier::opaque]
pub open spec fn table_step(s: Seq<char>, l: Seq<(int, int)>, i: int) -> Step {
    let j = table_end(s, l, i + 2);
    Step {
        block: Some(BlockView::Table {
            headers: table_cells(line_text(s, l, i)),
            rows: table_rows(s, l, i + 2, j),
            start: byte_at(s, l[i].0),
            end: line_stop_byte(s, l, j - 1),
        }),
        notes: Seq::empty(),
        next: j,
    }
}

#[verifier::opaque]
pub open spec fn para_step(s: Seq<char>, l: Seq<(int, int)>, i: int) -> Step {
    let p = l[i].0;
    let j = para_end(s, l, i + 1);
    let b = l[j - 1].1;
    let r = inl(s, p, b, p, p);
    Step {
        block: Some(BlockView::Paragraph { children: r.nodes, start: byte_at(s, p), end: byte_at(s, b) }),
        notes: footnotes_of(s, md_lines(s, p, b)),
        next: j,
    }
}

/// Whether line `i` opens a table: a row followed by a line holding `---`.
pub open spec fn opens_table(s: Seq<char>, l: Seq<(int, int)>, i: int) -> bool {
    pipe_line(s, l[i].0, l[i].1) && i + 1 < l.len() && contains_seq(line_text(s, l, i + 1), seq!['-', '-', '-'])
}

/// The kind of block that starts at line `i`, by the first rule that applies.
pub open spec fn block_kind(s: Seq<char>, l: Seq<(int, int)>, i: int) -> int {
    let (p, ce) = l[i];
    let t = s.subrange(p, ce);
    if trim_ws(t).len() == 0 {
        0
    } else if starts_with(t, seq!['<', '!', '-', '-']) {
        1
    } else if starts_with(t, seq!['`', '`', '`']) || starts_with(t, seq!['~', '~', '~']) {
        2
    } else if heading_of(s, p, ce) is Some {
        3
    } else if p < ce && s[p] == '>' {
        4
    } else if list_marker(s, p, ce) is Some {
        5
    } else if opens_table(s, l, i) {
        6
    } else if is_break(trim_ws(t)) {
        7
    } else {
        8
    }
}

/// The block at line `i` of `l`.
pub open spec fn block_step(s: Seq<char>, l: Seq<(int, int)>, i: int) -> Step {
    let k = block_kind(s, l, i);
    if k == 0 {
        Step { block: None, notes: Seq::empty(), next: i + 1 }
    } else if k == 1 {
        comment_step(s, l, i)
    } else if k == 2 {
        fence_step(s, l, i)
    } else if k == 3 {
        heading_step(s, l, i)
    } else if k == 4 {
        quote_step(s, l, i)
    } else if k == 5 {
        list_step(s, l, i)
    } else if k == 6 {
        table_step(s, l, i)
    } else if k == 7 {
        Step {
            block: Some(BlockView::ThematicBreak { start: byte_at(s, l[i].0), end: byte_at(s, l[i].1) }),
            notes: Seq::empty(),
            next: i + 1,
        }
    } else {
        para_step(s, l, i)
    }
}

pub proof fn lemma_ends(s: Seq<char>, l: Seq<(int, int)>, k: int, marker: Seq<char>)
    requires
        0 <= k <= l.len(),
    ensures
        k <= comment_end(s, l, k) <= l.len(),
        k < l.len() ==> k < comment_end(s, l, k),
        k <= fence_close(s, l, k, marker) <= l.len(),
        k <= quote_end(s, l, k) <= l.len(),
        k <= table_end(s, l, k) <= l.len(),
        k <= para_end(s, l, k) <= l.len(),
    decreases l.len() - k,
{
    if k < l.len() {
        lemma_ends(s, l, k + 1, marker);
    }
}

pub proof fn lemma_list_items(s: Seq<char>, l: Seq<(int, int)>, k: int, ordered: bool)
    requires
        0 <= k <= l.len(),
    ensures
        k <= list_items(s, l, k, ordered).1 <= l.len(),
        list_items(s, l, k, ordered).0.len() == list_items(s, l, k, ordered).1 - k,
    decreases l.len() - k,
{
    if k < l.len() {
        lemma_list_items(s, l, k + 1, ordered);
    }
}

pub proof fn lemma_block_step(s: Seq<char>, l: Seq<(int, int)>, i: int)
    requires
        0 <= i < l.len(),
    ensures
        i < block_step(s, l, i).next <= l.len(),
{
    let (p, ce) = l[i];
    let t = s.subrange(p, ce);
    let k = block_kind(s, l, i);
    reveal(comment_step);
    reveal(fence_step);
    reveal(quote_step);
    reveal(list_step);
    reveal(table_step);
    reveal(para_step);
    reveal(heading_step);
    if k == 1 {
        lemma_ends(s, l, i, t);
    } else if k == 2 {
        lemma_ends(s, l, i + 1, t.take(3));
    } else if k == 4 {
        lemma_ends(s, l, i + 1, t);
        assert(quote_end(s, l, i) == quote_end(s, l, i + 1));
    } else if k == 5 {
        let (ordered, _) = list_marker(s, p, ce)->0;
        lemma_list_items(s, l, i, ordered);
        lemma_list_items(s, l, i + 1, ordered);
    } else if k == 6 {
        lemma_ends(s, l, i + 2, t);
    } else if k == 8 {
        lemma_ends(s, l, i + 1, t);
    }
}

/// The blocks and footnote definitions of lines `i..`.
pub open spec fn blocks_from(s: Seq<char>, l: Seq<(int, int)>, i: int) -> (Seq<BlockView>, Seq<FootView>)
    decreases l.len() - i,
{
    if i < 0 || i >= l.len() {
        (Seq::empty(), Seq::empty())
    } else {
        proof {
            lemma_block_step(s, l, i);
        }
        let st = block_step(s, l, i);
        let (bs, ns) = blocks_from(s, l, st.next);
        (
            match st.block {
                Some(b) => seq![b] + bs,
                None => bs,
            },
            st.notes + ns,
        )
    }
}

/// The parsed form of a source: blocks, frontmatter and footnote definitions.
pub struct ParsedView {
    pub blocks: Seq<BlockView>,
    pub frontmatter: Option<FrontView>,
    pub footnotes: Seq<FootView>,
}

pub open spec fn parse_spec(s: Seq<char>) -> ParsedView {
    let (fm, body) = frontmatter_of(s);
    let (blocks, notes) = blocks_from(s, md_lines(s, body, s.len() as int), 0);
    ParsedView { blocks, frontmatter: fm, footnotes: notes }
}

} // verus!

verus! {

pub open spec fn strs(v: Seq<String>) -> Seq<Seq<char>> {
    v.map_values(|x: String| x@)
}

pub open spec fn rows_view(v: Seq<Vec<String>>) -> Seq<Seq<Seq<char>>> {
    v.map_values(|r: Vec<String>| strs(r@))
}

/// The view of a block.
pub open spec fn bview(b: Block) -> BlockView
    decreases b,
{
    match b {
        Block::Paragraph { children, span } => BlockView::Paragraph {
            children: iviews(children@),
            start: span.start as int,
            end: span.end as int,
        },
        Block::Heading { level, text, slug, children, span } => BlockView::Heading {
            level: level as int,
            text: text@,
            slug: slug@,
            children: iviews(children@),
            start: span.start as int,
            end: span.end as int,
        },
        Block::Quote { children, span } => BlockView::Quote { children: bviews(children@), start: span.start as int, end: span.end as int },
        Block::List { ordered, items, span } => BlockView::List {
            ordered,
            items: item_views(items@),
            start: span.start as int,
            end: span.end as int,
        },
        Block::Code { language, value, span } => BlockView::Code {
            language: opt_text(language),
            value: value@,
            start: span.start as int,
            end: span.end as int,
        },
        Block::Table { headers, rows, span } => BlockView::Table {
            headers: strs(headers@),
            rows: rows_view(rows@),
            start: span.start as int,
            end: span.end as int,
        },
        Block::ThematicBreak { span } => BlockView::ThematicBreak { start: span.start as int, end: span.end as int },
        Block::Html { value, span } => BlockView::Html { value: value@, start: span.start as int, end: span.end as int },
        Block::Callout { kind, title, foldable, children, span } => BlockView::Callout {
            kind: kind@,
            title: opt_text(title),
            foldable,
            children: bviews(children@),
            start: span.start as int,
            end: span.end as int,
        },
        Block::Comment { value, span } => BlockView::Comment { value: value@, start: span.start as int, end: span.end as int },
    }
}

pub open spec fn bviews(v: Seq<Block>) -> Seq<BlockView>
    decreases v,
{
    if v.len() == 0 {
        Seq::empty()
    } else {
        seq![bview(v[0])] + bviews(v.drop_first())
    }
}

pub open spec fn item_view(x: ListItem) -> ItemView
    decreases x,
{
    ItemView { checked: x.checked, blocks: bviews(x.blocks@), start: x.span.start as int, end: x.span.end as int }
}

pub open spec fn item_views(v: Seq<ListItem>) -> Seq<ItemView>
    decreases v,
{
    if v.len() == 0 {
        Seq::empty()
    } else {
        seq![item_view(v[0])] + item_views(v.drop_first())
    }
}

pub open spec fn fview(f: Footnote) -> FootView {
    FootView { label: f.label@, definition: f.definition@, start: f.span.start as int, end: f.span.end as int }
}

pub open spec fn fviews(v: Seq<Footnote>) -> Seq<FootView> {
    v.map_values(|f: Footnote| fview(f))
}

pub open spec fn pview(p: Property) -> PropView {
    PropView { key: p.key@, value: p.value@, start: p.span.start as int, end: p.span.end as int }
}

pub open spec fn pviews(v: Seq<Property>) -> Seq<PropView> {
    v.map_values(|p: Property| pview(p))
}

pub open spec fn front_view(f: Frontmatter) -> FrontView {
    FrontView { raw: f.raw@, properties: pviews(f.properties@), start: f.span.start as int, end: f.span.end as int }
}

pub proof fn lemma_bviews_push(v: Seq<Block>, x: Block)
    ensures
        bviews(v.push(x)) == bviews(v).push(bview(x)),
    decreases v.len(),
{
    if v.len() == 0 {
        assert(v.push(x).drop_first() =~= Seq::<Block>::empty());
        assert(bviews(v.push(x).drop_first()) =~= Seq::<BlockView>::empty());
        assert(v.push(x)[0] == x);
        assert(bviews(v.push(x)) =~= seq![bview(x)]);
        assert(bviews(v) =~= Seq::<BlockView>::empty());
    } else {
        assert(v.push(x).drop_first() =~= v.drop_first().push(x));
        lemma_bviews_push(v.drop_first(), x);
        assert(bviews(v.push(x)) =~= bviews(v).push(bview(x)));
    }
}

pub proof fn lemma_item_views_push(v: Seq<ListItem>, x: ListItem)
    ensures
        item_views(v.push(x)) == item_views(v).push(item_view(x)),
    decreases v.len(),
{
    if v.len() == 0 {
        assert(v.push(x).drop_first() =~= Seq::<ListItem>::empty());
        assert(item_views(v.push(x).drop_first()) =~= Seq::<ItemView>::empty());
        assert(v.push(x)[0] == x);
        assert(item_views(v.push(x)) =~= seq![item_view(x)]);
        assert(item_views(v) =~= Seq::<ItemView>::empty());
    } else {
        assert(v.push(x).drop_first() =~= v.drop_first().push(x));
        lemma_item_views_push(v.drop_first(), x);
        assert(item_views(v.push(x)) =~= item_views(v).push(item_view(x)));
    }
}

pub open spec fn line_views(v: Seq<(usize, usize)>) -> Seq<(int, int)> {
    v.map_values(|x: (usize, usize)| (x.0 as int, x.1 as int))
}

fn strip_cr_exec(cs: &Vec<char>, p: usize, e: usize) -> (r: usize)
    requires
        p <= e <= cs@.len(),
    ensures
        r == strip_cr(cs@, p as int, e as int),
        p <= r <= e,
{
    let mut x = e;
    while x > p && cs[x - 1] == '\r'
        invariant
            p <= x <= e <= cs@.len(),
            strip_cr(cs@, p as int, x as int) == strip_cr(cs@, p as int, e as int),
        decreases x,
    {
        x = x - 1;
    }
    x
}

/// The line that starts at `p` within `..b`: its raw end and its content end.
fn line_at(cs: &Vec<char>, nl: &Vec<char>, p: usize, b: usize) -> (r: (usize, usize))
    requires
        p < b <= cs@.len(),
        nl@ == seq!['\n'],
    ensures
        r.0 == raw_end(cs@, p as int, b as int),
        r.1 == content_stop(cs@, p as int, r.0 as int),
        p < r.0 <= b,
        p <= r.1 <= r.0,
{
    proof {
        lemma_raw_end(cs@, p as int, b as int);
    }
    let e = match window_find(cs, b, p, nl) {
        Some(k) => k + 1,
        None => b,
    };
    let e1 = if p < e && cs[e - 1] == '\n' {
        e - 1
    } else {
        e
    };
    (e, strip_cr_exec(cs, p, e1))
}

/// The lines of `q..b`.
pub fn lines_exec(cs: &Vec<char>, q: usize, b: usize) -> (r: Vec<(usize, usize)>)
    requires
        q <= b <= cs@.len(),
    ensures
        line_views(r@) == md_lines(cs@, q as int, b as int),
{
    let ghost s = cs@;
    let nl = crate::text::chars_of("\n");
    proof {
        reveal_strlit("\n");
        assert(nl@ =~= seq!['\n']);
    }
    let mut out: Vec<(usize, usize)> = Vec::new();
    let mut p = q;
    proof {
        assert(line_views(out@) + md_lines(s, p as int, b as int) =~= md_lines(s, q as int, b as int));
    }
    while p < b
        invariant
            q <= p <= b <= cs@.len(),
            cs@ == s,
            nl@ == seq!['\n'],
            line_views(out@) + md_lines(s, p as int, b as int) == md_lines(s, q as int, b as int),
        decreases b - p,
    {
        let (e, ce) = line_at(cs, &nl, p, b);
        let ghost before = line_views(out@);
        out.push((p, ce));
        proof {
            assert(line_views(out@) =~= before.push((p as int, ce as int)));
            assert(line_views(out@) + md_lines(s, e as int, b as int) =~= before + md_lines(s, p as int, b as int));
        }
        p = e;
    }
    proof {
        assert(md_lines(s, p as int, b as int) =~= Seq::<(int, int)>::empty());
        assert(line_views(out@) =~= md_lines(s, q as int, b as int));
    }
    out
}

} // verus!

verus! {

pub open spec fn opt_front(o: Option<Frontmatter>) -> Option<FrontView> {
    match o {
        Some(f) => Some(front_view(f)),
        None => None,
    }
}

fn property_exec(cs: &Vec<char>, offs: &Vec<usize>, p: usize, ce: usize) -> (r: Option<Property>)
    requires
        p <= ce <= cs@.len(),
        offsets_of(offs@, cs@),
    ensures
        match r {
            Some(x) => property_of(cs@, p as int, ce as int) == Some(pview(x)),
            None => property_of(cs@, p as int, ce as int) is None,
        },
{
    let t = sub_chars(cs, p, ce);
    let n = t.len();
    match index_of_in(&t, 0, n, ':') {
        Some(k) => {
            proof {
                assert(t@.subrange(0, n as int) =~= t@);
                assert(t@.take(k as int) =~= t@.subrange(0, k as int));
                assert(t@.skip(k + 1) =~= t@.subrange(k + 1, n as int));
            }
            let key = trimmed(&t, 0, k);
            if key.as_str().is_empty() {
                None
            } else {
                let value = trimmed(&t, k + 1, n);
                Some(Property { key, value, span: Span { start: offs[p], end: offs[ce] } })
            }
        },
        None => {
            proof {
                assert(t@.subrange(0, n as int) =~= t@);
            }
            None
        },
    }
}

fn properties_exec(cs: &Vec<char>, offs: &Vec<usize>, lines: &Vec<(usize, usize)>) -> (r: Vec<Property>)
    requires
        offsets_of(offs@, cs@),
        forall|k: int| 0 <= k < lines@.len() ==> #[trigger] lines@[k].0 <= lines@[k].1 <= cs@.len(),
    ensures
        pviews(r@) == properties_of(cs@, line_views(lines@)),
{
    let ghost l = line_views(lines@);
    let mut out: Vec<Property> = Vec::new();
    let mut k: usize = 0;
    proof {
        assert(l.skip(0) =~= l);
        assert(pviews(out@) =~= Seq::<PropView>::empty());
    }
    while k < lines.len()
        invariant
            k <= lines@.len(),
            l == line_views(lines@),
            offsets_of(offs@, cs@),
            forall|j: int| 0 <= j < lines@.len() ==> #[trigger] lines@[j].0 <= lines@[j].1 <= cs@.len(),
            pviews(out@) + properties_of(cs@, l.skip(k as int)) == properties_of(cs@, l),
        decreases lines@.len() - k,
    {
        let (p, ce) = lines[k];
        let ghost before = pviews(out@);
        proof {
            assert(l.skip(k as int)[0] == (p as int, ce as int));
            assert(l.skip(k as int).drop_first() =~= l.skip(k + 1));
        }
        match property_exec(cs, offs, p, ce) {
            Some(x) => {
                out.push(x);
                proof {
                    assert(pviews(out@) =~= before.push(pview(x)));
                }
            },
            None => {},
        }
        proof {
            assert(pviews(out@) + properties_of(cs@, l.skip(k + 1)) =~= before + properties_of(cs@, l.skip(k as int)));
        }
        k = k + 1;
    }
    proof {
        assert(l.skip(k as int) =~= Seq::<(int, int)>::empty());
        assert(pviews(out@) =~= properties_of(cs@, l));
    }
    out
}

pub proof fn lemma_lines_bounds(s: Seq<char>, q: int, b: int)
    requires
        0 <= q <= b <= s.len(),
    ensures
        forall|k: int| 0 <= k < md_lines(s, q, b).len() ==> q <= #[trigger] md_lines(s, q, b)[k].0 <= md_lines(s, q, b)[k].1 <= b,
        forall|k: int| 0 <= k < md_lines(s, q, b).len() ==> #[trigger] md_lines(s, q, b)[k].0 < b,
        forall|j: int, k: int| 0 <= j < k < md_lines(s, q, b).len() ==> #[trigger] md_lines(s, q, b)[j].1 <= #[trigger] md_lines(s, q, b)[k].0,
    decreases b - q,
{
    if q < b {
        lemma_raw_end(s, q, b);
        lemma_lines_bounds(s, raw_end(s, q, b), b);
        let rest = md_lines(s, raw_end(s, q, b), b);
        assert forall|j: int, k: int| 0 <= j < k < md_lines(s, q, b).len() implies #[trigger] md_lines(s, q, b)[j].1
            <= #[trigger] md_lines(s, q, b)[k].0 by {
            assert(md_lines(s, q, b)[k] == rest[k - 1]);
            if j > 0 {
                assert(md_lines(s, q, b)[j] == rest[j - 1]);
            }
        }
        assert forall|k: int| 0 <= k < md_lines(s, q, b).len() implies q <= #[trigger] md_lines(s, q, b)[k].0
            <= md_lines(s, q, b)[k].1 <= b && md_lines(s, q, b)[k].0 < b by {
            if k > 0 {
                assert(md_lines(s, q, b)[k] == rest[k - 1]);
            }
        }
    }
}

pub proof fn lemma_line_vec_bounds(v: Seq<(usize, usize)>, s: Seq<char>, q: int, b: int)
    requires
        0 <= q <= b <= s.len(),
        line_views(v) == md_lines(s, q, b),
    ensures
        forall|j: int| 0 <= j < v.len() ==> q <= #[trigger] v[j].0 <= v[j].1 <= b && v[j].0 < b,
        forall|j: int, k: int| 0 <= j < k < v.len() ==> #[trigger] v[j].1 <= #[trigger] v[k].0,
{
    lemma_lines_bounds(s, q, b);
    assert forall|j: int, k: int| 0 <= j < k < v.len() implies #[trigger] v[j].1 <= #[trigger] v[k].0 by {
        assert(line_views(v)[j] == (v[j].0 as int, v[j].1 as int));
        assert(line_views(v)[k] == (v[k].0 as int, v[k].1 as int));
    }
    assert forall|j: int| 0 <= j < v.len() implies q <= #[trigger] v[j].0 <= v[j].1 <= b && v[j].0 < b by {
        assert(line_views(v)[j] == (v[j].0 as int, v[j].1 as int));
    }
}

pub fn newline_before_exec(cs: &Vec<char>, at: usize) -> (r: usize)
    requires
        at <= cs@.len(),
    ensures
        r == newline_before(cs@, at as int),
{
    if at >= 2 && cs[at - 2] == '\r' && cs[at - 1] == '\n' {
        2
    } else if at >= 1 && cs[at - 1] == '\n' {
        1
    } else {
        0
    }
}

pub fn newline_after_exec(cs: &Vec<char>, at: usize) -> (r: usize)
    requires
        at <= cs@.len(),
    ensures
        r == newline_after(cs@, at as int),
{
    if cs.len() >= 2 && at <= cs.len() - 2 && cs[at] == '\r' && cs[at + 1] == '\n' {
        2
    } else if cs.len() >= 2 && at <= cs.len() - 2 && cs[at] == '\n' && cs[at + 1] == '\n' {
        1
    } else {
        0
    }
}

/// The first line after the first one whose content is `---`.
fn dash_line(cs: &Vec<char>, lines: &Vec<(usize, usize)>, dashes: &Vec<char>) -> (r: Option<usize>)
    requires
        dashes@ == seq!['-', '-', '-'],
        forall|j: int| 0 <= j < lines@.len() ==> #[trigger] lines@[j].0 <= lines@[j].1 <= cs@.len(),
    ensures
        r matches Some(k) ==> fence_line(cs@, line_views(lines@), 1) == Some(k as int) && 1 <= k < lines@.len(),
        r is None ==> fence_line(cs@, line_views(lines@), 1) is None,
{
    let ghost l = line_views(lines@);
    let mut k: usize = 1;
    while k < lines.len()
        invariant
            1 <= k,
            l == line_views(lines@),
            dashes@ == seq!['-', '-', '-'],
            forall|j: int| 0 <= j < lines@.len() ==> #[trigger] lines@[j].0 <= lines@[j].1 <= cs@.len(),
            fence_line(cs@, l, k as int) == fence_line(cs@, l, 1),
        decreases lines@.len() - k,
    {
        let (p, ce) = lines[k];
        proof {
            assert(l[k as int] == (p as int, ce as int));
        }
        if region_is(cs, p, ce, dashes) {
            return Some(k);
        }
        k = k + 1;
    }
    None
}

/// The properties of the lines of `a..b`.
fn region_properties(cs: &Vec<char>, offs: &Vec<usize>, a: usize, b: usize) -> (r: Vec<Property>)
    requires
        a <= b <= cs@.len(),
        offsets_of(offs@, cs@),
    ensures
        pviews(r@) == properties_of(cs@, md_lines(cs@, a as int, b as int)),
{
    let plines = lines_exec(cs, a, b);
    proof {
        lemma_line_vec_bounds(plines@, cs@, a as int, b as int);
        assert forall|j: int| 0 <= j < plines@.len() implies #[trigger] plines@[j].0 <= plines@[j].1 <= cs@.len() by {
            assert(a <= plines@[j].0);
            assert(plines@[j].0 <= plines@[j].1 <= b);
        }
    }
    properties_exec(cs, offs, &plines)
}

/// The frontmatter of the source and where its body starts.
pub fn frontmatter_exec(cs: &Vec<char>, offs: &Vec<usize>) -> (r: (Option<Frontmatter>, usize))
    requires
        offsets_of(offs@, cs@),
    ensures
        opt_front(r.0) == frontmatter_of(cs@).0,
        r.1 == frontmatter_of(cs@).1,
        r.1 <= cs@.len(),
{
    let ghost s = cs@;
    let n = cs.len();
    let lines = lines_exec(cs, 0, n);
    let ghost l = line_views(lines@);
    proof {
        lemma_lines_bounds(s, 0, n as int);
        lemma_line_vec_bounds(lines@, s, 0, n as int);
    }
    let dashes = chars_of("---");
    let nl = chars_of("\n");
    proof {
        reveal_strlit("---");
        reveal_strlit("\n");
        assert(dashes@ =~= seq!['-', '-', '-']);
        assert(nl@ =~= seq!['\n']);
    }
    if lines.len() == 0 {
        return (None, 0);
    }
    let (p0, c0) = lines[0];
    if !region_is(cs, p0, c0, &dashes) {
        return (None, 0);
    }
    let k = match dash_line(cs, &lines, &dashes) {
        Some(k) => k,
        None => {
            return (None, 0);
        },
    };
    let first_len = line_at(cs, &nl, 0, n).0;
    let close_start = lines[k].0;
    let end = line_at(cs, &nl, close_start, n).0;
    let w = newline_before_exec(cs, close_start);
    let stop = if close_start >= w {
        close_start - w
    } else {
        0
    };
    let raw_stop = if stop < first_len {
        first_len
    } else {
        stop
    };
    let raw = string_of(cs, first_len, raw_stop);
    proof {
        assert(first_len <= n);
        assert(raw_stop <= n) by {
            assert(lines@[k as int].0 <= n);
        }
    }
    let properties = region_properties(cs, offs, first_len, raw_stop);
    (Some(Frontmatter { raw, properties, span: Span { start: 0, end: offs[end] } }), end)
}

} // verus!
