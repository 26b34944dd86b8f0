//! Dependency-free Markdown surface classification.
//!
//! This is deliberately a syntax surface rather than a renderer: consumers map
//! the returned nodes to whatever view toolkit they use.  Ranges are UTF-8
//! byte offsets into the source.
use vstd::prelude::*;
use crate::text::{
    chars_of, char_offsets, ends_with, find_after, find_next, index_of, index_of_in,
    is_ascii_whitespace, is_ascii_ws, lemma_find_after, match_at, match_at_exec,
    push_char, region_ends_with, region_is, region_starts_with, skip_ws, skip_ws_exec,
    starts_with, string_of, sub_chars, trim_end_ws, trim_ws, trimmed, enc, lemma_skip_ws,
};

verus! {

#[derive(Debug, Clone, Copy, PartialEq, Eq, Structural)]
pub struct SourceRange {
    pub start: usize,
    pub end: usize,
}

#[derive(Debug, Clone, Copy, PartialEq, Eq, Structural)]
pub enum NodeKind {
    FrontmatterProperty,
    Heading,
    Paragraph,
    Wikilink,
    Embed,
    Callout,
    TaskCheckbox,
    Table,
    FencedCode,
    Math,
    Diagram,
    Footnote,
    BlockReference,
    Tag,
    HorizontalRule,
}

#[derive(Debug, Clone, PartialEq, Eq)]
pub struct SurfaceNode {
    pub kind: NodeKind,
    pub range: SourceRange,
    /// The source spelling (without a line ending), useful for later rendering.
    pub text: String,
    /// Optional classification detail, such as a frontmatter key or checkbox state.
    pub detail: Option<String>,
}

#[derive(Debug, Clone, PartialEq, Eq)]
pub struct RenderSurface {
    pub nodes: Vec<SurfaceNode>,
}

/// A node with its text as characters and its range as byte offsets.
pub struct NodeView {
    pub kind: NodeKind,
    pub start: int,
    pub end: int,
    pub text: Seq<char>,
    pub detail: Option<Seq<char>>,
}

impl View for SurfaceNode {
    type V = NodeView;

    open spec fn view(&self) -> NodeView {
        NodeView {
            kind: self.kind,
            start: self.range.start as int,
            end: self.range.end as int,
            text: self.text@,
            detail: match self.detail {
                Some(d) => Some(d@),
                None => None,
            },
        }
    }
}

pub open spec fn node_views(v: Seq<SurfaceNode>) -> Seq<NodeView> {
    v.map_values(|n: SurfaceNode| n@)
}

/// The byte offset of character `k` of `s`.
pub open spec fn byte_at(s: Seq<char>, k: int) -> int {
    enc(s.take(k)).len() as int
}

/// What the classifier carries from one line to the next: whether it is inside
/// frontmatter, and the open fence (its first line and its marker), if any.
pub struct LineState {
    pub frontmatter: bool,
    pub fence: Option<(int, Seq<char>)>,
}

/// The index of the line feed ending the line that starts at `p`, or the length.
pub open spec fn line_stop(s: Seq<char>, p: int) -> int {
    match find_after(s, p, seq!['\n']) {
        Some(k) => k,
        None => s.len() as int,
    }
}

/// The end of the text of the line starting at `p`: before its line feed, and
/// before a carriage return just ahead of that.
pub open spec fn content_end(s: Seq<char>, p: int) -> int {
    let k = line_stop(s, p);
    if k > p && s[k - 1] == '\r' {
        k - 1
    } else {
        k
    }
}

/// The start of the line after the one starting at `p`.
pub open spec fn next_line(s: Seq<char>, p: int) -> int {
    if line_stop(s, p) < s.len() {
        line_stop(s, p) + 1
    } else {
        s.len() as int
    }
}

/// The decimal spelling of `n`.
pub open spec fn decimal(n: nat) -> Seq<char>
    decreases n,
{
    if n < 10 {
        seq![digit(n)]
    } else {
        decimal(n / 10).push(digit(n % 10))
    }
}

pub open spec fn digit(d: nat) -> char {
    if d == 0 {
        '0'
    } else if d == 1 {
        '1'
    } else if d == 2 {
        '2'
    } else if d == 3 {
        '3'
    } else if d == 4 {
        '4'
    } else if d == 5 {
        '5'
    } else if d == 6 {
        '6'
    } else if d == 7 {
        '7'
    } else if d == 8 {
        '8'
    } else {
        '9'
    }
}

/// The index of the first character at or after `i` that is not `c`.
pub open spec fn run_end(s: Seq<char>, c: char, i: int) -> int
    decreases s.len() - i,
{
    if 0 <= i < s.len() && s[i] == c {
        run_end(s, c, i + 1)
    } else {
        i
    }
}

/// The first index in `a..b` whose character is ASCII whitespace, or `b`.
pub open spec fn next_ascii_ws(s: Seq<char>, a: int, b: int) -> int
    decreases b - a,
{
    if a < b && !is_ascii_ws(s[a]) {
        next_ascii_ws(s, a + 1, b)
    } else {
        a
    }
}

pub proof fn lemma_next_ascii_ws(s: Seq<char>, a: int, b: int)
    requires
        a <= b,
    ensures
        a <= next_ascii_ws(s, a, b) <= b,
    decreases b - a,
{
    if a < b {
        lemma_next_ascii_ws(s, a + 1, b);
    }
}

pub open spec fn bool_text(b: bool) -> Seq<char> {
    if b {
        seq!['t', 'r', 'u', 'e']
    } else {
        seq!['f', 'a', 'l', 's', 'e']
    }
}

/// A node covering the whole line `p..le`.
pub open spec fn line_node(kind: NodeKind, s: Seq<char>, p: int, le: int, detail: Option<Seq<char>>) -> NodeView {
    NodeView { kind, start: byte_at(s, p), end: byte_at(s, le), text: s.subrange(p, le), detail }
}

/// A node covering characters `a..b` of the line starting at `p`.
pub open spec fn inline_node(kind: NodeKind, s: Seq<char>, p: int, a: int, b: int) -> NodeView {
    NodeView { kind, start: byte_at(s, p + a), end: byte_at(s, p + b), text: s.subrange(p + a, p + b), detail: None }
}

/// The embeds, wikilinks and tags of the line `p..le`, from character `i` of the line on.
pub open spec fn inline_from(s: Seq<char>, p: int, le: int, i: int) -> Seq<NodeView>
    decreases s.subrange(p, le).len() - i,
{
    let ln = s.subrange(p, le);
    if i < 0 || i >= ln.len() {
        Seq::empty()
    } else if match_at(ln, i, seq!['!', '[', '[']) {
        proof {
            lemma_find_after(ln, i + 3, seq![']', ']']);
        }
        match find_after(ln, i + 3, seq![']', ']']) {
            Some(k) => seq![inline_node(NodeKind::Embed, s, p, i, k + 2)] + inline_from(s, p, le, k + 2),
            None => inline_from(s, p, le, i + 3),
        }
    } else if match_at(ln, i, seq!['[', '[']) {
        proof {
            lemma_find_after(ln, i + 2, seq![']', ']']);
        }
        match find_after(ln, i + 2, seq![']', ']']) {
            Some(k) => seq![inline_node(NodeKind::Wikilink, s, p, i, k + 2)] + inline_from(s, p, le, k + 2),
            None => inline_from(s, p, le, i + 2),
        }
    } else if ln[i] == '#' && i + 1 < ln.len() && (i == 0 || is_ascii_ws(ln[i - 1])) {
        proof {
            lemma_next_ascii_ws(ln, i + 1, ln.len() as int);
        }
        let e = next_ascii_ws(ln, i + 1, ln.len() as int);
        seq![inline_node(NodeKind::Tag, s, p, i, e)] + inline_from(s, p, le, e)
    } else {
        inline_from(s, p, le, i + 1)
    }
}

/// A heading: a run of `#` followed by a space.
pub open spec fn heading_node(s: Seq<char>, p: int, le: int, tr: Seq<char>) -> Option<NodeView> {
    let h = run_end(tr, '#', 0);
    if h > 0 && h < tr.len() && tr[h] == ' ' {
        Some(line_node(NodeKind::Heading, s, p, le, Some(decimal(h as nat))))
    } else {
        None
    }
}

/// A task checkbox: `- [` followed by a space, `x` or `X`.
pub open spec fn task_node(s: Seq<char>, p: int, le: int, tr: Seq<char>) -> Option<NodeView> {
    match find_after(tr, 0, seq!['-', ' ', '[']) {
        Some(pos) => if pos + 3 < tr.len() && (tr[pos + 3] == ' ' || tr[pos + 3] == 'x' || tr[pos + 3] == 'X') {
            Some(line_node(NodeKind::TaskCheckbox, s, p, le, Some(bool_text(tr[pos + 3] == 'x' || tr[pos + 3] == 'X'))))
        } else {
            None
        },
        None => None,
    }
}

proof fn lemma_run_end_at(t: Seq<char>, c: char, i: int, h: int)
    requires
        0 <= i <= h <= t.len(),
        forall|j: int| i <= j < h ==> t[j] == c,
        h == t.len() || t[h] != c,
    ensures
        run_end(t, c, i) == h,
    decreases h - i,
{
    if i < h {
        lemma_run_end_at(t, c, i + 1, h);
    }
}

/// A line whose trimmed text opens with `h >= 1` characters `#` and then a
/// space is a heading covering the line, whose detail spells `h`; a line whose
/// trimmed text does not open with `#` is no heading.
pub proof fn lemma_heading_level(s: Seq<char>, p: int, le: int, tr: Seq<char>, h: int)
    ensures
        (0 < h < tr.len() && (forall|j: int| 0 <= j < h ==> tr[j] == '#') && tr[h] == ' ') ==> (heading_node(s, p, le, tr)
            matches Some(n) && n.kind == NodeKind::Heading && n.detail == Some(decimal(h as nat)) && n.start == byte_at(s, p)
            && n.end == byte_at(s, le)),
        !(tr.len() > 0 && tr[0] == '#') ==> heading_node(s, p, le, tr) is None,
{
    if 0 < h < tr.len() && (forall|j: int| 0 <= j < h ==> tr[j] == '#') && tr[h] == ' ' {
        lemma_run_end_at(tr, '#', 0, h);
    }
    if !(tr.len() > 0 && tr[0] == '#') {
        lemma_run_end_at(tr, '#', 0, 0);
    }
}

/// A line whose trimmed text holds `- [` followed by a space, `x` or `X` (at
/// its first `- [`) is a task checkbox covering the line, whose detail says
/// `true` exactly when that character is `x` or `X`, and `false` for a space.
pub proof fn lemma_task_checkbox(s: Seq<char>, p: int, le: int, tr: Seq<char>, pos: int)
    requires
        0 <= pos && pos + 3 < tr.len(),
        tr[pos] == '-' && tr[pos + 1] == ' ' && tr[pos + 2] == '[',
        forall|t: int| 0 <= t < pos ==> !(#[trigger] tr[t] == '-' && tr[t + 1] == ' ' && tr[t + 2] == '['),
    ensures
        (tr[pos + 3] == 'x' || tr[pos + 3] == 'X') ==> (task_node(s, p, le, tr) matches Some(n) && n.kind
            == NodeKind::TaskCheckbox && n.detail == Some(seq!['t', 'r', 'u', 'e']) && n.start == byte_at(s, p) && n.end
            == byte_at(s, le)),
        tr[pos + 3] == ' ' ==> (task_node(s, p, le, tr) matches Some(n) && n.kind == NodeKind::TaskCheckbox && n.detail
            == Some(seq!['f', 'a', 'l', 's', 'e']) && n.start == byte_at(s, p) && n.end == byte_at(s, le)),
        !(tr[pos + 3] == ' ' || tr[pos + 3] == 'x' || tr[pos + 3] == 'X') ==> task_node(s, p, le, tr) is None,
{
    let pat = seq!['-', ' ', '['];
    lemma_find_after(tr, 0, pat);
    assert(match_at(tr, pos, pat)) by {
        assert(tr.skip(pos).take(3) =~= pat);
    }
    match find_after(tr, 0, pat) {
        Some(k) => {
            if k < pos {
                assert(tr.skip(k).take(3) == pat);
                assert(tr[k] == tr.skip(k).take(3)[0]);
                assert(tr[k + 1] == tr.skip(k).take(3)[1]);
                assert(tr[k + 2] == tr.skip(k).take(3)[2]);
            }
            assert(k == pos);
        },
        None => {},
    }
}

pub open spec fn opt_nodes(o: Option<NodeView>) -> Seq<NodeView> {
    match o {
        Some(n) => seq![n],
        None => Seq::empty(),
    }
}

/// Whether some node covers exactly the byte range `a..b`.
pub open spec fn has_range(v: Seq<NodeView>, a: int, b: int) -> bool {
    exists|k: int| 0 <= k < v.len() && #[trigger] v[k].start == a && v[k].end == b
}

/// The nodes of an ordinary line (outside frontmatter and fences) with trimmed text `tr`.
pub open spec fn body_nodes(s: Seq<char>, p: int, le: int, tr: Seq<char>, acc: Seq<NodeView>) -> Seq<NodeView> {
    if tr == seq!['-', '-', '-'] || tr == seq!['*', '*', '*'] || tr == seq!['_', '_', '_'] {
        acc.push(line_node(NodeKind::HorizontalRule, s, p, le, None))
    } else if starts_with(tr, seq!['$', '$']) || ends_with(tr, seq!['$', '$']) {
        acc.push(line_node(NodeKind::Math, s, p, le, None))
    } else if starts_with(tr, seq!['`', '`', '`', 'm', 'e', 'r', 'm', 'a', 'i', 'd']) || starts_with(
        tr,
        seq!['`', '`', '`', 'd', 'i', 'a', 'g', 'r', 'a', 'm'],
    ) {
        acc.push(line_node(NodeKind::Diagram, s, p, le, None))
    } else if starts_with(tr, seq!['>', ' ', '[', '!']) && index_of(tr.skip(4), ']') is Some {
        acc.push(line_node(NodeKind::Callout, s, p, le, Some(tr.skip(4).take(index_of(tr.skip(4), ']')->0))))
    } else if tr.len() > 0 && tr[0] == '|' && tr[tr.len() - 1] == '|' {
        acc.push(line_node(NodeKind::Table, s, p, le, None))
    } else if starts_with(tr, seq!['[', '^']) {
        acc.push(line_node(NodeKind::Footnote, s, p, le, None))
    } else if starts_with(tr, seq!['^', '[', ']']) || starts_with(tr, seq!['^', '(']) {
        acc.push(line_node(NodeKind::BlockReference, s, p, le, None))
    } else {
        let all = acc + opt_nodes(heading_node(s, p, le, tr)) + opt_nodes(task_node(s, p, le, tr))
            + inline_from(s, p, le, 0);
        if tr.len() > 0 && !has_range(all, byte_at(s, p), byte_at(s, le)) {
            all.push(line_node(NodeKind::Paragraph, s, p, le, None))
        } else {
            all
        }
    }
}

/// The state and nodes after the line starting at `p`.
pub open spec fn line_step(s: Seq<char>, p: int, st: LineState, acc: Seq<NodeView>) -> (LineState, Seq<NodeView>) {
    let le = content_end(s, p);
    let ts = skip_ws(s, p, le);
    let tr = s.subrange(ts, trim_end_ws(s, ts, le));
    let ln = s.subrange(p, le);
    if p == 0 && tr == seq!['-', '-', '-'] {
        (LineState { frontmatter: true, ..st }, acc)
    } else if st.frontmatter {
        if tr == seq!['-', '-', '-'] {
            (LineState { frontmatter: false, ..st }, acc)
        } else {
            match index_of(ln, ':') {
                Some(c) => if trim_ws(ln.take(c)).len() > 0 {
                    (st, acc.push(line_node(NodeKind::FrontmatterProperty, s, p, le, Some(trim_ws(ln.take(c))))))
                } else {
                    (st, acc)
                },
                None => (st, acc),
            }
        }
    } else if st.fence is Some {
        let (fp, marker) = st.fence->0;
        if starts_with(tr, marker) {
            (
                LineState { fence: None, ..st },
                acc.push(NodeView {
                    kind: NodeKind::FencedCode,
                    start: byte_at(s, fp),
                    end: byte_at(s, le),
                    text: s.subrange(fp, le),
                    detail: Some(marker),
                }),
            )
        } else {
            (st, acc)
        }
    } else if starts_with(tr, seq!['`', '`', '`']) || starts_with(tr, seq!['~', '~', '~']) {
        (LineState { fence: Some((p, tr.take(3))), ..st }, acc)
    } else {
        (st, body_nodes(s, p, le, tr, acc))
    }
}

pub proof fn lemma_next_line(s: Seq<char>, p: int)
    requires
        0 <= p < s.len(),
    ensures
        p <= line_stop(s, p) <= s.len(),
        p < next_line(s, p) <= s.len(),
        line_stop(s, p) < s.len() ==> s[line_stop(s, p)] == '\n',
{
    lemma_find_after(s, p, seq!['\n']);
    if let Some(k) = find_after(s, p, seq!['\n']) {
        assert(s.skip(k).take(1)[0] == s[k]);
    }
}

/// The nodes of the lines from the one starting at `p` on, after `acc`.
pub open spec fn classify_from(s: Seq<char>, p: int, st: LineState, acc: Seq<NodeView>) -> Seq<NodeView>
    decreases s.len() - p,
{
    if p < 0 || p >= s.len() {
        acc
    } else {
        proof {
            lemma_next_line(s, p);
        }
        let (st2, acc2) = line_step(s, p, st, acc);
        classify_from(s, next_line(s, p), st2, acc2)
    }
}

/// Every node of the source, line by line.
pub open spec fn surface_spec(s: Seq<char>) -> Seq<NodeView> {
    classify_from(s, 0, LineState { frontmatter: false, fence: None }, Seq::empty())
}

impl Default for RenderSurface {
    fn default() -> (r: Self)
        ensures
            r.nodes@.len() == 0,
    {
        RenderSurface { nodes: Vec::new() }
    }
}

impl RenderSurface {
    pub fn parse(source: &str) -> (r: Self)
        ensures
            node_views(r.nodes@) == surface_spec(source@),
    {
        RenderSurface { nodes: classify(source) }
    }
}

pub fn render_surface(source: &str) -> (r: RenderSurface)
    ensures
        node_views(r.nodes@) == surface_spec(source@),
{
    RenderSurface::parse(source)
}

fn digit_char(d: usize) -> (c: char)
    requires
        d < 10,
    ensures
        c == digit(d as nat),
{
    match d {
        0 => '0',
        1 => '1',
        2 => '2',
        3 => '3',
        4 => '4',
        5 => '5',
        6 => '6',
        7 => '7',
        8 => '8',
        _ => '9',
    }
}

/// The decimal spelling of `n`, as `usize::to_string` gives it.
pub(crate) fn decimal_string(n: usize) -> (r: String)
    ensures
        r@ == decimal(n as nat),
    decreases n,
{
    if n < 10 {
        let mut r = String::new();
        push_char(&mut r, digit_char(n));
        proof {
            assert(r@ =~= seq![digit(n as nat)]);
        }
        r
    } else {
        let mut r = decimal_string(n / 10);
        push_char(&mut r, digit_char(n % 10));
        r
    }
}

fn bool_string(b: bool) -> (r: String)
    ensures
        r@ == bool_text(b),
{
    if b {
        let r = "true".to_owned();
        proof {
            reveal_strlit("true");
            assert(r@ =~= bool_text(b));
        }
        r
    } else {
        let r = "false".to_owned();
        proof {
            reveal_strlit("false");
            assert(r@ =~= bool_text(b));
        }
        r
    }
}

fn lit(s: &str) -> (r: Vec<char>)
    ensures
        r@ == s@,
{
    chars_of(s)
}

/// The classifier's state between lines; the fence start is a character index.
struct ClassifyState {
    frontmatter: bool,
    fence: Option<(usize, Vec<char>)>,
}

impl ClassifyState {
    spec fn view(&self) -> LineState {
        LineState {
            frontmatter: self.frontmatter,
            fence: match self.fence {
                Some((p, m)) => Some((p as int, m@)),
                None => None,
            },
        }
    }
}

fn line_node_exec(
    kind: NodeKind,
    cs: &Vec<char>,
    offs: &Vec<usize>,
    p: usize,
    le: usize,
    detail: Option<String>,
) -> (n: SurfaceNode)
    requires
        p <= le <= cs@.len(),
        offs@.len() == cs@.len() + 1,
        forall|k: int| 0 <= k <= cs@.len() ==> #[trigger] offs@[k] == byte_at(cs@, k),
    ensures
        n@ == line_node(kind, cs@, p as int, le as int, match detail {
            Some(d) => Some(d@),
            None => None,
        }),
{
    SurfaceNode { kind, range: SourceRange { start: offs[p], end: offs[le] }, text: string_of(cs, p, le), detail }
}

/// Pushes the inline nodes of the line `p..le`.
fn push_inline(cs: &Vec<char>, offs: &Vec<usize>, p: usize, le: usize, out: &mut Vec<SurfaceNode>)
    requires
        p <= le <= cs@.len(),
        offs@.len() == cs@.len() + 1,
        forall|k: int| 0 <= k <= cs@.len() ==> #[trigger] offs@[k] == byte_at(cs@, k),
    ensures
        node_views(final(out)@) == node_views(old(out)@) + inline_from(cs@, p as int, le as int, 0),
{
    let ghost s = cs@;
    let ln = sub_chars(cs, p, le);
    let n = ln.len();
    let embed = lit("![[");
    let wiki = lit("[[");
    let close = lit("]]");
    proof {
        reveal_strlit("![[");
        reveal_strlit("[[");
        reveal_strlit("]]");
        assert(embed@ =~= seq!['!', '[', '[']);
        assert(wiki@ =~= seq!['[', '[']);
        assert(close@ =~= seq![']', ']']);
    }
    let ghost start = node_views(out@);
    let mut i: usize = 0;
    while i < n
        invariant
            i <= n == ln@.len() == le - p,
            p <= le <= cs@.len(),
            cs@ == s,
            ln@ == s.subrange(p as int, le as int),
            embed@ == seq!['!', '[', '['],
            wiki@ == seq!['[', '['],
            close@ == seq![']', ']'],
            offs@.len() == cs@.len() + 1,
            forall|k: int| 0 <= k <= cs@.len() ==> #[trigger] offs@[k] == byte_at(cs@, k),
            node_views(out@) + inline_from(s, p as int, le as int, i as int) == start + inline_from(
                s,
                p as int,
                le as int,
                0,
            ),
        decreases n - i,
    {
        let ghost before = node_views(out@);
        let ghost rest = inline_from(s, p as int, le as int, i as int);
        let next: usize;
        if match_at_exec(&ln, i, &embed) {
            let found = find_next(&ln, i + 3, &close);
            proof {
                lemma_find_after(ln@, i + 3, seq![']', ']']);
            }
            match found {
                Some(k) => {
                    out.push(SurfaceNode {
                        kind: NodeKind::Embed,
                        range: SourceRange { start: offs[p + i], end: offs[p + k + 2] },
                        text: string_of(cs, p + i, p + k + 2),
                        detail: None,
                    });
                    next = k + 2;
                },
                None => {
                    next = i + 3;
                },
            }
        } else if match_at_exec(&ln, i, &wiki) {
            let found = find_next(&ln, i + 2, &close);
            proof {
                lemma_find_after(ln@, i + 2, seq![']', ']']);
            }
            match found {
                Some(k) => {
                    out.push(SurfaceNode {
                        kind: NodeKind::Wikilink,
                        range: SourceRange { start: offs[p + i], end: offs[p + k + 2] },
                        text: string_of(cs, p + i, p + k + 2),
                        detail: None,
                    });
                    next = k + 2;
                },
                None => {
                    next = i + 2;
                },
            }
        } else if ln[i] == '#' && i + 1 < n && (i == 0 || is_ascii_whitespace(ln[i - 1])) {
            let mut e = i + 1;
            while e < n && !is_ascii_whitespace(ln[e])
                invariant
                    i + 1 <= e <= n == ln@.len(),
                    next_ascii_ws(ln@, e as int, n as int) == next_ascii_ws(ln@, i + 1, n as int),
                decreases n - e,
            {
                e = e + 1;
            }
            out.push(SurfaceNode {
                kind: NodeKind::Tag,
                range: SourceRange { start: offs[p + i], end: offs[p + e] },
                text: string_of(cs, p + i, p + e),
                detail: None,
            });
            next = e;
        } else {
            next = i + 1;
        }
        proof {
            assert(rest == inline_from(s, p as int, le as int, i as int));
            assert(node_views(out@) + inline_from(s, p as int, le as int, next as int) =~= before + rest);
        }
        i = next;
    }
    proof {
        assert(node_views(out@) =~= node_views(old(out)@) + inline_from(s, p as int, le as int, 0));
    }
}

/// Whether some node covers exactly `a..b`.
fn has_range_exec(out: &Vec<SurfaceNode>, a: usize, b: usize) -> (r: bool)
    ensures
        r == has_range(node_views(out@), a as int, b as int),
{
    let ghost v = node_views(out@);
    let mut k: usize = 0;
    while k < out.len()
        invariant
            k <= out@.len(),
            v == node_views(out@),
            forall|j: int| 0 <= j < k ==> !(v[j].start == a && v[j].end == b),
        decreases out@.len() - k,
    {
        if out[k].range.start == a && out[k].range.end == b {
            proof {
                assert(v[k as int].start == a);
            }
            return true;
        }
        k = k + 1;
    }
    false
}

fn push_body(
    cs: &Vec<char>,
    offs: &Vec<usize>,
    p: usize,
    le: usize,
    ts: usize,
    te: usize,
    out: &mut Vec<SurfaceNode>,
)
    requires
        p <= ts <= te <= le <= cs@.len(),
        offs@.len() == cs@.len() + 1,
        forall|k: int| 0 <= k <= cs@.len() ==> #[trigger] offs@[k] == byte_at(cs@, k),
    ensures
        node_views(final(out)@) == body_nodes(cs@, p as int, le as int, cs@.subrange(ts as int, te as int), node_views(old(out)@)),
{
    let ghost s = cs@;
    let ghost tr = s.subrange(ts as int, te as int);
    let ghost acc = node_views(out@);
    let hr1 = lit("---");
    let hr2 = lit("***");
    let hr3 = lit("___");
    let math = lit("$$");
    let mermaid = lit("```mermaid");
    let diagram = lit("```diagram");
    let callout = lit("> [!");
    let footnote = lit("[^");
    let block1 = lit("^[]");
    let block2 = lit("^(");
    proof {
        reveal_strlit("---");
        reveal_strlit("***");
        reveal_strlit("___");
        reveal_strlit("$$");
        reveal_strlit("```mermaid");
        reveal_strlit("```diagram");
        reveal_strlit("> [!");
        reveal_strlit("[^");
        reveal_strlit("^[]");
        reveal_strlit("^(");
        assert(hr1@ =~= seq!['-', '-', '-']);
        assert(hr2@ =~= seq!['*', '*', '*']);
        assert(hr3@ =~= seq!['_', '_', '_']);
        assert(math@ =~= seq!['$', '$']);
        assert(mermaid@ =~= seq!['`', '`', '`', 'm', 'e', 'r', 'm', 'a', 'i', 'd']);
        assert(diagram@ =~= seq!['`', '`', '`', 'd', 'i', 'a', 'g', 'r', 'a', 'm']);
        assert(callout@ =~= seq!['>', ' ', '[', '!']);
        assert(footnote@ =~= seq!['[', '^']);
        assert(block1@ =~= seq!['^', '[', ']']);
        assert(block2@ =~= seq!['^', '(']);
    }
    if region_is(cs, ts, te, &hr1) || region_is(cs, ts, te, &hr2) || region_is(cs, ts, te, &hr3) {
        out.push(line_node_exec(NodeKind::HorizontalRule, cs, offs, p, le, None));
        return;
    }
    if region_starts_with(cs, ts, te, &math) || region_ends_with(cs, ts, te, &math) {
        out.push(line_node_exec(NodeKind::Math, cs, offs, p, le, None));
        return;
    }
    if region_starts_with(cs, ts, te, &mermaid) || region_starts_with(cs, ts, te, &diagram) {
        out.push(line_node_exec(NodeKind::Diagram, cs, offs, p, le, None));
        return;
    }
    if region_starts_with(cs, ts, te, &callout) {
        let found = index_of_in(cs, ts + 4, te, ']');
        proof {
            assert(tr.skip(4) =~= s.subrange(ts + 4, te as int));
        }
        if let Some(e) = found {
            let detail = string_of(cs, ts + 4, e);
            proof {
                assert(tr.skip(4).take(e - (ts + 4)) =~= s.subrange(ts + 4, e as int));
            }
            out.push(line_node_exec(NodeKind::Callout, cs, offs, p, le, Some(detail)));
            return;
        }
    }
    if te > ts && cs[ts] == '|' && cs[te - 1] == '|' {
        out.push(line_node_exec(NodeKind::Table, cs, offs, p, le, None));
        return;
    }
    if region_starts_with(cs, ts, te, &footnote) {
        out.push(line_node_exec(NodeKind::Footnote, cs, offs, p, le, None));
        return;
    }
    if region_starts_with(cs, ts, te, &block1) || region_starts_with(cs, ts, te, &block2) {
        out.push(line_node_exec(NodeKind::BlockReference, cs, offs, p, le, None));
        return;
    }
    let mut h = ts;
    while h < te && cs[h] == '#'
        invariant
            ts <= h <= te <= cs@.len(),
            tr == s.subrange(ts as int, te as int),
            cs@ == s,
            run_end(tr, '#', h - ts) == run_end(tr, '#', 0),
        decreases te - h,
    {
        h = h + 1;
    }
    if h > ts && h < te && cs[h] == ' ' {
        let detail = decimal_string(h - ts);
        out.push(line_node_exec(NodeKind::Heading, cs, offs, p, le, Some(detail)));
    }
    proof {
        assert(node_views(out@) =~= acc + opt_nodes(heading_node(s, p as int, le as int, tr)));
    }
    let ghost after_heading = node_views(out@);
    let t = sub_chars(cs, ts, te);
    let task = lit("- [");
    proof {
        reveal_strlit("- [");
        assert(task@ =~= seq!['-', ' ', '[']);
    }
    let found = find_next(&t, 0, &task);
    proof {
        lemma_find_after(t@, 0, seq!['-', ' ', '[']);
    }
    if let Some(pos) = found {
        if pos + 3 < t.len() && (t[pos + 3] == ' ' || t[pos + 3] == 'x' || t[pos + 3] == 'X') {
            let detail = bool_string(t[pos + 3] == 'x' || t[pos + 3] == 'X');
            out.push(line_node_exec(NodeKind::TaskCheckbox, cs, offs, p, le, Some(detail)));
        }
    }
    proof {
        assert(node_views(out@) =~= after_heading + opt_nodes(task_node(s, p as int, le as int, tr)));
    }
    push_inline(cs, offs, p, le, out);
    if te > ts && !has_range_exec(out, offs[p], offs[le]) {
        out.push(line_node_exec(NodeKind::Paragraph, cs, offs, p, le, None));
    }
    proof {
        assert(node_views(out@) =~= body_nodes(s, p as int, le as int, tr, acc));
    }
}

#[verifier::spinoff_prover]
#[verifier::rlimit(40)]
fn classify(source: &str) -> (out: Vec<SurfaceNode>)
    ensures
        node_views(out@) == surface_spec(source@),
{
    let cs = chars_of(source);
    let offs = char_offsets(source, &cs);
    let ghost s = cs@;
    let n = cs.len();
    let newline = lit("\n");
    let dashes = lit("---");
    let backticks = lit("```");
    let tildes = lit("~~~");
    proof {
        reveal_strlit("\n");
        reveal_strlit("---");
        reveal_strlit("```");
        reveal_strlit("~~~");
        assert(newline@ =~= seq!['\n']);
        assert(dashes@ =~= seq!['-', '-', '-']);
        assert(backticks@ =~= seq!['`', '`', '`']);
        assert(tildes@ =~= seq!['~', '~', '~']);
    }
    let mut out: Vec<SurfaceNode> = Vec::new();
    let mut st = ClassifyState { frontmatter: false, fence: None };
    let mut p: usize = 0;
    proof {
        assert(node_views(out@) =~= Seq::<NodeView>::empty());
    }
    while p < n
        invariant
            p <= n == s.len(),
            cs@ == s,
            newline@ == seq!['\n'],
            dashes@ == seq!['-', '-', '-'],
            backticks@ == seq!['`', '`', '`'],
            tildes@ == seq!['~', '~', '~'],
            offs@.len() == cs@.len() + 1,
            forall|k: int| 0 <= k <= cs@.len() ==> #[trigger] offs@[k] == byte_at(cs@, k),
            st.fence matches Some((fp, _)) ==> fp <= p,
            classify_from(s, p as int, st.view(), node_views(out@)) == surface_spec(s),
        decreases n - p,
    {
        let found = find_next(&cs, p, &newline);
        proof {
            lemma_next_line(s, p as int);
            lemma_find_after(s, p as int, seq!['\n']);
        }
        let stop = match found {
            Some(k) => k,
            None => n,
        };
        let le = if stop > p && cs[stop - 1] == '\r' {
            stop - 1
        } else {
            stop
        };
        let next = if stop < n {
            stop + 1
        } else {
            n
        };
        let ts = skip_ws_exec(&cs, p, le);
        let te = crate::text::trim_end_exec(&cs, ts, le);
        let ghost tr = s.subrange(ts as int, te as int);
        let ghost acc = node_views(out@);
        let ghost stv = st.view();
        if p == 0 && region_is(&cs, ts, te, &dashes) {
            st.frontmatter = true;
        } else if st.frontmatter {
            if region_is(&cs, ts, te, &dashes) {
                st.frontmatter = false;
            } else {
                let colon = index_of_in(&cs, p, le, ':');
                if let Some(c) = colon {
                    let key = trimmed(&cs, p, c);
                    proof {
                        assert(s.subrange(p as int, le as int).take(c - p) =~= s.subrange(p as int, c as int));
                    }
                    if !key.as_str().is_empty() {
                        out.push(line_node_exec(NodeKind::FrontmatterProperty, &cs, &offs, p, le, Some(key)));
                    }
                }
            }
        } else if st.fence.is_some() {
            let (fp, marker) = st.fence.take().unwrap();
            if region_starts_with(&cs, ts, te, &marker) {
                let detail = string_from_vec(&marker);
                out.push(SurfaceNode {
                    kind: NodeKind::FencedCode,
                    range: SourceRange { start: offs[fp], end: offs[le] },
                    text: string_of(&cs, fp, le),
                    detail: Some(detail),
                });
            } else {
                st.fence = Some((fp, marker));
            }
        } else if region_starts_with(&cs, ts, te, &backticks) || region_starts_with(&cs, ts, te, &tildes) {
            let marker = sub_chars(&cs, ts, ts + 3);
            proof {
                assert(tr.take(3) =~= s.subrange(ts as int, ts + 3));
            }
            st.fence = Some((p, marker));
        } else {
            push_body(&cs, &offs, p, le, ts, te, &mut out);
        }
        proof {
            let (st2, acc2) = line_step(s, p as int, stv, acc);
            assert(st.view() == st2);
            assert(node_views(out@) == acc2);
        }
        p = next;
    }
    out
}

fn string_from_vec(cs: &Vec<char>) -> (r: String)
    ensures
        r@ == cs@,
{
    crate::text::string_from_chars(cs)
}

// ---------------------------------------------------------------- laws

/// Whether `n` is a span of `s`: its text is the characters `a..b` of `s` and
/// its range their byte offsets, for some `a <= b`; the text ends with no line feed.
pub open spec fn is_span_of(s: Seq<char>, n: NodeView) -> bool {
    exists|a: int, b: int|
        0 <= a <= b <= s.len() && #[trigger] byte_at(s, a) == n.start && #[trigger] byte_at(s, b) == n.end
            && n.text == s.subrange(a, b) && (a < b ==> s[b - 1] != '\n')
}

pub open spec fn all_spans(s: Seq<char>, v: Seq<NodeView>) -> bool {
    forall|k: int| 0 <= k < v.len() ==> is_span_of(s, #[trigger] v[k])
}

/// Whether characters `a..b` of `s` hold no line feed.
pub open spec fn no_feed(s: Seq<char>, a: int, b: int) -> bool {
    forall|t: int| a <= t < b ==> #[trigger] s[t] != '\n'
}

proof fn lemma_span_witness(s: Seq<char>, n: NodeView, a: int, b: int)
    requires
        0 <= a <= b <= s.len(),
        n.start == byte_at(s, a),
        n.end == byte_at(s, b),
        n.text == s.subrange(a, b),
        a < b ==> s[b - 1] != '\n',
    ensures
        is_span_of(s, n),
{
}

proof fn lemma_push_span(s: Seq<char>, v: Seq<NodeView>, n: NodeView)
    requires
        all_spans(s, v),
        is_span_of(s, n),
    ensures
        all_spans(s, v.push(n)),
{
    assert forall|k: int| 0 <= k < v.push(n).len() implies is_span_of(s, #[trigger] v.push(n)[k]) by {
        if k < v.len() {
            assert(v.push(n)[k] == v[k]);
        }
    }
}

proof fn lemma_concat_spans(s: Seq<char>, v: Seq<NodeView>, w: Seq<NodeView>)
    requires
        all_spans(s, v),
        all_spans(s, w),
    ensures
        all_spans(s, v + w),
{
    assert forall|k: int| 0 <= k < (v + w).len() implies is_span_of(s, #[trigger] (v + w)[k]) by {
        if k < v.len() {
            assert((v + w)[k] == v[k]);
        } else {
            assert((v + w)[k] == w[k - v.len()]);
        }
    }
}

proof fn lemma_inline_spans(s: Seq<char>, p: int, le: int, i: int)
    requires
        0 <= p <= le <= s.len(),
        no_feed(s, p, le),
    ensures
        all_spans(s, inline_from(s, p, le, i)),
    decreases s.subrange(p, le).len() - i,
{
    let ln = s.subrange(p, le);
    if i < 0 || i >= ln.len() {
    } else if match_at(ln, i, seq!['!', '[', '[']) {
        lemma_find_after(ln, i + 3, seq![']', ']']);
        match find_after(ln, i + 3, seq![']', ']']) {
            Some(k) => {
                lemma_inline_spans(s, p, le, k + 2);
                let n = inline_node(NodeKind::Embed, s, p, i, k + 2);
                assert(s.subrange(p + i, p + k + 2) == n.text);
                lemma_span_witness(s, n, p + i, p + k + 2);
                assert(all_spans(s, seq![n])) by {
                    assert forall|t: int| 0 <= t < seq![n].len() implies is_span_of(s, #[trigger] seq![n][t]) by {}
                }
                lemma_concat_spans(s, seq![n], inline_from(s, p, le, k + 2));
            },
            None => {
                lemma_inline_spans(s, p, le, i + 3);
            },
        }
    } else if match_at(ln, i, seq!['[', '[']) {
        lemma_find_after(ln, i + 2, seq![']', ']']);
        match find_after(ln, i + 2, seq![']', ']']) {
            Some(k) => {
                lemma_inline_spans(s, p, le, k + 2);
                let n = inline_node(NodeKind::Wikilink, s, p, i, k + 2);
                lemma_span_witness(s, n, p + i, p + k + 2);
                assert(all_spans(s, seq![n])) by {
                    assert forall|t: int| 0 <= t < seq![n].len() implies is_span_of(s, #[trigger] seq![n][t]) by {}
                }
                lemma_concat_spans(s, seq![n], inline_from(s, p, le, k + 2));
            },
            None => {
                lemma_inline_spans(s, p, le, i + 2);
            },
        }
    } else if ln[i] == '#' && i + 1 < ln.len() && (i == 0 || is_ascii_ws(ln[i - 1])) {
        lemma_next_ascii_ws(ln, i + 1, ln.len() as int);
        let e = next_ascii_ws(ln, i + 1, ln.len() as int);
        lemma_inline_spans(s, p, le, e);
        let n = inline_node(NodeKind::Tag, s, p, i, e);
        lemma_span_witness(s, n, p + i, p + e);
        assert(all_spans(s, seq![n])) by {
            assert forall|t: int| 0 <= t < seq![n].len() implies is_span_of(s, #[trigger] seq![n][t]) by {}
        }
        lemma_concat_spans(s, seq![n], inline_from(s, p, le, e));
    } else {
        lemma_inline_spans(s, p, le, i + 1);
    }
}

proof fn lemma_line_bounds(s: Seq<char>, p: int)
    requires
        0 <= p < s.len(),
    ensures
        p <= content_end(s, p) <= line_stop(s, p) <= s.len(),
        no_feed(s, p, line_stop(s, p)),
        no_feed(s, p, content_end(s, p)),
{
    lemma_next_line(s, p);
    lemma_find_after(s, p, seq!['\n']);
    assert forall|t: int| p <= t < line_stop(s, p) implies #[trigger] s[t] != '\n' by {
        if s[t] == '\n' {
            assert(s.skip(t).take(1) =~= seq!['\n']);
            assert(match_at(s, t, seq!['\n']));
        }
    }
}

proof fn lemma_line_node_span(kind: NodeKind, s: Seq<char>, p: int, le: int, d: Option<Seq<char>>)
    requires
        0 <= p <= le <= s.len(),
        no_feed(s, p, le),
    ensures
        is_span_of(s, line_node(kind, s, p, le, d)),
{
    lemma_span_witness(s, line_node(kind, s, p, le, d), p, le);
}

proof fn lemma_opt_spans(s: Seq<char>, o: Option<NodeView>)
    requires
        o matches Some(n) ==> is_span_of(s, n),
    ensures
        all_spans(s, opt_nodes(o)),
{
    assert forall|k: int| 0 <= k < opt_nodes(o).len() implies is_span_of(s, #[trigger] opt_nodes(o)[k]) by {}
}

proof fn lemma_body_spans(s: Seq<char>, p: int, le: int, tr: Seq<char>, acc: Seq<NodeView>)
    requires
        0 <= p <= le <= s.len(),
        no_feed(s, p, le),
        all_spans(s, acc),
    ensures
        all_spans(s, body_nodes(s, p, le, tr, acc)),
{
    if tr == seq!['-', '-', '-'] || tr == seq!['*', '*', '*'] || tr == seq!['_', '_', '_'] {
        lemma_line_node_span(NodeKind::HorizontalRule, s, p, le, None);
        lemma_push_span(s, acc, line_node(NodeKind::HorizontalRule, s, p, le, None));
    } else if starts_with(tr, seq!['$', '$']) || ends_with(tr, seq!['$', '$']) {
        lemma_line_node_span(NodeKind::Math, s, p, le, None);
        lemma_push_span(s, acc, line_node(NodeKind::Math, s, p, le, None));
    } else if starts_with(tr, seq!['`', '`', '`', 'm', 'e', 'r', 'm', 'a', 'i', 'd']) || starts_with(
        tr,
        seq!['`', '`', '`', 'd', 'i', 'a', 'g', 'r', 'a', 'm'],
    ) {
        lemma_line_node_span(NodeKind::Diagram, s, p, le, None);
        lemma_push_span(s, acc, line_node(NodeKind::Diagram, s, p, le, None));
    } else if starts_with(tr, seq!['>', ' ', '[', '!']) && index_of(tr.skip(4), ']') is Some {
        let d = Some(tr.skip(4).take(index_of(tr.skip(4), ']')->0));
        lemma_line_node_span(NodeKind::Callout, s, p, le, d);
        lemma_push_span(s, acc, line_node(NodeKind::Callout, s, p, le, d));
    } else if tr.len() > 0 && tr[0] == '|' && tr[tr.len() - 1] == '|' {
        lemma_line_node_span(NodeKind::Table, s, p, le, None);
        lemma_push_span(s, acc, line_node(NodeKind::Table, s, p, le, None));
    } else if starts_with(tr, seq!['[', '^']) {
        lemma_line_node_span(NodeKind::Footnote, s, p, le, None);
        lemma_push_span(s, acc, line_node(NodeKind::Footnote, s, p, le, None));
    } else if starts_with(tr, seq!['^', '[', ']']) || starts_with(tr, seq!['^', '(']) {
        lemma_line_node_span(NodeKind::BlockReference, s, p, le, None);
        lemma_push_span(s, acc, line_node(NodeKind::BlockReference, s, p, le, None));
    } else {
        let h = heading_node(s, p, le, tr);
        let t = task_node(s, p, le, tr);
        if let Some(n) = h {
            lemma_line_node_span(NodeKind::Heading, s, p, le, n.detail);
        }
        if let Some(n) = t {
            lemma_line_node_span(NodeKind::TaskCheckbox, s, p, le, n.detail);
        }
        lemma_opt_spans(s, h);
        lemma_opt_spans(s, t);
        lemma_inline_spans(s, p, le, 0);
        lemma_concat_spans(s, acc, opt_nodes(h));
        lemma_concat_spans(s, acc + opt_nodes(h), opt_nodes(t));
        lemma_concat_spans(s, acc + opt_nodes(h) + opt_nodes(t), inline_from(s, p, le, 0));
        let all = acc + opt_nodes(h) + opt_nodes(t) + inline_from(s, p, le, 0);
        lemma_line_node_span(NodeKind::Paragraph, s, p, le, None);
        lemma_push_span(s, all, line_node(NodeKind::Paragraph, s, p, le, None));
    }
}

/// What the classifier keeps of an open fence: it starts at or before `p`
/// and its marker is not empty.
pub open spec fn fence_ok(st: LineState, p: int) -> bool {
    st.fence matches Some((fp, m)) ==> 0 <= fp <= p && m.len() > 0
}

proof fn lemma_step_spans(s: Seq<char>, p: int, st: LineState, acc: Seq<NodeView>)
    requires
        0 <= p < s.len(),
        all_spans(s, acc),
        fence_ok(st, p),
    ensures
        all_spans(s, line_step(s, p, st, acc).1),
        fence_ok(line_step(s, p, st, acc).0, p),
{
    lemma_line_bounds(s, p);
    let le = content_end(s, p);
    lemma_skip_ws(s, p, le);
    let ts = skip_ws(s, p, le);
    lemma_skip_ws(s, ts, le);
    let tr = s.subrange(ts, trim_end_ws(s, ts, le));
    let ln = s.subrange(p, le);
    if p == 0 && tr == seq!['-', '-', '-'] {
    } else if st.frontmatter {
        if tr == seq!['-', '-', '-'] {
        } else {
            match index_of(ln, ':') {
                Some(c) => if trim_ws(ln.take(c)).len() > 0 {
                    let d = Some(trim_ws(ln.take(c)));
                    lemma_line_node_span(NodeKind::FrontmatterProperty, s, p, le, d);
                    lemma_push_span(s, acc, line_node(NodeKind::FrontmatterProperty, s, p, le, d));
                },
                None => {},
            }
        }
    } else if st.fence is Some {
        let (fp, marker) = st.fence->0;
        if starts_with(tr, marker) {
            let n = NodeView {
                kind: NodeKind::FencedCode,
                start: byte_at(s, fp),
                end: byte_at(s, le),
                text: s.subrange(fp, le),
                detail: Some(marker),
            };
            assert(tr.len() > 0);
            assert(le > p);
            lemma_span_witness(s, n, fp, le);
            lemma_push_span(s, acc, n);
        }
    } else if starts_with(tr, seq!['`', '`', '`']) || starts_with(tr, seq!['~', '~', '~']) {
        assert(tr.take(3).len() == 3);
    } else {
        lemma_body_spans(s, p, le, tr, acc);
    }
}

proof fn lemma_classify_spans(s: Seq<char>, p: int, st: LineState, acc: Seq<NodeView>)
    requires
        0 <= p,
        all_spans(s, acc),
        fence_ok(st, p),
    ensures
        all_spans(s, classify_from(s, p, st, acc)),
    decreases s.len() - p,
{
    if p < s.len() {
        lemma_next_line(s, p);
        lemma_step_spans(s, p, st, acc);
        let (st2, acc2) = line_step(s, p, st, acc);
        lemma_classify_spans(s, next_line(s, p), st2, acc2);
    }
}

/// Every node of a rendered surface is a span of the source: its text is the
/// source between two character positions, its range is their byte offsets,
/// and its text does not end with a line feed.
pub proof fn lemma_surface_spans(s: Seq<char>)
    ensures
        all_spans(s, surface_spec(s)),
{
    lemma_classify_spans(s, 0, LineState { frontmatter: false, fence: None }, Seq::empty());
}

} // verus!


