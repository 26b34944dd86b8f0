//! A small, dependency-free semantic Markdown engine.
//!
//! The parser keeps the original source and treats malformed syntax as
//! ordinary text, so parsing never destroys text.  Spans are UTF-8 byte
//! offsets into the source.
use vstd::prelude::*;
use vstd::string::*;
use vstd::utf8::*;
use crate::text::{byte_at, char_offsets, chars_of, enc};
use self::block::{
    BlockView, FootView, FrontView, ItemView, PropView, bview, bviews, fview, fviews, opt_front,
    parse_spec, pview, pviews, lines_exec, frontmatter_exec, lemma_line_vec_bounds, md_lines,
    frontmatter_of, line_views, item_view, item_views, lemma_bviews_push, lemma_item_views_push,
};
use self::inline::{InlineView, iview, iviews, opt_text, pats, offsets_of, clone_inlines, copy_text};
use self::parse::{blocks_exec, lemma_lines_ok};

pub mod block;
pub mod inline;
pub mod parse;
pub mod spans;

verus! {

/// A half-open byte span.
#[derive(Clone, Copy, Debug, Eq, PartialEq, Ord, PartialOrd, Structural)]
pub struct Span {
    pub start: usize,
    pub end: usize,
}

impl Default for Span {
    fn default() -> (r: Self)
        ensures
            r.start == 0 && r.end == 0,
    {
        Span { start: 0, end: 0 }
    }
}

/// Whether `span` covers whole characters of `source`.
pub open spec fn valid_span(source: &str, start: int, end: int) -> bool {
    &&& start <= end <= source.spec_bytes().len()
    &&& is_char_boundary(source.spec_bytes(), start)
    &&& is_char_boundary(source.spec_bytes(), end)
}

impl Span {
    pub fn new(start: usize, end: usize) -> (r: Self)
        ensures
            r.start == start && r.end == end,
    {
        Span { start, end }
    }

    /// The covered source text when this span is valid for `source`.
    pub fn text<'a>(&self, source: &'a str) -> (r: Option<&'a str>)
        ensures
            r is Some <==> valid_span(source, self.start as int, self.end as int),
            r matches Some(t) ==> t.spec_bytes() == source.spec_bytes().subrange(self.start as int, self.end as int),
    {
        broadcast use vstd::utf8::encode_utf8_valid_utf8;
        let len = source.as_bytes().len();
        if self.start <= self.end && self.end <= len && source.is_char_boundary(self.start)
            && source.is_char_boundary(self.end) {
            let ghost bytes = source.spec_bytes();
            proof {
                vstd::utf8::valid_utf8_split(bytes, self.end as int);
                let head = bytes.subrange(0, self.end as int);
                if self.start == self.end {
                    vstd::utf8::is_char_boundary_start_end_of_seq(head);
                } else {
                    vstd::utf8::is_char_boundary_iff_not_is_continuation_byte(bytes, self.start as int);
                    vstd::utf8::is_char_boundary_iff_not_is_continuation_byte(head, self.start as int);
                }
            }
            let (head, _) = source.split_at(self.end);
            let (_, mid) = head.split_at(self.start);
            proof {
                assert(mid.spec_bytes() =~= bytes.subrange(self.start as int, self.end as int));
            }
            Some(mid)
        } else {
            None
        }
    }
}

/// The editor's presentation mode.
#[derive(Clone, Copy, Debug, Eq, PartialEq, Structural)]
pub enum ViewMode {
    Source,
    LivePreview,
    Reading,
}

/// A render-neutral inline node.
#[derive(Debug, PartialEq)]
pub enum Inline {
    Text { value: String, span: Span },
    Emphasis { children: Vec<Inline>, span: Span },
    Strong { children: Vec<Inline>, span: Span },
    Code { value: String, span: Span },
    Link { label: String, target: String, span: Span },
    WikiLink {
        target: String,
        alias: Option<String>,
        heading: Option<String>,
        block: Option<String>,
        span: Span,
    },
    Embed { target: String, alias: Option<String>, span: Span },
    Tag { value: String, span: Span },
    Highlight { children: Vec<Inline>, span: Span },
    Math { value: String, display: bool, span: Span },
    FootnoteRef { label: String, span: Span },
}

/// A block-level semantic node.
#[derive(Debug, PartialEq)]
pub enum Block {
    Paragraph { children: Vec<Inline>, span: Span },
    Heading { level: u8, text: String, slug: String, children: Vec<Inline>, span: Span },
    Quote { children: Vec<Block>, span: Span },
    List { ordered: bool, items: Vec<ListItem>, span: Span },
    Code { language: Option<String>, value: String, span: Span },
    Table { headers: Vec<String>, rows: Vec<Vec<String>>, span: Span },
    ThematicBreak { span: Span },
    Html { value: String, span: Span },
    Callout { kind: String, title: Option<String>, foldable: Option<bool>, children: Vec<Block>, span: Span },
    Comment { value: String, span: Span },
}

#[derive(Debug, PartialEq)]
pub struct ListItem {
    pub checked: Option<bool>,
    pub blocks: Vec<Block>,
    pub span: Span,
}

#[derive(Clone, Debug, PartialEq)]
pub struct Property {
    pub key: String,
    pub value: String,
    pub span: Span,
}

#[derive(Clone, Debug, PartialEq)]
pub struct Frontmatter {
    pub raw: String,
    pub properties: Vec<Property>,
    pub span: Span,
}

#[derive(Clone, Debug, PartialEq)]
pub struct Footnote {
    pub label: String,
    pub definition: String,
    pub span: Span,
}


/// Parsed immutable snapshot of a Markdown document.
#[derive(Debug, PartialEq)]
pub struct Document {
    source: String,
    pub blocks: Vec<Block>,
    pub frontmatter: Option<Frontmatter>,
    pub footnotes: Vec<Footnote>,
    pub revision: u64,
    pub mode: ViewMode,
}

/// A document as its source, parsed parts, revision and mode.
pub struct DocumentView {
    pub source: Seq<char>,
    pub blocks: Seq<BlockView>,
    pub frontmatter: Option<FrontView>,
    pub footnotes: Seq<FootView>,
    pub revision: u64,
    pub mode: ViewMode,
}

impl View for Document {
    type V = DocumentView;

    closed spec fn view(&self) -> DocumentView {
        DocumentView {
            source: self.source@,
            blocks: bviews(self.blocks@),
            frontmatter: opt_front(self.frontmatter),
            footnotes: fviews(self.footnotes@),
            revision: self.revision,
            mode: self.mode,
        }
    }
}

/// The document that parsing `s` yields at the given revision and mode.
pub open spec fn parsed(s: Seq<char>, revision: u64, mode: ViewMode) -> DocumentView {
    DocumentView {
        source: s,
        blocks: parse_spec(s).blocks,
        frontmatter: parse_spec(s).frontmatter,
        footnotes: parse_spec(s).footnotes,
        revision,
        mode,
    }
}

/// Parses `source`.
fn parse_document(source: &str, revision: u64, mode: ViewMode) -> (d: Document)
    ensures
        d@ == parsed(source@, revision, mode),
{
    let cs = chars_of(source);
    let offs = char_offsets(source, &cs);
    let pt = pats();
    let (frontmatter, body) = frontmatter_exec(&cs, &offs);
    proof {
        let (fm, b) = frontmatter_of(cs@);
        assert(b == body);
        if b > 0 {
            assert(fm is Some);
        }
    }
    let n = cs.len();
    let lines = lines_exec(&cs, body, n);
    proof {
        lemma_lines_ok(cs@, lines@, body as int);
    }
    let (blocks, footnotes) = blocks_exec(&cs, &offs, &pt, &lines);
    Document { source: source.to_owned(), blocks, frontmatter, footnotes, revision, mode }
}


#[derive(Clone, Debug, PartialEq)]
pub struct Link {
    pub target: String,
    pub alias: Option<String>,
    pub span: Span,
}

#[derive(Clone, Debug, PartialEq)]
pub struct EmbedRef {
    pub target: String,
    pub alias: Option<String>,
    pub span: Span,
}

#[derive(Clone, Debug, PartialEq)]
pub struct HeadingInfo {
    pub level: u8,
    pub text: String,
    pub slug: String,
    pub span: Span,
}

#[derive(Clone, Debug, PartialEq)]
pub struct Outline {
    pub headings: Vec<HeadingInfo>,
}

pub struct HeadView {
    pub level: int,
    pub text: Seq<char>,
    pub slug: Seq<char>,
    pub start: int,
    pub end: int,
}

pub struct LinkView {
    pub target: Seq<char>,
    pub alias: Option<Seq<char>>,
    pub start: int,
    pub end: int,
}

pub open spec fn hview(h: HeadingInfo) -> HeadView {
    HeadView { level: h.level as int, text: h.text@, slug: h.slug@, start: h.span.start as int, end: h.span.end as int }
}

pub open spec fn hviews(v: Seq<HeadingInfo>) -> Seq<HeadView> {
    v.map_values(|h: HeadingInfo| hview(h))
}

pub open spec fn lview(x: Link) -> LinkView {
    LinkView { target: x.target@, alias: opt_text(x.alias), start: x.span.start as int, end: x.span.end as int }
}

pub open spec fn lviews(v: Seq<Link>) -> Seq<LinkView> {
    v.map_values(|x: Link| lview(x))
}

pub open spec fn eview(x: EmbedRef) -> LinkView {
    LinkView { target: x.target@, alias: opt_text(x.alias), start: x.span.start as int, end: x.span.end as int }
}

pub open spec fn eviews(v: Seq<EmbedRef>) -> Seq<LinkView> {
    v.map_values(|x: EmbedRef| eview(x))
}

/// The headings of a block, nested ones included, in document order.
pub open spec fn block_heads(b: BlockView) -> Seq<HeadView>
    decreases b,
{
    match b {
        BlockView::Heading { level, text, slug, start, end, .. } => seq![HeadView { level, text, slug, start, end }],
        BlockView::Quote { children, .. } => heads(children),
        BlockView::Callout { children, .. } => heads(children),
        BlockView::List { items, .. } => item_heads(items),
        _ => Seq::empty(),
    }
}

pub open spec fn heads(bs: Seq<BlockView>) -> Seq<HeadView>
    decreases bs,
{
    if bs.len() == 0 {
        Seq::empty()
    } else {
        block_heads(bs[0]) + heads(bs.drop_first())
    }
}

pub open spec fn item_heads(items: Seq<ItemView>) -> Seq<HeadView>
    decreases items,
{
    if items.len() == 0 {
        Seq::empty()
    } else {
        heads(items[0].blocks) + item_heads(items.drop_first())
    }
}

/// The inline nodes directly under the paragraphs and headings of a block,
/// in document order (nested inline nodes are not visited).
pub open spec fn block_inlines(b: BlockView) -> Seq<InlineView>
    decreases b,
{
    match b {
        BlockView::Paragraph { children, .. } => children,
        BlockView::Heading { children, .. } => children,
        BlockView::Quote { children, .. } => top_inlines(children),
        BlockView::Callout { children, .. } => top_inlines(children),
        BlockView::List { items, .. } => item_inlines(items),
        _ => Seq::empty(),
    }
}

pub open spec fn top_inlines(bs: Seq<BlockView>) -> Seq<InlineView>
    decreases bs,
{
    if bs.len() == 0 {
        Seq::empty()
    } else {
        block_inlines(bs[0]) + top_inlines(bs.drop_first())
    }
}

pub open spec fn item_inlines(items: Seq<ItemView>) -> Seq<InlineView>
    decreases items,
{
    if items.len() == 0 {
        Seq::empty()
    } else {
        top_inlines(items[0].blocks) + item_inlines(items.drop_first())
    }
}

/// The markdown links among inline nodes, with their label as alias.
pub open spec fn links_of(v: Seq<InlineView>) -> Seq<LinkView>
    decreases v.len(),
{
    if v.len() == 0 {
        Seq::empty()
    } else {
        (match v[0] {
            InlineView::Link { label, target, start, end } => seq![LinkView { target, alias: Some(label), start, end }],
            _ => Seq::empty(),
        }) + links_of(v.drop_first())
    }
}

/// The wikilinks among inline nodes.
pub open spec fn wikilinks_of(v: Seq<InlineView>) -> Seq<LinkView>
    decreases v.len(),
{
    if v.len() == 0 {
        Seq::empty()
    } else {
        (match v[0] {
            InlineView::WikiLink { target, alias, start, end, .. } => seq![LinkView { target, alias, start, end }],
            _ => Seq::empty(),
        }) + wikilinks_of(v.drop_first())
    }
}

/// The embeds among inline nodes.
pub open spec fn embeds_of(v: Seq<InlineView>) -> Seq<LinkView>
    decreases v.len(),
{
    if v.len() == 0 {
        Seq::empty()
    } else {
        (match v[0] {
            InlineView::Embed { target, alias, start, end } => seq![LinkView { target, alias, start, end }],
            _ => Seq::empty(),
        }) + embeds_of(v.drop_first())
    }
}

/// The tag values among inline nodes, each once, in order of first appearance, after `acc`.
pub open spec fn tags_of(v: Seq<InlineView>, acc: Seq<Seq<char>>) -> Seq<Seq<char>>
    decreases v.len(),
{
    if v.len() == 0 {
        acc
    } else {
        match v[0] {
            InlineView::Tag { value, .. } => tags_of(v.drop_first(), if acc.contains(value) { acc } else { acc.push(value) }),
            _ => tags_of(v.drop_first(), acc),
        }
    }
}

/// The whitespace-separated words of `i..b`, as index ranges.
pub open spec fn words_from(s: Seq<char>, i: int, b: int) -> Seq<(int, int)>
    decreases b - i,
{
    if i < 0 || i >= b {
        Seq::empty()
    } else {
        let a = crate::text::skip_ws(s, i, b);
        if a >= b {
            Seq::empty()
        } else {
            proof {
                crate::text::lemma_skip_ws(s, i, b);
                crate::text::lemma_skip_ws(s, a, b);
                crate::text::lemma_skip_ws_stop(s, i, b);
                crate::text::lemma_skip_ws_stop(s, a, b);
            }
            seq![(a, crate::text::next_ws(s, a, b))] + words_from(s, crate::text::next_ws(s, a, b), b)
        }
    }
}

/// Whether the line `a..b` has `w` among its whitespace-separated words.
pub open spec fn has_word(s: Seq<char>, a: int, b: int, w: Seq<char>) -> bool {
    exists|k: int| 0 <= k < words_from(s, a, b).len() && #[trigger] s.subrange(words_from(s, a, b)[k].0, words_from(s, a, b)[k].1) == w
}

/// The first line from `k` on that has the word `w`.
pub open spec fn line_with_word(s: Seq<char>, l: Seq<(int, int)>, k: int, w: Seq<char>) -> Option<(int, int)>
    decreases l.len() - k,
{
    if k < 0 || k >= l.len() {
        None
    } else if has_word(s, l[k].0, l[k].1, w) {
        Some(l[k])
    } else {
        line_with_word(s, l, k + 1, w)
    }
}

/// The first heading with the given slug.
pub open spec fn first_slug(hs: Seq<HeadView>, slug: Seq<char>) -> Option<HeadView>
    decreases hs.len(),
{
    if hs.len() == 0 {
        None
    } else if hs[0].slug == slug {
        Some(hs[0])
    } else {
        first_slug(hs.drop_first(), slug)
    }
}


pub proof fn lemma_bviews_index(v: Seq<Block>)
    ensures
        bviews(v).len() == v.len(),
        forall|k: int| 0 <= k < v.len() ==> #[trigger] bviews(v)[k] == bview(v[k]),
    decreases v.len(),
{
    if v.len() > 0 {
        lemma_bviews_index(v.drop_first());
        assert forall|k: int| 0 <= k < v.len() implies #[trigger] bviews(v)[k] == bview(v[k]) by {
            if k > 0 {
                assert(v.drop_first()[k - 1] == v[k]);
            }
        }
    }
}

pub proof fn lemma_item_views_index(v: Seq<ListItem>)
    ensures
        item_views(v).len() == v.len(),
        forall|k: int| 0 <= k < v.len() ==> #[trigger] item_views(v)[k] == item_view(v[k]),
    decreases v.len(),
{
    if v.len() > 0 {
        lemma_item_views_index(v.drop_first());
        assert forall|k: int| 0 <= k < v.len() implies #[trigger] item_views(v)[k] == item_view(v[k]) by {
            if k > 0 {
                assert(v.drop_first()[k - 1] == v[k]);
            }
        }
    }
}

pub proof fn lemma_iviews_index(v: Seq<Inline>)
    ensures
        iviews(v).len() == v.len(),
        forall|k: int| 0 <= k < v.len() ==> #[trigger] iviews(v)[k] == iview(v[k]),
    decreases v.len(),
{
    if v.len() > 0 {
        lemma_iviews_index(v.drop_first());
        assert forall|k: int| 0 <= k < v.len() implies #[trigger] iviews(v)[k] == iview(v[k]) by {
            if k > 0 {
                assert(v.drop_first()[k - 1] == v[k]);
            }
        }
    }
}

fn heads_block(b: &Block, out: &mut Vec<HeadingInfo>)
    ensures
        hviews(final(out)@) == hviews(old(out)@) + block_heads(bview(*b)),
    decreases b,
{
    let ghost before = hviews(out@);
    match b {
        Block::Heading { level, text, slug, span, .. } => {
            out.push(HeadingInfo { level: *level, text: text.clone(), slug: slug.clone(), span: *span });
            proof {
                assert(hviews(out@) =~= before + block_heads(bview(*b)));
            }
        },
        Block::Quote { children, .. } => {
            heads_blocks(children, out);
        },
        Block::Callout { children, .. } => {
            heads_blocks(children, out);
        },
        Block::List { items, .. } => {
            heads_items(items, out);
        },
        _ => {
            proof {
                assert(hviews(out@) =~= before + block_heads(bview(*b)));
            }
        },
    }
}

fn heads_blocks(v: &Vec<Block>, out: &mut Vec<HeadingInfo>)
    ensures
        hviews(final(out)@) == hviews(old(out)@) + heads(bviews(v@)),
    decreases v,
{
    let ghost bs = bviews(v@);
    let ghost start = hviews(out@);
    proof {
        lemma_bviews_index(v@);
        assert(bs.skip(0) =~= bs);
    }
    let mut k: usize = 0;
    while k < v.len()
        invariant
            k <= v@.len(),
            bs == bviews(v@),
            bs.len() == v@.len(),
            forall|j: int| 0 <= j < v@.len() ==> #[trigger] bs[j] == bview(v@[j]),
            hviews(out@) + heads(bs.skip(k as int)) == start + heads(bs),
        decreases v@.len() - k,
    {
        let ghost before = hviews(out@);
        proof {
            assert(decreases_to!(v => v@[k as int]));
            assert(bs.skip(k as int)[0] == bview(v@[k as int]));
            assert(bs.skip(k as int).drop_first() =~= bs.skip(k + 1));
        }
        heads_block(&v[k], out);
        proof {
            assert(hviews(out@) + heads(bs.skip(k + 1)) =~= before + heads(bs.skip(k as int)));
        }
        k = k + 1;
    }
    proof {
        assert(bs.skip(k as int) =~= Seq::<BlockView>::empty());
        assert(hviews(out@) =~= start + heads(bs));
    }
}

fn heads_items(v: &Vec<ListItem>, out: &mut Vec<HeadingInfo>)
    ensures
        hviews(final(out)@) == hviews(old(out)@) + item_heads(item_views(v@)),
    decreases v,
{
    let ghost bs = item_views(v@);
    let ghost start = hviews(out@);
    proof {
        lemma_item_views_index(v@);
        assert(bs.skip(0) =~= bs);
    }
    let mut k: usize = 0;
    while k < v.len()
        invariant
            k <= v@.len(),
            bs == item_views(v@),
            bs.len() == v@.len(),
            forall|j: int| 0 <= j < v@.len() ==> #[trigger] bs[j] == item_view(v@[j]),
            hviews(out@) + item_heads(bs.skip(k as int)) == start + item_heads(bs),
        decreases v@.len() - k,
    {
        let ghost before = hviews(out@);
        proof {
            assert(decreases_to!(v => v@[k as int].blocks));
            assert(bs.skip(k as int)[0] == item_view(v@[k as int]));
            assert(bs.skip(k as int).drop_first() =~= bs.skip(k + 1));
        }
        heads_blocks(&v[k].blocks, out);
        proof {
            assert(hviews(out@) + item_heads(bs.skip(k + 1)) =~= before + item_heads(bs.skip(k as int)));
        }
        k = k + 1;
    }
    proof {
        assert(bs.skip(k as int) =~= Seq::<ItemView>::empty());
        assert(hviews(out@) =~= start + item_heads(bs));
    }
}

fn inlines_block(b: &Block, out: &mut Vec<Inline>)
    ensures
        iviews(final(out)@) == iviews(old(out)@) + block_inlines(bview(*b)),
    decreases b,
{
    let ghost before = iviews(out@);
    match b {
        Block::Paragraph { children, .. } => {
            let mut c = clone_inlines(children);
            proof {
                crate::markdown::inline::lemma_iviews_concat(out@, c@);
            }
            out.append(&mut c);
        },
        Block::Heading { children, .. } => {
            let mut c = clone_inlines(children);
            proof {
                crate::markdown::inline::lemma_iviews_concat(out@, c@);
            }
            out.append(&mut c);
        },
        Block::Quote { children, .. } => {
            inlines_blocks(children, out);
        },
        Block::Callout { children, .. } => {
            inlines_blocks(children, out);
        },
        Block::List { items, .. } => {
            inlines_items(items, out);
        },
        _ => {
            proof {
                assert(iviews(out@) =~= before + block_inlines(bview(*b)));
            }
        },
    }
}

fn inlines_blocks(v: &Vec<Block>, out: &mut Vec<Inline>)
    ensures
        iviews(final(out)@) == iviews(old(out)@) + top_inlines(bviews(v@)),
    decreases v,
{
    let ghost bs = bviews(v@);
    let ghost start = iviews(out@);
    proof {
        lemma_bviews_index(v@);
        assert(bs.skip(0) =~= bs);
    }
    let mut k: usize = 0;
    while k < v.len()
        invariant
            k <= v@.len(),
            bs == bviews(v@),
            bs.len() == v@.len(),
            forall|j: int| 0 <= j < v@.len() ==> #[trigger] bs[j] == bview(v@[j]),
            iviews(out@) + top_inlines(bs.skip(k as int)) == start + top_inlines(bs),
        decreases v@.len() - k,
    {
        let ghost before = iviews(out@);
        proof {
            assert(decreases_to!(v => v@[k as int]));
            assert(bs.skip(k as int)[0] == bview(v@[k as int]));
            assert(bs.skip(k as int).drop_first() =~= bs.skip(k + 1));
        }
        inlines_block(&v[k], out);
        proof {
            assert(iviews(out@) + top_inlines(bs.skip(k + 1)) =~= before + top_inlines(bs.skip(k as int)));
        }
        k = k + 1;
    }
    proof {
        assert(bs.skip(k as int) =~= Seq::<BlockView>::empty());
        assert(iviews(out@) =~= start + top_inlines(bs));
    }
}

fn inlines_items(v: &Vec<ListItem>, out: &mut Vec<Inline>)
    ensures
        iviews(final(out)@) == iviews(old(out)@) + item_inlines(item_views(v@)),
    decreases v,
{
    let ghost bs = item_views(v@);
    let ghost start = iviews(out@);
    proof {
        lemma_item_views_index(v@);
        assert(bs.skip(0) =~= bs);
    }
    let mut k: usize = 0;
    while k < v.len()
        invariant
            k <= v@.len(),
            bs == item_views(v@),
            bs.len() == v@.len(),
            forall|j: int| 0 <= j < v@.len() ==> #[trigger] bs[j] == item_view(v@[j]),
            iviews(out@) + item_inlines(bs.skip(k as int)) == start + item_inlines(bs),
        decreases v@.len() - k,
    {
        let ghost before = iviews(out@);
        proof {
            assert(decreases_to!(v => v@[k as int].blocks));
            assert(bs.skip(k as int)[0] == item_view(v@[k as int]));
            assert(bs.skip(k as int).drop_first() =~= bs.skip(k + 1));
        }
        inlines_blocks(&v[k].blocks, out);
        proof {
            assert(iviews(out@) + item_inlines(bs.skip(k + 1)) =~= before + item_inlines(bs.skip(k as int)));
        }
        k = k + 1;
    }
    proof {
        assert(bs.skip(k as int) =~= Seq::<ItemView>::empty());
        assert(iviews(out@) =~= start + item_inlines(bs));
    }
}


fn clone_strs(v: &Vec<String>) -> (r: Vec<String>)
    ensures
        self::block::strs(r@) == self::block::strs(v@),
{
    let mut r: Vec<String> = Vec::new();
    let mut k: usize = 0;
    while k < v.len()
        invariant
            k <= v@.len(),
            r@.len() == k,
            forall|j: int| 0 <= j < k ==> #[trigger] r@[j]@ == v@[j]@,
        decreases v@.len() - k,
    {
        r.push(v[k].clone());
        k = k + 1;
    }
    proof {
        assert(self::block::strs(r@) =~= self::block::strs(v@));
    }
    r
}

fn clone_rows(v: &Vec<Vec<String>>) -> (r: Vec<Vec<String>>)
    ensures
        self::block::rows_view(r@) == self::block::rows_view(v@),
{
    let mut r: Vec<Vec<String>> = Vec::new();
    let mut k: usize = 0;
    while k < v.len()
        invariant
            k <= v@.len(),
            r@.len() == k,
            forall|j: int| 0 <= j < k ==> self::block::strs(#[trigger] r@[j]@) == self::block::strs(v@[j]@),
        decreases v@.len() - k,
    {
        r.push(clone_strs(&v[k]));
        k = k + 1;
    }
    proof {
        assert(self::block::rows_view(r@) =~= self::block::rows_view(v@));
    }
    r
}

/// A deep copy of a block.
pub fn clone_block(b: &Block) -> (r: Block)
    ensures
        bview(r) == bview(*b),
    decreases b,
{
    match b {
        Block::Paragraph { children, span } => Block::Paragraph { children: clone_inlines(children), span: *span },
        Block::Heading { level, text, slug, children, span } => Block::Heading {
            level: *level,
            text: text.clone(),
            slug: slug.clone(),
            children: clone_inlines(children),
            span: *span,
        },
        Block::Quote { children, span } => Block::Quote { children: clone_blocks(children), span: *span },
        Block::List { ordered, items, span } => Block::List { ordered: *ordered, items: clone_items(items), span: *span },
        Block::Code { language, value, span } => Block::Code { language: copy_text(language), value: value.clone(), span: *span },
        Block::Table { headers, rows, span } => Block::Table { headers: clone_strs(headers), rows: clone_rows(rows), span: *span },
        Block::ThematicBreak { span } => Block::ThematicBreak { span: *span },
        Block::Html { value, span } => Block::Html { value: value.clone(), span: *span },
        Block::Callout { kind, title, foldable, children, span } => Block::Callout {
            kind: kind.clone(),
            title: copy_text(title),
            foldable: *foldable,
            children: clone_blocks(children),
            span: *span,
        },
        Block::Comment { value, span } => Block::Comment { value: value.clone(), span: *span },
    }
}

/// A deep copy of a sequence of blocks.
pub fn clone_blocks(v: &Vec<Block>) -> (r: Vec<Block>)
    ensures
        bviews(r@) == bviews(v@),
    decreases v,
{
    let mut r: Vec<Block> = Vec::new();
    let mut k: usize = 0;
    while k < v.len()
        invariant
            k <= v@.len(),
            bviews(r@) == bviews(v@.take(k as int)),
        decreases v@.len() - k,
    {
        proof {
            assert(decreases_to!(v => v@[k as int]));
        }
        let c = clone_block(&v[k]);
        proof {
            lemma_bviews_push(r@, c);
            lemma_bviews_push(v@.take(k as int), v@[k as int]);
            assert(v@.take(k as int).push(v@[k as int]) =~= v@.take(k + 1));
        }
        r.push(c);
        k = k + 1;
    }
    proof {
        assert(v@.take(v@.len() as int) =~= v@);
    }
    r
}

fn clone_items(v: &Vec<ListItem>) -> (r: Vec<ListItem>)
    ensures
        item_views(r@) == item_views(v@),
    decreases v,
{
    let mut r: Vec<ListItem> = Vec::new();
    let mut k: usize = 0;
    while k < v.len()
        invariant
            k <= v@.len(),
            item_views(r@) == item_views(v@.take(k as int)),
        decreases v@.len() - k,
    {
        proof {
            assert(decreases_to!(v => v@[k as int].blocks));
        }
        let c = ListItem { checked: v[k].checked, blocks: clone_blocks(&v[k].blocks), span: v[k].span };
        proof {
            lemma_item_views_push(r@, c);
            lemma_item_views_push(v@.take(k as int), v@[k as int]);
            assert(v@.take(k as int).push(v@[k as int]) =~= v@.take(k + 1));
        }
        r.push(c);
        k = k + 1;
    }
    proof {
        assert(v@.take(v@.len() as int) =~= v@);
    }
    r
}

fn clone_front(f: &Option<Frontmatter>) -> (r: Option<Frontmatter>)
    ensures
        opt_front(r) == opt_front(*f),
{
    match f {
        None => None,
        Some(f) => {
            let mut props: Vec<Property> = Vec::new();
            let mut k: usize = 0;
            while k < f.properties.len()
                invariant
                    k <= f.properties@.len(),
                    props@.len() == k,
                    forall|j: int| 0 <= j < k ==> pview(#[trigger] props@[j]) == pview(f.properties@[j]),
                decreases f.properties@.len() - k,
            {
                let p = &f.properties[k];
                props.push(Property { key: p.key.clone(), value: p.value.clone(), span: p.span });
                k = k + 1;
            }
            proof {
                assert(pviews(props@) =~= pviews(f.properties@));
            }
            Some(Frontmatter { raw: f.raw.clone(), properties: props, span: f.span })
        },
    }
}

fn clone_notes(v: &Vec<Footnote>) -> (r: Vec<Footnote>)
    ensures
        fviews(r@) == fviews(v@),
{
    let mut r: Vec<Footnote> = Vec::new();
    let mut k: usize = 0;
    while k < v.len()
        invariant
            k <= v@.len(),
            r@.len() == k,
            forall|j: int| 0 <= j < k ==> fview(#[trigger] r@[j]) == fview(v@[j]),
        decreases v@.len() - k,
    {
        let f = &v[k];
        r.push(Footnote { label: f.label.clone(), definition: f.definition.clone(), span: f.span });
        k = k + 1;
    }
    proof {
        assert(fviews(r@) =~= fviews(v@));
    }
    r
}

impl Clone for Block {
    fn clone(&self) -> (r: Self)
        ensures
            bview(r) == bview(*self),
    {
        clone_block(self)
    }
}

impl Clone for ListItem {
    fn clone(&self) -> (r: Self)
        ensures
            item_view(r) == item_view(*self),
    {
        ListItem { checked: self.checked, blocks: clone_blocks(&self.blocks), span: self.span }
    }
}

impl Clone for Document {
    fn clone(&self) -> (r: Self)
        ensures
            r@ == self@,
    {
        Document {
            source: self.source.clone(),
            blocks: clone_blocks(&self.blocks),
            frontmatter: clone_front(&self.frontmatter),
            footnotes: clone_notes(&self.footnotes),
            revision: self.revision,
            mode: self.mode,
        }
    }
}


/// The whitespace-separated words of characters `a..b`.
fn words_exec(cs: &Vec<char>, a: usize, b: usize) -> (r: Vec<(usize, usize)>)
    requires
        a <= b <= cs@.len(),
    ensures
        line_views(r@) == words_from(cs@, a as int, b as int),
        forall|k: int| 0 <= k < r@.len() ==> a <= #[trigger] r@[k].0 <= r@[k].1 <= b,
{
    let mut out: Vec<(usize, usize)> = Vec::new();
    let mut i = a;
    proof {
        assert(line_views(out@) =~= Seq::<(int, int)>::empty());
    }
    while i < b
        invariant
            a <= i <= b <= cs@.len(),
            line_views(out@) + words_from(cs@, i as int, b as int) == words_from(cs@, a as int, b as int),
            forall|k: int| 0 <= k < out@.len() ==> a <= #[trigger] out@[k].0 <= out@[k].1 <= b,
        decreases b - i,
    {
        let x = crate::text::skip_ws_exec(cs, i, b);
        proof {
            crate::text::lemma_skip_ws_stop(cs@, i as int, b as int);
            crate::text::lemma_skip_ws_stop(cs@, x as int, b as int);
        }
        if x >= b {
            proof {
                assert(words_from(cs@, i as int, b as int) =~= Seq::<(int, int)>::empty());
                assert(words_from(cs@, b as int, b as int) =~= Seq::<(int, int)>::empty());
            }
            i = b;
        } else {
            let e = crate::text::next_ws_exec(cs, x, b);
            let ghost before = line_views(out@);
            out.push((x, e));
            proof {
                assert(line_views(out@) =~= before.push((x as int, e as int)));
                assert(line_views(out@) + words_from(cs@, e as int, b as int) =~= before + words_from(cs@, i as int, b as int));
            }
            i = e;
        }
    }
    proof {
        assert(words_from(cs@, i as int, b as int) =~= Seq::<(int, int)>::empty());
        assert(line_views(out@) =~= words_from(cs@, a as int, b as int));
    }
    out
}

fn has_word_exec(cs: &Vec<char>, a: usize, b: usize, w: &Vec<char>) -> (r: bool)
    requires
        a <= b <= cs@.len(),
    ensures
        r == has_word(cs@, a as int, b as int, w@),
{
    let ws = words_exec(cs, a, b);
    let ghost wv = words_from(cs@, a as int, b as int);
    let mut k: usize = 0;
    while k < ws.len()
        invariant
            k <= ws@.len(),
            wv == words_from(cs@, a as int, b as int),
            line_views(ws@) == wv,
            forall|j: int| 0 <= j < ws@.len() ==> a <= #[trigger] ws@[j].0 <= ws@[j].1 <= b,
            forall|j: int| 0 <= j < k ==> #[trigger] cs@.subrange(wv[j].0, wv[j].1) != w@,
            b <= cs@.len(),
        decreases ws@.len() - k,
    {
        let (x, y) = ws[k];
        proof {
            assert(wv[k as int] == (x as int, y as int));
        }
        if crate::text::region_is(cs, x, y, w) {
            return true;
        }
        k = k + 1;
    }
    proof {
        assert(wv.len() == ws@.len());
    }
    false
}

impl Document {
    /// Parses `source` at revision zero in source mode.
    pub fn parse(source: &str) -> (d: Self)
        ensures
            d@ == parsed(source@, 0, ViewMode::Source),
            d@.source == source@,
    {
        parse_document(source, 0, ViewMode::Source)
    }

    /// Parses `source`; parsing is defined on every text, so this is always `Some`.
    pub fn try_parse(source: &str) -> (d: Option<Self>)
        ensures
            d matches Some(d) && d@ == parsed(source@, 0, ViewMode::Source),
    {
        Some(parse_document(source, 0, ViewMode::Source))
    }

    pub fn source(&self) -> (s: &str)
        ensures
            s@ == self@.source,
    {
        self.source.as_str()
    }

    /// The headings of the document, nested ones included, in order.
    pub fn outline(&self) -> (o: Outline)
        ensures
            hviews(o.headings@) == heads(self@.blocks),
    {
        let mut headings: Vec<HeadingInfo> = Vec::new();
        proof {
            assert(hviews(headings@) =~= Seq::<HeadView>::empty());
        }
        heads_blocks(&self.blocks, &mut headings);
        proof {
            assert(hviews(headings@) =~= heads(self@.blocks));
        }
        Outline { headings }
    }

    fn top(&self) -> (v: Vec<Inline>)
        ensures
            iviews(v@) == top_inlines(self@.blocks),
    {
        let mut v: Vec<Inline> = Vec::new();
        proof {
            assert(iviews(v@) =~= Seq::<InlineView>::empty());
        }
        inlines_blocks(&self.blocks, &mut v);
        proof {
            assert(iviews(v@) =~= top_inlines(self@.blocks));
        }
        v
    }

    /// The markdown links, with their label as alias.
    pub fn links(&self) -> (r: Vec<Link>)
        ensures
            lviews(r@) == links_of(top_inlines(self@.blocks)),
    {
        let v = self.top();
        let ghost iv = iviews(v@);
        proof {
            lemma_iviews_index(v@);
            assert(iv.skip(0) =~= iv);
        }
        let mut out: Vec<Link> = Vec::new();
        let mut k: usize = 0;
        proof {
            assert(lviews(out@) =~= Seq::<LinkView>::empty());
        }
        while k < v.len()
            invariant
                k <= v@.len(),
                iv == iviews(v@),
                iv.len() == v@.len(),
                forall|j: int| 0 <= j < v@.len() ==> #[trigger] iv[j] == iview(v@[j]),
                lviews(out@) + links_of(iv.skip(k as int)) == links_of(iv),
            decreases v@.len() - k,
        {
            let ghost before = lviews(out@);
            proof {
                assert(iv.skip(k as int)[0] == iview(v@[k as int]));
                assert(iv.skip(k as int).drop_first() =~= iv.skip(k + 1));
            }
            if let Inline::Link { label, target, span } = &v[k] {
                out.push(Link { target: target.clone(), alias: Some(label.clone()), span: *span });
            }
            proof {
                assert(lviews(out@) + links_of(iv.skip(k + 1)) =~= before + links_of(iv.skip(k as int)));
            }
            k = k + 1;
        }
        proof {
            assert(iv.skip(k as int) =~= Seq::<InlineView>::empty());
            assert(lviews(out@) =~= links_of(iv));
        }
        out
    }

    /// The wikilinks, in document order.
    pub fn wikilinks(&self) -> (r: Vec<Link>)
        ensures
            lviews(r@) == wikilinks_of(top_inlines(self@.blocks)),
    {
        let v = self.top();
        let ghost iv = iviews(v@);
        proof {
            lemma_iviews_index(v@);
            assert(iv.skip(0) =~= iv);
        }
        let mut out: Vec<Link> = Vec::new();
        let mut k: usize = 0;
        proof {
            assert(lviews(out@) =~= Seq::<LinkView>::empty());
        }
        while k < v.len()
            invariant
                k <= v@.len(),
                iv == iviews(v@),
                iv.len() == v@.len(),
                forall|j: int| 0 <= j < v@.len() ==> #[trigger] iv[j] == iview(v@[j]),
                lviews(out@) + wikilinks_of(iv.skip(k as int)) == wikilinks_of(iv),
            decreases v@.len() - k,
        {
            let ghost before = lviews(out@);
            proof {
                assert(iv.skip(k as int)[0] == iview(v@[k as int]));
                assert(iv.skip(k as int).drop_first() =~= iv.skip(k + 1));
            }
            if let Inline::WikiLink { target, alias, span, .. } = &v[k] {
                out.push(Link { target: target.clone(), alias: copy_text(alias), span: *span });
            }
            proof {
                assert(lviews(out@) + wikilinks_of(iv.skip(k + 1)) =~= before + wikilinks_of(iv.skip(k as int)));
            }
            k = k + 1;
        }
        proof {
            assert(iv.skip(k as int) =~= Seq::<InlineView>::empty());
            assert(lviews(out@) =~= wikilinks_of(iv));
        }
        out
    }

    /// The embeds, in document order.
    pub fn embeds(&self) -> (r: Vec<EmbedRef>)
        ensures
            eviews(r@) == embeds_of(top_inlines(self@.blocks)),
    {
        let v = self.top();
        let ghost iv = iviews(v@);
        proof {
            lemma_iviews_index(v@);
            assert(iv.skip(0) =~= iv);
        }
        let mut out: Vec<EmbedRef> = Vec::new();
        let mut k: usize = 0;
        proof {
            assert(eviews(out@) =~= Seq::<LinkView>::empty());
        }
        while k < v.len()
            invariant
                k <= v@.len(),
                iv == iviews(v@),
                iv.len() == v@.len(),
                forall|j: int| 0 <= j < v@.len() ==> #[trigger] iv[j] == iview(v@[j]),
                eviews(out@) + embeds_of(iv.skip(k as int)) == embeds_of(iv),
            decreases v@.len() - k,
        {
            let ghost before = eviews(out@);
            proof {
                assert(iv.skip(k as int)[0] == iview(v@[k as int]));
                assert(iv.skip(k as int).drop_first() =~= iv.skip(k + 1));
            }
            if let Inline::Embed { target, alias, span } = &v[k] {
                out.push(EmbedRef { target: target.clone(), alias: copy_text(alias), span: *span });
            }
            proof {
                assert(eviews(out@) + embeds_of(iv.skip(k + 1)) =~= before + embeds_of(iv.skip(k as int)));
            }
            k = k + 1;
        }
        proof {
            assert(iv.skip(k as int) =~= Seq::<InlineView>::empty());
            assert(eviews(out@) =~= embeds_of(iv));
        }
        out
    }

    /// The tag values, each once, in order of first appearance.
    pub fn tags(&self) -> (r: Vec<String>)
        ensures
            self::block::strs(r@) == tags_of(top_inlines(self@.blocks), Seq::empty()),
    {
        let v = self.top();
        let ghost iv = iviews(v@);
        proof {
            lemma_iviews_index(v@);
            assert(iv.skip(0) =~= iv);
        }
        let mut out: Vec<String> = Vec::new();
        let mut k: usize = 0;
        proof {
            assert(self::block::strs(out@) =~= Seq::<Seq<char>>::empty());
        }
        while k < v.len()
            invariant
                k <= v@.len(),
                iv == iviews(v@),
                iv.len() == v@.len(),
                forall|j: int| 0 <= j < v@.len() ==> #[trigger] iv[j] == iview(v@[j]),
                tags_of(iv.skip(k as int), self::block::strs(out@)) == tags_of(iv, Seq::empty()),
            decreases v@.len() - k,
        {
            let ghost before = self::block::strs(out@);
            proof {
                assert(iv.skip(k as int)[0] == iview(v@[k as int]));
                assert(iv.skip(k as int).drop_first() =~= iv.skip(k + 1));
            }
            if let Inline::Tag { value, .. } = &v[k] {
                if !contains_string(&out, value) {
                    out.push(value.clone());
                    proof {
                        assert(self::block::strs(out@) =~= before.push(value@));
                    }
                }
            }
            k = k + 1;
        }
        proof {
            assert(iv.skip(k as int) =~= Seq::<InlineView>::empty());
        }
        out
    }

    /// The frontmatter properties, none without frontmatter.
    pub fn properties(&self) -> (r: Vec<Property>)
        ensures
            pviews(r@) == match self@.frontmatter {
                Some(f) => f.properties,
                None => Seq::empty(),
            },
    {
        match clone_front(&self.frontmatter) {
            Some(f) => f.properties,
            None => {
                let r: Vec<Property> = Vec::new();
                proof {
                    assert(pviews(r@) =~= Seq::<PropView>::empty());
                }
                r
            },
        }
    }

    /// The number of whitespace-separated words of the source.
    pub fn word_count(&self) -> (n: usize)
        ensures
            n == words_from(self@.source, 0, self@.source.len() as int).len(),
    {
        let cs = chars_of(self.source.as_str());
        let w = words_exec(&cs, 0, cs.len());
        w.len()
    }

    /// The number of characters of the source.
    pub fn character_count(&self) -> (n: usize)
        ensures
            n == self@.source.len(),
    {
        let cs = chars_of(self.source.as_str());
        cs.len()
    }

    pub fn mode(&self) -> (m: ViewMode)
        ensures
            m == self@.mode,
    {
        self.mode
    }

    /// The number of changes this document has seen.
    pub fn revision(&self) -> (r: u64)
        ensures
            r == self@.revision,
    {
        self.revision
    }

    /// A copy of the document in another mode.
    pub fn with_mode(&self, mode: ViewMode) -> (d: Self)
        ensures
            d@ == (DocumentView { mode, ..self@ }),
    {
        let mut d = self.clone();
        d.mode = mode;
        d
    }

    /// The first heading whose slug is `slug`.
    pub fn resolve_heading(&self, slug: &str) -> (r: Option<HeadingInfo>)
        ensures
            match r {
                Some(h) => first_slug(heads(self@.blocks), slug@) == Some(hview(h)),
                None => first_slug(heads(self@.blocks), slug@) is None,
            },
    {
        let o = self.outline();
        let ghost hs = hviews(o.headings@);
        proof {
            assert(hs.skip(0) =~= hs);
        }
        let mut k: usize = 0;
        while k < o.headings.len()
            invariant
                k <= o.headings@.len(),
                hs == hviews(o.headings@),
                hs == heads(self@.blocks),
                first_slug(hs.skip(k as int), slug@) == first_slug(hs, slug@),
            decreases o.headings@.len() - k,
        {
            let h = &o.headings[k];
            proof {
                assert(hs.skip(k as int)[0] == hview(*h));
                assert(hs.skip(k as int).drop_first() =~= hs.skip(k + 1));
            }
            if crate::text::str_eq(h.slug.as_str(), slug) {
                return Some(HeadingInfo { level: h.level, text: h.text.clone(), slug: h.slug.clone(), span: h.span });
            }
            k = k + 1;
        }
        proof {
            assert(hs.skip(k as int) =~= Seq::<HeadView>::empty());
        }
        None
    }

    /// The span of the first line holding the word `^id`.
    pub fn resolve_block(&self, id: &str) -> (r: Option<Span>)
        ensures
            id@.len() == 0 ==> r is None,
            id@.len() > 0 ==> match line_with_word(
                self@.source,
                md_lines(self@.source, 0, self@.source.len() as int),
                0,
                seq!['^'] + id@,
            ) {
                Some((a, b)) => r == Some(Span { start: byte_at(self@.source, a) as usize, end: byte_at(self@.source, b) as usize }),
                None => r is None,
            },
    {
        let idc = chars_of(id);
        if idc.len() == 0 {
            return None;
        }
        let mut needle: Vec<char> = Vec::new();
        needle.push('^');
        let mut j: usize = 0;
        while j < idc.len()
            invariant
                j <= idc@.len(),
                needle@ == seq!['^'] + idc@.take(j as int),
            decreases idc@.len() - j,
        {
            needle.push(idc[j]);
            proof {
                assert(needle@ =~= seq!['^'] + idc@.take(j + 1));
            }
            j = j + 1;
        }
        proof {
            assert(idc@.take(j as int) =~= idc@);
        }
        let cs = chars_of(self.source.as_str());
        let offs = char_offsets(self.source.as_str(), &cs);
        let lines = lines_exec(&cs, 0, cs.len());
        let ghost l = line_views(lines@);
        proof {
            lemma_line_vec_bounds(lines@, cs@, 0, cs@.len() as int);
        }
        let mut k: usize = 0;
        while k < lines.len()
            invariant
                k <= lines@.len(),
                l == line_views(lines@),
                cs@ == self@.source,
                needle@ == seq!['^'] + id@,
                id@.len() > 0,
                l == md_lines(self@.source, 0, self@.source.len() as int),
                forall|m: int| 0 <= m < lines@.len() ==> 0 <= #[trigger] lines@[m].0 <= lines@[m].1 <= cs@.len(),
                offs@.len() == cs@.len() + 1,
                forall|m: int| 0 <= m <= cs@.len() ==> #[trigger] offs@[m] == byte_at(cs@, m),
                line_with_word(cs@, l, k as int, needle@) == line_with_word(cs@, l, 0, needle@),
            decreases lines@.len() - k,
        {
            let (a, b) = lines[k];
            proof {
                assert(l[k as int] == (a as int, b as int));
            }
            if has_word_exec(&cs, a, b, &needle) {
                return Some(Span { start: offs[a], end: offs[b] });
            }
            k = k + 1;
        }
        None
    }
}

fn contains_string(v: &Vec<String>, x: &String) -> (r: bool)
    ensures
        r == self::block::strs(v@).contains(x@),
{
    let mut k: usize = 0;
    while k < v.len()
        invariant
            k <= v@.len(),
            forall|j: int| 0 <= j < k ==> #[trigger] v@[j]@ != x@,
        decreases v@.len() - k,
    {
        if crate::text::str_eq(v[k].as_str(), x.as_str()) {
            proof {
                assert(self::block::strs(v@)[k as int] == x@);
            }
            return true;
        }
        k = k + 1;
    }
    proof {
        assert forall|j: int| 0 <= j < self::block::strs(v@).len() implies self::block::strs(v@)[j] != x@ by {
            assert(self::block::strs(v@)[j] == v@[j]@);
        }
    }
    false
}


/// The number of snapshots each of the undo and redo stacks keeps.
pub const MAX_HISTORY: usize = 100;

#[derive(Clone, Copy, Debug, Eq, PartialEq, Structural)]
pub enum EditError {
    InvalidSpan,
}

/// A mutable revisioned editor model with bounded undo/redo history.
#[derive(Debug)]
pub struct EditorDocument {
    document: Document,
    undo: Vec<String>,
    redo: Vec<String>,
    clean_source: String,
}

/// An editor as its document, its undo and redo snapshots (oldest first) and
/// the source it was last saved with.
pub struct EditorView {
    pub document: DocumentView,
    pub undo: Seq<Seq<char>>,
    pub redo: Seq<Seq<char>>,
    pub clean: Seq<char>,
}

impl View for EditorDocument {
    type V = EditorView;

    closed spec fn view(&self) -> EditorView {
        EditorView {
            document: self.document@,
            undo: self::block::strs(self.undo@),
            redo: self::block::strs(self.redo@),
            clean: self.clean_source@,
        }
    }
}

/// The revision after one more change, saturating.
pub open spec fn next_revision(r: u64) -> u64 {
    if r == u64::MAX {
        r
    } else {
        (r + 1) as u64
    }
}

/// `u` with `x` pushed, dropping the oldest snapshot past the bound.
pub open spec fn bounded_push(u: Seq<Seq<char>>, x: Seq<char>) -> Seq<Seq<char>> {
    if u.push(x).len() > MAX_HISTORY {
        u.push(x).drop_first()
    } else {
        u.push(x)
    }
}

/// The character index at byte offset `k` of `s`.
pub open spec fn char_index(s: Seq<char>, k: int) -> int {
    choose|a: int| 0 <= a <= s.len() && byte_at(s, a) == k
}

/// Whether `start..end` covers whole characters of `s`.
pub open spec fn span_ok(s: Seq<char>, start: int, end: int) -> bool {
    &&& start <= end <= enc(s).len()
    &&& is_char_boundary(enc(s), start)
    &&& is_char_boundary(enc(s), end)
}

/// `s` with the bytes `start..end` replaced by `r`.
pub open spec fn replaced(s: Seq<char>, start: int, end: int, r: Seq<char>) -> Seq<char> {
    s.take(char_index(s, start)) + r + s.skip(char_index(s, end))
}

/// The editor after replacing its source by `t`.
pub open spec fn after_edit(v: EditorView, t: Seq<char>) -> EditorView {
    EditorView {
        document: parsed(t, next_revision(v.document.revision), v.document.mode),
        undo: bounded_push(v.undo, v.document.source),
        redo: Seq::empty(),
        clean: v.clean,
    }
}

/// The editor after undoing its last change.
pub open spec fn after_undo(v: EditorView) -> EditorView {
    EditorView {
        document: parsed(v.undo.last(), next_revision(v.document.revision), v.document.mode),
        undo: v.undo.drop_last(),
        redo: bounded_push(v.redo, v.document.source),
        clean: v.clean,
    }
}

/// The editor after redoing its last undone change.
pub open spec fn after_redo(v: EditorView) -> EditorView {
    EditorView {
        document: parsed(v.redo.last(), next_revision(v.document.revision), v.document.mode),
        undo: bounded_push(v.undo, v.document.source),
        redo: v.redo.drop_last(),
        clean: v.clean,
    }
}

/// The editor states the operations keep: a parsed document and bounded stacks.
pub open spec fn editor_wf(v: EditorView) -> bool {
    &&& v.document == parsed(v.document.source, v.document.revision, v.document.mode)
    &&& v.undo.len() <= MAX_HISTORY
    &&& v.redo.len() <= MAX_HISTORY
}

fn push_bounded(v: &mut Vec<String>, x: String)
    requires
        old(v)@.len() <= MAX_HISTORY,
    ensures
        self::block::strs(final(v)@) == bounded_push(self::block::strs(old(v)@), x@),
        final(v)@.len() <= MAX_HISTORY,
{
    let ghost before = self::block::strs(v@);
    v.push(x);
    proof {
        assert(self::block::strs(v@) =~= before.push(x@));
    }
    if v.len() > MAX_HISTORY {
        let ghost pushed = v@;
        v.remove(0);
        proof {
            assert(v@ =~= pushed.drop_first());
            assert(self::block::strs(v@) =~= before.push(x@).drop_first());
        }
    }
}

fn pop_snapshot(v: &mut Vec<String>) -> (r: Option<String>)
    ensures
        old(v)@.len() == 0 ==> r is None && final(v)@ == old(v)@,
        old(v)@.len() > 0 ==> (r matches Some(x) && x@ == self::block::strs(old(v)@).last()) && self::block::strs(final(v)@)
            == self::block::strs(old(v)@).drop_last(),
{
    let ghost before = self::block::strs(v@);
    let r = v.pop();
    proof {
        if before.len() > 0 {
            assert(self::block::strs(v@) =~= before.drop_last());
        }
    }
    r
}

impl EditorDocument {
    #[verifier::type_invariant]
    closed spec fn inv(&self) -> bool {
        editor_wf(self@)
    }

    /// An editor on `source` with empty history, clean.
    pub fn new(source: &str) -> (e: Self)
        ensures
            e@.document == parsed(source@, 0, ViewMode::Source),
            e@.undo.len() == 0,
            e@.redo.len() == 0,
            e@.clean == source@,
    {
        let d = Document::parse(source);
        let e = EditorDocument { clean_source: source.to_owned(), document: d, undo: Vec::new(), redo: Vec::new() };
        proof {
            assert(self::block::strs(e.undo@) =~= Seq::<Seq<char>>::empty());
            assert(self::block::strs(e.redo@) =~= Seq::<Seq<char>>::empty());
        }
        e
    }

    /// An editor on `source`; parsing is defined on every text, so this is always `Some`.
    pub fn try_new(source: &str) -> (e: Option<Self>)
        ensures
            e matches Some(e) && e@.document == parsed(source@, 0, ViewMode::Source) && e@.undo.len() == 0
                && e@.redo.len() == 0 && e@.clean == source@,
    {
        Some(EditorDocument::new(source))
    }

    pub fn document(&self) -> (d: &Document)
        ensures
            d@ == self@.document,
    {
        &self.document
    }

    /// The source.
    pub fn source(&self) -> (s: &str)
        ensures
            s@ == self@.document.source,
    {
        proof {
            use_type_invariant(self);
        }
        self.document.source()
    }

    /// Whether the source differs from the last saved one.
    pub fn is_dirty(&self) -> (b: bool)
        ensures
            b == (self@.document.source != self@.clean),
    {
        !crate::text::str_eq(self.document.source(), self.clean_source.as_str())
    }

    /// Records the current source as saved.
    pub fn mark_clean(&mut self)
        ensures
            final(self)@ == (EditorView { clean: old(self)@.document.source, ..old(self)@ }),
    {
        proof {
            use_type_invariant(&*self);
        }
        self.clean_source = self.document.source().to_owned();
    }

    /// Replaces the bytes of `span` by `replacement`, keeping the old source
    /// for undo and dropping the redo history.  A span outside the source or
    /// off a character boundary is refused and changes nothing.
    pub fn edit(&mut self, span: Span, replacement: &str) -> (r: Result<(), EditError>)
        ensures
            !span_ok(old(self)@.document.source, span.start as int, span.end as int) ==> r == Err::<(), EditError>(
                EditError::InvalidSpan,
            ) && final(self)@ == old(self)@,
            span_ok(old(self)@.document.source, span.start as int, span.end as int) ==> r == Ok::<(), EditError>(())
                && final(self)@ == after_edit(
                old(self)@,
                replaced(old(self)@.document.source, span.start as int, span.end as int, replacement@),
            ),
    {
        proof {
            use_type_invariant(&*self);
        }
        let ghost s = self@.document.source;
        let src = self.document.source();
        let len = src.as_bytes().len();
        if span.end > len || span.start > span.end || !src.is_char_boundary(span.start) || !src.is_char_boundary(span.end) {
            return Err(EditError::InvalidSpan);
        }
        let cs = chars_of(src);
        let offs = char_offsets(src, &cs);
        let a = char_at(&cs, &offs, span.start);
        let b = char_at(&cs, &offs, span.end);
        let mut text = crate::text::string_of(&cs, 0, a);
        let rc = chars_of(replacement);
        let mut k: usize = 0;
        while k < rc.len()
            invariant
                k <= rc@.len(),
                text@ == cs@.take(a as int) + rc@.take(k as int),
            decreases rc@.len() - k,
        {
            crate::text::push_char(&mut text, rc[k]);
            proof {
                assert(text@ =~= cs@.take(a as int) + rc@.take(k + 1));
            }
            k = k + 1;
        }
        let tail = crate::text::string_of(&cs, b, cs.len());
        let ghost head = text@;
        let tc = chars_of(tail.as_str());
        let mut j: usize = 0;
        while j < tc.len()
            invariant
                j <= tc@.len(),
                text@ == head + tc@.take(j as int),
            decreases tc@.len() - j,
        {
            crate::text::push_char(&mut text, tc[j]);
            proof {
                assert(text@ =~= head + tc@.take(j + 1));
            }
            j = j + 1;
        }
        proof {
            assert(rc@.take(rc@.len() as int) =~= rc@);
            assert(tc@.take(tc@.len() as int) =~= tc@);
            assert(cs@.subrange(b as int, cs@.len() as int) =~= cs@.skip(b as int));
            assert(cs@.subrange(0, a as int) =~= cs@.take(a as int));
            assert(text@ =~= replaced(s, span.start as int, span.end as int, replacement@));
        }
        let revision = if self.document.revision == u64::MAX {
            self.document.revision
        } else {
            self.document.revision + 1
        };
        let mode = self.document.mode;
        let doc = parse_document(text.as_str(), revision, mode);
        let old_source = self.document.source().to_owned();
        let mut undo: Vec<String> = Vec::new();
        std::mem::swap(&mut undo, &mut self.undo);
        push_bounded(&mut undo, old_source);
        let redo: Vec<String> = Vec::new();
        let clean = self.clean_source.clone();
        proof {
            assert(self::block::strs(redo@) =~= Seq::<Seq<char>>::empty());
        }
        *self = EditorDocument { document: doc, undo, redo, clean_source: clean };
        Ok(())
    }
}

impl EditorDocument {
    /// Restores the source before the last change; `false` when there is none.
    pub fn undo(&mut self) -> (b: bool)
        ensures
            b == (old(self)@.undo.len() > 0),
            b ==> final(self)@ == after_undo(old(self)@),
            !b ==> final(self)@ == old(self)@,
    {
        proof {
            use_type_invariant(&*self);
        }
        let mut undo: Vec<String> = Vec::new();
        std::mem::swap(&mut undo, &mut self.undo);
        match pop_snapshot(&mut undo) {
            None => {
                std::mem::swap(&mut undo, &mut self.undo);
                false
            },
            Some(source) => {
                let revision = if self.document.revision == u64::MAX {
                    self.document.revision
                } else {
                    self.document.revision + 1
                };
                let doc = parse_document(source.as_str(), revision, self.document.mode);
                let mut redo: Vec<String> = Vec::new();
                std::mem::swap(&mut redo, &mut self.redo);
                push_bounded(&mut redo, self.document.source().to_owned());
                let clean = self.clean_source.clone();
                *self = EditorDocument { document: doc, undo, redo, clean_source: clean };
                true
            },
        }
    }

    /// Reapplies the last undone change; `false` when there is none.
    pub fn redo(&mut self) -> (b: bool)
        ensures
            b == (old(self)@.redo.len() > 0),
            b ==> final(self)@ == after_redo(old(self)@),
            !b ==> final(self)@ == old(self)@,
    {
        proof {
            use_type_invariant(&*self);
        }
        let mut redo: Vec<String> = Vec::new();
        std::mem::swap(&mut redo, &mut self.redo);
        match pop_snapshot(&mut redo) {
            None => {
                std::mem::swap(&mut redo, &mut self.redo);
                false
            },
            Some(source) => {
                let revision = if self.document.revision == u64::MAX {
                    self.document.revision
                } else {
                    self.document.revision + 1
                };
                let doc = parse_document(source.as_str(), revision, self.document.mode);
                let mut undo: Vec<String> = Vec::new();
                std::mem::swap(&mut undo, &mut self.undo);
                push_bounded(&mut undo, self.document.source().to_owned());
                let clean = self.clean_source.clone();
                *self = EditorDocument { document: doc, undo, redo, clean_source: clean };
                true
            },
        }
    }
}

/// Undoing an edit restores the source before it, and the undo history as it
/// was (less its oldest snapshot when the edit pushed it past the bound).
pub proof fn lemma_undo_restores_edit(v: EditorView, t: Seq<char>)
    requires
        editor_wf(v),
    ensures
        after_edit(v, t).undo.len() > 0,
        after_undo(after_edit(v, t)).document.source == v.document.source,
        after_undo(after_edit(v, t)).undo == (if v.undo.len() < MAX_HISTORY { v.undo } else { v.undo.drop_first() }),
        after_undo(after_edit(v, t)).document.mode == v.document.mode,
{
    let p = v.undo.push(v.document.source);
    if p.len() > MAX_HISTORY {
        assert(p.drop_first().drop_last() =~= v.undo.drop_first());
    } else {
        assert(p.drop_last() =~= v.undo);
    }
}

/// Redoing an undone edit reapplies it.
pub proof fn lemma_redo_reapplies_edit(v: EditorView, t: Seq<char>)
    requires
        editor_wf(v),
    ensures
        after_undo(after_edit(v, t)).redo.len() > 0,
        after_redo(after_undo(after_edit(v, t))).document.source == t,
        after_redo(after_undo(after_edit(v, t))).redo.len() == 0,
{
    let w = after_undo(after_edit(v, t));
    assert(w.redo =~= seq![t]);
    assert(w.redo.drop_last() =~= Seq::<Seq<char>>::empty());
}

/// Every operation keeps the editor well formed: its document is the parse
/// of its source, and neither history grows past the bound.
pub proof fn lemma_operations_keep_wf(v: EditorView, t: Seq<char>)
    requires
        editor_wf(v),
    ensures
        editor_wf(after_edit(v, t)),
        v.undo.len() > 0 ==> editor_wf(after_undo(v)),
        v.redo.len() > 0 ==> editor_wf(after_redo(v)),
{
}

/// A new edit drops the redo history, so nothing is left to redo.
pub proof fn lemma_edit_drops_redo(v: EditorView, t: Seq<char>)
    ensures
        after_edit(v, t).redo.len() == 0,
        after_edit(v, t).document.source == t,
        after_edit(v, t).clean == v.clean,
{
}

/// Every change moves the revision forward, until it saturates.
pub proof fn lemma_revisions_advance(v: EditorView, t: Seq<char>)
    ensures
        v.document.revision < u64::MAX ==> after_edit(v, t).document.revision == v.document.revision + 1,
        v.document.revision < u64::MAX ==> after_undo(v).document.revision == v.document.revision + 1,
        v.document.revision < u64::MAX ==> after_redo(v).document.revision == v.document.revision + 1,
        after_edit(v, t).document.revision >= v.document.revision,
{
}

/// The character index whose byte offset is `k`, for a character boundary `k`.
fn char_at(cs: &Vec<char>, offs: &Vec<usize>, k: usize) -> (a: usize)
    requires
        offsets_of(offs@, cs@),
        is_char_boundary(enc(cs@), k as int),
    ensures
        a <= cs@.len(),
        a as int == char_index(cs@, k as int),
{
    proof {
        crate::text::lemma_boundary_char(cs@, k as int);
    }
    let ghost w = choose|x: int| 0 <= x <= cs@.len() && byte_at(cs@, x) == k;
    let mut a: usize = 0;
    while a < cs.len() && offs[a] != k
        invariant
            a <= cs@.len(),
            offsets_of(offs@, cs@),
            0 <= w <= cs@.len(),
            byte_at(cs@, w) == k,
            forall|x: int| 0 <= x < a ==> byte_at(cs@, x) != k,
        decreases cs@.len() - a,
    {
        a = a + 1;
    }
    proof {
        if byte_at(cs@, a as int) != k {
            assert(w < a);
        }
        assert forall|x: int| 0 <= x <= cs@.len() && byte_at(cs@, x) == k implies x == a by {
            if x < a {
            } else if x > a {
                crate::text::lemma_byte_at_mono(cs@, a as int, x);
            }
        }
    }
    a
}

} // verus!
