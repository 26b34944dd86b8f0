//! Every span the parser reports is a span of the source: its ends are
//! ordered, within the source, and on UTF-8 character boundaries.
use vstd::prelude::*;
use crate::text::{byte_at, lemma_byte_at_boundary, lemma_byte_at_mono};
use super::span_ok;
use crate::text::{lemma_skip_ws, skip_ws};
use super::block::{
    BlockView, FootView, ItemView, PropView, block_kind, block_step, blocks_from, comment_end, comment_step,
    fence_close, fence_line, fence_step, footnote_of, footnotes_of, frontmatter_of, heading_of, heading_step,
    lemma_block_step, lemma_ends, lemma_lines_bounds, lemma_list_items, lemma_raw_end, line_stop_byte, list_items,
    list_marker, list_step, md_lines, newline_before, para_end, para_step, parse_spec, properties_of, property_of,
    quote_content, quote_end, quote_inlines, quote_step, raw_end, table_end, table_step, task_state, callout_of,
};
use super::inline::{
    InlineView, construct, delim_try, embed_c, escaped, find_in, fnote_c, highlight_c, inl,
    lemma_construct, lemma_delim_try, lemma_find_in, lemma_next_special, link_c, marker, math_c, next_special,
    tail, text_node, wiki_c, code_c, at_is,
};

verus! {

/// The byte span of character positions `x..y` of `s` is a span of `s`.
pub proof fn lemma_byte_span(s: Seq<char>, x: int, y: int)
    requires
        0 <= x <= y <= s.len(),
    ensures
        span_ok(s, byte_at(s, x), byte_at(s, y)),
{
    lemma_byte_at_boundary(s, x);
    lemma_byte_at_boundary(s, y);
    if x < y {
        lemma_byte_at_mono(s, x, y);
    }
}

/// Whether an inline node and all nodes inside it have spans of `s`.
pub open spec fn inline_ok(s: Seq<char>, n: InlineView) -> bool
    decreases n,
{
    match n {
        InlineView::Text { start, end, .. } => span_ok(s, start, end),
        InlineView::Emphasis { children, start, end } => span_ok(s, start, end) && all_ok(s, children),
        InlineView::Strong { children, start, end } => span_ok(s, start, end) && all_ok(s, children),
        InlineView::Highlight { children, start, end } => span_ok(s, start, end) && all_ok(s, children),
        InlineView::Code { start, end, .. } => span_ok(s, start, end),
        InlineView::Link { start, end, .. } => span_ok(s, start, end),
        InlineView::WikiLink { start, end, .. } => span_ok(s, start, end),
        InlineView::Embed { start, end, .. } => span_ok(s, start, end),
        InlineView::Tag { start, end, .. } => span_ok(s, start, end),
        InlineView::Math { start, end, .. } => span_ok(s, start, end),
        InlineView::FootnoteRef { start, end, .. } => span_ok(s, start, end),
    }
}

/// Whether every node of `ns`, and every node inside one, has spans of `s`.
pub open spec fn all_ok(s: Seq<char>, ns: Seq<InlineView>) -> bool
    decreases ns,
{
    if ns.len() == 0 {
        true
    } else {
        inline_ok(s, ns[0]) && all_ok(s, ns.drop_first())
    }
}

/// Whether every node of `ns` has spans of `s`.
pub open spec fn nodes_ok(s: Seq<char>, ns: Seq<InlineView>) -> bool {
    forall|k: int| 0 <= k < ns.len() ==> #[trigger] inline_ok(s, ns[k])
}

pub proof fn lemma_all_ok(s: Seq<char>, ns: Seq<InlineView>)
    ensures
        all_ok(s, ns) == nodes_ok(s, ns),
    decreases ns.len(),
{
    if ns.len() > 0 {
        lemma_all_ok(s, ns.drop_first());
        assert forall|k: int| 1 <= k < ns.len() implies #[trigger] ns[k] == ns.drop_first()[k - 1] by {}
        if nodes_ok(s, ns) {
            assert forall|k: int| 0 <= k < ns.drop_first().len() implies #[trigger] inline_ok(s, ns.drop_first()[k]) by {
                assert(ns.drop_first()[k] == ns[k + 1]);
            }
            assert(inline_ok(s, ns[0]));
            assert(all_ok(s, ns.drop_first()));
            assert(all_ok(s, ns));
        }
        if all_ok(s, ns) {
            assert forall|k: int| 0 <= k < ns.len() implies #[trigger] inline_ok(s, ns[k]) by {
                if k > 0 {
                    assert(ns[k] == ns.drop_first()[k - 1]);
                }
            }
        }
    }
}

proof fn lemma_nodes_concat(s: Seq<char>, x: Seq<InlineView>, y: Seq<InlineView>)
    requires
        nodes_ok(s, x),
        nodes_ok(s, y),
    ensures
        nodes_ok(s, x + y),
{
    assert forall|k: int| 0 <= k < (x + y).len() implies #[trigger] inline_ok(s, (x + y)[k]) by {
        if k < x.len() {
            assert((x + y)[k] == x[k]);
        } else {
            assert((x + y)[k] == y[k - x.len()]);
        }
    }
}

proof fn lemma_text_node(s: Seq<char>, x: int, y: int)
    requires
        0 <= x <= y <= s.len(),
    ensures
        inline_ok(s, text_node(s, x, y)),
{
    lemma_byte_span(s, x, y);
}

/// The node that a construct at `p` yields has spans of `s`.
proof fn lemma_construct_spans(s: Seq<char>, a: int, b: int, p: int)
    requires
        0 <= a <= p < b <= s.len(),
    ensures
        construct(s, a, b, p) matches Some((Some(n), _)) ==> inline_ok(s, n),
{
    lemma_construct(s, a, b, p);
    if let Some((Some(n), next)) = construct(s, a, b, p) {
        lemma_byte_span(s, p, next);
        if embed_c(s, b, p) is Some {
        } else if wiki_c(s, b, p) is Some {
        } else if code_c(s, b, p) is Some {
        } else if highlight_c(s, b, p) is Some {
            if at_is(s, b, p, seq!['=', '=']) {
                lemma_find_in(s, b, p + 2, seq!['=', '=']);
            }
            let e = find_in(s, b, p + 2, seq!['=', '='])->0;
            lemma_byte_span(s, p + 2, e);
            let c = InlineView::Text { value: s.subrange(p + 2, e), start: byte_at(s, p + 2), end: byte_at(s, e) };
            assert(inline_ok(s, c));
            if let InlineView::Highlight { children, .. } = n {
                assert(children == seq![c]);
                assert(children.drop_first() =~= Seq::<InlineView>::empty());
                assert(all_ok(s, children.drop_first()));
                assert(all_ok(s, children));
            }
        } else if math_c(s, b, p) is Some {
        } else if fnote_c(s, b, p) is Some {
        } else if link_c(s, b, p) is Some {
        } else {
        }
    }
}

proof fn lemma_delim_node(s: Seq<char>, x: int, y: int, children: Seq<InlineView>)
    requires
        0 <= x <= y <= s.len(),
        nodes_ok(s, children),
    ensures
        inline_ok(s, InlineView::Strong { children, start: byte_at(s, x), end: byte_at(s, y) }),
        inline_ok(s, InlineView::Emphasis { children, start: byte_at(s, x), end: byte_at(s, y) }),
{
    lemma_byte_span(s, x, y);
    lemma_all_ok(s, children);
}

/// Every node of the inline scan of `a..b` has spans of `s`.
#[verifier::spinoff_prover]
#[verifier::rlimit(60)]
pub proof fn lemma_inl_spans(s: Seq<char>, a: int, b: int, i: int, ts: int)
    requires
        0 <= a <= ts <= i,
        ts <= b <= s.len(),
    ensures
        nodes_ok(s, inl(s, a, b, i, ts).nodes),
    decreases b - a, b - i,
{
    if i >= b {
        if ts < b {
            lemma_text_node(s, ts, b);
        }
        assert(nodes_ok(s, tail(s, b, ts).nodes));
    } else {
        lemma_next_special(s, i, b);
        let p = next_special(s, i, b);
        if p >= b {
            if ts < b {
                lemma_text_node(s, ts, b);
            }
            assert(nodes_ok(s, tail(s, b, ts).nodes));
        } else if escaped(s, a, p) && (s[p] == '*' || s[p] == '_') {
            lemma_inl_spans(s, a, b, p + 1, ts);
        } else {
            let pre = if p > ts {
                seq![text_node(s, ts, p)]
            } else {
                Seq::empty()
            };
            if p > ts {
                lemma_text_node(s, ts, p);
                assert(pre[0] == text_node(s, ts, p));
            }
            assert(nodes_ok(s, pre));
            lemma_delim_try(s, a, b, p, 0);
            lemma_construct(s, a, b, p);
            match delim_try(s, a, b, p, 0) {
                Some((m, c)) => {
                    let ml = marker(m).len() as int;
                    lemma_inl_spans(s, p + ml, c, p + ml, p + ml);
                    lemma_inl_spans(s, a, b, c + ml, c + ml);
                    let inner = inl(s, p + ml, c, p + ml, p + ml);
                    lemma_byte_span(s, p, c + ml);
                    let node = if m < 2 {
                        InlineView::Strong { children: inner.nodes, start: byte_at(s, p), end: byte_at(s, c + ml) }
                    } else {
                        InlineView::Emphasis { children: inner.nodes, start: byte_at(s, p), end: byte_at(s, c + ml) }
                    };
                    lemma_delim_node(s, p, c + ml, inner.nodes);
                    assert(nodes_ok(s, pre.push(node))) by {
                        assert forall|k: int| 0 <= k < pre.push(node).len() implies #[trigger] inline_ok(s, pre.push(node)[k]) by {
                            if k < pre.len() {
                                assert(pre.push(node)[k] == pre[k]);
                            }
                        }
                    }
                    lemma_nodes_concat(s, pre.push(node), inl(s, a, b, c + ml, c + ml).nodes);
                },
                None => match construct(s, a, b, p) {
                    Some((o, next)) => {
                        lemma_inl_spans(s, a, b, next, next);
                        lemma_construct_spans(s, a, b, p);
                        let here = match o {
                            Some(n) => pre.push(n),
                            None => pre,
                        };
                        assert(nodes_ok(s, here)) by {
                            if let Some(n) = o {
                                assert forall|k: int| 0 <= k < pre.push(n).len() implies #[trigger] inline_ok(s, pre.push(n)[k]) by {
                                    if k < pre.len() {
                                        assert(pre.push(n)[k] == pre[k]);
                                    }
                                }
                            }
                        }
                        lemma_nodes_concat(s, here, inl(s, a, b, next, next).nodes);
                    },
                    None => {
                        let w = if at_is(s, b, p, seq!['*', '*']) || at_is(s, b, p, seq!['_', '_']) {
                            2int
                        } else {
                            1int
                        };
                        lemma_inl_spans(s, a, b, p + w, p);
                        lemma_nodes_concat(s, pre, inl(s, a, b, p + w, p).nodes);
                    },
                },
            }
        }
    }
}

// ---------------------------------------------------------------- blocks

/// Whether a block and everything inside it have spans of `s`.
pub open spec fn block_ok(s: Seq<char>, b: BlockView) -> bool
    decreases b,
{
    match b {
        BlockView::Paragraph { children, start, end } => span_ok(s, start, end) && all_ok(s, children),
        BlockView::Heading { children, start, end, .. } => span_ok(s, start, end) && all_ok(s, children),
        BlockView::Quote { children, start, end } => span_ok(s, start, end) && blocks_ok(s, children),
        BlockView::List { items, start, end, .. } => span_ok(s, start, end) && items_ok(s, items),
        BlockView::Code { start, end, .. } => span_ok(s, start, end),
        BlockView::Table { start, end, .. } => span_ok(s, start, end),
        BlockView::ThematicBreak { start, end } => span_ok(s, start, end),
        BlockView::Html { start, end, .. } => span_ok(s, start, end),
        BlockView::Callout { children, start, end, .. } => span_ok(s, start, end) && blocks_ok(s, children),
        BlockView::Comment { start, end, .. } => span_ok(s, start, end),
    }
}

/// Whether every block of `bs` and everything inside has spans of `s`.
pub open spec fn blocks_ok(s: Seq<char>, bs: Seq<BlockView>) -> bool
    decreases bs,
{
    if bs.len() == 0 {
        true
    } else {
        block_ok(s, bs[0]) && blocks_ok(s, bs.drop_first())
    }
}

/// Whether every list item of `items`, and its blocks, have spans of `s`.
pub open spec fn items_ok(s: Seq<char>, items: Seq<ItemView>) -> bool
    decreases items,
{
    if items.len() == 0 {
        true
    } else {
        span_ok(s, items[0].start, items[0].end) && blocks_ok(s, items[0].blocks) && items_ok(s, items.drop_first())
    }
}

proof fn lemma_blocks_concat(s: Seq<char>, x: Seq<BlockView>, y: Seq<BlockView>)
    requires
        blocks_ok(s, x),
        blocks_ok(s, y),
    ensures
        blocks_ok(s, x + y),
    decreases x.len(),
{
    if x.len() > 0 {
        assert((x + y).drop_first() =~= x.drop_first() + y);
        assert((x + y)[0] == x[0]);
        lemma_blocks_concat(s, x.drop_first(), y);
    } else {
        assert(x + y =~= y);
    }
}

proof fn lemma_one_block(s: Seq<char>, b: BlockView)
    requires
        block_ok(s, b),
    ensures
        blocks_ok(s, seq![b]),
{
    assert(seq![b].drop_first() =~= Seq::<BlockView>::empty());
    assert(blocks_ok(s, seq![b].drop_first()));
}

proof fn lemma_nodes_all(s: Seq<char>, ns: Seq<InlineView>)
    requires
        nodes_ok(s, ns),
    ensures
        all_ok(s, ns),
{
    lemma_all_ok(s, ns);
}

/// Lines `l` lie in `s`, in order.
pub open spec fn lines_in(s: Seq<char>, l: Seq<(int, int)>) -> bool {
    &&& forall|k: int| 0 <= k < l.len() ==> 0 <= #[trigger] l[k].0 <= l[k].1 <= s.len() && l[k].0 < s.len()
    &&& forall|j: int, k: int| 0 <= j < k < l.len() ==> #[trigger] l[j].1 <= #[trigger] l[k].0
}

proof fn lemma_md_lines_in(s: Seq<char>, q: int, b: int)
    requires
        0 <= q <= b <= s.len(),
    ensures
        lines_in(s, md_lines(s, q, b)),
        forall|k: int| 0 <= k < md_lines(s, q, b).len() ==> q <= #[trigger] md_lines(s, q, b)[k].0 && md_lines(s, q, b)[k].1 <= b,
{
    lemma_lines_bounds(s, q, b);
}

/// Line `j` ends at or after line `i` starts.
proof fn lemma_line_order(s: Seq<char>, l: Seq<(int, int)>, i: int, j: int)
    requires
        lines_in(s, l),
        0 <= i <= j < l.len(),
    ensures
        l[i].0 <= l[j].1,
{
    if i < j {
        assert(l[i].1 <= l[j].0);
    }
}

proof fn lemma_quote_lines(s: Seq<char>, l: Seq<(int, int)>, k: int)
    requires
        0 <= k <= l.len(),
    ensures
        k <= quote_end(s, l, k) <= l.len(),
        forall|t: int| k <= t < quote_end(s, l, k) ==> #[trigger] l[t].0 < l[t].1,
    decreases l.len() - k,
{
    if k < l.len() && l[k].0 < l[k].1 && s[l[k].0] == '>' {
        lemma_quote_lines(s, l, k + 1);
    }
}

proof fn lemma_quote_inlines(s: Seq<char>, l: Seq<(int, int)>, k: int, j: int)
    requires
        lines_in(s, l),
        0 <= k,
        j <= l.len(),
        forall|t: int| k <= t < j ==> #[trigger] l[t].0 < l[t].1,
    ensures
        nodes_ok(s, quote_inlines(s, l, k, j).nodes),
    decreases j - k,
{
    if k < j {
        assert(l[k].0 < l[k].1);
        lemma_skip_ws(s, l[k].0 + 1, l[k].1);
        let c = quote_content(s, l, k);
        lemma_inl_spans(s, c, l[k].1, c, c);
        lemma_quote_inlines(s, l, k + 1, j);
        lemma_nodes_concat(s, inl(s, c, l[k].1, c, c).nodes, quote_inlines(s, l, k + 1, j).nodes);
    }
}

proof fn lemma_footnotes(s: Seq<char>, l: Seq<(int, int)>)
    requires
        lines_in(s, l),
    ensures
        forall|k: int| 0 <= k < footnotes_of(s, l).len() ==> span_ok(s, #[trigger] footnotes_of(s, l)[k].start, footnotes_of(s, l)[k].end),
    decreases l.len(),
{
    if l.len() > 0 {
        assert(lines_in(s, l.drop_first())) by {
            assert forall|k: int| 0 <= k < l.drop_first().len() implies 0 <= #[trigger] l.drop_first()[k].0 <= l.drop_first()[k].1 <= s.len()
                && l.drop_first()[k].0 < s.len() by {
                assert(l.drop_first()[k] == l[k + 1]);
            }
            assert forall|j: int, k: int| 0 <= j < k < l.drop_first().len() implies #[trigger] l.drop_first()[j].1 <= #[trigger] l.drop_first()[k].0 by {
                assert(l.drop_first()[j] == l[j + 1]);
                assert(l.drop_first()[k] == l[k + 1]);
            }
        }
        lemma_footnotes(s, l.drop_first());
        lemma_byte_span(s, l[0].0, l[0].1);
        let head = match footnote_of(s, l[0].0, l[0].1) {
            Some(f) => seq![f],
            None => Seq::<FootView>::empty(),
        };
        let rest = footnotes_of(s, l.drop_first());
        assert(footnotes_of(s, l) == head + rest);
        assert forall|k: int| 0 <= k < (head + rest).len() implies span_ok(s, #[trigger] (head + rest)[k].start, (head + rest)[k].end) by {
            if k < head.len() {
                assert((head + rest)[k] == head[k]);
            } else {
                assert((head + rest)[k] == rest[k - head.len()]);
            }
        }
    }
}

proof fn lemma_properties(s: Seq<char>, l: Seq<(int, int)>)
    requires
        lines_in(s, l),
    ensures
        forall|k: int| 0 <= k < properties_of(s, l).len() ==> span_ok(s, #[trigger] properties_of(s, l)[k].start, properties_of(s, l)[k].end),
    decreases l.len(),
{
    if l.len() > 0 {
        assert(lines_in(s, l.drop_first())) by {
            assert forall|k: int| 0 <= k < l.drop_first().len() implies 0 <= #[trigger] l.drop_first()[k].0 <= l.drop_first()[k].1 <= s.len()
                && l.drop_first()[k].0 < s.len() by {
                assert(l.drop_first()[k] == l[k + 1]);
            }
            assert forall|j: int, k: int| 0 <= j < k < l.drop_first().len() implies #[trigger] l.drop_first()[j].1 <= #[trigger] l.drop_first()[k].0 by {
                assert(l.drop_first()[j] == l[j + 1]);
                assert(l.drop_first()[k] == l[k + 1]);
            }
        }
        lemma_properties(s, l.drop_first());
        lemma_byte_span(s, l[0].0, l[0].1);
        let head = match property_of(s, l[0].0, l[0].1) {
            Some(p) => seq![p],
            None => Seq::<PropView>::empty(),
        };
        let rest = properties_of(s, l.drop_first());
        assert(properties_of(s, l) == head + rest);
        assert forall|k: int| 0 <= k < (head + rest).len() implies span_ok(s, #[trigger] (head + rest)[k].start, (head + rest)[k].end) by {
            if k < head.len() {
                assert((head + rest)[k] == head[k]);
            } else {
                assert((head + rest)[k] == rest[k - head.len()]);
            }
        }
    }
}

proof fn lemma_list_item_spans(s: Seq<char>, l: Seq<(int, int)>, k: int, ordered: bool)
    requires
        lines_in(s, l),
        0 <= k <= l.len(),
    ensures
        items_ok(s, list_items(s, l, k, ordered).0),
    decreases l.len() - k,
{
    if k < l.len() {
        if let Some((o, cs)) = list_marker(s, l[k].0, l[k].1) {
            if o == ordered {
                let ce = l[k].1;
                let p = l[k].0;
                lemma_skip_ws(s, p, ce);
                let ls = skip_ws(s, p, ce);
                assert(cs <= ce);
                let t = s.subrange(cs, ce);
                let checked = task_state(t);
                let c0 = if checked is Some { cs + 4 } else { cs };
                assert(c0 <= ce);
                lemma_inl_spans(s, c0, ce, c0, c0);
                let inner = inl(s, c0, ce, c0, c0);
                lemma_byte_span(s, c0, ce);
                lemma_byte_span(s, p, ce);
                lemma_nodes_all(s, inner.nodes);
                let para = BlockView::Paragraph { children: inner.nodes, start: byte_at(s, c0), end: byte_at(s, ce) };
                assert(block_ok(s, para));
                lemma_one_block(s, para);
                lemma_list_item_spans(s, l, k + 1, ordered);
                let item = ItemView { checked, blocks: seq![para], start: byte_at(s, p), end: byte_at(s, ce) };
                let rest = list_items(s, l, k + 1, ordered).0;
                assert((seq![item] + rest).drop_first() =~= rest);
                assert((seq![item] + rest)[0] == item);
            }
        }
    }
}

/// Lines `i..=j` cover a span of `s`.
proof fn lemma_lines_span(s: Seq<char>, l: Seq<(int, int)>, i: int, j: int)
    requires
        lines_in(s, l),
        0 <= i <= j < l.len(),
    ensures
        0 <= l[i].0 <= l[j].1 <= s.len(),
        l[i].0 <= l[i].1 <= l[j].1,
        span_ok(s, byte_at(s, l[i].0), byte_at(s, l[j].1)),
{
    assert(0 <= l[j].0 <= l[j].1 <= s.len());
    assert(0 <= l[i].0 <= l[i].1);
    if i < j {
        assert(l[i].1 <= l[j].0);
    }
    lemma_line_order(s, l, i, j);
    lemma_byte_span(s, l[i].0, l[j].1);
}

proof fn lemma_comment_step_spans(s: Seq<char>, l: Seq<(int, int)>, i: int)
    requires
        lines_in(s, l),
        0 <= i < l.len(),
    ensures
        comment_step(s, l, i).block matches Some(b) ==> block_ok(s, b),
        comment_step(s, l, i).notes.len() == 0,
{
    reveal(comment_step);
    let t = s.subrange(l[i].0, l[i].1);
    lemma_ends(s, l, i, t);
    let end = comment_end(s, l, i);
    lemma_lines_span(s, l, i, end - 1);
}

proof fn lemma_fence_step_spans(s: Seq<char>, l: Seq<(int, int)>, i: int)
    requires
        lines_in(s, l),
        0 <= i < l.len(),
    ensures
        fence_step(s, l, i).block matches Some(b) ==> block_ok(s, b),
        fence_step(s, l, i).notes.len() == 0,
{
    reveal(fence_step);
    let p = l[i].0;
    let t = s.subrange(p, l[i].1);
    lemma_ends(s, l, i + 1, t.take(3));
    let j = fence_close(s, l, i + 1, t.take(3));
    if j < l.len() {
        lemma_lines_span(s, l, i, j);
    } else {
        lemma_byte_span(s, p, s.len() as int);
    }
}

proof fn lemma_heading_step_spans(s: Seq<char>, l: Seq<(int, int)>, i: int)
    requires
        lines_in(s, l),
        0 <= i < l.len(),
        heading_of(s, l[i].0, l[i].1) is Some,
    ensures
        heading_step(s, l, i).block matches Some(b) ==> block_ok(s, b),
        heading_step(s, l, i).notes.len() == 0,
{
    reveal(heading_step);
    let (p, ce) = l[i];
    lemma_byte_span(s, p, ce);
    let (n, ts, te) = heading_of(s, p, ce)->0;
    lemma_skip_ws(s, p + n + 1, ce);
    lemma_skip_ws(s, ts, ce);
    lemma_inl_spans(s, ts, te, ts, ts);
    lemma_nodes_all(s, inl(s, ts, te, ts, ts).nodes);
}

#[verifier::spinoff_prover]
#[verifier::rlimit(50)]
proof fn lemma_quote_step_spans(s: Seq<char>, l: Seq<(int, int)>, i: int)
    requires
        lines_in(s, l),
        0 <= i < l.len(),
        l[i].0 < l[i].1 && s[l[i].0] == '>',
    ensures
        quote_step(s, l, i).block matches Some(b) ==> block_ok(s, b),
        quote_step(s, l, i).notes.len() == 0,
{
    reveal(quote_step);
    let (p, ce) = l[i];
    lemma_quote_lines(s, l, i);
    lemma_quote_lines(s, l, i + 1);
    assert(quote_end(s, l, i) == quote_end(s, l, i + 1));
    let j = quote_end(s, l, i);
    lemma_lines_span(s, l, i, j - 1);
    let e = line_stop_byte(s, l, j - 1);
    lemma_skip_ws(s, p + 1, ce);
    match callout_of(s.subrange(quote_content(s, l, i), ce)) {
        Some((kind, title, foldable)) => {
            lemma_quote_inlines(s, l, i + 1, j);
            let body = quote_inlines(s, l, i + 1, j);
            lemma_nodes_all(s, body.nodes);
            if j > i + 1 {
                assert(l[i + 1].0 < l[i + 1].1);
                lemma_skip_ws(s, l[i + 1].0 + 1, l[i + 1].1);
                lemma_lines_span(s, l, i + 1, j - 1);
                lemma_byte_span(s, quote_content(s, l, i + 1), l[j - 1].1);
            } else {
                lemma_byte_span(s, l[j - 1].1, l[j - 1].1);
            }
            let child_start = if j > i + 1 { byte_at(s, quote_content(s, l, i + 1)) } else { e };
            let child_end = if j > i + 1 { e } else { child_start };
            let para = BlockView::Paragraph { children: body.nodes, start: child_start, end: child_end };
            assert(block_ok(s, para));
            lemma_one_block(s, para);
        },
        None => {
            lemma_quote_inlines(s, l, i, j);
            let body = quote_inlines(s, l, i, j);
            lemma_nodes_all(s, body.nodes);
            lemma_lines_span(s, l, i, j - 1);
            lemma_byte_span(s, quote_content(s, l, i), l[j - 1].1);
            let para = BlockView::Paragraph { children: body.nodes, start: byte_at(s, quote_content(s, l, i)), end: e };
            assert(block_ok(s, para));
            lemma_one_block(s, para);
        },
    }
}

proof fn lemma_list_step_spans(s: Seq<char>, l: Seq<(int, int)>, i: int)
    requires
        lines_in(s, l),
        0 <= i < l.len(),
        list_marker(s, l[i].0, l[i].1) is Some,
    ensures
        list_step(s, l, i).block matches Some(b) ==> block_ok(s, b),
        list_step(s, l, i).notes.len() == 0,
{
    reveal(list_step);
    let (p, ce) = l[i];
    let (ordered, _) = list_marker(s, p, ce)->0;
    lemma_list_items(s, l, i, ordered);
    lemma_list_items(s, l, i + 1, ordered);
    assert(list_items(s, l, i, ordered).1 == list_items(s, l, i + 1, ordered).1);
    lemma_list_item_spans(s, l, i, ordered);
    let j = list_items(s, l, i, ordered).1;
    lemma_lines_span(s, l, i, j - 1);
}

proof fn lemma_table_step_spans(s: Seq<char>, l: Seq<(int, int)>, i: int)
    requires
        lines_in(s, l),
        0 <= i,
        i + 1 < l.len(),
    ensures
        table_step(s, l, i).block matches Some(b) ==> block_ok(s, b),
        table_step(s, l, i).notes.len() == 0,
{
    reveal(table_step);
    let t = s.subrange(l[i].0, l[i].1);
    lemma_ends(s, l, i + 2, t);
    let j = table_end(s, l, i + 2);
    lemma_lines_span(s, l, i, j - 1);
}

proof fn lemma_para_step_spans(s: Seq<char>, l: Seq<(int, int)>, i: int)
    requires
        lines_in(s, l),
        0 <= i < l.len(),
    ensures
        para_step(s, l, i).block matches Some(b) ==> block_ok(s, b),
        forall|k: int| 0 <= k < para_step(s, l, i).notes.len() ==> span_ok(s, #[trigger] para_step(s, l, i).notes[k].start,
            para_step(s, l, i).notes[k].end),
{
    reveal(para_step);
    let p = l[i].0;
    let t = s.subrange(p, l[i].1);
    lemma_ends(s, l, i + 1, t);
    let j = para_end(s, l, i + 1);
    let b = l[j - 1].1;
    lemma_lines_span(s, l, i, j - 1);
    lemma_inl_spans(s, p, b, p, p);
    lemma_nodes_all(s, inl(s, p, b, p, p).nodes);
    lemma_md_lines_in(s, p, b);
    lemma_footnotes(s, md_lines(s, p, b));
}

/// The block that the parser builds at line `i` has spans of `s`, and so do
/// its footnote definitions.
proof fn lemma_step_spans(s: Seq<char>, l: Seq<(int, int)>, i: int)
    requires
        lines_in(s, l),
        0 <= i < l.len(),
    ensures
        block_step(s, l, i).block matches Some(b) ==> block_ok(s, b),
        forall|k: int| 0 <= k < block_step(s, l, i).notes.len() ==> span_ok(s, #[trigger] block_step(s, l, i).notes[k].start,
            block_step(s, l, i).notes[k].end),
{
    let k = block_kind(s, l, i);
    if k == 1 {
        lemma_comment_step_spans(s, l, i);
    } else if k == 2 {
        lemma_fence_step_spans(s, l, i);
    } else if k == 3 {
        lemma_heading_step_spans(s, l, i);
    } else if k == 4 {
        lemma_quote_step_spans(s, l, i);
    } else if k == 5 {
        lemma_list_step_spans(s, l, i);
    } else if k == 6 {
        lemma_table_step_spans(s, l, i);
    } else if k == 7 {
        lemma_byte_span(s, l[i].0, l[i].1);
    } else if k == 8 {
        lemma_para_step_spans(s, l, i);
    }
}

/// Every block the parser builds from line `i` on has spans of `s`, and so
/// do the footnote definitions.
proof fn lemma_blocks_from_spans(s: Seq<char>, l: Seq<(int, int)>, i: int)
    requires
        lines_in(s, l),
        0 <= i,
    ensures
        blocks_ok(s, blocks_from(s, l, i).0),
        forall|k: int| 0 <= k < blocks_from(s, l, i).1.len() ==> span_ok(s, #[trigger] blocks_from(s, l, i).1[k].start,
            blocks_from(s, l, i).1[k].end),
    decreases l.len() - i,
{
    if i < l.len() {
        lemma_block_step(s, l, i);
        lemma_step_spans(s, l, i);
        let st = block_step(s, l, i);
        lemma_blocks_from_spans(s, l, st.next);
        let (bs, ns) = blocks_from(s, l, st.next);
        if let Some(b) = st.block {
            lemma_one_block(s, b);
            lemma_blocks_concat(s, seq![b], bs);
        }
        assert forall|k: int| 0 <= k < (st.notes + ns).len() implies span_ok(s, #[trigger] (st.notes + ns)[k].start, (st.notes + ns)[k].end) by {
            if k < st.notes.len() {
                assert((st.notes + ns)[k] == st.notes[k]);
            } else {
                assert((st.notes + ns)[k] == ns[k - st.notes.len()]);
            }
        }
    }
}

/// Spans always fall on UTF-8 boundaries: every span that parsing `s`
/// reports (of a block, of any node inside it, of a list item, of a
/// footnote definition, of the frontmatter and of its properties) is
/// ordered, lies within `s`, and starts and ends on character boundaries.
pub proof fn lemma_spans_are_source_spans(s: Seq<char>)
    ensures
        blocks_ok(s, parse_spec(s).blocks),
        forall|k: int| 0 <= k < parse_spec(s).footnotes.len() ==> span_ok(s, #[trigger] parse_spec(s).footnotes[k].start,
            parse_spec(s).footnotes[k].end),
        parse_spec(s).frontmatter matches Some(f) ==> span_ok(s, f.start, f.end) && forall|k: int| 0 <= k < f.properties.len()
            ==> span_ok(s, #[trigger] f.properties[k].start, f.properties[k].end),
{
    let (fm, body) = frontmatter_of(s);
    let n = s.len() as int;
    let l0 = md_lines(s, 0, n);
    lemma_md_lines_in(s, 0, n);
    if l0.len() > 0 && s.subrange(l0[0].0, l0[0].1) == seq!['-', '-', '-'] {
        if let Some(k) = fence_line(s, l0, 1) {
            lemma_fence_line(s, l0, 1);
            let first_len = raw_end(s, 0, n);
            let close_start = l0[k].0;
            lemma_raw_end(s, 0, n);
            lemma_raw_end(s, close_start, n);
            let end = raw_end(s, close_start, n);
            let raw_stop = if close_start >= newline_before(s, close_start) { close_start - newline_before(s, close_start) } else { 0 };
            let stop = if raw_stop < first_len { first_len } else { raw_stop };
            lemma_byte_span(s, 0, end);
            assert(byte_at(s, 0) == 0) by {
                assert(s.take(0) =~= Seq::<char>::empty());
            }
            lemma_md_lines_in(s, first_len, stop);
            lemma_properties(s, md_lines(s, first_len, stop));
        }
    }
    assert(0 <= body <= n) by {
        if l0.len() > 0 && s.subrange(l0[0].0, l0[0].1) == seq!['-', '-', '-'] {
            if let Some(k) = fence_line(s, l0, 1) {
                lemma_fence_line(s, l0, 1);
                lemma_raw_end(s, l0[k].0, n);
            }
        }
    }
    lemma_md_lines_in(s, body, n);
    lemma_blocks_from_spans(s, md_lines(s, body, n), 0);
}

proof fn lemma_fence_line(s: Seq<char>, l: Seq<(int, int)>, k: int)
    requires
        0 <= k,
    ensures
        fence_line(s, l, k) matches Some(j) ==> k <= j < l.len(),
    decreases l.len() - k,
{
    if k < l.len() && s.subrange(l[k].0, l[k].1) != seq!['-', '-', '-'] {
        lemma_fence_line(s, l, k + 1);
    }
}

} // verus!
