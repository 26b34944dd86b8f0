//! The link graph of the index: one node per note, one edge per link.
use vstd::prelude::*;
use crate::text::{compare_str, lemma_text_lt_order, text_lt};
use crate::textmap::TextSet;
use super::{
    Document, SortKey, VaultIndex, key_order, lemma_sort_with_map, lemma_sort_with_sorted, lemma_text_not_lt,
    ordered_by, sort_items, sort_with, };
use super::query::{contains_ci, contains_ignoring_case};
use crate::text::{contains_seq, lowercase};
use super::links::{LinkView, links, links_spec, lview, lviews, opt_text, resolve_target, resolved_or};

verus! {

#[derive(Clone, Debug, PartialEq, Eq)]
pub struct GraphNode {
    pub id: String,
    pub group: Option<String>,
}

#[derive(Clone, Debug, PartialEq, Eq)]
pub struct GraphEdge {
    pub from: String,
    pub to: String,
    pub unresolved: bool,
}

/// Which nodes and edges a graph shows.
#[derive(Clone, Debug)]
pub struct GraphFilter {
    pub groups: TextSet,
    pub include_unresolved: bool,
    pub query: Option<String>,
}

impl Default for GraphFilter {
    fn default() -> (f: Self)
        ensures
            f.groups.set() == Set::<Seq<char>>::empty(),
            !f.include_unresolved,
            f.query is None,
    {
        GraphFilter { groups: TextSet::new(), include_unresolved: false, query: None }
    }
}

/// A node as (id, group).
pub type NodeView = (Seq<char>, Option<Seq<char>>);

/// An edge as (from, to, unresolved).
pub type EdgeView = (Seq<char>, Seq<char>, bool);

pub open spec fn nview(n: GraphNode) -> NodeView {
    (n.id@, opt_text(n.group))
}

pub open spec fn eview(e: GraphEdge) -> EdgeView {
    (e.from@, e.to@, e.unresolved)
}

pub open spec fn node_order() -> spec_fn(NodeView, NodeView) -> bool {
    |a: NodeView, b: NodeView| text_lt(a.0, b.0)
}

pub open spec fn edge_before(a: EdgeView, b: EdgeView) -> bool {
    text_lt(a.0, b.0) || (a.0 == b.0 && text_lt(a.1, b.1))
}

pub open spec fn edge_order() -> spec_fn(EdgeView, EdgeView) -> bool {
    |a: EdgeView, b: EdgeView| edge_before(a, b)
}

impl SortKey for GraphNode {
    open spec fn spec_before(a: Self, b: Self) -> bool {
        text_lt(a.id@, b.id@)
    }

    fn before(&self, other: &Self) -> (r: bool) {
        compare_str(&self.id, &other.id) == -1
    }
}

impl SortKey for GraphEdge {
    open spec fn spec_before(a: Self, b: Self) -> bool {
        edge_before(eview(a), eview(b))
    }

    fn before(&self, other: &Self) -> (r: bool) {
        let c = compare_str(&self.from, &other.from);
        c == -1 || (c == 0 && compare_str(&self.to, &other.to) == -1)
    }
}

/// The node of each note whose path contains the query (ignoring case), if there is one.
pub open spec fn node_rows(notes: Seq<Document>, query: Option<Seq<char>>) -> Seq<NodeView>
    decreases notes.len(),
{
    if notes.len() == 0 {
        Seq::empty()
    } else {
        let rest = node_rows(notes.drop_last(), query);
        if query is None || contains_ci(notes.last().path@, query->0) {
            rest.push((notes.last().path@, None))
        } else {
            rest
        }
    }
}

/// Whether `x` is the node of a note of `notes` whose lowercased path
/// contains the lowercased `q`.
pub open spec fn kept_note(notes: Seq<Document>, q: Seq<char>, x: NodeView) -> bool {
    exists|i: int|
        0 <= i < notes.len() && x == (#[trigger] notes[i].path@, None::<Seq<char>>) && contains_seq(
            lowercase(notes[i].path@),
            lowercase(q),
        )
}

/// The query filter of the graph ignores letter case: with a query, a note
/// has a node exactly when its lowercased path contains the lowercased query,
/// and each node is a note's path (in the order of the notes); queries and
/// paths that lowercase alike give the same nodes.
#[verifier::spinoff_prover]
pub proof fn lemma_node_filter(notes: Seq<Document>, q: Seq<char>, q2: Seq<char>)
    ensures
        forall|i: int| 0 <= i < notes.len() && contains_seq(lowercase(#[trigger] notes[i].path@), lowercase(q))
            ==> node_rows(notes, Some(q)).contains((notes[i].path@, None)),
        forall|k: int| 0 <= k < node_rows(notes, Some(q)).len() ==> kept_note(notes, q, #[trigger] node_rows(notes, Some(q))[k]),
        lowercase(q) == lowercase(q2) ==> node_rows(notes, Some(q)) == node_rows(notes, Some(q2)),
        node_rows(notes, None).len() == notes.len(),
    decreases notes.len(),
{
    if notes.len() > 0 {
        let init = notes.drop_last();
        lemma_node_filter(init, q, q2);
        let rest = node_rows(init, Some(q));
        let cur = node_rows(notes, Some(q));
        let last = notes.last();
        assert forall|i: int| 0 <= i < notes.len() && contains_seq(lowercase(#[trigger] notes[i].path@), lowercase(q))
            implies cur.contains((notes[i].path@, None)) by {
            if i < notes.len() - 1 {
                assert(init[i] == notes[i]);
                let t = choose|t: int| 0 <= t < rest.len() && rest[t] == (init[i].path@, None::<Seq<char>>);
                if contains_ci(last.path@, q) {
                    assert(cur[t] == rest[t]);
                }
            } else {
                assert(cur[cur.len() - 1] == (last.path@, None::<Seq<char>>));
            }
        }
        assert forall|k: int| 0 <= k < cur.len() implies kept_note(notes, q, #[trigger] cur[k]) by {
            if k < rest.len() {
                assert(cur[k] == rest[k]);
                assert(kept_note(init, q, rest[k]));
                let i = choose|i: int|
                    0 <= i < init.len() && rest[k] == (#[trigger] init[i].path@, None::<Seq<char>>)
                        && contains_seq(lowercase(init[i].path@), lowercase(q));
                assert(notes[i] == init[i]);
            } else {
                assert(cur[k] == (notes[notes.len() - 1].path@, None::<Seq<char>>));
                assert(contains_seq(lowercase(notes[notes.len() - 1].path@), lowercase(q)));
            }
        }
    }
}

/// The edge of each link from `from`, to the note the link names (or its bare
/// target when it names none); unresolved links only when `with_unresolved`.
pub open spec fn edge_rows(index: VaultIndex, from: Seq<char>, ls: Seq<LinkView>, with_unresolved: bool) -> Seq<EdgeView>
    decreases ls.len(),
{
    if ls.len() == 0 {
        Seq::empty()
    } else {
        let rest = edge_rows(index, from, ls.drop_last(), with_unresolved);
        let l = ls.last();
        if l.3 || with_unresolved {
            rest.push((from, resolved_or(index, l.1), !l.3))
        } else {
            rest
        }
    }
}

/// The edges of each of `notes`, note by note.
pub open spec fn edges_from(index: VaultIndex, notes: Seq<Document>, with_unresolved: bool) -> Seq<EdgeView>
    decreases notes.len(),
{
    if notes.len() == 0 {
        Seq::empty()
    } else {
        edges_from(index, notes.drop_last(), with_unresolved) + edge_rows(index, notes.last().path@, links_spec(index, notes.last().path@), with_unresolved)
    }
}

/// Whether an edge is to a note the link names.
pub open spec fn resolved_edge() -> spec_fn(EdgeView) -> bool {
    |e: EdgeView| !e.2
}

proof fn lemma_filter_concat(a: Seq<EdgeView>, b: Seq<EdgeView>)
    ensures
        (a + b).filter(resolved_edge()) == a.filter(resolved_edge()) + b.filter(resolved_edge()),
    decreases b.len(),
{
    reveal(Seq::filter);
    let f = resolved_edge();
    if b.len() == 0 {
        assert(a + b =~= a);
        assert(b.filter(f) =~= Seq::<EdgeView>::empty());
        assert(a.filter(f) + b.filter(f) =~= a.filter(f));
    } else {
        lemma_filter_concat(a, b.drop_last());
        assert((a + b).drop_last() =~= a + b.drop_last());
        assert((a + b).last() == b.last());
        if f(b.last()) {
            assert(a.filter(f) + b.filter(f) =~= (a.filter(f) + b.drop_last().filter(f)).push(b.last()));
        } else {
            assert(a.filter(f) + b.filter(f) =~= a.filter(f) + b.drop_last().filter(f));
        }
    }
}

proof fn lemma_edge_rows_filter(index: VaultIndex, from: Seq<char>, ls: Seq<LinkView>)
    ensures
        edge_rows(index, from, ls, false) == edge_rows(index, from, ls, true).filter(resolved_edge()),
    decreases ls.len(),
{
    reveal(Seq::filter);
    if ls.len() > 0 {
        lemma_edge_rows_filter(index, from, ls.drop_last());
        let all = edge_rows(index, from, ls, true);
        let l = ls.last();
        let prev = edge_rows(index, from, ls.drop_last(), true);
        assert(all == prev.push((from, resolved_or(index, l.1), !l.3)));
        assert(all.drop_last() =~= prev);
    }
}

/// Without unresolved links the graph keeps exactly the resolved edges of
/// the graph with them, in the same order; so none of its edges is unresolved.
#[verifier::spinoff_prover]
pub proof fn lemma_unresolved_filter(index: VaultIndex, notes: Seq<Document>)
    ensures
        edges_from(index, notes, false) == edges_from(index, notes, true).filter(resolved_edge()),
        forall|k: int| 0 <= k < edges_from(index, notes, false).len() ==> !(#[trigger] edges_from(index, notes, false)[k]).2,
    decreases notes.len(),
{
    let f = resolved_edge();
    if notes.len() > 0 {
        lemma_unresolved_filter(index, notes.drop_last());
        lemma_edge_rows_filter(index, notes.last().path@, links_spec(index, notes.last().path@));
        lemma_filter_concat(
            edges_from(index, notes.drop_last(), true),
            edge_rows(index, notes.last().path@, links_spec(index, notes.last().path@), true),
        );
    }
    let r = edges_from(index, notes, true);
    assert forall|k: int| 0 <= k < r.filter(f).len() implies !(#[trigger] r.filter(f)[k]).2 by {
        r.filter_lemma(f);
        assert(f(r.filter(f)[k]));
    }
}

/// The graph of the index: nodes ordered by id, edges by source then target.
pub fn graph(index: &VaultIndex, filter: &GraphFilter) -> (r: (Vec<GraphNode>, Vec<GraphEdge>))
    ensures
        r.0@.map_values(|n: GraphNode| nview(n)) == sort_with(node_rows(index.notes(), opt_text(filter.query)), node_order()),
        r.1@.map_values(|e: GraphEdge| eview(e)) == sort_with(edges_from(*index, index.notes(), filter.include_unresolved), edge_order()),
{
    let docs = index.documents();
    let ghost notes = index.notes();
    let ghost q = opt_text(filter.query);
    let with_unresolved = filter.include_unresolved;
    let mut ns: Vec<GraphNode> = Vec::new();
    let mut es: Vec<GraphEdge> = Vec::new();
    let mut k: usize = 0;
    proof {
        assert(notes.take(0) =~= Seq::<Document>::empty());
        assert(ns@.map_values(|n: GraphNode| nview(n)) =~= Seq::<NodeView>::empty());
        assert(es@.map_values(|e: GraphEdge| eview(e)) =~= Seq::<EdgeView>::empty());
    }
    while k < docs.len()
        invariant
            k <= docs@.len() == notes.len(),
            notes == index.notes(),
            forall|j: int| 0 <= j < docs@.len() ==> *#[trigger] docs@[j] == notes[j],
            q == opt_text(filter.query),
            with_unresolved == filter.include_unresolved,
            ns@.map_values(|n: GraphNode| nview(n)) == node_rows(notes.take(k as int), q),
            es@.map_values(|e: GraphEdge| eview(e)) == edges_from(*index, notes.take(k as int), with_unresolved),
        decreases docs@.len() - k,
    {
        let d = docs[k];
        proof {
            assert(notes.take(k + 1).drop_last() =~= notes.take(k as int));
            assert(notes.take(k + 1).last() == *d);
        }
        let keep = match &filter.query {
            Some(s) => contains_ignoring_case(&d.path, s),
            None => true,
        };
        if keep {
            let ghost before = ns@;
            let n = GraphNode { id: d.path.clone(), group: None };
            ns.push(n);
            proof {
                assert(ns@.map_values(|n: GraphNode| nview(n)) =~= before.map_values(|n: GraphNode| nview(n)).push(nview(n)));
            }
        }
        let ls = links(index, &d.path);
        let ghost lsv = lviews(ls@);
        let ghost base = es@.map_values(|e: GraphEdge| eview(e));
        let mut j: usize = 0;
        proof {
            assert(lsv.take(0) =~= Seq::<LinkView>::empty());
            assert(base + edge_rows(*index, d.path@, lsv.take(0), with_unresolved) =~= base);
        }
        while j < ls.len()
            invariant
                j <= ls@.len(),
                lsv == lviews(ls@),
                with_unresolved == filter.include_unresolved,
                es@.map_values(|e: GraphEdge| eview(e)) == base + edge_rows(*index, d.path@, lsv.take(j as int), with_unresolved),
            decreases ls@.len() - j,
        {
            let l = &ls[j];
            proof {
                assert(lsv.take(j + 1).drop_last() =~= lsv.take(j as int));
                assert(lsv.take(j + 1).last() == lview(*l));
            }
            if l.resolved || with_unresolved {
                let ghost before = es@;
                let to = match resolve_target(index, &l.target) {
                    Some(p) => p,
                    None => l.target.clone(),
                };
                let e = GraphEdge { from: d.path.clone(), to, unresolved: !l.resolved };
                es.push(e);
                proof {
                    assert(es@.map_values(|e: GraphEdge| eview(e)) =~= before.map_values(|e: GraphEdge| eview(e)).push(eview(e)));
                }
            }
            j = j + 1;
        }
        proof {
            assert(lsv.take(j as int) =~= lsv);
        }
        k = k + 1;
    }
    proof {
        assert(notes.take(k as int) =~= notes);
        lemma_sort_with_map(ns@, key_order::<GraphNode>(), |n: GraphNode| nview(n), node_order());
        lemma_sort_with_map(es@, key_order::<GraphEdge>(), |e: GraphEdge| eview(e), edge_order());
    }
    (sort_items(ns), sort_items(es))
}


// ---------------------------------------------------------------- laws

/// Graph nodes come ordered by id and edges by source then target, and
/// each list holds exactly the nodes and edges selected.
pub proof fn lemma_graph_ordered(index: VaultIndex, query: Option<Seq<char>>, with_unresolved: bool)
    ensures
        ordered_by(sort_with(node_rows(index.notes(), query), node_order()), node_order()),
        sort_with(node_rows(index.notes(), query), node_order()).to_multiset() == node_rows(index.notes(), query).to_multiset(),
        ordered_by(sort_with(edges_from(index, index.notes(), with_unresolved), edge_order()), edge_order()),
        sort_with(edges_from(index, index.notes(), with_unresolved), edge_order()).to_multiset()
            == edges_from(index, index.notes(), with_unresolved).to_multiset(),
{
    assert forall|a: NodeView, b: NodeView| #[trigger] node_order()(a, b) implies !node_order()(b, a) by {
        lemma_text_lt_order(a.0, b.0, a.0);
    }
    assert forall|a: NodeView, b: NodeView, c: NodeView| #![trigger node_order()(a, b), node_order()(b, c)]
        !node_order()(a, b) && !node_order()(b, c) implies !node_order()(a, c) by {
        lemma_text_not_lt(a.0, b.0, c.0);
    }
    assert forall|a: EdgeView, b: EdgeView| #[trigger] edge_order()(a, b) implies !edge_order()(b, a) by {
        lemma_text_lt_order(a.0, b.0, a.0);
        lemma_text_lt_order(a.1, b.1, a.1);
    }
    assert forall|a: EdgeView, b: EdgeView, c: EdgeView| #![trigger edge_order()(a, b), edge_order()(b, c)]
        !edge_order()(a, b) && !edge_order()(b, c) implies !edge_order()(a, c) by {
        lemma_text_not_lt(a.0, b.0, c.0);
        lemma_text_not_lt(a.1, b.1, c.1);
        lemma_text_lt_order(a.0, b.0, c.0);
        lemma_text_lt_order(b.0, c.0, a.0);
        lemma_text_lt_order(a.0, c.0, b.0);
    }
    lemma_sort_with_sorted(node_rows(index.notes(), query), node_order());
    lemma_sort_with_sorted(edges_from(index, index.notes(), with_unresolved), edge_order());
}

} // verus!
