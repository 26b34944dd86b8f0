//! The graph view's modes, node styles and events, and the neighbourhood
//! that its local mode shows.
use vstd::prelude::*;
use crate::knowledge::graph::{EdgeView, GraphEdge, GraphNode, NodeView, eview, nview};
use crate::text::str_eq;

verus! {

/// Scope shown by the graph toolbar.
#[derive(Clone, Copy, Debug, PartialEq, Eq, Structural)]
pub enum GraphMode {
    Global,
    Local,
}

impl Default for GraphMode {
    fn default() -> (m: Self)
        ensures
            m == GraphMode::Global,
    {
        GraphMode::Global
    }
}

#[derive(Clone, Copy, Debug, PartialEq, Eq, Structural)]
pub enum NodeStyle {
    Active,
    Inactive,
    Unresolved,
}

/// Events emitted by selecting a node or activating the open control.
#[derive(Clone, Debug, PartialEq, Eq)]
pub enum GraphEvent {
    Select(String),
    Open(String),
}

/// The style of a node: unresolved nodes keep their style; with a
/// selection, every other node is inactive.
pub open spec fn style_spec(unresolved: bool, id: Seq<char>, selected: Option<Seq<char>>) -> NodeStyle {
    if unresolved {
        NodeStyle::Unresolved
    } else if selected is Some && selected->0 != id {
        NodeStyle::Inactive
    } else {
        NodeStyle::Active
    }
}

pub open spec fn opt_view(o: Option<&str>) -> Option<Seq<char>> {
    match o {
        Some(s) => Some(s@),
        None => None,
    }
}

pub fn node_style(unresolved: bool, id: &str, selected: Option<&str>) -> (r: NodeStyle)
    ensures
        r == style_spec(unresolved, id@, opt_view(selected)),
{
    if unresolved {
        NodeStyle::Unresolved
    } else {
        match selected {
            Some(s) => if str_eq(s, id) {
                NodeStyle::Active
            } else {
                NodeStyle::Inactive
            },
            None => NodeStyle::Active,
        }
    }
}

/// Whether `id` is the selected note or an end of an edge that touches it.
pub open spec fn in_local(edges: Seq<EdgeView>, selected: Seq<char>, id: Seq<char>) -> bool {
    id == selected || exists|k: int| 0 <= k < edges.len() && (#[trigger] edges[k].0 == selected || edges[k].1 == selected)
        && (id == edges[k].0 || id == edges[k].1)
}

/// The nodes of `ns` in the neighbourhood, in order.
pub open spec fn local_nodes(ns: Seq<NodeView>, edges: Seq<EdgeView>, selected: Seq<char>) -> Seq<NodeView>
    decreases ns.len(),
{
    if ns.len() == 0 {
        Seq::empty()
    } else {
        let rest = local_nodes(ns.drop_last(), edges, selected);
        if in_local(edges, selected, ns.last().0) { rest.push(ns.last()) } else { rest }
    }
}

/// The edges of `es` with both ends in the neighbourhood, in order.
pub open spec fn local_edges(es: Seq<EdgeView>, edges: Seq<EdgeView>, selected: Seq<char>) -> Seq<EdgeView>
    decreases es.len(),
{
    if es.len() == 0 {
        Seq::empty()
    } else {
        let rest = local_edges(es.drop_last(), edges, selected);
        let e = es.last();
        if in_local(edges, selected, e.0) && in_local(edges, selected, e.1) { rest.push(e) } else { rest }
    }
}

/// Whether `id` is in the neighbourhood of `selected`.
fn in_local_exec(edges: &Vec<GraphEdge>, selected: &str, id: &str) -> (r: bool)
    ensures
        r == in_local(edges@.map_values(|e: GraphEdge| eview(e)), selected@, id@),
{
    let ghost ev = edges@.map_values(|e: GraphEdge| eview(e));
    if str_eq(id, selected) {
        return true;
    }
    let mut k: usize = 0;
    while k < edges.len()
        invariant
            k <= edges@.len(),
            ev == edges@.map_values(|e: GraphEdge| eview(e)),
            id@ != selected@,
            forall|j: int| 0 <= j < k ==> !((#[trigger] ev[j].0 == selected@ || ev[j].1 == selected@) && (id@ == ev[j].0 || id@ == ev[j].1)),
        decreases edges@.len() - k,
    {
        let e = &edges[k];
        proof {
            assert(ev[k as int] == eview(*e));
        }
        if (str_eq(&e.from, selected) || str_eq(&e.to, selected)) && (str_eq(id, &e.from) || str_eq(id, &e.to)) {
            proof {
                assert((ev[k as int].0 == selected@ || ev[k as int].1 == selected@) && (id@ == ev[k as int].0 || id@ == ev[k as int].1));
            }
            return true;
        }
        k = k + 1;
    }
    false
}

/// The part of a graph that local mode shows around `selected`: the selected
/// note, the notes it links with, and the edges among them.
pub fn local_subgraph(nodes: Vec<GraphNode>, edges: Vec<GraphEdge>, selected: &str) -> (r: (Vec<GraphNode>, Vec<GraphEdge>))
    ensures
        r.0@.map_values(|n: GraphNode| nview(n)) == local_nodes(nodes@.map_values(|n: GraphNode| nview(n)), edges@.map_values(|e: GraphEdge| eview(e)), selected@),
        r.1@.map_values(|e: GraphEdge| eview(e)) == local_edges(edges@.map_values(|e: GraphEdge| eview(e)), edges@.map_values(|e: GraphEdge| eview(e)), selected@),
{
    let ghost nv = nodes@.map_values(|n: GraphNode| nview(n));
    let ghost ev = edges@.map_values(|e: GraphEdge| eview(e));
    let mut ns: Vec<GraphNode> = Vec::new();
    let mut k: usize = 0;
    proof {
        assert(nv.take(0) =~= Seq::<NodeView>::empty());
        assert(ns@.map_values(|n: GraphNode| nview(n)) =~= Seq::<NodeView>::empty());
    }
    while k < nodes.len()
        invariant
            k <= nodes@.len(),
            nv == nodes@.map_values(|n: GraphNode| nview(n)),
            ev == edges@.map_values(|e: GraphEdge| eview(e)),
            ns@.map_values(|n: GraphNode| nview(n)) == local_nodes(nv.take(k as int), ev, selected@),
        decreases nodes@.len() - k,
    {
        proof {
            assert(nv.take(k + 1).drop_last() =~= nv.take(k as int));
            assert(nv.take(k + 1).last() == nview(nodes@[k as int]));
        }
        if in_local_exec(&edges, selected, &nodes[k].id) {
            let ghost before = ns@;
            let n = GraphNode { id: nodes[k].id.clone(), group: match &nodes[k].group {
                Some(g) => Some(g.clone()),
                None => None,
            } };
            ns.push(n);
            proof {
                assert(ns@.map_values(|n: GraphNode| nview(n)) =~= before.map_values(|n: GraphNode| nview(n)).push(nview(n)));
            }
        }
        k = k + 1;
    }
    let mut es: Vec<GraphEdge> = Vec::new();
    let mut j: usize = 0;
    proof {
        assert(nv.take(k as int) =~= nv);
        assert(ev.take(0) =~= Seq::<EdgeView>::empty());
        assert(es@.map_values(|e: GraphEdge| eview(e)) =~= Seq::<EdgeView>::empty());
    }
    while j < edges.len()
        invariant
            j <= edges@.len(),
            ev == edges@.map_values(|e: GraphEdge| eview(e)),
            es@.map_values(|e: GraphEdge| eview(e)) == local_edges(ev.take(j as int), ev, selected@),
        decreases edges@.len() - j,
    {
        proof {
            assert(ev.take(j + 1).drop_last() =~= ev.take(j as int));
            assert(ev.take(j + 1).last() == eview(edges@[j as int]));
        }
        let e = &edges[j];
        if in_local_exec(&edges, selected, &e.from) && in_local_exec(&edges, selected, &e.to) {
            let ghost before = es@;
            let c = GraphEdge { from: e.from.clone(), to: e.to.clone(), unresolved: e.unresolved };
            es.push(c);
            proof {
                assert(es@.map_values(|e: GraphEdge| eview(e)) =~= before.map_values(|e: GraphEdge| eview(e)).push(eview(c)));
            }
        }
        j = j + 1;
    }
    proof {
        assert(ev.take(j as int) =~= ev);
    }
    (ns, es)
}

} // verus!
