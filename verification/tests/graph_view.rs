use tachylyte::graph_view::{local_subgraph, node_style, GraphMode, NodeStyle};
use tachylyte::knowledge::graph::{GraphEdge, GraphNode};

fn n(id: &str) -> GraphNode {
    GraphNode { id: id.into(), group: None }
}

fn e(from: &str, to: &str) -> GraphEdge {
    GraphEdge { from: from.into(), to: to.into(), unresolved: false }
}

#[test]
fn local_mode_keeps_the_neighbourhood() {
    let (ns, es) = local_subgraph(vec![n("a"), n("b"), n("c"), n("d")], vec![e("a", "b"), e("c", "a"), e("c", "d")], "a");
    let ids: Vec<&str> = ns.iter().map(|x| x.id.as_str()).collect();
    assert_eq!(ids, vec!["a", "b", "c"]);
    assert_eq!(es.len(), 2);
    assert_eq!(GraphMode::default(), GraphMode::Global);
}

#[test]
fn styles_follow_selection() {
    assert_eq!(node_style(true, "a", Some("b")), NodeStyle::Unresolved);
    assert_eq!(node_style(false, "a", Some("b")), NodeStyle::Inactive);
    assert_eq!(node_style(false, "b", Some("b")), NodeStyle::Active);
    assert_eq!(node_style(false, "a", None), NodeStyle::Active);
}
