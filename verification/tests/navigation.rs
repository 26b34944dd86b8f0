use tachylyte::knowledge::search::SearchResult;
use tachylyte::navigation::{
    matches_filter, FeatureVisibility, FileExplorerModel, FileNode, LabelItem, ListPaneModel, NavigationPane,
    PaneAction, PaneEvent, SearchItem, SearchResultsModel, SelectionModel,
};
use tachylyte::vault::FeatureRegistry;

fn ids(n: usize) -> Vec<String> {
    (0..n).map(|i| i.to_string()).collect()
}

#[test]
fn selection_is_bounded_and_emits_events() {
    let mut s = SelectionModel::default();
    s.reduce(PaneAction::End, &ids(2));
    assert_eq!(s.selected, 1);
    s.reduce(PaneAction::Down, &ids(2));
    assert_eq!(s.selected, 1);
    assert!(s.take_events().contains(&PaneEvent::Selected("1".into())));
}

#[test]
fn unicode_filtering() {
    assert!(matches_filter("Résumé Привет", "прив"));
    assert!(!matches_filter("Résumé", "xyz"));
}

#[test]
fn disabled_features_are_hidden() {
    let mut p = NavigationPane::new("Graph", "graph", vec![]);
    p.features.0.insert("graph".into(), false);
    assert!(!p.features.enabled("graph"));
}

#[test]
fn collapse_emits_toggle() {
    let mut s = SelectionModel::default();
    s.reduce(PaneAction::Toggle("docs".into()), &Vec::new());
    assert_eq!(s.take_events(), vec![PaneEvent::Toggled("docs".into(), false)]);
}

fn leaf(id: &str, label: &str) -> FileNode {
    FileNode { id: id.into(), label: label.into(), folder: false, children: vec![] }
}

fn sample_tree() -> Vec<FileNode> {
    vec![
        FileNode {
            id: "docs".into(),
            label: "Docs".into(),
            folder: true,
            children: vec![leaf("guide", "Guide"), leaf("notes", "Notes")],
        },
        leaf("readme", "README"),
    ]
}

#[test]
fn activate_after_collapse_count_change_stays_in_bounds() {
    let mut explorer = FileExplorerModel::new(sample_tree());

    explorer.reduce(PaneAction::End);
    explorer.reduce(PaneAction::Toggle("docs".into()));
    explorer.reduce(PaneAction::Activate);

    assert_eq!(explorer.state.selected, 1);
    assert_eq!(explorer.take_events().last(), Some(&PaneEvent::Activated("readme".into())));
}

#[test]
fn filter_matching_trims_and_ignores_case() {
    assert!(matches_filter("Daily Note", "  NOTE  "));
    assert!(matches_filter("anything", "   "));
    assert!(matches_filter("", ""));
    assert!(!matches_filter("", "a"));
}

#[test]
fn selection_moves_and_clamps() {
    let mut s = SelectionModel::default();
    s.reduce(PaneAction::Up, &ids(3));
    assert_eq!(s.selected, 0);
    s.reduce(PaneAction::Down, &ids(3));
    s.reduce(PaneAction::Down, &ids(3));
    s.reduce(PaneAction::Down, &ids(3));
    assert_eq!(s.selected, 2);
    s.reduce(PaneAction::Home, &ids(3));
    assert_eq!(s.selected, 0);
    s.reduce(PaneAction::End, &ids(3));
    s.reduce(PaneAction::Filter("x".into()), &ids(1));
    assert_eq!(s.selected, 0);
    assert_eq!(s.filter, "x");
    s.selected = 7;
    s.reduce(PaneAction::Up, &ids(2));
    assert_eq!(s.selected, 1);
    s.reduce(PaneAction::End, &Vec::new());
    assert_eq!(s.selected, 0);
}

#[test]
fn activation_reports_selection_then_activation() {
    let mut s = SelectionModel::default();
    s.reduce(PaneAction::Activate, &ids(2));
    assert_eq!(
        s.take_events(),
        vec![PaneEvent::Selected("0".into()), PaneEvent::Activated("0".into())]
    );
    s.reduce(PaneAction::Activate, &Vec::new());
    assert!(s.take_events().is_empty());
}

#[test]
fn second_toggle_reports_open_and_keeps_collapsed() {
    let mut s = SelectionModel::default();
    s.reduce(PaneAction::Toggle("docs".into()), &Vec::new());
    s.reduce(PaneAction::Toggle("docs".into()), &Vec::new());
    assert_eq!(
        s.take_events(),
        vec![PaneEvent::Toggled("docs".into(), false), PaneEvent::Toggled("docs".into(), true)]
    );
    assert!(s.collapsed.contains("docs"));
}

#[test]
fn explorer_rows_follow_filter_and_collapse() {
    let mut explorer = FileExplorerModel::new(sample_tree());
    let ids: Vec<String> = explorer.visible().iter().map(|n| n.id.clone()).collect();
    assert_eq!(ids, vec!["docs", "guide", "notes", "readme"]);
    explorer.reduce(PaneAction::Filter("no".into()));
    let ids: Vec<String> = explorer.visible().iter().map(|n| n.id.clone()).collect();
    assert_eq!(ids, vec!["notes"]);
    explorer.reduce(PaneAction::Toggle("docs".into()));
    assert!(explorer.visible().is_empty());
}

#[test]
fn list_and_search_panes_filter_their_rows() {
    let mut list = ListPaneModel::default();
    list.items = vec![
        LabelItem { id: "a".into(), label: "Alpha".into() },
        LabelItem { id: "b".into(), label: "Beta".into() },
    ];
    list.reduce(PaneAction::Filter("BET".into()));
    assert_eq!(list.visible().len(), 1);
    assert_eq!(list.state.take_events(), vec![PaneEvent::Selected("a".into())]);

    let mut search = SearchResultsModel::default();
    search.items = vec![
        SearchItem::from(SearchResult { path: "a.md".into(), score: 2, snippet: "hello world".into() }),
        SearchItem { path: "b.md".into(), snippet: "other".into(), score: 1 },
    ];
    search.reduce(PaneAction::Filter("md hello".into()));
    let rows: Vec<String> = search.visible().iter().map(|x| x.path.clone()).collect();
    assert_eq!(rows, vec!["a.md"]);
    assert_eq!(search.state.take_events(), vec![PaneEvent::Selected("a.md".into())]);
}

#[test]
fn feature_visibility_follows_registry() {
    let mut registry = FeatureRegistry::defaults();
    registry.set("graph", false).unwrap();
    let v = FeatureVisibility::from_registry(&registry);
    assert!(!v.enabled("graph"));
    assert!(v.enabled("search"));
    assert!(v.enabled("not-a-feature"));
}
