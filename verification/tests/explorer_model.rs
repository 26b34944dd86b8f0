use tachylyte::explorer_model::{kind_for, ExplorerFileInput, ExplorerNodeKind, FileKind, VisibleExplorerRow};

#[test]
fn kinds_follow_the_last_extension_without_case() {
    assert_eq!(kind_for("Note.MD"), FileKind::Markdown);
    assert_eq!(kind_for("board.canvas"), FileKind::Canvas);
    assert_eq!(kind_for("a.b.JPEG"), FileKind::Image);
    assert_eq!(kind_for("paper.pdf"), FileKind::Pdf);
    assert_eq!(kind_for("x.ogg"), FileKind::Audio);
    assert_eq!(kind_for("x.webm"), FileKind::Video);
    assert_eq!(kind_for("main.RS"), FileKind::Other("rs".into()));
    assert_eq!(kind_for("Makefile"), FileKind::Other("makefile".into()));
    assert_eq!(kind_for("logo.svg"), FileKind::Other("svg".into()));
    assert_eq!(kind_for("Makefile").glyph(), "•");
    assert_eq!(FileKind::Markdown.glyph(), "M");
}

#[test]
fn inputs_and_rows_are_plain_data() {
    let i = ExplorerFileInput::new("a/b.md");
    assert_eq!(i.path, "a/b.md");
    assert_eq!(i.modified, None);
    let j: ExplorerFileInput = String::from("c.md").into();
    assert_eq!(j, ExplorerFileInput { path: "c.md".into(), modified: None, created: None });
    assert_eq!(ExplorerFileInput::default().path, "");
    let row = VisibleExplorerRow {
        path: "a".into(),
        name: "a".into(),
        kind: ExplorerNodeKind::Folder,
        depth: 0,
        expanded: true,
        selected: false,
        glyph: "D",
    };
    assert!(row.is_folder());
    assert_eq!(row.path(), "a");
}

use tachylyte::explorer_intents::{ExplorerIntent, ExplorerSortMode, SortMode};
use tachylyte::explorer_model::ExplorerModel;

fn inputs(paths: &[&str]) -> Vec<ExplorerFileInput> {
    paths.iter().map(|p| ExplorerFileInput::new(p)).collect()
}

#[test]
fn builds_hierarchy_and_folders_first() {
    let m = ExplorerModel::from_vault_paths(inputs(&["z.md", "a/b.md", "a/c.png"]));
    assert_eq!(m.roots[0].name, "a");
    assert_eq!(m.roots[0].children.len(), 2);
}

#[test]
fn filter_keeps_ancestors_and_navigation_is_bounded() {
    let mut m = ExplorerModel::from_vault_paths(inputs(&["docs/readme.md", "other.md"]));
    m.set_filter("readme");
    assert_eq!(m.visible_rows().len(), 2);
    m.reduce_keyboard("end");
    assert_eq!(m.selected.as_deref(), Some("docs/readme.md"));
    m.reduce_keyboard("down");
    assert_eq!(m.selected.as_deref(), Some("docs/readme.md"));
}

#[test]
fn metadata_sort_is_deterministic() {
    let mut m = ExplorerModel::from_vault_paths(vec![
        ExplorerFileInput { path: "a.md".into(), modified: Some(1), created: None },
        ExplorerFileInput { path: "b.md".into(), modified: Some(3), created: None },
    ]);
    m.set_sort_mode(SortMode::Modified);
    assert_eq!(m.roots[0].name, "b.md");
}

#[test]
fn explorer_tree_and_typed_interactions_are_data_only() {
    let mut explorer = ExplorerModel::from_vault_paths(inputs(&[
        "Projects/Alpha/readme.md",
        "Projects/Alpha/src/main.rs",
        "Projects/Beta/notes.md",
        "Inbox.md",
    ]));

    let rows = explorer.visible_rows();
    assert_eq!(rows[0].path, "Projects");
    assert!(matches!(rows[0].kind, ExplorerNodeKind::Folder));
    assert!(rows.iter().any(|row| row.path == "Projects/Alpha/src/main.rs"));
    assert!(rows.windows(2).all(|pair| {
        pair[0].depth != pair[1].depth
            || !matches!(pair[0].kind, ExplorerNodeKind::File(_))
            || matches!(pair[1].kind, ExplorerNodeKind::File(_))
    }));

    explorer.toggle("Projects/Alpha");
    assert!(!explorer.visible_rows().iter().any(|row| row.path == "Projects/Alpha/readme.md"));
    explorer.toggle("Projects/Alpha");
    assert!(explorer.visible_rows().iter().any(|row| row.path == "Projects/Alpha/readme.md"));

    explorer.set_filter("main.rs");
    let filtered = explorer.visible_rows();
    assert!(filtered.iter().any(|row| row.path == "Projects"));
    assert!(filtered.iter().any(|row| row.path == "Projects/Alpha"));
    assert!(filtered.iter().any(|row| row.path == "Projects/Alpha/src/main.rs"));
    explorer.set_filter("");

    for mode in [SortMode::Name, SortMode::Modified, SortMode::Created] {
        explorer.set_sort_mode(mode);
        assert!(explorer.visible_rows().iter().any(|row| row.path == "Projects"));
    }

    explorer.select("Projects/Alpha");
    assert_eq!(explorer.selected.as_deref(), Some("Projects/Alpha"));
    explorer.reduce_keyboard("right");
    explorer.reduce_keyboard("down");
    explorer.reduce_keyboard("left");
    explorer.reduce_keyboard("enter");
    assert_eq!(explorer.active.as_deref(), explorer.selected.as_deref());

    let intents = vec![
        ExplorerIntent::new_note("Projects/Alpha"),
        ExplorerIntent::new_folder("Projects/Alpha"),
        ExplorerIntent::Rename { path: "Inbox.md".into(), new_name: "Home.md".into() },
        ExplorerIntent::Delete { path: "Inbox.md".into() },
        ExplorerIntent::Move { path: "Inbox.md".into(), destination: "Projects".into() },
        ExplorerIntent::Duplicate { path: "Inbox.md".into(), destination: "Projects".into() },
        ExplorerIntent::Reveal { path: "Inbox.md".into() },
        ExplorerIntent::ContextMenu { path: Some("Projects".into()) },
        ExplorerIntent::DragMove { source: "Inbox.md".into(), destination: "Projects".into() },
        ExplorerIntent::SetSort { mode: ExplorerSortMode::Kind },
    ];
    assert_eq!(intents[0].label(), "New note");
    assert_eq!(intents[8].label(), "Move");
    assert_eq!(intents.len(), 10);
}

#[test]
fn updates_keep_what_still_exists() {
    let mut m = ExplorerModel::from_vault_paths(inputs(&["a/x.md", "b/y.md"]));
    assert!(m.expanded.contains("a") && m.expanded.contains("b"));
    m.toggle("b");
    m.select("a/x.md");
    m.activate();
    m.update_paths(inputs(&["a/x.md", "c.md"]));
    assert!(m.expanded.contains("a"));
    assert!(!m.expanded.contains("b"));
    assert_eq!(m.selected_path(), Some("a/x.md"));
    assert_eq!(m.active_path(), Some("a/x.md"));
    m.update_paths(inputs(&["c.md"]));
    assert_eq!(m.selected_path(), None);
    m.handle_key("HOME");
    assert_eq!(m.selected_path(), Some("c.md"));
    m.move_selection(-5);
    assert_eq!(m.selected_path(), Some("c.md"));
    assert_eq!(m.selected_node().map(|n| n.name.as_str()), Some("c.md"));
}
