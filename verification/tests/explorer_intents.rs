use tachylyte::explorer_intents::{ExplorerAction, ExplorerIntent, ExplorerSortMode, SortMode};

#[test]
fn intents_are_data_only_and_labeled() {
    assert_eq!(ExplorerIntent::new_root_note().label(), "New note");
    assert_eq!(ExplorerIntent::new_note("notes").label(), "New note");
    assert_eq!(
        ExplorerIntent::Toggle {
            path: "a".into(),
            expanded: false
        }
        .to_string(),
        "Collapse"
    );
    assert_eq!(
        ExplorerIntent::SetSort {
            mode: ExplorerSortMode::Kind
        }
        .label(),
        "Sort"
    );
}

#[test]
fn constructors_preserve_parent() {
    assert_eq!(
        ExplorerIntent::new_folder("docs"),
        ExplorerIntent::NewFolder {
            parent: Some("docs".into())
        }
    );
    assert_eq!(
        ExplorerIntent::new_root_folder(),
        ExplorerIntent::NewFolder { parent: None }
    );
}

#[test]
fn sort_modes_convert_and_label() {
    assert_eq!(ExplorerSortMode::from(SortMode::Modified), ExplorerSortMode::Modified);
    assert_eq!(ExplorerSortMode::from(SortMode::alphabetical()), ExplorerSortMode::Name);
    assert_eq!(ExplorerSortMode::default().label(), "Name");
    assert_eq!(ExplorerSortMode::Created.to_string(), "Created");
    assert_eq!(ExplorerAction::CopyPath.label(), "Copy path");
    assert_eq!(
        ExplorerIntent::DragMove { source: "a".into(), destination: "b".into() }.label(),
        "Move"
    );
}
