use tachylyte::bases_layout::{
    layout_label, BasesLayoutState, CardCover, ColumnWidth, LayoutKind, PropertyColumn,
    ToolbarAction,
};

#[test]
fn defaults_are_deterministic() {
    let state = BasesLayoutState::default();
    assert_eq!(state.layout, LayoutKind::Table);
    assert!(state.columns.is_empty());
    assert_eq!(state.card_cover, CardCover::default());
}

#[test]
fn columns_preserve_source_identity_and_visibility() {
    let state = BasesLayoutState {
        columns: vec![
            PropertyColumn::new("title", 7),
            PropertyColumn::new("tag", 2).hidden(),
        ],
        ..Default::default()
    };
    let visible: Vec<_> = state.visible_columns();
    assert_eq!(visible[0].source_index, 7);
    assert_eq!(visible.len(), 1);
}

#[test]
fn toolbar_labels_are_compact() {
    assert_eq!(ToolbarAction::Properties.label(), "Properties");
    assert_eq!(layout_label(LayoutKind::MapPlaceholder), "Map");
}

#[test]
fn widths_and_covers_are_data() {
    let c = PropertyColumn::new("size", 3).with_width(ColumnWidth::Fixed(120));
    assert_eq!(c.width, ColumnWidth::Fixed(120));
    assert!(c.is_visible());
    assert_eq!(CardCover::placeholder("Cover").placeholder_label, "Cover");
    assert_eq!(LayoutKind::Cards.to_string(), "Cards");
}
