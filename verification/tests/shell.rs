use tachylyte::shell::{
    clamp_cursor, cursor_down, cursor_left, cursor_right, cursor_up, detail_projection, leaf_kind, parse_command,
    shell_features, LeafKind, SettingsState, ShellCommand, Theme,
};
use tachylyte::vault::{FileKind, VaultEntry, VaultPath};

#[test]
fn settings_start_light_with_every_feature_on() {
    let s = SettingsState::default();
    assert_eq!(s.theme, Theme::Light);
    assert!(s.show_left_sidebar && s.show_right_sidebar);
    assert_eq!(s.features.len(), 7);
    for name in shell_features() {
        assert!(s.feature_enabled(name));
    }
    assert!(!s.feature_enabled("Unknown"));
}

#[test]
fn toggles_flip_and_come_back() {
    let mut s = SettingsState::default();
    assert!(s.toggle_feature("Links"));
    assert!(!s.feature_enabled("Links"));
    assert_eq!(detail_projection(&s), vec!["Outline", "Properties", "Word count"]);
    assert!(s.toggle_feature("Links"));
    assert_eq!(s, SettingsState::default());
    assert!(!s.toggle_feature("Nope"));
    s.toggle_theme();
    assert_eq!(s.theme, Theme::Dark);
    s.toggle_theme();
    assert_eq!(s.theme, Theme::Light);
    s.toggle_left_sidebar();
    s.toggle_right_sidebar();
    assert!(!s.show_left_sidebar && !s.show_right_sidebar);
}

#[test]
fn palette_commands_are_trimmed_and_case_blind() {
    assert_eq!(parse_command("  Toggle THEME "), Some(ShellCommand::ToggleTheme));
    assert_eq!(parse_command("file.save"), Some(ShellCommand::Save));
    assert_eq!(parse_command("Mode.Reading"), Some(ShellCommand::ReadingMode));
    assert_eq!(parse_command("sidebar.left"), Some(ShellCommand::ToggleExplorer));
    assert_eq!(parse_command("vaults"), Some(ShellCommand::ManageVaults));
    assert_eq!(parse_command("launch rockets"), None);
}

#[test]
fn cursor_moves_by_characters_and_lines() {
    let s = "ab\ncdé\nf";
    assert_eq!(s.len(), 9);
    assert_eq!(cursor_left(s, 0), 0);
    assert_eq!(cursor_left(s, 7), 5);
    assert_eq!(cursor_left(s, 9), 8);
    assert_eq!(cursor_right(s, 5), 7);
    assert_eq!(cursor_right(s, 9), 9);
    assert_eq!(clamp_cursor(s, 6), 5);
    assert_eq!(clamp_cursor(s, 99), 9);
    assert_eq!(cursor_up(s, 5), 2);
    assert_eq!(cursor_up(s, 1), 0);
    assert_eq!(cursor_up(s, 9), 4);
    assert_eq!(cursor_up(s, 8), 3);
    assert_eq!(cursor_down(s, 1), 4);
    assert_eq!(cursor_down(s, 2), 5);
    assert_eq!(cursor_down(s, 5), 9);
    assert_eq!(cursor_down(s, 9), 9);
    assert_eq!(cursor_down("abc\né", 1), 4);
}

#[test]
fn selections_route_to_typed_leaves() {
    let entries = vec![
        VaultEntry { path: VaultPath::new("a.md").unwrap(), kind: FileKind::Markdown, size: 1 },
        VaultEntry { path: VaultPath::new("b.canvas").unwrap(), kind: FileKind::Canvas, size: 1 },
        VaultEntry { path: VaultPath::new("c.png").unwrap(), kind: FileKind::Image, size: 1 },
    ];
    assert_eq!(leaf_kind(None, &entries), LeafKind::Empty);
    let p = VaultPath::new("b.canvas").unwrap();
    assert_eq!(leaf_kind(Some(&p), &entries), LeafKind::Canvas);
    let p = VaultPath::new("c.png").unwrap();
    assert_eq!(leaf_kind(Some(&p), &entries), LeafKind::Media(FileKind::Image));
    let p = VaultPath::new("table.base").unwrap();
    assert_eq!(leaf_kind(Some(&p), &entries), LeafKind::Bases);
    let p = VaultPath::new("missing.md").unwrap();
    assert_eq!(leaf_kind(Some(&p), &entries), LeafKind::Empty);
}
