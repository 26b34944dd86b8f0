use tachylyte::editor_state::EditorEvent;
use tachylyte::explorer_intents::{ExplorerIntent, ExplorerSortMode, SortMode};
use tachylyte::graph_view::GraphEvent;
use tachylyte::markdown::ViewMode;
use tachylyte::routing::{explorer_action, route_surface_event, ShellAction, SurfaceEvent};
use tachylyte::settings::{SettingsEvent, Theme as SettingsTheme};
use tachylyte::shell::{SettingsState, Theme};

fn opened(a: &ShellAction) -> Option<String> {
    match a {
        ShellAction::OpenPath(p) => Some(p.as_path().to_owned()),
        _ => None,
    }
}

#[test]
fn explorer_opens_normalized_paths_and_skips_invalid_ones() {
    let a = explorer_action(&ExplorerIntent::Open { path: "notes/./a.md".into() });
    assert_eq!(opened(&a), Some("notes/a.md".to_owned()));
    let a = explorer_action(&ExplorerIntent::Select { path: "../x.md".into() });
    assert!(matches!(a, ShellAction::Nothing));
    assert!(matches!(explorer_action(&ExplorerIntent::Activate), ShellAction::OpenActivePath));
}

#[test]
fn explorer_sort_by_kind_sorts_by_name() {
    for (m, want) in [
        (ExplorerSortMode::Kind, SortMode::Name),
        (ExplorerSortMode::Name, SortMode::Name),
        (ExplorerSortMode::Modified, SortMode::Modified),
        (ExplorerSortMode::Created, SortMode::Created),
    ] {
        match explorer_action(&ExplorerIntent::SetSort { mode: m }) {
            ShellAction::SetSort(got) => assert_eq!(got, want),
            _ => panic!("not a sort action"),
        }
    }
}

#[test]
fn explorer_context_menu_is_deferred() {
    match explorer_action(&ExplorerIntent::ContextMenu { path: None }) {
        ShellAction::Status(t) => assert_eq!(t, "Explorer intent deferred: Context menu"),
        _ => panic!("not a status"),
    }
    match explorer_action(&ExplorerIntent::DragMove { source: "a.md".into(), destination: "b".into() }) {
        ShellAction::Move { path, destination } => {
            assert_eq!(path, "a.md");
            assert_eq!(destination, "b");
        },
        _ => panic!("not a move"),
    }
}

#[test]
fn theme_change_sets_the_shell_theme_and_tells_the_launcher() {
    let s = SettingsState::default();
    let (next, action) = route_surface_event(&s, SurfaceEvent::Settings(SettingsEvent::ThemeChanged(SettingsTheme::Dark)));
    assert_eq!(next.theme, Theme::Dark);
    match action {
        ShellAction::SaveSettings { launcher_theme, show_missing } => {
            assert_eq!(launcher_theme.as_deref(), Some("dark"));
            assert_eq!(show_missing, None);
        },
        _ => panic!("not a save"),
    }
    let (next, _) = route_surface_event(&next, SurfaceEvent::Settings(SettingsEvent::ThemeChanged(SettingsTheme::System)));
    assert_eq!(next.theme, Theme::Light);
}

#[test]
fn plugin_switches_map_to_sidebars_and_features() {
    let s = SettingsState::default();
    let ev = |id: &str, enabled: bool| SurfaceEvent::Settings(SettingsEvent::PluginChanged { id: id.into(), enabled });
    let (next, action) = route_surface_event(&s, ev("file-explorer", false));
    assert!(!next.show_left_sidebar && next.show_right_sidebar);
    assert!(matches!(action, ShellAction::SaveSettings { launcher_theme: None, show_missing: Some(false) }));
    let (next, _) = route_surface_event(&next, ev("graph", false));
    assert!(!next.show_right_sidebar);
    let (next, _) = route_surface_event(&next, ev("word-count", false));
    assert!(!next.feature_enabled("Word count"));
    assert!(next.feature_enabled("Search"));
    let (next, _) = route_surface_event(&next, ev("unknown", false));
    assert!(next.feature_enabled("Search") && next.feature_enabled("Outline"));
}

#[test]
fn palette_switcher_graph_and_editor_events() {
    let s = SettingsState::default();
    let (_, a) = route_surface_event(&s, SurfaceEvent::PaletteCommand { command: "quick-switcher".into() });
    assert!(matches!(a, ShellAction::OpenQuickSwitcher));
    let (_, a) = route_surface_event(&s, SurfaceEvent::PaletteCommand { command: "save".into() });
    assert!(matches!(a, ShellAction::RunCommand(c) if c == "save"));
    let (_, a) = route_surface_event(&s, SurfaceEvent::SwitcherOpen { path: "a//b.md".into() });
    assert!(matches!(a, ShellAction::OpenFromSwitcher(p) if p.as_path() == "a/b.md"));
    let (_, a) = route_surface_event(&s, SurfaceEvent::Graph(GraphEvent::Open("x.md".into())));
    assert_eq!(opened(&a), Some("x.md".to_owned()));
    let (_, a) = route_surface_event(&s, SurfaceEvent::Editor(EditorEvent::ModeChanged(ViewMode::Reading)));
    assert!(matches!(a, ShellAction::SetViewMode(ViewMode::Reading)));
    let (_, a) = route_surface_event(&s, SurfaceEvent::Editor(EditorEvent::FindChanged));
    assert!(matches!(a, ShellAction::Nothing));
    let (_, a) = route_surface_event(&s, SurfaceEvent::Settings(SettingsEvent::CloseRequested));
    assert!(matches!(a, ShellAction::CloseSettings));
}
