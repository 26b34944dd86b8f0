use tachylyte::settings::{Category, Settings, SettingsEvent, Theme};

#[test]
fn defaults_are_obsidian_like() {
    let s = Settings::default();
    assert_eq!(s.theme, Theme::Light);
    assert_eq!(s.plugins.len(), 30);
    assert!(s.plugins.iter().all(|p| p.enabled));
}

#[test]
fn filtering_and_events_work() {
    let mut s = Settings::default();
    s.set_search("graph");
    assert_eq!(s.filtered_plugins()[0].id, "graph");
    s.set_theme(Theme::Dark);
    assert!(matches!(
        s.drain_events()[1],
        SettingsEvent::ThemeChanged(Theme::Dark)
    ));
}

#[test]
fn search_ignores_control_characters() {
    let mut s = Settings::default();
    s.set_search("gr\n\0ap\u{7}h");
    assert_eq!(s.search(), "graph");
    assert_eq!(
        s.drain_events(),
        vec![SettingsEvent::SearchChanged("graph".into())]
    );
}

#[test]
fn defaults_and_categories_are_exposed() {
    let settings = Settings::default();
    assert_eq!(settings.category, Category::Appearance);
    assert_eq!(settings.theme, Theme::Light);
    assert!(settings.search().is_empty());
    assert_eq!(Category::all().len(), 6);
    assert_eq!(Category::all()[0].label(), "About");
    assert_eq!(Category::all()[5].label(), "Core plugins");
    assert!(!settings.plugins.is_empty());
    assert!(settings.plugins.iter().all(|plugin| plugin.enabled));
}

#[test]
fn search_filters_plugins_case_insensitively() {
    let mut settings = Settings::default();
    settings.set_search("GrApH");
    let plugins = settings.filtered_plugins();
    assert_eq!(plugins.len(), 1);
    assert_eq!(plugins[0].id, "graph");
}

#[test]
fn search_control_characters_are_ignored() {
    let mut settings = Settings::default();
    settings.set_search("graph\u{0000}");
    assert_eq!(settings.search(), "graph");
    assert_eq!(settings.filtered_plugins().len(), 1);
    assert_eq!(
        settings.drain_events(),
        vec![SettingsEvent::SearchChanged("graph".into())]
    );
}

#[test]
fn draining_without_new_changes_is_stably_neutral() {
    let mut settings = Settings::default();
    assert!(settings.drain_events().is_empty());
    settings.set_search("graph");
    assert_eq!(
        settings.drain_events(),
        vec![SettingsEvent::SearchChanged("graph".into())]
    );
    assert!(settings.drain_events().is_empty());
    settings.set_plugin_enabled("does-not-exist", false);
    assert!(settings.drain_events().is_empty());
}

#[test]
fn plugin_toggle_emits_a_neutral_event() {
    let mut settings = Settings::default();
    settings.set_plugin_enabled("graph", false);
    assert!(
        !settings
            .plugins
            .iter()
            .find(|plugin| plugin.id == "graph")
            .unwrap()
            .enabled
    );
    assert_eq!(
        settings.drain_events(),
        vec![SettingsEvent::PluginChanged {
            id: "graph".into(),
            enabled: false,
        }]
    );
}

#[test]
fn close_emits_close_event() {
    let mut settings = Settings::default();
    settings.request_close();
    assert_eq!(settings.drain_events(), vec![SettingsEvent::CloseRequested]);
}

#[test]
fn hotkeys_rebind_and_filter() {
    let mut s = Settings::new();
    s.set_hotkey("search".into(), Some("Ctrl+K".into()));
    assert_eq!(s.hotkeys.iter().find(|h| h.id == "search").unwrap().shortcut.as_deref(), Some("Ctrl+K"));
    s.toggle_plugin_by_name("Graph view");
    assert!(!s.plugins.iter().find(|p| p.id == "graph").unwrap().enabled);
    s.set_search("PALETTE");
    assert_eq!(s.filtered_hotkeys().len(), 1);
    s.toggle_spellcheck();
    assert!(!s.editor.spellcheck);
}

#[test]
fn toggle_plugin_by_name_announces_the_change_and_ignores_unknown_labels() {
    let mut s = Settings::new();
    let _ = s.drain_events();
    s.toggle_plugin_by_name("No such plugin");
    assert!(s.drain_events().is_empty());
    s.toggle_plugin_by_name("Graph view");
    s.toggle_plugin_by_name("Graph view");
    let events = s.drain_events();
    assert_eq!(
        events,
        vec![
            SettingsEvent::PluginChanged { id: "graph".into(), enabled: false },
            SettingsEvent::PluginChanged { id: "graph".into(), enabled: true },
        ]
    );
    assert!(s.plugins.iter().find(|p| p.id == "graph").unwrap().enabled);
}
