//! How the shell answers what its surfaces report: each explorer intent and
//! each surface event becomes the shell's next settings and one action for
//! the shell to carry out (opening, saving, filesystem work, window state).
use vstd::prelude::*;
use crate::editor_state::EditorEvent;
use crate::explorer_intents::{intent_label, ExplorerIntent, ExplorerSortMode, SortMode};
use crate::graph_view::GraphEvent;
use crate::markdown::ViewMode;
use crate::settings::SettingsEvent;
use crate::shell::{feature_set, toggles, FeatureToggle, SettingsState, Theme};
use crate::text::str_eq;
use crate::vault::{spec_vault_path, VaultPath};

verus! {

/// What the shell does in answer to an intent or an event.
#[derive(Debug)]
pub enum ShellAction {
    /// Nothing to do.
    Nothing,
    /// Open this vault path in the workspace.
    OpenPath(VaultPath),
    /// Open the explorer's active path in the workspace.
    OpenActivePath,
    CreateNote,
    CreateFolder,
    Rename { path: String, new_name: String },
    Delete { path: String },
    Move { path: String, destination: String },
    Duplicate { path: String, destination: String },
    /// Show this vault path in the system file manager.
    Reveal(VaultPath),
    /// Expand or collapse a folder of the explorer.
    SetExpanded { path: String, expanded: bool },
    SetFilter { value: String },
    SetSort(SortMode),
    /// Show this text in the status line.
    Status(String),
    /// Copy the editor surface's text into the open document.
    SyncEditorSource,
    SetViewMode(ViewMode),
    Save,
    /// Store the shell settings, and pass a theme name or the missing-files
    /// switch on to the launcher's settings.
    SaveSettings { launcher_theme: Option<String>, show_missing: Option<bool> },
    CloseSettings,
    /// Close the command palette and open the quick switcher.
    OpenQuickSwitcher,
    RunCommand(String),
    /// Open this vault path in the workspace and close the quick switcher.
    OpenFromSwitcher(VaultPath),
}

/// A shell action with its texts as character sequences.
pub enum ActionView {
    Nothing,
    OpenPath(Seq<char>),
    OpenActivePath,
    CreateNote,
    CreateFolder,
    Rename { path: Seq<char>, new_name: Seq<char> },
    Delete { path: Seq<char> },
    Move { path: Seq<char>, destination: Seq<char> },
    Duplicate { path: Seq<char>, destination: Seq<char> },
    Reveal(Seq<char>),
    SetExpanded { path: Seq<char>, expanded: bool },
    SetFilter { value: Seq<char> },
    SetSort(SortMode),
    Status(Seq<char>),
    SyncEditorSource,
    SetViewMode(ViewMode),
    Save,
    SaveSettings { launcher_theme: Option<Seq<char>>, show_missing: Option<bool> },
    CloseSettings,
    OpenQuickSwitcher,
    RunCommand(Seq<char>),
    OpenFromSwitcher(Seq<char>),
}

impl View for ShellAction {
    type V = ActionView;

    open spec fn view(&self) -> ActionView {
        match self {
            ShellAction::Nothing => ActionView::Nothing,
            ShellAction::OpenPath(p) => ActionView::OpenPath(p@),
            ShellAction::OpenActivePath => ActionView::OpenActivePath,
            ShellAction::CreateNote => ActionView::CreateNote,
            ShellAction::CreateFolder => ActionView::CreateFolder,
            ShellAction::Rename { path, new_name } => ActionView::Rename { path: path@, new_name: new_name@ },
            ShellAction::Delete { path } => ActionView::Delete { path: path@ },
            ShellAction::Move { path, destination } => ActionView::Move { path: path@, destination: destination@ },
            ShellAction::Duplicate { path, destination } => ActionView::Duplicate {
                path: path@,
                destination: destination@,
            },
            ShellAction::Reveal(p) => ActionView::Reveal(p@),
            ShellAction::SetExpanded { path, expanded } => ActionView::SetExpanded { path: path@, expanded: *expanded },
            ShellAction::SetFilter { value } => ActionView::SetFilter { value: value@ },
            ShellAction::SetSort(m) => ActionView::SetSort(*m),
            ShellAction::Status(t) => ActionView::Status(t@),
            ShellAction::SyncEditorSource => ActionView::SyncEditorSource,
            ShellAction::SetViewMode(m) => ActionView::SetViewMode(*m),
            ShellAction::Save => ActionView::Save,
            ShellAction::SaveSettings { launcher_theme, show_missing } => ActionView::SaveSettings {
                launcher_theme: match launcher_theme {
                    Some(t) => Some(t@),
                    None => None,
                },
                show_missing: *show_missing,
            },
            ShellAction::CloseSettings => ActionView::CloseSettings,
            ShellAction::OpenQuickSwitcher => ActionView::OpenQuickSwitcher,
            ShellAction::RunCommand(c) => ActionView::RunCommand(c@),
            ShellAction::OpenFromSwitcher(p) => ActionView::OpenFromSwitcher(p@),
        }
    }
}

/// The explorer's sort order for a sort choice: sorting by kind sorts by name.
pub open spec fn sort_for(mode: ExplorerSortMode) -> SortMode {
    match mode {
        ExplorerSortMode::Name => SortMode::Name,
        ExplorerSortMode::Modified => SortMode::Modified,
        ExplorerSortMode::Created => SortMode::Created,
        ExplorerSortMode::Kind => SortMode::Name,
    }
}

/// Opening `p`: the normalized vault path when `p` is a valid one, else nothing.
pub open spec fn open_action(p: Seq<char>) -> ActionView {
    match spec_vault_path(p) {
        Some(n) => ActionView::OpenPath(n),
        None => ActionView::Nothing,
    }
}

/// The action that answers an explorer intent; an intent the shell does not
/// handle is reported as deferred in the status line.
pub open spec fn explorer_action_spec(i: ExplorerIntent) -> ActionView {
    match i {
        ExplorerIntent::Select { path } => open_action(path@),
        ExplorerIntent::Open { path } => open_action(path@),
        ExplorerIntent::Activate => ActionView::OpenActivePath,
        ExplorerIntent::NewNote { .. } => ActionView::CreateNote,
        ExplorerIntent::NewFolder { .. } => ActionView::CreateFolder,
        ExplorerIntent::Rename { path, new_name } => ActionView::Rename { path: path@, new_name: new_name@ },
        ExplorerIntent::Delete { path } => ActionView::Delete { path: path@ },
        ExplorerIntent::Move { path, destination } => ActionView::Move { path: path@, destination: destination@ },
        ExplorerIntent::DragMove { source, destination } => ActionView::Move { path: source@, destination: destination@ },
        ExplorerIntent::Duplicate { path, destination } => ActionView::Duplicate {
            path: path@,
            destination: destination@,
        },
        ExplorerIntent::Reveal { path } => match spec_vault_path(path@) {
            Some(n) => ActionView::Reveal(n),
            None => ActionView::Nothing,
        },
        ExplorerIntent::Toggle { path, expanded } => ActionView::SetExpanded { path: path@, expanded },
        ExplorerIntent::SetFilter { value } => ActionView::SetFilter { value: value@ },
        ExplorerIntent::SetSort { mode } => ActionView::SetSort(sort_for(mode)),
        ExplorerIntent::ContextMenu { .. } => ActionView::Status("Explorer intent deferred: "@ + intent_label(i)),
    }
}

fn open_path(p: &str) -> (r: ShellAction)
    ensures
        r@ == open_action(p@),
{
    match VaultPath::new(p) {
        Ok(v) => ShellAction::OpenPath(v),
        Err(_) => ShellAction::Nothing,
    }
}

/// The action that answers an explorer intent.
pub fn explorer_action(intent: &ExplorerIntent) -> (r: ShellAction)
    ensures
        r@ == explorer_action_spec(*intent),
{
    match intent {
        ExplorerIntent::Select { path } => open_path(path.as_str()),
        ExplorerIntent::Open { path } => open_path(path.as_str()),
        ExplorerIntent::Activate => ShellAction::OpenActivePath,
        ExplorerIntent::NewNote { .. } => ShellAction::CreateNote,
        ExplorerIntent::NewFolder { .. } => ShellAction::CreateFolder,
        ExplorerIntent::Rename { path, new_name } => ShellAction::Rename { path: path.clone(), new_name: new_name.clone() },
        ExplorerIntent::Delete { path } => ShellAction::Delete { path: path.clone() },
        ExplorerIntent::Move { path, destination } => ShellAction::Move {
            path: path.clone(),
            destination: destination.clone(),
        },
        ExplorerIntent::DragMove { source, destination } => ShellAction::Move {
            path: source.clone(),
            destination: destination.clone(),
        },
        ExplorerIntent::Duplicate { path, destination } => ShellAction::Duplicate {
            path: path.clone(),
            destination: destination.clone(),
        },
        ExplorerIntent::Reveal { path } => match VaultPath::new(path.as_str()) {
            Ok(v) => ShellAction::Reveal(v),
            Err(_) => ShellAction::Nothing,
        },
        ExplorerIntent::Toggle { path, expanded } => ShellAction::SetExpanded { path: path.clone(), expanded: *expanded },
        ExplorerIntent::SetFilter { value } => ShellAction::SetFilter { value: value.clone() },
        ExplorerIntent::SetSort { mode } => ShellAction::SetSort(
            match mode {
                ExplorerSortMode::Name => SortMode::Name,
                ExplorerSortMode::Modified => SortMode::Modified,
                ExplorerSortMode::Created => SortMode::Created,
                ExplorerSortMode::Kind => SortMode::Name,
            },
        ),
        ExplorerIntent::ContextMenu { .. } => {
            let mut t = "Explorer intent deferred: ".to_owned();
            t.append(intent.label());
            ShellAction::Status(t)
        },
    }
}

/// An event reported by one of the shell's surfaces.
pub enum SurfaceEvent {
    Graph(GraphEvent),
    Editor(EditorEvent),
    Settings(SettingsEvent),
    /// The command palette asks to run a command.
    PaletteCommand { command: String },
    /// The quick switcher asks to open a path.
    SwitcherOpen { path: String },
}

/// The shell feature that a settings plugin switches, if any.
pub open spec fn plugin_feature(id: Seq<char>) -> Option<Seq<char>> {
    if id == "global-search"@ {
        Some("Search"@)
    } else if id == "outline"@ {
        Some("Outline"@)
    } else if id == "properties"@ {
        Some("Properties"@)
    } else if id == "word-count"@ {
        Some("Word count"@)
    } else {
        None
    }
}

/// The shell's theme for a settings theme: dark stays dark, anything else is light.
pub open spec fn shell_theme(t: crate::settings::Theme) -> Theme {
    if t == crate::settings::Theme::Dark {
        Theme::Dark
    } else {
        Theme::Light
    }
}

/// The shell settings as (theme, explorer shown, details shown, feature toggles).
pub type SettingsView = (Theme, bool, bool, Seq<(Seq<char>, bool)>);

pub open spec fn settings_view(s: SettingsState) -> SettingsView {
    (s.theme, s.show_left_sidebar, s.show_right_sidebar, toggles(s.features@))
}

/// The settings after an event: a theme change sets the theme, and a plugin
/// switch shows or hides a sidebar or switches a feature; nothing else changes them.
pub open spec fn settings_after(s: SettingsView, e: SurfaceEvent) -> SettingsView {
    match e {
        SurfaceEvent::Settings(SettingsEvent::ThemeChanged(t)) => (shell_theme(t), s.1, s.2, s.3),
        SurfaceEvent::Settings(SettingsEvent::PluginChanged { id, enabled }) => plugin_switched(s, id@, enabled),
        _ => s,
    }
}

/// The settings after the plugin `id` is switched: the explorer and the graph
/// show or hide a sidebar, four others switch a feature.
pub open spec fn plugin_switched(s: SettingsView, id: Seq<char>, enabled: bool) -> SettingsView {
    (
        s.0,
        if id == "file-explorer"@ { enabled } else { s.1 },
        if id == "graph"@ { enabled } else { s.2 },
        match plugin_feature(id) {
            Some(name) => feature_set(s.3, name, enabled),
            None => s.3,
        },
    )
}

/// The action that answers a surface event.
pub open spec fn surface_action(e: SurfaceEvent) -> ActionView {
    match e {
        SurfaceEvent::Graph(GraphEvent::Select(p)) => open_action(p@),
        SurfaceEvent::Graph(GraphEvent::Open(p)) => open_action(p@),
        SurfaceEvent::Editor(EditorEvent::Changed { .. }) => ActionView::SyncEditorSource,
        SurfaceEvent::Editor(EditorEvent::ModeChanged(m)) => ActionView::SetViewMode(m),
        SurfaceEvent::Editor(EditorEvent::SaveRequested) => ActionView::Save,
        SurfaceEvent::Editor(_) => ActionView::Nothing,
        SurfaceEvent::Settings(SettingsEvent::ThemeChanged(t)) => ActionView::SaveSettings {
            launcher_theme: Some(if t == crate::settings::Theme::Dark { "dark"@ } else { "light"@ }),
            show_missing: None,
        },
        SurfaceEvent::Settings(SettingsEvent::PluginChanged { enabled, .. }) => ActionView::SaveSettings {
            launcher_theme: None,
            show_missing: Some(enabled),
        },
        SurfaceEvent::Settings(SettingsEvent::CloseRequested) => ActionView::CloseSettings,
        SurfaceEvent::Settings(_) => ActionView::Nothing,
        SurfaceEvent::PaletteCommand { command } => if command@ == "quick-switcher"@ {
            ActionView::OpenQuickSwitcher
        } else {
            ActionView::RunCommand(command@)
        },
        SurfaceEvent::SwitcherOpen { path } => match spec_vault_path(path@) {
            Some(n) => ActionView::OpenFromSwitcher(n),
            None => ActionView::Nothing,
        },
    }
}

fn copy_settings(s: &SettingsState) -> (r: SettingsState)
    ensures
        settings_view(r) == settings_view(*s),
{
    let mut features: Vec<FeatureToggle> = Vec::new();
    let mut i: usize = 0;
    while i < s.features.len()
        invariant
            i <= s.features@.len(),
            features@ == s.features@.take(i as int),
        decreases s.features@.len() - i,
    {
        features.push(FeatureToggle { name: s.features[i].name, enabled: s.features[i].enabled });
        proof {
            assert(features@ =~= s.features@.take(i + 1));
        }
        i = i + 1;
    }
    proof {
        assert(s.features@.take(i as int) =~= s.features@);
    }
    SettingsState {
        theme: s.theme,
        show_left_sidebar: s.show_left_sidebar,
        show_right_sidebar: s.show_right_sidebar,
        features,
    }
}

fn apply_plugin(settings: &mut SettingsState, id: &str, enabled: bool)
    ensures
        settings_view(*final(settings)) == plugin_switched(settings_view(*old(settings)), id@, enabled),
{
    proof {
        reveal_strlit("file-explorer");
        reveal_strlit("graph");
        reveal_strlit("global-search");
        reveal_strlit("outline");
        reveal_strlit("properties");
        reveal_strlit("word-count");
        assert("file-explorer"@[0] != "global-search"@[0]);
        assert("properties"@[0] != "word-count"@[0]);
        assert("file-explorer"@ != "global-search"@);
        assert("properties"@ != "word-count"@);
        assert("graph"@.len() != "global-search"@.len());
        assert("graph"@.len() != "outline"@.len());
    }
    if str_eq(id, "file-explorer") {
        proof {
            assert(id@ != "global-search"@);
            assert(id@ != "outline"@);
            assert(id@ != "properties"@);
            assert(id@ != "word-count"@);
        }
        settings.show_left_sidebar = enabled;
    } else if str_eq(id, "graph") {
        proof {
            assert(id@ != "global-search"@);
            assert(id@ != "outline"@);
            assert(id@ != "properties"@);
            assert(id@ != "word-count"@);
        }
        settings.show_right_sidebar = enabled;
    } else if str_eq(id, "global-search") {
        settings.set_feature("Search", enabled);
    } else if str_eq(id, "outline") {
        settings.set_feature("Outline", enabled);
    } else if str_eq(id, "properties") {
        settings.set_feature("Properties", enabled);
    } else if str_eq(id, "word-count") {
        settings.set_feature("Word count", enabled);
    }
}

/// The shell's next settings and the action that answer a surface event.
pub fn route_surface_event(settings: &SettingsState, event: SurfaceEvent) -> (r: (SettingsState, ShellAction))
    ensures
        settings_view(r.0) == settings_after(settings_view(*settings), event),
        r.1@ == surface_action(event),
{
    let mut next = copy_settings(settings);
    let action = match event {
        SurfaceEvent::Graph(GraphEvent::Select(p)) => open_path(p.as_str()),
        SurfaceEvent::Graph(GraphEvent::Open(p)) => open_path(p.as_str()),
        SurfaceEvent::Editor(EditorEvent::Changed { .. }) => ShellAction::SyncEditorSource,
        SurfaceEvent::Editor(EditorEvent::ModeChanged(m)) => ShellAction::SetViewMode(m),
        SurfaceEvent::Editor(EditorEvent::SaveRequested) => ShellAction::Save,
        SurfaceEvent::Editor(_) => ShellAction::Nothing,
        SurfaceEvent::Settings(SettingsEvent::ThemeChanged(t)) => {
            let dark = match t {
                crate::settings::Theme::Dark => true,
                _ => false,
            };
            next.theme = if dark { Theme::Dark } else { Theme::Light };
            let name = if dark { "dark".to_owned() } else { "light".to_owned() };
            ShellAction::SaveSettings { launcher_theme: Some(name), show_missing: None }
        },
        SurfaceEvent::Settings(SettingsEvent::PluginChanged { id, enabled }) => {
            apply_plugin(&mut next, id.as_str(), enabled);
            ShellAction::SaveSettings { launcher_theme: None, show_missing: Some(enabled) }
        },
        SurfaceEvent::Settings(SettingsEvent::CloseRequested) => ShellAction::CloseSettings,
        SurfaceEvent::Settings(_) => ShellAction::Nothing,
        SurfaceEvent::PaletteCommand { command } => {
            if str_eq(command.as_str(), "quick-switcher") {
                ShellAction::OpenQuickSwitcher
            } else {
                ShellAction::RunCommand(command)
            }
        },
        SurfaceEvent::SwitcherOpen { path } => match VaultPath::new(path.as_str()) {
            Ok(v) => ShellAction::OpenFromSwitcher(v),
            Err(_) => ShellAction::Nothing,
        },
    };
    (next, action)
}

} // verus!
