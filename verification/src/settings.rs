//! State and events for the settings window.
use vstd::prelude::*;
use crate::text::{char_is_control, chars_of, contains_seq, contains_text, is_control, lowercase, str_eq, to_lowercase};

verus! {

#[derive(Clone, Copy, Debug, Eq, PartialEq, Structural)]
pub enum Category {
    About,
    FilesAndLinks,
    Appearance,
    Editor,
    Hotkeys,
    CorePlugins,
}

pub open spec fn category_label(c: Category) -> Seq<char> {
    match c {
        Category::About => "About"@,
        Category::FilesAndLinks => "Files and links"@,
        Category::Appearance => "Appearance"@,
        Category::Editor => "Editor"@,
        Category::Hotkeys => "Hotkeys"@,
        Category::CorePlugins => "Core plugins"@,
    }
}

impl Category {
    /// Every category, in sidebar order.
    pub fn all() -> (a: [Category; 6])
        ensures
            a@ == seq![Category::About, Category::FilesAndLinks, Category::Appearance, Category::Editor, Category::Hotkeys, Category::CorePlugins],
    {
        let a = [Category::About, Category::FilesAndLinks, Category::Appearance, Category::Editor, Category::Hotkeys, Category::CorePlugins];
        proof {
            assert(a@ =~= seq![Category::About, Category::FilesAndLinks, Category::Appearance, Category::Editor, Category::Hotkeys, Category::CorePlugins]);
        }
        a
    }

    pub fn label(self) -> (s: &'static str)
        ensures
            s@ == category_label(self),
    {
        match self {
            Category::About => "About",
            Category::FilesAndLinks => "Files and links",
            Category::Appearance => "Appearance",
            Category::Editor => "Editor",
            Category::Hotkeys => "Hotkeys",
            Category::CorePlugins => "Core plugins",
        }
    }
}

#[derive(Clone, Copy, Debug, Eq, PartialEq, Structural)]
pub enum Theme {
    Light,
    System,
    Dark,
}

impl Default for Theme {
    fn default() -> (t: Self)
        ensures
            t == Theme::Light,
    {
        Theme::Light
    }
}

#[derive(Clone, Debug, Eq, PartialEq)]
pub struct Hotkey {
    pub id: &'static str,
    pub label: &'static str,
    pub shortcut: Option<String>,
}

#[derive(Clone, Copy, Debug, Eq, PartialEq, Structural)]
pub struct EditorSettings {
    pub spellcheck: bool,
    pub readable_line_length: bool,
    pub strict_line_breaks: bool,
    pub fold_heading: bool,
    pub fold_indent: bool,
}

#[derive(Clone, Copy, Debug, Eq, PartialEq, Structural)]
pub enum NewNoteLocation {
    Root,
    CurrentFolder,
    SpecifiedFolder,
}

impl Default for NewNoteLocation {
    fn default() -> (l: Self)
        ensures
            l == NewNoteLocation::Root,
    {
        NewNoteLocation::Root
    }
}

#[derive(Clone, Copy, Debug, Eq, PartialEq, Structural)]
pub enum NewLinkFormat {
    ShortestPath,
    RelativePath,
    AbsolutePath,
}

impl Default for NewLinkFormat {
    fn default() -> (f: Self)
        ensures
            f == NewLinkFormat::ShortestPath,
    {
        NewLinkFormat::ShortestPath
    }
}

#[derive(Clone, Copy, Debug, Eq, PartialEq, Structural)]
pub struct FilesAndLinksSettings {
    pub confirm_file_deletion: bool,
    pub default_new_note_location: NewNoteLocation,
    pub new_link_format: NewLinkFormat,
}

#[derive(Clone, Debug, Eq, PartialEq)]
pub enum SettingsEvent {
    CategoryChanged(Category),
    ThemeChanged(Theme),
    AccentChanged(String),
    EditorChanged(EditorSettings),
    FilesAndLinksChanged(FilesAndLinksSettings),
    HotkeyChanged { id: String, shortcut: Option<String> },
    PluginChanged { id: String, enabled: bool },
    SearchChanged(String),
    CloseRequested,
}

#[derive(Clone, Debug, Eq, PartialEq)]
pub struct CorePlugin {
    pub id: &'static str,
    pub label: &'static str,
    pub enabled: bool,
}

/// The default hotkeys: identifier, label and shortcut.
pub open spec fn hotkey_table() -> Seq<(Seq<char>, Seq<char>, Seq<char>)> {
    seq![
        ("open-settings"@, "Open settings"@, "Ctrl+,"@),
        ("toggle-sidebar"@, "Toggle sidebar"@, "Ctrl+\\"@),
        ("quick-switcher"@, "Quick switcher"@, "Ctrl+O"@),
        ("command-palette"@, "Command palette"@, "Ctrl+P"@),
        ("search"@, "Search in all files"@, "Ctrl+Shift+F"@),
        ("close-pane"@, "Close current pane"@, "Ctrl+W"@)
    ]
}

/// The built-in plugins: identifier and label.
pub open spec fn plugin_table() -> Seq<(Seq<char>, Seq<char>)> {
    seq![
        ("file-explorer"@, "File explorer"@),
        ("global-search"@, "Global search"@),
        ("switcher"@, "Quick switcher"@),
        ("graph"@, "Graph view"@),
        ("backlink"@, "Backlinks"@),
        ("canvas"@, "Canvas"@),
        ("outgoing-link"@, "Outgoing links"@),
        ("tag-pane"@, "Tags view"@),
        ("page-preview"@, "Page preview"@),
        ("daily-notes"@, "Daily notes"@),
        ("templates"@, "Templates"@),
        ("note-composer"@, "Note composer"@),
        ("command-palette"@, "Command palette"@),
        ("slash-command"@, "Slash commands"@),
        ("random-note"@, "Random note"@),
        ("outline"@, "Outline"@),
        ("word-count"@, "Word count"@),
        ("audio-recorder"@, "Audio recorder"@),
        ("workspaces"@, "Workspaces"@),
        ("file-recovery"@, "File recovery"@),
        ("unique-note-creator"@, "Unique note creator"@),
        ("properties"@, "Properties view"@),
        ("bookmarks"@, "Bookmarks"@),
        ("footnotes"@, "Footnotes"@),
        ("markdown-importer"@, "Markdown importer"@),
        ("slides"@, "Slides"@),
        ("publish"@, "Publish"@),
        ("sync"@, "Sync"@),
        ("webviewer"@, "Web viewer"@),
        ("bases"@, "Bases"@)
    ]
}

fn default_hotkeys() -> (v: Vec<Hotkey>)
    ensures
        v@.len() == hotkey_table().len(),
        forall|i: int| 0 <= i < v@.len() ==> (#[trigger] v@[i]).id@ == hotkey_table()[i].0 && v@[i].label@ == hotkey_table()[i].1
            && (v@[i].shortcut matches Some(s) && s@ == hotkey_table()[i].2),
{
    let mut v: Vec<Hotkey> = Vec::new();
    v.push(Hotkey { id: "open-settings", label: "Open settings", shortcut: Some("Ctrl+,".to_owned()) });
    v.push(Hotkey { id: "toggle-sidebar", label: "Toggle sidebar", shortcut: Some("Ctrl+\\".to_owned()) });
    v.push(Hotkey { id: "quick-switcher", label: "Quick switcher", shortcut: Some("Ctrl+O".to_owned()) });
    v.push(Hotkey { id: "command-palette", label: "Command palette", shortcut: Some("Ctrl+P".to_owned()) });
    v.push(Hotkey { id: "search", label: "Search in all files", shortcut: Some("Ctrl+Shift+F".to_owned()) });
    v.push(Hotkey { id: "close-pane", label: "Close current pane", shortcut: Some("Ctrl+W".to_owned()) });
    v
}

fn default_plugins() -> (v: Vec<CorePlugin>)
    ensures
        v@.len() == plugin_table().len(),
        forall|i: int| 0 <= i < v@.len() ==> (#[trigger] v@[i]).id@ == plugin_table()[i].0 && v@[i].label@ == plugin_table()[i].1 && v@[i].enabled,
{
    let mut v: Vec<CorePlugin> = Vec::new();
    v.push(CorePlugin { id: "file-explorer", label: "File explorer", enabled: true });
    v.push(CorePlugin { id: "global-search", label: "Global search", enabled: true });
    v.push(CorePlugin { id: "switcher", label: "Quick switcher", enabled: true });
    v.push(CorePlugin { id: "graph", label: "Graph view", enabled: true });
    v.push(CorePlugin { id: "backlink", label: "Backlinks", enabled: true });
    v.push(CorePlugin { id: "canvas", label: "Canvas", enabled: true });
    v.push(CorePlugin { id: "outgoing-link", label: "Outgoing links", enabled: true });
    v.push(CorePlugin { id: "tag-pane", label: "Tags view", enabled: true });
    v.push(CorePlugin { id: "page-preview", label: "Page preview", enabled: true });
    v.push(CorePlugin { id: "daily-notes", label: "Daily notes", enabled: true });
    v.push(CorePlugin { id: "templates", label: "Templates", enabled: true });
    v.push(CorePlugin { id: "note-composer", label: "Note composer", enabled: true });
    v.push(CorePlugin { id: "command-palette", label: "Command palette", enabled: true });
    v.push(CorePlugin { id: "slash-command", label: "Slash commands", enabled: true });
    v.push(CorePlugin { id: "random-note", label: "Random note", enabled: true });
    v.push(CorePlugin { id: "outline", label: "Outline", enabled: true });
    v.push(CorePlugin { id: "word-count", label: "Word count", enabled: true });
    v.push(CorePlugin { id: "audio-recorder", label: "Audio recorder", enabled: true });
    v.push(CorePlugin { id: "workspaces", label: "Workspaces", enabled: true });
    v.push(CorePlugin { id: "file-recovery", label: "File recovery", enabled: true });
    v.push(CorePlugin { id: "unique-note-creator", label: "Unique note creator", enabled: true });
    v.push(CorePlugin { id: "properties", label: "Properties view", enabled: true });
    v.push(CorePlugin { id: "bookmarks", label: "Bookmarks", enabled: true });
    v.push(CorePlugin { id: "footnotes", label: "Footnotes", enabled: true });
    v.push(CorePlugin { id: "markdown-importer", label: "Markdown importer", enabled: true });
    v.push(CorePlugin { id: "slides", label: "Slides", enabled: true });
    v.push(CorePlugin { id: "publish", label: "Publish", enabled: true });
    v.push(CorePlugin { id: "sync", label: "Sync", enabled: true });
    v.push(CorePlugin { id: "webviewer", label: "Web viewer", enabled: true });
    v.push(CorePlugin { id: "bases", label: "Bases", enabled: true });
    v
}

/// The observable state of [`Settings`] other than its search text and events.
pub struct SettingsView {
    pub category: Category,
    pub theme: Theme,
    pub accent: Seq<char>,
    pub editor: EditorSettings,
    pub files_and_links: FilesAndLinksSettings,
    pub hotkeys: Seq<Hotkey>,
    pub plugins: Seq<CorePlugin>,
}

#[derive(Clone, Debug)]
pub struct Settings {
    pub category: Category,
    pub theme: Theme,
    pub accent: String,
    pub editor: EditorSettings,
    pub files_and_links: FilesAndLinksSettings,
    pub hotkeys: Vec<Hotkey>,
    pub plugins: Vec<CorePlugin>,
    search: String,
    events: Vec<SettingsEvent>,
}

/// The characters of `s` that are not control characters.
pub open spec fn without_controls(s: Seq<char>) -> Seq<char> {
    s.filter(|c: char| !is_control(c))
}

/// Whether an entry with this label and identifier passes the filter `q` (already lowercased).
pub open spec fn passes_filter(q: Seq<char>, label: Seq<char>, id: Seq<char>) -> bool {
    q.len() == 0 || contains_seq(lowercase(label), q) || contains_seq(id, q)
}

impl View for Settings {
    type V = SettingsView;

    closed spec fn view(&self) -> SettingsView {
        SettingsView {
            category: self.category,
            theme: self.theme,
            accent: self.accent@,
            editor: self.editor,
            files_and_links: self.files_and_links,
            hotkeys: self.hotkeys@,
            plugins: self.plugins@,
        }
    }
}

impl Default for Settings {
    fn default() -> (s: Self)
        ensures
            s.is_default(),
    {
        Settings {
            category: Category::Appearance,
            theme: Theme::Light,
            accent: "#7c3aed".to_owned(),
            editor: EditorSettings { spellcheck: true, readable_line_length: false, strict_line_breaks: false, fold_heading: true, fold_indent: true },
            files_and_links: FilesAndLinksSettings {
                confirm_file_deletion: true,
                default_new_note_location: NewNoteLocation::Root,
                new_link_format: NewLinkFormat::ShortestPath,
            },
            hotkeys: default_hotkeys(),
            plugins: default_plugins(),
            search: String::new(),
            events: Vec::new(),
        }
    }
}

impl Settings {
    /// Whether this is the initial state: Appearance category, light theme,
    /// the default accent and editor options, every built-in hotkey and plugin
    /// (plugins enabled), no search and no events.
    pub closed spec fn is_default(&self) -> bool {
        &&& self.category == Category::Appearance
        &&& self.theme == Theme::Light
        &&& self.accent@ == "#7c3aed"@
        &&& self.editor == (EditorSettings { spellcheck: true, readable_line_length: false, strict_line_breaks: false, fold_heading: true, fold_indent: true })
        &&& self.files_and_links == (FilesAndLinksSettings {
            confirm_file_deletion: true,
            default_new_note_location: NewNoteLocation::Root,
            new_link_format: NewLinkFormat::ShortestPath,
        })
        &&& self.hotkeys@.len() == hotkey_table().len()
        &&& forall|i: int| 0 <= i < self.hotkeys@.len() ==> (#[trigger] self.hotkeys@[i]).id@ == hotkey_table()[i].0
        &&& self.plugins@.len() == plugin_table().len()
        &&& forall|i: int| 0 <= i < self.plugins@.len() ==> (#[trigger] self.plugins@[i]).id@ == plugin_table()[i].0
            && self.plugins@[i].label@ == plugin_table()[i].1 && self.plugins@[i].enabled
        &&& self.search@.len() == 0
        &&& self.events@.len() == 0
    }

    /// The current search text.
    pub closed spec fn search_view(&self) -> Seq<char> {
        self.search@
    }

    /// The pending events, oldest first.
    pub closed spec fn events_view(&self) -> Seq<SettingsEvent> {
        self.events@
    }

    pub fn new() -> (s: Self)
        ensures
            s.is_default(),
            s@.category == Category::Appearance,
            s@.theme == Theme::Light,
            s@.plugins.len() == plugin_table().len(),
            forall|i: int| 0 <= i < s@.plugins.len() ==> (#[trigger] s@.plugins[i]).enabled,
            s.search_view().len() == 0,
            s.events_view().len() == 0,
    {
        Self::default()
    }

    pub fn search(&self) -> (s: &str)
        ensures
            s@ == self.search_view(),
    {
        self.search.as_str()
    }

    pub fn set_category(&mut self, category: Category)
        ensures
            final(self)@.category == category,
            final(self).events_view() == old(self).events_view().push(SettingsEvent::CategoryChanged(category)),
            final(self).search_view() == old(self).search_view(),
    {
        self.category = category;
        self.events.push(SettingsEvent::CategoryChanged(category));
    }

    pub fn set_theme(&mut self, theme: Theme)
        ensures
            final(self)@.theme == theme,
            final(self).events_view() == old(self).events_view().push(SettingsEvent::ThemeChanged(theme)),
            final(self).search_view() == old(self).search_view(),
    {
        self.theme = theme;
        self.events.push(SettingsEvent::ThemeChanged(theme));
    }

    pub fn set_accent(&mut self, accent: &str)
        ensures
            final(self)@.accent == accent@,
            final(self).events_view().len() == old(self).events_view().len() + 1,
            final(self).events_view().take(old(self).events_view().len() as int) == old(self).events_view(),
            final(self).events_view().last() matches SettingsEvent::AccentChanged(a) && a@ == accent@,
            final(self).search_view() == old(self).search_view(),
    {
        self.accent = accent.to_owned();
        self.events.push(SettingsEvent::AccentChanged(accent.to_owned()));
        proof {
            assert(self.events@.take(old(self).events@.len() as int) =~= old(self).events@);
        }
    }

    /// Sets the search text with control characters removed, and announces it.
    pub fn set_search(&mut self, search: &str)
        ensures
            final(self).search_view() == without_controls(search@),
            final(self).events_view().len() == old(self).events_view().len() + 1,
            final(self).events_view().take(old(self).events_view().len() as int) == old(self).events_view(),
            final(self).events_view().last() matches SettingsEvent::SearchChanged(s) && s@ == without_controls(search@),
    {
        let cs = chars_of(search);
        let mut out = String::new();
        let mut i: usize = 0;
        while i < cs.len()
            invariant
                i <= cs@.len(),
                cs@ == search@,
                out@ == without_controls(cs@.take(i as int)),
            decreases cs@.len() - i,
        {
            proof {
                reveal(Seq::filter);
                assert(cs@.take(i + 1).drop_last() =~= cs@.take(i as int));
            }
            if !char_is_control(cs[i]) {
                crate::text::push_char(&mut out, cs[i]);
            }
            proof {
                assert(out@ =~= without_controls(cs@.take(i + 1)));
            }
            i = i + 1;
        }
        proof {
            assert(cs@.take(cs@.len() as int) =~= cs@);
        }
        let announced = out.clone();
        self.search = out;
        self.events.push(SettingsEvent::SearchChanged(announced));
        proof {
            assert(self.events@.take(old(self).events@.len() as int) =~= old(self).events@);
        }
    }

    pub fn set_editor(&mut self, editor: EditorSettings)
        ensures
            final(self)@.editor == editor,
            final(self).events_view() == old(self).events_view().push(SettingsEvent::EditorChanged(editor)),
            final(self).search_view() == old(self).search_view(),
    {
        self.editor = editor;
        self.events.push(SettingsEvent::EditorChanged(editor));
    }

    pub fn toggle_spellcheck(&mut self)
        ensures
            final(self)@.editor == (EditorSettings { spellcheck: !old(self)@.editor.spellcheck, ..old(self)@.editor }),
            final(self).events_view() == old(self).events_view().push(SettingsEvent::EditorChanged(final(self)@.editor)),
    {
        let mut editor = self.editor;
        editor.spellcheck = !editor.spellcheck;
        self.set_editor(editor);
    }

    pub fn toggle_readable_line_length(&mut self)
        ensures
            final(self)@.editor == (EditorSettings { readable_line_length: !old(self)@.editor.readable_line_length, ..old(self)@.editor }),
            final(self).events_view() == old(self).events_view().push(SettingsEvent::EditorChanged(final(self)@.editor)),
    {
        let mut editor = self.editor;
        editor.readable_line_length = !editor.readable_line_length;
        self.set_editor(editor);
    }

    pub fn toggle_strict_line_breaks(&mut self)
        ensures
            final(self)@.editor == (EditorSettings { strict_line_breaks: !old(self)@.editor.strict_line_breaks, ..old(self)@.editor }),
            final(self).events_view() == old(self).events_view().push(SettingsEvent::EditorChanged(final(self)@.editor)),
    {
        let mut editor = self.editor;
        editor.strict_line_breaks = !editor.strict_line_breaks;
        self.set_editor(editor);
    }

    pub fn toggle_fold_heading(&mut self)
        ensures
            final(self)@.editor == (EditorSettings { fold_heading: !old(self)@.editor.fold_heading, ..old(self)@.editor }),
            final(self).events_view() == old(self).events_view().push(SettingsEvent::EditorChanged(final(self)@.editor)),
    {
        let mut editor = self.editor;
        editor.fold_heading = !editor.fold_heading;
        self.set_editor(editor);
    }

    pub fn toggle_fold_indent(&mut self)
        ensures
            final(self)@.editor == (EditorSettings { fold_indent: !old(self)@.editor.fold_indent, ..old(self)@.editor }),
            final(self).events_view() == old(self).events_view().push(SettingsEvent::EditorChanged(final(self)@.editor)),
    {
        let mut editor = self.editor;
        editor.fold_indent = !editor.fold_indent;
        self.set_editor(editor);
    }

    pub fn set_files_and_links(&mut self, value: FilesAndLinksSettings)
        ensures
            final(self)@.files_and_links == value,
            final(self).events_view() == old(self).events_view().push(SettingsEvent::FilesAndLinksChanged(value)),
    {
        self.files_and_links = value;
        self.events.push(SettingsEvent::FilesAndLinksChanged(value));
    }

    /// Rebinds the first hotkey with this identifier (if any) and announces the change either way.
    pub fn set_hotkey(&mut self, id: String, shortcut: Option<String>)
        ensures
            final(self)@.hotkeys.len() == old(self)@.hotkeys.len(),
            forall|i: int| 0 <= i < old(self)@.hotkeys.len() ==> (#[trigger] final(self)@.hotkeys[i]).id == old(self)@.hotkeys[i].id,
            final(self).events_view().len() == old(self).events_view().len() + 1,
            final(self).events_view().take(old(self).events_view().len() as int) == old(self).events_view(),
            final(self).events_view().last() matches SettingsEvent::HotkeyChanged { id: i, shortcut: s } && i@ == id@ && s == shortcut,
    {
        let mut i: usize = 0;
        while i < self.hotkeys.len()
            invariant
                i <= self.hotkeys@.len(),
                self.hotkeys@ == old(self).hotkeys@,
                self.events@ == old(self).events@,
            decreases self.hotkeys@.len() - i,
        {
            if str_eq(self.hotkeys[i].id, id.as_str()) {
                let mut hotkeys = Vec::new();
                std::mem::swap(&mut hotkeys, &mut self.hotkeys);
                let h = Hotkey { id: hotkeys[i].id, label: hotkeys[i].label, shortcut: shortcut.clone() };
                hotkeys.set(i, h);
                self.hotkeys = hotkeys;
                self.events.push(SettingsEvent::HotkeyChanged { id, shortcut });
                proof {
                    assert(self.events@.take(old(self).events@.len() as int) =~= old(self).events@);
                }
                return;
            }
            i = i + 1;
        }
        self.events.push(SettingsEvent::HotkeyChanged { id, shortcut });
        proof {
            assert(self.events@.take(old(self).events@.len() as int) =~= old(self).events@);
        }
    }

    /// Switches the first plugin with this identifier and announces it; unknown identifiers do nothing.
    pub fn set_plugin_enabled(&mut self, id: &str, enabled: bool)
        ensures
            final(self)@.plugins.len() == old(self)@.plugins.len(),
            (forall|i: int| 0 <= i < old(self)@.plugins.len() ==> (#[trigger] old(self)@.plugins[i]).id@ != id@)
                ==> final(self)@.plugins == old(self)@.plugins && final(self).events_view() == old(self).events_view(),
            forall|i: int| 0 <= i < old(self)@.plugins.len() && (#[trigger] old(self)@.plugins[i]).id@ == id@
                && (forall|j: int| 0 <= j < i ==> (#[trigger] old(self)@.plugins[j]).id@ != id@) ==> {
                &&& final(self)@.plugins == old(self)@.plugins.update(i, CorePlugin { enabled, ..old(self)@.plugins[i] })
                &&& final(self).events_view().len() == old(self).events_view().len() + 1
                &&& final(self).events_view().take(old(self).events_view().len() as int) == old(self).events_view()
                &&& final(self).events_view().last() matches SettingsEvent::PluginChanged { id: e, enabled: b }
                &&& e@ == id@ && b == enabled
            },
            final(self)@ == (SettingsView { plugins: final(self)@.plugins, ..old(self)@ }),
            final(self).search_view() == old(self).search_view(),
    {
        let mut i: usize = 0;
        while i < self.plugins.len()
            invariant
                i <= self.plugins@.len(),
                *self == *old(self),
                forall|j: int| 0 <= j < i ==> (#[trigger] self.plugins@[j]).id@ != id@,
            decreases self.plugins@.len() - i,
        {
            if str_eq(self.plugins[i].id, id) {
                let mut plugins = Vec::new();
                std::mem::swap(&mut plugins, &mut self.plugins);
                let p = CorePlugin { id: plugins[i].id, label: plugins[i].label, enabled };
                plugins.set(i, p);
                self.plugins = plugins;
                self.events.push(SettingsEvent::PluginChanged { id: id.to_owned(), enabled });
                proof {
                    assert(self.events@.take(old(self).events@.len() as int) =~= old(self).events@);
                    assert forall|k: int| 0 <= k < old(self).plugins@.len() && (#[trigger] old(self).plugins@[k]).id@ == id@
                        && (forall|j: int| 0 <= j < k ==> (#[trigger] old(self).plugins@[j]).id@ != id@) implies k == i by {
                        if k > i {
                            assert(old(self).plugins@[i as int].id@ == id@);
                        }
                    }
                }
                return;
            }
            i = i + 1;
        }
    }

    /// Flips the first plugin with this identifier; unknown identifiers do nothing.
    pub fn toggle_plugin(&mut self, id: &str)
        ensures
            final(self)@.plugins.len() == old(self)@.plugins.len(),
            (forall|i: int| 0 <= i < old(self)@.plugins.len() ==> (#[trigger] old(self)@.plugins[i]).id@ != id@)
                ==> final(self)@.plugins == old(self)@.plugins && final(self).events_view() == old(self).events_view(),
            forall|i: int| 0 <= i < old(self)@.plugins.len() && (#[trigger] old(self)@.plugins[i]).id@ == id@
                && (forall|j: int| 0 <= j < i ==> (#[trigger] old(self)@.plugins[j]).id@ != id@)
                ==> {
                &&& final(self)@.plugins == old(self)@.plugins.update(i, CorePlugin { enabled: !old(self)@.plugins[i].enabled, ..old(self)@.plugins[i] })
                &&& final(self).events_view().len() == old(self).events_view().len() + 1
                &&& final(self).events_view().take(old(self).events_view().len() as int) == old(self).events_view()
                &&& final(self).events_view().last() matches SettingsEvent::PluginChanged { id: e, enabled: b }
                &&& e@ == id@ && b == !old(self)@.plugins[i].enabled
            },
            final(self)@ == (SettingsView { plugins: final(self)@.plugins, ..old(self)@ }),
            final(self).search_view() == old(self).search_view(),
    {
        let mut i: usize = 0;
        while i < self.plugins.len()
            invariant
                i <= self.plugins@.len(),
                *self == *old(self),
                forall|j: int| 0 <= j < i ==> (#[trigger] self.plugins@[j]).id@ != id@,
            decreases self.plugins@.len() - i,
        {
            if str_eq(self.plugins[i].id, id) {
                let next = !self.plugins[i].enabled;
                self.set_plugin_enabled(id, next);
                proof {
                    assert forall|k: int| 0 <= k < old(self).plugins@.len() && (#[trigger] old(self).plugins@[k]).id@ == id@
                        && (forall|j: int| 0 <= j < k ==> (#[trigger] old(self).plugins@[j]).id@ != id@) implies k == i by {
                        if k > i {
                            assert(old(self).plugins@[i as int].id@ == id@);
                        }
                    }
                }
                return;
            }
            i = i + 1;
        }
    }

    /// Flips the first plugin with this label; unknown labels do nothing.
    pub fn toggle_plugin_by_name(&mut self, label: &str)
        ensures
            final(self)@.plugins.len() == old(self)@.plugins.len(),
            (forall|i: int| 0 <= i < old(self)@.plugins.len() ==> (#[trigger] old(self)@.plugins[i]).label@ != label@)
                ==> final(self)@.plugins == old(self)@.plugins && final(self).events_view() == old(self).events_view(),
            forall|i: int, k: int| 0 <= i < old(self)@.plugins.len() && (#[trigger] old(self)@.plugins[i]).label@ == label@
                && (forall|j: int| 0 <= j < i ==> (#[trigger] old(self)@.plugins[j]).label@ != label@)
                && 0 <= k < old(self)@.plugins.len() && (#[trigger] old(self)@.plugins[k]).id@ == old(self)@.plugins[i].id@
                && (forall|j: int| 0 <= j < k ==> (#[trigger] old(self)@.plugins[j]).id@ != old(self)@.plugins[i].id@)
                ==> {
                &&& final(self)@.plugins == old(self)@.plugins.update(k, CorePlugin { enabled: !old(self)@.plugins[k].enabled, ..old(self)@.plugins[k] })
                &&& final(self).events_view().len() == old(self).events_view().len() + 1
                &&& final(self).events_view().take(old(self).events_view().len() as int) == old(self).events_view()
                &&& final(self).events_view().last() matches SettingsEvent::PluginChanged { id: e, enabled: b }
                &&& e@ == old(self)@.plugins[i].id@ && b == !old(self)@.plugins[k].enabled
            },
            final(self)@ == (SettingsView { plugins: final(self)@.plugins, ..old(self)@ }),
            final(self).search_view() == old(self).search_view(),
    {
        let mut i: usize = 0;
        while i < self.plugins.len()
            invariant
                i <= self.plugins@.len(),
                *self == *old(self),
                forall|j: int| 0 <= j < i ==> (#[trigger] self.plugins@[j]).label@ != label@,
            decreases self.plugins@.len() - i,
        {
            if str_eq(self.plugins[i].label, label) {
                let id = self.plugins[i].id;
                self.toggle_plugin(id);
                proof {
                    assert forall|a: int| 0 <= a < old(self).plugins@.len() && (#[trigger] old(self).plugins@[a]).label@ == label@
                        && (forall|j: int| 0 <= j < a ==> (#[trigger] old(self).plugins@[j]).label@ != label@) implies a == i by {
                        if a > i {
                            assert(old(self).plugins@[i as int].label@ == label@);
                        }
                    }
                }
                return;
            }
            i = i + 1;
        }
    }

    /// The hotkeys whose lowercased label or identifier contains the lowercased search.
    pub fn filtered_hotkeys(&self) -> (v: Vec<&Hotkey>)
        ensures
            v@.map_values(|h: &Hotkey| *h) == self@.hotkeys.filter(|h: Hotkey| passes_filter(lowercase(self.search_view()), h.label@, h.id@)),
    {
        let q = to_lowercase(self.search.as_str());
        let mut v: Vec<&Hotkey> = Vec::new();
        let mut i: usize = 0;
        while i < self.hotkeys.len()
            invariant
                i <= self.hotkeys@.len(),
                q@ == lowercase(self.search@),
                v@.map_values(|h: &Hotkey| *h) == self.hotkeys@.take(i as int).filter(|h: Hotkey| passes_filter(q@, h.label@, h.id@)),
            decreases self.hotkeys@.len() - i,
        {
            proof {
                reveal(Seq::filter);
                assert(self.hotkeys@.take(i + 1).drop_last() =~= self.hotkeys@.take(i as int));
            }
            let h = &self.hotkeys[i];
            let keep = q.as_str().is_empty() || contains_text(to_lowercase(h.label).as_str(), q.as_str()) || contains_text(h.id, q.as_str());
            if keep {
                v.push(h);
            }
            proof {
                assert(v@.map_values(|h: &Hotkey| *h) =~= self.hotkeys@.take(i + 1).filter(|h: Hotkey| passes_filter(q@, h.label@, h.id@)));
            }
            i = i + 1;
        }
        proof {
            assert(self.hotkeys@.take(self.hotkeys@.len() as int) =~= self.hotkeys@);
        }
        v
    }

    /// The plugins whose lowercased label or identifier contains the lowercased search.
    pub fn filtered_plugins(&self) -> (v: Vec<&CorePlugin>)
        ensures
            v@.map_values(|p: &CorePlugin| *p) == self@.plugins.filter(|p: CorePlugin| passes_filter(lowercase(self.search_view()), p.label@, p.id@)),
    {
        let q = to_lowercase(self.search.as_str());
        let mut v: Vec<&CorePlugin> = Vec::new();
        let mut i: usize = 0;
        while i < self.plugins.len()
            invariant
                i <= self.plugins@.len(),
                q@ == lowercase(self.search@),
                v@.map_values(|p: &CorePlugin| *p) == self.plugins@.take(i as int).filter(|p: CorePlugin| passes_filter(q@, p.label@, p.id@)),
            decreases self.plugins@.len() - i,
        {
            proof {
                reveal(Seq::filter);
                assert(self.plugins@.take(i + 1).drop_last() =~= self.plugins@.take(i as int));
            }
            let p = &self.plugins[i];
            let keep = q.as_str().is_empty() || contains_text(to_lowercase(p.label).as_str(), q.as_str()) || contains_text(p.id, q.as_str());
            if keep {
                v.push(p);
            }
            proof {
                assert(v@.map_values(|p: &CorePlugin| *p) =~= self.plugins@.take(i + 1).filter(|p: CorePlugin| passes_filter(q@, p.label@, p.id@)));
            }
            i = i + 1;
        }
        proof {
            assert(self.plugins@.take(self.plugins@.len() as int) =~= self.plugins@);
        }
        v
    }

    pub fn request_close(&mut self)
        ensures
            final(self).events_view() == old(self).events_view().push(SettingsEvent::CloseRequested),
            final(self).search_view() == old(self).search_view(),
    {
        self.events.push(SettingsEvent::CloseRequested);
    }

    pub fn close(&mut self)
        ensures
            final(self).events_view() == old(self).events_view().push(SettingsEvent::CloseRequested),
            final(self).search_view() == old(self).search_view(),
    {
        self.request_close();
    }

    /// Returns the pending events, oldest first, and leaves none pending.
    pub fn drain_events(&mut self) -> (out: Vec<SettingsEvent>)
        ensures
            out@ == old(self).events_view(),
            final(self).events_view().len() == 0,
            final(self).search_view() == old(self).search_view(),
    {
        let mut out = Vec::new();
        std::mem::swap(&mut out, &mut self.events);
        out
    }
}

} // verus!
