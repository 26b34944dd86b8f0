//! The render-independent decisions of the application shell: its frame
//! settings, the leaf a selection is routed to, palette commands, and cursor
//! motion over a Markdown source.
use vstd::prelude::*;
use vstd::utf8::is_char_boundary;
use crate::editor_state::{next_boundary, next_boundary_spec, prev_boundary, prev_boundary_spec, previous_boundary, previous_boundary_spec};
use crate::text::{chars_of, enc, lower_ascii_range, lower_ascii_seq, str_eq, trim_ws, trimmed, vec_eq};
use crate::vault::{extension_of, path_extension, FileKind, VaultEntry, VaultPath};

verus! {

/// The visual palette of the shell.
#[derive(Clone, Copy, Debug, PartialEq, Eq, Structural)]
pub enum Theme {
    /// Dark charcoal palette.
    Dark,
    /// Light paper palette.
    Light,
}

impl Default for Theme {
    fn default() -> (t: Self)
        ensures
            t == Theme::Dark,
    {
        Theme::Dark
    }
}

/// The surface the current selection is routed to.
#[derive(Clone, Copy, Debug, PartialEq, Eq, Structural)]
pub enum LeafKind {
    /// A Markdown document.
    Markdown,
    /// An Obsidian Canvas document.
    Canvas,
    /// A Bases document.
    Bases,
    /// An image, audio, video or PDF file.
    Media(FileKind),
    /// Nothing is selected.
    Empty,
}

/// The leaf a scanned file of kind `k` opens in.
pub open spec fn leaf_of_kind(k: FileKind) -> LeafKind {
    match k {
        FileKind::Markdown => LeafKind::Markdown,
        FileKind::Canvas => LeafKind::Canvas,
        _ => LeafKind::Media(k),
    }
}

impl LeafKind {
    /// The leaf a scanned file opens in.
    pub fn from_entry(entry: &VaultEntry) -> (k: Self)
        ensures
            k == leaf_of_kind(entry.kind),
    {
        match entry.kind {
            FileKind::Markdown => LeafKind::Markdown,
            FileKind::Canvas => LeafKind::Canvas,
            _ => LeafKind::Media(entry.kind),
        }
    }
}

/// The index of the first entry at `p` from `i` on.
pub open spec fn first_entry(es: Seq<VaultEntry>, p: Seq<char>, i: int) -> Option<int>
    decreases es.len() - i,
{
    if i < 0 || i >= es.len() {
        None
    } else if es[i].path@ == p {
        Some(i)
    } else {
        first_entry(es, p, i + 1)
    }
}

/// Where a selection is routed: nothing selected is empty; a `.base` file is
/// a Bases leaf; otherwise the leaf of the first scanned entry at the path,
/// or empty when none is.
pub open spec fn leaf_route(selected: Option<Seq<char>>, entries: Seq<VaultEntry>) -> LeafKind {
    match selected {
        None => LeafKind::Empty,
        Some(p) => if path_extension(p) == Some(seq!['b', 'a', 's', 'e']) {
            LeafKind::Bases
        } else {
            match first_entry(entries, p, 0) {
                Some(i) => leaf_of_kind(entries[i].kind),
                None => LeafKind::Empty,
            }
        },
    }
}

/// The leaf the selection `selected` is routed to, among the scanned `entries`.
pub fn leaf_kind(selected: Option<&VaultPath>, entries: &Vec<VaultEntry>) -> (k: LeafKind)
    ensures
        k == leaf_route(
            match selected {
                Some(p) => Some(p@),
                None => None,
            },
            entries@,
        ),
{
    let path = match selected {
        Some(p) => p,
        None => return LeafKind::Empty,
    };
    let base = vec!['b', 'a', 's', 'e'];
    proof {
        assert(base@ =~= seq!['b', 'a', 's', 'e']);
    }
    match extension_of(path.as_path()) {
        Some(e) => {
            let ec = chars_of(e.as_str());
            if vec_eq(&ec, &base) {
                return LeafKind::Bases;
            }
        },
        None => {},
    }
    let mut i: usize = 0;
    while i < entries.len()
        invariant
            i <= entries@.len(),
            path_extension(path@) != Some(seq!['b', 'a', 's', 'e']),
            selected == Some(path),
            first_entry(entries@, path@, 0) == first_entry(entries@, path@, i as int),
        decreases entries@.len() - i,
    {
        if str_eq(entries[i].path.as_path(), path.as_path()) {
            proof {
                assert(entries@[i as int].path@ == path@);
            }
            return LeafKind::from_entry(&entries[i]);
        }
        i = i + 1;
    }
    LeafKind::Empty
}

/// A named view or action of the shell that can be switched on and off.
#[derive(Clone, Debug, PartialEq, Eq)]
pub struct FeatureToggle {
    /// Stable feature name.
    pub name: &'static str,
    /// Current state.
    pub enabled: bool,
}

/// The names of the shell's switchable features, in order.
pub open spec fn shell_feature_list() -> Seq<Seq<char>> {
    seq!["File explorer"@, "Search"@, "Properties"@, "Outline"@, "Links"@, "Command palette"@, "Word count"@]
}

/// The features of the shell.
pub fn shell_features() -> (v: Vec<&'static str>)
    ensures
        v@.map_values(|s: &str| s@) == shell_feature_list(),
{
    let v = vec!["File explorer", "Search", "Properties", "Outline", "Links", "Command palette", "Word count"];
    proof {
        assert(v@.map_values(|s: &str| s@) =~= shell_feature_list());
    }
    v
}

/// The toggles as (name, enabled) pairs.
pub open spec fn toggles(fs: Seq<FeatureToggle>) -> Seq<(Seq<char>, bool)> {
    fs.map_values(|f: FeatureToggle| (f.name@, f.enabled))
}

/// The index of the first toggle named `name` from `i` on.
pub open spec fn first_named(ts: Seq<(Seq<char>, bool)>, name: Seq<char>, i: int) -> Option<int>
    decreases ts.len() - i,
{
    if i < 0 || i >= ts.len() {
        None
    } else if ts[i].0 == name {
        Some(i)
    } else {
        first_named(ts, name, i + 1)
    }
}

/// Whether the first toggle named `name` is on (false when there is none).
pub open spec fn spec_feature_enabled(ts: Seq<(Seq<char>, bool)>, name: Seq<char>) -> bool {
    match first_named(ts, name, 0) {
        Some(i) => ts[i].1,
        None => false,
    }
}

/// The toggles after flipping the first one named `name`, if any.
pub open spec fn toggled(ts: Seq<(Seq<char>, bool)>, name: Seq<char>) -> Seq<(Seq<char>, bool)> {
    match first_named(ts, name, 0) {
        Some(i) => ts.update(i, (name, !ts[i].1)),
        None => ts,
    }
}

proof fn lemma_first_named_same_names(ts: Seq<(Seq<char>, bool)>, us: Seq<(Seq<char>, bool)>, name: Seq<char>, i: int)
    requires
        ts.len() == us.len(),
        forall|j: int| 0 <= j < ts.len() ==> #[trigger] ts[j].0 == us[j].0,
    ensures
        first_named(ts, name, i) == first_named(us, name, i),
    decreases ts.len() - i,
{
    if 0 <= i < ts.len() && ts[i].0 != name {
        lemma_first_named_same_names(ts, us, name, i + 1);
    }
}

proof fn lemma_first_named_found(ts: Seq<(Seq<char>, bool)>, name: Seq<char>, i: int)
    ensures
        first_named(ts, name, i) matches Some(k) ==> 0 <= k < ts.len() && ts[k].0 == name,
    decreases ts.len() - i,
{
    if 0 <= i < ts.len() && ts[i].0 != name {
        lemma_first_named_found(ts, name, i + 1);
    }
}

/// Toggling a feature twice gives the toggles back.
pub proof fn lemma_toggle_twice(ts: Seq<(Seq<char>, bool)>, name: Seq<char>)
    ensures
        toggled(toggled(ts, name), name) == ts,
{
    lemma_first_named_found(ts, name, 0);
    let once = toggled(ts, name);
    lemma_first_named_same_names(ts, once, name, 0);
    if let Some(i) = first_named(ts, name, 0) {
        assert(once.update(i, (name, !once[i].1)) =~= ts);
    }
}

/// The toggles after switching the first one named `name` to `enabled`, if any.
pub open spec fn feature_set(ts: Seq<(Seq<char>, bool)>, name: Seq<char>, enabled: bool) -> Seq<(Seq<char>, bool)> {
    match first_named(ts, name, 0) {
        Some(i) => ts.update(i, (name, enabled)),
        None => ts,
    }
}

/// Persistable frame settings of the shell.
#[derive(Clone, Debug, PartialEq, Eq)]
pub struct SettingsState {
    /// Active theme.
    pub theme: Theme,
    /// Whether the explorer is shown.
    pub show_left_sidebar: bool,
    /// Whether the outline and properties are shown.
    pub show_right_sidebar: bool,
    /// Feature switches.
    pub features: Vec<FeatureToggle>,
}

impl Default for SettingsState {
    fn default() -> (s: Self)
        ensures
            s.theme == Theme::Light,
            s.show_left_sidebar,
            s.show_right_sidebar,
            toggles(s.features@) == shell_feature_list().map_values(|n: Seq<char>| (n, true)),
    {
        let names = shell_features();
        let mut features: Vec<FeatureToggle> = Vec::new();
        let mut i: usize = 0;
        while i < names.len()
            invariant
                i <= names@.len(),
                names@.map_values(|s: &str| s@) == shell_feature_list(),
                toggles(features@) == shell_feature_list().map_values(|n: Seq<char>| (n, true)).take(i as int),
            decreases names@.len() - i,
        {
            let ghost before = features@;
            features.push(FeatureToggle { name: names[i], enabled: true });
            proof {
                assert(shell_feature_list()[i as int] == names@[i as int]@);
                assert(toggles(features@) =~= toggles(before).push((names@[i as int]@, true)));
                assert(toggles(features@) =~= shell_feature_list().map_values(|n: Seq<char>| (n, true)).take(i + 1));
            }
            i = i + 1;
        }
        proof {
            assert(shell_feature_list().map_values(|n: Seq<char>| (n, true)).take(i as int) =~= shell_feature_list().map_values(
                |n: Seq<char>| (n, true),
            ));
        }
        SettingsState { theme: Theme::Light, show_left_sidebar: true, show_right_sidebar: true, features }
    }
}

impl SettingsState {
    /// Flips the first feature named `name`; `false` when there is none.
    pub fn toggle_feature(&mut self, name: &str) -> (found: bool)
        ensures
            found == first_named(toggles(old(self).features@), name@, 0) is Some,
            toggles(final(self).features@) == toggled(toggles(old(self).features@), name@),
            final(self).theme == old(self).theme,
            final(self).show_left_sidebar == old(self).show_left_sidebar,
            final(self).show_right_sidebar == old(self).show_right_sidebar,
    {
        let ghost ts = toggles(self.features@);
        let mut i: usize = 0;
        while i < self.features.len()
            invariant
                i <= self.features@.len(),
                ts == toggles(self.features@),
                ts == toggles(old(self).features@),
                first_named(ts, name@, 0) == first_named(ts, name@, i as int),
                self.theme == old(self).theme,
                self.show_left_sidebar == old(self).show_left_sidebar,
                self.show_right_sidebar == old(self).show_right_sidebar,
            decreases self.features@.len() - i,
        {
            if str_eq(self.features[i].name, name) {
                proof {
                    assert(ts[i as int].0 == name@);
                }
                let f = FeatureToggle { name: self.features[i].name, enabled: !self.features[i].enabled };
                let ghost before = self.features@;
                self.features.set(i, f);
                proof {
                    assert(toggles(self.features@) =~= ts.update(i as int, (name@, !ts[i as int].1)));
                }
                return true;
            }
            i = i + 1;
        }
        false
    }

    /// Switches the first feature named `name` on or off; unknown names change nothing.
    pub fn set_feature(&mut self, name: &str, enabled: bool)
        ensures
            toggles(final(self).features@) == feature_set(toggles(old(self).features@), name@, enabled),
            final(self).theme == old(self).theme,
            final(self).show_left_sidebar == old(self).show_left_sidebar,
            final(self).show_right_sidebar == old(self).show_right_sidebar,
    {
        let ghost ts = toggles(self.features@);
        let mut i: usize = 0;
        while i < self.features.len()
            invariant
                i <= self.features@.len(),
                ts == toggles(self.features@),
                ts == toggles(old(self).features@),
                first_named(ts, name@, 0) == first_named(ts, name@, i as int),
                self.theme == old(self).theme,
                self.show_left_sidebar == old(self).show_left_sidebar,
                self.show_right_sidebar == old(self).show_right_sidebar,
            decreases self.features@.len() - i,
        {
            if str_eq(self.features[i].name, name) {
                proof {
                    assert(ts[i as int].0 == name@);
                }
                let f = FeatureToggle { name: self.features[i].name, enabled };
                self.features.set(i, f);
                proof {
                    assert(toggles(self.features@) =~= ts.update(i as int, (name@, enabled)));
                }
                return;
            }
            i = i + 1;
        }
    }

    /// Whether the first feature named `name` is on; unknown names are off.
    pub fn feature_enabled(&self, name: &str) -> (b: bool)
        ensures
            b == spec_feature_enabled(toggles(self.features@), name@),
    {
        let ghost ts = toggles(self.features@);
        let mut i: usize = 0;
        while i < self.features.len()
            invariant
                i <= self.features@.len(),
                ts == toggles(self.features@),
                first_named(ts, name@, 0) == first_named(ts, name@, i as int),
            decreases self.features@.len() - i,
        {
            if str_eq(self.features[i].name, name) {
                return self.features[i].enabled;
            }
            i = i + 1;
        }
        false
    }

    /// Shows or hides the explorer.
    pub fn toggle_left_sidebar(&mut self)
        ensures
            final(self).show_left_sidebar == !old(self).show_left_sidebar,
            final(self).show_right_sidebar == old(self).show_right_sidebar,
            final(self).theme == old(self).theme,
            final(self).features@ == old(self).features@,
    {
        self.show_left_sidebar = !self.show_left_sidebar;
    }

    /// Shows or hides the details sidebar.
    pub fn toggle_right_sidebar(&mut self)
        ensures
            final(self).show_right_sidebar == !old(self).show_right_sidebar,
            final(self).show_left_sidebar == old(self).show_left_sidebar,
            final(self).theme == old(self).theme,
            final(self).features@ == old(self).features@,
    {
        self.show_right_sidebar = !self.show_right_sidebar;
    }

    /// Switches between the dark and the light theme.
    pub fn toggle_theme(&mut self)
        ensures
            final(self).theme == (if old(self).theme == Theme::Dark { Theme::Light } else { Theme::Dark }),
            final(self).show_left_sidebar == old(self).show_left_sidebar,
            final(self).show_right_sidebar == old(self).show_right_sidebar,
            final(self).features@ == old(self).features@,
    {
        self.theme = if self.theme == Theme::Dark { Theme::Light } else { Theme::Dark };
    }
}

/// The detail sections, in order.
pub open spec fn detail_section_list() -> Seq<Seq<char>> {
    seq!["Outline"@, "Properties"@, "Links"@, "Word count"@]
}

/// The detail sections whose features are on, in order.
pub open spec fn projected(names: Seq<Seq<char>>, ts: Seq<(Seq<char>, bool)>) -> Seq<Seq<char>>
    decreases names.len(),
{
    if names.len() == 0 {
        Seq::empty()
    } else if spec_feature_enabled(ts, names.last()) {
        projected(names.drop_last(), ts).push(names.last())
    } else {
        projected(names.drop_last(), ts)
    }
}

/// The detail sections shown under `settings`.
pub fn detail_projection(settings: &SettingsState) -> (v: Vec<&'static str>)
    ensures
        v@.map_values(|s: &str| s@) == projected(detail_section_list(), toggles(settings.features@)),
{
    let names = vec!["Outline", "Properties", "Links", "Word count"];
    proof {
        assert(names@.map_values(|s: &str| s@) =~= detail_section_list());
    }
    let mut out: Vec<&'static str> = Vec::new();
    let mut i: usize = 0;
    while i < names.len()
        invariant
            i <= names@.len(),
            names@.map_values(|s: &str| s@) == detail_section_list(),
            out@.map_values(|s: &str| s@) == projected(detail_section_list().take(i as int), toggles(settings.features@)),
        decreases names@.len() - i,
    {
        proof {
            assert(detail_section_list().take(i + 1).drop_last() =~= detail_section_list().take(i as int));
            assert(detail_section_list().take(i + 1).last() == names@[i as int]@);
        }
        let ghost before = out@;
        if settings.feature_enabled(names[i]) {
            out.push(names[i]);
            proof {
                assert(out@.map_values(|s: &str| s@) =~= before.map_values(|s: &str| s@).push(names@[i as int]@));
            }
        }
        i = i + 1;
    }
    proof {
        assert(detail_section_list().take(i as int) =~= detail_section_list());
    }
    out
}

/// A command of the command palette.
#[derive(Clone, Copy, Debug, PartialEq, Eq, Structural)]
pub enum ShellCommand {
    Save,
    SourceMode,
    ReadingMode,
    ToggleExplorer,
    ToggleDetails,
    ToggleSettings,
    ToggleTheme,
    ManageVaults,
}

/// The command a normalized (trimmed, ASCII-lowercased) palette text names.
pub open spec fn command_of(c: Seq<char>) -> Option<ShellCommand> {
    if c == seq!['s', 'a', 'v', 'e'] || c == seq!['f', 'i', 'l', 'e', '.', 's', 'a', 'v', 'e'] {
        Some(ShellCommand::Save)
    } else if c == seq!['s', 'o', 'u', 'r', 'c', 'e'] || c == seq!['m', 'o', 'd', 'e', '.', 's', 'o', 'u', 'r', 'c', 'e'] {
        Some(ShellCommand::SourceMode)
    } else if c == seq!['r', 'e', 'a', 'd', 'i', 'n', 'g'] || c == seq!['m', 'o', 'd', 'e', '.', 'r', 'e', 'a', 'd', 'i', 'n', 'g'] {
        Some(ShellCommand::ReadingMode)
    } else if c == seq!['t', 'o', 'g', 'g', 'l', 'e', ' ', 'e', 'x', 'p', 'l', 'o', 'r', 'e', 'r'] || c == seq!['s', 'i', 'd', 'e', 'b', 'a', 'r', '.', 'l', 'e', 'f', 't'] {
        Some(ShellCommand::ToggleExplorer)
    } else if c == seq!['t', 'o', 'g', 'g', 'l', 'e', ' ', 'd', 'e', 't', 'a', 'i', 'l', 's'] || c == seq!['s', 'i', 'd', 'e', 'b', 'a', 'r', '.', 'r', 'i', 'g', 'h', 't'] {
        Some(ShellCommand::ToggleDetails)
    } else if c == seq!['t', 'o', 'g', 'g', 'l', 'e', ' ', 's', 'e', 't', 't', 'i', 'n', 'g', 's'] {
        Some(ShellCommand::ToggleSettings)
    } else if c == seq!['t', 'o', 'g', 'g', 'l', 'e', ' ', 't', 'h', 'e', 'm', 'e'] || c == seq!['t', 'h', 'e', 'm', 'e', '.', 't', 'o', 'g', 'g', 'l', 'e'] {
        Some(ShellCommand::ToggleTheme)
    } else if c == seq!['m', 'a', 'n', 'a', 'g', 'e', ' ', 'v', 'a', 'u', 'l', 't', 's'] || c == seq!['v', 'a', 'u', 'l', 't', 's'] {
        Some(ShellCommand::ManageVaults)
    } else {
        None
    }
}

fn is_word(c: &Vec<char>, w: Vec<char>) -> (b: bool)
    ensures
        b == (c@ == w@),
{
    vec_eq(c, &w)
}

/// The palette command that `text` names once trimmed and ASCII-lowercased.
pub fn parse_command(text: &str) -> (r: Option<ShellCommand>)
    ensures
        r == command_of(lower_ascii_seq(trim_ws(text@))),
{
    let cs = chars_of(text);
    let t = trimmed(&cs, 0, cs.len());
    proof {
        assert(cs@.subrange(0, cs@.len() as int) =~= text@);
    }
    let tc = chars_of(t.as_str());
    let c = lower_ascii_range(&tc, 0, tc.len());
    proof {
        assert(tc@.subrange(0, tc@.len() as int) =~= t@);
    }
    if is_word(&c, vec!['s', 'a', 'v', 'e']) || is_word(&c, vec!['f', 'i', 'l', 'e', '.', 's', 'a', 'v', 'e']) {
        Some(ShellCommand::Save)
    } else if is_word(&c, vec!['s', 'o', 'u', 'r', 'c', 'e']) || is_word(&c, vec!['m', 'o', 'd', 'e', '.', 's', 'o', 'u', 'r', 'c', 'e']) {
        Some(ShellCommand::SourceMode)
    } else if is_word(&c, vec!['r', 'e', 'a', 'd', 'i', 'n', 'g']) || is_word(&c, vec!['m', 'o', 'd', 'e', '.', 'r', 'e', 'a', 'd', 'i', 'n', 'g']) {
        Some(ShellCommand::ReadingMode)
    } else if is_word(&c, vec!['t', 'o', 'g', 'g', 'l', 'e', ' ', 'e', 'x', 'p', 'l', 'o', 'r', 'e', 'r']) || is_word(&c, vec!['s', 'i', 'd', 'e', 'b', 'a', 'r', '.', 'l', 'e', 'f', 't']) {
        Some(ShellCommand::ToggleExplorer)
    } else if is_word(&c, vec!['t', 'o', 'g', 'g', 'l', 'e', ' ', 'd', 'e', 't', 'a', 'i', 'l', 's']) || is_word(&c, vec!['s', 'i', 'd', 'e', 'b', 'a', 'r', '.', 'r', 'i', 'g', 'h', 't']) {
        Some(ShellCommand::ToggleDetails)
    } else if is_word(&c, vec!['t', 'o', 'g', 'g', 'l', 'e', ' ', 's', 'e', 't', 't', 'i', 'n', 'g', 's']) {
        Some(ShellCommand::ToggleSettings)
    } else if is_word(&c, vec!['t', 'o', 'g', 'g', 'l', 'e', ' ', 't', 'h', 'e', 'm', 'e']) || is_word(&c, vec!['t', 'h', 'e', 'm', 'e', '.', 't', 'o', 'g', 'g', 'l', 'e']) {
        Some(ShellCommand::ToggleTheme)
    } else if is_word(&c, vec!['m', 'a', 'n', 'a', 'g', 'e', ' ', 'v', 'a', 'u', 'l', 't', 's']) || is_word(&c, vec!['v', 'a', 'u', 'l', 't', 's']) {
        Some(ShellCommand::ManageVaults)
    } else {
        None
    }
}

// ---------------------------------------------------------------- cursor motion

/// The index of the last line feed in bytes `0..e` of `b`, or -1.
pub open spec fn last_newline_before(b: Seq<u8>, e: int) -> int
    decreases e,
{
    if e <= 0 {
        -1
    } else if b[e - 1] == 10u8 {
        e - 1
    } else {
        last_newline_before(b, e - 1)
    }
}

/// The index of the first line feed in bytes `p..` of `b`, if any.
pub open spec fn next_newline(b: Seq<u8>, p: int) -> Option<int>
    decreases b.len() - p,
{
    if p < 0 || p >= b.len() {
        None
    } else if b[p] == 10u8 {
        Some(p)
    } else {
        next_newline(b, p + 1)
    }
}

/// `p` moved back to a character boundary, but not below `lo`.
pub open spec fn floor_above(b: Seq<u8>, p: int, lo: int) -> int
    decreases p - lo,
{
    if p > lo && !is_char_boundary(b, p) {
        floor_above(b, p - 1, lo)
    } else {
        p
    }
}

/// The cursor one line up at the same byte column, capped at the end of
/// that line and moved back to a character boundary.
pub open spec fn cursor_up_spec(b: Seq<u8>, c: int) -> int {
    let line_start = last_newline_before(b, c) + 1;
    let column = c - line_start;
    let previous_end = if line_start > 0 { line_start - 1 } else { 0 };
    let previous_start = last_newline_before(b, previous_end) + 1;
    let target = if previous_start + column < previous_end { previous_start + column } else { previous_end };
    floor_above(b, target, previous_start)
}

/// The cursor one line down at the same byte column, capped at the end of
/// that line and moved back to a character boundary; unchanged on the last line.
pub open spec fn cursor_down_spec(b: Seq<u8>, c: int) -> int {
    let line_start = last_newline_before(b, c) + 1;
    let column = c - line_start;
    match next_newline(b, c) {
        None => c,
        Some(k) => {
            let next_start = k + 1;
            let next_end = match next_newline(b, next_start) {
                Some(j) => j,
                None => b.len() as int,
            };
            let target = if next_start + column < next_end { next_start + column } else { next_end };
            floor_above(b, target, next_start)
        },
    }
}

proof fn lemma_last_newline(b: Seq<u8>, e: int)
    ensures
        -1 <= last_newline_before(b, e) < if e > 0 { e } else { 0 },
    decreases e,
{
    if e > 0 && b[e - 1] != 10u8 {
        lemma_last_newline(b, e - 1);
    }
}

proof fn lemma_next_newline(b: Seq<u8>, p: int)
    ensures
        next_newline(b, p) matches Some(k) ==> p <= k < b.len() && b[k] == 10u8,
    decreases b.len() - p,
{
    if 0 <= p < b.len() && b[p] != 10u8 {
        lemma_next_newline(b, p + 1);
    }
}

proof fn lemma_floor_above(b: Seq<u8>, p: int, lo: int)
    requires
        lo <= p,
    ensures
        lo <= floor_above(b, p, lo) <= p,
    decreases p - lo,
{
    if p > lo && !is_char_boundary(b, p) {
        lemma_floor_above(b, p - 1, lo);
    }
}

fn last_newline_exec(b: &[u8], e: usize) -> (r: usize)
    requires
        e <= b@.len(),
    ensures
        r == last_newline_before(b@, e as int) + 1,
        r <= e,
{
    proof {
        lemma_last_newline(b@, e as int);
    }
    let mut k = e;
    while k > 0 && b[k - 1] != 10u8
        invariant
            k <= e <= b@.len(),
            last_newline_before(b@, k as int) == last_newline_before(b@, e as int),
        decreases k,
    {
        k = k - 1;
    }
    k
}

fn next_newline_exec(b: &[u8], p: usize) -> (r: Option<usize>)
    requires
        p <= b@.len(),
    ensures
        r matches Some(k) ==> next_newline(b@, p as int) == Some(k as int),
        r is None ==> next_newline(b@, p as int) is None,
{
    let mut k = p;
    while k < b.len() && b[k] != 10u8
        invariant
            p <= k <= b@.len(),
            next_newline(b@, k as int) == next_newline(b@, p as int),
        decreases b@.len() - k,
    {
        k = k + 1;
    }
    if k < b.len() {
        Some(k)
    } else {
        None
    }
}

fn floor_above_exec(s: &str, p: usize, lo: usize) -> (r: usize)
    requires
        lo <= p,
    ensures
        r == floor_above(enc(s@), p as int, lo as int),
{
    let mut q = p;
    while q > lo && !s.is_char_boundary(q)
        invariant
            lo <= q <= p,
            floor_above(enc(s@), q as int, lo as int) == floor_above(enc(s@), p as int, lo as int),
        decreases q,
    {
        q = q - 1;
    }
    q
}

/// The cursor for a requested byte: clamped to the source and moved back to
/// a character boundary.
pub fn clamp_cursor(source: &str, byte: usize) -> (r: usize)
    ensures
        r == prev_boundary_spec(source@, byte as int),
        is_char_boundary(enc(source@), r as int),
{
    prev_boundary(source, byte)
}

/// The cursor one character to the left: the start of the character before it.
pub fn cursor_left(source: &str, cursor: usize) -> (r: usize)
    ensures
        r == previous_boundary_spec(source@, cursor as int),
{
    previous_boundary(source, cursor)
}

/// The cursor one character to the right: past the character after it, or
/// unchanged at the end.
pub fn cursor_right(source: &str, cursor: usize) -> (r: usize)
    ensures
        r == next_boundary_spec(source@, cursor as int),
{
    next_boundary(source, cursor)
}

/// The cursor one line up (see `cursor_up_spec`).
pub fn cursor_up(source: &str, cursor: usize) -> (r: usize)
    requires
        cursor <= enc(source@).len(),
    ensures
        r == cursor_up_spec(enc(source@), cursor as int),
{
    let b = source.as_bytes();
    let line_start = last_newline_exec(b, cursor);
    let column = cursor - line_start;
    let previous_end = if line_start > 0 { line_start - 1 } else { 0 };
    let previous_start = last_newline_exec(b, previous_end);
    let target = if column < previous_end - previous_start { previous_start + column } else { previous_end };
    floor_above_exec(source, target, previous_start)
}

/// The cursor one line down (see `cursor_down_spec`).
pub fn cursor_down(source: &str, cursor: usize) -> (r: usize)
    requires
        cursor <= enc(source@).len(),
    ensures
        r == cursor_down_spec(enc(source@), cursor as int),
{
    let b = source.as_bytes();
    let line_start = last_newline_exec(b, cursor);
    let column = cursor - line_start;
    proof {
        lemma_next_newline(b@, cursor as int);
    }
    let k = match next_newline_exec(b, cursor) {
        Some(k) => k,
        None => return cursor,
    };
    let n = b.len();
    proof {
        assert(k < n);
    }
    let n = b.len();
    proof {
        assert(k < n);
    }
    let next_start = k + 1;
    proof {
        lemma_next_newline(b@, next_start as int);
    }
    let next_end = match next_newline_exec(b, next_start) {
        Some(j) => j,
        None => b.len(),
    };
    let target = if column < next_end - next_start { next_start + column } else { next_end };
    floor_above_exec(source, target, next_start)
}

} // verus!
