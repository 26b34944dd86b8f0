//! The launcher's presentation preferences and undo records.
use vstd::prelude::*;

verus! {

#[derive(Clone, Debug, PartialEq, Eq)]
pub struct AppearanceSettings {
    pub theme: Option<String>,
    pub compact: bool,
}

impl Default for AppearanceSettings {
    fn default() -> (s: Self)
        ensures
            s.theme is None,
            !s.compact,
    {
        AppearanceSettings { theme: None, compact: false }
    }
}

#[derive(Clone, Copy, Debug, Default, PartialEq, Eq)]
pub struct FeatureSettings {
    pub show_missing: bool,
    pub welcome_seen: bool,
}

#[derive(Clone, Debug, PartialEq, Eq)]
pub struct LauncherSettings {
    pub appearance: AppearanceSettings,
    pub features: FeatureSettings,
}

impl Default for LauncherSettings {
    fn default() -> (s: Self)
        ensures
            s.appearance.theme is None,
            !s.appearance.compact,
            !s.features.show_missing,
            !s.features.welcome_seen,
    {
        LauncherSettings { appearance: AppearanceSettings::default(), features: FeatureSettings { show_missing: false, welcome_seen: false } }
    }
}

/// The registry operation that an undo record reverses.
#[derive(Clone, Copy, Debug, PartialEq, Eq)]
pub enum UndoOperation {
    Removed,
    Pruned,
}

/// The note offered to a first-time user.
#[derive(Clone, Debug, PartialEq, Eq)]
pub struct WelcomeSeedPlan {
    pub title: String,
    pub body: String,
}

impl Default for WelcomeSeedPlan {
    fn default() -> (p: Self)
        ensures
            p.title@ == "Welcome to Tachylyte"@,
            p.body@ == "Open or create a vault to get started."@,
    {
        WelcomeSeedPlan { title: "Welcome to Tachylyte".to_owned(), body: "Open or create a vault to get started.".to_owned() }
    }
}

} // verus!
