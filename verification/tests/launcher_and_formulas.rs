use tachylyte::bases_formula::{summarize_displays, FormulaDisplay, FormulaError, FormulaSummary};
use tachylyte::launcher::{LauncherSettings, WelcomeSeedPlan};

#[test]
fn welcome_plan_and_settings_defaults() {
    let p = WelcomeSeedPlan::default();
    assert_eq!(p.title, "Welcome to Tachylyte");
    assert_eq!(p.body, "Open or create a vault to get started.");
    let s = LauncherSettings::default();
    assert!(s.appearance.theme.is_none());
    assert!(!s.features.welcome_seen);
}

#[test]
fn summaries_count_values_errors_and_nulls() {
    let ds = vec![
        FormulaDisplay::Value("3".into()),
        FormulaDisplay::Value("—".into()),
        FormulaDisplay::Error(FormulaError { formula: "1 +".into(), message: "formula: bad".into() }),
    ];
    assert_eq!(summarize_displays(&ds), FormulaSummary { total: 3, values: 2, errors: 1, nulls: 1 });
    assert_eq!(summarize_displays(&Vec::new()), FormulaSummary::default());
}
