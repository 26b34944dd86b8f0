use tachylyte::tab::{close_decision, dirty_close_notice, CloseDecision, TabControls};

#[test]
fn dirty_documents_are_blocked_and_clean_documents_allowed() {
    assert_eq!(close_decision(true), CloseDecision::Blocked);
    assert_eq!(close_decision(false), CloseDecision::Allowed);
}

#[test]
fn controls_follow_mounted_leaf_state() {
    assert_eq!(
        TabControls::from_workspace(false, false, 1),
        TabControls {
            has_tab: false,
            can_close: false,
            can_split: false,
        }
    );
    assert!(!TabControls::from_workspace(true, true, 1).can_close);
    assert!(TabControls::from_workspace(true, false, 2).can_split);
}

#[test]
fn dirty_close_notice_asks_to_save() {
    assert_eq!(dirty_close_notice(), "Please save your changes before closing this tab.");
    assert!(!TabControls::from_workspace(true, false, 1).can_split);
    assert!(TabControls::from_workspace(true, false, 1).can_close);
}
