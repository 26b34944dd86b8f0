use tachylyte::editor_options::{
    EditorOptions, EditorOptionsEvent, LineWrap, MenuAction, SpellcheckState, ToolbarAction,
    VimModeState,
};

#[test]
fn defaults_are_safe() {
    let options = EditorOptions::default();
    assert_eq!(options.line_wrap(), LineWrap::NoWrap);
    assert!(!options.show_line_numbers());
    assert!(!options.show_fold_markers());
    assert_eq!(options.spellcheck_state(), SpellcheckState::Unavailable);
}

#[test]
fn toolbar_emits_intent_and_state_change() {
    let mut options = EditorOptions::default();
    options.toolbar(ToolbarAction::ToggleLineWrap);
    assert_eq!(options.line_wrap(), LineWrap::Wrap);
    assert_eq!(
        options.take_events(),
        vec![
            EditorOptionsEvent::Toolbar(ToolbarAction::ToggleLineWrap),
            EditorOptionsEvent::LineWrapChanged(LineWrap::Wrap)
        ]
    );
}

#[test]
fn toggling_twice_restores_and_setting_same_value_is_silent() {
    let mut options = EditorOptions::default();
    options.toggle_line_numbers();
    options.toggle_line_numbers();
    assert!(!options.show_line_numbers());
    assert_eq!(
        options.take_events(),
        vec![
            EditorOptionsEvent::LineNumbersChanged(true),
            EditorOptionsEvent::LineNumbersChanged(false)
        ]
    );
    options.set_fold_markers(false);
    options.set_line_wrap(LineWrap::NoWrap);
    assert!(options.take_events().is_empty());
}

#[test]
fn placeholders_emit_events_without_state_change() {
    let mut options = EditorOptions::default();
    options.menu(MenuAction::VimMode);
    options.toolbar(ToolbarAction::Spellcheck);
    options.menu(MenuAction::ToggleFoldMarkers);
    assert!(options.show_fold_markers());
    assert_eq!(options.vim_mode_state(), VimModeState::Unavailable);
    assert_eq!(
        options.take_events(),
        vec![
            EditorOptionsEvent::Menu(MenuAction::VimMode),
            EditorOptionsEvent::VimModePlaceholder,
            EditorOptionsEvent::Toolbar(ToolbarAction::Spellcheck),
            EditorOptionsEvent::SpellcheckPlaceholder,
            EditorOptionsEvent::Menu(MenuAction::ToggleFoldMarkers),
            EditorOptionsEvent::FoldMarkersChanged(true),
        ]
    );
}
