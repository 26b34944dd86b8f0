//! State and events for editor presentation controls.
//!
//! This module does not edit document text.  An editor can own an
//! [`EditorOptions`] and translate its events into toolbar and menu actions at
//! the application boundary.
use vstd::prelude::*;

verus! {

/// Whether long lines remain on one visual row or wrap to the editor width.
#[derive(Clone, Copy, Debug, Eq, PartialEq, Structural)]
pub enum LineWrap {
    NoWrap,
    Wrap,
}

impl Default for LineWrap {
    fn default() -> (w: Self)
        ensures
            w == LineWrap::NoWrap,
    {
        LineWrap::NoWrap
    }
}

/// Explicit placeholder for a spellchecker whose engine is not implemented.
#[derive(Clone, Copy, Debug, Eq, PartialEq, Structural)]
pub enum SpellcheckState {
    /// Spellcheck is not implemented; this is not an enabled spellchecker.
    Unavailable,
}

impl Default for SpellcheckState {
    fn default() -> (s: Self)
        ensures
            s == SpellcheckState::Unavailable,
    {
        SpellcheckState::Unavailable
    }
}

/// Explicit placeholder for Vim emulation, kept separate from ordinary editor state.
#[derive(Clone, Copy, Debug, Eq, PartialEq, Structural)]
pub enum VimModeState {
    /// Vim mode is not implemented; the editor remains in its normal mode.
    Unavailable,
}

impl Default for VimModeState {
    fn default() -> (s: Self)
        ensures
            s == VimModeState::Unavailable,
    {
        VimModeState::Unavailable
    }
}

/// Actions exposed by a toolbar button.
#[derive(Clone, Copy, Debug, Eq, PartialEq, Structural)]
pub enum ToolbarAction {
    ToggleLineWrap,
    ToggleLineNumbers,
    ToggleFoldMarkers,
    Spellcheck,
    VimMode,
}

/// Actions exposed by an editor menu.
#[derive(Clone, Copy, Debug, Eq, PartialEq, Structural)]
pub enum MenuAction {
    ToggleLineWrap,
    ToggleLineNumbers,
    ToggleFoldMarkers,
    Spellcheck,
    VimMode,
}

/// Notifications emitted after an option changes or a placeholder is invoked.
#[derive(Clone, Copy, Debug, Eq, PartialEq, Structural)]
pub enum EditorOptionsEvent {
    LineWrapChanged(LineWrap),
    LineNumbersChanged(bool),
    FoldMarkersChanged(bool),
    SpellcheckPlaceholder,
    VimModePlaceholder,
    Toolbar(ToolbarAction),
    Menu(MenuAction),
}

/// The abstract state of [`EditorOptions`]: its three options and the pending events.
pub struct OptionsView {
    pub line_wrap: LineWrap,
    pub show_line_numbers: bool,
    pub show_fold_markers: bool,
    pub events: Seq<EditorOptionsEvent>,
}

/// UI-only options for a Markdown editor.
#[derive(Clone, Debug, Eq, PartialEq)]
pub struct EditorOptions {
    line_wrap: LineWrap,
    show_line_numbers: bool,
    show_fold_markers: bool,
    events: Vec<EditorOptionsEvent>,
}

impl View for EditorOptions {
    type V = OptionsView;

    closed spec fn view(&self) -> OptionsView {
        OptionsView {
            line_wrap: self.line_wrap,
            show_line_numbers: self.show_line_numbers,
            show_fold_markers: self.show_fold_markers,
            events: self.events@,
        }
    }
}

/// The wrap mode that a toggle switches to.
pub open spec fn flipped_wrap(w: LineWrap) -> LineWrap {
    match w {
        LineWrap::NoWrap => LineWrap::Wrap,
        LineWrap::Wrap => LineWrap::NoWrap,
    }
}

/// The state after setting the wrap mode: unchanged when equal, otherwise
/// updated with a change event appended.
pub open spec fn after_set_wrap(o: OptionsView, value: LineWrap) -> OptionsView {
    if o.line_wrap == value {
        o
    } else {
        OptionsView { line_wrap: value, events: o.events.push(EditorOptionsEvent::LineWrapChanged(value)), ..o }
    }
}

/// The state after setting line-number visibility.
pub open spec fn after_set_numbers(o: OptionsView, value: bool) -> OptionsView {
    if o.show_line_numbers == value {
        o
    } else {
        OptionsView { show_line_numbers: value, events: o.events.push(EditorOptionsEvent::LineNumbersChanged(value)), ..o }
    }
}

/// The state after setting fold-marker visibility.
pub open spec fn after_set_folds(o: OptionsView, value: bool) -> OptionsView {
    if o.show_fold_markers == value {
        o
    } else {
        OptionsView { show_fold_markers: value, events: o.events.push(EditorOptionsEvent::FoldMarkersChanged(value)), ..o }
    }
}

/// The state with one more pending event and nothing else changed.
pub open spec fn with_event(o: OptionsView, e: EditorOptionsEvent) -> OptionsView {
    OptionsView { events: o.events.push(e), ..o }
}

/// The state after a toolbar action has been applied (its own event excluded).
pub open spec fn after_toolbar(o: OptionsView, action: ToolbarAction) -> OptionsView {
    match action {
        ToolbarAction::ToggleLineWrap => after_set_wrap(o, flipped_wrap(o.line_wrap)),
        ToolbarAction::ToggleLineNumbers => after_set_numbers(o, !o.show_line_numbers),
        ToolbarAction::ToggleFoldMarkers => after_set_folds(o, !o.show_fold_markers),
        ToolbarAction::Spellcheck => with_event(o, EditorOptionsEvent::SpellcheckPlaceholder),
        ToolbarAction::VimMode => with_event(o, EditorOptionsEvent::VimModePlaceholder),
    }
}

/// The state after a menu action has been applied (its own event excluded).
pub open spec fn after_menu(o: OptionsView, action: MenuAction) -> OptionsView {
    match action {
        MenuAction::ToggleLineWrap => after_set_wrap(o, flipped_wrap(o.line_wrap)),
        MenuAction::ToggleLineNumbers => after_set_numbers(o, !o.show_line_numbers),
        MenuAction::ToggleFoldMarkers => after_set_folds(o, !o.show_fold_markers),
        MenuAction::Spellcheck => with_event(o, EditorOptionsEvent::SpellcheckPlaceholder),
        MenuAction::VimMode => with_event(o, EditorOptionsEvent::VimModePlaceholder),
    }
}

impl Default for EditorOptions {
    fn default() -> (o: Self)
        ensures
            o@.line_wrap == LineWrap::NoWrap,
            !o@.show_line_numbers,
            !o@.show_fold_markers,
            o@.events == Seq::<EditorOptionsEvent>::empty(),
    {
        EditorOptions { line_wrap: LineWrap::NoWrap, show_line_numbers: false, show_fold_markers: false, events: Vec::new() }
    }
}

impl EditorOptions {
    pub fn line_wrap(&self) -> (w: LineWrap)
        ensures
            w == self@.line_wrap,
    {
        self.line_wrap
    }

    pub fn show_line_numbers(&self) -> (b: bool)
        ensures
            b == self@.show_line_numbers,
    {
        self.show_line_numbers
    }

    pub fn show_fold_markers(&self) -> (b: bool)
        ensures
            b == self@.show_fold_markers,
    {
        self.show_fold_markers
    }

    pub fn spellcheck_state(&self) -> (s: SpellcheckState)
        ensures
            s == SpellcheckState::Unavailable,
    {
        SpellcheckState::Unavailable
    }

    pub fn vim_mode_state(&self) -> (s: VimModeState)
        ensures
            s == VimModeState::Unavailable,
    {
        VimModeState::Unavailable
    }

    pub fn set_line_wrap(&mut self, value: LineWrap)
        ensures
            final(self)@ == after_set_wrap(old(self)@, value),
    {
        if self.line_wrap != value {
            self.line_wrap = value;
            self.events.push(EditorOptionsEvent::LineWrapChanged(value));
        }
    }

    pub fn toggle_line_wrap(&mut self)
        ensures
            final(self)@ == after_set_wrap(old(self)@, flipped_wrap(old(self)@.line_wrap)),
    {
        let next = match self.line_wrap {
            LineWrap::NoWrap => LineWrap::Wrap,
            LineWrap::Wrap => LineWrap::NoWrap,
        };
        self.set_line_wrap(next);
    }

    pub fn set_line_numbers(&mut self, value: bool)
        ensures
            final(self)@ == after_set_numbers(old(self)@, value),
    {
        if self.show_line_numbers != value {
            self.show_line_numbers = value;
            self.events.push(EditorOptionsEvent::LineNumbersChanged(value));
        }
    }

    pub fn toggle_line_numbers(&mut self)
        ensures
            final(self)@ == after_set_numbers(old(self)@, !old(self)@.show_line_numbers),
    {
        let next = !self.show_line_numbers;
        self.set_line_numbers(next);
    }

    pub fn set_fold_markers(&mut self, value: bool)
        ensures
            final(self)@ == after_set_folds(old(self)@, value),
    {
        if self.show_fold_markers != value {
            self.show_fold_markers = value;
            self.events.push(EditorOptionsEvent::FoldMarkersChanged(value));
        }
    }

    pub fn toggle_fold_markers(&mut self)
        ensures
            final(self)@ == after_set_folds(old(self)@, !old(self)@.show_fold_markers),
    {
        let next = !self.show_fold_markers;
        self.set_fold_markers(next);
    }

    /// Records the toolbar action, then applies it.
    pub fn toolbar(&mut self, action: ToolbarAction)
        ensures
            final(self)@ == after_toolbar(
                with_event(old(self)@, EditorOptionsEvent::Toolbar(action)),
                action,
            ),
    {
        self.events.push(EditorOptionsEvent::Toolbar(action));
        self.apply(action);
    }

    /// Records the menu action, then applies it.
    pub fn menu(&mut self, action: MenuAction)
        ensures
            final(self)@ == after_menu(
                with_event(old(self)@, EditorOptionsEvent::Menu(action)),
                action,
            ),
    {
        self.events.push(EditorOptionsEvent::Menu(action));
        self.apply_menu(action);
    }

    /// Returns every pending event, oldest first, and leaves none pending.
    pub fn take_events(&mut self) -> (events: Vec<EditorOptionsEvent>)
        ensures
            events@ == old(self)@.events,
            final(self)@ == (OptionsView { events: Seq::<EditorOptionsEvent>::empty(), ..old(self)@ }),
    {
        let mut events = Vec::new();
        std::mem::swap(&mut events, &mut self.events);
        events
    }

    fn apply(&mut self, action: ToolbarAction)
        ensures
            final(self)@ == after_toolbar(old(self)@, action),
    {
        match action {
            ToolbarAction::ToggleLineWrap => self.toggle_line_wrap(),
            ToolbarAction::ToggleLineNumbers => self.toggle_line_numbers(),
            ToolbarAction::ToggleFoldMarkers => self.toggle_fold_markers(),
            ToolbarAction::Spellcheck => self.events.push(EditorOptionsEvent::SpellcheckPlaceholder),
            ToolbarAction::VimMode => self.events.push(EditorOptionsEvent::VimModePlaceholder),
        }
    }

    fn apply_menu(&mut self, action: MenuAction)
        ensures
            final(self)@ == after_menu(old(self)@, action),
    {
        match action {
            MenuAction::ToggleLineWrap => self.toggle_line_wrap(),
            MenuAction::ToggleLineNumbers => self.toggle_line_numbers(),
            MenuAction::ToggleFoldMarkers => self.toggle_fold_markers(),
            MenuAction::Spellcheck => self.events.push(EditorOptionsEvent::SpellcheckPlaceholder),
            MenuAction::VimMode => self.events.push(EditorOptionsEvent::VimModePlaceholder),
        }
    }
}

/// Toggling the wrap mode twice restores the original wrap mode, and every
/// toggle that changes the mode records exactly one change event.
pub proof fn lemma_toggle_wrap_twice(o: OptionsView)
    ensures
        ({
            let once = after_set_wrap(o, flipped_wrap(o.line_wrap));
            let twice = after_set_wrap(once, flipped_wrap(once.line_wrap));
            &&& twice.line_wrap == o.line_wrap
            &&& once.events == o.events.push(EditorOptionsEvent::LineWrapChanged(flipped_wrap(o.line_wrap)))
            &&& twice.events == once.events.push(EditorOptionsEvent::LineWrapChanged(o.line_wrap))
        }),
{
}

/// Setting an option to the value it already has changes nothing and emits no event.
pub proof fn lemma_set_same_is_noop(o: OptionsView)
    ensures
        after_set_wrap(o, o.line_wrap) == o,
        after_set_numbers(o, o.show_line_numbers) == o,
        after_set_folds(o, o.show_fold_markers) == o,
{
}

} // verus!
