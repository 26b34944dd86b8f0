//! Typed, filesystem-free intents emitted by the explorer UI.
//!
//! These values describe what a caller should do; they perform no filesystem
//! or workspace operation themselves.
use vstd::prelude::*;

verus! {

/// The orderings of the explorer tree.
#[derive(Clone, Copy, Debug, PartialEq, Eq, Structural)]
pub enum SortMode {
    Name,
    Modified,
    Created,
}

impl Default for SortMode {
    fn default() -> (m: Self)
        ensures
            m == SortMode::Name,
    {
        SortMode::Name
    }
}

impl SortMode {
    /// Another name for sorting by name.
    pub fn alphabetical() -> (m: Self)
        ensures
            m == SortMode::Name,
    {
        SortMode::Name
    }
}

/// The sort choices understood by the explorer intent layer.
#[derive(Clone, Copy, Debug, PartialEq, Eq, Hash, Structural)]
pub enum ExplorerSortMode {
    Name,
    Modified,
    Created,
    Kind,
}

impl Default for ExplorerSortMode {
    fn default() -> (m: Self)
        ensures
            m == ExplorerSortMode::Name,
    {
        ExplorerSortMode::Name
    }
}

pub open spec fn spec_from_sort_mode(mode: SortMode) -> ExplorerSortMode {
    match mode {
        SortMode::Name => ExplorerSortMode::Name,
        SortMode::Modified => ExplorerSortMode::Modified,
        SortMode::Created => ExplorerSortMode::Created,
    }
}

impl From<SortMode> for ExplorerSortMode {
    fn from(mode: SortMode) -> (m: Self) {
        match mode {
            SortMode::Name => ExplorerSortMode::Name,
            SortMode::Modified => ExplorerSortMode::Modified,
            SortMode::Created => ExplorerSortMode::Created,
        }
    }
}

impl vstd::std_specs::convert::FromSpecImpl<SortMode> for ExplorerSortMode {
    open spec fn obeys_from_spec() -> bool {
        true
    }

    open spec fn from_spec(mode: SortMode) -> Self {
        spec_from_sort_mode(mode)
    }
}

/// The label shown for a sort mode.
pub open spec fn sort_label(m: ExplorerSortMode) -> Seq<char> {
    match m {
        ExplorerSortMode::Name => "Name"@,
        ExplorerSortMode::Modified => "Modified"@,
        ExplorerSortMode::Created => "Created"@,
        ExplorerSortMode::Kind => "Kind"@,
    }
}

impl ExplorerSortMode {
    pub fn label(&self) -> (s: &'static str)
        ensures
            s@ == sort_label(*self),
    {
        match self {
            ExplorerSortMode::Name => "Name",
            ExplorerSortMode::Modified => "Modified",
            ExplorerSortMode::Created => "Created",
            ExplorerSortMode::Kind => "Kind",
        }
    }

    /// The text this mode is displayed as: its label.
    pub fn to_string(&self) -> (s: String)
        ensures
            s@ == sort_label(*self),
    {
        self.label().to_owned()
    }
}

/// Toolbar and context-menu commands which do not need additional arguments.
#[derive(Clone, Copy, Debug, PartialEq, Eq, Structural)]
pub enum ExplorerAction {
    NewNote,
    NewFolder,
    Rename,
    Delete,
    Move,
    Duplicate,
    Reveal,
    Open,
    CopyPath,
}

impl ExplorerAction {
    pub fn label(&self) -> (s: &'static str)
        ensures
            s@ == (match *self {
                ExplorerAction::NewNote => "New note"@,
                ExplorerAction::NewFolder => "New folder"@,
                ExplorerAction::Rename => "Rename"@,
                ExplorerAction::Delete => "Delete"@,
                ExplorerAction::Move => "Move"@,
                ExplorerAction::Duplicate => "Duplicate"@,
                ExplorerAction::Reveal => "Reveal"@,
                ExplorerAction::Open => "Open"@,
                ExplorerAction::CopyPath => "Copy path"@,
            }),
    {
        match self {
            ExplorerAction::NewNote => "New note",
            ExplorerAction::NewFolder => "New folder",
            ExplorerAction::Rename => "Rename",
            ExplorerAction::Delete => "Delete",
            ExplorerAction::Move => "Move",
            ExplorerAction::Duplicate => "Duplicate",
            ExplorerAction::Reveal => "Reveal",
            ExplorerAction::Open => "Open",
            ExplorerAction::CopyPath => "Copy path",
        }
    }
}

/// A user-level explorer interaction, containing data but no I/O behavior.
#[derive(Clone, Debug, PartialEq, Eq)]
pub enum ExplorerIntent {
    Activate,
    NewNote { parent: Option<String> },
    NewFolder { parent: Option<String> },
    Rename { path: String, new_name: String },
    Delete { path: String },
    Move { path: String, destination: String },
    Duplicate { path: String, destination: String },
    Reveal { path: String },
    Open { path: String },
    Toggle { path: String, expanded: bool },
    Select { path: String },
    SetFilter { value: String },
    SetSort { mode: ExplorerSortMode },
    DragMove { source: String, destination: String },
    ContextMenu { path: Option<String> },
}

/// The label shown for an intent.
pub open spec fn intent_label(i: ExplorerIntent) -> Seq<char> {
    match i {
        ExplorerIntent::NewNote { .. } => "New note"@,
        ExplorerIntent::NewFolder { .. } => "New folder"@,
        ExplorerIntent::Rename { .. } => "Rename"@,
        ExplorerIntent::Delete { .. } => "Delete"@,
        ExplorerIntent::Move { .. } | ExplorerIntent::DragMove { .. } => "Move"@,
        ExplorerIntent::Duplicate { .. } => "Duplicate"@,
        ExplorerIntent::Reveal { .. } => "Reveal"@,
        ExplorerIntent::Open { .. } => "Open"@,
        ExplorerIntent::Activate => "Open"@,
        ExplorerIntent::Toggle { expanded, .. } => if expanded { "Expand"@ } else { "Collapse"@ },
        ExplorerIntent::Select { .. } => "Select"@,
        ExplorerIntent::SetFilter { .. } => "Filter"@,
        ExplorerIntent::SetSort { .. } => "Sort"@,
        ExplorerIntent::ContextMenu { .. } => "Context menu"@,
    }
}

impl ExplorerIntent {
    pub fn new_note(parent: &str) -> (i: Self)
        ensures
            i matches ExplorerIntent::NewNote { parent: Some(p) } && p@ == parent@,
    {
        ExplorerIntent::NewNote { parent: Some(parent.to_owned()) }
    }

    pub fn new_root_note() -> (i: Self)
        ensures
            i matches ExplorerIntent::NewNote { parent: None },
    {
        ExplorerIntent::NewNote { parent: None }
    }

    pub fn new_folder(parent: &str) -> (i: Self)
        ensures
            i matches ExplorerIntent::NewFolder { parent: Some(p) } && p@ == parent@,
    {
        ExplorerIntent::NewFolder { parent: Some(parent.to_owned()) }
    }

    pub fn new_root_folder() -> (i: Self)
        ensures
            i matches ExplorerIntent::NewFolder { parent: None },
    {
        ExplorerIntent::NewFolder { parent: None }
    }

    pub fn label(&self) -> (s: &'static str)
        ensures
            s@ == intent_label(*self),
    {
        match self {
            ExplorerIntent::NewNote { .. } => "New note",
            ExplorerIntent::NewFolder { .. } => "New folder",
            ExplorerIntent::Rename { .. } => "Rename",
            ExplorerIntent::Delete { .. } => "Delete",
            ExplorerIntent::Move { .. } | ExplorerIntent::DragMove { .. } => "Move",
            ExplorerIntent::Duplicate { .. } => "Duplicate",
            ExplorerIntent::Reveal { .. } => "Reveal",
            ExplorerIntent::Open { .. } => "Open",
            ExplorerIntent::Activate => "Open",
            ExplorerIntent::Toggle { expanded, .. } => if *expanded { "Expand" } else { "Collapse" },
            ExplorerIntent::Select { .. } => "Select",
            ExplorerIntent::SetFilter { .. } => "Filter",
            ExplorerIntent::SetSort { .. } => "Sort",
            ExplorerIntent::ContextMenu { .. } => "Context menu",
        }
    }

    /// The text this intent is displayed as: its label.
    pub fn to_string(&self) -> (s: String)
        ensures
            s@ == intent_label(*self),
    {
        self.label().to_owned()
    }
}

} // verus!
