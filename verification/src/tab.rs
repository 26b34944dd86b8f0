//! Policy decisions and notices for closing editor tabs.
use vstd::prelude::*;

verus! {

/// Whether an editor tab may be closed without further confirmation.
#[derive(Debug, Clone, Copy, PartialEq, Eq, Structural)]
pub enum CloseDecision {
    /// The tab contains unsaved changes and must remain open.
    Blocked,
    /// The tab is clean (or empty) and may be closed.
    Allowed,
}

/// Decide whether a tab can be closed based on its dirty state.
pub fn close_decision(is_dirty: bool) -> (d: CloseDecision)
    ensures
        d == (if is_dirty { CloseDecision::Blocked } else { CloseDecision::Allowed }),
{
    if is_dirty {
        CloseDecision::Blocked
    } else {
        CloseDecision::Allowed
    }
}

/// State used by the tab strip, derived from the workspace rather than from
/// button intent so that no controls are offered for an empty leaf.
#[derive(Debug, Clone, Copy, PartialEq, Eq, Structural)]
pub struct TabControls {
    pub has_tab: bool,
    pub can_close: bool,
    pub can_split: bool,
}

impl TabControls {
    pub fn from_workspace(has_tab: bool, is_dirty: bool, leaf_count: usize) -> (c: Self)
        ensures
            c.has_tab == has_tab,
            c.can_close == (has_tab && !is_dirty),
            c.can_split == (has_tab && leaf_count > 1),
    {
        TabControls { has_tab, can_close: has_tab && !is_dirty, can_split: has_tab && leaf_count > 1 }
    }
}

/// The text of the notice displayed when a dirty tab cannot be closed yet.
pub open spec fn spec_dirty_close_notice() -> Seq<char> {
    "Please save your changes before closing this tab."@
}

/// Return the notice displayed when a dirty tab cannot be closed yet.
pub fn dirty_close_notice() -> (s: &'static str)
    ensures
        s@ == spec_dirty_close_notice(),
{
    "Please save your changes before closing this tab."
}

} // verus!
