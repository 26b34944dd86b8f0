//! Data-only layout state used by Bases projections.
//!
//! No rendering or persistence concerns live here.  `source_index` is kept on
//! entries that can be reordered, so callers can address the original record
//! rather than a rendered position.
use vstd::prelude::*;

verus! {

/// The projections supported by a Bases view.
#[derive(Clone, Copy, Debug, Eq, PartialEq, Structural)]
pub enum LayoutKind {
    Table,
    Cards,
    List,
    MapPlaceholder,
}

impl Default for LayoutKind {
    fn default() -> (k: Self)
        ensures
            k == LayoutKind::Table,
    {
        LayoutKind::Table
    }
}

/// Visibility of a property column.
#[derive(Clone, Copy, Debug, Eq, PartialEq, Structural)]
pub enum ColumnVisibility {
    Visible,
    Hidden,
}

impl Default for ColumnVisibility {
    fn default() -> (v: Self)
        ensures
            v == ColumnVisibility::Visible,
    {
        ColumnVisibility::Visible
    }
}

/// Width policy for a property column.
#[derive(Clone, Copy, Debug, Eq, PartialEq, Structural)]
pub enum ColumnWidth {
    Auto,
    Fixed(u16),
}

impl Default for ColumnWidth {
    fn default() -> (w: Self)
        ensures
            w == ColumnWidth::Auto,
    {
        ColumnWidth::Auto
    }
}

/// A property column and its deterministic display configuration.
#[derive(Clone, Debug, Eq, PartialEq)]
pub struct PropertyColumn {
    pub property: String,
    pub source_index: usize,
    pub visibility: ColumnVisibility,
    pub width: ColumnWidth,
}

impl PropertyColumn {
    pub fn new(property: &str, source_index: usize) -> (c: Self)
        ensures
            c.property@ == property@,
            c.source_index == source_index,
            c.visibility == ColumnVisibility::Visible,
            c.width == ColumnWidth::Auto,
    {
        PropertyColumn { property: property.to_owned(), source_index, visibility: ColumnVisibility::Visible, width: ColumnWidth::Auto }
    }

    pub fn hidden(self) -> (c: Self)
        ensures
            c == (PropertyColumn { visibility: ColumnVisibility::Hidden, ..self }),
    {
        PropertyColumn { visibility: ColumnVisibility::Hidden, ..self }
    }

    pub fn with_width(self, width: ColumnWidth) -> (c: Self)
        ensures
            c == (PropertyColumn { width, ..self }),
    {
        PropertyColumn { width, ..self }
    }

    pub fn is_visible(&self) -> (b: bool)
        ensures
            b == (self.visibility == ColumnVisibility::Visible),
    {
        self.visibility == ColumnVisibility::Visible
    }
}

/// Placeholder metadata for a card cover.  It describes intent, not an image.
#[derive(Clone, Debug, Eq, PartialEq)]
pub struct CardCover {
    pub property: Option<String>,
    pub source_index: Option<usize>,
    pub aspect_ratio: Option<(u16, u16)>,
    pub placeholder_label: String,
}

impl Default for CardCover {
    fn default() -> (c: Self)
        ensures
            c.property is None,
            c.source_index is None,
            c.aspect_ratio is None,
            c.placeholder_label@.len() == 0,
    {
        CardCover { property: None, source_index: None, aspect_ratio: None, placeholder_label: String::new() }
    }
}

impl CardCover {
    pub fn placeholder(label: &str) -> (c: Self)
        ensures
            c.property is None,
            c.source_index is None,
            c.aspect_ratio is None,
            c.placeholder_label@ == label@,
    {
        CardCover { property: None, source_index: None, aspect_ratio: None, placeholder_label: label.to_owned() }
    }
}

/// Data-only configuration shared by all Bases layout projections.
#[derive(Clone, Debug, Eq, PartialEq)]
pub struct BasesLayoutState {
    pub layout: LayoutKind,
    pub columns: Vec<PropertyColumn>,
    pub card_cover: CardCover,
}

impl Default for BasesLayoutState {
    fn default() -> (s: Self)
        ensures
            s.layout == LayoutKind::Table,
            s.columns@.len() == 0,
            s.card_cover.property is None,
            s.card_cover.source_index is None,
            s.card_cover.aspect_ratio is None,
            s.card_cover.placeholder_label@.len() == 0,
    {
        BasesLayoutState { layout: LayoutKind::Table, columns: Vec::new(), card_cover: CardCover::default() }
    }
}

/// The visible columns of `cs`, in order.
pub open spec fn visible_of(cs: Seq<PropertyColumn>) -> Seq<PropertyColumn>
    decreases cs.len(),
{
    if cs.len() == 0 {
        Seq::empty()
    } else if cs.last().visibility == ColumnVisibility::Visible {
        visible_of(cs.drop_last()).push(cs.last())
    } else {
        visible_of(cs.drop_last())
    }
}

impl BasesLayoutState {
    /// The visible columns, in column order.
    pub fn visible_columns(&self) -> (v: Vec<&PropertyColumn>)
        ensures
            v@.map_values(|c: &PropertyColumn| *c) == visible_of(self.columns@),
    {
        let mut v: Vec<&PropertyColumn> = Vec::new();
        let mut i: usize = 0;
        while i < self.columns.len()
            invariant
                i <= self.columns@.len(),
                v@.map_values(|c: &PropertyColumn| *c) == visible_of(self.columns@.take(i as int)),
            decreases self.columns@.len() - i,
        {
            proof {
                assert(self.columns@.take(i + 1).drop_last() =~= self.columns@.take(i as int));
            }
            if self.columns[i].is_visible() {
                v.push(&self.columns[i]);
            }
            proof {
                assert(v@.map_values(|c: &PropertyColumn| *c) =~= visible_of(self.columns@.take(i + 1)));
            }
            i = i + 1;
        }
        proof {
            assert(self.columns@.take(self.columns@.len() as int) =~= self.columns@);
        }
        v
    }
}

/// Compact labels for a Bases toolbar.
#[derive(Clone, Copy, Debug, Eq, PartialEq, Structural)]
pub enum ToolbarAction {
    Layout,
    Properties,
    Filter,
    Sort,
    More,
}

impl ToolbarAction {
    pub fn label(self) -> (s: &'static str)
        ensures
            s@ == (match self {
                ToolbarAction::Layout => "Layout"@,
                ToolbarAction::Properties => "Properties"@,
                ToolbarAction::Filter => "Filter"@,
                ToolbarAction::Sort => "Sort"@,
                ToolbarAction::More => "More"@,
            }),
    {
        match self {
            ToolbarAction::Layout => "Layout",
            ToolbarAction::Properties => "Properties",
            ToolbarAction::Filter => "Filter",
            ToolbarAction::Sort => "Sort",
            ToolbarAction::More => "More",
        }
    }
}

/// The compact label of a layout.
pub open spec fn spec_layout_label(layout: LayoutKind) -> Seq<char> {
    match layout {
        LayoutKind::Table => "Table"@,
        LayoutKind::Cards => "Cards"@,
        LayoutKind::List => "List"@,
        LayoutKind::MapPlaceholder => "Map"@,
    }
}

/// Return the compact label for a layout selector.
pub fn layout_label(layout: LayoutKind) -> (s: &'static str)
    ensures
        s@ == spec_layout_label(layout),
{
    match layout {
        LayoutKind::Table => "Table",
        LayoutKind::Cards => "Cards",
        LayoutKind::List => "List",
        LayoutKind::MapPlaceholder => "Map",
    }
}

impl LayoutKind {
    /// The text this layout is displayed as: its compact label.
    pub fn to_string(&self) -> (s: String)
        ensures
            s@ == spec_layout_label(*self),
    {
        layout_label(*self).to_owned()
    }
}

} // verus!
