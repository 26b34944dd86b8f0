//! Data-only navigation panes: a shared selection reducer, the panes built on
//! it, and the filter every pane applies to its labels.
//!
//! Nothing here touches a vault, the filesystem or the network: callers feed
//! snapshots in, reduce actions, and drain the events that come out.
use vstd::prelude::*;
use crate::knowledge::search::SearchResult;
use crate::text::{push_char, chars_of, contains_seq, contains_text, lowercase, to_lowercase, trim_ws, trimmed};
use crate::textmap::{TextMap, TextSet};
use crate::vault::{FeatureRegistry, core_feature_list, core_features, spec_enabled};

verus! {

/// The needle a filter text stands for: trimmed, then lowercased.
pub open spec fn needle_of(filter: Seq<char>) -> Seq<char> {
    lowercase(trim_ws(filter))
}

/// Whether `value` passes `filter`: an empty needle passes everything,
/// otherwise the lowercased value must hold the needle.
pub open spec fn filter_hit(value: Seq<char>, filter: Seq<char>) -> bool {
    needle_of(filter).len() == 0 || contains_seq(lowercase(value), needle_of(filter))
}

/// Unicode-aware, case-insensitive substring matching used by every pane.
pub fn matches_filter(value: &str, filter: &str) -> (b: bool)
    ensures
        b == filter_hit(value@, filter@),
{
    let fc = chars_of(filter);
    let t = trimmed(&fc, 0, fc.len());
    proof {
        assert(fc@.subrange(0, fc@.len() as int) =~= filter@);
    }
    let needle = to_lowercase(t.as_str());
    let nc = chars_of(needle.as_str());
    if nc.len() == 0 {
        return true;
    }
    let hay = to_lowercase(value);
    contains_text(hay.as_str(), needle.as_str())
}

/// What a pane reports to its host.
#[derive(Clone, Debug, PartialEq, Eq)]
pub enum PaneEvent {
    Selected(String),
    Activated(String),
    Toggled(String, bool),
    Command(String),
}

/// A pane event with its text taken as characters.
pub enum EventView {
    Selected(Seq<char>),
    Activated(Seq<char>),
    Toggled(Seq<char>, bool),
    Command(Seq<char>),
}

pub open spec fn event_view(e: PaneEvent) -> EventView {
    match e {
        PaneEvent::Selected(s) => EventView::Selected(s@),
        PaneEvent::Activated(s) => EventView::Activated(s@),
        PaneEvent::Toggled(s, open) => EventView::Toggled(s@, open),
        PaneEvent::Command(s) => EventView::Command(s@),
    }
}

pub open spec fn events_view(es: Seq<PaneEvent>) -> Seq<EventView> {
    es.map_values(|e: PaneEvent| event_view(e))
}

/// What a user asks of a pane.
#[derive(Clone, Debug, PartialEq, Eq)]
pub enum PaneAction {
    Filter(String),
    Up,
    Down,
    Home,
    End,
    Activate,
    Toggle(String),
}

/// `count - 1`, or 0 when there is nothing.
pub open spec fn last_index(count: int) -> int {
    if count > 0 { count - 1 } else { 0 }
}

/// The selection an action moves to, before it is bounded by the count.
pub open spec fn moved(action: PaneAction, sel: int, count: int) -> int {
    match action {
        PaneAction::Filter(_) => 0,
        PaneAction::Up => if sel > 0 { sel - 1 } else { 0 },
        PaneAction::Down => if sel + 1 < last_index(count) { sel + 1 } else { last_index(count) },
        PaneAction::Home => 0,
        PaneAction::End => last_index(count),
        _ => sel,
    }
}

/// The selection after an action over `count` rows: always a row, or 0.
pub open spec fn selection_after(action: PaneAction, sel: int, count: int) -> int {
    let m = moved(action, sel, count);
    if count == 0 {
        0
    } else if m > count - 1 {
        count - 1
    } else {
        m
    }
}

/// Selection is always bounded after every action: over a pane with rows it
/// is one of them, and over an empty pane it is 0.
pub proof fn lemma_selection_bounded(action: PaneAction, sel: int, count: int)
    requires
        0 <= sel,
        0 <= count,
    ensures
        count > 0 ==> 0 <= selection_after(action, sel, count) < count,
        count == 0 ==> selection_after(action, sel, count) == 0,
{
}

/// The events one action adds, given the row ids and the set of collapsed ids
/// before the action.
pub open spec fn action_events(action: PaneAction, sel: int, ids: Seq<Seq<char>>, collapsed: Set<Seq<char>>) -> Seq<EventView> {
    let n = ids.len() as int;
    let s = selection_after(action, sel, n);
    let selected = if n > 0 { seq![EventView::Selected(ids[s])] } else { Seq::empty() };
    match action {
        PaneAction::Toggle(id) => seq![EventView::Toggled(id@, collapsed.contains(id@))] + selected,
        PaneAction::Activate => if n > 0 { selected.push(EventView::Activated(ids[s])) } else { Seq::empty() },
        _ => selected,
    }
}

/// Shared reducer state for every pane: after each action the selection is a
/// visible row (or 0 when there is none).
#[derive(Clone, Debug, PartialEq, Eq)]
pub struct SelectionModel {
    pub filter: String,
    pub selected: usize,
    pub collapsed: TextSet,
    pub events: Vec<PaneEvent>,
}

impl Default for SelectionModel {
    fn default() -> (m: Self)
        ensures
            m.filter@ == Seq::<char>::empty(),
            m.selected == 0,
            m.collapsed.set() == Set::<Seq<char>>::empty(),
            m.events@ == Seq::<PaneEvent>::empty(),
    {
        SelectionModel { filter: String::new(), selected: 0, collapsed: TextSet::new(), events: Vec::new() }
    }
}

/// The texts of a list of strings.
pub open spec fn texts(v: Seq<String>) -> Seq<Seq<char>> {
    v.map_values(|s: String| s@)
}

/// Whether `after` is what reducing `action` turns `before` into, over a
/// pane whose rows have the ids `ids`.
pub open spec fn reduced(before: SelectionModel, after: SelectionModel, action: PaneAction, ids: Seq<Seq<char>>) -> bool {
    &&& after.selected == selection_after(action, before.selected as int, ids.len() as int)
    &&& after.filter@ == (match action {
        PaneAction::Filter(f) => f@,
        _ => before.filter@,
    })
    &&& after.collapsed.set() == (match action {
        PaneAction::Toggle(id) => before.collapsed.set().insert(id@),
        _ => before.collapsed.set(),
    })
    &&& events_view(after.events@) == events_view(before.events@) + action_events(
        action,
        before.selected as int,
        ids,
        before.collapsed.set(),
    )
}

impl SelectionModel {
    /// Applies `action` to a pane whose rows, in order, have the ids `ids`.
    /// The selection ends on a row (0 when there is none); a toggle records
    /// the id as collapsed; every action over a non-empty pane reports the
    /// selected row, and an activation reports the selected row once more as
    /// activated, after it.
    pub fn reduce(&mut self, action: PaneAction, ids: &Vec<String>)
        ensures
            reduced(*old(self), *final(self), action, texts(ids@)),
    {
        let count = ids.len();
        let ghost old_events = events_view(self.events@);
        let ghost sel0 = self.selected as int;
        let ghost col0 = self.collapsed.set();
        let ghost act = action;
        let moved_to: usize = match &action {
            PaneAction::Filter(_) => 0,
            PaneAction::Up => if self.selected > 0 { self.selected - 1 } else { 0 },
            PaneAction::Down => {
                let last: usize = if count > 0 { count - 1 } else { 0 };
                if self.selected < last { self.selected + 1 } else { last }
            },
            PaneAction::Home => 0,
            PaneAction::End => if count > 0 { count - 1 } else { 0 },
            _ => self.selected,
        };
        let activate = match &action {
            PaneAction::Activate => true,
            _ => false,
        };
        match action {
            PaneAction::Filter(f) => {
                self.filter = f;
            },
            PaneAction::Toggle(id) => {
                let added = self.collapsed.insert(id.clone());
                self.events.push(PaneEvent::Toggled(id, !added));
            },
            _ => {},
        }
        self.selected = if count == 0 {
            0
        } else if moved_to > count - 1 {
            count - 1
        } else {
            moved_to
        };
        if count > 0 {
            let id = ids[self.selected].clone();
            self.events.push(PaneEvent::Selected(id));
            if activate {
                let id = ids[self.selected].clone();
                self.events.push(PaneEvent::Activated(id));
            }
        }
        proof {
            let n = ids@.len() as int;
            let s = self.selected as int;
            if n > 0 {
                assert(texts(ids@)[s] == ids@[s]@);
            }
            assert(events_view(self.events@) =~= old_events + action_events(act, sel0, texts(ids@), col0));
        }
    }

    /// Drains the events recorded so far, oldest first.
    pub fn take_events(&mut self) -> (es: Vec<PaneEvent>)
        ensures
            es@ == old(self).events@,
            final(self).events@ == Seq::<PaneEvent>::empty(),
            final(self).filter == old(self).filter,
            final(self).selected == old(self).selected,
            final(self).collapsed == old(self).collapsed,
    {
        let mut es: Vec<PaneEvent> = Vec::new();
        std::mem::swap(&mut es, &mut self.events);
        es
    }
}

/// The elements of `xs` that `keep` holds of, in order.
pub open spec fn kept<T>(xs: Seq<T>, keep: spec_fn(T) -> bool) -> Seq<T>
    decreases xs.len(),
{
    if xs.len() == 0 {
        Seq::empty()
    } else if keep(xs.last()) {
        kept(xs.drop_last(), keep).push(xs.last())
    } else {
        kept(xs.drop_last(), keep)
    }
}

/// A labelled row of a list pane.
#[derive(Clone, Debug, PartialEq, Eq)]
pub struct LabelItem {
    pub id: String,
    pub label: String,
}

/// The label rows of `items` that pass `filter`.
pub open spec fn label_rows(items: Seq<LabelItem>, filter: Seq<char>) -> Seq<LabelItem> {
    kept(items, |x: LabelItem| filter_hit(x.label@, filter))
}

pub open spec fn label_ids(rows: Seq<LabelItem>) -> Seq<Seq<char>> {
    rows.map_values(|x: LabelItem| x.id@)
}

/// The items whose labels pass `filter`, in order.
fn visible_labels<'a>(items: &'a Vec<LabelItem>, filter: &str) -> (out: Vec<&'a LabelItem>)
    ensures
        out@.map_values(|x: &LabelItem| *x) == label_rows(items@, filter@),
{
    let mut out: Vec<&'a LabelItem> = Vec::new();
    let mut i: usize = 0;
    while i < items.len()
        invariant
            i <= items@.len(),
            out@.map_values(|x: &LabelItem| *x) == label_rows(items@.take(i as int), filter@),
        decreases items@.len() - i,
    {
        proof {
            assert(items@.take(i + 1).drop_last() =~= items@.take(i as int));
            assert(items@.take(i + 1).last() == items@[i as int]);
        }
        if matches_filter(items[i].label.as_str(), filter) {
            out.push(&items[i]);
        }
        proof {
            assert(out@.map_values(|x: &LabelItem| *x) =~= label_rows(items@.take(i + 1), filter@));
        }
        i = i + 1;
    }
    proof {
        assert(items@.take(items@.len() as int) =~= items@);
    }
    out
}

/// The ids of some label rows.
fn ids_of_labels(rows: &Vec<&LabelItem>) -> (ids: Vec<String>)
    ensures
        texts(ids@) == label_ids(rows@.map_values(|x: &LabelItem| *x)),
{
    let mut ids: Vec<String> = Vec::new();
    let mut i: usize = 0;
    while i < rows.len()
        invariant
            i <= rows@.len(),
            texts(ids@) == label_ids(rows@.map_values(|x: &LabelItem| *x)).take(i as int),
        decreases rows@.len() - i,
    {
        let id = rows[i].id.clone();
        proof {
            assert(id@ == rows@[i as int].id@);
            assert(label_ids(rows@.map_values(|x: &LabelItem| *x))[i as int] == rows@[i as int].id@);
        }
        let ghost before = ids@;
        ids.push(id);
        proof {
            assert(texts(ids@) =~= texts(before).push(id@));
            assert(texts(ids@) =~= label_ids(rows@.map_values(|x: &LabelItem| *x)).take(i + 1));
        }
        i = i + 1;
    }
    proof {
        assert(label_ids(rows@.map_values(|x: &LabelItem| *x)).take(i as int) =~= label_ids(rows@.map_values(|x: &LabelItem| *x)));
    }
    ids
}

/// A list pane: quick switcher, command palette, backlinks, outgoing links,
/// outline, tags, properties, bookmarks, graph list and legend all share it.
#[derive(Clone, Debug)]
pub struct ListPaneModel {
    pub items: Vec<LabelItem>,
    pub state: SelectionModel,
    pub feature_enabled: bool,
}

impl Default for ListPaneModel {
    fn default() -> (m: Self)
        ensures
            m.items@ == Seq::<LabelItem>::empty(),
            m.state.filter@ == Seq::<char>::empty(),
            m.state.selected == 0,
            m.state.collapsed.set() == Set::<Seq<char>>::empty(),
            m.state.events@ == Seq::<PaneEvent>::empty(),
            !m.feature_enabled,
    {
        ListPaneModel { items: Vec::new(), state: SelectionModel::default(), feature_enabled: false }
    }
}

impl ListPaneModel {
    /// The items whose labels pass the current filter.
    pub fn visible(&self) -> (out: Vec<&LabelItem>)
        ensures
            out@.map_values(|x: &LabelItem| *x) == label_rows(self.items@, self.state.filter@),
    {
        visible_labels(&self.items, self.state.filter.as_str())
    }

    /// Reduces `action` over the visible rows.
    pub fn reduce(&mut self, action: PaneAction)
        ensures
            reduced(old(self).state, final(self).state, action, label_ids(label_rows(old(self).items@, old(self).state.filter@))),
            final(self).items == old(self).items,
            final(self).feature_enabled == old(self).feature_enabled,
    {
        let rows = self.visible();
        let ids = ids_of_labels(&rows);
        self.state.reduce(action, &ids);
    }
}

/// A node of the file tree shown by the explorer pane.
#[derive(Debug)]
pub struct FileNode {
    pub id: String,
    pub label: String,
    pub folder: bool,
    pub children: Vec<FileNode>,
}

/// The rows of a file tree, depth first: a node is a row when its label
/// passes `filter`, and the children of a folder that is not collapsed follow
/// it, whether or not the folder itself is a row.
pub open spec fn flat_nodes(ns: Seq<FileNode>, collapsed: Set<Seq<char>>, filter: Seq<char>) -> Seq<FileNode>
    decreases ns,
{
    if ns.len() == 0 {
        Seq::empty()
    } else {
        let n = ns.last();
        let head: Seq<FileNode> = if filter_hit(n.label@, filter) { seq![n] } else { Seq::empty() };
        proof {
            assert(decreases_to!(ns => ns[ns.len() - 1]));
            assert(decreases_to!(ns[ns.len() - 1] => ns[ns.len() - 1].children));
        }
        let sub = if n.folder && !collapsed.contains(n.id@) {
            flat_nodes(n.children@, collapsed, filter)
        } else {
            Seq::empty()
        };
        flat_nodes(ns.drop_last(), collapsed, filter) + head + sub
    }
}

fn flatten_nodes<'a>(nodes: &'a Vec<FileNode>, collapsed: &TextSet, filter: &str) -> (out: Vec<&'a FileNode>)
    ensures
        out@.map_values(|x: &FileNode| *x) == flat_nodes(nodes@, collapsed.set(), filter@),
    decreases nodes@,
{
    let mut out: Vec<&'a FileNode> = Vec::new();
    let mut i: usize = 0;
    while i < nodes.len()
        invariant
            i <= nodes@.len(),
            out@.map_values(|x: &FileNode| *x) == flat_nodes(nodes@.take(i as int), collapsed.set(), filter@),
        decreases nodes@.len() - i,
    {
        let ghost pre = out@.map_values(|x: &FileNode| *x);
        let node = &nodes[i];
        proof {
            assert(nodes@.take(i + 1).drop_last() =~= nodes@.take(i as int));
            assert(nodes@.take(i + 1).last() == nodes@[i as int]);
        }
        let hit = matches_filter(node.label.as_str(), filter);
        if hit {
            out.push(node);
        }
        let ghost mid = out@.map_values(|x: &FileNode| *x);
        proof {
            if hit {
                assert(mid =~= pre + seq![nodes@[i as int]]);
            } else {
                assert(mid =~= pre);
            }
        }
        if node.folder && !collapsed.contains(node.id.as_str()) {
            proof {
                assert(decreases_to!(nodes@ => nodes@[i as int]));
            }
            let mut sub = flatten_nodes(&node.children, collapsed, filter);
            let ghost subv = sub@.map_values(|x: &FileNode| *x);
            out.append(&mut sub);
            proof {
                assert(out@.map_values(|x: &FileNode| *x) =~= mid + subv);
            }
        }
        proof {
            assert(out@.map_values(|x: &FileNode| *x) =~= flat_nodes(nodes@.take(i + 1), collapsed.set(), filter@));
        }
        i = i + 1;
    }
    proof {
        assert(nodes@.take(nodes@.len() as int) =~= nodes@);
    }
    out
}

pub open spec fn node_ids(rows: Seq<FileNode>) -> Seq<Seq<char>> {
    rows.map_values(|x: FileNode| x.id@)
}

fn ids_of_nodes(rows: &Vec<&FileNode>) -> (ids: Vec<String>)
    ensures
        texts(ids@) == node_ids(rows@.map_values(|x: &FileNode| *x)),
{
    let mut ids: Vec<String> = Vec::new();
    let mut i: usize = 0;
    while i < rows.len()
        invariant
            i <= rows@.len(),
            texts(ids@) == node_ids(rows@.map_values(|x: &FileNode| *x)).take(i as int),
        decreases rows@.len() - i,
    {
        let id = rows[i].id.clone();
        proof {
            assert(node_ids(rows@.map_values(|x: &FileNode| *x))[i as int] == rows@[i as int].id@);
        }
        let ghost before = ids@;
        ids.push(id);
        proof {
            assert(texts(ids@) =~= texts(before).push(id@));
            assert(texts(ids@) =~= node_ids(rows@.map_values(|x: &FileNode| *x)).take(i + 1));
        }
        i = i + 1;
    }
    proof {
        assert(node_ids(rows@.map_values(|x: &FileNode| *x)).take(i as int) =~= node_ids(rows@.map_values(|x: &FileNode| *x)));
    }
    ids
}

/// The file explorer pane over a tree of nodes.
#[derive(Debug)]
pub struct FileExplorerModel {
    pub nodes: Vec<FileNode>,
    pub state: SelectionModel,
    pub feature_enabled: bool,
}

impl Default for FileExplorerModel {
    fn default() -> (m: Self)
        ensures
            m.nodes@ == Seq::<FileNode>::empty(),
            m.state.filter@ == Seq::<char>::empty(),
            m.state.selected == 0,
            m.state.collapsed.set() == Set::<Seq<char>>::empty(),
            m.state.events@ == Seq::<PaneEvent>::empty(),
            !m.feature_enabled,
    {
        FileExplorerModel { nodes: Vec::new(), state: SelectionModel::default(), feature_enabled: false }
    }
}

impl FileExplorerModel {
    /// An explorer over `nodes`, with a fresh selection and the pane enabled.
    pub fn new(nodes: Vec<FileNode>) -> (m: Self)
        ensures
            m.nodes@ == nodes@,
            m.state.filter@ == Seq::<char>::empty(),
            m.state.selected == 0,
            m.state.collapsed.set() == Set::<Seq<char>>::empty(),
            m.state.events@ == Seq::<PaneEvent>::empty(),
            m.feature_enabled,
    {
        FileExplorerModel { nodes, state: SelectionModel::default(), feature_enabled: true }
    }

    /// The visible rows: see `flat_nodes`.
    pub fn visible(&self) -> (out: Vec<&FileNode>)
        ensures
            out@.map_values(|x: &FileNode| *x) == flat_nodes(self.nodes@, self.state.collapsed.set(), self.state.filter@),
    {
        flatten_nodes(&self.nodes, &self.state.collapsed, self.state.filter.as_str())
    }

    /// Reduces `action` over the rows visible before it.
    pub fn reduce(&mut self, action: PaneAction)
        ensures
            reduced(
                old(self).state,
                final(self).state,
                action,
                node_ids(flat_nodes(old(self).nodes@, old(self).state.collapsed.set(), old(self).state.filter@)),
            ),
            final(self).nodes == old(self).nodes,
            final(self).feature_enabled == old(self).feature_enabled,
    {
        let rows = self.visible();
        let ids = ids_of_nodes(&rows);
        self.state.reduce(action, &ids);
    }

    /// Drains the pane's events, oldest first.
    pub fn take_events(&mut self) -> (es: Vec<PaneEvent>)
        ensures
            es@ == old(self).state.events@,
            final(self).state.events@ == Seq::<PaneEvent>::empty(),
            final(self).state.selected == old(self).state.selected,
            final(self).nodes == old(self).nodes,
    {
        self.state.take_events()
    }
}

/// A search hit shown in the search pane.
#[derive(Clone, Debug, PartialEq, Eq)]
pub struct SearchItem {
    pub path: String,
    pub snippet: String,
    pub score: u32,
}

impl From<SearchResult> for SearchItem {
    fn from(result: SearchResult) -> (item: Self) {
        SearchItem { path: result.path, snippet: result.snippet, score: result.score }
    }
}

impl vstd::std_specs::convert::FromSpecImpl<SearchResult> for SearchItem {
    open spec fn obeys_from_spec() -> bool {
        true
    }

    open spec fn from_spec(v: SearchResult) -> SearchItem {
        SearchItem { path: v.path, snippet: v.snippet, score: v.score }
    }
}

/// The text a search row is filtered by: its path, a space, its snippet.
pub open spec fn search_text(x: SearchItem) -> Seq<char> {
    x.path@ + seq![' '] + x.snippet@
}

pub open spec fn search_rows(items: Seq<SearchItem>, filter: Seq<char>) -> Seq<SearchItem> {
    kept(items, |x: SearchItem| filter_hit(search_text(x), filter))
}

pub open spec fn search_ids(rows: Seq<SearchItem>) -> Seq<Seq<char>> {
    rows.map_values(|x: SearchItem| x.path@)
}

/// The search pane.
#[derive(Clone, Debug)]
pub struct SearchResultsModel {
    pub items: Vec<SearchItem>,
    pub state: SelectionModel,
    pub feature_enabled: bool,
}

impl Default for SearchResultsModel {
    fn default() -> (m: Self)
        ensures
            m.items@ == Seq::<SearchItem>::empty(),
            m.state.filter@ == Seq::<char>::empty(),
            m.state.selected == 0,
            m.state.collapsed.set() == Set::<Seq<char>>::empty(),
            m.state.events@ == Seq::<PaneEvent>::empty(),
            !m.feature_enabled,
    {
        SearchResultsModel { items: Vec::new(), state: SelectionModel::default(), feature_enabled: false }
    }
}

impl SearchResultsModel {
    /// The hits whose path and snippet pass the current filter.
    pub fn visible(&self) -> (out: Vec<&SearchItem>)
        ensures
            out@.map_values(|x: &SearchItem| *x) == search_rows(self.items@, self.state.filter@),
    {
        let filter = self.state.filter.as_str();
        let items = &self.items;
        let mut out: Vec<&SearchItem> = Vec::new();
        let mut i: usize = 0;
        while i < items.len()
            invariant
                i <= items@.len(),
                items == &self.items,
                filter@ == self.state.filter@,
                out@.map_values(|x: &SearchItem| *x) == search_rows(items@.take(i as int), filter@),
            decreases items@.len() - i,
        {
            proof {
                assert(items@.take(i + 1).drop_last() =~= items@.take(i as int));
                assert(items@.take(i + 1).last() == items@[i as int]);
            }
            let mut text = items[i].path.clone();
            push_char(&mut text, ' ');
            text.append(items[i].snippet.as_str());
            proof {
                assert(text@ == search_text(items@[i as int]));
            }
            if matches_filter(text.as_str(), filter) {
                out.push(&items[i]);
            }
            proof {
                assert(out@.map_values(|x: &SearchItem| *x) =~= search_rows(items@.take(i + 1), filter@));
            }
            i = i + 1;
        }
        proof {
            assert(items@.take(items@.len() as int) =~= items@);
        }
        out
    }

    /// Reduces `action` over the visible hits, identified by path.
    pub fn reduce(&mut self, action: PaneAction)
        ensures
            reduced(old(self).state, final(self).state, action, search_ids(search_rows(old(self).items@, old(self).state.filter@))),
            final(self).items == old(self).items,
            final(self).feature_enabled == old(self).feature_enabled,
    {
        let rows = self.visible();
        let mut ids: Vec<String> = Vec::new();
        let mut i: usize = 0;
        while i < rows.len()
            invariant
                i <= rows@.len(),
                texts(ids@) == search_ids(rows@.map_values(|x: &SearchItem| *x)).take(i as int),
            decreases rows@.len() - i,
        {
            let id = rows[i].path.clone();
            proof {
                assert(search_ids(rows@.map_values(|x: &SearchItem| *x))[i as int] == rows@[i as int].path@);
            }
            let ghost before = ids@;
            ids.push(id);
            proof {
                assert(texts(ids@) =~= texts(before).push(id@));
                assert(texts(ids@) =~= search_ids(rows@.map_values(|x: &SearchItem| *x)).take(i + 1));
            }
            i = i + 1;
        }
        proof {
            assert(search_ids(rows@.map_values(|x: &SearchItem| *x)).take(i as int) =~= search_ids(
                rows@.map_values(|x: &SearchItem| *x),
            ));
        }
        self.state.reduce(action, &ids);
    }
}

/// Which features are visible; a feature that is not listed is visible.
#[derive(Clone, Debug)]
pub struct FeatureVisibility(pub TextMap<bool>);

impl Default for FeatureVisibility {
    fn default() -> (v: Self)
        ensures
            v.0.map() == Map::<Seq<char>, bool>::empty(),
    {
        FeatureVisibility(TextMap::new())
    }
}

/// Whether `feature` is visible under the listing `m`.
pub open spec fn visible_feature(m: Map<Seq<char>, bool>, feature: Seq<char>) -> bool {
    !m.contains_key(feature) || m[feature]
}

impl FeatureVisibility {
    /// Lists every core feature with whether `registry` has it on.
    pub fn from_registry(registry: &FeatureRegistry) -> (v: Self)
        ensures
            forall|k: Seq<char>| #[trigger] v.0.map().contains_key(k) <==> core_feature_list().contains(k),
            forall|k: Seq<char>| v.0.map().contains_key(k) ==> #[trigger] v.0.map()[k] == spec_enabled(registry@, k),
    {
        let features = core_features();
        let mut m: TextMap<bool> = TextMap::new();
        let mut i: usize = 0;
        while i < features.len()
            invariant
                i <= features@.len(),
                features@.map_values(|s: &str| s@) == core_feature_list(),
                forall|k: Seq<char>| #[trigger] m.map().contains_key(k) <==> core_feature_list().take(i as int).contains(k),
                forall|k: Seq<char>| m.map().contains_key(k) ==> #[trigger] m.map()[k] == spec_enabled(registry@, k),
            decreases features@.len() - i,
        {
            let f = features[i];
            proof {
                assert(core_feature_list()[i as int] == f@);
                assert(core_feature_list().take(i + 1) =~= core_feature_list().take(i as int).push(f@));
            }
            let on = registry.is_enabled(f);
            let ghost old_m = m.map();
            let key = f.to_string();
            proof {
                assert(key@ == f@);
            }
            m.insert(key, on);
            proof {
                assert(m.map() == old_m.insert(f@, on));
                assert forall|k: Seq<char>| core_feature_list().take(i + 1).contains(k) <==> (core_feature_list().take(
                    i as int,
                ).contains(k) || k == f@) by {
                    if k == f@ {
                        assert(core_feature_list().take(i + 1)[i as int] == k);
                    }
                    if core_feature_list().take(i as int).contains(k) {
                        let j = choose|j: int| 0 <= j < i && core_feature_list().take(i as int)[j] == k;
                        assert(core_feature_list().take(i + 1)[j] == k);
                    }
                }
                assert forall|k: Seq<char>| #[trigger] m.map().contains_key(k) <==> core_feature_list().take(i + 1).contains(k) by {
                    assert(m.map().contains_key(k) <==> (old_m.contains_key(k) || k == f@));
                    assert(old_m.contains_key(k) <==> core_feature_list().take(i as int).contains(k));
                }
            }
            i = i + 1;
        }
        proof {
            assert(core_feature_list().take(i as int) =~= core_feature_list());
        }
        FeatureVisibility(m)
    }

    /// Whether `feature` is visible: listed on, or not listed at all.
    pub fn enabled(&self, feature: &str) -> (b: bool)
        ensures
            b == visible_feature(self.0.map(), feature@),
    {
        match self.0.get(feature) {
            Some(v) => *v,
            None => true,
        }
    }
}

/// A titled list pane gated by a feature.
#[derive(Clone, Debug)]
pub struct NavigationPane {
    pub title: String,
    pub items: Vec<LabelItem>,
    pub feature: String,
    pub features: FeatureVisibility,
    pub state: SelectionModel,
}

impl NavigationPane {
    pub fn new(title: &str, feature: &str, items: Vec<LabelItem>) -> (p: Self)
        ensures
            p.title@ == title@,
            p.feature@ == feature@,
            p.items@ == items@,
            p.features.0.map() == Map::<Seq<char>, bool>::empty(),
            p.state.filter@ == Seq::<char>::empty(),
            p.state.selected == 0,
            p.state.collapsed.set() == Set::<Seq<char>>::empty(),
            p.state.events@ == Seq::<PaneEvent>::empty(),
    {
        NavigationPane {
            title: title.to_string(),
            feature: feature.to_string(),
            items,
            features: FeatureVisibility::default(),
            state: SelectionModel::default(),
        }
    }

    /// The items whose labels pass the current filter.
    pub fn visible(&self) -> (out: Vec<&LabelItem>)
        ensures
            out@.map_values(|x: &LabelItem| *x) == label_rows(self.items@, self.state.filter@),
    {
        visible_labels(&self.items, self.state.filter.as_str())
    }
}

} // verus!
