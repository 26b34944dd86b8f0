//! Plain data of the hierarchical explorer: the inputs it is built from, the
//! kinds of its nodes and the rows it shows.
use vstd::prelude::*;
use crate::knowledge::{insert_with, lemma_sort_with_sorted, ordered_by, sort_with, strict_weak};
use crate::explorer_intents::SortMode;
use crate::textmap::TextSet;
use crate::text::{lemma_text_lt_order, lower_ascii_range, lower_ascii_seq, index_of, index_of_in, lemma_index_of, string_of, contains_seq, contains_text, compare_str, text_lt, push_char, str_eq, chars_of, lowercase, rfind_chars, rfind_seq, string_from_chars, sub_chars, to_lowercase, vec_eq};

verus! {

/// The kind of a file in the explorer, by its extension.
#[derive(Clone, Debug, PartialEq, Eq)]
pub enum FileKind {
    Markdown,
    Canvas,
    Image,
    Pdf,
    Audio,
    Video,
    Other(String),
}

impl FileKind {
    /// The one-character glyph shown beside a file of this kind.
    pub fn glyph(&self) -> (g: &'static str)
        ensures
            g@ == match self {
                FileKind::Markdown => "M"@,
                FileKind::Canvas => "C"@,
                FileKind::Image => "I"@,
                FileKind::Pdf => "P"@,
                FileKind::Audio => "A"@,
                FileKind::Video => "V"@,
                FileKind::Other(_) => "•"@,
            },
    {
        match self {
            FileKind::Markdown => "M",
            FileKind::Canvas => "C",
            FileKind::Image => "I",
            FileKind::Pdf => "P",
            FileKind::Audio => "A",
            FileKind::Video => "V",
            FileKind::Other(_) => "•",
        }
    }
}

/// The text after the last `.` of a name, or the whole name.
pub open spec fn last_dot_part(name: Seq<char>) -> Seq<char> {
    match rfind_seq(name, seq!['.']) {
        Some(k) => name.skip(k + 1),
        None => name,
    }
}

/// The known kind a lowercased extension text names, if any.
pub open spec fn kind_named(x: Seq<char>) -> Option<FileKind> {
    if x == seq!['m', 'd'] || x == seq!['m', 'a', 'r', 'k', 'd', 'o', 'w', 'n'] {
        Some(FileKind::Markdown)
    } else if x == seq!['c', 'a', 'n', 'v', 'a', 's'] {
        Some(FileKind::Canvas)
    } else if x == seq!['p', 'n', 'g'] || x == seq!['j', 'p', 'g'] || x == seq!['j', 'p', 'e', 'g'] || x == seq!['g', 'i', 'f']
        || x == seq!['w', 'e', 'b', 'p'] {
        Some(FileKind::Image)
    } else if x == seq!['p', 'd', 'f'] {
        Some(FileKind::Pdf)
    } else if x == seq!['m', 'p', '3'] || x == seq!['w', 'a', 'v'] || x == seq!['o', 'g', 'g'] {
        Some(FileKind::Audio)
    } else if x == seq!['m', 'p', '4'] || x == seq!['w', 'e', 'b', 'm'] || x == seq!['m', 'o', 'v'] {
        Some(FileKind::Video)
    } else {
        None
    }
}

/// Whether `k` is the kind of a file named `name`: a known kind for a known
/// extension, and otherwise `Other` holding the lowercased extension text.
pub open spec fn is_kind_for(name: Seq<char>, k: FileKind) -> bool {
    let x = lowercase(last_dot_part(name));
    match kind_named(x) {
        Some(known) => k == known,
        None => k matches FileKind::Other(s) && s@ == x,
    }
}

fn is(x: &Vec<char>, w: Vec<char>) -> (b: bool)
    ensures
        b == (x@ == w@),
{
    vec_eq(x, &w)
}

/// The kind of a file named `name` (see `is_kind_for`).
pub fn kind_for(name: &str) -> (k: FileKind)
    ensures
        is_kind_for(name@, k),
        file_kind_view(k) == kind_of_name(name@),
{
    let cs = chars_of(name);
    let dot = vec!['.'];
    proof {
        assert(dot@ =~= seq!['.']);
    }
    let start = match rfind_chars(&cs, &dot) {
        Some(k) => {
            let n = cs.len();
            proof {
                assert(cs@.skip(k as int).take(1) == dot@);
                assert(k < n);
            }
            k + 1
        },
        None => 0,
    };
    let tail = sub_chars(&cs, start, cs.len());
    proof {
        assert(tail@ =~= last_dot_part(name@));
    }
    let tail_text = string_from_chars(&tail);
    let low = to_lowercase(tail_text.as_str());
    let x = chars_of(low.as_str());
    if is(&x, vec!['m', 'd']) || is(&x, vec!['m', 'a', 'r', 'k', 'd', 'o', 'w', 'n']) {
        FileKind::Markdown
    } else if is(&x, vec!['c', 'a', 'n', 'v', 'a', 's']) {
        FileKind::Canvas
    } else if is(&x, vec!['p', 'n', 'g']) || is(&x, vec!['j', 'p', 'g']) || is(&x, vec!['j', 'p', 'e', 'g']) || is(
        &x,
        vec!['g', 'i', 'f'],
    ) || is(&x, vec!['w', 'e', 'b', 'p']) {
        FileKind::Image
    } else if is(&x, vec!['p', 'd', 'f']) {
        FileKind::Pdf
    } else if is(&x, vec!['m', 'p', '3']) || is(&x, vec!['w', 'a', 'v']) || is(&x, vec!['o', 'g', 'g']) {
        FileKind::Audio
    } else if is(&x, vec!['m', 'p', '4']) || is(&x, vec!['w', 'e', 'b', 'm']) || is(&x, vec!['m', 'o', 'v']) {
        FileKind::Video
    } else {
        FileKind::Other(low)
    }
}

/// A node of the explorer tree: a folder, or a file of some kind.
#[derive(Clone, Debug, PartialEq, Eq)]
pub enum ExplorerNodeKind {
    Folder,
    File(FileKind),
}

/// A row of the explorer as shown.
#[derive(Clone, Debug, PartialEq, Eq)]
pub struct VisibleExplorerRow {
    pub path: String,
    pub name: String,
    pub kind: ExplorerNodeKind,
    pub depth: usize,
    pub expanded: bool,
    pub selected: bool,
    pub glyph: &'static str,
}

impl VisibleExplorerRow {
    pub fn path(&self) -> (p: &str)
        ensures
            p@ == self.path@,
    {
        self.path.as_str()
    }

    pub fn is_folder(&self) -> (b: bool)
        ensures
            b == (self.kind matches ExplorerNodeKind::Folder),
    {
        match self.kind {
            ExplorerNodeKind::Folder => true,
            _ => false,
        }
    }
}

/// A file the explorer is built from: its vault path and its times.
#[derive(Clone, Debug, PartialEq, Eq)]
pub struct ExplorerFileInput {
    pub path: String,
    pub modified: Option<i64>,
    pub created: Option<i64>,
}

impl Default for ExplorerFileInput {
    fn default() -> (i: Self)
        ensures
            i.path@.len() == 0,
            i.modified is None,
            i.created is None,
    {
        ExplorerFileInput { path: String::new(), modified: None, created: None }
    }
}

impl ExplorerFileInput {
    /// An input for `path` with no times.
    pub fn new(path: &str) -> (i: Self)
        ensures
            i.path@ == path@,
            i.modified is None,
            i.created is None,
    {
        ExplorerFileInput { path: path.to_string(), modified: None, created: None }
    }
}

impl From<String> for ExplorerFileInput {
    fn from(path: String) -> (i: Self) {
        ExplorerFileInput { path, modified: None, created: None }
    }
}

impl vstd::std_specs::convert::FromSpecImpl<String> for ExplorerFileInput {
    open spec fn obeys_from_spec() -> bool {
        true
    }

    open spec fn from_spec(v: String) -> ExplorerFileInput {
        ExplorerFileInput { path: v, modified: None, created: None }
    }
}

/// A node of the explorer tree.
#[derive(Debug)]
pub struct ExplorerNode {
    pub path: String,
    pub name: String,
    pub kind: ExplorerNodeKind,
    pub modified: Option<i64>,
    pub created: Option<i64>,
    pub children: Vec<ExplorerNode>,
}

/// The kind of a file, with the text of an unknown extension as characters.
pub enum FileKindView {
    Markdown,
    Canvas,
    Image,
    Pdf,
    Audio,
    Video,
    Other(Seq<char>),
}

/// The kind of a node, as [`ExplorerNodeKind`] with texts as characters.
pub enum KindView {
    Folder,
    File(FileKindView),
}

pub open spec fn file_kind_view(k: FileKind) -> FileKindView {
    match k {
        FileKind::Markdown => FileKindView::Markdown,
        FileKind::Canvas => FileKindView::Canvas,
        FileKind::Image => FileKindView::Image,
        FileKind::Pdf => FileKindView::Pdf,
        FileKind::Audio => FileKindView::Audio,
        FileKind::Video => FileKindView::Video,
        FileKind::Other(s) => FileKindView::Other(s@),
    }
}

pub open spec fn kind_view(k: ExplorerNodeKind) -> KindView {
    match k {
        ExplorerNodeKind::Folder => KindView::Folder,
        ExplorerNodeKind::File(f) => KindView::File(file_kind_view(f)),
    }
}

/// The kind of a file named `name` (see `kind_for`).
pub open spec fn kind_of_name(name: Seq<char>) -> FileKindView {
    let x = lowercase(last_dot_part(name));
    match kind_named(x) {
        Some(k) => file_kind_view(k),
        None => FileKindView::Other(x),
    }
}

/// A node of the explorer tree with its texts as characters.
pub struct NodeView {
    pub path: Seq<char>,
    pub name: Seq<char>,
    pub kind: KindView,
    pub modified: Option<i64>,
    pub created: Option<i64>,
    pub children: Seq<NodeView>,
}

pub open spec fn nview(n: ExplorerNode) -> NodeView
    decreases n,
{
    proof {
        assert(decreases_to!(n => n.children));
    }
    NodeView {
        path: n.path@,
        name: n.name@,
        kind: kind_view(n.kind),
        modified: n.modified,
        created: n.created,
        children: nviews(n.children@),
    }
}

pub open spec fn nviews(xs: Seq<ExplorerNode>) -> Seq<NodeView>
    decreases xs,
{
    if xs.len() == 0 {
        Seq::empty()
    } else {
        proof {
            assert(decreases_to!(xs => xs[xs.len() - 1]));
        }
        nviews(xs.drop_last()).push(nview(xs.last()))
    }
}

/// The view of a list of nodes is the list of their views.
pub proof fn lemma_nviews(xs: Seq<ExplorerNode>)
    ensures
        nviews(xs).len() == xs.len(),
        forall|i: int| 0 <= i < xs.len() ==> #[trigger] nviews(xs)[i] == nview(xs[i]),
    decreases xs.len(),
{
    if xs.len() > 0 {
        lemma_nviews(xs.drop_last());
    }
}

/// `name` under the folder `pre`.
pub open spec fn join_path(pre: Seq<char>, name: Seq<char>) -> Seq<char> {
    if pre.len() == 0 {
        name
    } else {
        pre + seq!['/'] + name
    }
}

/// The index of the first node of `vs` from `i` on whose path is `path`.
pub open spec fn first_at(vs: Seq<NodeView>, path: Seq<char>, i: int) -> Option<int>
    decreases vs.len() - i,
{
    if i < 0 || i >= vs.len() {
        None
    } else if vs[i].path == path {
        Some(i)
    } else {
        first_at(vs, path, i + 1)
    }
}

/// The nodes `vs` (under the folder `pre`) with the path made of the names
/// `parts[i..]` added: each name is looked up among the nodes of its level
/// by its path and added as a folder (the last as a file) where it is
/// missing; a file that is already there takes the new times.
pub open spec fn with_path(
    vs: Seq<NodeView>,
    parts: Seq<Seq<char>>,
    i: int,
    pre: Seq<char>,
    modified: Option<i64>,
    created: Option<i64>,
) -> Seq<NodeView>
    decreases parts.len() - i,
{
    if i < 0 || i >= parts.len() {
        vs
    } else {
        let path = join_path(pre, parts[i]);
        let is_file = i + 1 == parts.len();
        match first_at(vs, path, 0) {
            Some(p) => {
                let n = vs[p];
                vs.update(
                    p,
                    NodeView {
                        modified: if is_file { modified } else { n.modified },
                        created: if is_file { created } else { n.created },
                        children: with_path(n.children, parts, i + 1, path, modified, created),
                        ..n
                    },
                )
            },
            None => vs.push(
                NodeView {
                    path,
                    name: parts[i],
                    kind: if is_file { KindView::File(kind_of_name(parts[i])) } else { KindView::Folder },
                    modified: if is_file { modified } else { None },
                    created: if is_file { created } else { None },
                    children: with_path(Seq::empty(), parts, i + 1, path, modified, created),
                },
            ),
        }
    }
}

fn join_exec(pre: &String, name: &String) -> (r: String)
    ensures
        r@ == join_path(pre@, name@),
{
    let pc = chars_of(pre.as_str());
    if pc.len() == 0 {
        name.clone()
    } else {
        let mut r = pre.clone();
        push_char(&mut r, '/');
        r.append(name.as_str());
        r
    }
}

/// Adds the path made of `parts[i..]` under `pre` to `list` (see `with_path`).
fn insert_parts(
    list: &mut Vec<ExplorerNode>,
    parts: &Vec<String>,
    i: usize,
    pre: &String,
    modified: Option<i64>,
    created: Option<i64>,
)
    requires
        i <= parts@.len(),
    ensures
        nviews(final(list)@) == with_path(nviews(old(list)@), crate::navigation::texts(parts@), i as int, pre@, modified, created),
    decreases parts@.len() - i,
{
    if i >= parts.len() {
        return;
    }
    let ghost ps = crate::navigation::texts(parts@);
    let ghost vs = nviews(list@);
    proof {
        lemma_nviews(list@);
        assert(ps[i as int] == parts@[i as int]@);
    }
    let path = join_exec(pre, &parts[i]);
    let is_file = i + 1 == parts.len();
    let mut p: usize = 0;
    while p < list.len() && !str_eq(list[p].path.as_str(), path.as_str())
        invariant
            p <= list@.len(),
            vs == nviews(list@),
            nviews(list@).len() == list@.len(),
            forall|j: int| 0 <= j < list@.len() ==> #[trigger] nviews(list@)[j] == nview(list@[j]),
            first_at(vs, path@, 0) == first_at(vs, path@, p as int),
        decreases list@.len() - p,
    {
        p = p + 1;
    }
    if p < list.len() {
        let mut node = list.remove(p);
        let ghost before = list@;
        if is_file {
            node.modified = modified;
            node.created = created;
        }
        insert_parts(&mut node.children, parts, i + 1, &path, modified, created);
        list.insert(p, node);
        proof {
            lemma_nviews(list@);
            assert(nviews(list@) =~= with_path(vs, ps, i as int, pre@, modified, created));
        }
    } else {
        let kind = if is_file { ExplorerNodeKind::File(kind_for(parts[i].as_str())) } else { ExplorerNodeKind::Folder };
        let mut node = ExplorerNode {
            path: path.clone(),
            name: parts[i].clone(),
            kind,
            modified: if is_file { modified } else { None },
            created: if is_file { created } else { None },
            children: Vec::new(),
        };
        proof {
            assert(nviews(node.children@) =~= Seq::<NodeView>::empty());
        }
        insert_parts(&mut node.children, parts, i + 1, &path, modified, created);
        let ghost before = list@;
        list.push(node);
        proof {
            assert(list@.drop_last() =~= before);
            assert(list@.last() == node);
            assert(nviews(list@) == nviews(before).push(nview(node)));
            assert(first_at(vs, path@, 0) is None);
            let nv = NodeView {
                path: path@,
                name: ps[i as int],
                kind: if is_file { KindView::File(kind_of_name(ps[i as int])) } else { KindView::Folder },
                modified: if is_file { modified } else { None },
                created: if is_file { created } else { None },
                children: with_path(Seq::empty(), ps, i + 1, path@, modified, created),
            };
            assert(nview(node) == nv);
            assert(with_path(vs, ps, i as int, pre@, modified, created) == vs.push(nv));
        }
    }
}

/// `Ordering` of two optional times as a number: -1, 0 or 1, absent first.
pub open spec fn opt_cmp(a: Option<i64>, b: Option<i64>) -> int {
    match (a, b) {
        (None, None) => 0,
        (None, Some(_)) => -1,
        (Some(_), None) => 1,
        (Some(x), Some(y)) => if x < y { -1 } else if x == y { 0 } else { 1 },
    }
}

/// `Ordering` of two texts as a number: -1, 0 or 1, by bytes.
pub open spec fn text_cmp(a: Seq<char>, b: Seq<char>) -> int {
    if text_lt(a, b) { -1 } else if a == b { 0 } else { 1 }
}

/// How two nodes of one level compare under `mode`, before their paths decide.
pub open spec fn mode_cmp(mode: SortMode, a: NodeView, b: NodeView) -> int {
    match mode {
        SortMode::Name => text_cmp(lowercase(a.name), lowercase(b.name)),
        SortMode::Modified => opt_cmp(b.modified, a.modified),
        SortMode::Created => opt_cmp(b.created, a.created),
    }
}

/// Whether `a` comes before `b` among the nodes of one level: folders first,
/// then by name (ignoring case), newest modified or newest created first as
/// `mode` says, then by path.
pub open spec fn node_before(mode: SortMode, a: NodeView, b: NodeView) -> bool {
    let af = a.kind is Folder;
    let bf = b.kind is Folder;
    if af != bf {
        af
    } else if mode_cmp(mode, a, b) != 0 {
        mode_cmp(mode, a, b) < 0
    } else {
        text_lt(a.path, b.path)
    }
}

/// Among entries of one kind (two files, or two folders), the newest-first
/// orders look at their own time only: under `Created` the later created
/// comes first whatever the modified times, under `Modified` the later
/// modified comes first whatever the created times; an entry with the time
/// comes before one without it, and equal times leave the order to the paths.
pub proof fn lemma_time_orders(a: NodeView, b: NodeView)
    requires
        (a.kind is Folder) == (b.kind is Folder),
    ensures
        (a.created matches Some(x) && b.created matches Some(y) && x > y) ==> node_before(SortMode::Created, a, b)
            && !node_before(SortMode::Created, b, a),
        (a.created is Some && b.created is None) ==> node_before(SortMode::Created, a, b) && !node_before(
            SortMode::Created,
            b,
            a,
        ),
        a.created == b.created ==> node_before(SortMode::Created, a, b) == text_lt(a.path, b.path),
        (a.modified matches Some(x) && b.modified matches Some(y) && x > y) ==> node_before(SortMode::Modified, a, b)
            && !node_before(SortMode::Modified, b, a),
        (a.modified is Some && b.modified is None) ==> node_before(SortMode::Modified, a, b) && !node_before(
            SortMode::Modified,
            b,
            a,
        ),
        a.modified == b.modified ==> node_before(SortMode::Modified, a, b) == text_lt(a.path, b.path),
{
}

proof fn lemma_text_cmp(x: Seq<char>, y: Seq<char>, z: Seq<char>)
    ensures
        text_cmp(x, y) == -text_cmp(y, x),
        -1 <= text_cmp(x, y) <= 1,
        text_cmp(x, y) <= 0 && text_cmp(y, z) <= 0 ==> text_cmp(x, z) <= 0,
        text_cmp(x, y) < 0 && text_cmp(y, z) <= 0 ==> text_cmp(x, z) < 0,
        text_cmp(x, y) <= 0 && text_cmp(y, z) < 0 ==> text_cmp(x, z) < 0,
{
    lemma_text_lt_order(x, y, z);
    lemma_text_lt_order(y, x, z);
    lemma_text_lt_order(y, z, x);
    lemma_text_lt_order(z, y, x);
    lemma_text_lt_order(x, z, y);
    lemma_text_lt_order(z, x, y);
}

proof fn lemma_mode_cmp(mode: SortMode, a: NodeView, b: NodeView, c: NodeView)
    ensures
        mode_cmp(mode, a, b) == -mode_cmp(mode, b, a),
        -1 <= mode_cmp(mode, a, b) <= 1,
        mode_cmp(mode, a, b) <= 0 && mode_cmp(mode, b, c) <= 0 ==> mode_cmp(mode, a, c) <= 0,
        mode_cmp(mode, a, b) < 0 && mode_cmp(mode, b, c) <= 0 ==> mode_cmp(mode, a, c) < 0,
        mode_cmp(mode, a, b) <= 0 && mode_cmp(mode, b, c) < 0 ==> mode_cmp(mode, a, c) < 0,
{
    match mode {
        SortMode::Name => lemma_text_cmp(lowercase(a.name), lowercase(b.name), lowercase(c.name)),
        _ => {},
    }
}

/// Every explorer order is a strict weak order: never both ways, and "not
/// before" is transitive; so sorting by it is well defined.
pub proof fn lemma_node_order_strict_weak(mode: SortMode)
    ensures
        strict_weak(node_order(mode)),
{
    assert forall|a: NodeView, b: NodeView| #[trigger] node_order(mode)(a, b) implies !node_order(mode)(b, a) by {
        lemma_mode_cmp(mode, a, b, a);
        lemma_text_lt_order(a.path, b.path, a.path);
    }
    assert forall|a: NodeView, b: NodeView, c: NodeView| #![trigger node_order(mode)(a, b), node_order(mode)(b, c)]
        !node_order(mode)(a, b) && !node_order(mode)(b, c) implies !node_order(mode)(a, c) by {
        lemma_mode_cmp(mode, a, b, c);
        lemma_mode_cmp(mode, c, b, a);
        lemma_mode_cmp(mode, a, c, b);
        lemma_mode_cmp(mode, b, a, c);
        lemma_text_lt_order(a.path, b.path, c.path);
        lemma_text_lt_order(c.path, b.path, a.path);
        lemma_text_lt_order(b.path, a.path, c.path);
        lemma_text_lt_order(b.path, c.path, a.path);
        lemma_text_lt_order(a.path, c.path, b.path);
        lemma_text_lt_order(c.path, a.path, b.path);
    }
}

/// Sorting a level orders it: in `sort_tree(mode, vs)` (the roots after
/// `set_sort_mode(mode)`), no entry comes before an earlier one under
/// `node_before(mode)`, and the level keeps exactly its entries.
pub proof fn lemma_sort_tree_ordered(mode: SortMode, vs: Seq<NodeView>)
    ensures
        ordered_by(sort_tree(mode, vs), node_order(mode)),
        sort_tree(mode, vs).to_multiset() == sort_each(mode, vs).to_multiset(),
{
    lemma_node_order_strict_weak(mode);
    lemma_sort_with_sorted(sort_each(mode, vs), node_order(mode));
}

/// Under the name order, entries of one kind go by their lowercased names,
/// so letter case never decides; equal lowercased names leave it to the paths.
pub proof fn lemma_name_order(a: NodeView, b: NodeView)
    requires
        (a.kind is Folder) == (b.kind is Folder),
    ensures
        text_lt(lowercase(a.name), lowercase(b.name)) ==> node_before(SortMode::Name, a, b) && !node_before(SortMode::Name, b, a),
        lowercase(a.name) == lowercase(b.name) ==> node_before(SortMode::Name, a, b) == text_lt(a.path, b.path),
{
    lemma_text_lt_order(lowercase(a.name), lowercase(b.name), lowercase(a.name));
}

/// Folders come before files under every order.
pub proof fn lemma_folders_first(mode: SortMode, a: NodeView, b: NodeView)
    requires
        a.kind is Folder,
        !(b.kind is Folder),
    ensures
        node_before(mode, a, b),
        !node_before(mode, b, a),
{
}

pub open spec fn node_order(mode: SortMode) -> spec_fn(NodeView, NodeView) -> bool {
    |a: NodeView, b: NodeView| node_before(mode, a, b)
}

/// A node with its children sorted, level by level.
pub open spec fn sort_node(mode: SortMode, v: NodeView) -> NodeView
    decreases v,
{
    proof {
        assert(decreases_to!(v => v.children));
    }
    NodeView { children: sort_with(sort_each(mode, v.children), node_order(mode)), ..v }
}

/// Each node of `vs` with its children sorted.
pub open spec fn sort_each(mode: SortMode, vs: Seq<NodeView>) -> Seq<NodeView>
    decreases vs,
{
    if vs.len() == 0 {
        Seq::empty()
    } else {
        proof {
            assert(decreases_to!(vs => vs[vs.len() - 1]));
        }
        sort_each(mode, vs.drop_last()).push(sort_node(mode, vs.last()))
    }
}

/// The nodes of a level sorted as `node_before` orders them, with every
/// level below sorted too.
pub open spec fn sort_tree(mode: SortMode, vs: Seq<NodeView>) -> Seq<NodeView> {
    sort_with(sort_each(mode, vs), node_order(mode))
}

fn opt_cmp_exec(a: Option<i64>, b: Option<i64>) -> (r: i8)
    ensures
        r == opt_cmp(a, b),
{
    match (a, b) {
        (None, None) => 0,
        (None, Some(_)) => -1,
        (Some(_), None) => 1,
        (Some(x), Some(y)) => if x < y { -1 } else if x == y { 0 } else { 1 },
    }
}

fn node_before_exec(mode: SortMode, a: &ExplorerNode, b: &ExplorerNode) -> (r: bool)
    ensures
        r == node_before(mode, nview(*a), nview(*b)),
{
    let af = match a.kind {
        ExplorerNodeKind::Folder => true,
        _ => false,
    };
    let bf = match b.kind {
        ExplorerNodeKind::Folder => true,
        _ => false,
    };
    if af != bf {
        return af;
    }
    let k: i8 = match mode {
        SortMode::Name => {
            let la = to_lowercase(a.name.as_str());
            let lb = to_lowercase(b.name.as_str());
            let c = compare_str(la.as_str(), lb.as_str());
            proof {
                crate::text::lemma_text_lt_order(la@, lb@, la@);
            }
            c
        },
        SortMode::Modified => opt_cmp_exec(b.modified, a.modified),
        SortMode::Created => opt_cmp_exec(b.created, a.created),
    };
    if k != 0 {
        return k < 0;
    }
    compare_str(a.path.as_str(), b.path.as_str()) == -1
}

/// Inserts `x` into `v` as `insert_with` does under `node_before`.
fn insert_node(v: &mut Vec<ExplorerNode>, x: ExplorerNode, mode: SortMode)
    ensures
        nviews(final(v)@) == insert_with(nviews(old(v)@), nview(x), node_order(mode)),
{
    let ghost s = nviews(v@);
    let ghost lt = node_order(mode);
    proof {
        lemma_nviews(v@);
    }
    let ghost q = crate::knowledge::lemma_insert_with_at(s, nview(x), lt);
    let mut p = v.len();
    while p > 0 && node_before_exec(mode, &x, &v[p - 1])
        invariant
            p <= v@.len(),
            s == nviews(v@),
            s.len() == v@.len(),
            forall|j: int| 0 <= j < v@.len() ==> #[trigger] s[j] == nview(v@[j]),
            forall|j: int| p <= j < s.len() ==> lt(nview(x), #[trigger] s[j]),
            lt == node_order(mode),
        decreases p,
    {
        p = p - 1;
    }
    proof {
        if q < p {
            assert(lt(nview(x), s[p - 1]));
        }
        if p < q {
            assert(lt(nview(x), s[q - 1]));
        }
    }
    v.insert(p, x);
    proof {
        lemma_nviews(v@);
        assert(nviews(v@) =~= s.insert(p as int, nview(x)));
    }
}

/// The number of nodes of a forest.
pub open spec fn forest_size(vs: Seq<NodeView>) -> nat
    decreases vs,
{
    if vs.len() == 0 {
        0
    } else {
        proof {
            assert(decreases_to!(vs => vs[vs.len() - 1]));
        }
        forest_size(vs.drop_last()) + 1 + forest_size(vs.last().children)
    }
}

proof fn lemma_child_smaller(vs: Seq<NodeView>, i: int)
    requires
        0 <= i < vs.len(),
    ensures
        forest_size(vs[i].children) < forest_size(vs),
    decreases vs.len(),
{
    if i < vs.len() - 1 {
        lemma_child_smaller(vs.drop_last(), i);
        assert(vs.drop_last()[i] == vs[i]);
    }
}

/// Sorts `list`, and every level below it (see `sort_tree`).
fn sort_nodes(input: Vec<ExplorerNode>, mode: SortMode) -> (r: Vec<ExplorerNode>)
    ensures
        nviews(r@) == sort_tree(mode, nviews(input@)),
    decreases forest_size(nviews(input@)),
{
    let mut list = input;
    let ghost orig = list@;
    assert(orig == input@);
    let ghost ov = nviews(orig);
    proof {
        lemma_nviews(orig);
    }
    let n = list.len();
    let mut i: usize = 0;
    while i < n
        invariant
            i <= n == list@.len() == orig.len(),
            ov == nviews(orig),
            ov.len() == orig.len(),
            forall|j: int| 0 <= j < orig.len() ==> #[trigger] ov[j] == nview(orig[j]),
            forall|j: int| i <= j < n ==> #[trigger] list@[j] == orig[j],
            nviews(list@.take(i as int)) == sort_each(mode, ov.take(i as int)),
            orig == input@,
        decreases n - i,
    {
        let ghost before_remove = list@;
        let mut node = list.remove(i);
        proof {
            assert(node == orig[i as int]);
            lemma_child_smaller(ov, i as int);
            assert(ov[i as int].children == nviews(node.children@));
            assert(list@.take(i as int) =~= before_remove.take(i as int));
        }
        let ghost before_children = node.children@;
        let mut children: Vec<ExplorerNode> = Vec::new();
        std::mem::swap(&mut children, &mut node.children);
        proof {
            assert(children@ == before_children);
            assert(forest_size(nviews(children@)) < forest_size(nviews(input@)));
        }
        node.children = sort_nodes(children, mode);
        let ghost prefix = list@.take(i as int);
        list.insert(i, node);
        proof {
            assert(list@.take(i + 1) =~= prefix.push(node));
            assert(prefix.push(node).drop_last() =~= prefix);
            assert(nviews(list@.take(i + 1)) == nviews(prefix).push(nview(node)));
            assert(ov.take(i + 1).drop_last() =~= ov.take(i as int));
            assert(ov.take(i + 1).last() == nview(orig[i as int]));
            assert(nview(node) == sort_node(mode, nview(orig[i as int])));
            assert forall|j: int| i + 1 <= j < n implies #[trigger] list@[j] == orig[j] by {}
        }
        i = i + 1;
    }
    proof {
        assert(list@.take(n as int) =~= list@);
        assert(ov.take(n as int) =~= ov);
    }
    let ghost sorted_each = nviews(list@);
    let mut out: Vec<ExplorerNode> = Vec::new();
    let ghost each = list@;
    let total = list.len();
    let mut k: usize = 0;
    proof {
        lemma_nviews(each);
        assert(nviews(out@) =~= Seq::<NodeView>::empty());
        assert(sorted_each.take(0) =~= Seq::<NodeView>::empty());
        assert(list@ =~= each.skip(0));
    }
    while list.len() > 0
        invariant
            k <= each.len(),
            k + list@.len() == total,
            list@ == each.skip(k as int),
            sorted_each == nviews(each),
            sorted_each.len() == each.len(),
            forall|j: int| 0 <= j < each.len() ==> #[trigger] sorted_each[j] == nview(each[j]),
            nviews(out@) == sort_with(sorted_each.take(k as int), node_order(mode)),
        decreases list@.len(),
    {
        let x = list.remove(0);
        proof {
            assert(x == each[k as int]);
            assert(list@ =~= each.skip(k + 1));
            assert(sorted_each.take(k + 1).drop_last() =~= sorted_each.take(k as int));
            assert(sorted_each.take(k + 1).last() == nview(x));
        }
        insert_node(&mut out, x, mode);
        k = k + 1;
    }
    proof {
        assert(sorted_each.take(k as int) =~= sorted_each);
    }
    out
}

/// The first node, depth first and in order, whose path is `p`.
pub open spec fn find_in(vs: Seq<NodeView>, p: Seq<char>) -> Option<NodeView>
    decreases vs,
{
    if vs.len() == 0 {
        None
    } else {
        proof {
            assert(decreases_to!(vs => vs[vs.len() - 1]));
        }
        match find_in(vs.drop_last(), p) {
            Some(x) => Some(x),
            None => find_at(vs.last(), p),
        }
    }
}

/// `v` where its path is `p`, else the first node below it with that path.
pub open spec fn find_at(v: NodeView, p: Seq<char>) -> Option<NodeView>
    decreases v,
{
    if v.path == p {
        Some(v)
    } else {
        proof {
            assert(decreases_to!(v => v.children));
        }
        find_in(v.children, p)
    }
}

/// The node of `xs` (at any depth) whose path is `p` (see `find_in`).
fn node_in<'a>(xs: &'a Vec<ExplorerNode>, p: &str) -> (r: Option<&'a ExplorerNode>)
    ensures
        r matches Some(n) ==> find_in(nviews(xs@), p@) == Some(nview(*n)),
        r is None ==> find_in(nviews(xs@), p@) is None,
    decreases forest_size(nviews(xs@)),
{
    let ghost vs = nviews(xs@);
    proof {
        lemma_nviews(xs@);
        assert(vs.take(0) =~= Seq::<NodeView>::empty());
    }
    let mut i: usize = 0;
    while i < xs.len()
        invariant
            i <= xs@.len(),
            vs == nviews(xs@),
            vs.len() == xs@.len(),
            forall|j: int| 0 <= j < xs@.len() ==> #[trigger] vs[j] == nview(xs@[j]),
            find_in(vs.take(i as int), p@) is None,
        decreases xs@.len() - i,
    {
        proof {
            assert(vs.take(i + 1).drop_last() =~= vs.take(i as int));
            assert(vs.take(i + 1).last() == nview(xs@[i as int]));
            assert(find_in(vs.take(i + 1), p@) == find_at(nview(xs@[i as int]), p@));
        }
        if str_eq(xs[i].path.as_str(), p) {
            proof {
                assert(find_at(nview(xs@[i as int]), p@) == Some(nview(xs@[i as int])));
            }
            proof {
                lemma_find_prefix(vs, p@, i + 1);
            }
            return Some(&xs[i]);
        }
        proof {
            lemma_child_smaller(vs, i as int);
        }
        proof {
            assert(find_at(nview(xs@[i as int]), p@) == find_in(nviews(xs@[i as int].children@), p@));
        }
        match node_in(&xs[i].children, p) {
            Some(n) => {
                proof {
                    lemma_find_prefix(vs, p@, i + 1);
                }
                return Some(n);
            },
            None => {},
        }
        i = i + 1;
    }
    proof {
        assert(vs.take(i as int) =~= vs);
    }
    None
}

/// A match found in a prefix of the nodes is the match of all of them.
proof fn lemma_find_prefix(vs: Seq<NodeView>, p: Seq<char>, k: int)
    requires
        0 <= k <= vs.len(),
        find_in(vs.take(k), p) is Some,
    ensures
        find_in(vs, p) == find_in(vs.take(k), p),
    decreases vs.len() - k,
{
    if k < vs.len() {
        assert(vs.take(k + 1).drop_last() =~= vs.take(k));
        lemma_find_prefix(vs, p, k + 1);
    } else {
        assert(vs.take(k) =~= vs);
    }
}

/// Whether a node passes the filter: the filter is empty, or the lowercased
/// name or path holds the lowercased filter.
pub open spec fn node_matches(f: Seq<char>, v: NodeView) -> bool {
    f.len() == 0 || contains_seq(lowercase(v.name), lowercase(f)) || contains_seq(lowercase(v.path), lowercase(f))
}

/// Whether a node or some node below it passes the filter.
pub open spec fn tree_match(f: Seq<char>, v: NodeView) -> bool
    decreases v,
{
    proof {
        assert(decreases_to!(v => v.children));
    }
    node_matches(f, v) || any_match(f, v.children)
}

/// Whether some node of `vs`, or below one, passes the filter.
pub open spec fn any_match(f: Seq<char>, vs: Seq<NodeView>) -> bool
    decreases vs,
{
    if vs.len() == 0 {
        false
    } else {
        proof {
            assert(decreases_to!(vs => vs[vs.len() - 1]));
        }
        any_match(f, vs.drop_last()) || tree_match(f, vs.last())
    }
}

fn node_matches_exec(filter: &str, n: &ExplorerNode) -> (b: bool)
    ensures
        b == node_matches(filter@, nview(*n)),
{
    let fc = chars_of(filter);
    if fc.len() == 0 {
        return true;
    }
    let lf = to_lowercase(filter);
    let ln = to_lowercase(n.name.as_str());
    if contains_text(ln.as_str(), lf.as_str()) {
        return true;
    }
    let lp = to_lowercase(n.path.as_str());
    contains_text(lp.as_str(), lf.as_str())
}

/// Whether some node of `xs`, or below one, passes the filter.
fn any_match_exec(filter: &str, xs: &Vec<ExplorerNode>) -> (b: bool)
    ensures
        b == any_match(filter@, nviews(xs@)),
    decreases forest_size(nviews(xs@)),
{
    let ghost vs = nviews(xs@);
    proof {
        lemma_nviews(xs@);
        assert(vs.take(0) =~= Seq::<NodeView>::empty());
    }
    let mut i: usize = 0;
    while i < xs.len()
        invariant
            i <= xs@.len(),
            vs == nviews(xs@),
            vs.len() == xs@.len(),
            forall|j: int| 0 <= j < xs@.len() ==> #[trigger] vs[j] == nview(xs@[j]),
            !any_match(filter@, vs.take(i as int)),
        decreases xs@.len() - i,
    {
        proof {
            assert(vs.take(i + 1).drop_last() =~= vs.take(i as int));
            assert(vs.take(i + 1).last() == nview(xs@[i as int]));
            assert(any_match(filter@, vs.take(i + 1)) == tree_match(filter@, nview(xs@[i as int])));
            lemma_child_smaller(vs, i as int);
        }
        if node_matches_exec(filter, &xs[i]) || any_match_exec(filter, &xs[i].children) {
            proof {
                lemma_match_prefix(filter@, vs, i + 1);
            }
            return true;
        }
        i = i + 1;
    }
    proof {
        assert(vs.take(i as int) =~= vs);
    }
    false
}

proof fn lemma_match_prefix(f: Seq<char>, vs: Seq<NodeView>, k: int)
    requires
        0 <= k <= vs.len(),
        any_match(f, vs.take(k)),
    ensures
        any_match(f, vs),
    decreases vs.len() - k,
{
    if k < vs.len() {
        assert(vs.take(k + 1).drop_last() =~= vs.take(k));
        lemma_match_prefix(f, vs, k + 1);
    } else {
        assert(vs.take(k) =~= vs);
    }
}

/// A shown row with its texts as characters.
pub struct RowView {
    pub path: Seq<char>,
    pub name: Seq<char>,
    pub kind: KindView,
    pub depth: int,
    pub expanded: bool,
    pub selected: bool,
    pub glyph: Seq<char>,
}

pub open spec fn row_view(r: VisibleExplorerRow) -> RowView {
    RowView {
        path: r.path@,
        name: r.name@,
        kind: kind_view(r.kind),
        depth: r.depth as int,
        expanded: r.expanded,
        selected: r.selected,
        glyph: r.glyph@,
    }
}

pub open spec fn rviews(rs: Seq<VisibleExplorerRow>) -> Seq<RowView> {
    rs.map_values(|r: VisibleExplorerRow| row_view(r))
}

/// The glyph of a node: `D` for a folder, else its file kind's.
pub open spec fn glyph_of(k: KindView) -> Seq<char> {
    match k {
        KindView::Folder => "D"@,
        KindView::File(FileKindView::Markdown) => "M"@,
        KindView::File(FileKindView::Canvas) => "C"@,
        KindView::File(FileKindView::Image) => "I"@,
        KindView::File(FileKindView::Pdf) => "P"@,
        KindView::File(FileKindView::Audio) => "A"@,
        KindView::File(FileKindView::Video) => "V"@,
        KindView::File(FileKindView::Other(_)) => "•"@,
    }
}

/// The rows shown for the nodes `vs` at depth `d`, in order (see `rows_at`).
pub open spec fn rows_of(f: Seq<char>, e: Set<Seq<char>>, sel: Option<Seq<char>>, vs: Seq<NodeView>, d: int) -> Seq<RowView>
    decreases vs,
{
    if vs.len() == 0 {
        Seq::empty()
    } else {
        proof {
            assert(decreases_to!(vs => vs[vs.len() - 1]));
        }
        rows_of(f, e, sel, vs.drop_last(), d) + rows_at(f, e, sel, vs.last(), d)
    }
}

/// The rows shown for node `v` at depth `d`: none unless it or a node below
/// it passes the filter `f`; else its own row, then, when it is expanded
/// (in `e`) or a filter is set, the rows of its children one level deeper.
pub open spec fn rows_at(f: Seq<char>, e: Set<Seq<char>>, sel: Option<Seq<char>>, v: NodeView, d: int) -> Seq<RowView>
    decreases v,
{
    if node_matches(f, v) || any_match(f, v.children) {
        proof {
            assert(decreases_to!(v => v.children));
        }
        seq![
            RowView {
                path: v.path,
                name: v.name,
                kind: v.kind,
                depth: d,
                expanded: e.contains(v.path),
                selected: sel == Some(v.path),
                glyph: glyph_of(v.kind),
            },
        ] + if e.contains(v.path) || f.len() > 0 {
            rows_of(f, e, sel, v.children, d + 1)
        } else {
            Seq::empty()
        }
    } else {
        Seq::empty()
    }
}

fn copy_kind(k: &ExplorerNodeKind) -> (r: ExplorerNodeKind)
    ensures
        kind_view(r) == kind_view(*k),
{
    match k {
        ExplorerNodeKind::Folder => ExplorerNodeKind::Folder,
        ExplorerNodeKind::File(FileKind::Markdown) => ExplorerNodeKind::File(FileKind::Markdown),
        ExplorerNodeKind::File(FileKind::Canvas) => ExplorerNodeKind::File(FileKind::Canvas),
        ExplorerNodeKind::File(FileKind::Image) => ExplorerNodeKind::File(FileKind::Image),
        ExplorerNodeKind::File(FileKind::Pdf) => ExplorerNodeKind::File(FileKind::Pdf),
        ExplorerNodeKind::File(FileKind::Audio) => ExplorerNodeKind::File(FileKind::Audio),
        ExplorerNodeKind::File(FileKind::Video) => ExplorerNodeKind::File(FileKind::Video),
        ExplorerNodeKind::File(FileKind::Other(s)) => ExplorerNodeKind::File(FileKind::Other(s.clone())),
    }
}

fn glyph_exec(k: &ExplorerNodeKind) -> (g: &'static str)
    ensures
        g@ == glyph_of(kind_view(*k)),
{
    match k {
        ExplorerNodeKind::Folder => "D",
        ExplorerNodeKind::File(f) => f.glyph(),
    }
}

fn same_text(a: &Option<String>, b: &str) -> (r: bool)
    ensures
        r == (opt_text(*a) == Some(b@)),
{
    match a {
        Some(s) => str_eq(s.as_str(), b),
        None => false,
    }
}

pub open spec fn opt_text(o: Option<String>) -> Option<Seq<char>> {
    match o {
        Some(s) => Some(s@),
        None => None,
    }
}

/// Appends the rows of `xs` at depth `d` (see `rows_of`).
fn walk(
    filter: &str,
    expanded: &TextSet,
    selected: &Option<String>,
    xs: &Vec<ExplorerNode>,
    d: usize,
    out: &mut Vec<VisibleExplorerRow>,
)
    requires
        d + forest_size(nviews(xs@)) <= usize::MAX,
    ensures
        rviews(final(out)@) == rviews(old(out)@) + rows_of(filter@, expanded.set(), opt_text(*selected), nviews(xs@), d as int),
    decreases forest_size(nviews(xs@)),
{
    let ghost vs = nviews(xs@);
    let ghost f = filter@;
    let ghost e = expanded.set();
    let ghost sel = opt_text(*selected);
    let ghost start = rviews(out@);
    proof {
        lemma_nviews(xs@);
        assert(vs.take(0) =~= Seq::<NodeView>::empty());
        assert(start + rows_of(f, e, sel, vs.take(0), d as int) =~= start);
    }
    let mut i: usize = 0;
    while i < xs.len()
        invariant
            i <= xs@.len(),
            vs == nviews(xs@),
            vs.len() == xs@.len(),
            forall|j: int| 0 <= j < xs@.len() ==> #[trigger] vs[j] == nview(xs@[j]),
            d + forest_size(vs) <= usize::MAX,
            f == filter@,
            e == expanded.set(),
            sel == opt_text(*selected),
            rviews(out@) == start + rows_of(f, e, sel, vs.take(i as int), d as int),
        decreases xs@.len() - i,
    {
        let ghost v = nview(xs@[i as int]);
        proof {
            assert(vs.take(i + 1).drop_last() =~= vs.take(i as int));
            assert(vs.take(i + 1).last() == v);
            assert(rows_of(f, e, sel, vs.take(i + 1), d as int) == rows_of(f, e, sel, vs.take(i as int), d as int) + rows_at(
                f,
                e,
                sel,
                v,
                d as int,
            ));
            lemma_child_smaller(vs, i as int);
        }
        let n = &xs[i];
        if node_matches_exec(filter, n) || any_match_exec(filter, &n.children) {
            let ex = expanded.contains(n.path.as_str());
            let row = VisibleExplorerRow {
                path: n.path.clone(),
                name: n.name.clone(),
                kind: copy_kind(&n.kind),
                depth: d,
                expanded: ex,
                selected: same_text(selected, n.path.as_str()),
                glyph: glyph_exec(&n.kind),
            };
            let ghost before = out@;
            out.push(row);
            proof {
                assert(rviews(out@) =~= rviews(before).push(row_view(row)));
            }
            let ghost mid = rviews(out@);
            if ex || chars_of(filter).len() > 0 {
                walk(filter, expanded, selected, &n.children, d + 1, out);
                proof {
                    assert(rviews(out@) =~= start + rows_of(f, e, sel, vs.take(i + 1), d as int));
                }
            } else {
                proof {
                    assert(rviews(out@) =~= start + rows_of(f, e, sel, vs.take(i + 1), d as int));
                }
            }
        } else {
            proof {
                assert(rows_at(f, e, sel, v, d as int) == Seq::<RowView>::empty());
                assert(rows_of(f, e, sel, vs.take(i + 1), d as int) =~= rows_of(f, e, sel, vs.take(i as int), d as int));
            }
        }
        i = i + 1;
    }
    proof {
        assert(vs.take(i as int) =~= vs);
    }
}

/// The paths of the folders of `vs` and of the folders inside them.
pub open spec fn folder_set(vs: Seq<NodeView>) -> Set<Seq<char>>
    decreases vs,
{
    if vs.len() == 0 {
        Set::empty()
    } else {
        proof {
            assert(decreases_to!(vs => vs[vs.len() - 1]));
        }
        folder_set(vs.drop_last()).union(folder_set_at(vs.last()))
    }
}

pub open spec fn folder_set_at(v: NodeView) -> Set<Seq<char>>
    decreases v,
{
    if v.kind is Folder {
        proof {
            assert(decreases_to!(v => v.children));
        }
        Set::empty().insert(v.path).union(folder_set(v.children))
    } else {
        Set::empty()
    }
}

fn folders_into(xs: &Vec<ExplorerNode>, out: &mut TextSet)
    ensures
        final(out).set() == old(out).set().union(folder_set(nviews(xs@))),
    decreases forest_size(nviews(xs@)),
{
    let ghost vs = nviews(xs@);
    let ghost start = out.set();
    proof {
        lemma_nviews(xs@);
        assert(vs.take(0) =~= Seq::<NodeView>::empty());
        assert(start.union(folder_set(vs.take(0))) =~= start);
    }
    let mut i: usize = 0;
    while i < xs.len()
        invariant
            i <= xs@.len(),
            vs == nviews(xs@),
            vs.len() == xs@.len(),
            forall|j: int| 0 <= j < xs@.len() ==> #[trigger] vs[j] == nview(xs@[j]),
            out.set() == start.union(folder_set(vs.take(i as int))),
        decreases xs@.len() - i,
    {
        let ghost v = nview(xs@[i as int]);
        proof {
            assert(vs.take(i + 1).drop_last() =~= vs.take(i as int));
            assert(vs.take(i + 1).last() == v);
            lemma_child_smaller(vs, i as int);
        }
        let n = &xs[i];
        proof {
            assert(folder_set(vs.take(i + 1)) == folder_set(vs.take(i as int)).union(folder_set_at(v)));
        }
        match n.kind {
            ExplorerNodeKind::Folder => {
                proof {
                    assert(v.kind is Folder);
                    assert(folder_set_at(v) == Set::<Seq<char>>::empty().insert(n.path@).union(folder_set(nviews(n.children@))));
                }
                out.insert(n.path.clone());
                folders_into(&n.children, out);
                proof {
                    assert(out.set() =~= start.union(folder_set(vs.take(i + 1))));
                }
            },
            _ => {
                proof {
                    assert(!(v.kind is Folder));
                    assert(folder_set_at(v) == Set::<Seq<char>>::empty());
                    assert(out.set() =~= start.union(folder_set(vs.take(i + 1))));
                }
            },
        }
        i = i + 1;
    }
    proof {
        assert(vs.take(i as int) =~= vs);
    }
}

/// The non-empty `/`-separated pieces of a path.
pub open spec fn segments(s: Seq<char>) -> Seq<Seq<char>>
    decreases s.len(),
{
    match index_of(s, '/') {
        Some(j) => if 0 <= j < s.len() {
            (if j > 0 { seq![s.take(j)] } else { Seq::empty() }) + segments(s.skip(j + 1))
        } else {
            Seq::empty()
        },
        None => if s.len() > 0 { seq![s] } else { Seq::empty() },
    }
}

fn segments_exec(p: &str) -> (r: Vec<String>)
    ensures
        crate::navigation::texts(r@) == segments(p@),
{
    let cs = chars_of(p);
    let n = cs.len();
    let mut out: Vec<String> = Vec::new();
    let mut pos: usize = 0;
    proof {
        assert(cs@.skip(0) =~= cs@);
        assert(crate::navigation::texts(out@) =~= Seq::<Seq<char>>::empty());
    }
    loop
        invariant
            pos <= n == cs@.len(),
            cs@ == p@,
            crate::navigation::texts(out@) + segments(cs@.skip(pos as int)) == segments(p@),
        decreases n - pos,
    {
        let ghost tail = cs@.skip(pos as int);
        proof {
            assert(cs@.subrange(pos as int, n as int) =~= tail);
            lemma_index_of(tail, '/');
        }
        match index_of_in(&cs, pos, n, '/') {
            Some(j) => {
                let ghost before = crate::navigation::texts(out@);
                proof {
                    assert(tail.take(j - pos) =~= cs@.subrange(pos as int, j as int));
                    assert(tail.skip(j - pos + 1) =~= cs@.skip(j + 1));
                }
                if j > pos {
                    let piece = string_of(&cs, pos, j);
                    out.push(piece);
                    proof {
                        assert(crate::navigation::texts(out@) =~= before.push(piece@));
                        assert(before.push(piece@) + segments(cs@.skip(j + 1)) =~= before + (seq![piece@] + segments(cs@.skip(j + 1))));
                    }
                } else {
                    proof {
                        assert(Seq::<Seq<char>>::empty() + segments(cs@.skip(j + 1)) =~= segments(cs@.skip(j + 1)));
                    }
                }
                pos = j + 1;
            },
            None => {
                if pos < n {
                    let piece = string_of(&cs, pos, n);
                    let ghost before = crate::navigation::texts(out@);
                    out.push(piece);
                    proof {
                        assert(piece@ =~= tail);
                        assert(crate::navigation::texts(out@) =~= before.push(piece@));
                        assert(before + seq![tail] =~= before.push(piece@));
                    }
                } else {
                    proof {
                        assert(tail.len() == 0);
                        assert(crate::navigation::texts(out@) + Seq::<Seq<char>>::empty() =~= crate::navigation::texts(out@));
                    }
                }
                return out;
            },
        }
    }
}

/// The tree that a list of inputs builds, one path after another (see
/// `with_path`), before it is sorted.
pub open spec fn built(xs: Seq<ExplorerFileInput>) -> Seq<NodeView>
    decreases xs.len(),
{
    if xs.len() == 0 {
        Seq::empty()
    } else {
        let x = xs.last();
        with_path(built(xs.drop_last()), segments(x.path@), 0, Seq::empty(), x.modified, x.created)
    }
}

/// An explorer state with its texts as characters.
pub struct ModelView {
    pub roots: Seq<NodeView>,
    pub expanded: Set<Seq<char>>,
    pub selected: Option<Seq<char>>,
    pub active: Option<Seq<char>>,
    pub sort_mode: SortMode,
    pub filter: Seq<char>,
}

/// The rows an explorer state shows, from depth 0.
pub open spec fn shown(v: ModelView) -> Seq<RowView> {
    rows_of(v.filter, v.expanded, v.selected, v.roots, 0)
}

/// `v` with the folder at `p` expanded or collapsed; other paths change nothing.
pub open spec fn toggled(v: ModelView, p: Seq<char>) -> ModelView {
    match find_in(v.roots, p) {
        Some(n) => if n.kind is Folder {
            ModelView {
                expanded: if v.expanded.contains(p) { v.expanded.remove(p) } else { v.expanded.insert(p) },
                ..v
            }
        } else {
            v
        },
        None => v,
    }
}

/// `v` with the node at `p` selected, if there is one.
pub open spec fn selected_to(v: ModelView, p: Seq<char>) -> ModelView {
    if find_in(v.roots, p) is Some {
        ModelView { selected: Some(p), ..v }
    } else {
        v
    }
}

/// `v` with the selection made active.
pub open spec fn activated(v: ModelView) -> ModelView {
    ModelView { active: v.selected, ..v }
}

/// The index of the first row at path `p` from `k` on.
pub open spec fn row_at(rows: Seq<RowView>, p: Seq<char>, k: int) -> Option<int>
    decreases rows.len() - k,
{
    if k < 0 || k >= rows.len() {
        None
    } else if rows[k].path == p {
        Some(k)
    } else {
        row_at(rows, p, k + 1)
    }
}

/// The row of the selection, or the first row.
pub open spec fn current_row(rows: Seq<RowView>, sel: Option<Seq<char>>) -> int {
    match sel {
        Some(p) => match row_at(rows, p, 0) {
            Some(i) => i,
            None => 0,
        },
        None => 0,
    }
}

/// `v` with the selection moved by `delta` rows, within the rows shown.
pub open spec fn moved_by(v: ModelView, delta: int) -> ModelView {
    let rows = shown(v);
    if rows.len() == 0 {
        v
    } else {
        let t = current_row(rows, v.selected) + delta;
        let next = if t < 0 { 0 } else if t > rows.len() - 1 { rows.len() - 1 } else { t };
        selected_to(v, rows[next].path)
    }
}

/// `v` after a key: up, down, home and end move the selection among the
/// rows shown; right and space expand or collapse the current row; left
/// collapses it when it is expanded, else selects its parent; enter
/// activates the selection; other keys, and any key with no rows shown,
/// change nothing.
pub open spec fn after_key(v: ModelView, key: Seq<char>) -> ModelView {
    let rows = shown(v);
    if rows.len() == 0 {
        v
    } else {
        let n = rows.len();
        let i = current_row(rows, v.selected);
        let here = rows[i].path;
        if key == seq!['u', 'p'] {
            selected_to(v, rows[if i > 0 { i - 1 } else { 0 }].path)
        } else if key == seq!['d', 'o', 'w', 'n'] {
            selected_to(v, rows[if i + 1 < n - 1 { i + 1 } else { n - 1 }].path)
        } else if key == seq!['h', 'o', 'm', 'e'] {
            selected_to(v, rows[0].path)
        } else if key == seq!['e', 'n', 'd'] {
            selected_to(v, rows[n - 1].path)
        } else if key == seq!['l', 'e', 'f', 't'] {
            if rows[i].expanded {
                toggled(v, here)
            } else {
                match rfind_seq(here, seq!['/']) {
                    Some(k) => selected_to(v, here.take(k)),
                    None => v,
                }
            }
        } else if key == seq!['r', 'i', 'g', 'h', 't'] || key == seq!['s', 'p', 'a', 'c', 'e'] {
            toggled(v, here)
        } else if key == seq!['e', 'n', 't', 'e', 'r'] {
            activated(v)
        } else {
            v
        }
    }
}

fn current_index(rows: &Vec<VisibleExplorerRow>, sel: &Option<String>) -> (i: usize)
    requires
        rows@.len() > 0,
    ensures
        i == current_row(rviews(rows@), opt_text(*sel)),
        i < rows@.len(),
{
    let ghost rv = rviews(rows@);
    match sel {
        Some(p) => {
            let mut k: usize = 0;
            while k < rows.len()
                invariant
                    k <= rows@.len(),
                    rv == rviews(rows@),
                    row_at(rv, p@, 0) == row_at(rv, p@, k as int),
                    opt_text(*sel) == Some(p@),
                decreases rows@.len() - k,
            {
                proof {
                    assert(rv[k as int] == row_view(rows@[k as int]));
                }
                if str_eq(rows[k].path.as_str(), p.as_str()) {
                    proof {
                        assert(rv[k as int].path == p@);
                        assert(row_at(rv, p@, k as int) == Some(k as int));
                    }
                    return k;
                }
                k = k + 1;
            }
            0
        },
        None => 0,
    }
}

/// Another name for a shown row.
pub type ExplorerRow = VisibleExplorerRow;

/// Data-only hierarchical explorer state over vault paths.
#[derive(Debug)]
pub struct ExplorerModel {
    pub roots: Vec<ExplorerNode>,
    pub expanded: TextSet,
    pub selected: Option<String>,
    pub active: Option<String>,
    pub sort_mode: SortMode,
    pub filter: String,
}

pub open spec fn mview(m: ExplorerModel) -> ModelView {
    ModelView {
        roots: nviews(m.roots@),
        expanded: m.expanded.set(),
        selected: opt_text(m.selected),
        active: opt_text(m.active),
        sort_mode: m.sort_mode,
        filter: m.filter@,
    }
}

impl Default for ExplorerModel {
    fn default() -> (m: Self)
        ensures
            mview(m) == (ModelView {
                roots: Seq::empty(),
                expanded: Set::empty(),
                selected: None,
                active: None,
                sort_mode: SortMode::Name,
                filter: Seq::empty(),
            }),
    {
        let m = ExplorerModel {
            roots: Vec::new(),
            expanded: TextSet::new(),
            selected: None,
            active: None,
            sort_mode: SortMode::Name,
            filter: String::new(),
        };
        proof {
            assert(nviews(m.roots@) =~= Seq::<NodeView>::empty());
        }
        m
    }
}

fn copy_opt(o: &Option<String>) -> (r: Option<String>)
    ensures
        opt_text(r) == opt_text(*o),
{
    match o {
        Some(s) => Some(s.clone()),
        None => None,
    }
}

impl ExplorerModel {
    /// An explorer over `roots`, sorted by name.
    pub fn new(roots: Vec<ExplorerNode>) -> (m: Self)
        ensures
            mview(m) == (ModelView {
                roots: sort_tree(SortMode::Name, nviews(roots@)),
                expanded: Set::empty(),
                selected: None,
                active: None,
                sort_mode: SortMode::Name,
                filter: Seq::empty(),
            }),
    {
        let mut m = ExplorerModel::default();
        m.roots = sort_nodes(roots, SortMode::Name);
        m
    }

    /// An explorer built from vault paths (see `update_paths`).
    pub fn from_vault_paths(paths: Vec<ExplorerFileInput>) -> (m: Self)
        ensures
            mview(m).roots == sort_tree(SortMode::Name, built(paths@)),
            mview(m).expanded == folder_set(mview(m).roots),
            mview(m).selected is None,
            mview(m).active is None,
            mview(m).sort_mode == SortMode::Name,
            mview(m).filter == Seq::<char>::empty(),
    {
        let mut m = ExplorerModel {
            roots: Vec::new(),
            expanded: TextSet::new(),
            selected: None,
            active: None,
            sort_mode: SortMode::Name,
            filter: String::new(),
        };
        m.update_paths(paths);
        m
    }

    /// Another name for `from_vault_paths`.
    pub fn from_paths(paths: Vec<ExplorerFileInput>) -> (m: Self)
        ensures
            mview(m).roots == sort_tree(SortMode::Name, built(paths@)),
            mview(m).expanded == folder_set(mview(m).roots),
            mview(m).selected is None,
            mview(m).active is None,
            mview(m).sort_mode == SortMode::Name,
            mview(m).filter == Seq::<char>::empty(),
    {
        ExplorerModel::from_vault_paths(paths)
    }

    /// Rebuilds the tree from `paths` and sorts it.  Every folder is expanded
    /// when none was; otherwise the expanded folders, the selection and the
    /// active path that still exist are kept.
    pub fn update_paths(&mut self, paths: Vec<ExplorerFileInput>)
        ensures
            mview(*final(self)).roots == sort_tree(old(self).sort_mode, built(paths@)),
            mview(*final(self)).expanded == if old(self).expanded.members().len() == 0 {
                folder_set(mview(*final(self)).roots)
            } else {
                old(self).expanded.set().filter(|p: Seq<char>| find_in(mview(*final(self)).roots, p) is Some)
            },
            mview(*final(self)).selected == match opt_text(old(self).selected) {
                Some(p) => if find_in(mview(*final(self)).roots, p) is Some { Some(p) } else { None },
                None => None,
            },
            mview(*final(self)).active == match opt_text(old(self).active) {
                Some(p) => if find_in(mview(*final(self)).roots, p) is Some { Some(p) } else { None },
                None => None,
            },
            final(self).sort_mode == old(self).sort_mode,
            final(self).filter == old(self).filter,
    {
        let mut old_expanded = TextSet::new();
        std::mem::swap(&mut old_expanded, &mut self.expanded);
        let mut old_selected: Option<String> = None;
        std::mem::swap(&mut old_selected, &mut self.selected);
        let mut old_active: Option<String> = None;
        std::mem::swap(&mut old_active, &mut self.active);
        let mut roots: Vec<ExplorerNode> = Vec::new();
        let empty = String::new();
        proof {
            assert(nviews(roots@) =~= Seq::<NodeView>::empty());
            assert(paths@.take(0) =~= Seq::<ExplorerFileInput>::empty());
        }
        let mut k: usize = 0;
        while k < paths.len()
            invariant
                k <= paths@.len(),
                empty@ == Seq::<char>::empty(),
                nviews(roots@) == built(paths@.take(k as int)),
            decreases paths@.len() - k,
        {
            let parts = segments_exec(paths[k].path.as_str());
            insert_parts(&mut roots, &parts, 0, &empty, paths[k].modified, paths[k].created);
            proof {
                assert(paths@.take(k + 1).drop_last() =~= paths@.take(k as int));
                assert(paths@.take(k + 1).last() == paths@[k as int]);
            }
            k = k + 1;
        }
        proof {
            assert(paths@.take(k as int) =~= paths@);
        }
        self.roots = sort_nodes(roots, self.sort_mode);
        if old_expanded.len() == 0 {
            let mut all = TextSet::new();
            folders_into(&self.roots, &mut all);
            self.expanded = all;
            proof {
                assert(self.expanded.set() =~= folder_set(nviews(self.roots@)));
            }
        } else {
            let mut kept = TextSet::new();
            let mut i: usize = 0;
            proof {
                old_expanded.lemma_members();
            }
            while i < old_expanded.len()
                invariant
                    i <= old_expanded.members().len(),
                    forall|q: Seq<char>| #[trigger] kept.set().contains(q) <==> (old_expanded.members().take(i as int).contains(q)
                        && find_in(nviews(self.roots@), q) is Some),
                decreases old_expanded.members().len() - i,
            {
                let q = old_expanded.member(i);
                let ghost before = kept.set();
                if node_in(&self.roots, q.as_str()).is_some() {
                    kept.insert(q.clone());
                }
                proof {
                    assert forall|r: Seq<char>| #[trigger] kept.set().contains(r) <==> (old_expanded.members().take(i + 1).contains(r)
                        && find_in(nviews(self.roots@), r) is Some) by {
                        if old_expanded.members().take(i + 1).contains(r) && !old_expanded.members().take(i as int).contains(r) {
                            let j = choose|j: int| 0 <= j < i + 1 && #[trigger] old_expanded.members().take(i + 1)[j] == r;
                            assert(j == i);
                        }
                        if old_expanded.members().take(i as int).contains(r) {
                            let j = choose|j: int| 0 <= j < i && #[trigger] old_expanded.members().take(i as int)[j] == r;
                            assert(old_expanded.members().take(i + 1)[j] == r);
                        }
                        if r == q@ {
                            assert(old_expanded.members().take(i + 1)[i as int] == r);
                        }
                    }
                }
                i = i + 1;
            }
            proof {
                assert(old_expanded.members().take(i as int) =~= old_expanded.members());
                assert(kept.set() =~= old_expanded.set().filter(|p: Seq<char>| find_in(nviews(self.roots@), p) is Some));
            }
            self.expanded = kept;
        }
        self.selected = match old_selected {
            Some(p) => if node_in(&self.roots, p.as_str()).is_some() { Some(p) } else { None },
            None => None,
        };
        self.active = match old_active {
            Some(p) => if node_in(&self.roots, p.as_str()).is_some() { Some(p) } else { None },
            None => None,
        };
    }

    /// Sets the filter text.
    pub fn set_filter(&mut self, filter: &str)
        ensures
            mview(*final(self)) == (ModelView { filter: filter@, ..mview(*old(self)) }),
    {
        self.filter = filter.to_string();
    }

    /// Another name for `set_filter`.
    pub fn search(&mut self, filter: &str)
        ensures
            mview(*final(self)) == (ModelView { filter: filter@, ..mview(*old(self)) }),
    {
        self.set_filter(filter);
    }

    /// Changes the ordering and re-sorts the tree.
    pub fn set_sort_mode(&mut self, mode: SortMode)
        ensures
            mview(*final(self)) == (ModelView { sort_mode: mode, roots: sort_tree(mode, mview(*old(self)).roots), ..mview(*old(self)) }),
    {
        self.sort_mode = mode;
        let mut roots: Vec<ExplorerNode> = Vec::new();
        std::mem::swap(&mut roots, &mut self.roots);
        self.roots = sort_nodes(roots, mode);
    }

    /// Expands or collapses the folder at `path` (see `toggled`).
    pub fn toggle(&mut self, path: &str)
        ensures
            mview(*final(self)) == toggled(mview(*old(self)), path@),
    {
        let ghost v0 = mview(*self);
        let is_folder = match node_in(&self.roots, path) {
            Some(n) => match n.kind {
                ExplorerNodeKind::Folder => true,
                _ => false,
            },
            None => false,
        };
        proof {
            assert(is_folder == (find_in(v0.roots, path@) matches Some(n) && n.kind is Folder));
        }
        if is_folder {
            let key = path.to_string();
            let added = self.expanded.insert(key);
            if !added {
                self.expanded.remove(path);
                proof {
                    assert(self.expanded.set() =~= v0.expanded.remove(path@));
                }
            }
            proof {
                assert(mview(*self) =~= toggled(v0, path@));
            }
        }
    }

    /// Selects the node at `path`, if there is one.
    pub fn select(&mut self, path: &str)
        ensures
            mview(*final(self)) == selected_to(mview(*old(self)), path@),
    {
        if node_in(&self.roots, path).is_some() {
            self.selected = Some(path.to_string());
        }
    }

    /// Makes the selection active.
    pub fn activate(&mut self)
        ensures
            mview(*final(self)) == activated(mview(*old(self))),
    {
        self.active = copy_opt(&self.selected);
    }

    /// The selected node, if it exists.
    pub fn selected_node(&self) -> (r: Option<&ExplorerNode>)
        ensures
            match opt_text(self.selected) {
                Some(p) => match find_in(nviews(self.roots@), p) {
                    Some(v) => r matches Some(n) && nview(*n) == v,
                    None => r is None,
                },
                None => r is None,
            },
    {
        match &self.selected {
            Some(p) => node_in(&self.roots, p.as_str()),
            None => None,
        }
    }

    pub fn active(&self) -> (r: Option<&str>)
        ensures
            match r {
                Some(s) => opt_text(self.active) == Some(s@),
                None => self.active is None,
            },
    {
        match &self.active {
            Some(s) => Some(s.as_str()),
            None => None,
        }
    }

    pub fn selected_path(&self) -> (r: Option<&str>)
        ensures
            match r {
                Some(s) => opt_text(self.selected) == Some(s@),
                None => self.selected is None,
            },
    {
        match &self.selected {
            Some(s) => Some(s.as_str()),
            None => None,
        }
    }

    pub fn active_path(&self) -> (r: Option<&str>)
        ensures
            match r {
                Some(s) => opt_text(self.active) == Some(s@),
                None => self.active is None,
            },
    {
        self.active()
    }

    /// The rows shown (see `rows_of`).
    pub fn visible_rows(&self) -> (rows: Vec<VisibleExplorerRow>)
        requires
            forest_size(nviews(self.roots@)) <= usize::MAX,
        ensures
            rviews(rows@) == shown(mview(*self)),
    {
        let mut out: Vec<VisibleExplorerRow> = Vec::new();
        proof {
            assert(rviews(out@) =~= Seq::<RowView>::empty());
        }
        walk(self.filter.as_str(), &self.expanded, &self.selected, &self.roots, 0, &mut out);
        proof {
            assert(rviews(out@) =~= shown(mview(*self)));
        }
        out
    }

    /// Another name for `visible_rows`.
    pub fn visible(&self) -> (rows: Vec<VisibleExplorerRow>)
        requires
            forest_size(nviews(self.roots@)) <= usize::MAX,
        ensures
            rviews(rows@) == shown(mview(*self)),
    {
        self.visible_rows()
    }

    /// Moves the selection by `delta` rows within the rows shown.
    pub fn move_selection(&mut self, delta: isize)
        requires
            forest_size(nviews(old(self).roots@)) <= usize::MAX,
        ensures
            mview(*final(self)) == moved_by(mview(*old(self)), delta as int),
    {
        let rows = self.visible_rows();
        if rows.len() == 0 {
            return;
        }
        let old = current_index(&rows, &self.selected);
        let t: i128 = old as i128 + delta as i128;
        let last: i128 = (rows.len() - 1) as i128;
        let next: usize = if t < 0 { 0 } else if t > last { rows.len() - 1 } else { t as usize };
        let p = rows[next].path.clone();
        self.select(p.as_str());
    }

    /// Applies a key name, compared without ASCII case (see `after_key`).
    pub fn handle_key(&mut self, key: &str)
        requires
            forest_size(nviews(old(self).roots@)) <= usize::MAX,
        ensures
            mview(*final(self)) == after_key(mview(*old(self)), lower_ascii_seq(key@)),
    {
        let kc = chars_of(key);
        let low = lower_ascii_range(&kc, 0, kc.len());
        proof {
            assert(kc@.subrange(0, kc@.len() as int) =~= key@);
        }
        let k = crate::text::string_from_chars(&low);
        self.reduce_keyboard(k.as_str());
    }

    /// Applies a key (see `after_key`).
    pub fn reduce_keyboard(&mut self, key: &str)
        requires
            forest_size(nviews(old(self).roots@)) <= usize::MAX,
        ensures
            mview(*final(self)) == after_key(mview(*old(self)), key@),
    {
        let rows = self.visible_rows();
        let n = rows.len();
        if n == 0 {
            return;
        }
        let ghost rv = rviews(rows@);
        let i = current_index(&rows, &self.selected);
        proof {
            assert(rv[i as int] == row_view(rows@[i as int]));
        }
        let kc = chars_of(key);
        if is(&kc, vec!['u', 'p']) {
            let j = if i > 0 { i - 1 } else { 0 };
            proof { assert(rv[j as int] == row_view(rows@[j as int])); }
            let p = rows[j].path.clone();
            self.select(p.as_str());
        } else if is(&kc, vec!['d', 'o', 'w', 'n']) {
            let j = if i + 1 < n - 1 { i + 1 } else { n - 1 };
            proof { assert(rv[j as int] == row_view(rows@[j as int])); }
            let p = rows[j].path.clone();
            self.select(p.as_str());
        } else if is(&kc, vec!['h', 'o', 'm', 'e']) {
            proof { assert(rv[0] == row_view(rows@[0])); }
            let p = rows[0].path.clone();
            self.select(p.as_str());
        } else if is(&kc, vec!['e', 'n', 'd']) {
            proof { assert(rv[n - 1] == row_view(rows@[n - 1])); }
            let p = rows[n - 1].path.clone();
            self.select(p.as_str());
        } else if is(&kc, vec!['l', 'e', 'f', 't']) {
            let here = rows[i].path.clone();
            if rows[i].expanded {
                self.toggle(here.as_str());
            } else {
                let hc = chars_of(here.as_str());
                let slash = vec!['/'];
                proof {
                    assert(slash@ =~= seq!['/']);
                }
                match rfind_chars(&hc, &slash) {
                    Some(k) => {
                        let parent = string_of(&hc, 0, k);
                        proof {
                            assert(hc@.subrange(0, k as int) =~= here@.take(k as int));
                        }
                        self.select(parent.as_str());
                    },
                    None => {},
                }
            }
        } else if is(&kc, vec!['r', 'i', 'g', 'h', 't']) || is(&kc, vec!['s', 'p', 'a', 'c', 'e']) {
            let here = rows[i].path.clone();
            self.toggle(here.as_str());
        } else if is(&kc, vec!['e', 'n', 't', 'e', 'r']) {
            self.activate();
        }
    }

    /// Makes the selection active.
    pub fn activate_selected(&mut self)
        ensures
            mview(*final(self)) == activated(mview(*old(self))),
    {
        self.activate();
    }
}

} // verus!
