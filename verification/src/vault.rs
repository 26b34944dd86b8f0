//! Deterministic foundations for an Obsidian-compatible vault: validated
//! vault-relative paths, the built-in feature registry and feature-gated commands.
use vstd::prelude::*;
use crate::text::{
    chars_of, index_of, index_of_in, lower_ascii_range, lower_ascii_seq, rfind_chars, rfind_seq, str_eq,
    string_from_chars, string_of, vec_eq,
};
use crate::textmap::TextMap;
use crate::knowledge::{SortKey, key_order, lemma_sort_with_sorted, ordered_by, sort_items, sorted_by, strict_weak};

verus! {

/// Errors returned by vault operations that need no I/O.  User-controlled paths never panic.
#[derive(Debug, Clone, PartialEq, Eq)]
pub enum CoreError {
    InvalidPath(String),
    Escape(String),
    Symlink(String),
    NotFound(String),
    Duplicate(String),
    Unsupported(String),
    UnknownFeature(String),
}

/// Adds one path segment: empty and `.` segments are dropped, others joined with `/`.
pub open spec fn add_segment(acc: Seq<char>, seg: Seq<char>) -> Seq<char> {
    if seg.len() == 0 || seg == seq!['.'] {
        acc
    } else if acc.len() == 0 {
        seg
    } else {
        acc + seq!['/'] + seg
    }
}

/// The normal components of `s` (split at `/`) appended to `acc`, joined with `/`.
pub open spec fn normalize(acc: Seq<char>, s: Seq<char>) -> Seq<char>
    decreases s.len(),
{
    match index_of(s, '/') {
        Some(j) => if 0 <= j < s.len() {
            normalize(add_segment(acc, s.take(j)), s.skip(j + 1))
        } else {
            acc
        },
        None => add_segment(acc, s),
    }
}

/// Whether some `/`-separated component of `s` is `..`.
pub open spec fn any_parent(s: Seq<char>) -> bool
    decreases s.len(),
{
    match index_of(s, '/') {
        Some(j) => if 0 <= j < s.len() {
            s.take(j) == seq!['.', '.'] || any_parent(s.skip(j + 1))
        } else {
            false
        },
        None => s == seq!['.', '.'],
    }
}

/// The normalized form of a vault-relative path, or `None` when it is empty,
/// absolute, climbs with `..`, or has no normal component.
pub open spec fn spec_vault_path(p: Seq<char>) -> Option<Seq<char>> {
    if p.len() == 0 || p[0] == '/' || any_parent(p) || normalize(Seq::empty(), p).len() == 0 {
        None
    } else {
        Some(normalize(Seq::empty(), p))
    }
}

/// A validated path relative to a vault root, normalized to `/`-joined components.
#[derive(Clone, Debug, Eq, Hash, Ord, PartialEq, PartialOrd)]
pub struct VaultPath(String);

impl View for VaultPath {
    type V = Seq<char>;

    closed spec fn view(&self) -> Seq<char> {
        self.0@
    }
}

fn is_dot_dot(cs: &Vec<char>, a: usize, b: usize) -> (r: bool)
    requires
        a <= b <= cs@.len(),
    ensures
        r == (cs@.subrange(a as int, b as int) == seq!['.', '.']),
{
    let r = b - a == 2 && cs[a] == '.' && cs[a + 1] == '.';
    proof {
        if b - a == 2 {
            if cs@.subrange(a as int, b as int) == seq!['.', '.'] {
                assert(cs@.subrange(a as int, b as int)[0] == '.');
                assert(cs@.subrange(a as int, b as int)[1] == '.');
            }
            if r {
                assert(cs@.subrange(a as int, b as int) =~= seq!['.', '.']);
            }
        } else {
            if cs@.subrange(a as int, b as int) == seq!['.', '.'] {
                assert(cs@.subrange(a as int, b as int).len() == 2);
            }
        }
    }
    r
}

fn append_segment(out: &mut Vec<char>, cs: &Vec<char>, a: usize, b: usize)
    requires
        a <= b <= cs@.len(),
    ensures
        final(out)@ == add_segment(old(out)@, cs@.subrange(a as int, b as int)),
{
    let seg = Ghost(cs@.subrange(a as int, b as int));
    let empty_or_dot = b == a || (b - a == 1 && cs[a] == '.');
    proof {
        if b - a == 1 {
            if seg@ == seq!['.'] {
                assert(seg@[0] == '.');
            }
            if cs[a as int] == '.' {
                assert(seg@ =~= seq!['.']);
            }
        } else if seg@ == seq!['.'] {
            assert(seg@.len() == 1);
        }
    }
    if empty_or_dot {
        return;
    }
    let ghost before = out@;
    if out.len() > 0 {
        out.push('/');
    }
    let mut i = a;
    let ghost base = out@;
    while i < b
        invariant
            a <= i <= b <= cs@.len(),
            out@ == base + cs@.subrange(a as int, i as int),
        decreases b - i,
    {
        out.push(cs[i]);
        proof {
            assert(out@ =~= base + cs@.subrange(a as int, i + 1));
        }
        i = i + 1;
    }
    proof {
        if before.len() == 0 {
            assert(out@ =~= seg@);
        } else {
            assert(out@ =~= before + seq!['/'] + seg@);
        }
    }
}

/// The normal parts of `cs` joined with `/` (see `normalize`), and whether
/// some part is `..`.
pub(crate) fn normalize_exec(cs: &Vec<char>) -> (r: (Vec<char>, bool))
    ensures
        r.0@ == normalize(Seq::empty(), cs@),
        r.1 == any_parent(cs@),
{
    let n = cs.len();
    let mut out: Vec<char> = Vec::new();
    let mut pos: usize = 0;
    let mut parent = false;
    proof {
        assert(cs@.skip(0) =~= cs@);
    }
    loop
        invariant_except_break
            normalize(Seq::empty(), cs@) == normalize(out@, cs@.skip(pos as int)),
            any_parent(cs@) == (parent || any_parent(cs@.skip(pos as int))),
        invariant
            pos <= n,
            n == cs@.len(),
        ensures
            normalize(Seq::empty(), cs@) == out@,
            any_parent(cs@) == parent,
        decreases n - pos,
    {
        let ghost tail = cs@.skip(pos as int);
        proof {
            assert(cs@.subrange(pos as int, n as int) =~= tail);
        }
        match index_of_in(&cs, pos, n, '/') {
            Some(j) => {
                proof {
                    assert(tail.take(j - pos) =~= cs@.subrange(pos as int, j as int));
                    assert(tail.skip(j - pos + 1) =~= cs@.skip(j + 1));
                }
                if is_dot_dot(&cs, pos, j) {
                    parent = true;
                }
                append_segment(&mut out, &cs, pos, j);
                pos = j + 1;
            },
            None => {
                if is_dot_dot(&cs, pos, n) {
                    parent = true;
                }
                append_segment(&mut out, &cs, pos, n);
                break;
            },
        }
    }
(out, parent)
}

impl VaultPath {
    /// Validates a relative path.  Absolute paths, `..`, and paths without a
    /// normal component are rejected; `.` components and repeated separators
    /// are normalized away.
    pub fn new(path: &str) -> (r: Result<Self, CoreError>)
        ensures
            spec_vault_path(path@) matches Some(n) ==> (r matches Ok(v) && v@ == n),
            spec_vault_path(path@) is None ==> (r matches Err(CoreError::InvalidPath(m)) && m@ == path@),
    {
        let cs = chars_of(path);
        let n = cs.len();
        if n == 0 || cs[0] == '/' {
            return Err(CoreError::InvalidPath(path.to_owned()));
        }
        let (out, parent) = normalize_exec(&cs);
        if parent || out.len() == 0 {
            return Err(CoreError::InvalidPath(path.to_owned()));
        }
        Ok(VaultPath(string_from_chars(&out)))
    }

    /// The normalized relative path.
    pub fn as_path(&self) -> (s: &str)
        ensures
            s@ == self@,
    {
        self.0.as_str()
    }

    /// The text this path is displayed as.
    pub fn to_string(&self) -> (s: String)
        ensures
            s@ == self@,
    {
        self.0.clone()
    }
}

/// The final `/`-separated component of a path.
pub open spec fn last_component(p: Seq<char>) -> Seq<char> {
    match rfind_seq(p, seq!['/']) {
        Some(k) => p.skip(k + 1),
        None => p,
    }
}

/// Where trashing `p` moves it: `.trash/` and its final component.
pub open spec fn trash_target(p: Seq<char>) -> Seq<char> {
    seq!['.', 't', 'r', 'a', 's', 'h', '/'] + last_component(p)
}

/// The vault path a trashed entry moves to: its final component inside
/// `.trash`.  A path whose final component is empty, `.` or `..` has no such
/// place and is refused.
pub fn trash_destination(path: &VaultPath) -> (r: Result<VaultPath, CoreError>)
    ensures
        last_component(path@).len() == 0 ==> (r matches Err(CoreError::InvalidPath(m)) && m@ == path@),
        last_component(path@).len() > 0 ==> match spec_vault_path(trash_target(path@)) {
            Some(n) => r matches Ok(v) && v@ == n,
            None => r matches Err(CoreError::InvalidPath(m)) && m@ == trash_target(path@),
        },
{
    let cs = chars_of(path.as_path());
    let slash = vec!['/'];
    let n = cs.len();
    proof {
        assert(slash@ =~= seq!['/']);
    }
    let found = rfind_chars(&cs, &slash);
    let start = match found {
        Some(k) => {
            proof {
                assert(cs@.skip(k as int).take(1) == slash@);
                assert(cs@.skip(k as int).len() >= 1);
                assert(k < n);
            }
            k + 1
        },
        None => 0,
    };
    proof {
        assert(cs@ == path@);
        assert(cs@.subrange(start as int, cs@.len() as int) =~= last_component(path@));
    }
    if start == cs.len() {
        return Err(CoreError::InvalidPath(path.to_string()));
    }
    let mut dest: Vec<char> = vec!['.', 't', 'r', 'a', 's', 'h', '/'];
    let mut i = start;
    let ghost base = dest@;
    while i < cs.len()
        invariant
            start <= i <= cs@.len(),
            dest@ == base + cs@.subrange(start as int, i as int),
        decreases cs@.len() - i,
    {
        dest.push(cs[i]);
        proof {
            assert(dest@ =~= base + cs@.subrange(start as int, i + 1));
        }
        i = i + 1;
    }
    proof {
        assert(dest@ =~= trash_target(path@));
    }
    let text = string_from_chars(&dest);
    VaultPath::new(text.as_str())
}

/// Whether a directory entry's name marks it hidden: it begins with `.`.
pub fn is_hidden_name(name: &str) -> (b: bool)
    ensures
        b == (name@.len() > 0 && name@[0] == '.'),
{
    let cs = chars_of(name);
    cs.len() > 0 && cs[0] == '.'
}

/// Supported Obsidian file categories.
#[derive(Clone, Copy, Debug, Eq, PartialEq, Structural)]
pub enum FileKind {
    Markdown,
    Canvas,
    Image,
    Audio,
    Video,
    Pdf,
}

/// The final component of a path, as `Path::file_name` reads it on Unix: the
/// last part that is neither empty nor `.`; none where that part is `..` or
/// there is no such part.
pub open spec fn path_file_name(p: Seq<char>) -> Option<Seq<char>> {
    let n = normalize(Seq::empty(), p);
    if n.len() == 0 || last_component(n) == seq!['.', '.'] {
        None
    } else {
        Some(last_component(n))
    }
}

/// The extension of a path, as `Path::extension` reads it: the part of its
/// file name after the last `.`; none where the name has no `.` besides a
/// leading one.
pub open spec fn path_extension(p: Seq<char>) -> Option<Seq<char>> {
    match path_file_name(p) {
        None => None,
        Some(f) => match rfind_seq(f, seq!['.']) {
            Some(k) => if k == 0 {
                None
            } else {
                Some(f.skip(k + 1))
            },
            None => None,
        },
    }
}

/// The final component of a path (see `path_file_name`).
pub(crate) fn file_name_of(p: &str) -> (r: Option<String>)
    ensures
        r matches Some(n) ==> path_file_name(p@) == Some(n@),
        r is None ==> path_file_name(p@) is None,
{
    let cs = chars_of(p);
    let (norm, _) = normalize_exec(&cs);
    let n = norm.len();
    if n == 0 {
        return None;
    }
    let slash = vec!['/'];
    proof {
        assert(slash@ =~= seq!['/']);
    }
    let start = match rfind_chars(&norm, &slash) {
        Some(k) => {
            proof {
                assert(norm@.skip(k as int).take(1) == slash@);
                assert(norm@.skip(k as int).len() >= 1);
                assert(k < n);
            }
            k + 1
        },
        None => 0,
    };
    proof {
        assert(norm@.subrange(start as int, n as int) =~= last_component(norm@));
    }
    if is_dot_dot(&norm, start, n) {
        return None;
    }
    Some(string_of(&norm, start, n))
}

/// The extension of a path (see `path_extension`).
pub(crate) fn extension_of(p: &str) -> (r: Option<String>)
    ensures
        r matches Some(e) ==> path_extension(p@) == Some(e@),
        r is None ==> path_extension(p@) is None,
{
    let f = match file_name_of(p) {
        Some(f) => f,
        None => return None,
    };
    let fc = chars_of(f.as_str());
    let m = fc.len();
    let dot = vec!['.'];
    proof {
        assert(dot@ =~= seq!['.']);
    }
    match rfind_chars(&fc, &dot) {
        Some(k) => {
            if k == 0 {
                return None;
            }
            proof {
                assert(fc@.skip(k as int).take(1) == dot@);
                assert(fc@.skip(k as int).len() >= 1);
                assert(k < m);
                assert(fc@.subrange(k + 1, m as int) =~= fc@.skip(k + 1));
            }
            Some(string_of(&fc, k + 1, m))
        },
        None => None,
    }
}

/// The kind a lowercased extension names, if it is a supported one.
pub open spec fn kind_of_extension(e: Seq<char>) -> Option<FileKind> {
    if e == seq!['m', 'd'] || e == seq!['m', 'a', 'r', 'k', 'd', 'o', 'w', 'n'] {
        Some(FileKind::Markdown)
    } else if e == seq!['c', 'a', 'n', 'v', 'a', 's'] {
        Some(FileKind::Canvas)
    } else if e == seq!['p', 'n', 'g'] || e == seq!['j', 'p', 'g'] || e == seq!['j', 'p', 'e', 'g'] || e == seq!['g', 'i', 'f']
        || e == seq!['s', 'v', 'g'] || e == seq!['w', 'e', 'b', 'p'] {
        Some(FileKind::Image)
    } else if e == seq!['m', 'p', '3'] || e == seq!['w', 'a', 'v'] || e == seq!['m', '4', 'a'] || e == seq!['o', 'g', 'g'] {
        Some(FileKind::Audio)
    } else if e == seq!['m', 'p', '4'] || e == seq!['w', 'e', 'b', 'm'] || e == seq!['m', 'o', 'v'] {
        Some(FileKind::Video)
    } else if e == seq!['p', 'd', 'f'] {
        Some(FileKind::Pdf)
    } else {
        None
    }
}

fn is(e: &Vec<char>, w: Vec<char>) -> (b: bool)
    ensures
        b == (e@ == w@),
{
    vec_eq(e, &w)
}

impl FileKind {
    /// The kind of the file at `path`, by its extension compared without
    /// ASCII case; `None` for unsupported files.
    pub fn from_path(path: &str) -> (k: Option<FileKind>)
        ensures
            path_extension(path@) is None ==> k is None,
            path_extension(path@) matches Some(e) ==> k == kind_of_extension(lower_ascii_seq(e)),
    {
        let ext = match extension_of(path) {
            Some(e) => e,
            None => return None,
        };
        let ec = chars_of(ext.as_str());
        let e = lower_ascii_range(&ec, 0, ec.len());
        proof {
            assert(ec@.subrange(0, ec@.len() as int) =~= ext@);
        }
        if is(&e, vec!['m', 'd']) || is(&e, vec!['m', 'a', 'r', 'k', 'd', 'o', 'w', 'n']) {
            Some(FileKind::Markdown)
        } else if is(&e, vec!['c', 'a', 'n', 'v', 'a', 's']) {
            Some(FileKind::Canvas)
        } else if is(&e, vec!['p', 'n', 'g']) || is(&e, vec!['j', 'p', 'g']) || is(&e, vec!['j', 'p', 'e', 'g']) || is(
            &e,
            vec!['g', 'i', 'f'],
        ) || is(&e, vec!['s', 'v', 'g']) || is(&e, vec!['w', 'e', 'b', 'p']) {
            Some(FileKind::Image)
        } else if is(&e, vec!['m', 'p', '3']) || is(&e, vec!['w', 'a', 'v']) || is(&e, vec!['m', '4', 'a']) || is(
            &e,
            vec!['o', 'g', 'g'],
        ) {
            Some(FileKind::Audio)
        } else if is(&e, vec!['m', 'p', '4']) || is(&e, vec!['w', 'e', 'b', 'm']) || is(&e, vec!['m', 'o', 'v']) {
            Some(FileKind::Video)
        } else if is(&e, vec!['p', 'd', 'f']) {
            Some(FileKind::Pdf)
        } else {
            None
        }
    }
}

/// A scanned supported file.
#[derive(Clone, Debug, Eq, PartialEq)]
pub struct VaultEntry {
    pub path: VaultPath,
    pub kind: FileKind,
    pub size: u64,
}

/// The rank of a path character when paths are ordered component by
/// component: the separator ranks below every other character.
pub open spec fn sep_rank(c: char) -> int {
    if c == '/' {
        0
    } else {
        c as int + 1
    }
}

/// The order of `/`-joined paths component by component (as `PathBuf`
/// orders them): lexicographic by character, a component that ends first
/// being the smaller, and a proper prefix before the longer path.
pub open spec fn path_lt(a: Seq<char>, b: Seq<char>) -> bool
    decreases a.len(),
{
    if a.len() == 0 {
        b.len() > 0
    } else if b.len() == 0 {
        false
    } else if sep_rank(a[0]) != sep_rank(b[0]) {
        sep_rank(a[0]) < sep_rank(b[0])
    } else {
        path_lt(a.drop_first(), b.drop_first())
    }
}

proof fn lemma_path_lt_asym(a: Seq<char>, b: Seq<char>)
    ensures
        path_lt(a, b) ==> !path_lt(b, a),
    decreases a.len(),
{
    if a.len() > 0 && b.len() > 0 && sep_rank(a[0]) == sep_rank(b[0]) {
        lemma_path_lt_asym(a.drop_first(), b.drop_first());
    }
}

proof fn lemma_path_lt_split(a: Seq<char>, b: Seq<char>, c: Seq<char>)
    ensures
        path_lt(a, c) ==> path_lt(a, b) || path_lt(b, c),
    decreases a.len(),
{
    if a.len() > 0 && b.len() > 0 && c.len() > 0 && sep_rank(a[0]) == sep_rank(b[0]) && sep_rank(b[0]) == sep_rank(c[0]) {
        lemma_path_lt_split(a.drop_first(), b.drop_first(), c.drop_first());
    }
}

/// Paths ordered component by component form a strict weak order.
pub proof fn lemma_path_order_weak()
    ensures
        strict_weak(key_order::<VaultEntry>()),
{
    let lt = key_order::<VaultEntry>();
    assert forall|a: VaultEntry, b: VaultEntry| #[trigger] lt(a, b) implies !lt(b, a) by {
        lemma_path_lt_asym(a.path@, b.path@);
    }
    assert forall|a: VaultEntry, b: VaultEntry, c: VaultEntry| #![trigger lt(a, b), lt(b, c)] !lt(a, b) && !lt(b, c) implies !lt(
        a,
        c,
    ) by {
        lemma_path_lt_split(a.path@, b.path@, c.path@);
    }
}

fn rank(c: char) -> (r: u32)
    ensures
        r == sep_rank(c),
{
    if c == '/' {
        0
    } else {
        c as u32 + 1
    }
}

/// Whether path `a` comes before path `b` component by component.
pub fn path_before(a: &str, b: &str) -> (r: bool)
    ensures
        r == path_lt(a@, b@),
{
    let x = chars_of(a);
    let y = chars_of(b);
    let mut i: usize = 0;
    proof {
        assert(x@.skip(0) =~= x@);
        assert(y@.skip(0) =~= y@);
    }
    loop
        invariant
            i <= x@.len(),
            i <= y@.len(),
            path_lt(a@, b@) == path_lt(x@.skip(i as int), y@.skip(i as int)),
            x@ == a@,
            y@ == b@,
        decreases x@.len() - i,
    {
        if i == x.len() {
            return i < y.len();
        }
        if i == y.len() {
            return false;
        }
        let kx = rank(x[i]);
        let ky = rank(y[i]);
        proof {
            assert(x@.skip(i as int)[0] == x@[i as int]);
            assert(y@.skip(i as int)[0] == y@[i as int]);
            assert(x@.skip(i as int).drop_first() =~= x@.skip(i + 1));
            assert(y@.skip(i as int).drop_first() =~= y@.skip(i + 1));
        }
        if kx != ky {
            return kx < ky;
        }
        i = i + 1;
    }
}

impl SortKey for VaultEntry {
    open spec fn spec_before(a: Self, b: Self) -> bool {
        path_lt(a.path@, b.path@)
    }

    fn before(&self, other: &Self) -> (r: bool) {
        path_before(self.path.as_path(), other.path.as_path())
    }
}

/// Scanned entries in path order, component by component; entries with
/// equal paths keep their order.
pub fn sort_entries(entries: Vec<VaultEntry>) -> (r: Vec<VaultEntry>)
    ensures
        r@ == sorted_by(entries@),
        ordered_by(r@, key_order::<VaultEntry>()),
        r@.to_multiset() == entries@.to_multiset(),
{
    proof {
        lemma_path_order_weak();
        lemma_sort_with_sorted(entries@, key_order::<VaultEntry>());
    }
    sort_items(entries)
}

/// The stable built-in feature identifiers, in their canonical order.
pub open spec fn core_feature_list() -> Seq<Seq<char>> {
    seq![
        "vault"@,
        "editor"@,
        "search"@,
        "graph"@,
        "backlinks"@,
        "file-explorer"@,
        "workspace"@,
        "commands"@,
        "settings"@,
        "daily-notes"@,
        "canvas"@,
        "templates"@,
        "properties"@,
        "markdown-preview"@,
        "metadata-cache"@,
        "attachments"@,
        "import-export"@,
        "themes"@,
        "plugins"@,
        "sync"@
    ]
}

/// Stable built-in feature identifiers.
pub fn core_features() -> (v: Vec<&'static str>)
    ensures
        v@.map_values(|s: &str| s@) == core_feature_list(),
{
    let mut v: Vec<&'static str> = Vec::new();
    v.push("vault");
    v.push("editor");
    v.push("search");
    v.push("graph");
    v.push("backlinks");
    v.push("file-explorer");
    v.push("workspace");
    v.push("commands");
    v.push("settings");
    v.push("daily-notes");
    v.push("canvas");
    v.push("templates");
    v.push("properties");
    v.push("markdown-preview");
    v.push("metadata-cache");
    v.push("attachments");
    v.push("import-export");
    v.push("themes");
    v.push("plugins");
    v.push("sync");
    proof {
        assert(v@.map_values(|s: &str| s@) =~= core_feature_list());
    }
    v
}

/// Whether `id` is a built-in feature.
pub open spec fn spec_is_known(id: Seq<char>) -> bool {
    core_feature_list().contains(id)
}

/// Feature toggle registry.
#[derive(Clone, Debug)]
pub struct FeatureRegistry {
    enabled: TextMap<bool>,
}

impl View for FeatureRegistry {
    type V = Map<Seq<char>, bool>;

    closed spec fn view(&self) -> Map<Seq<char>, bool> {
        self.enabled.map()
    }
}

/// Whether a feature is on in a registry state (unknown features are off).
pub open spec fn spec_enabled(m: Map<Seq<char>, bool>, id: Seq<char>) -> bool {
    m.contains_key(id) && m[id]
}

impl Default for FeatureRegistry {
    fn default() -> (r: Self)
        ensures
            forall|k: Seq<char>| #[trigger] r@.contains_key(k) <==> spec_is_known(k),
            forall|k: Seq<char>| r@.contains_key(k) ==> #[trigger] r@[k],
    {
        Self::defaults()
    }
}

impl FeatureRegistry {
    /// Every known core feature, switched on.
    pub fn defaults() -> (r: Self)
        ensures
            forall|k: Seq<char>| #[trigger] r@.contains_key(k) <==> spec_is_known(k),
            forall|k: Seq<char>| r@.contains_key(k) ==> #[trigger] r@[k],
    {
        let ids = core_features();
        let mut enabled: TextMap<bool> = TextMap::new();
        let mut i: usize = 0;
        while i < ids.len()
            invariant
                i <= ids@.len(),
                ids@.map_values(|s: &str| s@) == core_feature_list(),
                forall|k: Seq<char>| #[trigger] enabled.map().contains_key(k) <==> core_feature_list().take(i as int).contains(k),
                forall|k: Seq<char>| enabled.map().contains_key(k) ==> #[trigger] enabled.map()[k],
            decreases ids@.len() - i,
        {
            let id = ids[i];
            proof {
                assert(core_feature_list()[i as int] == id@);
                assert forall|k: Seq<char>| core_feature_list().take(i + 1).contains(k) <==> (core_feature_list().take(i as int).contains(k) || k == id@) by {
                    if core_feature_list().take(i + 1).contains(k) {
                        let t = choose|t: int| 0 <= t < i + 1 && #[trigger] core_feature_list().take(i + 1)[t] == k;
                        if t < i {
                            assert(core_feature_list().take(i as int)[t] == k);
                        }
                    }
                    if core_feature_list().take(i as int).contains(k) {
                        let t = choose|t: int| 0 <= t < i && #[trigger] core_feature_list().take(i as int)[t] == k;
                        assert(core_feature_list().take(i + 1)[t] == k);
                    }
                    if k == id@ {
                        assert(core_feature_list().take(i + 1)[i as int] == k);
                    }
                }
            }
            let ghost before = enabled.map();
            enabled.insert(id.to_owned(), true);
            proof {
                assert forall|k: Seq<char>| #[trigger] enabled.map().contains_key(k) <==> core_feature_list().take(i + 1).contains(k) by {
                    assert(enabled.map().contains_key(k) <==> (before.contains_key(k) || k == id@));
                }
            }
            i = i + 1;
        }
        proof {
            assert(core_feature_list().take(core_feature_list().len() as int) =~= core_feature_list());
        }
        FeatureRegistry { enabled }
    }

    /// A registry built from stored states: defaults, then each stored state of
    /// a known feature; stored states of unknown features are ignored.
    pub fn from_enabled(values: Option<TextMap<bool>>) -> (r: Self)
        ensures
            forall|k: Seq<char>| #[trigger] r@.contains_key(k) <==> spec_is_known(k),
            forall|k: Seq<char>| spec_is_known(k) ==> #[trigger] r@[k] == (match values {
                Some(m) => if m.map().contains_key(k) { m.map()[k] } else { true },
                None => true,
            }),
    {
        let mut registry = Self::defaults();
        if let Some(values) = values {
            let mut i: usize = 0;
            while i < values.len()
                invariant
                    i <= values.pairs().len(),
                    forall|k: Seq<char>| #[trigger] registry@.contains_key(k) <==> spec_is_known(k),
                    forall|k: Seq<char>| spec_is_known(k) ==> #[trigger] registry@[k] == (
                        if exists|t: int| 0 <= t < i && (#[trigger] values.pairs()[t]).0 == k { values.map()[k] } else { true }),
                decreases values.pairs().len() - i,
            {
                let (id, state) = values.entry(i);
                let ghost before = registry@;
                if Self::is_known(id.as_str()) {
                    registry.enabled.insert(id.clone(), *state);
                }
                proof {
                    assert forall|k: Seq<char>| spec_is_known(k) implies #[trigger] registry@[k] == (
                        if exists|t: int| 0 <= t < i + 1 && (#[trigger] values.pairs()[t]).0 == k { values.map()[k] } else { true }) by {
                        if k == id@ {
                            assert(values.pairs()[i as int].0 == k);
                        } else {
                            if exists|t: int| 0 <= t < i + 1 && (#[trigger] values.pairs()[t]).0 == k {
                                let t = choose|t: int| 0 <= t < i + 1 && (#[trigger] values.pairs()[t]).0 == k;
                                assert(t != i);
                            }
                        }
                    }
                }
                i = i + 1;
            }
            proof {
                assert forall|k: Seq<char>| spec_is_known(k) implies #[trigger] registry@[k] == (
                    if values.map().contains_key(k) { values.map()[k] } else { true }) by {
                    if values.map().contains_key(k) {
                        crate::textmap::lemma_pairs_value(values.pairs(), k);
                    }
                }
            }
        }
        registry
    }

    /// Whether an identifier is a built-in feature.
    pub fn is_known(id: &str) -> (b: bool)
        ensures
            b == spec_is_known(id@),
    {
        let ids = core_features();
        let mut i: usize = 0;
        while i < ids.len()
            invariant
                i <= ids@.len(),
                ids@.map_values(|s: &str| s@) == core_feature_list(),
                forall|t: int| 0 <= t < i ==> core_feature_list()[t] != id@,
            decreases ids@.len() - i,
        {
            if str_eq(ids[i], id) {
                proof {
                    assert(core_feature_list()[i as int] == id@);
                }
                return true;
            }
            i = i + 1;
        }
        false
    }

    /// Switches a known feature; unknown identifiers are rejected and change nothing.
    pub fn set(&mut self, id: &str, on: bool) -> (r: Result<(), CoreError>)
        ensures
            spec_is_known(id@) ==> r is Ok && final(self)@ == old(self)@.insert(id@, on),
            !spec_is_known(id@) ==> (r matches Err(CoreError::UnknownFeature(m)) && m@ == id@) && final(self)@ == old(self)@,
    {
        if !Self::is_known(id) {
            return Err(CoreError::UnknownFeature(id.to_owned()));
        }
        self.enabled.insert(id.to_owned(), on);
        Ok(())
    }

    /// Whether a feature is on; unknown features are off.
    pub fn is_enabled(&self, id: &str) -> (b: bool)
        ensures
            b == spec_enabled(self@, id@),
    {
        match self.enabled.get(id) {
            Some(v) => *v,
            None => false,
        }
    }
}

/// A command and the feature which gates it.
#[derive(Clone, Copy, Debug, Eq, PartialEq)]
pub struct Command {
    pub id: &'static str,
    pub feature: &'static str,
}

/// Every command with the feature that gates it, in palette order.
pub open spec fn command_table() -> Seq<(Seq<char>, Seq<char>)> {
    seq![
        ("vault.scan"@, "vault"@),
        ("file.create"@, "file-explorer"@),
        ("file.delete"@, "file-explorer"@),
        ("search.query"@, "search"@),
        ("workspace.save"@, "workspace"@),
        ("settings.save"@, "settings"@),
        ("editor.open"@, "editor"@),
        ("graph.open"@, "graph"@),
        ("backlinks.list"@, "backlinks"@),
        ("daily-notes.open"@, "daily-notes"@),
        ("canvas.open"@, "canvas"@),
        ("templates.apply"@, "templates"@),
        ("properties.edit"@, "properties"@),
        ("markdown-preview.open"@, "markdown-preview"@),
        ("metadata-cache.refresh"@, "metadata-cache"@),
        ("attachments.open"@, "attachments"@),
        ("import-export.run"@, "import-export"@),
        ("themes.select"@, "themes"@),
        ("plugins.manage"@, "plugins"@),
        ("sync.run"@, "sync"@)
    ]
}

/// The commands of `table` whose feature is on.
pub open spec fn enabled_commands(table: Seq<(Seq<char>, Seq<char>)>, m: Map<Seq<char>, bool>) -> Seq<(Seq<char>, Seq<char>)>
    decreases table.len(),
{
    if table.len() == 0 {
        Seq::empty()
    } else if spec_enabled(m, table.last().1) {
        enabled_commands(table.drop_last(), m).push(table.last())
    } else {
        enabled_commands(table.drop_last(), m)
    }
}

fn command_list() -> (v: Vec<Command>)
    ensures
        v@.map_values(|c: Command| (c.id@, c.feature@)) == command_table(),
{
    let mut v: Vec<Command> = Vec::new();
    v.push(Command { id: "vault.scan", feature: "vault" });
    v.push(Command { id: "file.create", feature: "file-explorer" });
    v.push(Command { id: "file.delete", feature: "file-explorer" });
    v.push(Command { id: "search.query", feature: "search" });
    v.push(Command { id: "workspace.save", feature: "workspace" });
    v.push(Command { id: "settings.save", feature: "settings" });
    v.push(Command { id: "editor.open", feature: "editor" });
    v.push(Command { id: "graph.open", feature: "graph" });
    v.push(Command { id: "backlinks.list", feature: "backlinks" });
    v.push(Command { id: "daily-notes.open", feature: "daily-notes" });
    v.push(Command { id: "canvas.open", feature: "canvas" });
    v.push(Command { id: "templates.apply", feature: "templates" });
    v.push(Command { id: "properties.edit", feature: "properties" });
    v.push(Command { id: "markdown-preview.open", feature: "markdown-preview" });
    v.push(Command { id: "metadata-cache.refresh", feature: "metadata-cache" });
    v.push(Command { id: "attachments.open", feature: "attachments" });
    v.push(Command { id: "import-export.run", feature: "import-export" });
    v.push(Command { id: "themes.select", feature: "themes" });
    v.push(Command { id: "plugins.manage", feature: "plugins" });
    v.push(Command { id: "sync.run", feature: "sync" });
    proof {
        assert(v@.map_values(|c: Command| (c.id@, c.feature@)) =~= command_table());
    }
    v
}

/// Commands available when their feature is enabled, in palette order.
pub fn commands(registry: &FeatureRegistry) -> (out: Vec<Command>)
    ensures
        out@.map_values(|c: Command| (c.id@, c.feature@)) == enabled_commands(command_table(), registry@),
{
    let all = command_list();
    let mut out: Vec<Command> = Vec::new();
    let mut i: usize = 0;
    while i < all.len()
        invariant
            i <= all@.len(),
            all@.map_values(|c: Command| (c.id@, c.feature@)) == command_table(),
            out@.map_values(|c: Command| (c.id@, c.feature@)) == enabled_commands(command_table().take(i as int), registry@),
        decreases all@.len() - i,
    {
        proof {
            assert(command_table().take(i + 1).drop_last() =~= command_table().take(i as int));
            assert(command_table().take(i + 1).last() == command_table()[i as int]);
        }
        let c = all[i];
        if registry.is_enabled(c.feature) {
            out.push(c);
        }
        proof {
            assert(out@.map_values(|c: Command| (c.id@, c.feature@)) =~= enabled_commands(command_table().take(i + 1), registry@));
        }
        i = i + 1;
    }
    proof {
        assert(command_table().take(command_table().len() as int) =~= command_table());
    }
    out
}

/// Switching a feature off removes exactly its commands: a command stays
/// available after `set(feature, false)` iff it is gated by another enabled feature.
pub proof fn lemma_disabled_feature_hides_commands(table: Seq<(Seq<char>, Seq<char>)>, m: Map<Seq<char>, bool>, feature: Seq<char>, i: int)
    requires
        0 <= i < enabled_commands(table, m.insert(feature, false)).len(),
    ensures
        enabled_commands(table, m.insert(feature, false))[i].1 != feature,
    decreases table.len(),
{
    let n = m.insert(feature, false);
    if table.len() > 0 {
        let prev = enabled_commands(table.drop_last(), n);
        if spec_enabled(n, table.last().1) {
            if i < prev.len() {
                lemma_disabled_feature_hides_commands(table.drop_last(), m, feature, i);
            }
        } else {
            lemma_disabled_feature_hides_commands(table.drop_last(), m, feature, i);
        }
    }
}

} // verus!
