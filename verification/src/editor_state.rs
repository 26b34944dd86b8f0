//! The editing model behind the Markdown editor: selection, history,
//! events, find, IME composition and line projection, without any window.
use vstd::prelude::*;
use vstd::utf8::is_char_boundary;
use std::ops::Range;
use crate::text::{byte_at, char_offsets, chars_of, enc, lemma_boundary_char, lemma_byte_at_mono, lemma_enc_concat};
use crate::markdown::{
    Document, EditorDocument, EditorView, Span, ViewMode, after_edit, parsed, replaced,
    span_ok,
};
use crate::markdown::block::{lines_exec, md_lines};
use crate::text::{find_after, find_next, lemma_find_after, match_at, skip_ws, skip_ws_exec, starts_with, string_of, region_starts_with};

verus! {

broadcast use vstd::utf8::encode_utf8_valid_utf8;

// ---------------------------------------------------------------- boundaries

/// The last character boundary of `b` at or before `p`.
pub open spec fn floor_boundary(b: Seq<u8>, p: int) -> int
    decreases p,
{
    if p <= 0 {
        0
    } else if is_char_boundary(b, p) {
        p
    } else {
        floor_boundary(b, p - 1)
    }
}

/// The character boundary of `s` at or before byte `p` (clamped to the end).
pub open spec fn prev_boundary_spec(s: Seq<char>, p: int) -> int {
    floor_boundary(enc(s), if p < enc(s).len() { p } else { enc(s).len() as int })
}

pub proof fn lemma_floor_boundary(b: Seq<u8>, p: int)
    requires
        vstd::utf8::valid_utf8(b),
    ensures
        p >= 0 ==> 0 <= floor_boundary(b, p) <= p,
        is_char_boundary(b, floor_boundary(b, p)),
        forall|q: int| floor_boundary(b, p) < q <= p ==> !is_char_boundary(b, q),
    decreases p,
{
    if p > 0 && !is_char_boundary(b, p) {
        lemma_floor_boundary(b, p - 1);
    }
}

/// The character boundary of `s` at or before byte `p` (clamped to the end).
pub fn prev_boundary(s: &str, p: usize) -> (r: usize)
    ensures
        r == prev_boundary_spec(s@, p as int),
        r <= p,
        is_char_boundary(enc(s@), r as int),
{
    let n = s.as_bytes().len();
    let mut q = if p < n { p } else { n };
    while q > 0 && !s.is_char_boundary(q)
        invariant
            q <= n,
            q <= p,
            n == enc(s@).len(),
            floor_boundary(enc(s@), q as int) == prev_boundary_spec(s@, p as int),
        decreases q,
    {
        q = q - 1;
    }
    proof {
        lemma_floor_boundary(enc(s@), q as int);
    }
    q
}

/// The character index of boundary `b` of `s`.
pub open spec fn char_at_byte(s: Seq<char>, b: int) -> int {
    choose|a: int| 0 <= a <= s.len() && byte_at(s, a) == b
}

proof fn lemma_char_at_byte(s: Seq<char>, b: int)
    requires
        is_char_boundary(enc(s), b),
    ensures
        0 <= char_at_byte(s, b) <= s.len(),
        byte_at(s, char_at_byte(s, b)) == b,
        forall|a: int| 0 <= a <= s.len() && byte_at(s, a) == b ==> a == char_at_byte(s, b),
{
    lemma_boundary_char(s, b);
    let c = char_at_byte(s, b);
    assert forall|a: int| 0 <= a <= s.len() && byte_at(s, a) == b implies a == c by {
        if a < c {
            lemma_byte_at_mono(s, a, c);
        } else if a > c {
            lemma_byte_at_mono(s, c, a);
        }
    }
}

/// The boundary before the character that ends at or before byte `p`; 0 at the start.
pub open spec fn previous_boundary_spec(s: Seq<char>, p: int) -> int {
    let a = char_at_byte(s, prev_boundary_spec(s, p));
    if a > 0 { byte_at(s, a - 1) } else { 0 }
}

/// The boundary after the character that starts at the boundary at or before byte `p`.
pub open spec fn next_boundary_spec(s: Seq<char>, p: int) -> int {
    let a = char_at_byte(s, prev_boundary_spec(s, p));
    if a < s.len() { byte_at(s, a + 1) } else { enc(s).len() as int }
}

/// The index of the character of `cs` that starts at byte `b`, given the offsets of `cs`.
fn char_index_of(cs: &Vec<char>, offs: &Vec<usize>, b: usize) -> (a: usize)
    requires
        offs@.len() == cs@.len() + 1,
        forall|i: int| 0 <= i <= cs@.len() ==> #[trigger] offs@[i] == byte_at(cs@, i),
        is_char_boundary(enc(cs@), b as int),
    ensures
        a as int == char_at_byte(cs@, b as int),
        a <= cs@.len(),
{
    proof {
        lemma_char_at_byte(cs@, b as int);
    }
    let mut a: usize = 0;
    while a < cs.len() && offs[a] != b
        invariant
            a <= cs@.len(),
            offs@.len() == cs@.len() + 1,
            forall|i: int| 0 <= i <= cs@.len() ==> #[trigger] offs@[i] == byte_at(cs@, i),
            0 <= char_at_byte(cs@, b as int) <= cs@.len(),
            byte_at(cs@, char_at_byte(cs@, b as int)) == b,
            forall|i: int| 0 <= i < a ==> byte_at(cs@, i) != b,
        decreases cs@.len() - a,
    {
        a = a + 1;
    }
    proof {
        if a == cs@.len() && offs@[a as int] != b {
            assert(byte_at(cs@, char_at_byte(cs@, b as int)) == b);
            assert(false);
        }
    }
    a
}

/// The boundary before the character ending at byte `p`.
pub fn previous_boundary(s: &str, p: usize) -> (r: usize)
    ensures
        r == previous_boundary_spec(s@, p as int),
{
    let q = prev_boundary(s, p);
    let cs = chars_of(s);
    let offs = char_offsets(s, &cs);
    let a = char_index_of(&cs, &offs, q);
    if a > 0 {
        offs[a - 1]
    } else {
        0
    }
}

/// The boundary after the character starting at byte `p`.
pub fn next_boundary(s: &str, p: usize) -> (r: usize)
    ensures
        r == next_boundary_spec(s@, p as int),
{
    let q = prev_boundary(s, p);
    let cs = chars_of(s);
    let offs = char_offsets(s, &cs);
    let a = char_index_of(&cs, &offs, q);
    if a < cs.len() {
        offs[a + 1]
    } else {
        s.as_bytes().len()
    }
}

// ---------------------------------------------------------------- UTF-16 offsets

/// The number of UTF-16 code units of a character.
pub open spec fn len16(c: char) -> int {
    if (c as u32) >= 0x10000 { 2 } else { 1 }
}

/// The number of UTF-16 code units of the first `k` characters of `s`.
pub open spec fn units(s: Seq<char>, k: int) -> int
    decreases k,
{
    if k <= 0 || k > s.len() {
        0
    } else {
        units(s, k - 1) + len16(s[k - 1])
    }
}

/// The first character index from `k` at which at least `n` code units precede, or the end.
pub open spec fn u16_index(s: Seq<char>, n: int, k: int) -> int
    decreases s.len() - k,
{
    if k >= s.len() || n <= units(s, k) {
        k
    } else {
        u16_index(s, n, k + 1)
    }
}

/// The byte offset of UTF-16 offset `n`: the boundary of the first character
/// at which `n` units are reached, or the end of `s`.
pub open spec fn utf16_to_byte_spec(s: Seq<char>, n: int) -> int {
    byte_at(s, u16_index(s, n, 0))
}

/// The UTF-16 offset of byte `n`, taken at the boundary at or before it.
pub open spec fn byte_to_utf16_spec(s: Seq<char>, n: int) -> int {
    units(s, char_at_byte(s, prev_boundary_spec(s, n)))
}

proof fn lemma_units_bytes(s: Seq<char>, k: int)
    requires
        0 <= k <= s.len(),
    ensures
        0 <= units(s, k) <= byte_at(s, k),
    decreases k,
{
    if k > 0 {
        lemma_units_bytes(s, k - 1);
        lemma_enc_concat(s.take(k - 1), seq![s[k - 1]]);
        assert(s.take(k - 1) + seq![s[k - 1]] =~= s.take(k));
        let c = s[k - 1];
        assert(seq![c].drop_first() =~= Seq::<char>::empty());
        assert(seq![c][0] == c);
        assert(enc(seq![c]) =~= vstd::utf8::encode_scalar(c as u32) + enc(Seq::<char>::empty()));
    }
}

/// The byte offset of UTF-16 offset `n` in `s`.
pub fn utf16_to_byte(s: &str, n: usize) -> (r: usize)
    ensures
        r == utf16_to_byte_spec(s@, n as int),
{
    let cs = chars_of(s);
    let offs = char_offsets(s, &cs);
    let mut u: u128 = 0;
    let mut i: usize = 0;
    while i < cs.len()
        invariant
            i <= cs@.len(),
            cs@ == s@,
            offs@.len() == cs@.len() + 1,
            forall|j: int| 0 <= j <= cs@.len() ==> #[trigger] offs@[j] == byte_at(cs@, j),
            u == units(cs@, i as int),
            u <= 2 * i,
            n > units(cs@, i as int) ==> u16_index(cs@, n as int, i as int) == u16_index(cs@, n as int, 0),
            n <= units(cs@, i as int) ==> u16_index(cs@, n as int, 0) == i,
        decreases cs@.len() - i,
    {
        if (n as u128) <= u {
            return offs[i];
        }
        let c = cs[i];
        let w: u128 = if (c as u32) >= 0x10000 { 2 } else { 1 };
        u = u + w;
        i = i + 1;
        if (n as u128) <= u {
            proof {
                assert(u16_index(cs@, n as int, (i - 1) as int) == u16_index(cs@, n as int, i as int));
            }
            return offs[i];
        }
    }
    proof {
        if (n as u128) <= u {
        } else {
            assert(u16_index(cs@, n as int, i as int) == i);
        }
    }
    offs[cs.len()]
}

/// The UTF-16 offset of byte `n` in `s`.
pub fn byte_to_utf16(s: &str, n: usize) -> (r: usize)
    ensures
        r == byte_to_utf16_spec(s@, n as int),
{
    let q = prev_boundary(s, n);
    let cs = chars_of(s);
    let offs = char_offsets(s, &cs);
    let a = char_index_of(&cs, &offs, q);
    let mut u: usize = 0;
    let mut i: usize = 0;
    proof {
        lemma_char_at_byte(cs@, q as int);
        lemma_units_bytes(cs@, a as int);
    }
    while i < a
        invariant
            i <= a <= cs@.len(),
            u == units(cs@, i as int),
            units(cs@, a as int) <= byte_at(cs@, a as int),
            byte_at(cs@, a as int) == q,
            q <= n,
        decreases a - i,
    {
        proof {
            lemma_units_mono(cs@, i + 1, a as int);
        }
        let c = cs[i];
        let w: usize = if (c as u32) >= 0x10000 { 2 } else { 1 };
        u = u + w;
        i = i + 1;
    }
    u
}

proof fn lemma_units_mono(s: Seq<char>, i: int, j: int)
    requires
        0 <= i <= j <= s.len(),
    ensures
        units(s, i) <= units(s, j),
    decreases j - i,
{
    if i < j {
        lemma_units_mono(s, i, j - 1);
    }
}

// ---------------------------------------------------------------- selection

/// A UTF-8 byte cursor.
#[derive(Clone, Copy, Debug, Eq, PartialEq, Structural)]
pub struct Cursor(pub usize);

impl Default for Cursor {
    fn default() -> (c: Self)
        ensures
            c.0 == 0,
    {
        Cursor(0)
    }
}

/// A half-open UTF-8 byte selection.
#[derive(Clone, Copy, Debug, Eq, PartialEq, Structural)]
pub struct Selection {
    pub anchor: Cursor,
    pub head: Cursor,
}

impl Default for Selection {
    fn default() -> (s: Self)
        ensures
            s.anchor.0 == 0 && s.head.0 == 0,
    {
        Selection { anchor: Cursor(0), head: Cursor(0) }
    }
}

impl Selection {
    pub open spec fn lo(self) -> usize {
        if self.anchor.0 <= self.head.0 { self.anchor.0 } else { self.head.0 }
    }

    pub open spec fn hi(self) -> usize {
        if self.anchor.0 <= self.head.0 { self.head.0 } else { self.anchor.0 }
    }

    /// The selected bytes, from the lower end to the higher.
    pub fn range(self) -> (r: Range<usize>)
        ensures
            r.start == self.lo() && r.end == self.hi(),
    {
        let (a, b) = (self.anchor.0, self.head.0);
        if a <= b {
            a..b
        } else {
            b..a
        }
    }

    /// Whether anchor and head coincide.
    pub fn collapsed(self) -> (b: bool)
        ensures
            b == (self.anchor == self.head),
    {
        self.anchor.0 == self.head.0
    }
}

/// A syntax category used by renderers to choose their own colors.
#[derive(Clone, Copy, Debug, Eq, PartialEq, Structural)]
pub enum SyntaxKind {
    Plain,
    Heading,
    Marker,
    Code,
    Link,
    Emphasis,
    Comment,
}

#[derive(Clone, Copy, Debug, Eq, PartialEq, Structural)]
pub struct Token {
    pub span: Span,
    pub kind: SyntaxKind,
}

/// A line projection suitable for any renderer.
#[derive(Clone, Debug, Eq, PartialEq)]
pub struct ProjectedLine {
    pub number: usize,
    pub span: Span,
    pub text: String,
    pub tokens: Vec<Token>,
}

/// A search result in source byte offsets.
#[derive(Clone, Copy, Debug, Eq, PartialEq, Structural)]
pub struct FindResult {
    pub span: Span,
}

/// Events for persistence and surrounding application state.
#[derive(Clone, Copy, Debug, Eq, PartialEq, Structural)]
pub enum EditorEvent {
    Changed { revision: u64 },
    DirtyChanged(bool),
    SaveRequested,
    ModeChanged(ViewMode),
    FindChanged,
}

// ---------------------------------------------------------------- snapshots

/// A stack of (source, selection) snapshots whose sources all parse.
#[derive(Debug)]
struct Snapshots {
    items: Vec<(String, Selection)>,
}

pub open spec fn snaps(v: Seq<(String, Selection)>) -> Seq<(Seq<char>, Selection)> {
    v.map_values(|x: (String, Selection)| (x.0@, x.1))
}

impl Snapshots {
    spec fn view(&self) -> Seq<(Seq<char>, Selection)> {
        snaps(self.items@)
    }

    fn new() -> (s: Self)
        ensures
            s.view() == Seq::<(Seq<char>, Selection)>::empty(),
    {
        let s = Snapshots { items: Vec::new() };
        proof {
            assert(s.view() =~= Seq::<(Seq<char>, Selection)>::empty());
        }
        s
    }

    fn push(&mut self, source: String, selection: Selection)
        ensures
            final(self).view() == old(self).view().push((source@, selection)),
    {
        let mut v: Vec<(String, Selection)> = Vec::new();
        std::mem::swap(&mut v, &mut self.items);
        let ghost before = snaps(v@);
        v.push((source, selection));
        proof {
            assert(snaps(v@) =~= before.push((source@, selection)));
        }
        self.items = v;
    }

    fn pop(&mut self) -> (r: Option<(String, Selection)>)
        ensures
            old(self).view().len() == 0 ==> r is None && final(self).view() == old(self).view(),
            old(self).view().len() > 0 ==> (r matches Some(x) && (x.0@, x.1) == old(self).view().last())
                && final(self).view() == old(self).view().drop_last(),
    {
        let mut v: Vec<(String, Selection)> = Vec::new();
        std::mem::swap(&mut v, &mut self.items);
        let ghost before = v@;
        let r = v.pop();
        proof {
            if before.len() > 0 {
                assert(snaps(v@) =~= snaps(before).drop_last());
            }
        }
        self.items = v;
        r
    }
}

// ---------------------------------------------------------------- state

/// The complete editing model; it needs no window or filesystem.
#[derive(Debug)]
pub struct EditorState {
    document: EditorDocument,
    clean_source: String,
    selection: Selection,
    mode: ViewMode,
    scroll_line: usize,
    find_query: String,
    events: Vec<EditorEvent>,
    history: Snapshots,
    redo_history: Snapshots,
    marked: Option<Range<usize>>,
}

/// An editor state: its editor document, the source it was saved with, the
/// selection, mode, scroll line, find query, pending events, the undo and
/// redo snapshots (oldest first) and the IME composition range.
pub struct StateView {
    pub doc: EditorView,
    pub clean: Seq<char>,
    pub selection: Selection,
    pub mode: ViewMode,
    pub scroll_line: usize,
    pub find_query: Seq<char>,
    pub events: Seq<EditorEvent>,
    pub history: Seq<(Seq<char>, Selection)>,
    pub redo: Seq<(Seq<char>, Selection)>,
    pub marked: Option<(usize, usize)>,
}

pub open spec fn range_view(r: Option<Range<usize>>) -> Option<(usize, usize)> {
    match r {
        Some(x) => Some((x.start, x.end)),
        None => None,
    }
}

impl View for EditorState {
    type V = StateView;

    closed spec fn view(&self) -> StateView {
        StateView {
            doc: self.document@,
            clean: self.clean_source@,
            selection: self.selection,
            mode: self.mode,
            scroll_line: self.scroll_line,
            find_query: self.find_query@,
            events: self.events@,
            history: self.history.view(),
            redo: self.redo_history.view(),
            marked: range_view(self.marked),
        }
    }
}

/// The source being edited.
pub open spec fn src(v: StateView) -> Seq<char> {
    v.doc.document.source
}

/// `s` with both ends moved back to the character boundary at or before them.
pub open spec fn norm(source: Seq<char>, s: Selection) -> Selection {
    Selection {
        anchor: Cursor(prev_boundary_spec(source, s.anchor.0 as int) as usize),
        head: Cursor(prev_boundary_spec(source, s.head.0 as int) as usize),
    }
}

/// A fresh editor document on `source`.
pub open spec fn fresh_doc(source: Seq<char>) -> EditorView {
    EditorView { document: parsed(source, 0, ViewMode::Source), undo: Seq::empty(), redo: Seq::empty(), clean: source }
}

/// Whether replacing bytes `a..b` by `t` fits the machine: the new cursor,
/// after the inserted text, must fit a `usize`.
pub open spec fn replace_ok(v: StateView, a: int, b: int, t: Seq<char>) -> bool {
    a + enc(t).len() <= usize::MAX
}

/// The state after replacing bytes `a..b` by `t`: the old source and
/// selection are kept for undo and redo is dropped; a valid span is edited,
/// the cursor moves past the insertion, and the change (and any change of
/// dirtiness) is reported.
pub open spec fn replace_view(v: StateView, a: int, b: int, t: Seq<char>) -> StateView {
    let pushed = StateView { history: v.history.push((src(v), v.selection)), redo: Seq::empty(), ..v };
    if span_ok(src(v), a, b) {
        let nd = after_edit(v.doc, replaced(src(v), a, b, t));
        let cur = Cursor((a + enc(t).len()) as usize);
        let was = src(v) != v.clean;
        let now = nd.document.source != v.clean;
        let ev = v.events.push(EditorEvent::Changed { revision: nd.document.revision });
        StateView {
            doc: nd,
            selection: Selection { anchor: cur, head: cur },
            events: if was != now { ev.push(EditorEvent::DirtyChanged(now)) } else { ev },
            ..pushed
        }
    } else {
        pushed
    }
}

/// The bytes that a backward delete removes: the selection, else the
/// character before the cursor; `None` at the start.
pub open spec fn backward_span(v: StateView) -> Option<(int, int)> {
    let s = v.selection;
    if s.anchor != s.head {
        Some((s.lo() as int, s.hi() as int))
    } else if s.lo() > 0 {
        Some((previous_boundary_spec(src(v), s.lo() as int), s.lo() as int))
    } else {
        None
    }
}

/// The bytes that a forward delete removes: the selection, else the
/// character after the cursor; `None` at the end.
pub open spec fn forward_span(v: StateView) -> Option<(int, int)> {
    let s = v.selection;
    if s.anchor != s.head {
        Some((s.lo() as int, s.hi() as int))
    } else if s.hi() < enc(src(v)).len() {
        Some((s.hi() as int, next_boundary_spec(src(v), s.hi() as int)))
    } else {
        None
    }
}

/// The state after restoring snapshot `snap`, with `now` kept on the other stack.
pub open spec fn restore_view(v: StateView, snap: (Seq<char>, Selection)) -> StateView {
    StateView {
        doc: fresh_doc(snap.0),
        selection: norm(snap.0, snap.1),
        events: v.events.push(EditorEvent::Changed { revision: 0 }),
        ..v
    }
}

/// The state after undoing its last change.
pub open spec fn undo_view(v: StateView) -> StateView {
    restore_view(
        StateView { history: v.history.drop_last(), redo: v.redo.push((src(v), v.selection)), ..v },
        v.history.last(),
    )
}

/// The state after redoing its last undone change.
pub open spec fn redo_view(v: StateView) -> StateView {
    restore_view(
        StateView { redo: v.redo.drop_last(), history: v.history.push((src(v), v.selection)), ..v },
        v.redo.last(),
    )
}

impl EditorState {
    /// An editor on `source`: clean, in source mode, with the cursor at the start.
    pub fn new(source: &str) -> (e: Self)
        ensures
            e@ == (StateView {
                doc: fresh_doc(source@),
                clean: source@,
                selection: Selection { anchor: Cursor(0), head: Cursor(0) },
                mode: ViewMode::Source,
                scroll_line: 0,
                find_query: Seq::empty(),
                events: Seq::empty(),
                history: Seq::empty(),
                redo: Seq::empty(),
                marked: None,
            }),
    {
        let e = EditorState {
            document: EditorDocument::new(source),
            clean_source: source.to_owned(),
            selection: Selection::default(),
            mode: ViewMode::Source,
            scroll_line: 0,
            find_query: String::new(),
            events: Vec::new(),
            history: Snapshots::new(),
            redo_history: Snapshots::new(),
            marked: None,
        };
        proof {
            assert(e@.events =~= Seq::<EditorEvent>::empty());
            assert(e@.doc.undo =~= Seq::<Seq<char>>::empty());
            assert(e@.doc.redo =~= Seq::<Seq<char>>::empty());
            assert(e@.find_query =~= Seq::<char>::empty());
        }
        e
    }

    /// [`EditorState::new`]; parsing is defined on every text, so this is always `Some`.
    pub fn try_new(source: &str) -> (e: Option<Self>)
        ensures
            e matches Some(e) && e@.doc == fresh_doc(source@) && e@.clean == source@,
    {
        Some(EditorState::new(source))
    }

    pub fn source(&self) -> (s: &str)
        ensures
            s@ == src(self@),
    {
        self.document.source()
    }

    pub fn document(&self) -> (d: &Document)
        ensures
            d@ == self@.doc.document,
    {
        self.document.document()
    }

    pub fn selection(&self) -> (s: Selection)
        ensures
            s == self@.selection,
    {
        self.selection
    }

    /// The cursor: the selection's head.
    pub fn cursor(&self) -> (c: Cursor)
        ensures
            c == self@.selection.head,
    {
        Cursor(self.selection.head.0)
    }

    /// Whether the source differs from the one last saved.
    pub fn is_dirty(&self) -> (b: bool)
        ensures
            b == (src(self@) != self@.clean),
    {
        !crate::text::str_eq(self.document.source(), &self.clean_source)
    }

    pub fn mode(&self) -> (m: ViewMode)
        ensures
            m == self@.mode,
    {
        self.mode
    }

    pub fn scroll_line(&self) -> (l: usize)
        ensures
            l == self@.scroll_line,
    {
        self.scroll_line
    }

    pub fn set_scroll_line(&mut self, line: usize)
        ensures
            final(self)@ == (StateView { scroll_line: line, ..old(self)@ }),
    {
        self.scroll_line = line;
    }

    fn normalize(&self, s: Selection) -> (r: Selection)
        ensures
            r == norm(src(self@), s),
            is_char_boundary(enc(src(self@)), r.anchor.0 as int),
            is_char_boundary(enc(src(self@)), r.head.0 as int),
    {
        let a = prev_boundary(self.document.source(), s.anchor.0);
        let h = prev_boundary(self.document.source(), s.head.0);
        Selection { anchor: Cursor(a), head: Cursor(h) }
    }

    /// Selects `selection`, each end moved back to a character boundary.
    pub fn set_selection(&mut self, selection: Selection)
        ensures
            final(self)@ == (StateView { selection: norm(src(old(self)@), selection), ..old(self)@ }),
            is_char_boundary(enc(src(final(self)@)), final(self)@.selection.anchor.0 as int),
            is_char_boundary(enc(src(final(self)@)), final(self)@.selection.head.0 as int),
    {
        let s = self.normalize(selection);
        self.selection = s;
    }

    /// Places a collapsed selection at `cursor`, moved back to a character boundary.
    pub fn set_cursor(&mut self, cursor: Cursor)
        ensures
            final(self)@ == (StateView {
                selection: norm(src(old(self)@), Selection { anchor: cursor, head: cursor }),
                ..old(self)@
            }),
            is_char_boundary(enc(src(final(self)@)), final(self)@.selection.head.0 as int),
            final(self)@.selection.anchor == final(self)@.selection.head,
    {
        let s = self.normalize(Selection { anchor: cursor, head: cursor });
        self.selection = s;
    }

    /// The IME composition range, if any.
    pub fn marked_range(&self) -> (r: Option<Range<usize>>)
        ensures
            range_view(r) == self@.marked,
    {
        match &self.marked {
            Some(r) => Some(r.start..r.end),
            None => None,
        }
    }

    /// Sets the composition range, its ends moved back to character boundaries and ordered.
    pub fn set_marked_range(&mut self, range: Option<Range<usize>>)
        ensures
            final(self)@ == (StateView {
                marked: match range {
                    Some(r) => {
                        let s = norm(src(old(self)@), Selection { anchor: Cursor(r.start), head: Cursor(r.end) });
                        Some((s.lo(), s.hi()))
                    },
                    None => None,
                },
                ..old(self)@
            }),
    {
        let m = match range {
            Some(r) => {
                let s = self.normalize(Selection { anchor: Cursor(r.start), head: Cursor(r.end) });
                Some(s.range())
            },
            None => None,
        };
        self.marked = m;
    }

    /// Switches the mode, reporting a change.
    pub fn set_mode(&mut self, mode: ViewMode)
        ensures
            final(self)@ == (if old(self)@.mode != mode {
                StateView { mode, events: old(self)@.events.push(EditorEvent::ModeChanged(mode)), ..old(self)@ }
            } else {
                old(self)@
            }),
    {
        if self.mode != mode {
            self.mode = mode;
            self.events.push(EditorEvent::ModeChanged(mode));
        }
    }

    /// Records the current source as saved.
    pub fn mark_clean(&mut self)
        ensures
            final(self)@ == (StateView { clean: src(old(self)@), ..old(self)@ }),
    {
        self.clean_source = self.document.source().to_owned();
    }

    /// The pending events, oldest first; none remain.
    pub fn take_events(&mut self) -> (r: Vec<EditorEvent>)
        ensures
            r@ == old(self)@.events,
            final(self)@ == (StateView { events: Seq::empty(), ..old(self)@ }),
    {
        let mut out: Vec<EditorEvent> = Vec::new();
        std::mem::swap(&mut out, &mut self.events);
        proof {
            assert(self@.events =~= Seq::<EditorEvent>::empty());
        }
        out
    }

    /// Replaces bytes `start..end` by `text`, as [`replace_view`] describes.
    fn replace(&mut self, start: usize, end: usize, text: &str)
        requires
            replace_ok(old(self)@, start as int, end as int, text@),
        ensures
            final(self)@ == replace_view(old(self)@, start as int, end as int, text@),
    {
        let was_dirty = self.is_dirty();
        let before = self.document.source().to_owned();
        self.history.push(before, self.selection);
        self.redo_history = Snapshots::new();
        if self.document.edit(Span::new(start, end), text).is_ok() {
            let pos = start + text.as_bytes().len();
            self.selection = Selection { anchor: Cursor(pos), head: Cursor(pos) };
            let rev = self.document.document().revision();
            self.events.push(EditorEvent::Changed { revision: rev });
            let now = self.is_dirty();
            if was_dirty != now {
                self.events.push(EditorEvent::DirtyChanged(now));
            }
        }
    }

    /// Replaces the selection by `text`.
    pub fn insert_text(&mut self, text: &str)
        requires
            replace_ok(old(self)@, old(self)@.selection.lo() as int, old(self)@.selection.hi() as int, text@),
        ensures
            final(self)@ == replace_view(old(self)@, old(self)@.selection.lo() as int, old(self)@.selection.hi() as int, text@),
    {
        let r = self.selection.range();
        self.replace(r.start, r.end, text);
    }

    /// Deletes the selection, or the character before the cursor.
    pub fn delete_backward(&mut self)
        requires
            backward_span(old(self)@) matches Some((a, b)) ==> replace_ok(old(self)@, a, b, Seq::empty()),
        ensures
            final(self)@ == match backward_span(old(self)@) {
                Some((a, b)) => replace_view(old(self)@, a, b, Seq::empty()),
                None => old(self)@,
            },
    {
        let r = self.selection.range();
        proof {
            reveal_strlit("");
        }
        if !self.selection.collapsed() {
            self.replace(r.start, r.end, "")
        } else if r.start > 0 {
            let p = previous_boundary(self.document.source(), r.start);
            self.replace(p, r.start, "");
        }
    }

    /// Deletes the selection, or the character after the cursor.
    pub fn delete_forward(&mut self)
        requires
            forward_span(old(self)@) matches Some((a, b)) ==> replace_ok(old(self)@, a, b, Seq::empty()),
        ensures
            final(self)@ == match forward_span(old(self)@) {
                Some((a, b)) => replace_view(old(self)@, a, b, Seq::empty()),
                None => old(self)@,
            },
    {
        let r = self.selection.range();
        proof {
            reveal_strlit("");
        }
        if !self.selection.collapsed() {
            self.replace(r.start, r.end, "")
        } else if r.end < self.document.source().as_bytes().len() {
            let n = next_boundary(self.document.source(), r.end);
            self.replace(r.end, n, "");
        }
    }

    /// Restores the source and selection before the last change.
    pub fn undo(&mut self)
        ensures
            old(self)@.history.len() > 0 ==> final(self)@ == undo_view(old(self)@),
            old(self)@.history.len() == 0 ==> final(self)@ == old(self)@,
    {
        match self.history.pop() {
            Some((source, selection)) => {
                let now = self.document.source().to_owned();
                self.redo_history.push(now, self.selection);
                self.document = EditorDocument::new(&source);
                proof {
                    assert(self.document@.undo =~= Seq::<Seq<char>>::empty());
                    assert(self.document@.redo =~= Seq::<Seq<char>>::empty());
                }
                self.selection = self.normalize(selection);
                self.events.push(EditorEvent::Changed { revision: self.document.document().revision() });
            },
            None => {},
        }
    }

    /// Restores the source and selection before the last undo.
    pub fn redo(&mut self)
        ensures
            old(self)@.redo.len() > 0 ==> final(self)@ == redo_view(old(self)@),
            old(self)@.redo.len() == 0 ==> final(self)@ == old(self)@,
    {
        match self.redo_history.pop() {
            Some((source, selection)) => {
                let now = self.document.source().to_owned();
                self.history.push(now, self.selection);
                self.document = EditorDocument::new(&source);
                proof {
                    assert(self.document@.undo =~= Seq::<Seq<char>>::empty());
                    assert(self.document@.redo =~= Seq::<Seq<char>>::empty());
                }
                self.selection = self.normalize(selection);
                self.events.push(EditorEvent::Changed { revision: self.document.document().revision() });
            },
            None => {},
        }
    }

    /// Asks the host to save.
    pub fn request_save(&mut self)
        ensures
            final(self)@ == (StateView { events: old(self)@.events.push(EditorEvent::SaveRequested), ..old(self)@ }),
    {
        self.events.push(EditorEvent::SaveRequested);
    }

    /// Sets the find query, reporting the change.
    pub fn set_find_query(&mut self, query: &str)
        ensures
            final(self)@ == (StateView { find_query: query@, events: old(self)@.events.push(EditorEvent::FindChanged), ..old(self)@ }),
    {
        self.find_query = query.to_owned();
        self.events.push(EditorEvent::FindChanged);
    }

    pub fn find_query(&self) -> (q: &str)
        ensures
            q@ == self@.find_query,
    {
        &self.find_query
    }

    /// Ends the IME composition.
    pub fn unmark_text(&mut self)
        ensures
            final(self)@ == (StateView { marked: None, ..old(self)@ }),
    {
        self.marked = None;
    }
}

// ---------------------------------------------------------------- find and projection

/// The byte spans of the non-overlapping matches of `q` in `s` from
/// character `i`; the search stops once a match reaches the end.
pub open spec fn find_spans(s: Seq<char>, q: Seq<char>, i: int) -> Seq<(int, int)>
    decreases s.len() - i,
{
    if q.len() == 0 || i < 0 || i > s.len() {
        Seq::empty()
    } else {
        match find_after(s, i, q) {
            Some(k) => {
                proof {
                    lemma_find_after(s, i, q);
                }
                let e = k + q.len();
                seq![(byte_at(s, k), byte_at(s, k) + enc(q).len())] + if e >= s.len() { Seq::empty() } else { find_spans(s, q, e) }
            },
            None => Seq::empty(),
        }
    }
}

pub open spec fn fview(f: FindResult) -> (int, int) {
    (f.span.start as int, f.span.end as int)
}

/// The syntax kind of a projected line, from its first non-blank characters.
pub open spec fn line_kind(t: Seq<char>) -> SyntaxKind {
    let u = t.skip(skip_ws(t, 0, t.len() as int));
    if starts_with(u, seq!['#']) {
        SyntaxKind::Heading
    } else if starts_with(u, seq!['<', '!', '-', '-']) {
        SyntaxKind::Comment
    } else if starts_with(u, seq!['`', '`', '`']) {
        SyntaxKind::Code
    } else {
        SyntaxKind::Plain
    }
}

/// A projected line as (number, span, text, tokens).
pub type LineView = (usize, Span, Seq<char>, Seq<Token>);

pub open spec fn plview(l: ProjectedLine) -> LineView {
    (l.number, l.span, l.text@, l.tokens@)
}

/// The projection of `s`: one entry per line, numbered from 1, with the
/// line's byte span and text (without its line ending) and one token.
pub open spec fn projection_spec(s: Seq<char>) -> Seq<LineView> {
    let ls = md_lines(s, 0, s.len() as int);
    Seq::new(ls.len(), |k: int| {
        let span = Span { start: byte_at(s, ls[k].0) as usize, end: byte_at(s, ls[k].1) as usize };
        let t = s.subrange(ls[k].0, ls[k].1);
        ((k + 1) as usize, span, t, seq![Token { span, kind: line_kind(t) }])
    })
}

/// The byte span that an IME composition replaces: the given UTF-16 range,
/// else the composition range, else the selection.
pub open spec fn marked_target(v: StateView, range: Option<Range<usize>>) -> (int, int) {
    match range {
        Some(r) => (utf16_to_byte_spec(src(v), r.start as int), utf16_to_byte_spec(src(v), r.end as int)),
        None => match v.marked {
            Some((a, b)) => (a as int, b as int),
            None => (v.selection.lo() as int, v.selection.hi() as int),
        },
    }
}

/// The state after an IME composition step: the target is replaced, the
/// composition covers the inserted text, and a UTF-16 selection, if given,
/// is taken in the new source.
pub open spec fn compose_view(v: StateView, range: Option<Range<usize>>, t: Seq<char>, selected: Option<Range<usize>>) -> StateView {
    let (a, b) = marked_target(v, range);
    let v1 = replace_view(v, a, b, t);
    let v2 = StateView { marked: Some((a as usize, (a + enc(t).len()) as usize)), ..v1 };
    match selected {
        Some(r) => StateView {
            selection: norm(src(v2), Selection {
                anchor: Cursor(utf16_to_byte_spec(src(v2), r.start as int) as usize),
                head: Cursor(utf16_to_byte_spec(src(v2), r.end as int) as usize),
            }),
            ..v2
        },
        None => v2,
    }
}

proof fn lemma_match_bytes(s: Seq<char>, k: int, q: Seq<char>)
    requires
        match_at(s, k, q),
    ensures
        byte_at(s, k) + enc(q).len() == byte_at(s, k + q.len()),
        k + q.len() <= s.len(),
{
    assert(s.skip(k).take(q.len() as int) == q);
    assert(s.take(k) + q =~= s.take(k + q.len()));
    lemma_enc_concat(s.take(k), q);
}

impl EditorState {
    /// The non-overlapping matches of the find query, as byte spans.
    pub fn find_results(&self) -> (r: Vec<FindResult>)
        ensures
            r@.map_values(|f: FindResult| fview(f)) == find_spans(src(self@), self@.find_query, 0),
    {
        let source = self.document.source();
        let query = self.find_query.as_str();
        let mut out: Vec<FindResult> = Vec::new();
        let cs = chars_of(source);
        let qc = chars_of(query);
        let ghost s = cs@;
        let ghost q = qc@;
        if qc.len() == 0 {
            proof {
                assert(out@.map_values(|f: FindResult| fview(f)) =~= Seq::<(int, int)>::empty());
            }
            return out;
        }
        let offs = char_offsets(source, &cs);
        let qb = query.as_bytes().len();
        let n = cs.len();
        let mut i: usize = 0;
        proof {
            assert(out@.map_values(|f: FindResult| fview(f)) + find_spans(s, q, 0) =~= find_spans(s, q, 0));
        }
        loop
            invariant_except_break
                out@.map_values(|f: FindResult| fview(f)) + find_spans(s, q, i as int) == find_spans(s, q, 0),
            invariant
                i <= cs@.len(),
                n == cs@.len(),
                s == cs@,
                q == qc@,
                q.len() > 0,
                qb == enc(q).len(),
                offs@.len() == cs@.len() + 1,
                forall|j: int| 0 <= j <= cs@.len() ==> #[trigger] offs@[j] == byte_at(cs@, j),
            ensures
                out@.map_values(|f: FindResult| fview(f)) == find_spans(s, q, 0),
            decreases cs@.len() - i,
        {
            let ghost before = out@;
            match find_next(&cs, i, &qc) {
                Some(k) => {
                    proof {
                        lemma_find_after(s, i as int, q);
                        lemma_match_bytes(s, k as int, q);
                        assert(k + qc@.len() <= cs@.len());
                        assert(offs@[k + qc@.len()] == byte_at(cs@, k + qc@.len()));
                    }
                    let f = FindResult { span: Span::new(offs[k], offs[k] + qb) };
                    out.push(f);
                    let e = k + qc.len();
                    proof {
                        assert(out@.map_values(|f: FindResult| fview(f)) =~= before.map_values(|f: FindResult| fview(f)).push(fview(f)));
                    }
                    if e >= cs.len() {
                        proof {
                            assert(out@.map_values(|f: FindResult| fview(f)) =~= find_spans(s, q, 0));
                        }
                        break;
                    }
                    proof {
                        assert(out@.map_values(|f: FindResult| fview(f)) + find_spans(s, q, e as int) =~= before.map_values(|f: FindResult| fview(f)) + find_spans(s, q, i as int));
                    }
                    i = e;
                },
                None => {
                    proof {
                        assert(out@.map_values(|f: FindResult| fview(f)) =~= find_spans(s, q, 0));
                    }
                    break;
                },
            }
        }
        out
    }

    /// The source as lines with their byte spans and a syntax token each.
    pub fn projection(&self) -> (r: Vec<ProjectedLine>)
        ensures
            r@.map_values(|l: ProjectedLine| plview(l)) == projection_spec(src(self@)),
    {
        let source = self.document.source();
        let cs = chars_of(source);
        let offs = char_offsets(source, &cs);
        let n = cs.len();
        let lines = lines_exec(&cs, 0, n);
        let ghost ls = md_lines(cs@, 0, n as int);
        let ghost want = projection_spec(cs@);
        proof {
            crate::markdown::parse::lemma_lines_ok(cs@, lines@, 0);
        }
        let hash = chars_of("#");
        let comment = chars_of("<!--");
        let fence = chars_of("```");
        proof {
            reveal_strlit("#");
            reveal_strlit("<!--");
            reveal_strlit("```");
            assert(hash@ =~= seq!['#']);
            assert(comment@ =~= seq!['<', '!', '-', '-']);
            assert(fence@ =~= seq!['`', '`', '`']);
        }
        let mut out: Vec<ProjectedLine> = Vec::new();
        let mut k: usize = 0;
        while k < lines.len()
            invariant
                k <= lines@.len(),
                cs@ == src(self@),
                want == projection_spec(cs@),
                crate::markdown::block::line_views(lines@) == ls,
                ls == md_lines(cs@, 0, n as int),
                n == cs@.len(),
                crate::markdown::parse::lines_ok(cs@, lines@, 0),
                offs@.len() == cs@.len() + 1,
                forall|j: int| 0 <= j <= cs@.len() ==> #[trigger] offs@[j] == byte_at(cs@, j),
                hash@ == seq!['#'],
                comment@ == seq!['<', '!', '-', '-'],
                fence@ == seq!['`', '`', '`'],
                out@.len() == k,
                forall|j: int| 0 <= j < k ==> plview(#[trigger] out@[j]) == want[j],
            decreases lines@.len() - k,
        {
            let (a, b) = lines[k];
            proof {
                assert(crate::markdown::block::line_views(lines@)[k as int] == (a as int, b as int));
                assert(ls[k as int] == (a as int, b as int));
            }
            let text = string_of(&cs, a, b);
            let span = Span::new(offs[a], offs[b]);
            let w = skip_ws_exec(&cs, a, b);
            let kind = if region_starts_with(&cs, w, b, &hash) {
                SyntaxKind::Heading
            } else if region_starts_with(&cs, w, b, &comment) {
                SyntaxKind::Comment
            } else if region_starts_with(&cs, w, b, &fence) {
                SyntaxKind::Code
            } else {
                SyntaxKind::Plain
            };
            proof {
                let t = cs@.subrange(a as int, b as int);
                lemma_skip_ws_shift(cs@, a as int, b as int);
                assert(cs@.subrange(w as int, b as int) =~= t.skip(skip_ws(t, 0, t.len() as int)));
            }
            let mut tokens: Vec<Token> = Vec::new();
            tokens.push(Token { span, kind });
            let line = ProjectedLine { number: k + 1, span, text, tokens };
            proof {
                assert(line.tokens@ =~= seq![Token { span, kind }]);
                assert(plview(line) == want[k as int]);
            }
            out.push(line);
            k = k + 1;
        }
        proof {
            assert(out@.map_values(|l: ProjectedLine| plview(l)) =~= want);
        }
        out
    }

    /// Replaces the IME target (a UTF-16 range, else the composition, else
    /// the selection) by `text`, marks the inserted text as the composition
    /// and, when given, selects a UTF-16 range of the new source.
    pub fn replace_marked_text(&mut self, range: Option<Range<usize>>, text: &str, selected: Option<Range<usize>>)
        requires
            replace_ok(old(self)@, marked_target(old(self)@, range).0, marked_target(old(self)@, range).1, text@),
        ensures
            final(self)@ == compose_view(old(self)@, range, text@, selected),
    {
        let (a, b) = match range {
            Some(r) => (utf16_to_byte(self.document.source(), r.start), utf16_to_byte(self.document.source(), r.end)),
            None => match &self.marked {
                Some(m) => (m.start, m.end),
                None => (self.selection.range().start, self.selection.range().end),
            },
        };
        self.replace(a, b, text);
        let end = a + text.as_bytes().len();
        self.marked = Some(a..end);
        match selected {
            Some(r) => {
                let x = utf16_to_byte(self.document.source(), r.start);
                let y = utf16_to_byte(self.document.source(), r.end);
                self.set_selection(Selection { anchor: Cursor(x), head: Cursor(y) });
            },
            None => {},
        }
    }
}

/// [`skip_ws`] on a window of `s` is [`skip_ws`] on `s`, shifted.
proof fn lemma_skip_ws_shift(s: Seq<char>, a: int, b: int)
    requires
        0 <= a <= b <= s.len(),
    ensures
        skip_ws(s, a, b) - a == skip_ws(s.subrange(a, b), 0, b - a),
        a <= skip_ws(s, a, b) <= b,
{
    lemma_skip_ws_shift_from(s, a, b, a);
}

proof fn lemma_skip_ws_shift_from(s: Seq<char>, a: int, b: int, i: int)
    requires
        0 <= a <= i <= b <= s.len(),
    ensures
        skip_ws(s, i, b) - a == skip_ws(s.subrange(a, b), i - a, b - a),
        i <= skip_ws(s, i, b) <= b,
    decreases b - i,
{
    if i < b {
        lemma_skip_ws_shift_from(s, a, b, i + 1);
        assert(s.subrange(a, b)[i - a] == s[i]);
    }
}

// ---------------------------------------------------------------- laws

/// Undoing an edit gives back the source and (normalized) selection before
/// it, keeps the older history, and offers the edited state for redo.
pub proof fn lemma_undo_after_replace(v: StateView, a: int, b: int, t: Seq<char>)
    ensures
        src(undo_view(replace_view(v, a, b, t))) == src(v),
        undo_view(replace_view(v, a, b, t)).selection == norm(src(v), v.selection),
        undo_view(replace_view(v, a, b, t)).history == v.history,
        undo_view(replace_view(v, a, b, t)).redo == seq![(src(replace_view(v, a, b, t)), replace_view(v, a, b, t).selection)],
{
    let w = replace_view(v, a, b, t);
    assert(w.history.last() == (src(v), v.selection));
    assert(w.history.drop_last() =~= v.history);
    assert(Seq::<(Seq<char>, Selection)>::empty().push((src(w), w.selection)) =~= seq![(src(w), w.selection)]);
}

/// Redoing right after an undo gives back the source and (normalized)
/// selection that the undo left, and the history before the undo.
pub proof fn lemma_redo_after_undo(v: StateView)
    requires
        v.history.len() > 0,
    ensures
        src(redo_view(undo_view(v))) == src(v),
        redo_view(undo_view(v)).selection == norm(src(v), v.selection),
        redo_view(undo_view(v)).history == v.history.drop_last().push((v.history.last().0, norm(v.history.last().0, v.history.last().1))),
        redo_view(undo_view(v)).redo == v.redo,
{
    let u = undo_view(v);
    assert(u.redo.last() == (src(v), v.selection));
    assert(u.redo.drop_last() =~= v.redo);
}

} // verus!
