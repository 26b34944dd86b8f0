//! Navigation: bookmarks, random notes, previews, the command palette, the
//! quick switcher and the file explorer listing.
use vstd::prelude::*;
use crate::text::{
    byte_at, char_offsets, chars_of, compare_str, contains_chars, contains_seq, lowercase,
    region_starts_with, starts_with, string_of, text_lt, to_lowercase, lemma_text_lt_order,
};
use super::{
    Document, SortKey, VaultIndex, key_order, lemma_sort_with_map, lemma_sort_with_sorted, lemma_text_not_lt,
    lemma_text_order_weak, ordered_by, sort_items, sort_with, };

verus! {

// ---------------------------------------------------------------- bookmarks

#[derive(Clone, Debug, PartialEq, Eq)]
pub enum BookmarkTarget {
    File(String),
    Heading { path: String, heading: String },
    Block { path: String, id: String },
    Search(String),
    Url(String),
}

#[derive(Debug, PartialEq, Eq)]
pub struct Bookmark {
    pub id: String,
    pub title: String,
    pub target: BookmarkTarget,
    pub children: Vec<Bookmark>,
}

/// A bookmark target with its texts as characters.
pub enum TargetView {
    File(Seq<char>),
    Heading(Seq<char>, Seq<char>),
    Block(Seq<char>, Seq<char>),
    Search(Seq<char>),
    Url(Seq<char>),
}

/// A bookmark tree with its texts as characters.
pub struct BookmarkView {
    pub id: Seq<char>,
    pub title: Seq<char>,
    pub target: TargetView,
    pub children: Seq<BookmarkView>,
}

pub open spec fn tview(t: BookmarkTarget) -> TargetView {
    match t {
        BookmarkTarget::File(p) => TargetView::File(p@),
        BookmarkTarget::Heading { path, heading } => TargetView::Heading(path@, heading@),
        BookmarkTarget::Block { path, id } => TargetView::Block(path@, id@),
        BookmarkTarget::Search(q) => TargetView::Search(q@),
        BookmarkTarget::Url(u) => TargetView::Url(u@),
    }
}

pub open spec fn bview(b: Bookmark) -> BookmarkView
    decreases b,
{
    BookmarkView { id: b.id@, title: b.title@, target: tview(b.target), children: bviews(b.children@) }
}

pub open spec fn bviews(v: Seq<Bookmark>) -> Seq<BookmarkView>
    decreases v,
{
    if v.len() == 0 {
        Seq::empty()
    } else {
        seq![bview(v[0])] + bviews(v.drop_first())
    }
}

proof fn lemma_bviews_push(v: Seq<Bookmark>, x: Bookmark)
    ensures
        bviews(v.push(x)) == bviews(v).push(bview(x)),
    decreases v.len(),
{
    if v.len() == 0 {
        assert(v.push(x).drop_first() =~= Seq::<Bookmark>::empty());
        assert(bviews(v.push(x).drop_first()) =~= Seq::<BookmarkView>::empty());
        assert(v.push(x)[0] == x);
        assert(bviews(v.push(x)) =~= seq![bview(x)]);
        assert(bviews(v) =~= Seq::<BookmarkView>::empty());
    } else {
        assert(v.push(x).drop_first() =~= v.drop_first().push(x));
        lemma_bviews_push(v.drop_first(), x);
        assert(bviews(v.push(x)) =~= bviews(v).push(bview(x)));
    }
}

/// A copy of a bookmark target.
pub fn copy_target(t: &BookmarkTarget) -> (r: BookmarkTarget)
    ensures
        tview(r) == tview(*t),
{
    match t {
        BookmarkTarget::File(p) => BookmarkTarget::File(p.clone()),
        BookmarkTarget::Heading { path, heading } => BookmarkTarget::Heading { path: path.clone(), heading: heading.clone() },
        BookmarkTarget::Block { path, id } => BookmarkTarget::Block { path: path.clone(), id: id.clone() },
        BookmarkTarget::Search(q) => BookmarkTarget::Search(q.clone()),
        BookmarkTarget::Url(u) => BookmarkTarget::Url(u.clone()),
    }
}

/// A deep copy of a bookmark tree.
pub fn copy_bookmark(b: &Bookmark) -> (r: Bookmark)
    ensures
        bview(r) == bview(*b),
    decreases b,
{
    Bookmark { id: b.id.clone(), title: b.title.clone(), target: copy_target(&b.target), children: copy_bookmarks(&b.children) }
}

/// A deep copy of a list of bookmark trees.
pub fn copy_bookmarks(v: &Vec<Bookmark>) -> (r: Vec<Bookmark>)
    ensures
        bviews(r@) == bviews(v@),
    decreases v,
{
    let mut r: Vec<Bookmark> = Vec::new();
    let mut k: usize = 0;
    proof {
        assert(v@.take(0) =~= Seq::<Bookmark>::empty());
        assert(bviews(r@) =~= Seq::<BookmarkView>::empty());
    }
    while k < v.len()
        invariant
            k <= v@.len(),
            bviews(r@) == bviews(v@.take(k as int)),
        decreases v@.len() - k,
    {
        proof {
            assert(decreases_to!(v => v@[k as int]));
        }
        let c = copy_bookmark(&v[k]);
        proof {
            lemma_bviews_push(r@, c);
            lemma_bviews_push(v@.take(k as int), v@[k as int]);
            assert(v@.take(k as int).push(v@[k as int]) =~= v@.take(k + 1));
        }
        r.push(c);
        k = k + 1;
    }
    proof {
        assert(v@.take(v@.len() as int) =~= v@);
    }
    r
}

impl Clone for Bookmark {
    fn clone(&self) -> (r: Self)
        ensures
            bview(r) == bview(*self),
    {
        copy_bookmark(self)
    }
}

// ---------------------------------------------------------------- notes

/// The note at position `seed` (modulo the count) in path order; none in an empty index.
pub fn random_note(index: &VaultIndex, seed: u64) -> (r: Option<&Document>)
    ensures
        index.notes().len() == 0 ==> r is None,
        index.notes().len() > 0 ==> (r matches Some(d) && *d == index.notes()[(seed as usize) as int % index.notes().len() as int]),
{
    let docs = index.documents();
    if docs.len() == 0 {
        None
    } else {
        let i = (seed as usize) % docs.len();
        Some(docs[i])
    }
}

/// The first 300 characters of the note at `path`.
pub fn preview(index: &VaultIndex, path: &str) -> (r: Option<String>)
    ensures
        !index.note_map().contains_key(path@) ==> r is None,
        index.note_map().contains_key(path@) ==> (r matches Some(s) && s@ == ({
            let c = index.note_map()[path@].content@;
            c.take(if c.len() < 300 { c.len() as int } else { 300 })
        })),
{
    match index.get(path) {
        Some(d) => {
            let cs = chars_of(&d.content);
            let e = if cs.len() < 300 { cs.len() } else { 300 };
            proof {
                assert(cs@.subrange(0, e as int) =~= cs@.take(e as int));
            }
            Some(string_of(&cs, 0, e))
        },
        None => None,
    }
}

// ---------------------------------------------------------------- command palette

#[derive(Clone, Debug, PartialEq, Eq)]
pub struct Command {
    pub id: String,
    pub title: String,
    pub usage: u32,
}

/// A command as (id, title, usage).
pub type CommandView = (Seq<char>, Seq<char>, u32);

pub open spec fn cview(c: Command) -> CommandView {
    (c.id@, c.title@, c.usage)
}

/// A candidate command with whether its title starts with the input.
pub type RankView = (bool, CommandView);

/// Title-prefix matches first, then higher usage, then id order.
pub open spec fn rank_before(a: RankView, b: RankView) -> bool {
    (a.0 && !b.0) || (a.0 == b.0 && (a.1.2 > b.1.2 || (a.1.2 == b.1.2 && text_lt(a.1.0, b.1.0))))
}

pub open spec fn rank_order() -> spec_fn(RankView, RankView) -> bool {
    |a: RankView, b: RankView| rank_before(a, b)
}

/// The commands whose title or id contains the lowercased input `q` (ignoring case), in order.
pub open spec fn rank_rows(cmds: Seq<Command>, q: Seq<char>) -> Seq<RankView>
    decreases cmds.len(),
{
    if cmds.len() == 0 {
        Seq::empty()
    } else {
        let rest = rank_rows(cmds.drop_last(), q);
        let c = cmds.last();
        if contains_seq(lowercase(c.title@), q) || contains_seq(lowercase(c.id@), q) {
            rest.push((starts_with(lowercase(c.title@), q), cview(c)))
        } else {
            rest
        }
    }
}

struct Ranked {
    first: bool,
    command: Command,
}

spec fn rkview(r: Ranked) -> RankView {
    (r.first, cview(r.command))
}

impl SortKey for Ranked {
    closed spec fn spec_before(a: Self, b: Self) -> bool {
        rank_before(rkview(a), rkview(b))
    }

    fn before(&self, other: &Self) -> (r: bool) {
        (self.first && !other.first) || (self.first == other.first && (self.command.usage > other.command.usage
            || (self.command.usage == other.command.usage && compare_str(&self.command.id, &other.command.id) == -1)))
    }
}

/// A copy of a command.
pub fn copy_command(c: &Command) -> (r: Command)
    ensures
        cview(r) == cview(*c),
{
    Command { id: c.id.clone(), title: c.title.clone(), usage: c.usage }
}

/// The commands whose title or id contains the input (ignoring case):
/// those whose title starts with it first, then by usage (descending),
/// then by id.
pub fn rank_commands(commands: &[Command], input: &str) -> (r: Vec<Command>)
    ensures
        r@.map_values(|c: Command| cview(c)) == sort_with(rank_rows(commands@, lowercase(input@)), rank_order()).map_values(|x: RankView| x.1),
{
    let q = to_lowercase(input);
    let qc = chars_of(&q);
    let mut xs: Vec<Ranked> = Vec::new();
    let mut k: usize = 0;
    proof {
        assert(commands@.take(0) =~= Seq::<Command>::empty());
        assert(xs@.map_values(|x: Ranked| rkview(x)) =~= Seq::<RankView>::empty());
    }
    while k < commands.len()
        invariant
            k <= commands@.len(),
            qc@ == lowercase(input@),
            xs@.map_values(|x: Ranked| rkview(x)) == rank_rows(commands@.take(k as int), qc@),
        decreases commands@.len() - k,
    {
        let c = &commands[k];
        proof {
            assert(commands@.take(k + 1).drop_last() =~= commands@.take(k as int));
            assert(commands@.take(k + 1).last() == *c);
        }
        let lt = chars_of(&to_lowercase(&c.title));
        let li = chars_of(&to_lowercase(&c.id));
        if contains_chars(&lt, &qc) || contains_chars(&li, &qc) {
            let first = region_starts_with(&lt, 0, lt.len(), &qc);
            proof {
                assert(lt@.subrange(0, lt@.len() as int) =~= lt@);
            }
            let ghost before = xs@;
            let x = Ranked { first, command: copy_command(c) };
            xs.push(x);
            proof {
                assert(xs@.map_values(|x: Ranked| rkview(x)) =~= before.map_values(|x: Ranked| rkview(x)).push(rkview(x)));
            }
        }
        k = k + 1;
    }
    proof {
        assert(commands@.take(k as int) =~= commands@);
        lemma_sort_with_map(xs@, key_order::<Ranked>(), |x: Ranked| rkview(x), rank_order());
    }
    let sorted = sort_items(xs);
    let ghost sv = sorted@.map_values(|x: Ranked| rkview(x));
    let mut out: Vec<Command> = Vec::new();
    let mut j: usize = 0;
    while j < sorted.len()
        invariant
            j <= sorted@.len(),
            sv == sorted@.map_values(|x: Ranked| rkview(x)),
            out@.len() == j,
            forall|i: int| 0 <= i < j ==> cview(#[trigger] out@[i]) == sv[i].1,
        decreases sorted@.len() - j,
    {
        out.push(copy_command(&sorted[j].command));
        j = j + 1;
    }
    proof {
        assert(out@.map_values(|c: Command| cview(c)) =~= sv.map_values(|x: RankView| x.1));
    }
    out
}

// ---------------------------------------------------------------- quick switcher

/// The first index from `i` at which `c` occurs in `s`.
pub open spec fn char_from(s: Seq<char>, i: int, c: char) -> Option<int>
    decreases s.len() - i,
{
    if i < 0 || i >= s.len() {
        None
    } else if s[i] == c {
        Some(i)
    } else {
        char_from(s, i + 1, c)
    }
}

/// The score for a match at byte `pos`: 100 less the position (as a `u32`), at least 0.
pub open spec fn place_score(pos: int) -> int {
    let p = pos % 0x1_0000_0000;
    if p < 100 { 100 - p } else { 0 }
}

/// Matches each character of `li[t..]` in order in `lc` from character
/// `cj`, scoring each match by its byte position and 25 more when it directly
/// follows the previous one; whether all were found, and the score reached.
pub open spec fn fuzzy_run(lc: Seq<char>, li: Seq<char>, t: int, cj: int, prev: Option<int>, score: int) -> (bool, int)
    decreases li.len() - t,
{
    if t < 0 || t >= li.len() {
        (true, score)
    } else {
        match char_from(lc, cj, li[t]) {
            None => (false, score),
            Some(j) => {
                let pos = byte_at(lc, j);
                let s1 = score + place_score(pos);
                let s2 = if prev == Some(if pos >= 1 { pos - 1 } else { 0 }) { s1 + 25 } else { s1 };
                fuzzy_run(lc, li, t + 1, j + 1, Some(pos), s2)
            },
        }
    }
}

/// The outcome of scoring `input` against `candidate`, both lowercased.
pub open spec fn fuzzy_outcome(candidate: Seq<char>, input: Seq<char>) -> (bool, int) {
    if input.len() == 0 {
        (true, 0)
    } else {
        fuzzy_run(lowercase(candidate), lowercase(input), 0, 0, None, 0)
    }
}

/// Whether the score stays within a `u32` while it is computed.
pub open spec fn fuzzy_fits(candidate: Seq<char>, input: Seq<char>) -> bool {
    fuzzy_outcome(candidate, input).1 <= u32::MAX
}

/// The score of `candidate` for `input`: `None` unless every character of
/// the input occurs, in order, in the candidate.
pub open spec fn fuzzy_spec(candidate: Seq<char>, input: Seq<char>) -> Option<u32> {
    if fuzzy_outcome(candidate, input).0 {
        Some(fuzzy_outcome(candidate, input).1 as u32)
    } else {
        None
    }
}

proof fn lemma_char_from(s: Seq<char>, i: int, c: char)
    requires
        0 <= i,
    ensures
        char_from(s, i, c) matches Some(j) ==> i <= j < s.len() && s[j] == c && forall|k: int| i <= k < j ==> s[k] != c,
        char_from(s, i, c) is None ==> forall|k: int| i <= k < s.len() ==> s[k] != c,
    decreases s.len() - i,
{
    if i < s.len() && s[i] != c {
        lemma_char_from(s, i + 1, c);
    }
}

proof fn lemma_fuzzy_grows(lc: Seq<char>, li: Seq<char>, t: int, cj: int, prev: Option<int>, score: int)
    ensures
        fuzzy_run(lc, li, t, cj, prev, score).1 >= score,
    decreases li.len() - t,
{
    if 0 <= t < li.len() {
        if let Some(j) = char_from(lc, cj, li[t]) {
            let pos = byte_at(lc, j);
            let s1 = score + place_score(pos);
            let s2 = if prev == Some(if pos >= 1 { pos - 1 } else { 0 }) { s1 + 25 } else { s1 };
            lemma_fuzzy_grows(lc, li, t + 1, j + 1, Some(pos), s2);
        }
    }
}

spec fn opt_pos(o: Option<usize>) -> Option<int> {
    match o {
        Some(p) => Some(p as int),
        None => None,
    }
}

/// The fuzzy score, or `None` where it would overflow a `u32`.
fn fuzzy_core(candidate: &str, input: &str) -> (r: Option<Option<u32>>)
    ensures
        r is Some <==> fuzzy_fits(candidate@, input@),
        r matches Some(x) ==> x == fuzzy_spec(candidate@, input@),
{
    let ic = chars_of(input);
    if ic.len() == 0 {
        return Some(Some(0));
    }
    let low = to_lowercase(candidate);
    let lc = chars_of(&low);
    let offs = char_offsets(&low, &lc);
    let li = chars_of(&to_lowercase(input));
    let ghost goal = fuzzy_run(lc@, li@, 0, 0, None, 0);
    let mut cj: usize = 0;
    let mut score: u64 = 0;
    let mut prev: Option<usize> = None;
    let mut t: usize = 0;
    while t < li.len()
        invariant
            t <= li@.len(),
            cj <= lc@.len(),
            offs@.len() == lc@.len() + 1,
            forall|i: int| 0 <= i <= lc@.len() ==> #[trigger] offs@[i] == byte_at(lc@, i),
            lc@ == lowercase(candidate@),
            li@ == lowercase(input@),
            input@.len() > 0,
            goal == fuzzy_run(lc@, li@, 0, 0, None, 0),
            score <= u32::MAX,
            fuzzy_run(lc@, li@, t as int, cj as int, opt_pos(prev), score as int) == goal,
        decreases li@.len() - t,
    {
        let w = li[t];
        let mut j = cj;
        while j < lc.len() && lc[j] != w
            invariant
                cj <= j <= lc@.len(),
                forall|k: int| cj <= k < j ==> lc@[k] != w,
            decreases lc@.len() - j,
        {
            j = j + 1;
        }
        proof {
            lemma_char_from(lc@, cj as int, w);
        }
        if j == lc.len() {
            proof {
                if let Some(x) = char_from(lc@, cj as int, w) {
                    assert(lc@[x] != w);
                }
            }
            return Some(None);
        }
        proof {
            if let Some(x) = char_from(lc@, cj as int, w) {
                if x < j {
                    assert(lc@[x] != w);
                }
            }
            assert(char_from(lc@, cj as int, w) == Some(j as int));
        }
        let pos = offs[j];
        let p32 = (pos as u64) % 0x1_0000_0000;
        let add: u64 = if p32 < 100 { 100 - p32 } else { 0 };
        let mut next = score + add;
        let bonus = match prev {
            Some(p) => p == (if pos >= 1 { pos - 1 } else { 0 }),
            None => false,
        };
        if bonus {
            next = next + 25;
        }
        proof {
            lemma_fuzzy_grows(lc@, li@, t + 1, j + 1, Some(pos as int), next as int);
        }
        if next > 0xffff_ffff {
            return None;
        }
        score = next;
        prev = Some(pos);
        cj = j + 1;
        t = t + 1;
    }
    Some(Some(score as u32))
}

/// A case-insensitive subsequence score, higher for earlier and adjacent
/// matches; `None` unless every character of the input occurs, in order.
pub fn fuzzy_score(candidate: &str, input: &str) -> (r: Option<u32>)
    requires
        fuzzy_fits(candidate@, input@),
    ensures
        r == fuzzy_spec(candidate@, input@),
{
    match fuzzy_core(candidate, input) {
        Some(x) => x,
        None => None,
    }
}

/// [`fuzzy_score`], or `None` where the score would overflow a `u32`.
pub fn try_fuzzy_score(candidate: &str, input: &str) -> (r: Option<Option<u32>>)
    ensures
        r is Some <==> fuzzy_fits(candidate@, input@),
        r matches Some(x) ==> x == fuzzy_spec(candidate@, input@),
{
    match fuzzy_core(candidate, input) {
        Some(_) => Some(fuzzy_score(candidate, input)),
        None => None,
    }
}

/// A switcher entry as (path, score).
pub type SwitchView = (Seq<char>, u32);

pub open spec fn sview(x: (String, u32)) -> SwitchView {
    (x.0@, x.1)
}

/// Higher scores first, then path order.
pub open spec fn switch_before(a: SwitchView, b: SwitchView) -> bool {
    a.1 > b.1 || (a.1 == b.1 && text_lt(a.0, b.0))
}

pub open spec fn switch_order() -> spec_fn(SwitchView, SwitchView) -> bool {
    |a: SwitchView, b: SwitchView| switch_before(a, b)
}

impl SortKey for (String, u32) {
    open spec fn spec_before(a: Self, b: Self) -> bool {
        switch_before(sview(a), sview(b))
    }

    fn before(&self, other: &Self) -> (r: bool) {
        self.1 > other.1 || (self.1 == other.1 && compare_str(&self.0, &other.0) == -1)
    }
}

/// The paths that the input matches, with their scores, in order.
pub open spec fn switch_rows(paths: Seq<String>, input: Seq<char>) -> Seq<SwitchView>
    decreases paths.len(),
{
    if paths.len() == 0 {
        Seq::empty()
    } else {
        let rest = switch_rows(paths.drop_last(), input);
        match fuzzy_spec(paths.last()@, input) {
            Some(s) => rest.push((paths.last()@, s)),
            None => rest,
        }
    }
}

/// The paths that the input matches, best score first, then by path.
pub fn quick_switch(paths: &[String], input: &str) -> (r: Vec<(String, u32)>)
    requires
        forall|i: int| 0 <= i < paths@.len() ==> fuzzy_fits(#[trigger] paths@[i]@, input@),
    ensures
        r@.map_values(|x: (String, u32)| sview(x)) == sort_with(switch_rows(paths@, input@), switch_order()),
{
    let mut xs: Vec<(String, u32)> = Vec::new();
    let mut k: usize = 0;
    proof {
        assert(paths@.take(0) =~= Seq::<String>::empty());
        assert(xs@.map_values(|x: (String, u32)| sview(x)) =~= Seq::<SwitchView>::empty());
    }
    while k < paths.len()
        invariant
            k <= paths@.len(),
            forall|i: int| 0 <= i < paths@.len() ==> fuzzy_fits(#[trigger] paths@[i]@, input@),
            xs@.map_values(|x: (String, u32)| sview(x)) == switch_rows(paths@.take(k as int), input@),
        decreases paths@.len() - k,
    {
        let p = &paths[k];
        proof {
            assert(paths@.take(k + 1).drop_last() =~= paths@.take(k as int));
            assert(paths@.take(k + 1).last() == *p);
        }
        match fuzzy_score(p, input) {
            Some(s) => {
                let ghost before = xs@;
                let x = (p.clone(), s);
                xs.push(x);
                proof {
                    assert(xs@.map_values(|x: (String, u32)| sview(x)) =~= before.map_values(|x: (String, u32)| sview(x)).push(sview(x)));
                }
            },
            None => {},
        }
        k = k + 1;
    }
    proof {
        assert(paths@.take(k as int) =~= paths@);
        lemma_sort_with_map(xs@, key_order::<(String, u32)>(), |x: (String, u32)| sview(x), switch_order());
    }
    sort_items(xs)
}

/// [`quick_switch`], or `None` where some path's score would overflow a `u32`.
pub fn try_quick_switch(paths: &[String], input: &str) -> (r: Option<Vec<(String, u32)>>)
    ensures
        r is Some <==> forall|i: int| 0 <= i < paths@.len() ==> fuzzy_fits(#[trigger] paths@[i]@, input@),
        r matches Some(v) ==> v@.map_values(|x: (String, u32)| sview(x)) == sort_with(switch_rows(paths@, input@), switch_order()),
{
    let mut k: usize = 0;
    while k < paths.len()
        invariant
            k <= paths@.len(),
            forall|i: int| 0 <= i < k ==> fuzzy_fits(#[trigger] paths@[i]@, input@),
        decreases paths@.len() - k,
    {
        if fuzzy_core(&paths[k], input).is_none() {
            return None;
        }
        k = k + 1;
    }
    Some(quick_switch(paths, input))
}

// ---------------------------------------------------------------- explorer

#[derive(Clone, Debug, PartialEq, Eq)]
pub enum Sort {
    Name,
    Modified,
}

impl SortKey for String {
    open spec fn spec_before(a: Self, b: Self) -> bool {
        text_lt(a@, b@)
    }

    fn before(&self, other: &Self) -> (r: bool) {
        compare_str(self, other) == -1
    }
}

pub open spec fn text_order() -> spec_fn(Seq<char>, Seq<char>) -> bool {
    |a: Seq<char>, b: Seq<char>| text_lt(a, b)
}

/// The paths of `notes` that start with `prefix`, in order.
pub open spec fn explore_rows(notes: Seq<Document>, prefix: Seq<char>) -> Seq<Seq<char>>
    decreases notes.len(),
{
    if notes.len() == 0 {
        Seq::empty()
    } else {
        let rest = explore_rows(notes.drop_last(), prefix);
        if starts_with(notes.last().path@, prefix) {
            rest.push(notes.last().path@)
        } else {
            rest
        }
    }
}

/// The paths under `prefix`, in byte order (for either sort).
pub fn explore(index: &VaultIndex, prefix: &str, sort: Sort) -> (r: Vec<String>)
    ensures
        r@.map_values(|s: String| s@) == sort_with(explore_rows(index.notes(), prefix@), text_order()),
{
    let docs = index.documents();
    let ghost notes = index.notes();
    let pc = chars_of(prefix);
    let mut xs: Vec<String> = Vec::new();
    let mut k: usize = 0;
    proof {
        assert(notes.take(0) =~= Seq::<Document>::empty());
        assert(xs@.map_values(|s: String| s@) =~= Seq::<Seq<char>>::empty());
    }
    while k < docs.len()
        invariant
            k <= docs@.len() == notes.len(),
            notes == index.notes(),
            forall|j: int| 0 <= j < docs@.len() ==> *#[trigger] docs@[j] == notes[j],
            pc@ == prefix@,
            xs@.map_values(|s: String| s@) == explore_rows(notes.take(k as int), prefix@),
        decreases docs@.len() - k,
    {
        let d = docs[k];
        proof {
            assert(notes.take(k + 1).drop_last() =~= notes.take(k as int));
            assert(notes.take(k + 1).last() == *d);
        }
        let cs = chars_of(&d.path);
        proof {
            assert(cs@.subrange(0, cs@.len() as int) =~= cs@);
        }
        if region_starts_with(&cs, 0, cs.len(), &pc) {
            let ghost before = xs@;
            let p = d.path.clone();
            xs.push(p);
            proof {
                assert(xs@.map_values(|s: String| s@) =~= before.map_values(|s: String| s@).push(p@));
            }
        }
        k = k + 1;
    }
    proof {
        assert(notes.take(k as int) =~= notes);
        lemma_sort_with_map(xs@, key_order::<String>(), |s: String| s@, text_order());
    }
    match sort {
        Sort::Name => sort_items(xs),
        Sort::Modified => sort_items(xs),
    }
}


// ---------------------------------------------------------------- laws

/// Ranked commands put title-prefix matches first, then higher usage, then
/// id order, and are exactly the commands that match.
pub proof fn lemma_commands_ranked(cmds: Seq<Command>, q: Seq<char>)
    ensures
        ordered_by(sort_with(rank_rows(cmds, q), rank_order()), rank_order()),
        sort_with(rank_rows(cmds, q), rank_order()).to_multiset() == rank_rows(cmds, q).to_multiset(),
{
    assert forall|a: RankView, b: RankView| #[trigger] rank_order()(a, b) implies !rank_order()(b, a) by {
        lemma_text_lt_order(a.1.0, b.1.0, a.1.0);
    }
    assert forall|a: RankView, b: RankView, c: RankView| #![trigger rank_order()(a, b), rank_order()(b, c)]
        !rank_order()(a, b) && !rank_order()(b, c) implies !rank_order()(a, c) by {
        lemma_text_not_lt(a.1.0, b.1.0, c.1.0);
    }
    lemma_sort_with_sorted(rank_rows(cmds, q), rank_order());
}

/// Quick-switch entries come by descending score, then by path, and are
/// exactly the paths the input matches.
pub proof fn lemma_switch_ranked(paths: Seq<String>, input: Seq<char>)
    ensures
        ordered_by(sort_with(switch_rows(paths, input), switch_order()), switch_order()),
        sort_with(switch_rows(paths, input), switch_order()).to_multiset() == switch_rows(paths, input).to_multiset(),
{
    assert forall|a: SwitchView, b: SwitchView| #[trigger] switch_order()(a, b) implies !switch_order()(b, a) by {
        lemma_text_lt_order(a.0, b.0, a.0);
    }
    assert forall|a: SwitchView, b: SwitchView, c: SwitchView| #![trigger switch_order()(a, b), switch_order()(b, c)]
        !switch_order()(a, b) && !switch_order()(b, c) implies !switch_order()(a, c) by {
        lemma_text_not_lt(a.0, b.0, c.0);
    }
    lemma_sort_with_sorted(switch_rows(paths, input), switch_order());
}

/// The explorer lists paths in byte order, exactly those under the prefix.
pub proof fn lemma_explore_ordered(notes: Seq<Document>, prefix: Seq<char>)
    ensures
        ordered_by(sort_with(explore_rows(notes, prefix), text_order()), text_order()),
        sort_with(explore_rows(notes, prefix), text_order()).to_multiset() == explore_rows(notes, prefix).to_multiset(),
{
    lemma_text_order_weak();
    assert(text_order() == |a: Seq<char>, b: Seq<char>| text_lt(a, b));
    lemma_sort_with_sorted(explore_rows(notes, prefix), text_order());
}

} // verus!
