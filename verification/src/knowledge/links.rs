//! Wiki links between notes: outgoing links, backlinks and unlinked mentions.
use vstd::prelude::*;
use crate::text::{
    contains_chars, next_line, text_lines, lemma_text_lines_len, chars_of, compare_str, contains_seq, ends_with, find_after, find_next, index_of,
    index_of_in, lemma_find_after, lemma_skip_ws, lemma_skip_ws_stop, lowercase, next_ws,
    next_ws_exec, region_ends_with, region_starts_with, skip_ws, skip_ws_exec, starts_with, str_eq,
    string_of, string_from_chars, sub_chars, text_lt, to_lowercase, lemma_text_lt_order,
};
use super::{
    Document, SortKey, VaultIndex, key_order, lemma_sort_with_map, lemma_sort_with_sorted, lemma_text_not_lt,
    ordered_by, sort_items, sort_with, };
use super::query::{file_name_part, file_part};

verus! {

#[derive(Clone, Debug, PartialEq, Eq)]
pub struct Link {
    pub source: String,
    pub target: String,
    pub alias: Option<String>,
    pub resolved: bool,
}

/// A link as (source, target, alias, resolved).
pub type LinkView = (Seq<char>, Seq<char>, Option<Seq<char>>, bool);

pub open spec fn opt_text(o: Option<String>) -> Option<Seq<char>> {
    match o {
        Some(s) => Some(s@),
        None => None,
    }
}

pub open spec fn lview(l: Link) -> LinkView {
    (l.source@, l.target@, opt_text(l.alias), l.resolved)
}

pub open spec fn lviews(v: Seq<Link>) -> Seq<LinkView> {
    v.map_values(|l: Link| lview(l))
}

/// Links are ordered by target.
pub open spec fn link_order() -> spec_fn(LinkView, LinkView) -> bool {
    |a: LinkView, b: LinkView| text_lt(a.1, b.1)
}

impl SortKey for Link {
    open spec fn spec_before(a: Self, b: Self) -> bool {
        text_lt(a.target@, b.target@)
    }

    fn before(&self, other: &Self) -> (r: bool) {
        compare_str(&self.target, &other.target) == -1
    }
}

/// A copy of a link.
pub fn copy_link(l: &Link) -> (r: Link)
    ensures
        lview(r) == lview(*l),
{
    let alias = match &l.alias {
        Some(a) => Some(a.clone()),
        None => None,
    };
    Link { source: l.source.clone(), target: l.target.clone(), alias, resolved: l.resolved }
}

// ---------------------------------------------------------------- words

/// The whitespace-separated words of `s` from index `i`, as `split_whitespace` yields them.
pub open spec fn words_from(s: Seq<char>, i: int) -> Seq<Seq<char>>
    decreases s.len() - i,
{
    if i < 0 || i >= s.len() {
        Seq::empty()
    } else {
        let a = skip_ws(s, i, s.len() as int);
        if a >= s.len() {
            Seq::empty()
        } else {
            let b = next_ws(s, a, s.len() as int);
            proof {
                lemma_skip_ws(s, i, s.len() as int);
                lemma_skip_ws_stop(s, i, s.len() as int);
                lemma_skip_ws_stop(s, a, s.len() as int);
                lemma_skip_ws(s, a, s.len() as int);
            }
            seq![s.subrange(a, b)] + words_from(s, b)
        }
    }
}

/// The next word of `cs` from index `i`, as a range.
pub fn next_word(cs: &Vec<char>, i: usize) -> (r: Option<(usize, usize)>)
    requires
        i <= cs@.len(),
    ensures
        r is None ==> words_from(cs@, i as int) == Seq::<Seq<char>>::empty(),
        r matches Some((a, b)) ==> i <= a < b <= cs@.len()
            && words_from(cs@, i as int) == seq![cs@.subrange(a as int, b as int)] + words_from(cs@, b as int),
{
    let n = cs.len();
    if i == n {
        return None;
    }
    let a = skip_ws_exec(cs, i, n);
    if a == n {
        return None;
    }
    let b = next_ws_exec(cs, a, n);
    proof {
        lemma_skip_ws_stop(cs@, i as int, n as int);
        lemma_skip_ws_stop(cs@, a as int, n as int);
    }
    Some((a, b))
}

// ---------------------------------------------------------------- link words

/// The characters trimmed from both ends of a link word.
pub open spec fn is_trim_char(c: char) -> bool {
    c == '[' || c == ' ' || c == ']' || c == ',' || c == '.' || c == '!' || c == '?'
}

/// The first index in `a..b` whose character is not trimmed, or `b`.
pub open spec fn trim_lead(s: Seq<char>, a: int, b: int) -> int
    decreases b - a,
{
    if a < b && is_trim_char(s[a]) {
        trim_lead(s, a + 1, b)
    } else {
        a
    }
}

/// The end of `a..b` once trailing trimmed characters are removed.
pub open spec fn trim_tail(s: Seq<char>, a: int, b: int) -> int
    decreases b - a,
{
    if a < b && is_trim_char(s[b - 1]) {
        trim_tail(s, a, b - 1)
    } else {
        b
    }
}

/// `w` without the brackets and punctuation around it.
pub open spec fn trim_link(w: Seq<char>) -> Seq<char> {
    let a = trim_lead(w, 0, w.len() as int);
    w.subrange(a, trim_tail(w, a, w.len() as int))
}

/// The text before the first `|`.
pub open spec fn before_bar(t: Seq<char>) -> Seq<char> {
    match index_of(t, '|') {
        Some(k) => t.take(k),
        None => t,
    }
}

/// The note a link word points at.
pub open spec fn link_target(w: Seq<char>) -> Seq<char> {
    before_bar(trim_link(w))
}

/// `t` without trailing `]]`.
pub open spec fn strip_closers(t: Seq<char>) -> Seq<char>
    decreases t.len(),
{
    if t.len() >= 2 && t[t.len() - 2] == ']' && t[t.len() - 1] == ']' {
        strip_closers(t.take(t.len() - 2))
    } else {
        t
    }
}

/// The alias of a link word: its second `|`-separated part, without trailing `]]`.
pub open spec fn link_alias(w: Seq<char>) -> Option<Seq<char>> {
    match index_of(w, '|') {
        Some(k) => Some(strip_closers(before_bar(w.skip(k + 1)))),
        None => None,
    }
}

/// The name of a note file: its last path part without `.md`.
pub open spec fn stem(p: Seq<char>) -> Seq<char> {
    let f = file_part(p);
    if ends_with(f, seq!['.', 'm', 'd']) {
        f.take(f.len() - 3)
    } else {
        f
    }
}

/// Whether a link target names a note, by path or by file name.
pub open spec fn is_resolved(index: VaultIndex, t: Seq<char>) -> bool {
    index.note_map().contains_key(t) || exists|i: int| 0 <= i < index.notes().len() && stem(#[trigger] index.notes()[i].path@) == t
}

/// The link of each word of `ws` that opens with `[[`, in order.
pub open spec fn link_rows(index: VaultIndex, source: Seq<char>, ws: Seq<Seq<char>>) -> Seq<LinkView>
    decreases ws.len(),
{
    if ws.len() == 0 {
        Seq::empty()
    } else {
        let rest = link_rows(index, source, ws.drop_last());
        let w = ws.last();
        if starts_with(w, seq!['[', '[']) {
            rest.push((source, link_target(w), link_alias(w), is_resolved(index, link_target(w))))
        } else {
            rest
        }
    }
}

/// The links of the note at `source`, ordered by target; none when there is no such note.
pub open spec fn links_spec(index: VaultIndex, source: Seq<char>) -> Seq<LinkView> {
    if index.note_map().contains_key(source) {
        sort_with(link_rows(index, source, words_from(index.note_map()[source].content@, 0)), link_order())
    } else {
        Seq::empty()
    }
}

fn trim_link_range(cs: &Vec<char>, a: usize, b: usize) -> (r: (usize, usize))
    requires
        a <= b <= cs@.len(),
    ensures
        a <= r.0 <= r.1 <= b,
        cs@.subrange(r.0 as int, r.1 as int) == trim_link(cs@.subrange(a as int, b as int)),
{
    let ghost w = cs@.subrange(a as int, b as int);
    let mut x = a;
    while x < b && (cs[x] == '[' || cs[x] == ' ' || cs[x] == ']' || cs[x] == ',' || cs[x] == '.' || cs[x] == '!' || cs[x] == '?')
        invariant
            a <= x <= b <= cs@.len(),
            w == cs@.subrange(a as int, b as int),
            trim_lead(w, x - a, w.len() as int) == trim_lead(w, 0, w.len() as int),
        decreases b - x,
    {
        x = x + 1;
    }
    let mut y = b;
    while y > x && (cs[y - 1] == '[' || cs[y - 1] == ' ' || cs[y - 1] == ']' || cs[y - 1] == ',' || cs[y - 1] == '.'
        || cs[y - 1] == '!' || cs[y - 1] == '?')
        invariant
            a <= x <= y <= b <= cs@.len(),
            w == cs@.subrange(a as int, b as int),
            trim_lead(w, 0, w.len() as int) == x - a,
            trim_tail(w, x - a, y - a) == trim_tail(w, x - a, w.len() as int),
        decreases y,
    {
        y = y - 1;
    }
    proof {
        assert(cs@.subrange(x as int, y as int) =~= w.subrange(x - a, y - a));
    }
    (x, y)
}

/// The text of `cs[a..b]` before its first `|`.
fn before_bar_exec(cs: &Vec<char>, a: usize, b: usize) -> (r: String)
    requires
        a <= b <= cs@.len(),
    ensures
        r@ == before_bar(cs@.subrange(a as int, b as int)),
{
    match index_of_in(cs, a, b, '|') {
        Some(k) => {
            proof {
                assert(cs@.subrange(a as int, k as int) =~= cs@.subrange(a as int, b as int).take(k - a));
            }
            string_of(cs, a, k)
        },
        None => string_of(cs, a, b),
    }
}

/// The alias of the link word `cs[a..b]`.
fn alias_exec(cs: &Vec<char>, a: usize, b: usize) -> (r: Option<String>)
    requires
        a <= b <= cs@.len(),
    ensures
        opt_text(r) == link_alias(cs@.subrange(a as int, b as int)),
{
    let ghost w = cs@.subrange(a as int, b as int);
    match index_of_in(cs, a, b, '|') {
        Some(k) => {
            let e = match index_of_in(cs, k + 1, b, '|') {
                Some(j) => j,
                None => b,
            };
            proof {
                assert(cs@.subrange(k + 1, b as int) =~= w.skip(k - a + 1));
                assert(cs@.subrange(k + 1, e as int) == before_bar(w.skip(k - a + 1))) by {
                    if e < b {
                        assert(cs@.subrange(k + 1, e as int) =~= w.skip(k - a + 1).take(e - k - 1));
                    }
                }
            }
            let mut y = e;
            while y - k >= 3 && cs[y - 1] == ']' && cs[y - 2] == ']'
                invariant
                    k + 1 <= y <= e <= b <= cs@.len(),
                    strip_closers(cs@.subrange(k + 1, y as int)) == strip_closers(cs@.subrange(k + 1, e as int)),
                decreases y,
            {
                proof {
                    assert(cs@.subrange(k + 1, y as int).take(y - k - 3) =~= cs@.subrange(k + 1, y - 2));
                }
                y = y - 2;
            }
            proof {
                let t = cs@.subrange(k + 1, y as int);
                if y - (k + 1) >= 2 {
                    assert(t[t.len() - 2] == cs@[y - 2]);
                    assert(t[t.len() - 1] == cs@[y - 1]);
                }
            }
            Some(string_of(cs, k + 1, y))
        },
        None => None,
    }
}

/// The name of a note file: its last path part without `.md`.
pub fn file_stem(p: &str) -> (r: String)
    ensures
        r@ == stem(p@),
{
    let f = file_name_part(p);
    let fc = chars_of(&f);
    let n = fc.len();
    let md = chars_of(".md");
    proof {
        reveal_strlit(".md");
        assert(md@ =~= seq!['.', 'm', 'd']);
        assert(fc@.subrange(0, n as int) =~= fc@);
    }
    if region_ends_with(&fc, 0, n, &md) {
        proof {
            assert(fc@.subrange(0, n - 3) =~= fc@.take(n - 3));
        }
        string_of(&fc, 0, n - 3)
    } else {
        f
    }
}

/// Whether a link target names a note, by path or by file name.
fn resolved_exec(index: &VaultIndex, t: &str) -> (r: bool)
    ensures
        r == is_resolved(*index, t@),
{
    if index.get(t).is_some() {
        return true;
    }
    let docs = index.documents();
    let mut k: usize = 0;
    while k < docs.len()
        invariant
            k <= docs@.len(),
            docs@.len() == index.notes().len(),
            forall|j: int| 0 <= j < docs@.len() ==> *#[trigger] docs@[j] == index.notes()[j],
            forall|j: int| 0 <= j < k ==> stem(#[trigger] index.notes()[j].path@) != t@,
        decreases docs@.len() - k,
    {
        let s = file_stem(&docs[k].path);
        if str_eq(&s, t) {
            proof {
                assert(stem(index.notes()[k as int].path@) == t@);
            }
            return true;
        }
        k = k + 1;
    }
    false
}

/// The path of the first of `notes` from `i` on whose file name is `t`.
pub open spec fn stem_match_from(notes: Seq<Document>, i: int, t: Seq<char>) -> Option<Seq<char>>
    decreases notes.len() - i,
{
    if i < 0 || i >= notes.len() {
        None
    } else if stem(notes[i].path@) == t {
        Some(notes[i].path@)
    } else {
        stem_match_from(notes, i + 1, t)
    }
}

/// The note a link target names: the note at that path, else the first note
/// (in path order) whose file name is the target.
pub open spec fn resolve_spec(index: VaultIndex, t: Seq<char>) -> Option<Seq<char>> {
    if index.note_map().contains_key(t) {
        Some(t)
    } else {
        stem_match_from(index.notes(), 0, t)
    }
}

/// The note a link target names, or the target itself when it names none.
pub open spec fn resolved_or(index: VaultIndex, t: Seq<char>) -> Seq<char> {
    match resolve_spec(index, t) {
        Some(p) => p,
        None => t,
    }
}

proof fn lemma_stem_match_from(notes: Seq<Document>, i: int, t: Seq<char>)
    requires
        0 <= i <= notes.len(),
    ensures
        stem_match_from(notes, i, t) is Some <==> exists|j: int| i <= j < notes.len() && stem(#[trigger] notes[j].path@) == t,
    decreases notes.len() - i,
{
    if i < notes.len() {
        lemma_stem_match_from(notes, i + 1, t);
        if stem(notes[i].path@) != t {
            assert forall|j: int| i <= j < notes.len() && stem(#[trigger] notes[j].path@) == t implies i + 1 <= j by {}
        }
    }
}

/// A link target is resolved exactly when it names a note.
pub proof fn lemma_resolved_iff_named(index: VaultIndex, t: Seq<char>)
    ensures
        is_resolved(index, t) <==> resolve_spec(index, t) is Some,
{
    lemma_stem_match_from(index.notes(), 0, t);
}

proof fn lemma_stem_match_found(notes: Seq<Document>, i: int, t: Seq<char>)
    requires
        stem_match_from(notes, i, t) is Some,
    ensures
        exists|j: int| i <= j < notes.len() && notes[j].path@ == stem_match_from(notes, i, t)->0 && stem(#[trigger] notes[j].path@) == t,
    decreases notes.len() - i,
{
    if stem(notes[i].path@) != t {
        lemma_stem_match_found(notes, i + 1, t);
    }
}

/// Links, graph edges and backlinks resolve a target alike: a resolved target
/// leads to the note at that path, else to a note whose file name it is, and
/// a link to it counts as pointing at that note.
pub proof fn lemma_resolution_shared(index: VaultIndex, t: Seq<char>)
    requires
        is_resolved(index, t),
    ensures
        resolve_spec(index, t) == Some(resolved_or(index, t)),
        index.note_map().contains_key(t) ==> resolved_or(index, t) == t,
        !index.note_map().contains_key(t) ==> exists|i: int| 0 <= i < index.notes().len()
            && index.notes()[i].path@ == resolved_or(index, t) && stem(#[trigger] index.notes()[i].path@) == t,
        points_at(index, t, resolved_or(index, t)),
{
    lemma_resolved_iff_named(index, t);
    if !index.note_map().contains_key(t) {
        lemma_stem_match_found(index.notes(), 0, t);
    }
}

/// The note a link target names: the note at that path, else the first note
/// (in path order) whose file name is the target.
pub fn resolve_target(index: &VaultIndex, t: &str) -> (r: Option<String>)
    ensures
        opt_text(r) == resolve_spec(*index, t@),
{
    if index.get(t).is_some() {
        return Some(t.to_owned());
    }
    let docs = index.documents();
    let ghost notes = index.notes();
    let mut k: usize = 0;
    while k < docs.len()
        invariant
            k <= docs@.len() == notes.len(),
            notes == index.notes(),
            forall|j: int| 0 <= j < docs@.len() ==> *#[trigger] docs@[j] == notes[j],
            stem_match_from(notes, 0, t@) == stem_match_from(notes, k as int, t@),
            !index.note_map().contains_key(t@),
        decreases docs@.len() - k,
    {
        let s = file_stem(&docs[k].path);
        if str_eq(&s, t) {
            let p = docs[k].path.clone();
            proof {
                assert(stem(notes[k as int].path@) == t@);
                assert(stem_match_from(notes, k as int, t@) == Some(notes[k as int].path@));
                assert(p@ == notes[k as int].path@);
            }
            return Some(p);
        }
        k = k + 1;
    }
    None
}

/// The wiki links of the note at `source` (words that open with `[[`),
/// ordered by target; none when there is no such note.
pub fn links(index: &VaultIndex, source: &str) -> (r: Vec<Link>)
    ensures
        lviews(r@) == links_spec(*index, source@),
{
    let mut out: Vec<Link> = Vec::new();
    let d = match index.get(source) {
        Some(d) => d,
        None => {
            proof {
                assert(lviews(out@) =~= Seq::<LinkView>::empty());
            }
            return out;
        },
    };
    let cs = chars_of(&d.content);
    let n = cs.len();
    let open = chars_of("[[");
    proof {
        reveal_strlit("[[");
        assert(open@ =~= seq!['[', '[']);
    }
    let ghost all = words_from(cs@, 0);
    let ghost mut seen: Seq<Seq<char>> = Seq::empty();
    let mut i: usize = 0;
    proof {
        assert(seen + words_from(cs@, 0) =~= all);
        assert(lviews(out@) =~= Seq::<LinkView>::empty());
    }
    loop
        invariant
            i <= n == cs@.len(),
            cs@ == d.content@,
            open@ == seq!['[', '['],
            seen + words_from(cs@, i as int) == all,
            lviews(out@) == link_rows(*index, source@, seen),
        ensures
            seen == all,
            lviews(out@) == link_rows(*index, source@, seen),
        decreases n - i,
    {
        match next_word(&cs, i) {
            None => {
                proof {
                    assert(seen =~= all);
                }
                break;
            },
            Some((a, b)) => {
                let ghost w = cs@.subrange(a as int, b as int);
                let ghost before = out@;
                if region_starts_with(&cs, a, b, &open) {
                    let (x, y) = trim_link_range(&cs, a, b);
                    let target = before_bar_exec(&cs, x, y);
                    let alias = alias_exec(&cs, a, b);
                    let resolved = resolved_exec(index, &target);
                    let l = Link { source: source.to_owned(), target, alias, resolved };
                    out.push(l);
                    proof {
                        assert(lviews(out@) =~= lviews(before).push(lview(l)));
                    }
                }
                proof {
                    assert(seen.push(w).drop_last() =~= seen);
                    assert(seen.push(w) + words_from(cs@, b as int) =~= seen + words_from(cs@, i as int));
                    seen = seen.push(w);
                }
                i = b;
            },
        }
    }
    proof {
        lemma_sort_with_map(out@, key_order::<Link>(), |l: Link| lview(l), link_order());
    }
    sort_items(out)
}

// ---------------------------------------------------------------- backlinks

/// `t` without trailing `.md`.
pub open spec fn trim_md(t: Seq<char>) -> Seq<char>
    decreases t.len(),
{
    if ends_with(t, seq!['.', 'm', 'd']) {
        trim_md(t.take(t.len() - 3))
    } else {
        t
    }
}

/// Whether a link target points at the note `target`: it is `target`, or
/// `target` without `.md`, or it names the note at `target`.
pub open spec fn points_at(index: VaultIndex, t: Seq<char>, target: Seq<char>) -> bool {
    t == target || t == trim_md(target) || resolve_spec(index, t) == Some(target)
}

/// The links of `ls` that point at `target`.
pub open spec fn keep_target(index: VaultIndex, ls: Seq<LinkView>, target: Seq<char>) -> Seq<LinkView>
    decreases ls.len(),
{
    if ls.len() == 0 {
        Seq::empty()
    } else {
        let rest = keep_target(index, ls.drop_last(), target);
        if points_at(index, ls.last().1, target) {
            rest.push(ls.last())
        } else {
            rest
        }
    }
}

/// The links to `target` from each of `notes`, note by note.
pub open spec fn backlinks_from(index: VaultIndex, notes: Seq<Document>, target: Seq<char>) -> Seq<LinkView>
    decreases notes.len(),
{
    if notes.len() == 0 {
        Seq::empty()
    } else {
        backlinks_from(index, notes.drop_last(), target) + keep_target(index, links_spec(index, notes.last().path@), target)
    }
}

/// The end of `cs[..b]` without trailing `.md`.
fn trim_md_end(cs: &Vec<char>, b: usize) -> (r: usize)
    requires
        b <= cs@.len(),
    ensures
        r <= b,
        cs@.take(r as int) == trim_md(cs@.take(b as int)),
{
    let md = chars_of(".md");
    proof {
        reveal_strlit(".md");
        assert(md@ =~= seq!['.', 'm', 'd']);
    }
    let mut y = b;
    while region_ends_with(cs, 0, y, &md)
        invariant
            y <= b <= cs@.len(),
            md@ == seq!['.', 'm', 'd'],
            trim_md(cs@.take(y as int)) == trim_md(cs@.take(b as int)),
        decreases y,
    {
        proof {
            assert(cs@.subrange(0, y as int) =~= cs@.take(y as int));
            assert(cs@.take(y as int).take(y - 3) =~= cs@.take(y - 3));
        }
        y = y - 3;
    }
    proof {
        assert(cs@.subrange(0, y as int) =~= cs@.take(y as int));
    }
    y
}

/// The links, from every note, that point at `target`: whose target is
/// `target`, `target` without `.md`, or a name that resolves to `target`.
pub fn backlinks(index: &VaultIndex, target: &str) -> (r: Vec<Link>)
    ensures
        lviews(r@) == backlinks_from(*index, index.notes(), target@),
{
    let tc = chars_of(target);
    let e = trim_md_end(&tc, tc.len());
    let short = string_of(&tc, 0, e);
    proof {
        assert(tc@.take(tc@.len() as int) =~= target@);
        assert(tc@.subrange(0, e as int) =~= tc@.take(e as int));
    }
    let docs = index.documents();
    let ghost notes = index.notes();
    let mut out: Vec<Link> = Vec::new();
    let mut k: usize = 0;
    proof {
        assert(notes.take(0) =~= Seq::<Document>::empty());
        assert(lviews(out@) =~= Seq::<LinkView>::empty());
    }
    while k < docs.len()
        invariant
            k <= docs@.len() == notes.len(),
            notes == index.notes(),
            forall|j: int| 0 <= j < docs@.len() ==> *#[trigger] docs@[j] == notes[j],
            short@ == trim_md(target@),
            lviews(out@) == backlinks_from(*index, notes.take(k as int), target@),
        decreases docs@.len() - k,
    {
        let ls = links(index, &docs[k].path);
        let ghost base = lviews(out@);
        let ghost lsv = lviews(ls@);
        let mut j: usize = 0;
        proof {
            assert(lsv.take(0) =~= Seq::<LinkView>::empty());
            assert(base + keep_target(*index, lsv.take(0), target@) =~= base);
        }
        while j < ls.len()
            invariant
                j <= ls@.len(),
                lsv == lviews(ls@),
                short@ == trim_md(target@),
                lviews(out@) == base + keep_target(*index, lsv.take(j as int), target@),
            decreases ls@.len() - j,
        {
            let l = &ls[j];
            let ghost before = out@;
            proof {
                assert(lsv.take(j + 1).drop_last() =~= lsv.take(j as int));
                assert(lsv.take(j + 1).last() == lview(*l));
            }
            let named = resolve_target(index, &l.target);
            let hit = str_eq(&l.target, target) || str_eq(&l.target, &short) || match &named {
                Some(p) => str_eq(p, target),
                None => false,
            };
            if hit {
                let c = copy_link(l);
                out.push(c);
                proof {
                    assert(lviews(out@) =~= lviews(before).push(lview(c)));
                }
            }
            j = j + 1;
        }
        proof {
            assert(lsv.take(j as int) =~= lsv);
            assert(notes.take(k + 1).drop_last() =~= notes.take(k as int));
            assert(notes.take(k + 1).last() == notes[k as int]);
        }
        k = k + 1;
    }
    proof {
        assert(notes.take(k as int) =~= notes);
    }
    out
}

// ---------------------------------------------------------------- unlinked mentions

/// Whether one of the `[[`-separated parts of `s` from `i` contains `needle`.
pub open spec fn parts_contain(s: Seq<char>, i: int, needle: Seq<char>) -> bool
    decreases s.len() - i,
{
    if i < 0 || i > s.len() {
        false
    } else {
        match find_after(s, i, seq!['[', '[']) {
            Some(k) => {
                proof {
                    lemma_find_after(s, i, seq!['[', '[']);
                }
                contains_seq(s.subrange(i, k), needle) || parts_contain(s, k + 2, needle)
            },
            None => contains_seq(s.skip(i), needle),
        }
    }
}

/// Whether a part of `line` after some `[[` contains `needle`.
pub open spec fn linked_mention(line: Seq<char>, needle: Seq<char>) -> bool {
    match find_after(line, 0, seq!['[', '[']) {
        Some(k) => parts_contain(line, k + 2, needle),
        None => false,
    }
}

/// Whether `line` mentions `needle` (ignoring case) other than inside a link.
pub open spec fn mentions(line: Seq<char>, needle: Seq<char>) -> bool {
    contains_seq(lowercase(line), needle) && !linked_mention(lowercase(line), needle)
}

/// A mention as (note path, line number).
pub type MentionView = (Seq<char>, usize);

/// The mentions among `lines`, numbered from 0.
pub open spec fn mentions_in(path: Seq<char>, lines: Seq<Seq<char>>, needle: Seq<char>) -> Seq<MentionView>
    decreases lines.len(),
{
    if lines.len() == 0 {
        Seq::empty()
    } else {
        let rest = mentions_in(path, lines.drop_last(), needle);
        if mentions(lines.last(), needle) {
            rest.push((path, (lines.len() - 1) as usize))
        } else {
            rest
        }
    }
}

/// The mentions in each of `notes`, note by note.
pub open spec fn mentions_from(notes: Seq<Document>, needle: Seq<char>) -> Seq<MentionView>
    decreases notes.len(),
{
    if notes.len() == 0 {
        Seq::empty()
    } else {
        mentions_from(notes.drop_last(), needle) + mentions_in(notes.last().path@, text_lines(notes.last().content@, 0), needle)
    }
}

pub open spec fn mention_before(a: MentionView, b: MentionView) -> bool {
    text_lt(a.0, b.0) || (a.0 == b.0 && a.1 < b.1)
}

pub open spec fn mention_order() -> spec_fn(MentionView, MentionView) -> bool {
    |a: MentionView, b: MentionView| mention_before(a, b)
}

pub open spec fn mview(m: (String, usize)) -> MentionView {
    (m.0@, m.1)
}

impl SortKey for (String, usize) {
    open spec fn spec_before(a: Self, b: Self) -> bool {
        mention_before(mview(a), mview(b))
    }

    fn before(&self, other: &Self) -> (r: bool) {
        let c = compare_str(&self.0, &other.0);
        c == -1 || (c == 0 && self.1 < other.1)
    }
}

/// Whether a part of `cs` after some `[[` contains `needle`.
fn linked_mention_exec(cs: &Vec<char>, open: &Vec<char>, needle: &Vec<char>) -> (r: bool)
    requires
        open@ == seq!['[', '['],
    ensures
        r == linked_mention(cs@, needle@),
{
    let n = cs.len();
    let mut i = match find_next(cs, 0, open) {
        Some(k) => {
            proof {
                lemma_find_after(cs@, 0, open@);
            }
            k + 2
        },
        None => return false,
    };
    loop
        invariant
            i <= n == cs@.len(),
            open@ == seq!['[', '['],
            parts_contain(cs@, i as int, needle@) == linked_mention(cs@, needle@),
        decreases n - i,
    {
        match find_next(cs, i, open) {
            Some(k) => {
                proof {
                    lemma_find_after(cs@, i as int, open@);
                }
                let part = sub_chars(cs, i, k);
                if contains_chars(&part, needle) {
                    return true;
                }
                i = k + 2;
            },
            None => {
                let part = sub_chars(cs, i, n);
                proof {
                    assert(cs@.subrange(i as int, n as int) =~= cs@.skip(i as int));
                }
                return contains_chars(&part, needle);
            },
        }
    }
}

/// The lines (numbered from 0) of every note that mention `target` (without
/// `.md`, ignoring case) outside a wiki link, ordered by path and line.
pub fn unlinked_mentions(index: &VaultIndex, target: &str) -> (r: Vec<(String, usize)>)
    ensures
        r@.map_values(|m: (String, usize)| mview(m)) == sort_with(
            mentions_from(index.notes(), lowercase(trim_md(target@))), mention_order()),
{
    let tc = chars_of(target);
    let e = trim_md_end(&tc, tc.len());
    let short = string_of(&tc, 0, e);
    proof {
        assert(tc@.take(tc@.len() as int) =~= target@);
        assert(tc@.subrange(0, e as int) =~= tc@.take(e as int));
    }
    let needle = to_lowercase(&short);
    let nc = chars_of(&needle);
    let open = chars_of("[[");
    let nl = chars_of("\n");
    proof {
        reveal_strlit("[[");
        reveal_strlit("\n");
        assert(open@ =~= seq!['[', '[']);
        assert(nl@ =~= seq!['\n']);
    }
    let docs = index.documents();
    let ghost notes = index.notes();
    let ghost nv = nc@;
    let mut out: Vec<(String, usize)> = Vec::new();
    let mut k: usize = 0;
    proof {
        assert(notes.take(0) =~= Seq::<Document>::empty());
        assert(out@.map_values(|m: (String, usize)| mview(m)) =~= Seq::<MentionView>::empty());
    }
    while k < docs.len()
        invariant
            k <= docs@.len() == notes.len(),
            notes == index.notes(),
            forall|j: int| 0 <= j < docs@.len() ==> *#[trigger] docs@[j] == notes[j],
            nv == nc@,
            nv == lowercase(trim_md(target@)),
            open@ == seq!['[', '['],
            nl@ == seq!['\n'],
            out@.map_values(|m: (String, usize)| mview(m)) == mentions_from(notes.take(k as int), nv),
        decreases docs@.len() - k,
    {
        let d = docs[k];
        let cs = chars_of(&d.content);
        let n = cs.len();
        let ghost all = text_lines(cs@, 0);
        let ghost base = out@.map_values(|m: (String, usize)| mview(m));
        let ghost mut seen: Seq<Seq<char>> = Seq::empty();
        let mut p: usize = 0;
        let mut line: usize = 0;
        proof {
            lemma_text_lines_len(cs@, 0);
            assert(notes[k as int] == *d);
            assert(seen + text_lines(cs@, 0) =~= all);
            assert(base + mentions_in(d.path@, seen, nv) =~= base);
        }
        loop
            invariant
                p <= n == cs@.len(),
                cs@ == d.content@,
                all == text_lines(cs@, 0),
                all.len() <= usize::MAX,
                line == seen.len(),
                seen + text_lines(cs@, p as int) == all,
                nv == nc@,
                open@ == seq!['[', '['],
                nl@ == seq!['\n'],
                out@.map_values(|m: (String, usize)| mview(m)) == base + mentions_in(d.path@, seen, nv),
            ensures
                seen == all,
                out@.map_values(|m: (String, usize)| mview(m)) == base + mentions_in(d.path@, seen, nv),
            decreases n - p,
        {
            match next_line(&cs, &nl, p) {
                None => {
                    proof {
                        assert(seen =~= all);
                    }
                    break;
                },
                Some((t, e)) => {
                    let ghost lt = cs@.subrange(p as int, t as int);
                    let text = sub_chars(&cs, p, t);
                    let ts = string_from_chars(&text);
                    let low = to_lowercase(&ts);
                    let lowc = chars_of(&low);
                    let ghost before = out@;
                    proof {
                        assert(seen.push(lt) + text_lines(cs@, e as int) =~= seen + text_lines(cs@, p as int));
                        assert((seen + text_lines(cs@, p as int)).len() == all.len());
                        assert(seen.push(lt).drop_last() =~= seen);
                    }
                    if contains_chars(&lowc, &nc) && !linked_mention_exec(&lowc, &open, &nc) {
                        out.push((d.path.clone(), line));
                        proof {
                            assert(out@.map_values(|m: (String, usize)| mview(m)) =~= before.map_values(|m: (String, usize)| mview(m)).push((d.path@, line)));
                        }
                    }
                    proof {
                        seen = seen.push(lt);
                    }
                    line = line + 1;
                    p = e;
                },
            }
        }
        proof {
            assert(notes.take(k + 1).drop_last() =~= notes.take(k as int));
            assert(notes.take(k + 1).last() == notes[k as int]);
        }
        k = k + 1;
    }
    proof {
        assert(notes.take(k as int) =~= notes);
        lemma_sort_with_map(out@, key_order::<(String, usize)>(), |m: (String, usize)| mview(m), mention_order());
    }
    sort_items(out)
}


// ---------------------------------------------------------------- laws

/// A note's links come ordered by target, and are exactly the links of its `[[` words.
pub proof fn lemma_links_ordered(index: VaultIndex, source: Seq<char>)
    ensures
        ordered_by(links_spec(index, source), link_order()),
        index.note_map().contains_key(source) ==> links_spec(index, source).to_multiset()
            == link_rows(index, source, words_from(index.note_map()[source].content@, 0)).to_multiset(),
{
    assert forall|a: LinkView, b: LinkView| #[trigger] link_order()(a, b) implies !link_order()(b, a) by {
        lemma_text_lt_order(a.1, b.1, a.1);
    }
    assert forall|a: LinkView, b: LinkView, c: LinkView| #![trigger link_order()(a, b), link_order()(b, c)]
        !link_order()(a, b) && !link_order()(b, c) implies !link_order()(a, c) by {
        lemma_text_not_lt(a.1, b.1, c.1);
    }
    if index.note_map().contains_key(source) {
        lemma_sort_with_sorted(link_rows(index, source, words_from(index.note_map()[source].content@, 0)), link_order());
    }
}

/// Unlinked mentions come ordered by path, then by line, and are exactly the mentions found.
pub proof fn lemma_mentions_ordered(notes: Seq<Document>, needle: Seq<char>)
    ensures
        ordered_by(sort_with(mentions_from(notes, needle), mention_order()), mention_order()),
        sort_with(mentions_from(notes, needle), mention_order()).to_multiset() == mentions_from(notes, needle).to_multiset(),
{
    assert forall|a: MentionView, b: MentionView| #[trigger] mention_order()(a, b) implies !mention_order()(b, a) by {
        lemma_text_lt_order(a.0, b.0, a.0);
    }
    assert forall|a: MentionView, b: MentionView, c: MentionView| #![trigger mention_order()(a, b), mention_order()(b, c)]
        !mention_order()(a, b) && !mention_order()(b, c) implies !mention_order()(a, c) by {
        lemma_text_not_lt(a.0, b.0, c.0);
        lemma_text_lt_order(a.0, b.0, c.0);
        lemma_text_lt_order(b.0, c.0, a.0);
        lemma_text_lt_order(a.0, c.0, b.0);
    }
    lemma_sort_with_sorted(mentions_from(notes, needle), mention_order());
}

} // verus!
