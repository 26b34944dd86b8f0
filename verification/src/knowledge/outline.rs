//! A note's heading outline, and tag and property tallies over the index.
use vstd::prelude::*;
use crate::text::{
    chars_of, lemma_text_lines_len, next_line, run_end, run_end_exec, text_lines, trim_ws, trimmed,
};
use crate::textmap::TextMap;
use super::{Document, VaultIndex, tag_texts};
use super::query::{trim_hash_prefix, trim_hashes};

verus! {

#[derive(Clone, Debug, PartialEq, Eq)]
pub struct Heading {
    pub level: u8,
    pub text: String,
    pub line: usize,
}

/// A heading as (level, text, line).
pub type HeadingView = (u8, Seq<char>, usize);

pub open spec fn hview(h: Heading) -> HeadingView {
    (h.level, h.text@, h.line)
}

/// The heading a line holds: its run of `#`, then a space, then the trimmed text.
pub open spec fn heading_of(s: Seq<char>) -> Option<(int, Seq<char>)> {
    let n = run_end(s, s.len() as int, '#', 0);
    if n > 0 && n < s.len() && s[n] == ' ' {
        Some((n, trim_ws(s.skip(n + 1))))
    } else {
        None
    }
}

/// The headings among `lines`, numbered from 0; the level is the count of
/// `#` taken modulo 256.
pub open spec fn headings_in(lines: Seq<Seq<char>>) -> Seq<HeadingView>
    decreases lines.len(),
{
    if lines.len() == 0 {
        Seq::empty()
    } else {
        let rest = headings_in(lines.drop_last());
        match heading_of(lines.last()) {
            Some((n, t)) => rest.push(((n % 256) as u8, t, (lines.len() - 1) as usize)),
            None => rest,
        }
    }
}

/// The headings of `content`: lines that open with `#`s and a space.
pub fn outline(content: &str) -> (r: Vec<Heading>)
    ensures
        r@.map_values(|h: Heading| hview(h)) == headings_in(text_lines(content@, 0)),
{
    let cs = chars_of(content);
    let n = cs.len();
    let nl = chars_of("\n");
    proof {
        reveal_strlit("\n");
        assert(nl@ =~= seq!['\n']);
        lemma_text_lines_len(cs@, 0);
    }
    let ghost all = text_lines(cs@, 0);
    let ghost mut seen: Seq<Seq<char>> = Seq::empty();
    let mut out: Vec<Heading> = Vec::new();
    let mut p: usize = 0;
    let mut line: usize = 0;
    proof {
        assert(seen + text_lines(cs@, 0) =~= all);
        assert(out@.map_values(|h: Heading| hview(h)) =~= Seq::<HeadingView>::empty());
    }
    loop
        invariant
            p <= n == cs@.len(),
            cs@ == content@,
            all == text_lines(cs@, 0),
            all.len() <= n,
            line == seen.len(),
            nl@ == seq!['\n'],
            seen + text_lines(cs@, p as int) == all,
            out@.map_values(|h: Heading| hview(h)) == headings_in(seen),
        ensures
            seen == all,
            out@.map_values(|h: Heading| hview(h)) == headings_in(seen),
        decreases n - p,
    {
        match next_line(&cs, &nl, p) {
            None => {
                proof {
                    assert(seen =~= all);
                }
                break;
            },
            Some((t, e)) => {
                let ghost lt = cs@.subrange(p as int, t as int);
                let ghost before = out@;
                let h = run_end_exec(&cs, t, '#', p);
                proof {
                    assert(seen.push(lt) + text_lines(cs@, e as int) =~= seen + text_lines(cs@, p as int));
                    assert((seen + text_lines(cs@, p as int)).len() == all.len());
                    assert(seen.push(lt).drop_last() =~= seen);
                    lemma_run_end_shift(cs@, p as int, t as int);
                }
                if h > p && h < t && cs[h] == ' ' {
                    let text = trimmed(&cs, h + 1, t);
                    let level = ((h - p) % 256) as u8;
                    let hd = Heading { level, text, line };
                    out.push(hd);
                    proof {
                        assert(cs@.subrange(h + 1, t as int) =~= lt.skip(h - p + 1));
                        assert(out@.map_values(|h: Heading| hview(h)) =~= before.map_values(|h: Heading| hview(h)).push(hview(hd)));
                    }
                }
                proof {
                    seen = seen.push(lt);
                }
                line = line + 1;
                p = e;
            },
        }
    }
    out
}

/// [`run_end`] on a window of `s` is [`run_end`] on `s`, shifted.
proof fn lemma_run_end_shift(s: Seq<char>, p: int, t: int)
    requires
        0 <= p <= t <= s.len(),
    ensures
        run_end(s, t, '#', p) - p == run_end(s.subrange(p, t), t - p, '#', 0),
{
    lemma_run_end_shift_from(s, p, t, p);
}

proof fn lemma_run_end_shift_from(s: Seq<char>, p: int, t: int, i: int)
    requires
        0 <= p <= i <= t <= s.len(),
    ensures
        run_end(s, t, '#', i) - p == run_end(s.subrange(p, t), t - p, '#', i - p),
    decreases t - i,
{
    if i < t {
        lemma_run_end_shift_from(s, p, t, i + 1);
        assert(s.subrange(p, t)[i - p] == s[i]);
    }
}

// ---------------------------------------------------------------- tallies

/// How often each text occurs in `ks`.
pub open spec fn tally(ks: Seq<Seq<char>>) -> Map<Seq<char>, int>
    decreases ks.len(),
{
    if ks.len() == 0 {
        Map::empty()
    } else {
        let m = tally(ks.drop_last());
        let k = ks.last();
        m.insert(k, if m.contains_key(k) { m[k] + 1 } else { 1 })
    }
}

pub proof fn lemma_tally_bound(ks: Seq<Seq<char>>, k: Seq<char>)
    ensures
        tally(ks).contains_key(k) ==> 1 <= tally(ks)[k] <= ks.len(),
    decreases ks.len(),
{
    if ks.len() > 0 {
        lemma_tally_bound(ks.drop_last(), k);
    }
}

/// The tags of every note, each without its leading `#`, note by note.
pub open spec fn tag_keys(notes: Seq<Document>) -> Seq<Seq<char>>
    decreases notes.len(),
{
    if notes.len() == 0 {
        Seq::empty()
    } else {
        tag_keys(notes.drop_last()) + tag_texts(notes.last()).map_values(|t: Seq<char>| trim_hashes(t))
    }
}

/// The property names of every note, each note's in name order.
pub open spec fn property_keys(notes: Seq<Document>) -> Seq<Seq<char>>
    decreases notes.len(),
{
    if notes.len() == 0 {
        Seq::empty()
    } else {
        property_keys(notes.drop_last()) + notes.last().properties.pairs().map_values(|p: (Seq<char>, String)| p.0)
    }
}

pub open spec fn counts_of(m: TextMap<usize>) -> Map<Seq<char>, int> {
    m.map().map_values(|v: usize| v as int)
}

/// Adds one to the count of `k`.
fn bump(m: &mut TextMap<usize>, k: String, Ghost(ks): Ghost<Seq<Seq<char>>>)
    requires
        counts_of(*old(m)) == tally(ks),
        ks.len() < usize::MAX,
    ensures
        counts_of(*final(m)) == tally(ks.push(k@)),
{
    proof {
        lemma_tally_bound(ks, k@);
        assert(ks.push(k@).drop_last() =~= ks);
    }
    let c: usize = match m.get(&k) {
        Some(c) => *c,
        None => 0,
    };
    m.insert(k, c + 1);
    proof {
        assert(counts_of(*m) =~= tally(ks.push(k@)));
    }
}

/// How many notes carry each tag, counting a tag with and without its leading `#` alike.
pub fn tag_counts(index: &VaultIndex) -> (r: TextMap<usize>)
    requires
        tag_keys(index.notes()).len() < usize::MAX,
    ensures
        counts_of(r) == tally(tag_keys(index.notes())),
{
    let docs = index.documents();
    let ghost notes = index.notes();
    let ghost total = tag_keys(notes).len();
    let mut m: TextMap<usize> = TextMap::new();
    let ghost mut ks: Seq<Seq<char>> = Seq::empty();
    let mut k: usize = 0;
    proof {
        assert(counts_of(m) =~= tally(ks));
        assert(notes.take(0) =~= Seq::<Document>::empty());
    }
    while k < docs.len()
        invariant
            k <= docs@.len() == notes.len(),
            notes == index.notes(),
            forall|j: int| 0 <= j < docs@.len() ==> *#[trigger] docs@[j] == notes[j],
            ks == tag_keys(notes.take(k as int)),
            total == tag_keys(notes).len(),
            total < usize::MAX,
            counts_of(m) == tally(ks),
        decreases docs@.len() - k,
    {
        let d = docs[k];
        let ghost base = ks;
        let ghost tv = tag_texts(*d).map_values(|t: Seq<char>| trim_hashes(t));
        proof {
            lemma_tag_keys_prefix(notes, k + 1);
            assert(notes.take(k + 1).drop_last() =~= notes.take(k as int));
            assert(notes.take(k + 1).last() == *d);
        }
        let mut j: usize = 0;
        proof {
            assert(base + tv.take(0) =~= base);
        }
        while j < d.tags.len()
            invariant
                j <= d.tags@.len() == tv.len(),
                tv == tag_texts(*d).map_values(|t: Seq<char>| trim_hashes(t)),
                ks == base + tv.take(j as int),
                (base + tv).len() <= total,
                total < usize::MAX,
                counts_of(m) == tally(ks),
            decreases d.tags@.len() - j,
        {
            let key = trim_hash_prefix(&d.tags[j]);
            proof {
                assert(tv[j as int] == trim_hashes(d.tags@[j as int]@));
            }
            bump(&mut m, key, Ghost(ks));
            proof {
                assert(base + tv.take(j + 1) =~= ks.push(key@));
                ks = ks.push(key@);
            }
            j = j + 1;
        }
        proof {
            assert(tv.take(j as int) =~= tv);
        }
        k = k + 1;
    }
    proof {
        assert(notes.take(k as int) =~= notes);
    }
    m
}

proof fn lemma_tag_keys_prefix(notes: Seq<Document>, k: int)
    requires
        0 <= k <= notes.len(),
    ensures
        tag_keys(notes.take(k)).len() <= tag_keys(notes).len(),
    decreases notes.len(),
{
    if k < notes.len() {
        assert(notes.drop_last().take(k) =~= notes.take(k));
        lemma_tag_keys_prefix(notes.drop_last(), k);
    } else {
        assert(notes.take(k) =~= notes);
    }
}

proof fn lemma_property_keys_prefix(notes: Seq<Document>, k: int)
    requires
        0 <= k <= notes.len(),
    ensures
        property_keys(notes.take(k)).len() <= property_keys(notes).len(),
    decreases notes.len(),
{
    if k < notes.len() {
        assert(notes.drop_last().take(k) =~= notes.take(k));
        lemma_property_keys_prefix(notes.drop_last(), k);
    } else {
        assert(notes.take(k) =~= notes);
    }
}

/// How many notes carry each property.
pub fn property_counts(index: &VaultIndex) -> (r: TextMap<usize>)
    requires
        property_keys(index.notes()).len() < usize::MAX,
    ensures
        counts_of(r) == tally(property_keys(index.notes())),
{
    let docs = index.documents();
    let ghost notes = index.notes();
    let ghost total = property_keys(notes).len();
    let mut m: TextMap<usize> = TextMap::new();
    let ghost mut ks: Seq<Seq<char>> = Seq::empty();
    let mut k: usize = 0;
    proof {
        assert(counts_of(m) =~= tally(ks));
        assert(notes.take(0) =~= Seq::<Document>::empty());
    }
    while k < docs.len()
        invariant
            k <= docs@.len() == notes.len(),
            notes == index.notes(),
            forall|j: int| 0 <= j < docs@.len() ==> *#[trigger] docs@[j] == notes[j],
            ks == property_keys(notes.take(k as int)),
            total == property_keys(notes).len(),
            total < usize::MAX,
            counts_of(m) == tally(ks),
        decreases docs@.len() - k,
    {
        let d = docs[k];
        let ghost base = ks;
        let ghost pv = d.properties.pairs().map_values(|p: (Seq<char>, String)| p.0);
        proof {
            lemma_property_keys_prefix(notes, k + 1);
            assert(notes.take(k + 1).drop_last() =~= notes.take(k as int));
            assert(notes.take(k + 1).last() == *d);
        }
        let mut j: usize = 0;
        proof {
            assert(base + pv.take(0) =~= base);
        }
        while j < d.properties.len()
            invariant
                j <= d.properties.pairs().len() == pv.len(),
                pv == d.properties.pairs().map_values(|p: (Seq<char>, String)| p.0),
                ks == base + pv.take(j as int),
                (base + pv).len() <= total,
                total < usize::MAX,
                counts_of(m) == tally(ks),
            decreases d.properties.pairs().len() - j,
        {
            let (name, _) = d.properties.entry(j);
            let key = name.clone();
            bump(&mut m, key, Ghost(ks));
            proof {
                assert(base + pv.take(j + 1) =~= ks.push(key@));
                ks = ks.push(key@);
            }
            j = j + 1;
        }
        proof {
            assert(pv.take(j as int) =~= pv);
        }
        k = k + 1;
    }
    proof {
        assert(notes.take(k as int) =~= notes);
    }
    m
}

} // verus!
