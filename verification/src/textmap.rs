//! Ordered maps and sets keyed by text.
//!
//! Entries are kept sorted by the byte order of their keys, which is the
//! iteration order of an ordered map keyed by `String`.
use vstd::prelude::*;
use crate::text::{compare_str, lemma_text_lt_order, str_eq, text_lt};

verus! {

/// Whether some entry of `p` has key `k`.
pub open spec fn has_key<V>(p: Seq<(Seq<char>, V)>, k: Seq<char>) -> bool {
    exists|i: int| 0 <= i < p.len() && (#[trigger] p[i]).0 == k
}

/// An index of an entry of `p` with key `k` (meaningful when `has_key(p, k)`).
pub open spec fn key_index<V>(p: Seq<(Seq<char>, V)>, k: Seq<char>) -> int {
    choose|i: int| 0 <= i < p.len() && (#[trigger] p[i]).0 == k
}

/// The map that a list of entries denotes.
pub open spec fn pairs_map<V>(p: Seq<(Seq<char>, V)>) -> Map<Seq<char>, V> {
    Map::new(|k: Seq<char>| has_key(p, k), |k: Seq<char>| p[key_index(p, k)].1)
}

/// Whether the keys of `p` are strictly increasing in byte order.
pub open spec fn sorted_pairs<V>(p: Seq<(Seq<char>, V)>) -> bool {
    forall|i: int, j: int| 0 <= i < j < p.len() ==> text_lt(#[trigger] p[i].0, #[trigger] p[j].0)
}

/// In a sorted list of entries, each key occurs once and maps to its entry's value.
pub proof fn lemma_sorted_lookup<V>(p: Seq<(Seq<char>, V)>, i: int)
    requires
        sorted_pairs(p),
        0 <= i < p.len(),
    ensures
        pairs_map(p).contains_key(p[i].0),
        pairs_map(p)[p[i].0] == p[i].1,
        key_index(p, p[i].0) == i,
{
    assert(has_key(p, p[i].0));
    let j = key_index(p, p[i].0);
    if j != i {
        lemma_text_lt_order(p[i].0, p[j].0, p[j].0);
    }
}

/// A key present in the denoted map is the key of its chosen entry, whose value it maps to.
pub proof fn lemma_pairs_value<V>(p: Seq<(Seq<char>, V)>, k: Seq<char>)
    requires
        pairs_map(p).contains_key(k),
    ensures
        0 <= key_index(p, k) < p.len(),
        p[key_index(p, k)].0 == k,
        pairs_map(p)[k] == p[key_index(p, k)].1,
{
}

/// An ordered map from text keys to values.
#[derive(Debug, PartialEq, Eq)]
pub struct TextMap<V> {
    entries: Vec<(String, V)>,
}

/// The keys and values of an entry list, with keys taken by their characters.
pub open spec fn entry_view<V>(e: Seq<(String, V)>) -> Seq<(Seq<char>, V)> {
    e.map_values(|x: (String, V)| (x.0@, x.1))
}

impl<V> TextMap<V> {
    /// The entries in key order.
    pub closed spec fn pairs(&self) -> Seq<(Seq<char>, V)> {
        entry_view(self.entries@)
    }

    /// The map this value denotes.
    pub open spec fn map(&self) -> Map<Seq<char>, V> {
        pairs_map(self.pairs())
    }

    #[verifier::type_invariant]
    closed spec fn inv(&self) -> bool {
        sorted_pairs(entry_view(self.entries@))
    }

    pub fn new() -> (m: Self)
        ensures
            m.pairs() == Seq::<(Seq<char>, V)>::empty(),
            m.map() == Map::<Seq<char>, V>::empty(),
    {
        let m = TextMap { entries: Vec::new() };
        proof {
            assert(m.pairs() =~= Seq::<(Seq<char>, V)>::empty());
            assert(m.map() =~= Map::<Seq<char>, V>::empty());
        }
        m
    }

    pub fn len(&self) -> (n: usize)
        ensures
            n == self.pairs().len(),
    {
        self.entries.len()
    }

    /// The key and value of the entry at position `i` in key order.
    pub fn entry(&self, i: usize) -> (r: (&String, &V))
        requires
            i < self.pairs().len(),
        ensures
            r.0@ == self.pairs()[i as int].0,
            *r.1 == self.pairs()[i as int].1,
            self.map().contains_key(r.0@),
            self.map()[r.0@] == *r.1,
            forall|j: int| 0 <= j < self.pairs().len() && j != i ==> #[trigger] self.pairs()[j].0 != r.0@,
    {
        proof {
            use_type_invariant(self);
            lemma_sorted_lookup(self.pairs(), i as int);
            assert forall|j: int| 0 <= j < self.pairs().len() && j != i implies #[trigger] self.pairs()[j].0 != self.pairs()[i as int].0 by {
                lemma_text_lt_order(self.pairs()[j].0, self.pairs()[i as int].0, self.pairs()[i as int].0);
            }
        }
        let e = &self.entries[i];
        (&e.0, &e.1)
    }

    /// The position of the entry with key `k`, if there is one.
    pub fn position(&self, k: &str) -> (r: Option<usize>)
        ensures
            r matches Some(i) ==> i < self.pairs().len() && self.pairs()[i as int].0 == k@,
            r is None ==> !self.map().contains_key(k@),
    {
        let mut i: usize = 0;
        while i < self.entries.len()
            invariant
                i <= self.entries@.len(),
                forall|j: int| 0 <= j < i ==> (#[trigger] self.pairs()[j]).0 != k@,
            decreases self.entries@.len() - i,
        {
            if str_eq(self.entries[i].0.as_str(), k) {
                return Some(i);
            }
            i = i + 1;
        }
        None
    }

    pub fn contains_key(&self, k: &str) -> (b: bool)
        ensures
            b == self.map().contains_key(k@),
    {
        match self.position(k) {
            Some(i) => {
                proof {
                    use_type_invariant(self);
                    lemma_sorted_lookup(self.pairs(), i as int);
                }
                true
            },
            None => false,
        }
    }

    pub fn get(&self, k: &str) -> (r: Option<&V>)
        ensures
            r matches Some(v) ==> self.map().contains_key(k@) && self.map()[k@] == *v,
            r is None ==> !self.map().contains_key(k@),
    {
        match self.position(k) {
            Some(i) => {
                proof {
                    use_type_invariant(self);
                    lemma_sorted_lookup(self.pairs(), i as int);
                }
                Some(&self.entries[i].1)
            },
            None => None,
        }
    }

    /// Inserts or replaces the value for `k`.
    pub fn insert(&mut self, k: String, v: V)
        ensures
            final(self).map() == old(self).map().insert(k@, v),
    {
        proof {
            use_type_invariant(&*self);
        }
        let ghost old_p = self.pairs();
        let mut pos: usize = 0;
        while pos < self.entries.len() && compare_str(self.entries[pos].0.as_str(), k.as_str()) == -1
            invariant
                pos <= self.entries@.len(),
                self.pairs() == old_p,
                sorted_pairs(old_p),
                forall|j: int| 0 <= j < pos ==> text_lt(#[trigger] old_p[j].0, k@),
            decreases self.entries@.len() - pos,
        {
            pos = pos + 1;
        }
        if pos < self.entries.len() && str_eq(self.entries[pos].0.as_str(), k.as_str()) {
            let ghost kv = k@;
            let mut entries = Vec::new();
            std::mem::swap(&mut entries, &mut self.entries);
            entries.set(pos, (k, v));
            proof {
                let np = entry_view(entries@);
                assert(np =~= old_p.update(pos as int, (kv, v)));
                assert forall|a: int, b: int| 0 <= a < b < np.len() implies text_lt(#[trigger] np[a].0, #[trigger] np[b].0) by {
                    assert(np[a].0 == old_p[a].0);
                    assert(np[b].0 == old_p[b].0);
                }
                assert forall|key: Seq<char>| #[trigger] pairs_map(np).contains_key(key) == old_p_map_ins(old_p, kv, v).contains_key(key)
                    && (pairs_map(np).contains_key(key) ==> pairs_map(np)[key] == old_p_map_ins(old_p, kv, v)[key]) by {
                    if has_key(np, key) {
                        let j = choose|j: int| 0 <= j < np.len() && (#[trigger] np[j]).0 == key;
                        lemma_sorted_lookup(np, j);
                        if j != pos {
                            lemma_sorted_lookup(old_p, j);
                        }
                    }
                    if has_key(old_p, key) {
                        let j = choose|j: int| 0 <= j < old_p.len() && (#[trigger] old_p[j]).0 == key;
                        assert(np[j].0 == key);
                    }
                    if key == kv {
                        assert(np[pos as int].0 == kv);
                        lemma_sorted_lookup(np, pos as int);
                    }
                }
                assert(pairs_map(np) =~= pairs_map(old_p).insert(kv, v));
            }
            self.entries = entries;
        } else {
            let ghost kv = k@;
            proof {
                if pos < self.entries@.len() {
                    lemma_text_lt_order(old_p[pos as int].0, kv, kv);
                }
            }
            let mut entries = Vec::new();
            std::mem::swap(&mut entries, &mut self.entries);
            entries.insert(pos, (k, v));
            proof {
                let np = entry_view(entries@);
                assert(np =~= old_p.insert(pos as int, (kv, v)));
                assert forall|a: int, b: int| 0 <= a < b < np.len() implies text_lt(#[trigger] np[a].0, #[trigger] np[b].0) by {
                    if b < pos {
                    } else if a < pos && b == pos {
                    } else if a < pos {
                        assert(np[b].0 == old_p[b - 1].0);
                    } else if a == pos {
                        assert(np[b].0 == old_p[b - 1].0);
                        if b - 1 > pos {
                            lemma_text_lt_order(kv, old_p[pos as int].0, old_p[b - 1].0);
                        }
                    } else {
                        assert(np[a].0 == old_p[a - 1].0);
                        assert(np[b].0 == old_p[b - 1].0);
                    }
                }
                assert forall|key: Seq<char>| #[trigger] pairs_map(np).contains_key(key) == old_p_map_ins(old_p, kv, v).contains_key(key)
                    && (pairs_map(np).contains_key(key) ==> pairs_map(np)[key] == old_p_map_ins(old_p, kv, v)[key]) by {
                    if has_key(np, key) {
                        let j = choose|j: int| 0 <= j < np.len() && (#[trigger] np[j]).0 == key;
                        lemma_sorted_lookup(np, j);
                        if j < pos {
                            lemma_sorted_lookup(old_p, j);
                        } else if j > pos {
                            lemma_sorted_lookup(old_p, j - 1);
                        }
                    }
                    if has_key(old_p, key) {
                        let j = choose|j: int| 0 <= j < old_p.len() && (#[trigger] old_p[j]).0 == key;
                        if j < pos {
                            assert(np[j].0 == key);
                        } else {
                            assert(np[j + 1].0 == key);
                        }
                    }
                    if key == kv {
                        assert(np[pos as int].0 == kv);
                        lemma_sorted_lookup(np, pos as int);
                    }
                }
                assert(pairs_map(np) =~= pairs_map(old_p).insert(kv, v));
            }
            self.entries = entries;
        }
    }

    /// Removes the entry for `k`, returning its value.
    pub fn remove(&mut self, k: &str) -> (r: Option<V>)
        ensures
            final(self).map() == old(self).map().remove(k@),
            r matches Some(v) ==> old(self).map().contains_key(k@) && old(self).map()[k@] == v,
            r is None ==> !old(self).map().contains_key(k@),
    {
        proof {
            use_type_invariant(&*self);
        }
        let ghost old_p = self.pairs();
        match self.position(k) {
            None => {
                proof {
                    assert(pairs_map(old_p) =~= pairs_map(old_p).remove(k@));
                }
                None
            },
            Some(pos) => {
                proof {
                    lemma_sorted_lookup(old_p, pos as int);
                }
                let mut entries = Vec::new();
                std::mem::swap(&mut entries, &mut self.entries);
                let e = entries.remove(pos);
                proof {
                    let np = entry_view(entries@);
                    assert(np =~= old_p.remove(pos as int));
                    assert forall|a: int, b: int| 0 <= a < b < np.len() implies text_lt(#[trigger] np[a].0, #[trigger] np[b].0) by {
                        if b < pos {
                        } else if a < pos {
                            assert(np[b].0 == old_p[b + 1].0);
                        } else {
                            assert(np[a].0 == old_p[a + 1].0);
                            assert(np[b].0 == old_p[b + 1].0);
                        }
                    }
                    assert forall|key: Seq<char>| #[trigger] pairs_map(np).contains_key(key) == pairs_map(old_p).remove(k@).contains_key(key)
                        && (pairs_map(np).contains_key(key) ==> pairs_map(np)[key] == pairs_map(old_p).remove(k@)[key]) by {
                        if has_key(np, key) {
                            let j = choose|j: int| 0 <= j < np.len() && (#[trigger] np[j]).0 == key;
                            lemma_sorted_lookup(np, j);
                            if j < pos {
                                lemma_sorted_lookup(old_p, j);
                            } else {
                                lemma_sorted_lookup(old_p, j + 1);
                            }
                        }
                        if has_key(old_p, key) && key != k@ {
                            let j = choose|j: int| 0 <= j < old_p.len() && (#[trigger] old_p[j]).0 == key;
                            if j < pos {
                                assert(np[j].0 == key);
                            } else {
                                assert(j != pos);
                                assert(np[j - 1].0 == key);
                            }
                        }
                    }
                    assert(pairs_map(np) =~= pairs_map(old_p).remove(k@));
                }
                self.entries = entries;
                Some(e.1)
            },
        }
    }
}

impl<V: Clone> Clone for TextMap<V> {
    /// A copy with the same keys in the same order; each value is cloned.
    fn clone(&self) -> (m: Self)
        ensures
            m.pairs().len() == self.pairs().len(),
            forall|i: int| 0 <= i < m.pairs().len() ==> (#[trigger] m.pairs()[i]).0 == self.pairs()[i].0,
    {
        proof {
            use_type_invariant(self);
        }
        let mut entries: Vec<(String, V)> = Vec::new();
        let mut i: usize = 0;
        while i < self.entries.len()
            invariant
                i <= self.entries@.len(),
                entries@.len() == i,
                forall|j: int| 0 <= j < i ==> (#[trigger] entries@[j]).0@ == self.entries@[j].0@,
            decreases self.entries@.len() - i,
        {
            let k = self.entries[i].0.clone();
            let v = self.entries[i].1.clone();
            entries.push((k, v));
            i = i + 1;
        }
        proof {
            assert forall|a: int, b: int| 0 <= a < b < entries@.len() implies text_lt(#[trigger] entry_view(entries@)[a].0, #[trigger] entry_view(entries@)[b].0) by {
                assert(entry_view(self.entries@)[a].0 == entry_view(entries@)[a].0);
                assert(entry_view(self.entries@)[b].0 == entry_view(entries@)[b].0);
            }
        }
        TextMap { entries }
    }
}

impl<V: Copy> TextMap<V> {
    /// A copy holding the same entries.
    pub fn duplicate(&self) -> (m: Self)
        ensures
            m.pairs() == self.pairs(),
            m.map() == self.map(),
    {
        proof {
            use_type_invariant(self);
        }
        let mut entries: Vec<(String, V)> = Vec::new();
        let mut i: usize = 0;
        while i < self.entries.len()
            invariant
                i <= self.entries@.len(),
                entries@.len() == i,
                forall|j: int| 0 <= j < i ==> (#[trigger] entry_view(entries@)[j]) == entry_view(self.entries@)[j],
            decreases self.entries@.len() - i,
        {
            let k = self.entries[i].0.clone();
            let v = self.entries[i].1;
            let ghost prev = entries@;
            entries.push((k, v));
            proof {
                assert forall|j: int| 0 <= j <= i implies (#[trigger] entry_view(entries@)[j]) == entry_view(self.entries@)[j] by {
                    if j < i {
                        assert(entries@[j] == prev[j]);
                        assert(entry_view(prev)[j] == entry_view(self.entries@)[j]);
                    }
                }
            }
            i = i + 1;
        }
        proof {
            assert(entry_view(entries@) =~= entry_view(self.entries@));
        }
        TextMap { entries }
    }
}

/// An ordered set of text values.
#[derive(Clone, Debug, PartialEq, Eq)]
pub struct TextSet {
    items: TextMap<()>,
}

impl TextSet {
    /// The members in byte order.
    pub closed spec fn members(&self) -> Seq<Seq<char>> {
        self.items.pairs().map_values(|p: (Seq<char>, ())| p.0)
    }

    /// The set this value denotes.
    pub closed spec fn set(&self) -> Set<Seq<char>> {
        self.items.map().dom()
    }

    pub fn new() -> (s: Self)
        ensures
            s.set() == Set::<Seq<char>>::empty(),
            s.members() == Seq::<Seq<char>>::empty(),
    {
        let s = TextSet { items: TextMap::new() };
        proof {
            assert(s.set() =~= Set::<Seq<char>>::empty());
            assert(s.members() =~= Seq::<Seq<char>>::empty());
        }
        s
    }

    pub fn len(&self) -> (n: usize)
        ensures
            n == self.members().len(),
    {
        self.items.len()
    }

    /// The member at position `i` in byte order.
    pub fn member(&self, i: usize) -> (r: &String)
        requires
            i < self.members().len(),
        ensures
            r@ == self.members()[i as int],
            self.set().contains(r@),
    {
        self.items.entry(i).0
    }

    pub fn contains(&self, k: &str) -> (b: bool)
        ensures
            b == self.set().contains(k@),
    {
        self.items.contains_key(k)
    }

    /// Adds `k`; returns whether it was absent.
    pub fn insert(&mut self, k: String) -> (added: bool)
        ensures
            final(self).set() == old(self).set().insert(k@),
            added == !old(self).set().contains(k@),
    {
        let added = !self.items.contains_key(k.as_str());
        self.items.insert(k, ());
        proof {
            assert(self.set() =~= old(self).set().insert(k@));
        }
        added
    }

    /// Removes `k`; returns whether it was present.
    pub fn remove(&mut self, k: &str) -> (removed: bool)
        ensures
            final(self).set() == old(self).set().remove(k@),
            removed == old(self).set().contains(k@),
    {
        let r = self.items.remove(k);
        proof {
            assert(self.set() =~= old(self).set().remove(k@));
        }
        r.is_some()
    }

    /// The set holds exactly the members.
    pub proof fn lemma_members(&self)
        ensures
            forall|k: Seq<char>| #[trigger] self.set().contains(k) <==> self.members().contains(k),
    {
        assert forall|k: Seq<char>| #[trigger] self.set().contains(k) <==> self.members().contains(k) by {
            if self.set().contains(k) {
                let i = key_index(self.items.pairs(), k);
                assert(self.members()[i] == k);
            }
            if self.members().contains(k) {
                let i = choose|i: int| 0 <= i < self.members().len() && self.members()[i] == k;
                assert(self.items.pairs()[i].0 == k);
            }
        }
    }

    /// A copy holding the same members.
    pub fn duplicate(&self) -> (s: Self)
        ensures
            s.set() == self.set(),
            s.members() == self.members(),
    {
        TextSet { items: self.items.duplicate() }
    }
}

/// The map of `p` with `k` bound to `v`.
pub open spec fn old_p_map_ins<V>(p: Seq<(Seq<char>, V)>, k: Seq<char>, v: V) -> Map<Seq<char>, V> {
    pairs_map(p).insert(k, v)
}

} // verus!
