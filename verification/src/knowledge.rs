//! Render-neutral, deterministic knowledge and navigation primitives: an
//! index of notes, a query language, search, links, graphs and switchers.
use vstd::prelude::*;
use crate::textmap::{TextMap};
use crate::text::{text_lt, lemma_text_lt_order};

pub mod query;
pub mod search;
pub mod links;
pub mod outline;
pub mod graph;
pub mod navigate;

verus! {

/// A note as the index holds it.
#[derive(Debug, PartialEq, Eq)]
pub struct Document {
    pub path: String,
    pub content: String,
    pub tags: Vec<String>,
    pub properties: TextMap<String>,
    pub tasks: Vec<Task>,
}

#[derive(Clone, Debug, PartialEq, Eq)]
pub struct Task {
    pub text: String,
    pub done: bool,
}

/// The tags of a note as text.
pub open spec fn tag_texts(d: Document) -> Seq<Seq<char>> {
    d.tags@.map_values(|t: String| t@)
}

/// The properties of a note as a map of texts.
pub open spec fn prop_texts(d: Document) -> Map<Seq<char>, Seq<char>> {
    d.properties.map().map_values(|v: String| v@)
}

/// The tasks of a note as (text, done) pairs.
pub open spec fn task_views(d: Document) -> Seq<(Seq<char>, bool)> {
    d.tasks@.map_values(|t: Task| (t.text@, t.done))
}

/// Whether two notes hold the same texts.
pub open spec fn same_doc(a: Document, b: Document) -> bool {
    &&& a.path@ == b.path@
    &&& a.content@ == b.content@
    &&& tag_texts(a) == tag_texts(b)
    &&& prop_texts(a) == prop_texts(b)
    &&& task_views(a) == task_views(b)
}

fn clone_strings(v: &Vec<String>) -> (r: Vec<String>)
    ensures
        r@.map_values(|t: String| t@) == v@.map_values(|t: String| t@),
{
    let mut r: Vec<String> = Vec::new();
    let mut k: usize = 0;
    while k < v.len()
        invariant
            k <= v@.len(),
            r@.len() == k,
            forall|j: int| 0 <= j < k ==> #[trigger] r@[j]@ == v@[j]@,
        decreases v@.len() - k,
    {
        r.push(v[k].clone());
        k = k + 1;
    }
    proof {
        assert(r@.map_values(|t: String| t@) =~= v@.map_values(|t: String| t@));
    }
    r
}

fn clone_props(m: &TextMap<String>) -> (r: TextMap<String>)
    ensures
        r.map().map_values(|v: String| v@) == m.map().map_values(|v: String| v@),
{
    let mut r: TextMap<String> = TextMap::new();
    let mut k: usize = 0;
    while k < m.len()
        invariant
            k <= m.pairs().len(),
            forall|key: Seq<char>| #[trigger] r.map().contains_key(key) <==> exists|j: int| 0 <= j < k && #[trigger] m.pairs()[j].0 == key,
            forall|key: Seq<char>| #[trigger] r.map().contains_key(key) ==> m.map().contains_key(key) && r.map()[key]@ == m.map()[key]@,
        decreases m.pairs().len() - k,
    {
        let (key, value) = m.entry(k);
        let ghost before = r.map();
        r.insert(key.clone(), value.clone());
        proof {
            assert forall|x: Seq<char>| #[trigger] r.map().contains_key(x) <==> exists|j: int| 0 <= j < k + 1 && #[trigger] m.pairs()[j].0 == x by {
                if x == key@ {
                    assert(m.pairs()[k as int].0 == x);
                } else if before.contains_key(x) {
                    let j = choose|j: int| 0 <= j < k && #[trigger] m.pairs()[j].0 == x;
                    assert(0 <= j < k + 1 && m.pairs()[j].0 == x);
                }
            }
        }
        k = k + 1;
    }
    proof {
        assert forall|key: Seq<char>| #[trigger] m.map().contains_key(key) implies r.map().contains_key(key) by {
            crate::textmap::lemma_pairs_value(m.pairs(), key);
            let j = crate::textmap::key_index(m.pairs(), key);
            assert(0 <= j < k && m.pairs()[j].0 == key);
        }
        assert(r.map().map_values(|v: String| v@) =~= m.map().map_values(|v: String| v@));
    }
    r
}

fn clone_tasks(v: &Vec<Task>) -> (r: Vec<Task>)
    ensures
        r@.map_values(|t: Task| (t.text@, t.done)) == v@.map_values(|t: Task| (t.text@, t.done)),
{
    let mut r: Vec<Task> = Vec::new();
    let mut k: usize = 0;
    while k < v.len()
        invariant
            k <= v@.len(),
            r@.len() == k,
            forall|j: int| 0 <= j < k ==> #[trigger] r@[j].text@ == v@[j].text@ && r@[j].done == v@[j].done,
        decreases v@.len() - k,
    {
        r.push(Task { text: v[k].text.clone(), done: v[k].done });
        k = k + 1;
    }
    proof {
        assert(r@.map_values(|t: Task| (t.text@, t.done)) =~= v@.map_values(|t: Task| (t.text@, t.done)));
    }
    r
}

/// A copy of a note.
pub fn copy_doc(d: &Document) -> (r: Document)
    ensures
        same_doc(r, *d),
{
    Document {
        path: d.path.clone(),
        content: d.content.clone(),
        tags: clone_strings(&d.tags),
        properties: clone_props(&d.properties),
        tasks: clone_tasks(&d.tasks),
    }
}

impl Clone for Document {
    fn clone(&self) -> (r: Self)
        ensures
            same_doc(r, *self),
    {
        copy_doc(self)
    }
}

impl Default for Document {
    fn default() -> (d: Self)
        ensures
            d.path@.len() == 0,
            d.content@.len() == 0,
            d.tags@.len() == 0,
            d.properties.map() == Map::<Seq<char>, String>::empty(),
            d.tasks@.len() == 0,
    {
        Document { path: String::new(), content: String::new(), tags: Vec::new(), properties: TextMap::new(), tasks: Vec::new() }
    }
}

/// Notes keyed by path, with a revision counting the changes.
#[derive(Debug)]
pub struct VaultIndex {
    docs: TextMap<Document>,
    revision: u64,
}

impl Default for VaultIndex {
    fn default() -> (v: Self)
        ensures
            v.notes().len() == 0,
            v.revision_count() == 0,
    {
        VaultIndex { docs: TextMap::new(), revision: 0 }
    }
}

impl VaultIndex {
    /// The notes in path order.
    pub closed spec fn notes(&self) -> Seq<Document> {
        self.docs.pairs().map_values(|p: (Seq<char>, Document)| p.1)
    }

    /// The notes by path.
    pub closed spec fn note_map(&self) -> Map<Seq<char>, Document> {
        self.docs.map()
    }

    pub closed spec fn revision_count(&self) -> u64 {
        self.revision
    }

    pub fn new() -> (v: Self)
        ensures
            v.notes().len() == 0,
            v.note_map() == Map::<Seq<char>, Document>::empty(),
            v.revision_count() == 0,
    {
        let v = VaultIndex { docs: TextMap::new(), revision: 0 };
        proof {
            assert(v.notes() =~= Seq::<Document>::empty());
        }
        v
    }

    pub fn revision(&self) -> (r: u64)
        ensures
            r == self.revision_count(),
    {
        self.revision
    }

    /// Inserts or replaces the note at its path; returns the new revision.
    pub fn upsert(&mut self, document: Document) -> (r: u64)
        requires
            old(self).revision_count() < u64::MAX,
        ensures
            final(self).note_map() == old(self).note_map().insert(document.path@, document),
            final(self).revision_count() == old(self).revision_count() + 1,
            r == final(self).revision_count(),
    {
        let key = document.path.clone();
        self.docs.insert(key, document);
        self.revision = self.revision + 1;
        self.revision
    }

    /// Removes the note at `path`, if any; returns the new revision.
    pub fn remove(&mut self, path: &str) -> (r: u64)
        requires
            old(self).revision_count() < u64::MAX,
        ensures
            final(self).note_map() == old(self).note_map().remove(path@),
            final(self).revision_count() == old(self).revision_count() + 1,
            r == final(self).revision_count(),
    {
        let _ = self.docs.remove(path);
        self.revision = self.revision + 1;
        self.revision
    }

    pub fn get(&self, path: &str) -> (r: Option<&Document>)
        ensures
            r matches Some(d) ==> self.note_map().contains_key(path@) && *d == self.note_map()[path@],
            r is None ==> !self.note_map().contains_key(path@),
    {
        self.docs.get(path)
    }

    /// The notes in path order.
    pub fn documents(&self) -> (r: Vec<&Document>)
        ensures
            r@.len() == self.notes().len(),
            forall|k: int| 0 <= k < r@.len() ==> *#[trigger] r@[k] == self.notes()[k],
    {
        let mut r: Vec<&Document> = Vec::new();
        let mut k: usize = 0;
        while k < self.docs.len()
            invariant
                k <= self.docs.pairs().len(),
                r@.len() == k,
                forall|j: int| 0 <= j < k ==> *#[trigger] r@[j] == self.notes()[j],
            decreases self.docs.pairs().len() - k,
        {
            let (_, d) = self.docs.entry(k);
            r.push(d);
            k = k + 1;
        }
        r
    }

    /// The revision and a copy of every note, in path order.
    pub fn snapshot(&self) -> (r: (u64, Vec<Document>))
        ensures
            r.0 == self.revision_count(),
            r.1@.len() == self.notes().len(),
            forall|k: int| 0 <= k < r.1@.len() ==> same_doc(#[trigger] r.1@[k], self.notes()[k]),
    {
        let mut out: Vec<Document> = Vec::new();
        let mut k: usize = 0;
        while k < self.docs.len()
            invariant
                k <= self.docs.pairs().len(),
                out@.len() == k,
                forall|j: int| 0 <= j < k ==> same_doc(#[trigger] out@[j], self.notes()[j]),
            decreases self.docs.pairs().len() - k,
        {
            let (_, d) = self.docs.entry(k);
            out.push(copy_doc(d));
            k = k + 1;
        }
        (self.revision, out)
    }
}

/// An order for a stable sort: whether `a` must come before `b`.
pub trait SortKey: Sized {
    spec fn spec_before(a: Self, b: Self) -> bool;

    fn before(&self, other: &Self) -> (r: bool)
        ensures
            r == Self::spec_before(*self, *other),
    ;
}

/// `s` with `x` inserted after every element that `x` need not precede under `lt`.
pub open spec fn insert_with<A>(s: Seq<A>, x: A, lt: spec_fn(A, A) -> bool) -> Seq<A>
    decreases s.len(),
{
    if s.len() > 0 && lt(x, s.last()) {
        insert_with(s.drop_last(), x, lt).push(s.last())
    } else {
        s.push(x)
    }
}

/// The stable insertion sort of `s` under `lt`.
pub open spec fn sort_with<A>(s: Seq<A>, lt: spec_fn(A, A) -> bool) -> Seq<A>
    decreases s.len(),
{
    if s.len() == 0 {
        Seq::empty()
    } else {
        insert_with(sort_with(s.drop_last(), lt), s.last(), lt)
    }
}

/// The order of a [`SortKey`] type as a relation.
pub open spec fn key_order<T: SortKey>() -> spec_fn(T, T) -> bool {
    |a: T, b: T| T::spec_before(a, b)
}

/// `s` with `x` inserted after every element that `x` need not precede.
pub open spec fn insert_sorted<T: SortKey>(s: Seq<T>, x: T) -> Seq<T> {
    insert_with(s, x, key_order::<T>())
}

/// The stable insertion sort of `s`.
pub open spec fn sorted_by<T: SortKey>(s: Seq<T>) -> Seq<T> {
    sort_with(s, key_order::<T>())
}

/// Sorting commutes with a map that carries one order onto the other.
pub proof fn lemma_insert_with_map<A, B>(s: Seq<A>, x: A, lt: spec_fn(A, A) -> bool, f: spec_fn(A) -> B, ltb: spec_fn(B, B) -> bool)
    requires
        forall|a: A, b: A| #[trigger] lt(a, b) == ltb(f(a), f(b)),
    ensures
        insert_with(s, x, lt).map_values(f) == insert_with(s.map_values(f), f(x), ltb),
    decreases s.len(),
{
    if s.len() > 0 {
        assert(s.map_values(f).last() == f(s.last()));
        assert(s.map_values(f).drop_last() =~= s.drop_last().map_values(f));
        assert(lt(x, s.last()) == ltb(f(x), f(s.last())));
        if lt(x, s.last()) {
            lemma_insert_with_map(s.drop_last(), x, lt, f, ltb);
            assert(insert_with(s.drop_last(), x, lt).push(s.last()).map_values(f)
                =~= insert_with(s.drop_last(), x, lt).map_values(f).push(f(s.last())));
        } else {
            assert(s.push(x).map_values(f) =~= s.map_values(f).push(f(x)));
        }
    } else {
        assert(s.push(x).map_values(f) =~= s.map_values(f).push(f(x)));
    }
}

pub proof fn lemma_sort_with_map<A, B>(s: Seq<A>, lt: spec_fn(A, A) -> bool, f: spec_fn(A) -> B, ltb: spec_fn(B, B) -> bool)
    requires
        forall|a: A, b: A| #[trigger] lt(a, b) == ltb(f(a), f(b)),
    ensures
        sort_with(s, lt).map_values(f) == sort_with(s.map_values(f), ltb),
    decreases s.len(),
{
    if s.len() == 0 {
        assert(s.map_values(f) =~= Seq::<B>::empty());
        assert(Seq::<A>::empty().map_values(f) =~= Seq::<B>::empty());
    } else {
        lemma_sort_with_map(s.drop_last(), lt, f, ltb);
        lemma_insert_with_map(sort_with(s.drop_last(), lt), s.last(), lt, f, ltb);
        assert(s.map_values(f).drop_last() =~= s.drop_last().map_values(f));
        assert(s.map_values(f).last() == f(s.last()));
    }
}

/// `lt` is a strict weak order: asymmetric, and "not before" is transitive.
pub open spec fn strict_weak<A>(lt: spec_fn(A, A) -> bool) -> bool {
    &&& forall|a: A, b: A| #[trigger] lt(a, b) ==> !lt(b, a)
    &&& forall|a: A, b: A, c: A| #![trigger lt(a, b), lt(b, c)] !lt(a, b) && !lt(b, c) ==> !lt(a, c)
}

/// No element of `s` is before an earlier one.
pub open spec fn ordered_by<A>(s: Seq<A>, lt: spec_fn(A, A) -> bool) -> bool {
    forall|i: int, j: int| 0 <= i < j < s.len() ==> !lt(#[trigger] s[j], #[trigger] s[i])
}

/// [`insert_with`] puts `x` at some position `p`: after every element that it
/// need not precede at the end, before every element it precedes.
pub proof fn lemma_insert_with_at<A>(s: Seq<A>, x: A, lt: spec_fn(A, A) -> bool) -> (p: int)
    ensures
        0 <= p <= s.len(),
        insert_with(s, x, lt) == s.insert(p, x),
        forall|i: int| p <= i < s.len() ==> lt(x, #[trigger] s[i]),
        p > 0 ==> !lt(x, s[p - 1]),
    decreases s.len(),
{
    if s.len() > 0 && lt(x, s.last()) {
        let p = lemma_insert_with_at(s.drop_last(), x, lt);
        assert(s.drop_last().insert(p, x).push(s.last()) =~= s.insert(p, x));
        assert forall|i: int| p <= i < s.len() implies lt(x, #[trigger] s[i]) by {
            if i < s.len() - 1 {
                assert(s[i] == s.drop_last()[i]);
            }
        }
        if p > 0 {
            assert(s[p - 1] == s.drop_last()[p - 1]);
        }
        p
    } else {
        assert(s.push(x) =~= s.insert(s.len() as int, x));
        s.len() as int
    }
}

proof fn lemma_insert_with_sorted<A>(s: Seq<A>, x: A, lt: spec_fn(A, A) -> bool)
    requires
        strict_weak(lt),
        ordered_by(s, lt),
    ensures
        ordered_by(insert_with(s, x, lt), lt),
        insert_with(s, x, lt).to_multiset() == s.to_multiset().insert(x),
{
    let p = lemma_insert_with_at(s, x, lt);
    let r = s.insert(p, x);
    assert forall|i: int, j: int| 0 <= i < j < r.len() implies !lt(#[trigger] r[j], #[trigger] r[i]) by {
        if j < p {
            assert(r[i] == s[i] && r[j] == s[j]);
        } else if j == p {
            assert(r[j] == x);
            assert(r[i] == s[i]);
            assert(!lt(x, s[p - 1]));
            if i < p - 1 {
                assert(!lt(s[p - 1], s[i]));
                assert(!lt(x, s[p - 1]) && !lt(s[p - 1], s[i]) ==> !lt(x, s[i]));
            }
        } else if i == p {
            assert(r[i] == x && r[j] == s[j - 1]);
            assert(lt(x, s[j - 1]));
        } else if i < p {
            assert(r[i] == s[i] && r[j] == s[j - 1]);
        } else {
            assert(r[i] == s[i - 1] && r[j] == s[j - 1]);
        }
    }
    assert(s =~= s.take(p) + s.skip(p));
    assert(r =~= s.take(p).push(x) + s.skip(p));
    vstd::seq_lib::lemma_multiset_commutative(s.take(p).push(x), s.skip(p));
    vstd::seq_lib::lemma_multiset_commutative(s.take(p), s.skip(p));
    s.take(p).to_multiset_ensures();
    assert(r.to_multiset() =~= s.to_multiset().insert(x));
}

/// The stable insertion sort orders its input under a strict weak order,
/// and keeps exactly its elements.
pub proof fn lemma_sort_with_sorted<A>(s: Seq<A>, lt: spec_fn(A, A) -> bool)
    requires
        strict_weak(lt),
    ensures
        ordered_by(sort_with(s, lt), lt),
        sort_with(s, lt).to_multiset() == s.to_multiset(),
    decreases s.len(),
{
    if s.len() == 0 {
        assert(s =~= Seq::<A>::empty());
    } else {
        lemma_sort_with_sorted(s.drop_last(), lt);
        lemma_insert_with_sorted(sort_with(s.drop_last(), lt), s.last(), lt);
        s.drop_last().to_multiset_ensures();
        assert(s.drop_last().push(s.last()) =~= s);
    }
}

/// `not text_lt` is transitive.
pub proof fn lemma_text_not_lt(a: Seq<char>, b: Seq<char>, c: Seq<char>)
    ensures
        !text_lt(a, b) && !text_lt(b, c) ==> !text_lt(a, c),
{
    lemma_text_lt_order(a, b, c);
    lemma_text_lt_order(b, a, c);
    lemma_text_lt_order(c, b, a);
    lemma_text_lt_order(a, c, b);
    lemma_text_lt_order(b, c, a);
    lemma_text_lt_order(c, a, b);
}

/// Byte order on texts is a strict weak order.
pub proof fn lemma_text_order_weak()
    ensures
        strict_weak(|a: Seq<char>, b: Seq<char>| text_lt(a, b)),
{
    let lt = |a: Seq<char>, b: Seq<char>| text_lt(a, b);
    assert forall|a: Seq<char>, b: Seq<char>| #[trigger] lt(a, b) implies !lt(b, a) by {
        lemma_text_lt_order(a, b, a);
    }
    assert forall|a: Seq<char>, b: Seq<char>, c: Seq<char>| #![trigger lt(a, b), lt(b, c)] !lt(a, b) && !lt(b, c) implies !lt(a, c) by {
        lemma_text_not_lt(a, b, c);
    }
}

/// Inserts `x` into `v` as [`insert_sorted`] does.
fn insert_exec<T: SortKey>(v: &mut Vec<T>, x: T)
    ensures
        final(v)@ == insert_sorted(old(v)@, x),
{
    let ghost s0 = v@;
    let mut moved: Vec<T> = Vec::new();
    while v.len() > 0 && x.before(&v[v.len() - 1])
        invariant
            insert_sorted(v@, x) + moved@.reverse() == insert_sorted(s0, x),
        decreases v@.len(),
    {
        let ghost cur = v@;
        let last = v.pop().unwrap();
        proof {
            assert(cur.drop_last() =~= v@);
            assert(moved@.push(last).reverse() =~= seq![last] + moved@.reverse());
            assert(insert_sorted(cur, x) == insert_sorted(v@, x).push(last));
            assert(insert_sorted(v@, x) + moved@.push(last).reverse() =~= insert_sorted(v@, x).push(last) + moved@.reverse());
        }
        moved.push(last);
    }
    proof {
        assert(insert_sorted(v@, x) == v@.push(x));
    }
    v.push(x);
    while moved.len() > 0
        invariant
            v@ + moved@.reverse() == insert_sorted(s0, x),
        decreases moved@.len(),
    {
        let ghost m = moved@;
        let y = moved.pop().unwrap();
        proof {
            assert(m.drop_last() =~= moved@);
            assert(m.reverse() =~= seq![y] + moved@.reverse());
            assert(v@.push(y) + moved@.reverse() =~= v@ + m.reverse());
        }
        v.push(y);
    }
    proof {
        assert(v@ + moved@.reverse() =~= v@);
    }
}

/// The stable insertion sort of `items`.
pub fn sort_items<T: SortKey>(items: Vec<T>) -> (r: Vec<T>)
    ensures
        r@ == sorted_by(items@),
{
    let ghost s = items@;
    let mut rest = items;
    let mut out: Vec<T> = Vec::new();
    let mut taken: Vec<T> = Vec::new();
    while rest.len() > 0
        invariant
            rest@ + taken@.reverse() == s,
        decreases rest@.len(),
    {
        let ghost r = rest@;
        let x = rest.pop().unwrap();
        proof {
            assert(r.drop_last() =~= rest@);
            assert(rest@ + taken@.push(x).reverse() =~= r.drop_last() + (seq![x] + taken@.reverse()));
            assert(r =~= r.drop_last().push(x));
        }
        taken.push(x);
    }
    proof {
        assert(taken@.reverse() =~= s);
        assert(s.take(0) =~= Seq::<T>::empty());
    }
    let mut k: usize = 0;
    let n = taken.len();
    while taken.len() > 0
        invariant
            k + taken@.len() == n,
            n == s.len(),
            taken@.reverse() == s.skip(k as int),
            out@ == sorted_by(s.take(k as int)),
        decreases taken@.len(),
    {
        let ghost t = taken@;
        let x = taken.pop().unwrap();
        proof {
            assert(t.reverse()[0] == x);
            assert(s.skip(k as int)[0] == s[k as int]);
            assert(taken@.reverse() =~= s.skip(k + 1)) by {
                assert(t.drop_last() =~= taken@);
                assert forall|i: int| 0 <= i < taken@.len() implies taken@.reverse()[i] == s.skip(k + 1)[i] by {
                    assert(taken@.reverse()[i] == t.reverse()[i + 1]);
                }
            }
            assert(s.take(k + 1).drop_last() =~= s.take(k as int));
            assert(s.take(k + 1).last() == s[k as int]);
        }
        insert_exec(&mut out, x);
        k = k + 1;
    }
    proof {
        assert(s.take(k as int) =~= s);
    }
    out
}

} // verus!
