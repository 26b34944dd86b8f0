//! Version vectors, sync plans and conflicts.
use vstd::prelude::*;
use crate::services::ExtraFields;
use crate::textmap::{TextMap, TextSet};

verus! {

/// A per-actor counter of observed changes.
#[derive(Debug, PartialEq, Eq)]
pub struct VersionVector(pub TextMap<u64>);

impl Clone for VersionVector {
    fn clone(&self) -> (v: Self)
        ensures
            v.0.map() == self.0.map(),
    {
        VersionVector(self.0.duplicate())
    }
}

/// The counter of `actor`, zero when absent.
pub open spec fn count_of(m: Map<Seq<char>, u64>, actor: Seq<char>) -> int {
    if m.contains_key(actor) {
        m[actor] as int
    } else {
        0
    }
}

/// Whether `a` has seen at least every change that `b` has seen.
pub open spec fn spec_dominates(a: Map<Seq<char>, u64>, b: Map<Seq<char>, u64>) -> bool {
    forall|k: Seq<char>| #[trigger] b.contains_key(k) ==> count_of(a, k) >= b[k]
}

impl Default for VersionVector {
    fn default() -> (v: Self)
        ensures
            v.0.map() == Map::<Seq<char>, u64>::empty(),
    {
        VersionVector(TextMap::new())
    }
}

impl VersionVector {
    /// Counts one more change by `actor`.
    pub fn increment(&mut self, actor: &str)
        requires
            count_of(old(self).0.map(), actor@) < u64::MAX,
        ensures
            final(self).0.map() == old(self).0.map().insert(actor@, (count_of(old(self).0.map(), actor@) + 1) as u64),
    {
        let current = match self.0.get(actor) {
            Some(v) => *v,
            None => 0,
        };
        self.0.insert(actor.to_owned(), current + 1);
    }

    /// Whether this vector has seen every change `other` has seen.
    pub fn dominates(&self, other: &Self) -> (b: bool)
        ensures
            b == spec_dominates(self.0.map(), other.0.map()),
    {
        let mut i: usize = 0;
        while i < other.0.len()
            invariant
                i <= other.0.pairs().len(),
                forall|j: int| 0 <= j < i ==> count_of(self.0.map(), #[trigger] other.0.pairs()[j].0) >= other.0.pairs()[j].1,
            decreases other.0.pairs().len() - i,
        {
            let (k, v) = other.0.entry(i);
            let mine = match self.0.get(k.as_str()) {
                Some(x) => *x,
                None => 0,
            };
            if mine < *v {
                return false;
            }
            i = i + 1;
        }
        proof {
            assert forall|k: Seq<char>| #[trigger] other.0.map().contains_key(k) implies count_of(self.0.map(), k) >= other.0.map()[k] by {
                let j = crate::textmap::key_index(other.0.pairs(), k);
                crate::textmap::lemma_pairs_value(other.0.pairs(), k);
                assert(count_of(self.0.map(), other.0.pairs()[j].0) >= other.0.pairs()[j].1);
            }
        }
        true
    }

    /// Whether neither vector has seen everything the other has.
    pub fn concurrent(&self, other: &Self) -> (b: bool)
        ensures
            b == (!spec_dominates(self.0.map(), other.0.map()) && !spec_dominates(other.0.map(), self.0.map())),
    {
        !self.dominates(other) && !other.dominates(self)
    }
}

/// Every vector dominates itself, domination is transitive, and an increment
/// yields a vector that dominates the one it came from.
pub proof fn lemma_dominates_order(a: Map<Seq<char>, u64>, b: Map<Seq<char>, u64>, c: Map<Seq<char>, u64>)
    ensures
        spec_dominates(a, a),
        spec_dominates(a, b) && spec_dominates(b, c) ==> spec_dominates(a, c),
        !(spec_dominates(a, b) && spec_dominates(b, a) && a != b && a.dom() == b.dom()),
{
    if spec_dominates(a, b) && spec_dominates(b, c) {
        assert forall|k: Seq<char>| #[trigger] c.contains_key(k) implies count_of(a, k) >= c[k] by {
            assert(count_of(b, k) >= c[k]);
            if !b.contains_key(k) {
            } else {
                assert(count_of(a, k) >= b[k]);
            }
        }
    }
    if spec_dominates(a, b) && spec_dominates(b, a) && a.dom() == b.dom() {
        assert forall|k: Seq<char>| #[trigger] a.contains_key(k) implies a[k] == b[k] by {
            assert(b.contains_key(k));
        }
        assert(a =~= b);
    }
}

/// Counting one more change by any actor gives a vector that dominates the old one.
pub proof fn lemma_increment_dominates(a: Map<Seq<char>, u64>, actor: Seq<char>)
    requires
        count_of(a, actor) < u64::MAX,
    ensures
        spec_dominates(a.insert(actor, (count_of(a, actor) + 1) as u64), a),
        !spec_dominates(a, a.insert(actor, (count_of(a, actor) + 1) as u64)),
{
    let n = a.insert(actor, (count_of(a, actor) + 1) as u64);
    assert(n.contains_key(actor));
}

#[derive(Clone, Copy, Debug, PartialEq, Eq, Structural)]
pub enum ConflictPolicy {
    KeepLocal,
    KeepRemote,
    RequireReview,
}

/// How a user resolves one sync conflict.
#[derive(Clone, Copy, Debug, PartialEq, Eq, Structural)]
pub enum Resolution {
    KeepLocal,
    KeepRemote,
}

/// A sync plan; unknown JSON fields are kept in `extra`.
pub struct SyncPlan {
    pub resources: Vec<String>,
    pub policy: ConflictPolicy,
    pub selective_settings: TextSet,
    pub base: VersionVector,
    pub extra: ExtraFields,
}

#[derive(Clone, Copy, Debug, PartialEq, Eq, Structural)]
pub enum SyncState {
    Offline,
    Ready,
    Running,
    Conflicted,
    Degraded,
}

pub struct Conflict {
    pub resource: String,
    pub local: VersionVector,
    pub remote: VersionVector,
}

impl SyncPlan {
    pub fn new(policy: ConflictPolicy) -> (p: Self)
        ensures
            p.resources@.len() == 0,
            p.policy == policy,
            p.selective_settings.set() == Set::<Seq<char>>::empty(),
            p.base.0.map() == Map::<Seq<char>, u64>::empty(),
            p.extra.map() == Map::<Seq<char>, serde_json::Value>::empty(),
    {
        SyncPlan {
            resources: Vec::new(),
            policy,
            selective_settings: TextSet::new(),
            base: VersionVector::default(),
            extra: TextMap::new(),
        }
    }

    /// A conflict on `resource` between the two versions.
    pub fn conflict(&self, resource: &str, local: VersionVector, remote: VersionVector) -> (c: Conflict)
        ensures
            c.resource@ == resource@,
            c.local == local,
            c.remote == remote,
    {
        Conflict { resource: resource.to_owned(), local, remote }
    }
}

} // verus!
