//! Publish manifests and the difference between two of them.
use vstd::prelude::*;
use crate::services::ExtraFields;
use crate::textmap::TextMap;

verus! {

/// Site settings; unknown JSON fields are kept in `extra`.
pub struct SiteConfig {
    pub title: String,
    pub base_path: String,
    pub extra: ExtraFields,
}

/// The published files (path to digest); unknown JSON fields are kept in `extra`.
pub struct PublishManifest {
    pub site: SiteConfig,
    pub files: TextMap<String>,
    pub extra: ExtraFields,
}

#[derive(Clone, Copy, Debug, PartialEq, Eq, Structural)]
pub enum DiffKind {
    Added,
    Changed,
    Removed,
}

#[derive(Clone, Debug, PartialEq, Eq)]
pub struct ManifestDiff {
    pub path: String,
    pub kind: DiffKind,
    pub digest: Option<String>,
}

/// A [`ManifestDiff`] with its text taken as characters.
pub struct DiffView {
    pub path: Seq<char>,
    pub kind: DiffKind,
    pub digest: Option<Seq<char>>,
}

pub open spec fn diff_view(d: ManifestDiff) -> DiffView {
    DiffView {
        path: d.path@,
        kind: d.kind,
        digest: match d.digest {
            Some(s) => Some(s@),
            None => None,
        },
    }
}

/// The entries of `new` (in path order) that are absent from `old` or have another digest.
pub open spec fn added_or_changed(new: Seq<(Seq<char>, String)>, old: Map<Seq<char>, String>) -> Seq<DiffView>
    decreases new.len(),
{
    if new.len() == 0 {
        Seq::empty()
    } else {
        let prev = added_or_changed(new.drop_last(), old);
        let (p, d) = new.last();
        if !old.contains_key(p) {
            prev.push(DiffView { path: p, kind: DiffKind::Added, digest: Some(d@) })
        } else if old[p]@ != d@ {
            prev.push(DiffView { path: p, kind: DiffKind::Changed, digest: Some(d@) })
        } else {
            prev
        }
    }
}

/// The paths of `old` (in path order) that are absent from `new`.
pub open spec fn removed(old: Seq<(Seq<char>, String)>, new: Map<Seq<char>, String>) -> Seq<DiffView>
    decreases old.len(),
{
    if old.len() == 0 {
        Seq::empty()
    } else {
        let prev = removed(old.drop_last(), new);
        let p = old.last().0;
        if !new.contains_key(p) {
            prev.push(DiffView { path: p, kind: DiffKind::Removed, digest: None })
        } else {
            prev
        }
    }
}

/// The changes from `old` to `new`: additions and digest changes in path order,
/// then removals in path order.
pub fn diff(old: &PublishManifest, new: &PublishManifest) -> (out: Vec<ManifestDiff>)
    ensures
        out@.map_values(|d: ManifestDiff| diff_view(d))
            == added_or_changed(new.files.pairs(), old.files.map()) + removed(old.files.pairs(), new.files.map()),
{
    let mut out: Vec<ManifestDiff> = Vec::new();
    let mut i: usize = 0;
    while i < new.files.len()
        invariant
            i <= new.files.pairs().len(),
            out@.map_values(|d: ManifestDiff| diff_view(d)) == added_or_changed(new.files.pairs().take(i as int), old.files.map()),
        decreases new.files.pairs().len() - i,
    {
        let (p, d) = new.files.entry(i);
        let ghost pre = new.files.pairs().take(i as int);
        proof {
            assert(new.files.pairs().take(i + 1).drop_last() =~= pre);
        }
        match old.files.get(p.as_str()) {
            None => {
                out.push(ManifestDiff { path: p.clone(), kind: DiffKind::Added, digest: Some(d.clone()) });
            },
            Some(x) => {
                if !crate::text::str_eq(x.as_str(), d.as_str()) {
                    out.push(ManifestDiff { path: p.clone(), kind: DiffKind::Changed, digest: Some(d.clone()) });
                }
            },
        }
        proof {
            assert(out@.map_values(|d: ManifestDiff| diff_view(d)) =~= added_or_changed(new.files.pairs().take(i + 1), old.files.map()));
        }
        i = i + 1;
    }
    proof {
        assert(new.files.pairs().take(new.files.pairs().len() as int) =~= new.files.pairs());
    }
    let ghost first = out@.map_values(|d: ManifestDiff| diff_view(d));
    let mut j: usize = 0;
    while j < old.files.len()
        invariant
            j <= old.files.pairs().len(),
            first == added_or_changed(new.files.pairs(), old.files.map()),
            out@.map_values(|d: ManifestDiff| diff_view(d)) == first + removed(old.files.pairs().take(j as int), new.files.map()),
        decreases old.files.pairs().len() - j,
    {
        let (p, _d) = old.files.entry(j);
        proof {
            assert(old.files.pairs().take(j + 1).drop_last() =~= old.files.pairs().take(j as int));
            assert(old.files.pairs().take(j + 1).last() == old.files.pairs()[j as int]);
        }
        let ghost before = out@.map_values(|d: ManifestDiff| diff_view(d));
        if !new.files.contains_key(p.as_str()) {
            out.push(ManifestDiff { path: p.clone(), kind: DiffKind::Removed, digest: None });
        }
        proof {
            let r0 = removed(old.files.pairs().take(j as int), new.files.map());
            if !new.files.map().contains_key(p@) {
                assert(out@.map_values(|d: ManifestDiff| diff_view(d)) =~= before.push(DiffView { path: p@, kind: DiffKind::Removed, digest: None }));
                assert(first + r0.push(DiffView { path: p@, kind: DiffKind::Removed, digest: None }) =~= (first + r0).push(DiffView { path: p@, kind: DiffKind::Removed, digest: None }));
            } else {
                assert(out@.map_values(|d: ManifestDiff| diff_view(d)) =~= before);
            }
            assert(out@.map_values(|d: ManifestDiff| diff_view(d)) =~= first + removed(old.files.pairs().take(j + 1), new.files.map()));
        }
        j = j + 1;
    }
    proof {
        assert(old.files.pairs().take(old.files.pairs().len() as int) =~= old.files.pairs());
    }
    out
}

} // verus!
