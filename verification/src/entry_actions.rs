//! Decisions behind the file operations of the explorer: names for new notes
//! and folders, where a renamed, moved or copied entry goes, and when a change
//! to a file has to wait for its unsaved edits.
use vstd::prelude::*;
use crate::render_surface::{decimal, decimal_string};
use crate::text::{chars_of, region_starts_with, rfind_chars, rfind_seq, starts_with, str_eq, string_of};
use crate::vault::{last_component, spec_vault_path, VaultPath};

verus! {

/// The `n`th name tried for a new note: `Untitled.md`, then `Untitled 1.md`,
/// `Untitled 2.md` and so on.
pub open spec fn untitled_name(n: nat) -> Seq<char> {
    if n == 0 {
        "Untitled.md"@
    } else {
        "Untitled "@ + decimal(n) + ".md"@
    }
}

/// The `n`th name tried for a new note.
pub fn untitled_note(n: usize) -> (r: String)
    ensures
        r@ == untitled_name(n as nat),
{
    if n == 0 {
        "Untitled.md".to_owned()
    } else {
        let mut t = "Untitled ".to_owned();
        let d = decimal_string(n);
        t.append(d.as_str());
        t.append(".md");
        t
    }
}

/// The marker note of the `n`th folder tried for a new folder:
/// `New folder/.keep.md`, then `New folder 1/.keep.md` and so on.
pub open spec fn folder_marker_name(n: nat) -> Seq<char> {
    (if n == 0 {
        "New folder"@
    } else {
        "New folder "@ + decimal(n)
    }) + "/.keep.md"@
}

/// The marker note of the `n`th folder tried for a new folder.
pub fn new_folder_marker(n: usize) -> (r: String)
    ensures
        r@ == folder_marker_name(n as nat),
{
    let mut t = if n == 0 {
        "New folder".to_owned()
    } else {
        let mut t = "New folder ".to_owned();
        let d = decimal_string(n);
        t.append(d.as_str());
        t
    };
    t.append("/.keep.md");
    t
}

/// The folder part of a vault path: what comes before its last `/`, empty at the top.
pub open spec fn parent_of(p: Seq<char>) -> Seq<char> {
    match rfind_seq(p, seq!['/']) {
        Some(k) => p.take(k),
        None => Seq::empty(),
    }
}

/// `base` joined with the relative `name` as `Path::join` joins them: a `/`
/// goes between the two unless `base` is empty or already ends with one.
pub open spec fn join_spec(base: Seq<char>, name: Seq<char>) -> Seq<char> {
    if base.len() == 0 {
        name
    } else if base.last() == '/' {
        base + name
    } else {
        base + seq!['/'] + name
    }
}

/// Whether `name` names exactly one normal path part (as `Path::components`
/// splits it): a valid relative path with one part, not spelled from `./`.
pub open spec fn single_name(name: Seq<char>) -> bool {
    &&& spec_vault_path(name) is Some
    &&& !spec_vault_path(name)->0.contains('/')
    &&& !starts_with(name, seq!['.', '/'])
}

/// Whether `name` names exactly one normal path part.
pub fn is_single_name(name: &str) -> (b: bool)
    ensures
        b == single_name(name@),
{
    let v = match VaultPath::new(name) {
        Ok(v) => v,
        Err(_) => return false,
    };
    let vs = chars_of(v.as_path());
    proof {
        assert(spec_vault_path(name@) == Some(v@));
    }
    let mut i: usize = 0;
    while i < vs.len()
        invariant
            spec_vault_path(name@) == Some(v@),
            i <= vs@.len(),
            vs@ == v@,
            forall|j: int| 0 <= j < i ==> vs@[j] != '/',
        decreases vs@.len() - i,
    {
        if vs[i] == '/' {
            proof {
                assert(v@.contains('/')) by {
                    assert(v@[i as int] == '/');
                }
            }
            return false;
        }
        i = i + 1;
    }
    let cs = chars_of(name);
    let dot_slash = vec!['.', '/'];
    proof {
        assert(dot_slash@ =~= seq!['.', '/']);
        assert(cs@.subrange(0, cs@.len() as int) =~= cs@);
    }
    !region_starts_with(&cs, 0, cs.len(), &dot_slash)
}

fn join_text(base: &Vec<char>, a: usize, b: usize, name: &str) -> (r: String)
    requires
        a <= b <= base@.len(),
    ensures
        r@ == join_spec(base@.subrange(a as int, b as int), name@),
{
    let mut t = string_of(base, a, b);
    if a < b && base[b - 1] != '/' {
        proof {
            reveal_strlit("/");
        }
        t.append("/");
        proof {
            assert("/"@ =~= seq!['/']);
        }
    }
    t.append(name);
    proof {
        if a == b {
            assert(t@ =~= name@);
        }
    }
    t
}

fn opt_path(r: Result<VaultPath, crate::vault::CoreError>) -> (o: Option<VaultPath>)
    ensures
        r matches Ok(v) ==> o matches Some(w) && w@ == v@,
        r is Err ==> o is None,
{
    match r {
        Ok(v) => Some(v),
        Err(_) => None,
    }
}

/// Where renaming `from` to `name` moves it: `name` inside the folder of
/// `from`; `None` when that is no valid vault path.
pub fn rename_target(from: &VaultPath, name: &str) -> (r: Option<VaultPath>)
    ensures
        match spec_vault_path(join_spec(parent_of(from@), name@)) {
            Some(n) => r matches Some(v) && v@ == n,
            None => r is None,
        },
{
    let cs = chars_of(from.as_path());
    let slash = vec!['/'];
    proof {
        assert(slash@ =~= seq!['/']);
    }
    let end = match rfind_chars(&cs, &slash) {
        Some(k) => {
            proof {
                assert(cs@.skip(k as int).take(1) == slash@);
                assert(cs@.skip(k as int).len() >= 1);
            }
            k
        },
        None => 0,
    };
    proof {
        assert(cs@.subrange(0, end as int) =~= parent_of(from@));
    }
    let joined = join_text(&cs, 0, end, name);
    opt_path(VaultPath::new(joined.as_str()))
}

/// Where moving or copying `from` into the folder `destination` puts it: its
/// last part inside `destination`; `None` when that is no valid vault path.
pub fn transfer_target(from: &VaultPath, destination: &str) -> (r: Option<VaultPath>)
    ensures
        match spec_vault_path(join_spec(destination@, last_component(from@))) {
            Some(n) => r matches Some(v) && v@ == n,
            None => r is None,
        },
{
    let cs = chars_of(from.as_path());
    let slash = vec!['/'];
    proof {
        assert(slash@ =~= seq!['/']);
    }
    let n = cs.len();
    let start = match rfind_chars(&cs, &slash) {
        Some(k) => {
            proof {
                assert(cs@.skip(k as int).take(1) == slash@);
                assert(cs@.skip(k as int).len() >= 1);
                assert(k < n);
            }
            k + 1
        },
        None => 0,
    };
    let name = string_of(&cs, start, n);
    proof {
        assert(cs@.subrange(start as int, cs@.len() as int) =~= last_component(from@));
    }
    let ds = chars_of(destination);
    let joined = join_text(&ds, 0, ds.len(), name.as_str());
    proof {
        assert(ds@.subrange(0, ds@.len() as int) =~= destination@);
    }
    opt_path(VaultPath::new(joined.as_str()))
}

/// Whether a change to a file may go ahead.
#[derive(Clone, Copy, Debug, PartialEq, Eq, Structural)]
pub enum MutationCheck {
    Allowed,
    /// The file is the open document and has unsaved changes.
    UnsavedChanges,
    /// No vault is open.
    NoVault,
}

/// Whether `target` may be renamed, moved or deleted: not while it is the open
/// document with unsaved changes, and only with a vault open.
pub fn mutation_check(open: Option<&VaultPath>, target: &VaultPath, dirty: bool, has_vault: bool) -> (r: MutationCheck)
    ensures
        r == (if open matches Some(p) && p@ == target@ && dirty {
            MutationCheck::UnsavedChanges
        } else if !has_vault {
            MutationCheck::NoVault
        } else {
            MutationCheck::Allowed
        }),
{
    let same = match open {
        Some(p) => str_eq(p.as_path(), target.as_path()),
        None => false,
    };
    if same && dirty {
        MutationCheck::UnsavedChanges
    } else if !has_vault {
        MutationCheck::NoVault
    } else {
        MutationCheck::Allowed
    }
}

} // verus!
