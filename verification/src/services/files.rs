//! Path safety checks and a queue of file-recovery jobs.
use vstd::prelude::*;
use std::collections::VecDeque;
use crate::text::chars_of;

verus! {

#[derive(Clone, Debug, PartialEq, Eq)]
pub struct RecoveryJob {
    pub path: String,
    pub attempts: u32,
}

#[derive(Clone, Copy, Debug, PartialEq, Eq, Structural)]
pub enum RecoveryState {
    Pending,
    Running,
    Recovered,
    Failed,
}

#[derive(Clone, Copy, Debug, PartialEq, Eq, Structural)]
pub enum PathError {
    Empty,
    Traversal,
}

/// Whether a Unix path is absolute: it begins at the root.
pub open spec fn spec_is_absolute(p: Seq<char>) -> bool {
    p.len() > 0 && p[0] == '/'
}

/// Whether a Unix path has a `..` component: a `..` bounded by separators or the ends.
pub open spec fn spec_has_parent_component(p: Seq<char>) -> bool {
    exists|a: int|
        0 <= a && a + 2 <= p.len() && #[trigger] p[a] == '.' && p[a + 1] == '.'
            && (a == 0 || p[a - 1] == '/') && (a + 2 == p.len() || p[a + 2] == '/')
}

/// Whether `path` is absolute, as `Path::is_absolute` tells on Unix: it
/// starts at the root `/`.
fn is_absolute(path: &str) -> (b: bool)
    ensures
        b == spec_is_absolute(path@),
{
    let cs = chars_of(path);
    cs.len() > 0 && cs[0] == '/'
}

/// Whether some `/`-separated part of `path` is exactly `..`, the parts that
/// `Path::components` reports as `ParentDir` on Unix.
fn has_parent_component(path: &str) -> (b: bool)
    ensures
        b == spec_has_parent_component(path@),
{
    let cs = chars_of(path);
    let n = cs.len();
    let mut a: usize = 0;
    while a < n && n - a >= 2
        invariant
            a <= n,
            n == cs@.len(),
            cs@ == path@,
            forall|j: int|
                0 <= j < a && j + 2 <= n && #[trigger] cs@[j] == '.' && cs@[j + 1] == '.' && (j == 0 || cs@[j - 1] == '/')
                    ==> !(j + 2 == n || cs@[j + 2] == '/'),
        decreases n - a,
    {
        if cs[a] == '.' && cs[a + 1] == '.' && (a == 0 || cs[a - 1] == '/') && (a + 2 == n || cs[a + 2] == '/') {
            proof {
                assert(path@[a as int] == '.');
            }
            return true;
        }
        a = a + 1;
    }
    proof {
        assert forall|j: int|
            0 <= j && j + 2 <= path@.len() && #[trigger] path@[j] == '.' && path@[j + 1] == '.' && (j == 0 || path@[j - 1] == '/')
                implies !(j + 2 == path@.len() || path@[j + 2] == '/') by {
            assert(cs@[j] == '.');
        }
    }
    false
}

/// The outcome of checking that `path` is a non-empty relative path without `..`.
pub open spec fn spec_safe_relative(p: Seq<char>) -> Result<(), PathError> {
    if spec_is_absolute(p) || spec_has_parent_component(p) {
        Err(PathError::Traversal)
    } else if p.len() == 0 {
        Err(PathError::Empty)
    } else {
        Ok(())
    }
}

/// Rejects absolute paths and paths that climb with `..`, then empty paths.
pub fn safe_relative(path: &str) -> (r: Result<(), PathError>)
    ensures
        r == spec_safe_relative(path@),
{
    if is_absolute(path) || has_parent_component(path) {
        Err(PathError::Traversal)
    } else if path.is_empty() {
        Err(PathError::Empty)
    } else {
        Ok(())
    }
}

/// A first-in, first-out queue of recovery jobs for safe relative paths.
pub struct RecoveryScheduler {
    queue: VecDeque<RecoveryJob>,
}

impl View for RecoveryScheduler {
    type V = Seq<RecoveryJob>;

    closed spec fn view(&self) -> Seq<RecoveryJob> {
        self.queue@
    }
}

impl Default for RecoveryScheduler {
    fn default() -> (s: Self)
        ensures
            s@ == Seq::<RecoveryJob>::empty(),
    {
        Self::new()
    }
}

impl RecoveryScheduler {
    pub fn new() -> (s: Self)
        ensures
            s@ == Seq::<RecoveryJob>::empty(),
    {
        RecoveryScheduler { queue: VecDeque::new() }
    }

    /// Queues the job when its path is safe; otherwise leaves the queue unchanged.
    pub fn schedule(&mut self, job: RecoveryJob) -> (r: Result<(), PathError>)
        ensures
            r == spec_safe_relative(job.path@),
            r is Ok ==> final(self)@ == old(self)@.push(job),
            r is Err ==> final(self)@ == old(self)@,
    {
        match safe_relative(job.path.as_str()) {
            Err(e) => Err(e),
            Ok(()) => {
                self.queue.push_back(job);
                Ok(())
            },
        }
    }

    /// Removes and returns the oldest job.
    pub fn pop(&mut self) -> (r: Option<RecoveryJob>)
        ensures
            old(self)@.len() == 0 ==> r is None && final(self)@ == old(self)@,
            old(self)@.len() > 0 ==> r == Some(old(self)@[0]) && final(self)@ == old(self)@.drop_first(),
    {
        self.queue.pop_front()
    }
}

} // verus!
