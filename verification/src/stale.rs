//! Staleness of a task against a snapshot of filesystem metadata.
//!
//! The driver stats the paths a task declares (walking directories to
//! their members) and hands the engine a [`FsView`]: a list of paths with
//! their modification times.  The staleness decision itself is verified
//! against [`crate::model::task_stale`].

use vstd::prelude::*;
use crate::model::{fs_newest, task_stale};
use crate::paths::path_covers;
use crate::task::Task;

verus! {

/// One known file or directory and its last-modification time.
pub struct FsEntry {
    pub path: String,
    pub mtime: u64,
}

impl View for FsEntry {
    type V = (Seq<char>, int);

    open spec fn view(&self) -> (Seq<char>, int) {
        (self.path@, self.mtime as int)
    }
}

impl DeepView for FsEntry {
    type V = (Seq<char>, int);

    open spec fn deep_view(&self) -> (Seq<char>, int) {
        self.view()
    }
}

/// A snapshot of every path the engine may ask about.
pub struct FsView {
    pub entries: Vec<FsEntry>,
}

impl FsView {
    /// The snapshot as a sequence of path/time pairs.
    pub open spec fn model(&self) -> Seq<(Seq<char>, int)> {
        self.entries.deep_view()
    }

    /// An empty snapshot.
    pub fn new() -> (r: FsView)
        ensures
            r.model() =~= Seq::<(Seq<char>, int)>::empty(),
    {
        FsView { entries: Vec::new() }
    }

    /// Record that `path` was last modified at `mtime`.
    pub fn record(&mut self, path: String, mtime: u64)
        ensures
            final(self).model() =~= old(self).model().push((path@, mtime as int)),
    {
        self.entries.push(FsEntry { path, mtime });
    }

    /// The newest modification time at or under `p`, if anything is there.
    pub fn newest(&self, p: &str) -> (r: Option<u64>)
        ensures
            match r {
                Some(m) => fs_newest(self.model(), p@) == Some(m as int),
                None => fs_newest(self.model(), p@) is None,
            },
    {
        let mut best: Option<u64> = None;
        let mut i: usize = 0;
        while i < self.entries.len()
            invariant
                i <= self.entries@.len(),
                match best {
                    Some(m) => fs_newest(self.model().subrange(0, i as int), p@) == Some(m as int),
                    None => fs_newest(self.model().subrange(0, i as int), p@) is None,
                },
            decreases self.entries@.len() - i,
        {
            proof {
                assert(self.model().subrange(0, i + 1).drop_last() =~= self.model().subrange(
                    0,
                    i as int,
                ));
                assert(self.model().subrange(0, i + 1).last() == self.model()[i as int]);
            }
            if path_covers(p, self.entries[i].path.as_str()) {
                let m = self.entries[i].mtime;
                best = match best {
                    Some(b) => if m > b {
                        Some(m)
                    } else {
                        Some(b)
                    },
                    None => Some(m),
                };
            }
            i += 1;
        }
        proof {
            assert(self.model().subrange(0, self.entries@.len() as int) =~= self.model());
        }
        best
    }
}

/// Whether the task must run against the given snapshot: it declares no
/// outputs, an output is missing, or some input is strictly newer than
/// some output.
pub fn is_stale(task: &Task, fs: &FsView) -> (r: bool)
    ensures
        r == task_stale(task@, fs.model()),
{
    if task.outputs.len() == 0 {
        return true;
    }
    let mut j: usize = 0;
    while j < task.outputs.len()
        invariant
            forall|j0: int|
                0 <= j0 < j ==> #[trigger] fs_newest(fs.model(), task@.outputs[j0]) is Some,
            j <= task.outputs@.len(),
        decreases task.outputs@.len() - j,
    {
        if fs.newest(task.outputs[j].as_str()).is_none() {
            assert(fs_newest(fs.model(), task@.outputs[j as int]) is None);
            return true;
        }
        j += 1;
    }
    let mut i: usize = 0;
    while i < task.inputs.len()
        invariant
            i <= task.inputs@.len(),
            forall|j0: int|
                0 <= j0 < task@.outputs.len() ==> #[trigger] fs_newest(
                    fs.model(),
                    task@.outputs[j0],
                ) is Some,
            forall|i0: int, j0: int|
                0 <= i0 < i && 0 <= j0 < task@.outputs.len() ==> !match (
                    #[trigger] fs_newest(fs.model(), task@.inputs[i0]),
                    #[trigger] fs_newest(fs.model(), task@.outputs[j0]),
                ) {
                    (Option::Some(mi), Option::Some(mo)) => mi > mo,
                    _ => false,
                },
        decreases task.inputs@.len() - i,
    {
        if let Some(mi) = fs.newest(task.inputs[i].as_str()) {
            let mut j2: usize = 0;
            while j2 < task.outputs.len()
                invariant
                    i < task.inputs@.len(),
                    j2 <= task.outputs@.len(),
                    fs_newest(fs.model(), task@.inputs[i as int]) == Some(mi as int),
                    forall|j0: int|
                        0 <= j0 < task@.outputs.len() ==> #[trigger] fs_newest(
                            fs.model(),
                            task@.outputs[j0],
                        ) is Some,
                    forall|j0: int|
                        0 <= j0 < j2 ==> !match (
                            fs_newest(fs.model(), task@.inputs[i as int]),
                            #[trigger] fs_newest(fs.model(), task@.outputs[j0]),
                        ) {
                            (Option::Some(a), Option::Some(b)) => a > b,
                            _ => false,
                        },
                decreases task.outputs@.len() - j2,
            {
                if let Some(mo) = fs.newest(task.outputs[j2].as_str()) {
                    if mi > mo {
                        assert(match (
                            fs_newest(fs.model(), task@.inputs[i as int]),
                            fs_newest(fs.model(), task@.outputs[j2 as int]),
                        ) {
                            (Option::Some(a), Option::Some(b)) => a > b,
                            _ => false,
                        });
                        return true;
                    }
                }
                j2 += 1;
            }
        }
        i += 1;
    }
    false
}

} // verus!
