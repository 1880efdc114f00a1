//! The per-task state machine of one run and the dispatch policy.
//!
//! Each task moves `Pending -> Fresh` (skipped because it is not stale) or
//! `Pending -> Running -> Succeeded | Failed`.  The driver repeatedly asks
//! [`RunState::pick_next`] for a task to consider; once any task has
//! failed, nothing further is dispatched — tasks already running may
//! settle, but no new one starts — and the run's outcome is failure.

use vstd::prelude::*;
use crate::executor::Executor;
use crate::model::task_depends;
use crate::task::TaskView;

verus! {

/// The state of one task within a run.
#[derive(Clone, Copy, PartialEq, Eq, Structural, Debug)]
pub enum TaskStatus {
    /// Not considered yet.
    Pending,
    /// Dispatched; its command has not settled.
    Running,
    /// Skipped: it was not stale.
    Fresh,
    /// Its command exited with status zero.
    Succeeded,
    /// Its command exited with a non-zero status.
    Failed,
}

/// The status a settled dependency must have before a dependent may start.
pub open spec fn dep_met(s: TaskStatus) -> bool {
    s is Fresh || s is Succeeded
}

/// Every task that `x` depends on has settled successfully.
pub open spec fn deps_met(tasks: Seq<TaskView>, status: Seq<TaskStatus>, x: int) -> bool {
    forall|y: int| #[trigger] task_depends(tasks, x, y) ==> dep_met(status[y])
}

/// Some task has failed.
pub open spec fn any_failed(status: Seq<TaskStatus>) -> bool {
    exists|j: int| 0 <= j < status.len() && #[trigger] status[j] is Failed
}

/// `x` may be dispatched: it is pending and its dependencies have settled
/// successfully.
pub open spec fn ready(tasks: Seq<TaskView>, status: Seq<TaskStatus>, x: int) -> bool {
    0 <= x < status.len() && status[x] is Pending && deps_met(tasks, status, x)
}

/// The first ready task at or after position `k` of the order.
pub open spec fn first_ready_from(
    tasks: Seq<TaskView>,
    status: Seq<TaskStatus>,
    order: Seq<usize>,
    k: int,
) -> Option<usize>
    decreases order.len() - k when 0 <= k <= order.len()
{
    if k < 0 || k >= order.len() {
        None
    } else if ready(tasks, status, order[k] as int) {
        Some(order[k])
    } else {
        first_ready_from(tasks, status, order, k + 1)
    }
}

/// The dispatch policy: nothing once any task has failed, otherwise the
/// first ready task of the order.
pub open spec fn dispatch_choice(
    tasks: Seq<TaskView>,
    status: Seq<TaskStatus>,
    order: Seq<usize>,
) -> Option<usize> {
    if any_failed(status) {
        None
    } else {
        first_ready_from(tasks, status, order, 0)
    }
}

/// Once a task has failed, the dispatch policy starts nothing further,
/// whatever the graph, the order and the other tasks' states.
pub proof fn lemma_failure_halts_dispatch(
    tasks: Seq<TaskView>,
    status: Seq<TaskStatus>,
    order: Seq<usize>,
)
    requires
        any_failed(status),
    ensures
        dispatch_choice(tasks, status, order) is None,
{
}

/// The completion states of one run.
pub struct RunState {
    pub status: Vec<TaskStatus>,
}

impl RunState {
    /// The statuses as a sequence.
    pub open spec fn statuses(&self) -> Seq<TaskStatus> {
        self.status@
    }

    /// A run in which every one of the `n` tasks is pending.
    pub fn new(n: usize) -> (r: RunState)
        ensures
            r.statuses().len() == n,
            forall|j: int| 0 <= j < n ==> #[trigger] r.statuses()[j] is Pending,
    {
        let mut status: Vec<TaskStatus> = Vec::new();
        let mut i: usize = 0;
        while i < n
            invariant
                i <= n,
                status@.len() == i,
                forall|j: int| 0 <= j < i ==> #[trigger] status@[j] is Pending,
            decreases n - i,
        {
            status.push(TaskStatus::Pending);
            i += 1;
        }
        RunState { status }
    }

    /// Every task that `x` depends on has settled successfully.
    fn deps_met_exec(&self, exec: &Executor, x: usize) -> (r: bool)
        requires
            self.status@.len() == exec.tasks@.len(),
            x < exec.tasks@.len(),
        ensures
            r == deps_met(exec.tasks_spec(), self.statuses(), x as int),
    {
        let n = self.status.len();
        let mut y: usize = 0;
        while y < n
            invariant
                self.status@.len() == exec.tasks@.len(),
                x < exec.tasks@.len(),
                n == self.status@.len(),
                y <= n,
                forall|y0: int| #[trigger]
                    task_depends(exec.tasks_spec(), x as int, y0) && y0 < y ==> dep_met(
                        self.statuses()[y0],
                    ),
            decreases n - y,
        {
            let sy = self.status[y];
            let met = match sy {
                TaskStatus::Fresh => true,
                TaskStatus::Succeeded => true,
                _ => false,
            };
            if !met && exec.depends_exec(x, y) {
                return false;
            }
            y += 1;
        }
        true
    }

    /// The task to consider next: `None` once any task has failed or when
    /// no pending task has all its dependencies settled; otherwise the
    /// first ready task in schedule order.
    pub fn pick_next(&self, exec: &Executor, order: &Vec<usize>) -> (r: Option<usize>)
        requires
            self.status@.len() == exec.tasks@.len(),
            forall|k: int| 0 <= k < order@.len() ==> #[trigger] order@[k] < exec.tasks@.len(),
        ensures
            r == dispatch_choice(exec.tasks_spec(), self.statuses(), order@),
    {
        let n = self.status.len();
        let mut j: usize = 0;
        while j < n
            invariant
                n == self.status@.len(),
                j <= n,
                forall|j0: int| 0 <= j0 < j ==> !(#[trigger] self.statuses()[j0] is Failed),
            decreases n - j,
        {
            if matches!(self.status[j], TaskStatus::Failed) {
                assert(any_failed(self.statuses()));
                return None;
            }
            j += 1;
        }
        assert(!any_failed(self.statuses()));
        let mut k: usize = 0;
        while k < order.len()
            invariant
                self.status@.len() == exec.tasks@.len(),
                forall|k0: int| 0 <= k0 < order@.len() ==> #[trigger] order@[k0] < exec.tasks@.len(),
                k <= order@.len(),
                first_ready_from(exec.tasks_spec(), self.statuses(), order@, 0)
                    == first_ready_from(exec.tasks_spec(), self.statuses(), order@, k as int),
                !any_failed(self.statuses()),
            decreases order@.len() - k,
        {
            let x = order[k];
            if matches!(self.status[x], TaskStatus::Pending) {
                if self.deps_met_exec(exec, x) {
                    assert(ready(exec.tasks_spec(), self.statuses(), order@[k as int] as int));
                    return Some(x);
                }
            }
            k += 1;
        }
        None
    }

    /// Record that `x` was dispatched.
    pub fn mark_running(&mut self, x: usize)
        requires
            x < old(self).status@.len(),
        ensures
            final(self).statuses() =~= old(self).statuses().update(
                x as int,
                TaskStatus::Running,
            ),
    {
        self.status.set(x, TaskStatus::Running);
    }

    /// Record that `x` was skipped because it was not stale.
    pub fn mark_fresh(&mut self, x: usize)
        requires
            x < old(self).status@.len(),
        ensures
            final(self).statuses() =~= old(self).statuses().update(x as int, TaskStatus::Fresh),
    {
        self.status.set(x, TaskStatus::Fresh);
    }

    /// Record that the command of `x` exited with status zero.
    pub fn mark_succeeded(&mut self, x: usize)
        requires
            x < old(self).status@.len(),
        ensures
            final(self).statuses() =~= old(self).statuses().update(
                x as int,
                TaskStatus::Succeeded,
            ),
    {
        self.status.set(x, TaskStatus::Succeeded);
    }

    /// Record that the command of `x` exited with a non-zero status.
    pub fn mark_failed(&mut self, x: usize)
        requires
            x < old(self).status@.len(),
        ensures
            final(self).statuses() =~= old(self).statuses().update(x as int, TaskStatus::Failed),
    {
        self.status.set(x, TaskStatus::Failed);
    }

    /// The run's reported outcome: failure exactly when some task failed.
    pub fn run_failed(&self) -> (r: bool)
        ensures
            r == any_failed(self.statuses()),
    {
        let n = self.status.len();
        let mut j: usize = 0;
        while j < n
            invariant
                n == self.status@.len(),
                j <= n,
                forall|j0: int| 0 <= j0 < j ==> !(#[trigger] self.statuses()[j0] is Failed),
            decreases n - j,
        {
            if matches!(self.status[j], TaskStatus::Failed) {
                assert(any_failed(self.statuses()));
                return true;
            }
            j += 1;
        }
        false
    }
}

} // verus!
