//! The task graph and its validation: registration of tasks, detection of
//! output collisions and dependency cycles, and computation of a
//! dependency-respecting schedule.

use vstd::prelude::*;
use crate::model::{
    has_cycle, has_duplicate_output, duplicated_output, kahn_inv, output_clash, scheduled,
    task_depends, valid_schedule,
};
use crate::paths::path_covers;
use crate::task::{ConfigError, Task, TaskView};

verus! {

/// The universe of declared tasks of one build invocation.
pub struct Executor {
    pub tasks: Vec<Task>,
}

impl Executor {
    /// The registered tasks as mathematical values.
    pub open spec fn tasks_spec(&self) -> Seq<TaskView> {
        self.tasks.deep_view()
    }

    /// An executor with no tasks yet.
    pub fn new() -> (r: Executor)
        ensures
            r.tasks_spec() =~= Seq::<TaskView>::empty(),
    {
        Executor { tasks: Vec::new() }
    }

    /// Register one task.  Collisions and cycles are found by
    /// [`Executor::prepare`], before anything executes.
    pub fn add_task_cmd(&mut self, command: String, inputs: Vec<String>, outputs: Vec<String>)
        ensures
            final(self).tasks_spec() =~= old(self).tasks_spec().push(
                TaskView {
                    command: command@,
                    inputs: inputs.deep_view(),
                    outputs: outputs.deep_view(),
                },
            ),
    {
        self.tasks.push(Task { command, inputs, outputs });
    }

    /// Whether task `x` depends on task `y` through the declared paths.
    pub fn depends_exec(&self, x: usize, y: usize) -> (r: bool)
        requires
            x < self.tasks@.len(),
            y < self.tasks@.len(),
        ensures
            r == task_depends(self.tasks_spec(), x as int, y as int),
    {
        if x == y {
            return false;
        }
        let tx = &self.tasks[x];
        let ty = &self.tasks[y];
        let mut i: usize = 0;
        while i < tx.inputs.len()
            invariant
                x < self.tasks@.len(),
                y < self.tasks@.len(),
                x != y,
                tx == self.tasks@[x as int],
                ty == self.tasks@[y as int],
                i <= tx.inputs@.len(),
                forall|i0: int, o0: int|
                    0 <= i0 < i && 0 <= o0 < ty.outputs.deep_view().len()
                        ==> !#[trigger] crate::paths::covers(
                        ty.outputs.deep_view()[o0],
                        tx.inputs.deep_view()[i0],
                    ),
            decreases tx.inputs@.len() - i,
        {
            let mut o: usize = 0;
            while o < ty.outputs.len()
                invariant
                    x < self.tasks@.len(),
                    y < self.tasks@.len(),
                    x != y,
                    tx == self.tasks@[x as int],
                    ty == self.tasks@[y as int],
                    i < tx.inputs@.len(),
                    o <= ty.outputs@.len(),
                    forall|o0: int|
                        0 <= o0 < o ==> !#[trigger] crate::paths::covers(
                            ty.outputs.deep_view()[o0],
                            tx.inputs.deep_view()[i as int],
                        ),
                decreases ty.outputs@.len() - o,
            {
                if path_covers(ty.outputs[o].as_str(), tx.inputs[i].as_str()) {
                    assert(crate::paths::covers(
                        self.tasks_spec()[y as int].outputs[o as int],
                        self.tasks_spec()[x as int].inputs[i as int],
                    ));
                    return true;
                }
                o += 1;
            }
            i += 1;
        }
        false
    }

    /// The first output path that tasks `x` and `y` both declare, if any.
    fn shared_output(&self, x: usize, y: usize) -> (r: Option<String>)
        requires
            x < self.tasks@.len(),
            y < self.tasks@.len(),
        ensures
            match r {
                Some(p) => exists|a: int, b: int|
                    0 <= a < self.tasks_spec()[x as int].outputs.len() && 0 <= b
                        < self.tasks_spec()[y as int].outputs.len()
                        && #[trigger] self.tasks_spec()[x as int].outputs[a] == p@
                        && #[trigger] self.tasks_spec()[y as int].outputs[b] == p@,
                None => !output_clash(self.tasks_spec(), x as int, y as int),
            },
    {
        let tx = &self.tasks[x];
        let ty = &self.tasks[y];
        let mut a: usize = 0;
        while a < tx.outputs.len()
            invariant
                x < self.tasks@.len(),
                y < self.tasks@.len(),
                tx == self.tasks@[x as int],
                ty == self.tasks@[y as int],
                a <= tx.outputs@.len(),
                forall|a0: int, b0: int|
                    0 <= a0 < a && 0 <= b0 < ty.outputs.deep_view().len()
                        ==> #[trigger] tx.outputs.deep_view()[a0]
                        != #[trigger] ty.outputs.deep_view()[b0],
            decreases tx.outputs@.len() - a,
        {
            let mut b: usize = 0;
            while b < ty.outputs.len()
                invariant
                    x < self.tasks@.len(),
                    y < self.tasks@.len(),
                    tx == self.tasks@[x as int],
                    ty == self.tasks@[y as int],
                    a < tx.outputs@.len(),
                    b <= ty.outputs@.len(),
                    forall|b0: int|
                        0 <= b0 < b ==> #[trigger] tx.outputs.deep_view()[a as int]
                            != ty.outputs.deep_view()[b0],
                decreases ty.outputs@.len() - b,
            {
                if crate::paths::str_equal(tx.outputs[a].as_str(), ty.outputs[b].as_str()) {
                    proof {
                        let sy = self.tasks_spec()[y as int];
                        assert(self.tasks_spec()[x as int].outputs[a as int] == sy.outputs[
                            b as int
                        ]);
                    }
                    return Some(self.tasks[x].outputs[a].clone());
                }
                b += 1;
            }
            a += 1;
        }
        None
    }

    /// Every task that `x` depends on is marked done.
    fn deps_done(&self, done: &Vec<bool>, x: usize) -> (r: bool)
        requires
            x < self.tasks@.len(),
            done@.len() == self.tasks@.len(),
        ensures
            r == forall|y: int| #[trigger]
                task_depends(self.tasks_spec(), x as int, y) ==> done@[y],
    {
        let n = self.tasks.len();
        let mut y: usize = 0;
        while y < n
            invariant
                x < self.tasks@.len(),
                done@.len() == self.tasks@.len(),
                n == self.tasks@.len(),
                y <= n,
                forall|y0: int| #[trigger]
                    task_depends(self.tasks_spec(), x as int, y0) && y0 < y ==> done@[y0],
            decreases n - y,
        {
            if !done[y] && self.depends_exec(x, y) {
                return false;
            }
            y += 1;
        }
        true
    }

    /// A path that two distinct tasks both declare as an output, if any.
    fn find_duplicate(&self) -> (r: Option<String>)
        ensures
            match r {
                Some(p) => has_duplicate_output(self.tasks_spec()) && duplicated_output(
                    self.tasks_spec(),
                    p@,
                ),
                None => !has_duplicate_output(self.tasks_spec()),
            },
    {
        let n = self.tasks.len();
        let mut x: usize = 0;
        while x < n
            invariant
                n == self.tasks@.len(),
                x <= n,
                forall|a: int, b: int|
                    0 <= a < b < n && a < x ==> !#[trigger] output_clash(self.tasks_spec(), a, b),
            decreases n - x,
        {
            let mut y: usize = x + 1;
            while y < n
                invariant
                    n == self.tasks@.len(),
                    x < n,
                    x < y <= n,
                    forall|b: int|
                        x < b < y ==> !#[trigger] output_clash(self.tasks_spec(), x as int, b),
                decreases n - y,
            {
                if let Some(p) = self.shared_output(x, y) {
                    proof {
                        let (a, b) = choose|a: int, b: int|
                            0 <= a < self.tasks_spec()[x as int].outputs.len() && 0 <= b
                                < self.tasks_spec()[y as int].outputs.len()
                                && #[trigger] self.tasks_spec()[x as int].outputs[a] == p@
                                && #[trigger] self.tasks_spec()[y as int].outputs[b] == p@;
                        assert(output_clash(self.tasks_spec(), x as int, y as int));
                        assert(duplicated_output(self.tasks_spec(), p@));
                    }
                    return Some(p);
                }
                y += 1;
            }
            x += 1;
        }
        None
    }

    /// One scheduling pass: mark every task whose dependencies are all
    /// marked, keeping the scheduling invariant.
    fn mark_pass(&self, done: &mut Vec<bool>, order: &mut Vec<usize>) -> (progress: bool)
        requires
            kahn_inv(self.tasks_spec(), old(done)@, old(order)@),
        ensures
            kahn_inv(self.tasks_spec(), final(done)@, final(order)@),
            final(order)@.len() <= self.tasks@.len(),
            progress ==> final(order)@.len() > old(order)@.len(),
            !progress ==> final(done)@ == old(done)@ && final(order)@ == old(order)@,
            !progress ==> forall|t0: int|
                0 <= t0 < self.tasks@.len() && !final(done)@[t0] ==> exists|y: int| #[trigger]
                    task_depends(self.tasks_spec(), t0, y) && !final(done)@[y],
    {
        let ghost tv = self.tasks_spec();
        let ghost done0 = done@;
        let ghost order0 = order@;
        let n = self.tasks.len();
        proof {
            crate::model::lemma_distinct_bounded(order@, n as nat);
        }
        let mut progress = false;
        let mut t: usize = 0;
        while t < n
            invariant
                n == self.tasks@.len(),
                tv == self.tasks_spec(),
                t <= n,
                kahn_inv(tv, done@, order@),
                order@.len() <= n,
                progress ==> order@.len() > order0.len(),
                !progress ==> done@ == done0 && order@ == order0,
                !progress ==> forall|t0: int|
                    0 <= t0 < t && !done@[t0] ==> exists|y: int| #[trigger]
                        task_depends(tv, t0, y) && !done@[y],
            decreases n - t,
        {
            if !done[t] {
                if self.deps_done(&done, t) {
                    proof {
                        crate::model::lemma_kahn_push(tv, done@, order@, t);
                    }
                    done.set(t, true);
                    order.push(t);
                    progress = true;
                }
            }
            t += 1;
        }
        progress
    }

    /// Validate the graph and compute an execution order.
    ///
    /// Fails with [`ConfigError::DuplicateOutput`] exactly when two tasks
    /// declare a common output path, with [`ConfigError::CycleDetected`]
    /// exactly when (no output collides and) the derived dependency
    /// relation is cyclic, and otherwise returns a schedule that lists
    /// every task exactly once, after every task it depends on.  Both
    /// errors come before anything executes: no subprocess runs unless
    /// this returned a schedule.
    pub fn prepare(&self) -> (r: Result<Vec<usize>, ConfigError>)
        ensures
            match r {
                Ok(order) => !has_duplicate_output(self.tasks_spec()) && !has_cycle(
                    self.tasks_spec(),
                ) && valid_schedule(self.tasks_spec(), order@),
                Err(ConfigError::DuplicateOutput(p)) => has_duplicate_output(self.tasks_spec())
                    && duplicated_output(self.tasks_spec(), p@),
                Err(ConfigError::CycleDetected) => !has_duplicate_output(self.tasks_spec())
                    && has_cycle(self.tasks_spec()),
                Err(_) => false,
            },
    {
        let ghost tv = self.tasks_spec();
        if let Some(p) = self.find_duplicate() {
            return Err(ConfigError::DuplicateOutput(p));
        }
        let n = self.tasks.len();
        let mut done: Vec<bool> = Vec::new();
        let mut i: usize = 0;
        while i < n
            invariant
                i <= n,
                done@.len() == i,
                forall|k: int| 0 <= k < i ==> !done@[k],
            decreases n - i,
        {
            done.push(false);
            i += 1;
        }
        let mut order: Vec<usize> = Vec::new();
        proof {
            assert forall|t0: int| 0 <= t0 < n implies !scheduled(order@, t0) by {}
            assert(kahn_inv(tv, done@, order@));
        }
        loop
            invariant
                n == self.tasks@.len(),
                tv == self.tasks_spec(),
                !has_duplicate_output(tv),
                kahn_inv(tv, done@, order@),
                order@.len() <= n,
            decreases n - order@.len(),
        {
            let progress = self.mark_pass(&mut done, &mut order);
            if !progress {
                let mut all_done = true;
                let mut t2: usize = 0;
                while t2 < n
                    invariant
                        done@.len() == n,
                        t2 <= n,
                        all_done <==> forall|k: int| 0 <= k < t2 ==> done@[k],
                    decreases n - t2,
                {
                    if !done[t2] {
                        all_done = false;
                    }
                    t2 += 1;
                }
                if all_done {
                    proof {
                        crate::model::lemma_kahn_complete(tv, done@, order@);
                    }
                    return Ok(order);
                } else {
                    proof {
                        crate::model::lemma_kahn_stuck(tv, done@, order@);
                    }
                    return Err(ConfigError::CycleDetected);
                }
            }
        }
    }
}

} // verus!
