//! The mathematical model of the task graph: the derived dependency
//! relation, output collisions, cycles, schedules, and staleness against a
//! filesystem of modification times.

use vstd::prelude::*;
use crate::paths::covers;
use crate::task::TaskView;

verus! {

/// Task `x` depends on task `y`: some input path of `x` equals, or lies
/// under, some output path of `y`.
pub open spec fn task_depends(tasks: Seq<TaskView>, x: int, y: int) -> bool {
    &&& 0 <= x < tasks.len()
    &&& 0 <= y < tasks.len()
    &&& x != y
    &&& exists|i: int, o: int|
        0 <= i < tasks[x].inputs.len() && 0 <= o < tasks[y].outputs.len() && #[trigger] covers(
            tasks[y].outputs[o],
            tasks[x].inputs[i],
        )
}

/// The distinct tasks `x` and `y` declare a common output path.
pub open spec fn output_clash(tasks: Seq<TaskView>, x: int, y: int) -> bool {
    exists|a: int, b: int|
        0 <= a < tasks[x].outputs.len() && 0 <= b < tasks[y].outputs.len()
            && #[trigger] tasks[x].outputs[a] == #[trigger] tasks[y].outputs[b]
}

/// Some output path is declared by two tasks.
pub open spec fn has_duplicate_output(tasks: Seq<TaskView>) -> bool {
    exists|x: int, y: int| 0 <= x < y < tasks.len() && #[trigger] output_clash(tasks, x, y)
}

/// The path `p` witnesses an output collision.
pub open spec fn duplicated_output(tasks: Seq<TaskView>, p: Seq<char>) -> bool {
    exists|x: int, y: int, a: int, b: int|
        0 <= x < y < tasks.len() && 0 <= a < tasks[x].outputs.len() && 0 <= b
            < tasks[y].outputs.len() && #[trigger] tasks[x].outputs[a] == p
            && #[trigger] tasks[y].outputs[b] == p
}

/// A nonempty set of tasks each of which depends on another member: the
/// witness of a dependency cycle in a finite graph.
pub open spec fn cycle_witness(tasks: Seq<TaskView>, s: Set<int>) -> bool {
    &&& exists|x: int| s.contains(x)
    &&& forall|x: int| #[trigger] s.contains(x) ==> 0 <= x < tasks.len()
    &&& forall|x: int| #[trigger]
        s.contains(x) ==> exists|y: int| s.contains(y) && #[trigger] task_depends(tasks, x, y)
}

/// The derived dependency relation has a cycle.
pub open spec fn has_cycle(tasks: Seq<TaskView>) -> bool {
    exists|s: Set<int>| #[trigger] cycle_witness(tasks, s)
}

/// The task index `x` appears in the order.
pub open spec fn scheduled(order: Seq<usize>, x: int) -> bool {
    exists|k: int| 0 <= k < order.len() && order[k] == x
}

/// `order` lists every task exactly once, and every task after all tasks
/// it depends on.
pub open spec fn valid_schedule(tasks: Seq<TaskView>, order: Seq<usize>) -> bool {
    &&& forall|k: int| 0 <= k < order.len() ==> #[trigger] order[k] < tasks.len()
    &&& forall|k1: int, k2: int|
        0 <= k1 < k2 < order.len() ==> #[trigger] order[k1] != #[trigger] order[k2]
    &&& forall|x: int| 0 <= x < tasks.len() ==> #[trigger] scheduled(order, x)
    &&& forall|a: int, b: int|
        0 <= a < order.len() && 0 <= b < order.len() && #[trigger] task_depends(
            tasks,
            order[a] as int,
            order[b] as int,
        ) ==> b < a
}

/// Below `k`, no position of `order` lands in `s`; `m` does.
proof fn lemma_min_position_in_set(tasks: Seq<TaskView>, order: Seq<usize>, s: Set<int>, k: int)
    requires
        0 <= k < order.len(),
        s.contains(order[k] as int),
    ensures
        exists|m: int|
            0 <= m <= k && s.contains(#[trigger] order[m] as int) && forall|j: int|
                0 <= j < m ==> !s.contains(#[trigger] order[j] as int),
    decreases k,
{
    if exists|j: int| 0 <= j < k && s.contains(#[trigger] order[j] as int) {
        let j = choose|j: int| 0 <= j < k && s.contains(#[trigger] order[j] as int);
        lemma_min_position_in_set(tasks, order, s, j);
    } else {
        assert(0 <= k <= k && s.contains(order[k] as int) && forall|j: int|
            0 <= j < k ==> !s.contains(#[trigger] order[j] as int));
    }
}

/// A graph that admits a valid schedule has no dependency cycle.
pub proof fn lemma_valid_schedule_acyclic(tasks: Seq<TaskView>, order: Seq<usize>)
    requires
        valid_schedule(tasks, order),
    ensures
        !has_cycle(tasks),
{
    if has_cycle(tasks) {
        let s = choose|s: Set<int>| #[trigger] cycle_witness(tasks, s);
        let x0 = choose|x: int| s.contains(x);
        assert(scheduled(order, x0));
        let k0 = choose|k: int| 0 <= k < order.len() && order[k] == x0;
        lemma_min_position_in_set(tasks, order, s, k0);
        let m = choose|m: int|
            0 <= m <= k0 && s.contains(#[trigger] order[m] as int) && forall|j: int|
                0 <= j < m ==> !s.contains(#[trigger] order[j] as int);
        let x = order[m] as int;
        let y = choose|y: int| s.contains(y) && #[trigger] task_depends(tasks, x, y);
        assert(scheduled(order, y));
        let ky = choose|k: int| 0 <= k < order.len() && order[k] == y;
        assert(task_depends(tasks, order[m] as int, order[ky] as int));
        assert(ky < m);
        assert(!s.contains(order[ky] as int));
    }
}

/// A sequence of distinct values below `n` has at most `n` members.
pub proof fn lemma_distinct_bounded(order: Seq<usize>, n: nat)
    requires
        forall|k1: int, k2: int|
            0 <= k1 < k2 < order.len() ==> #[trigger] order[k1] != #[trigger] order[k2],
        forall|k: int| 0 <= k < order.len() ==> #[trigger] order[k] < n,
    ensures
        order.len() <= n,
{
    let iorder = Seq::new(order.len(), |i: int| order[i] as int);
    assert(iorder.no_duplicates());
    iorder.unique_seq_to_set();
    let bound = vstd::set_lib::set_int_range(0, n as int);
    vstd::set_lib::lemma_int_range(0, n as int);
    assert(iorder.to_set().subset_of(bound));
    vstd::set_lib::lemma_len_subset(iorder.to_set(), bound);
}

/// The invariant of the scheduling passes: `order` holds distinct valid
/// task indices, a task is marked done exactly when it is in `order`, and
/// every dependency of an ordered task appears earlier in the order.
pub open spec fn kahn_inv(tasks: Seq<TaskView>, done: Seq<bool>, order: Seq<usize>) -> bool {
    &&& done.len() == tasks.len()
    &&& forall|k: int| 0 <= k < order.len() ==> #[trigger] order[k] < tasks.len()
    &&& forall|k1: int, k2: int|
        0 <= k1 < k2 < order.len() ==> #[trigger] order[k1] != #[trigger] order[k2]
    &&& forall|t: int| 0 <= t < tasks.len() ==> (#[trigger] done[t] <==> scheduled(order, t))
    &&& forall|a: int, y: int|
        0 <= a < order.len() && #[trigger] task_depends(tasks, order[a] as int, y) ==> exists|
            k: int,
        |
            0 <= k < a && order[k] == y
}

/// Marking a not-yet-done task whose dependencies are all done keeps the
/// scheduling invariant.
pub proof fn lemma_kahn_push(tasks: Seq<TaskView>, done: Seq<bool>, order: Seq<usize>, t: usize)
    requires
        kahn_inv(tasks, done, order),
        t < tasks.len(),
        !done[t as int],
        forall|y: int| #[trigger] task_depends(tasks, t as int, y) ==> done[y],
    ensures
        kahn_inv(tasks, done.update(t as int, true), order.push(t)),
        order.push(t).len() <= tasks.len(),
{
    let done1 = done.update(t as int, true);
    let order1 = order.push(t);
    assert forall|t0: int| 0 <= t0 < tasks.len() implies (#[trigger] done1[t0] <==> scheduled(
        order1,
        t0,
    )) by {
        if t0 == t {
            assert(order1[order.len() as int] == t);
            assert(scheduled(order1, t0));
        } else {
            if scheduled(order, t0) {
                let k = choose|k: int| 0 <= k < order.len() && order[k] == t0;
                assert(order1[k] == t0);
            }
            if scheduled(order1, t0) {
                let k = choose|k: int| 0 <= k < order1.len() && order1[k] == t0;
                assert(k < order.len() && order[k] == t0);
            }
        }
    }
    assert forall|a: int, y: int|
        0 <= a < order1.len() && #[trigger] task_depends(tasks, order1[a] as int, y) implies exists|
        k: int,
    | 0 <= k < a && order1[k] == y by {
        if a < order.len() {
            assert(order1[a] == order[a]);
            let k = choose|k: int| 0 <= k < a && order[k] == y;
            assert(order1[k] == y);
        } else {
            assert(order1[a] == t);
            assert(done[y]);
            assert(scheduled(order, y));
            let k = choose|k: int| 0 <= k < order.len() && order[k] == y;
            assert(order1[k] == y);
        }
    }
    lemma_distinct_bounded(order1, tasks.len());
}

/// When every task is marked done, the order is a valid schedule and the
/// graph is acyclic.
pub proof fn lemma_kahn_complete(tasks: Seq<TaskView>, done: Seq<bool>, order: Seq<usize>)
    requires
        kahn_inv(tasks, done, order),
        forall|t: int| 0 <= t < tasks.len() ==> #[trigger] done[t],
    ensures
        valid_schedule(tasks, order),
        !has_cycle(tasks),
{
    assert forall|a: int, b: int|
        0 <= a < order.len() && 0 <= b < order.len() && #[trigger] task_depends(
            tasks,
            order[a] as int,
            order[b] as int,
        ) implies b < a by {
        let k = choose|k: int| 0 <= k < a && order[k] == order[b] as int;
        if k < b {
            assert(order[k] != order[b]);
        } else if k > b {
            assert(order[b] != order[k]);
        }
    }
    assert forall|x: int| 0 <= x < tasks.len() implies #[trigger] scheduled(order, x) by {
        assert(done[x]);
    }
    lemma_valid_schedule_acyclic(tasks, order);
}

/// When some task is not done and every not-done task has a not-done
/// dependency, the not-done tasks witness a cycle.
#[verifier::rlimit(50)]
pub proof fn lemma_kahn_stuck(tasks: Seq<TaskView>, done: Seq<bool>, order: Seq<usize>)
    requires
        kahn_inv(tasks, done, order),
        exists|t: int| 0 <= t < tasks.len() && !#[trigger] done[t],
        forall|t: int|
            0 <= t < tasks.len() && !#[trigger] done[t] ==> exists|y: int| #[trigger]
                task_depends(tasks, t, y) && !done[y],
    ensures
        has_cycle(tasks),
{
    let s = Set::new(|q: int| 0 <= q < tasks.len() && !done[q]);
    let q0 = choose|t: int| 0 <= t < tasks.len() && !#[trigger] done[t];
    assert(s.contains(q0));
    assert forall|q: int| #[trigger] s.contains(q) implies exists|y: int|
        s.contains(y) && #[trigger] task_depends(tasks, q, y) by {
        let y = choose|y: int| #[trigger] task_depends(tasks, q, y) && !done[y];
        assert(s.contains(y) && task_depends(tasks, q, y));
    }
    assert(cycle_witness(tasks, s));
}

/// The newest modification time among the filesystem entries at or under
/// the path `p`, if any entry is there.  An entry is a path paired with
/// its modification time; a directory's time is its newest member's.
pub open spec fn fs_newest(fs: Seq<(Seq<char>, int)>, p: Seq<char>) -> Option<int>
    decreases fs.len(),
{
    if fs.len() == 0 {
        None
    } else {
        let rest = fs_newest(fs.drop_last(), p);
        if covers(p, fs.last().0) {
            match rest {
                Option::None => Some(fs.last().1),
                Option::Some(m) => if fs.last().1 > m {
                    Some(fs.last().1)
                } else {
                    Some(m)
                },
            }
        } else {
            rest
        }
    }
}

/// Something exists at or under the path `p`.
pub open spec fn fs_present(fs: Seq<(Seq<char>, int)>, p: Seq<char>) -> bool {
    fs_newest(fs, p) is Some
}

/// The task must run: it declares no outputs, an output is missing, or
/// some input is strictly newer than some output.
pub open spec fn task_stale(t: TaskView, fs: Seq<(Seq<char>, int)>) -> bool {
    ||| t.outputs.len() == 0
    ||| exists|j: int| 0 <= j < t.outputs.len() && #[trigger] fs_newest(fs, t.outputs[j]) is None
    ||| exists|i: int, j: int|
        0 <= i < t.inputs.len() && 0 <= j < t.outputs.len() && match (
            #[trigger] fs_newest(fs, t.inputs[i]),
            #[trigger] fs_newest(fs, t.outputs[j]),
        ) {
            (Option::Some(mi), Option::Some(mo)) => mi > mo,
            _ => false,
        }
}

} // verus!
