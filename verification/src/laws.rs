//! Laws of a whole run.
//!
//! A run is modelled on a filesystem of path/time pairs: executing a task
//! at time `t` sets every entry under its outputs, and the outputs
//! themselves, to `t`; times grow along the run.  Over this model the
//! library proves that a run leaves every task fresh, that a second run
//! against the unchanged result executes nothing, and that touching one
//! input re-executes exactly the touched task and its transitive
//! dependents.

use vstd::prelude::*;
use crate::model::{fs_newest, scheduled, task_depends, task_stale, valid_schedule};
use crate::paths::{covers, lemma_covers_comparable};
use crate::task::TaskView;

verus! {

/// Some path of `outs` covers `q`.
pub open spec fn covered_by_any(outs: Seq<Seq<char>>, q: Seq<char>) -> bool {
    exists|j: int| 0 <= j < outs.len() && #[trigger] covers(outs[j], q)
}

/// The filesystem after a task with output paths `outs` executed at time
/// `t`: every entry under an output is rewritten at `t`, and each output
/// path itself now exists at `t`.
pub open spec fn apply_task(
    fs: Seq<(Seq<char>, int)>,
    outs: Seq<Seq<char>>,
    t: int,
) -> Seq<(Seq<char>, int)> {
    Seq::new(
        fs.len(),
        |i: int| if covered_by_any(outs, fs[i].0) {
            (fs[i].0, t)
        } else {
            fs[i]
        },
    ) + Seq::new(outs.len(), |j: int| (outs[j], t))
}

/// Running the tasks of `order` in turn from time `t`: each task found
/// stale executes and stamps its outputs; fresh tasks leave the
/// filesystem unchanged.  Yields the set of executed task indices and the
/// final filesystem.
pub open spec fn sim_run(
    tasks: Seq<TaskView>,
    order: Seq<usize>,
    fs: Seq<(Seq<char>, int)>,
    t: int,
) -> (Set<int>, Seq<(Seq<char>, int)>)
    decreases order.len(),
{
    if order.len() == 0 {
        (Set::empty(), fs)
    } else {
        let x = order[0] as int;
        if task_stale(tasks[x], fs) {
            let rec = sim_run(
                tasks,
                order.drop_first(),
                apply_task(fs, tasks[x].outputs, t),
                t + 1,
            );
            (rec.0.insert(x), rec.1)
        } else {
            sim_run(tasks, order.drop_first(), fs, t + 1)
        }
    }
}

/// Every recorded time lies strictly below `t`.
pub open spec fn clock_below(fs: Seq<(Seq<char>, int)>, t: int) -> bool {
    forall|i: int| 0 <= i < fs.len() ==> #[trigger] fs[i].1 < t
}

/// No output path of one task covers, or is covered by, an output path
/// of another: outputs have a single owner, even as directories.
pub open spec fn outputs_exclusive(tasks: Seq<TaskView>) -> bool {
    forall|x: int, y: int, a: int, b: int|
        0 <= x < tasks.len() && 0 <= y < tasks.len() && x != y && 0 <= a < tasks[x].outputs.len()
            && 0 <= b < tasks[y].outputs.len() ==> !#[trigger] covers(
            tasks[x].outputs[a],
            tasks[y].outputs[b],
        )
}

/// Whenever another task's output lies inside a declared input directory,
/// the dependency is also visible to the graph: the reading task depends
/// on the writing one.
pub open spec fn inputs_absorb_outputs(tasks: Seq<TaskView>) -> bool {
    forall|x: int, y: int, i: int, o: int|
        0 <= x < tasks.len() && 0 <= y < tasks.len() && x != y && 0 <= i < tasks[x].inputs.len()
            && 0 <= o < tasks[y].outputs.len() && #[trigger] covers(
            tasks[x].inputs[i],
            tasks[y].outputs[o],
        ) ==> task_depends(tasks, x, y)
}

/// Every task declares at least one output.
pub open spec fn all_have_outputs(tasks: Seq<TaskView>) -> bool {
    forall|x: int| 0 <= x < tasks.len() ==> #[trigger] tasks[x].outputs.len() > 0
}

/// A newest time never reaches the clock.
proof fn lemma_newest_below_clock(fs: Seq<(Seq<char>, int)>, t: int, p: Seq<char>)
    requires
        clock_below(fs, t),
    ensures
        match fs_newest(fs, p) {
            Some(m) => m < t,
            None => true,
        },
    decreases fs.len(),
{
    if fs.len() > 0 {
        lemma_newest_below_clock(fs.drop_last(), t, p);
        assert(forall|i: int|
            0 <= i < fs.drop_last().len() ==> #[trigger] fs.drop_last()[i].1 < t);
        assert(fs.last().1 == fs[fs.len() - 1].1);
    }
}

/// The newest time over a concatenation combines the two sides' newest
/// times by the maximum.
proof fn lemma_newest_concat(a: Seq<(Seq<char>, int)>, b: Seq<(Seq<char>, int)>, p: Seq<char>)
    ensures
        fs_newest(a + b, p) == match (fs_newest(a, p), fs_newest(b, p)) {
            (Option::None, Option::None) => Option::<int>::None,
            (Option::Some(x), Option::None) => Some(x),
            (Option::None, Option::Some(y)) => Some(y),
            (Option::Some(x), Option::Some(y)) => if y > x {
                Some(y)
            } else {
                Some(x)
            },
        },
    decreases b.len(),
{
    if b.len() == 0 {
        assert(a + b =~= a);
    } else {
        lemma_newest_concat(a, b.drop_last(), p);
        assert((a + b).drop_last() =~= a + b.drop_last());
        assert((a + b).last() == b.last());
    }
}

/// A sequence none of whose paths lies under `p` contributes nothing to
/// `p`'s newest time.
proof fn lemma_newest_none(entries: Seq<(Seq<char>, int)>, p: Seq<char>)
    requires
        forall|i: int| 0 <= i < entries.len() ==> !covers(p, #[trigger] entries[i].0),
    ensures
        fs_newest(entries, p) is None,
    decreases entries.len(),
{
    if entries.len() > 0 {
        lemma_newest_none(entries.drop_last(), p);
        assert(entries.last() == entries[entries.len() - 1]);
    }
}

/// Stamping entries under `outs` leaves `p`'s newest time unchanged when
/// `p`'s region neither contains nor meets any path of `outs`.
proof fn lemma_newest_unchanged(
    fs: Seq<(Seq<char>, int)>,
    outs: Seq<Seq<char>>,
    t: int,
    p: Seq<char>,
)
    requires
        forall|j: int|
            0 <= j < outs.len() ==> !covers(p, #[trigger] outs[j]) && !covers(outs[j], p),
    ensures
        fs_newest(apply_task(fs, outs, t), p) == fs_newest(fs, p),
{
    let bumped = Seq::new(
        fs.len(),
        |i: int| if covered_by_any(outs, fs[i].0) {
            (fs[i].0, t)
        } else {
            fs[i]
        },
    );
    let appended = Seq::new(outs.len(), |j: int| (outs[j], t));
    lemma_newest_bumped_same(fs, outs, t, p);
    assert forall|i: int| 0 <= i < appended.len() implies !covers(p, #[trigger] appended[i].0) by {
        assert(appended[i].0 == outs[i]);
    }
    lemma_newest_none(appended, p);
    lemma_newest_concat(bumped, appended, p);
}

/// The stamped copy of `fs` agrees with `fs` on `p`'s newest time when no
/// stamped path concerns `p`'s region.
proof fn lemma_newest_bumped_same(
    fs: Seq<(Seq<char>, int)>,
    outs: Seq<Seq<char>>,
    t: int,
    p: Seq<char>,
)
    requires
        forall|j: int|
            0 <= j < outs.len() ==> !covers(p, #[trigger] outs[j]) && !covers(outs[j], p),
    ensures
        fs_newest(
            Seq::new(
                fs.len(),
                |i: int| if covered_by_any(outs, fs[i].0) {
                    (fs[i].0, t)
                } else {
                    fs[i]
                },
            ),
            p,
        ) == fs_newest(fs, p),
    decreases fs.len(),
{
    let bumped = Seq::new(
        fs.len(),
        |i: int| if covered_by_any(outs, fs[i].0) {
            (fs[i].0, t)
        } else {
            fs[i]
        },
    );
    if fs.len() > 0 {
        lemma_newest_bumped_same(fs.drop_last(), outs, t, p);
        assert(bumped.drop_last() =~= Seq::new(
            fs.drop_last().len(),
            |i: int| if covered_by_any(outs, fs.drop_last()[i].0) {
                (fs.drop_last()[i].0, t)
            } else {
                fs.drop_last()[i]
            },
        ));
        assert(bumped.last().0 == fs.last().0);
        if covers(p, fs.last().0) {
            if covered_by_any(outs, fs.last().0) {
                let j = choose|j: int|
                    0 <= j < outs.len() && #[trigger] covers(outs[j], fs.last().0);
                lemma_covers_comparable(p, outs[j], fs.last().0);
                assert(false);
            }
            assert(bumped.last() == fs.last());
        }
    }
}

/// After a task stamps its outputs at time `t`, each of its output paths
/// is present with newest time exactly `t`.
proof fn lemma_newest_after_apply_output(
    fs: Seq<(Seq<char>, int)>,
    outs: Seq<Seq<char>>,
    t: int,
    j: int,
)
    requires
        clock_below(fs, t),
        0 <= j < outs.len(),
    ensures
        fs_newest(apply_task(fs, outs, t), outs[j]) == Some(t),
{
    let bumped = Seq::new(
        fs.len(),
        |i: int| if covered_by_any(outs, fs[i].0) {
            (fs[i].0, t)
        } else {
            fs[i]
        },
    );
    let appended = Seq::new(outs.len(), |k: int| (outs[k], t));
    assert(clock_below(apply_task(fs, outs, t), t + 1)) by {
        assert forall|i: int|
            0 <= i < apply_task(fs, outs, t).len() implies #[trigger] apply_task(
            fs,
            outs,
            t,
        )[i].1 < t + 1 by {
            if i < fs.len() {
                assert(fs[i].1 < t);
            }
        }
    }
    lemma_newest_below_clock(apply_task(fs, outs, t), t + 1, outs[j]);
    lemma_newest_appended_some(appended, outs, t, j);
    lemma_newest_concat(bumped, appended, outs[j]);
}

/// Among the freshly appended output entries, the one for `outs[j]`
/// itself makes `outs[j]` present at time `t` at the least.
proof fn lemma_newest_appended_some(
    appended: Seq<(Seq<char>, int)>,
    outs: Seq<Seq<char>>,
    t: int,
    j: int,
)
    requires
        0 <= j < outs.len(),
        appended == Seq::new(outs.len(), |k: int| (outs[k], t)),
    ensures
        match fs_newest(appended, outs[j]) {
            Some(m) => m >= t,
            None => false,
        },
    decreases outs.len(),
{
    if j == outs.len() - 1 {
        assert(appended.last() == (outs[j], t));
        assert(covers(outs[j], outs[j]));
        match fs_newest(appended.drop_last(), outs[j]) {
            Option::None => {},
            Option::Some(m) => {},
        }
    } else {
        let outs2 = outs.drop_last();
        let appended2 = Seq::new(outs2.len(), |k: int| (outs2[k], t));
        assert(appended.drop_last() =~= appended2);
        assert(outs2[j] == outs[j]);
        lemma_newest_appended_some(appended2, outs2, t, j);
    }
}

/// Two filesystems that agree on the newest times of a task's declared
/// paths agree on its staleness.
proof fn lemma_stale_same(tv: TaskView, fs1: Seq<(Seq<char>, int)>, fs2: Seq<(Seq<char>, int)>)
    requires
        forall|i: int|
            0 <= i < tv.inputs.len() ==> #[trigger] fs_newest(fs1, tv.inputs[i]) == fs_newest(
                fs2,
                tv.inputs[i],
            ),
        forall|j: int|
            0 <= j < tv.outputs.len() ==> #[trigger] fs_newest(fs1, tv.outputs[j]) == fs_newest(
                fs2,
                tv.outputs[j],
            ),
    ensures
        task_stale(tv, fs1) == task_stale(tv, fs2),
{
    if task_stale(tv, fs1) {
        lemma_stale_same_one(tv, fs1, fs2);
    }
    if task_stale(tv, fs2) {
        lemma_stale_same_one(tv, fs2, fs1);
    }
}

/// One direction of [`lemma_stale_same`].
proof fn lemma_stale_same_one(tv: TaskView, fs1: Seq<(Seq<char>, int)>, fs2: Seq<(Seq<char>, int)>)
    requires
        forall|i: int|
            0 <= i < tv.inputs.len() ==> #[trigger] fs_newest(fs1, tv.inputs[i]) == fs_newest(
                fs2,
                tv.inputs[i],
            ),
        forall|j: int|
            0 <= j < tv.outputs.len() ==> #[trigger] fs_newest(fs1, tv.outputs[j]) == fs_newest(
                fs2,
                tv.outputs[j],
            ),
        task_stale(tv, fs1),
    ensures
        task_stale(tv, fs2),
{
    if tv.outputs.len() == 0 {
    } else if exists|j: int|
        0 <= j < tv.outputs.len() && #[trigger] fs_newest(fs1, tv.outputs[j]) is None {
        let j = choose|j: int|
            0 <= j < tv.outputs.len() && #[trigger] fs_newest(fs1, tv.outputs[j]) is None;
        assert(fs_newest(fs2, tv.outputs[j]) is None);
    } else {
        let (i, j) = choose|i: int, j: int|
            0 <= i < tv.inputs.len() && 0 <= j < tv.outputs.len() && match (
                #[trigger] fs_newest(fs1, tv.inputs[i]),
                #[trigger] fs_newest(fs1, tv.outputs[j]),
            ) {
                (Option::Some(mi), Option::Some(mo)) => mi > mo,
                _ => false,
            };
        assert(match (fs_newest(fs2, tv.inputs[i]), fs_newest(fs2, tv.outputs[j])) {
            (Option::Some(mi), Option::Some(mo)) => mi > mo,
            _ => false,
        });
    }
}

/// A fresh task stays fresh when a task it does not depend on executes:
/// the stamped regions are disjoint from all its declared paths.
proof fn lemma_fresh_preserved(
    tasks: Seq<TaskView>,
    fs: Seq<(Seq<char>, int)>,
    t: int,
    x: int,
    y: int,
)
    requires
        0 <= x < tasks.len(),
        0 <= y < tasks.len(),
        x != y,
        !task_depends(tasks, x, y),
        outputs_exclusive(tasks),
        inputs_absorb_outputs(tasks),
    ensures
        task_stale(tasks[x], apply_task(fs, tasks[y].outputs, t)) == task_stale(tasks[x], fs),
{
    let outs = tasks[y].outputs;
    let fs1 = apply_task(fs, outs, t);
    assert forall|i: int| 0 <= i < tasks[x].inputs.len() implies #[trigger] fs_newest(
        fs1,
        tasks[x].inputs[i],
    ) == fs_newest(fs, tasks[x].inputs[i]) by {
        let p = tasks[x].inputs[i];
        assert forall|j: int| 0 <= j < outs.len() implies !covers(p, #[trigger] outs[j])
            && !covers(outs[j], p) by {
            if covers(p, outs[j]) {
                assert(task_depends(tasks, x, y));
            }
            if covers(outs[j], p) {
                assert(task_depends(tasks, x, y));
            }
        }
        lemma_newest_unchanged(fs, outs, t, p);
    }
    assert forall|j0: int| 0 <= j0 < tasks[x].outputs.len() implies #[trigger] fs_newest(
        fs1,
        tasks[x].outputs[j0],
    ) == fs_newest(fs, tasks[x].outputs[j0]) by {
        let p = tasks[x].outputs[j0];
        assert forall|j: int| 0 <= j < outs.len() implies !covers(p, #[trigger] outs[j])
            && !covers(outs[j], p) by {
            assert(!covers(tasks[x].outputs[j0], tasks[y].outputs[j]));
            assert(!covers(tasks[y].outputs[j], tasks[x].outputs[j0]));
        }
        lemma_newest_unchanged(fs, outs, t, p);
    }
    lemma_stale_same(tasks[x], fs1, fs);
}

/// A task that has just stamped its outputs at the current time is fresh.
proof fn lemma_self_fresh(tv: TaskView, fs: Seq<(Seq<char>, int)>, t: int)
    requires
        clock_below(fs, t),
        tv.outputs.len() > 0,
    ensures
        !task_stale(tv, apply_task(fs, tv.outputs, t)),
{
    let fs1 = apply_task(fs, tv.outputs, t);
    assert(clock_below(fs1, t + 1)) by {
        assert forall|i: int| 0 <= i < fs1.len() implies #[trigger] fs1[i].1 < t + 1 by {
            if i < fs.len() {
                assert(fs[i].1 < t);
            }
        }
    }
    assert forall|j: int| 0 <= j < tv.outputs.len() implies #[trigger] fs_newest(
        fs1,
        tv.outputs[j],
    ) == Some(t) by {
        lemma_newest_after_apply_output(fs, tv.outputs, t, j);
    }
    assert forall|i: int, j: int|
        0 <= i < tv.inputs.len() && 0 <= j < tv.outputs.len() implies !match (
        #[trigger] fs_newest(fs1, tv.inputs[i]),
        #[trigger] fs_newest(fs1, tv.outputs[j]),
    ) {
        (Option::Some(mi), Option::Some(mo)) => mi > mo,
        _ => false,
    } by {
        lemma_newest_below_clock(fs1, t + 1, tv.inputs[i]);
    }
}

/// The inductive heart of the run laws.  `frozen` holds tasks already
/// settled and fresh on which no remaining task's execution can intrude.
/// After the remaining order runs, the clock advanced one tick per task,
/// everything frozen or ordered is fresh, and only ordered tasks
/// executed.
proof fn lemma_run_fresh(
    tasks: Seq<TaskView>,
    order: Seq<usize>,
    fs: Seq<(Seq<char>, int)>,
    t: int,
    frozen: Set<int>,
)
    requires
        forall|k: int| 0 <= k < order.len() ==> #[trigger] order[k] < tasks.len(),
        forall|k1: int, k2: int|
            0 <= k1 < k2 < order.len() ==> #[trigger] order[k1] != #[trigger] order[k2],
        forall|a: int, b: int|
            0 <= a < order.len() && 0 <= b < order.len() && #[trigger] task_depends(
                tasks,
                order[a] as int,
                order[b] as int,
            ) ==> b < a,
        forall|x: int| #[trigger] frozen.contains(x) ==> 0 <= x < tasks.len(),
        forall|x: int, k: int|
            #[trigger] frozen.contains(x) && 0 <= k < order.len() ==> !task_depends(
                tasks,
                x,
                #[trigger] order[k] as int,
            ),
        forall|x: int| #[trigger] frozen.contains(x) ==> !task_stale(tasks[x], fs),
        all_have_outputs(tasks),
        outputs_exclusive(tasks),
        inputs_absorb_outputs(tasks),
        clock_below(fs, t),
    ensures
        clock_below(sim_run(tasks, order, fs, t).1, t + order.len()),
        forall|x: int| #[trigger]
            frozen.contains(x) ==> !task_stale(tasks[x], sim_run(tasks, order, fs, t).1),
        forall|k: int|
            0 <= k < order.len() ==> !task_stale(
                tasks[#[trigger] order[k] as int],
                sim_run(tasks, order, fs, t).1,
            ),
        forall|x: int| #[trigger]
            sim_run(tasks, order, fs, t).0.contains(x) ==> scheduled(order, x),
    decreases order.len(),
{
    if order.len() == 0 {
    } else {
        let x0 = order[0] as int;
        let rest = order.drop_first();
        assert(forall|k: int| 0 <= k < rest.len() ==> #[trigger] rest[k] == order[k + 1]);
        assert forall|a: int, b: int|
            0 <= a < rest.len() && 0 <= b < rest.len() && #[trigger] task_depends(
                tasks,
                rest[a] as int,
                rest[b] as int,
            ) implies b < a by {
            assert(task_depends(tasks, order[a + 1] as int, order[b + 1] as int));
        }
        assert forall|k: int| 0 <= k < rest.len() implies !task_depends(
            tasks,
            x0,
            #[trigger] rest[k] as int,
        ) by {
            if task_depends(tasks, order[0] as int, order[k + 1] as int) {
                assert(k + 1 < 0);
            }
        }
        let frozen1 = frozen.insert(x0);
        if task_stale(tasks[x0], fs) {
            let fs1 = apply_task(fs, tasks[x0].outputs, t);
            assert(clock_below(fs1, t + 1)) by {
                assert forall|i: int| 0 <= i < fs1.len() implies #[trigger] fs1[i].1 < t + 1 by {
                    if i < fs.len() {
                        assert(fs[i].1 < t);
                    }
                }
            }
            assert forall|x: int| #[trigger] frozen1.contains(x) implies !task_stale(
                tasks[x],
                fs1,
            ) by {
                if x == x0 {
                    lemma_self_fresh(tasks[x0], fs, t);
                } else {
                    assert(frozen.contains(x));
                    assert(!task_stale(tasks[x], fs));
                    assert(x != x0);
                    assert(!task_depends(tasks, x, order[0] as int));
                    lemma_fresh_preserved(tasks, fs, t, x, x0);
                }
            }
            lemma_run_fresh(tasks, rest, fs1, t + 1, frozen1);
            assert(sim_run(tasks, order, fs, t).1 == sim_run(tasks, rest, fs1, t + 1).1);
            assert forall|x: int| #[trigger] frozen.contains(x) implies !task_stale(
                tasks[x],
                sim_run(tasks, order, fs, t).1,
            ) by {
                assert(frozen1.contains(x));
            }
            assert forall|k: int| 0 <= k < order.len() implies !task_stale(
                tasks[#[trigger] order[k] as int],
                sim_run(tasks, order, fs, t).1,
            ) by {
                if k == 0 {
                    assert(frozen1.contains(x0));
                } else {
                    assert(rest[k - 1] == order[k]);
                }
            }
            assert forall|x: int| #[trigger]
                sim_run(tasks, order, fs, t).0.contains(x) implies scheduled(order, x) by {
                if x == x0 {
                    assert(order[0] == x);
                } else {
                    assert(sim_run(tasks, rest, fs1, t + 1).0.contains(x));
                    let k = choose|k: int| 0 <= k < rest.len() && rest[k] == x;
                    assert(order[k + 1] == x);
                }
            }
        } else {
            assert(clock_below(fs, t + 1)) by {
                assert forall|i: int| 0 <= i < fs.len() implies #[trigger] fs[i].1 < t + 1 by {
                    assert(fs[i].1 < t);
                }
            }
            assert forall|x: int| #[trigger] frozen1.contains(x) implies !task_stale(
                tasks[x],
                fs,
            ) by {
                if x != x0 {
                    assert(frozen.contains(x));
                }
            }
            lemma_run_fresh(tasks, rest, fs, t + 1, frozen1);
            assert(sim_run(tasks, order, fs, t).1 == sim_run(tasks, rest, fs, t + 1).1);
            assert forall|x: int| #[trigger] frozen.contains(x) implies !task_stale(
                tasks[x],
                sim_run(tasks, order, fs, t).1,
            ) by {
                assert(frozen1.contains(x));
            }
            assert forall|k: int| 0 <= k < order.len() implies !task_stale(
                tasks[#[trigger] order[k] as int],
                sim_run(tasks, order, fs, t).1,
            ) by {
                if k == 0 {
                    assert(frozen1.contains(x0));
                } else {
                    assert(rest[k - 1] == order[k]);
                }
            }
            assert forall|x: int| #[trigger]
                sim_run(tasks, order, fs, t).0.contains(x) implies scheduled(order, x) by {
                assert(sim_run(tasks, rest, fs, t + 1).0.contains(x));
                let k = choose|k: int| 0 <= k < rest.len() && rest[k] == x;
                assert(order[k + 1] == x);
            }
        }
    }
}

/// Path containment is transitive.
proof fn lemma_covers_trans(a: Seq<char>, b: Seq<char>, c: Seq<char>)
    requires
        covers(a, b),
        covers(b, c),
    ensures
        covers(a, c),
{
    if a == b || b == c {
    } else {
        assert forall|k: int| 0 <= k < a.len() implies c.subrange(0, a.len() as int)[k]
            == a[k] by {
            assert(c.subrange(0, b.len() as int)[k] == c[k]);
            assert(b.subrange(0, a.len() as int)[k] == b[k]);
        }
        assert(c.subrange(0, a.len() as int) =~= a);
        assert(c[a.len() as int] == c.subrange(0, b.len() as int)[a.len() as int]);
        assert(c[a.len() as int] == b[a.len() as int]);
    }
}

/// An entry at or under `p` bounds `p`'s newest time from below.
proof fn lemma_newest_lower_bound(fs: Seq<(Seq<char>, int)>, p: Seq<char>, k: int)
    requires
        0 <= k < fs.len(),
        covers(p, fs[k].0),
    ensures
        match fs_newest(fs, p) {
            Some(m) => m >= fs[k].1,
            None => false,
        },
    decreases fs.len(),
{
    if k == fs.len() - 1 {
        assert(fs.last() == fs[k]);
    } else {
        lemma_newest_lower_bound(fs.drop_last(), p, k);
        assert(fs.drop_last()[k] == fs[k]);
    }
}

/// Stamping a task's outputs never loses a path and never lowers a time.
proof fn lemma_newest_monotone(
    fs: Seq<(Seq<char>, int)>,
    outs: Seq<Seq<char>>,
    t: int,
    p: Seq<char>,
)
    requires
        clock_below(fs, t),
    ensures
        fs_newest(fs, p) is Some ==> match (fs_newest(fs, p), fs_newest(
            apply_task(fs, outs, t),
            p,
        )) {
            (Option::Some(m), Option::Some(m2)) => m2 >= m,
            _ => false,
        },
{
    let bumped = Seq::new(
        fs.len(),
        |i: int| if covered_by_any(outs, fs[i].0) {
            (fs[i].0, t)
        } else {
            fs[i]
        },
    );
    let appended = Seq::new(outs.len(), |j: int| (outs[j], t));
    lemma_newest_bumped_ge(fs, outs, t, p);
    lemma_newest_concat(bumped, appended, p);
}

/// The stamped copy keeps every covered path present, at a time no lower
/// than before.
proof fn lemma_newest_bumped_ge(
    fs: Seq<(Seq<char>, int)>,
    outs: Seq<Seq<char>>,
    t: int,
    p: Seq<char>,
)
    requires
        clock_below(fs, t),
    ensures
        fs_newest(fs, p) is Some ==> match (fs_newest(fs, p), fs_newest(
            Seq::new(
                fs.len(),
                |i: int| if covered_by_any(outs, fs[i].0) {
                    (fs[i].0, t)
                } else {
                    fs[i]
                },
            ),
            p,
        )) {
            (Option::Some(m), Option::Some(m2)) => m2 >= m,
            _ => false,
        },
    decreases fs.len(),
{
    let bumped = Seq::new(
        fs.len(),
        |i: int| if covered_by_any(outs, fs[i].0) {
            (fs[i].0, t)
        } else {
            fs[i]
        },
    );
    if fs.len() > 0 {
        assert(forall|i: int| 0 <= i < fs.len() - 1 ==> #[trigger] fs.drop_last()[i] == fs[i]);
        lemma_newest_bumped_ge(fs.drop_last(), outs, t, p);
        assert(bumped.drop_last() =~= Seq::new(
            fs.drop_last().len(),
            |i: int| if covered_by_any(outs, fs.drop_last()[i].0) {
                (fs.drop_last()[i].0, t)
            } else {
                fs.drop_last()[i]
            },
        ));
        assert(bumped.last().0 == fs.last().0);
        assert(bumped.last().1 == fs.last().1 || bumped.last().1 == t);
        assert(fs.last().1 < t);
    }
}

/// A nonempty walk along dependency edges.
pub open spec fn dep_chain(tasks: Seq<TaskView>, s: Seq<int>) -> bool {
    &&& s.len() >= 1
    &&& forall|k: int| 0 <= k < s.len() ==> 0 <= #[trigger] s[k] < tasks.len()
    &&& forall|k: int|
        0 <= k < s.len() - 1 ==> task_depends(tasks, #[trigger] s[k], s[k + 1])
}

/// Task `x` transitively depends on `target` (or is it): some walk along
/// dependency edges leads from `x` to `target`.
pub open spec fn affected(tasks: Seq<TaskView>, x: int, target: int) -> bool {
    exists|s: Seq<int>| #[trigger] dep_chain(tasks, s) && s.first() == x && s.last() == target
}

/// `target` is affected by itself.
pub proof fn lemma_affected_refl(tasks: Seq<TaskView>, target: int)
    requires
        0 <= target < tasks.len(),
    ensures
        affected(tasks, target, target),
{
    let s = seq![target];
    assert(dep_chain(tasks, s));
    assert(s.first() == target && s.last() == target);
}

/// Affectedness extends backwards along a dependency edge.
pub proof fn lemma_affected_step(tasks: Seq<TaskView>, x: int, z: int, target: int)
    requires
        task_depends(tasks, x, z),
        affected(tasks, z, target),
    ensures
        affected(tasks, x, target),
{
    let s = choose|s: Seq<int>| #[trigger] dep_chain(tasks, s) && s.first() == z && s.last()
        == target;
    let s2 = seq![x] + s;
    assert(s2.first() == x);
    assert(s2.last() == target);
    assert forall|k: int| 0 <= k < s2.len() - 1 implies task_depends(
        tasks,
        #[trigger] s2[k],
        s2[k + 1],
    ) by {
        if k > 0 {
            assert(s2[k] == s[k - 1] && s2[k + 1] == s[k]);
        }
    }
    assert(dep_chain(tasks, s2));
}

/// Incrementality, the containment direction: over a run from any
/// filesystem in which every task with no dependency walk to `target` is
/// fresh, only tasks with such a walk execute, and every task without
/// one is still fresh afterwards.  Touching an input of `target` alone
/// produces exactly such a filesystem.
pub proof fn lemma_incrementality_only_dependents(
    tasks: Seq<TaskView>,
    order: Seq<usize>,
    fs: Seq<(Seq<char>, int)>,
    t: int,
    target: int,
)
    requires
        forall|k: int| 0 <= k < order.len() ==> #[trigger] order[k] < tasks.len(),
        outputs_exclusive(tasks),
        inputs_absorb_outputs(tasks),
        forall|x: int|
            0 <= x < tasks.len() && !#[trigger] affected(tasks, x, target) ==> !task_stale(
                tasks[x],
                fs,
            ),
    ensures
        forall|x: int| #[trigger]
            sim_run(tasks, order, fs, t).0.contains(x) ==> affected(tasks, x, target),
        forall|x: int|
            0 <= x < tasks.len() && !#[trigger] affected(tasks, x, target) ==> !task_stale(
                tasks[x],
                sim_run(tasks, order, fs, t).1,
            ),
    decreases order.len(),
{
    if order.len() > 0 {
        let x0 = order[0] as int;
        let rest = order.drop_first();
        assert(forall|k: int| 0 <= k < rest.len() ==> #[trigger] rest[k] == order[k + 1]);
        if task_stale(tasks[x0], fs) {
            assert(affected(tasks, x0, target));
            let fs1 = apply_task(fs, tasks[x0].outputs, t);
            assert forall|x: int|
                0 <= x < tasks.len() && !#[trigger] affected(tasks, x, target) implies !task_stale(
                tasks[x],
                fs1,
            ) by {
                if task_depends(tasks, x, x0) {
                    lemma_affected_step(tasks, x, x0, target);
                } else {
                    lemma_fresh_preserved(tasks, fs, t, x, x0);
                }
            }
            lemma_incrementality_only_dependents(tasks, rest, fs1, t + 1, target);
            assert forall|x: int| #[trigger]
                sim_run(tasks, order, fs, t).0.contains(x) implies affected(
                tasks,
                x,
                target,
            ) by {
                if x != x0 {
                    assert(sim_run(tasks, rest, fs1, t + 1).0.contains(x));
                }
            }
        } else {
            lemma_incrementality_only_dependents(tasks, rest, fs, t + 1, target);
            assert forall|x: int| #[trigger]
                sim_run(tasks, order, fs, t).0.contains(x) implies affected(
                tasks,
                x,
                target,
            ) by {
                assert(sim_run(tasks, rest, fs, t + 1).0.contains(x));
            }
        }
    }
}

/// The inductive heart of incrementality.  `exec_prev` holds the tasks
/// already executed (all of them affected and no longer in the order);
/// the invariants say that unaffected tasks are fresh, un-executed
/// outputs are old, and every region downstream of an executed task —
/// and some touched input of `target` — is young.  Then the remaining
/// order executes exactly its affected tasks.
#[verifier::rlimit(80)]
proof fn lemma_incr_run(
    tasks: Seq<TaskView>,
    order: Seq<usize>,
    fs: Seq<(Seq<char>, int)>,
    t: int,
    t0: int,
    target: int,
    exec_prev: Set<int>,
)
    requires
        forall|k: int| 0 <= k < order.len() ==> #[trigger] order[k] < tasks.len(),
        forall|k1: int, k2: int|
            0 <= k1 < k2 < order.len() ==> #[trigger] order[k1] != #[trigger] order[k2],
        forall|a: int, b: int|
            0 <= a < order.len() && 0 <= b < order.len() && #[trigger] task_depends(
                tasks,
                order[a] as int,
                order[b] as int,
            ) ==> b < a,
        forall|x: int, k: int|
            0 <= x < tasks.len() && !scheduled(order, x) && 0 <= k < order.len()
                ==> !#[trigger] task_depends(tasks, x, #[trigger] order[k] as int),
        outputs_exclusive(tasks),
        inputs_absorb_outputs(tasks),
        all_have_outputs(tasks),
        clock_below(fs, t),
        t0 <= t,
        0 <= target < tasks.len(),
        // Unaffected tasks are fresh.
        forall|x: int|
            0 <= x < tasks.len() && !#[trigger] affected(tasks, x, target) ==> !task_stale(
                tasks[x],
                fs,
            ),
        // Outputs of un-executed tasks are old.
        forall|x: int, j: int|
            0 <= x < tasks.len() && !exec_prev.contains(x) && 0 <= j < tasks[x].outputs.len()
                ==> match #[trigger] fs_newest(fs, tasks[x].outputs[j]) {
                Option::Some(m) => m < t0,
                Option::None => false,
            },
        // Every input region fed by an executed task is young.
        forall|z: int, x: int, i: int, o: int|
            exec_prev.contains(z) && 0 <= z < tasks.len() && 0 <= x < tasks.len() && 0 <= i
                < tasks[x].inputs.len() && 0 <= o < tasks[z].outputs.len() && #[trigger] covers(
                tasks[z].outputs[o],
                #[trigger] tasks[x].inputs[i],
            ) ==> match fs_newest(fs, tasks[x].inputs[i]) {
                Option::Some(m) => m >= t0,
                Option::None => false,
            },
        // The touched input of the target is young until the target runs.
        scheduled(order, target) ==> exists|i: int|
            0 <= i < tasks[target].inputs.len() && match #[trigger] fs_newest(
                fs,
                tasks[target].inputs[i],
            ) {
                Option::Some(m) => m >= t0,
                Option::None => false,
            },
        // Every input is present.
        forall|x: int, i: int|
            0 <= x < tasks.len() && 0 <= i < tasks[x].inputs.len() ==> #[trigger] fs_newest(
                fs,
                tasks[x].inputs[i],
            ) is Some,
        // Executed tasks: affected, off the order; processed affected
        // tasks: executed.
        forall|z: int| #[trigger]
            exec_prev.contains(z) ==> 0 <= z < tasks.len() && !scheduled(order, z) && affected(
                tasks,
                z,
                target,
            ),
        forall|z: int|
            0 <= z < tasks.len() && !scheduled(order, z) && #[trigger] affected(tasks, z, target)
                ==> exec_prev.contains(z),
    ensures
        forall|x: int|
            0 <= x < tasks.len() ==> (#[trigger] sim_run(tasks, order, fs, t).0.contains(x) <==> (
            scheduled(order, x) && affected(tasks, x, target))),
    decreases order.len(),
{
    if order.len() == 0 {
    } else {
        let x0 = order[0] as int;
        let rest = order.drop_first();
        assert(forall|k: int| 0 <= k < rest.len() ==> #[trigger] rest[k] == order[k + 1]);
        assert(scheduled(order, x0));
        assert forall|a: int, b: int|
            0 <= a < rest.len() && 0 <= b < rest.len() && #[trigger] task_depends(
                tasks,
                rest[a] as int,
                rest[b] as int,
            ) implies b < a by {
            assert(task_depends(tasks, order[a + 1] as int, order[b + 1] as int));
        }
        assert forall|x: int|
            0 <= x < tasks.len() && !scheduled(rest, x) && x != x0 implies !scheduled(
            order,
            x,
        ) by {
            if scheduled(order, x) {
                let k = choose|k: int| 0 <= k < order.len() && order[k] == x;
                assert(k > 0);
                assert(rest[k - 1] == x);
            }
        }
        assert forall|x: int| scheduled(rest, x) implies scheduled(order, x) && x != x0 by {
            let k = choose|k: int| 0 <= k < rest.len() && rest[k] == x;
            assert(order[k + 1] == x);
        }
        assert forall|x: int, k: int|
            0 <= x < tasks.len() && !scheduled(rest, x) && 0 <= k < rest.len()
                implies !#[trigger] task_depends(tasks, x, #[trigger] rest[k] as int) by {
            if x == x0 {
                if task_depends(tasks, order[0] as int, order[k + 1] as int) {
                    assert(k + 1 < 0);
                }
            } else {
                assert(!scheduled(order, x));
                assert(!task_depends(tasks, x, order[k + 1] as int));
            }
        }
        if affected(tasks, x0, target) {
            // The affected head is stale: its outputs are old and some
            // input region is young.
            assert(!exec_prev.contains(x0));
            assert(task_stale(tasks[x0], fs)) by {
                if x0 == target {
                    let i = choose|i: int|
                        0 <= i < tasks[target].inputs.len() && match #[trigger] fs_newest(
                            fs,
                            tasks[target].inputs[i],
                        ) {
                            Option::Some(m) => m >= t0,
                            Option::None => false,
                        };
                    assert(match (fs_newest(fs, tasks[x0].inputs[i]), fs_newest(
                        fs,
                        tasks[x0].outputs[0],
                    )) {
                        (Option::Some(mi), Option::Some(mo)) => mi > mo,
                        _ => false,
                    });
                } else {
                    let s = choose|s: Seq<int>| #[trigger] dep_chain(tasks, s) && s.first() == x0
                        && s.last() == target;
                    assert(s.len() >= 2) by {
                        if s.len() == 1 {
                            assert(s.first() == s.last());
                        }
                    }
                    let z = s[1];
                    assert(task_depends(tasks, x0, z));
                    assert(affected(tasks, z, target)) by {
                        let s2 = s.drop_first();
                        assert(forall|k: int|
                            0 <= k < s2.len() ==> #[trigger] s2[k] == s[k + 1]);
                        assert forall|k: int| 0 <= k < s2.len() - 1 implies task_depends(
                            tasks,
                            #[trigger] s2[k],
                            s2[k + 1],
                        ) by {
                            assert(task_depends(tasks, s[k + 1], s[k + 2]));
                        }
                        assert(dep_chain(tasks, s2));
                        assert(s2.first() == z && s2.last() == target);
                    }
                    assert(exec_prev.contains(z)) by {
                        if scheduled(order, z) {
                            let k = choose|k: int| 0 <= k < order.len() && order[k] == z;
                            assert(task_depends(tasks, order[0] as int, order[k] as int));
                            assert(k < 0);
                        }
                    }
                    let (i, o) = choose|i: int, o: int|
                        0 <= i < tasks[x0].inputs.len() && 0 <= o < tasks[z].outputs.len()
                            && #[trigger] covers(tasks[z].outputs[o], tasks[x0].inputs[i]);
                    assert(match (fs_newest(fs, tasks[x0].inputs[i]), fs_newest(
                        fs,
                        tasks[x0].outputs[0],
                    )) {
                        (Option::Some(mi), Option::Some(mo)) => mi > mo,
                        _ => false,
                    });
                }
            }
            let fs1 = apply_task(fs, tasks[x0].outputs, t);
            let exec1 = exec_prev.insert(x0);
            assert(clock_below(fs1, t + 1)) by {
                assert forall|i: int| 0 <= i < fs1.len() implies #[trigger] fs1[i].1 < t + 1 by {
                    if i < fs.len() {
                        assert(fs[i].1 < t);
                    }
                }
            }
            // Unaffected tasks stay fresh.
            assert forall|x: int|
                0 <= x < tasks.len() && !#[trigger] affected(tasks, x, target)
                    implies !task_stale(tasks[x], fs1) by {
                if task_depends(tasks, x, x0) {
                    lemma_affected_step(tasks, x, x0, target);
                } else {
                    lemma_fresh_preserved(tasks, fs, t, x, x0);
                }
            }
            // Outputs of still-unexecuted tasks are untouched.
            assert forall|x: int, j: int|
                0 <= x < tasks.len() && !exec1.contains(x) && 0 <= j < tasks[x].outputs.len()
                    implies match #[trigger] fs_newest(fs1, tasks[x].outputs[j]) {
                Option::Some(m) => m < t0,
                Option::None => false,
            } by {
                assert(x != x0);
                assert forall|o: int|
                    0 <= o < tasks[x0].outputs.len() implies !covers(
                    tasks[x].outputs[j],
                    #[trigger] tasks[x0].outputs[o],
                ) && !covers(tasks[x0].outputs[o], tasks[x].outputs[j]) by {}
                lemma_newest_unchanged(fs, tasks[x0].outputs, t, tasks[x].outputs[j]);
            }
            // Input regions fed by executed tasks are young.
            assert forall|z: int, x: int, i: int, o: int|
                exec1.contains(z) && 0 <= z < tasks.len() && 0 <= x < tasks.len() && 0 <= i
                    < tasks[x].inputs.len() && 0 <= o < tasks[z].outputs.len() && #[trigger] covers(
                    tasks[z].outputs[o],
                    #[trigger] tasks[x].inputs[i],
                ) implies match fs_newest(fs1, tasks[x].inputs[i]) {
                Option::Some(m) => m >= t0,
                Option::None => false,
            } by {
                if z == x0 {
                    let p = tasks[x].inputs[i];
                    assert(fs_newest(fs, p) is Some);
                    lemma_newest_witness(fs, p);
                    let k = choose|k: int|
                        0 <= k < fs.len() && #[trigger] covers(p, fs[k].0);
                    lemma_covers_trans(tasks[z].outputs[o], p, fs[k].0);
                    assert(covered_by_any(tasks[x0].outputs, fs[k].0));
                    assert(fs1[k] == (fs[k].0, t));
                    lemma_newest_lower_bound(fs1, p, k);
                } else {
                    lemma_newest_monotone(fs, tasks[x0].outputs, t, tasks[x].inputs[i]);
                }
            }
            // The touched input stays young.
            assert(scheduled(rest, target) ==> exists|i: int|
                0 <= i < tasks[target].inputs.len() && match #[trigger] fs_newest(
                    fs1,
                    tasks[target].inputs[i],
                ) {
                    Option::Some(m) => m >= t0,
                    Option::None => false,
                }) by {
                if scheduled(rest, target) {
                    let i = choose|i: int|
                        0 <= i < tasks[target].inputs.len() && match #[trigger] fs_newest(
                            fs,
                            tasks[target].inputs[i],
                        ) {
                            Option::Some(m) => m >= t0,
                            Option::None => false,
                        };
                    lemma_newest_monotone(fs, tasks[x0].outputs, t, tasks[target].inputs[i]);
                }
            }
            // Inputs stay present.
            assert forall|x: int, i: int|
                0 <= x < tasks.len() && 0 <= i < tasks[x].inputs.len() implies #[trigger]
                fs_newest(fs1, tasks[x].inputs[i]) is Some by {
                lemma_newest_monotone(fs, tasks[x0].outputs, t, tasks[x].inputs[i]);
            }
            lemma_incr_run(tasks, rest, fs1, t + 1, t0, target, exec1);
            assert forall|x: int| 0 <= x < tasks.len() implies (#[trigger] sim_run(
                tasks,
                order,
                fs,
                t,
            ).0.contains(x) <==> (scheduled(order, x) && affected(tasks, x, target))) by {
                if x == x0 {
                    assert(sim_run(tasks, order, fs, t).0.contains(x0));
                } else {
                    assert(sim_run(tasks, order, fs, t).0.contains(x) <==> sim_run(
                        tasks,
                        rest,
                        fs1,
                        t + 1,
                    ).0.contains(x));
                }
            }
        } else {
            assert(!task_stale(tasks[x0], fs));
            assert(clock_below(fs, t + 1)) by {
                assert forall|i: int| 0 <= i < fs.len() implies #[trigger] fs[i].1 < t + 1 by {
                    assert(fs[i].1 < t);
                }
            }
            lemma_incr_run(tasks, rest, fs, t + 1, t0, target, exec_prev);
            assert forall|x: int| 0 <= x < tasks.len() implies (#[trigger] sim_run(
                tasks,
                order,
                fs,
                t,
            ).0.contains(x) <==> (scheduled(order, x) && affected(tasks, x, target))) by {
                assert(sim_run(tasks, order, fs, t).0.contains(x) <==> sim_run(
                    tasks,
                    rest,
                    fs,
                    t + 1,
                ).0.contains(x));
                if x == x0 {
                    assert(!scheduled(rest, x0));
                }
            }
        }
    }
}

/// Incrementality: updating the modification time of a single input of
/// the task `target`, with all else unchanged, makes the following run
/// execute exactly `target` and the tasks with a dependency walk to it.
///
/// The hypotheses: a valid schedule; the hygiene of [`lemma_idempotence`]
/// (outputs owned singly, nested writes declared, every task with an
/// output); every task fresh and every input present before the touch;
/// the touched path `p` lies under an input of `target`, under no
/// input of any unaffected task, and meets no output region either way —
/// a touched source file.  A touched path that is also an output, or an
/// input of an unrelated task, re-executes more than the dependents, so
/// such paths are left out.
pub proof fn lemma_incrementality(
    tasks: Seq<TaskView>,
    order: Seq<usize>,
    fs0: Seq<(Seq<char>, int)>,
    t0: int,
    target: int,
    p: Seq<char>,
)
    requires
        valid_schedule(tasks, order),
        outputs_exclusive(tasks),
        inputs_absorb_outputs(tasks),
        all_have_outputs(tasks),
        clock_below(fs0, t0),
        0 <= target < tasks.len(),
        forall|x: int| 0 <= x < tasks.len() ==> !task_stale(#[trigger] tasks[x], fs0),
        forall|x: int, i: int|
            0 <= x < tasks.len() && 0 <= i < tasks[x].inputs.len() ==> #[trigger] fs_newest(
                fs0,
                tasks[x].inputs[i],
            ) is Some,
        exists|i: int|
            0 <= i < tasks[target].inputs.len() && #[trigger] covers(tasks[target].inputs[i], p),
        forall|z: int, o: int|
            0 <= z < tasks.len() && 0 <= o < tasks[z].outputs.len() ==> !covers(
                #[trigger] tasks[z].outputs[o],
                p,
            ) && !covers(p, tasks[z].outputs[o]),
        forall|x: int, i: int|
            0 <= x < tasks.len() && !affected(tasks, x, target) && 0 <= i
                < tasks[x].inputs.len() ==> !covers(#[trigger] tasks[x].inputs[i], p),
    ensures
        forall|x: int|
            0 <= x < tasks.len() ==> (#[trigger] sim_run(
                tasks,
                order,
                fs0.push((p, t0)),
                t0 + 1,
            ).0.contains(x) <==> affected(tasks, x, target)),
{
    let fs1 = fs0.push((p, t0));
    assert(fs1.drop_last() =~= fs0);
    assert(fs1.last() == (p, t0));
    // The push changes only regions containing `p`.
    assert forall|q: Seq<char>| !covers(q, p) implies fs_newest(fs1, q) == fs_newest(
        fs0,
        q,
    ) by {}
    assert forall|q: Seq<char>| covers(q, p) implies match fs_newest(fs1, q) {
        Option::Some(m) => m >= t0,
        Option::None => false,
    } by {
        lemma_newest_lower_bound(fs1, q, fs0.len() as int);
    }
    assert(clock_below(fs1, t0 + 1)) by {
        assert forall|i: int| 0 <= i < fs1.len() implies #[trigger] fs1[i].1 < t0 + 1 by {
            if i < fs0.len() {
                assert(fs0[i].1 < t0);
            }
        }
    }
    assert forall|x: int|
        0 <= x < tasks.len() && !#[trigger] affected(tasks, x, target) implies !task_stale(
        tasks[x],
        fs1,
    ) by {
        assert forall|i: int|
            0 <= i < tasks[x].inputs.len() implies #[trigger] fs_newest(fs1, tasks[x].inputs[i])
            == fs_newest(fs0, tasks[x].inputs[i]) by {
            assert(!covers(tasks[x].inputs[i], p));
        }
        assert forall|j: int|
            0 <= j < tasks[x].outputs.len() implies #[trigger] fs_newest(
            fs1,
            tasks[x].outputs[j],
        ) == fs_newest(fs0, tasks[x].outputs[j]) by {
            assert(!covers(tasks[x].outputs[j], p));
        }
        lemma_stale_same(tasks[x], fs1, fs0);
    }
    assert forall|x: int, j: int|
        0 <= x < tasks.len() && 0 <= j < tasks[x].outputs.len() implies match #[trigger]
        fs_newest(fs1, tasks[x].outputs[j]) {
        Option::Some(m) => m < t0,
        Option::None => false,
    } by {
        assert(!covers(tasks[x].outputs[j], p));
        assert(fs_newest(fs1, tasks[x].outputs[j]) == fs_newest(fs0, tasks[x].outputs[j]));
        assert(!task_stale(tasks[x], fs0));
        assert(tasks[x].outputs.len() > 0);
        assert(fs_newest(fs0, tasks[x].outputs[j]) is Some);
        lemma_newest_below_clock(fs0, t0, tasks[x].outputs[j]);
    }
    assert(scheduled(order, target) ==> exists|i: int|
        0 <= i < tasks[target].inputs.len() && match #[trigger] fs_newest(
            fs1,
            tasks[target].inputs[i],
        ) {
            Option::Some(m) => m >= t0,
            Option::None => false,
        }) by {
        let i = choose|i: int|
            0 <= i < tasks[target].inputs.len() && #[trigger] covers(tasks[target].inputs[i], p);
        assert(covers(tasks[target].inputs[i], p));
        assert(match fs_newest(fs1, tasks[target].inputs[i]) {
            Option::Some(m) => m >= t0,
            Option::None => false,
        });
    }
    assert forall|x: int, i: int|
        0 <= x < tasks.len() && 0 <= i < tasks[x].inputs.len() implies #[trigger] fs_newest(
        fs1,
        tasks[x].inputs[i],
    ) is Some by {
        if covers(tasks[x].inputs[i], p) {
        } else {
            assert(fs_newest(fs1, tasks[x].inputs[i]) == fs_newest(fs0, tasks[x].inputs[i]));
        }
    }
    assert forall|z: int|
        0 <= z < tasks.len() && !scheduled(order, z) implies false by {
        assert(scheduled(order, z));
    }
    lemma_incr_run(tasks, order, fs1, t0 + 1, t0, target, Set::empty());
    assert forall|x: int| 0 <= x < tasks.len() implies (#[trigger] sim_run(
        tasks,
        order,
        fs1,
        t0 + 1,
    ).0.contains(x) <==> affected(tasks, x, target)) by {
        assert(scheduled(order, x));
    }
}

/// A present path has a covered entry bearing its newest time.
proof fn lemma_newest_witness(fs: Seq<(Seq<char>, int)>, p: Seq<char>)
    requires
        fs_newest(fs, p) is Some,
    ensures
        exists|k: int| 0 <= k < fs.len() && #[trigger] covers(p, fs[k].0),
    decreases fs.len(),
{
    if fs.len() > 0 {
        if covers(p, fs.last().0) {
            assert(covers(p, fs[fs.len() - 1].0));
        } else {
            lemma_newest_witness(fs.drop_last(), p);
            let k = choose|k: int|
                0 <= k < fs.drop_last().len() && #[trigger] covers(p, fs.drop_last()[k].0);
            assert(covers(p, fs[k].0));
        }
    }
}

/// A run against a filesystem in which every ordered task is fresh
/// executes nothing and changes nothing.
proof fn lemma_no_stale_no_exec(
    tasks: Seq<TaskView>,
    order: Seq<usize>,
    fs: Seq<(Seq<char>, int)>,
    t: int,
)
    requires
        forall|k: int| 0 <= k < order.len() ==> #[trigger] order[k] < tasks.len(),
        forall|k: int|
            0 <= k < order.len() ==> !task_stale(tasks[#[trigger] order[k] as int], fs),
    ensures
        sim_run(tasks, order, fs, t).0 =~= Set::<int>::empty(),
        sim_run(tasks, order, fs, t).1 == fs,
    decreases order.len(),
{
    if order.len() > 0 {
        let rest = order.drop_first();
        assert(forall|k: int| 0 <= k < rest.len() ==> #[trigger] rest[k] == order[k + 1]);
        assert(!task_stale(tasks[order[0] as int], fs));
        lemma_no_stale_no_exec(tasks, rest, fs, t + 1);
    }
}

/// Idempotence: a full run leaves every task fresh, and a second run
/// against the unchanged result executes no task at all.
///
/// The hypotheses are those of a well-formed graph: a valid schedule
/// exists, every task declares an output (a task without outputs is
/// unconditional and re-executes by design), output regions have single
/// owners, a task writing into another's declared input directory is a
/// declared dependency, and the starting times lie below the clock.
pub proof fn lemma_idempotence(
    tasks: Seq<TaskView>,
    order: Seq<usize>,
    fs: Seq<(Seq<char>, int)>,
    t: int,
    t2: int,
)
    requires
        valid_schedule(tasks, order),
        all_have_outputs(tasks),
        outputs_exclusive(tasks),
        inputs_absorb_outputs(tasks),
        clock_below(fs, t),
    ensures
        forall|k: int|
            0 <= k < order.len() ==> !task_stale(
                tasks[#[trigger] order[k] as int],
                sim_run(tasks, order, fs, t).1,
            ),
        sim_run(tasks, order, sim_run(tasks, order, fs, t).1, t2).0 =~= Set::<int>::empty(),
        sim_run(tasks, order, sim_run(tasks, order, fs, t).1, t2).1 == sim_run(
            tasks,
            order,
            fs,
            t,
        ).1,
{
    lemma_run_fresh(tasks, order, fs, t, Set::empty());
    lemma_no_stale_no_exec(tasks, order, sim_run(tasks, order, fs, t).1, t2);
}

} // verus!
