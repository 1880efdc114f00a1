use bob::executor::Executor;
use bob::runstate::RunState;
use bob::stale::{is_stale, FsView};
use bob::task::ConfigError;

fn exec_with(tasks: Vec<(&str, Vec<&str>, Vec<&str>)>) -> Executor {
    let mut e = Executor::new();
    for (cmd, ins, outs) in tasks {
        e.add_task_cmd(
            cmd.to_string(),
            ins.into_iter().map(|s| s.to_string()).collect(),
            outs.into_iter().map(|s| s.to_string()).collect(),
        );
    }
    e
}

fn fs_with(entries: Vec<(&str, u64)>) -> FsView {
    let mut fs = FsView::new();
    for (p, t) in entries {
        fs.record(p.to_string(), t);
    }
    fs
}

#[test]
fn output_collision_is_fatal() {
    let e = exec_with(vec![
        ("c1", vec!["a"], vec!["out"]),
        ("c2", vec!["b"], vec!["out"]),
    ]);
    match e.prepare() {
        Err(ConfigError::DuplicateOutput(p)) => assert_eq!(p, "out"),
        _ => panic!("expected a duplicate-output error"),
    }
}

#[test]
fn dependency_cycle_is_fatal() {
    let e = exec_with(vec![
        ("c1", vec!["b"], vec!["a"]),
        ("c2", vec!["a"], vec!["b"]),
    ]);
    match e.prepare() {
        Err(ConfigError::CycleDetected) => {}
        _ => panic!("expected a cycle error"),
    }
}

#[test]
fn three_task_cycle_is_fatal() {
    let e = exec_with(vec![
        ("c1", vec!["c"], vec!["a"]),
        ("c2", vec!["a"], vec!["b"]),
        ("c3", vec!["b"], vec!["c"]),
    ]);
    assert!(matches!(e.prepare(), Err(ConfigError::CycleDetected)));
}

#[test]
fn schedule_respects_dependencies() {
    let e = exec_with(vec![
        ("pack", vec!["classes/a", "classes/d"], vec!["app.jar"]),
        ("compile_a", vec!["src/a/B.java", "classes/d"], vec!["classes/a"]),
        ("compile_d", vec!["src/d/E.java"], vec!["classes/d"]),
    ]);
    let order = e.prepare().expect("acyclic graph must schedule");
    assert_eq!(order.len(), 3);
    let pos = |x: usize| order.iter().position(|&y| y == x).unwrap();
    assert!(pos(2) < pos(1), "d compiles before a");
    assert!(pos(1) < pos(0), "a compiles before packaging");
    assert!(pos(2) < pos(0), "d compiles before packaging");
}

#[test]
fn empty_graph_schedules() {
    let e = Executor::new();
    assert_eq!(e.prepare().unwrap(), Vec::<usize>::new());
}

#[test]
fn missing_output_is_stale() {
    let e = exec_with(vec![("c", vec!["in.txt"], vec!["out.txt"])]);
    let fs = fs_with(vec![("in.txt", 5)]);
    assert!(is_stale(&e.tasks[0], &fs));
}

#[test]
fn newer_input_is_stale() {
    let e = exec_with(vec![("c", vec!["in.txt"], vec!["out.txt"])]);
    let fs = fs_with(vec![("in.txt", 10), ("out.txt", 5)]);
    assert!(is_stale(&e.tasks[0], &fs));
}

#[test]
fn older_input_is_fresh() {
    let e = exec_with(vec![("c", vec!["in.txt"], vec!["out.txt"])]);
    let fs = fs_with(vec![("in.txt", 5), ("out.txt", 10)]);
    assert!(!is_stale(&e.tasks[0], &fs));
}

#[test]
fn equal_times_are_fresh() {
    let e = exec_with(vec![("c", vec!["in.txt"], vec!["out.txt"])]);
    let fs = fs_with(vec![("in.txt", 7), ("out.txt", 7)]);
    assert!(!is_stale(&e.tasks[0], &fs));
}

#[test]
fn no_outputs_is_always_stale() {
    let e = exec_with(vec![("c", vec!["in.txt"], vec![])]);
    let fs = fs_with(vec![("in.txt", 1)]);
    assert!(is_stale(&e.tasks[0], &fs));
}

#[test]
fn directory_input_uses_newest_member() {
    let e = exec_with(vec![("c", vec!["classes/d"], vec!["app.jar"])]);
    // The directory itself is old, but a member under it is newer than
    // the output.
    let fs = fs_with(vec![
        ("classes/d", 1),
        ("classes/d/E.class", 20),
        ("app.jar", 10),
    ]);
    assert!(is_stale(&e.tasks[0], &fs));
    let fs2 = fs_with(vec![
        ("classes/d", 1),
        ("classes/d/E.class", 5),
        ("app.jar", 10),
    ]);
    assert!(!is_stale(&e.tasks[0], &fs2));
}

#[test]
fn idempotence_second_run_executes_nothing() {
    let e = exec_with(vec![
        ("compile", vec!["src/a/B.java"], vec!["classes/a"]),
        ("pack", vec!["classes/a"], vec!["app.jar"]),
    ]);
    let order = e.prepare().unwrap();
    // First run against sources newer than every output.
    let mut times: Vec<(String, u64)> = vec![("src/a/B.java".to_string(), 100)];
    let mut clock = 101u64;
    let mut executed_first = 0;
    for &x in &order {
        let mut fs = FsView::new();
        for (p, t) in &times {
            fs.record(p.clone(), *t);
        }
        if is_stale(&e.tasks[x], &fs) {
            executed_first += 1;
            for out in &e.tasks[x].outputs {
                times.retain(|(p, _)| p != out);
                times.push((out.clone(), clock));
            }
            clock += 1;
        }
    }
    assert_eq!(executed_first, 2);
    // Second run against the unchanged result: zero executions.
    let mut executed_second = 0;
    for &x in &order {
        let mut fs = FsView::new();
        for (p, t) in &times {
            fs.record(p.clone(), *t);
        }
        if is_stale(&e.tasks[x], &fs) {
            executed_second += 1;
        }
    }
    assert_eq!(executed_second, 0);
}

#[test]
fn incrementality_touch_reruns_only_dependents() {
    let e = exec_with(vec![
        ("compile_a", vec!["src/a/B.java"], vec!["classes/a"]),
        ("compile_d", vec!["src/d/E.java"], vec!["classes/d"]),
        ("pack", vec!["classes/a", "classes/d"], vec!["app.jar"]),
    ]);
    let order = e.prepare().unwrap();
    // Everything built at time 10, sources from time 5; then touch d's
    // source at time 20.
    let mut times: Vec<(String, u64)> = vec![
        ("src/a/B.java".to_string(), 5),
        ("src/d/E.java".to_string(), 20),
        ("classes/a".to_string(), 10),
        ("classes/d".to_string(), 10),
        ("app.jar".to_string(), 11),
    ];
    let mut clock = 21u64;
    let mut executed: Vec<usize> = Vec::new();
    for &x in &order {
        let mut fs = FsView::new();
        for (p, t) in &times {
            fs.record(p.clone(), *t);
        }
        if is_stale(&e.tasks[x], &fs) {
            executed.push(x);
            for out in &e.tasks[x].outputs {
                times.retain(|(p, _)| p != out);
                times.push((out.clone(), clock));
            }
            clock += 1;
        }
    }
    executed.sort();
    assert_eq!(executed, vec![1, 2], "exactly d's compile and the packaging rerun");
}

#[test]
fn failure_stops_dispatch() {
    let e = exec_with(vec![
        ("c0", vec![], vec!["a"]),
        ("c1", vec![], vec!["b"]),
        ("c2", vec!["a"], vec!["c"]),
    ]);
    let order = e.prepare().unwrap();
    let mut state = RunState::new(3);
    let first = state.pick_next(&e, &order).unwrap();
    state.mark_running(first);
    // The command of the first task exits with status 2: the run fails.
    state.mark_failed(first);
    assert_eq!(state.pick_next(&e, &order), None, "nothing new starts");
    assert!(state.run_failed());
}

#[test]
fn dispatched_tasks_may_settle_after_failure() {
    let e = exec_with(vec![("c0", vec![], vec!["a"]), ("c1", vec![], vec!["b"])]);
    let order = e.prepare().unwrap();
    let mut state = RunState::new(2);
    let first = state.pick_next(&e, &order).unwrap();
    state.mark_running(first);
    let second = state.pick_next(&e, &order).unwrap();
    state.mark_running(second);
    state.mark_failed(first);
    // The already-running second task settles, but the outcome stays
    // failure and nothing further is dispatched.
    state.mark_succeeded(second);
    assert_eq!(state.pick_next(&e, &order), None);
    assert!(state.run_failed());
}

#[test]
fn run_waits_for_dependencies() {
    let e = exec_with(vec![
        ("c0", vec!["b"], vec!["a"]),
        ("c1", vec![], vec!["b"]),
    ]);
    let order = e.prepare().unwrap();
    let mut state = RunState::new(2);
    let first = state.pick_next(&e, &order).unwrap();
    assert_eq!(first, 1, "only the dependency is ready");
    state.mark_running(first);
    assert_eq!(state.pick_next(&e, &order), None, "dependent waits");
    state.mark_succeeded(first);
    assert_eq!(state.pick_next(&e, &order), Some(0));
    state.mark_fresh(0);
    assert_eq!(state.pick_next(&e, &order), None);
    assert!(!state.run_failed());
}

#[test]
fn terminal_dimensions_hold_values() {
    let w = bob::terminal::Width(80);
    let h = bob::terminal::Height(24);
    assert_eq!(w.0, 80);
    assert_eq!(h.0, 24);
}
