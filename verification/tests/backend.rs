use bob::executor::Executor;
use bob::java::{
    detect_jar, detect_java, find_dependencies, find_main_class, find_modules,
    generate_jar_tasks, generate_javac_tasks, get_class_name, get_module_name, jar_run_command,
    java_run_command,
};
use bob::package::{Bobje, JarMetadata, Profile};
use bob::scan::SourceTexts;
use bob::task::ConfigError;

fn bobje(files: Vec<&str>) -> Bobje {
    Bobje {
        name: "demo".to_string(),
        version: "1.0.0".to_string(),
        profile: Profile::Debug,
        target_dir: "target".to_string(),
        javac_flags: String::new(),
        classpath: Vec::new(),
        jar: None,
        source_files: files.into_iter().map(|s| s.to_string()).collect(),
        dependencies: Vec::new(),
    }
}

fn texts(entries: Vec<(&str, Option<&str>)>) -> SourceTexts {
    let mut t = SourceTexts::new();
    for (p, c) in entries {
        t.record(p.to_string(), c.map(|s| s.to_string()));
    }
    t
}

#[test]
fn class_name_from_source_root() {
    assert_eq!(get_class_name("foo/src/a/B.java").unwrap(), "a.B");
    assert_eq!(get_class_name("src/Main.java").unwrap(), "Main");
    assert_eq!(get_class_name("gen/src-gen/a/C.java").unwrap(), "a.C");
    assert_eq!(get_class_name("src/a\\B.java").unwrap(), "a.B");
    assert_eq!(get_class_name("src/A.java.java").unwrap(), "A");
    assert_eq!(get_class_name("no/root/B.java"), None);
}

#[test]
fn module_name_strips_innermost_identifier() {
    assert_eq!(get_module_name("src/a/B.java").unwrap(), "a");
    assert_eq!(get_module_name("src/a/b/C.java").unwrap(), "a.b");
    assert_eq!(get_module_name("src/Main.java").unwrap(), "");
    assert_eq!(get_module_name("elsewhere/Main.java"), None);
}

#[test]
fn detects_java_by_extension() {
    assert!(detect_java(&bobje(vec!["src/a/B.java"])));
    assert!(!detect_java(&bobje(vec!["src/a/B.c", "README.md"])));
}

#[test]
fn detects_jar_by_metadata() {
    let mut b = bobje(vec![]);
    assert!(!detect_jar(&b));
    b.jar = Some(JarMetadata { main_class: None });
    assert!(detect_jar(&b));
}

#[test]
fn module_grouping_by_path() {
    let b = bobje(vec!["src/a/B.java", "src/a/C.java", "src/d/E.java"]);
    let modules = find_modules(&b).unwrap();
    assert_eq!(modules.len(), 2);
    assert_eq!(modules[0].name, "a");
    assert_eq!(modules[0].source_files, vec!["src/a/B.java", "src/a/C.java"]);
    assert_eq!(modules[1].name, "d");
    assert_eq!(modules[1].source_files, vec!["src/d/E.java"]);
}

#[test]
fn module_grouping_includes_dependencies_first() {
    let mut b = bobje(vec!["src/a/B.java"]);
    b.dependencies.push(bobje(vec!["src/lib/L.java"]));
    let modules = find_modules(&b).unwrap();
    assert_eq!(modules.len(), 2);
    assert_eq!(modules[0].name, "lib");
    assert_eq!(modules[1].name, "a");
}

#[test]
fn source_outside_root_is_fatal() {
    let b = bobje(vec!["stray/B.java"]);
    match find_modules(&b) {
        Err(ConfigError::SourceOutsideRoot(p)) => assert_eq!(p, "stray/B.java"),
        _ => panic!("expected a source-outside-root error"),
    }
}

#[test]
fn dependency_inference_finds_import() {
    let b = bobje(vec!["src/a/B.java", "src/d/E.java"]);
    let t = texts(vec![
        ("src/a/B.java", Some("package a;\nimport d.E;\nclass B {}\n")),
        ("src/d/E.java", Some("package d;\npublic class E {}\n")),
    ]);
    let modules = find_modules(&b).unwrap();
    let deps_a = find_dependencies(&modules[0], &modules, &t);
    assert_eq!(deps_a.len(), 1);
    assert_eq!(deps_a[0].name, "d");
    let deps_d = find_dependencies(&modules[1], &modules, &t);
    assert!(deps_d.is_empty());
}

#[test]
fn dependency_inference_ignores_unreadable_files() {
    let b = bobje(vec!["src/a/B.java", "src/d/E.java"]);
    let t = texts(vec![("src/a/B.java", None), ("src/d/E.java", None)]);
    let modules = find_modules(&b).unwrap();
    assert!(find_dependencies(&modules[0], &modules, &t).is_empty());
}

#[test]
fn dependency_adds_extra_input_and_orders_tasks() {
    let b = bobje(vec!["src/a/B.java", "src/d/E.java"]);
    let t = texts(vec![
        ("src/a/B.java", Some("import d.E;\nclass B {}\n")),
        ("src/d/E.java", Some("class E {}\n")),
    ]);
    let mut e = Executor::new();
    generate_javac_tasks(&b, &t, &mut e).unwrap();
    assert_eq!(e.tasks.len(), 2);
    let task_a = &e.tasks[0];
    assert!(task_a.inputs.contains(&"src/a/B.java".to_string()));
    assert!(
        task_a.inputs.contains(&"target/debug/classes/d".to_string()),
        "module a declares d's class directory as an extra input"
    );
    assert_eq!(task_a.outputs, vec!["target/debug/classes/a"]);
    let order = e.prepare().unwrap();
    let pos = |x: usize| order.iter().position(|&y| y == x).unwrap();
    assert!(pos(1) < pos(0), "d's task is scheduled before a's");
}

#[test]
fn mutual_imports_become_a_task_cycle() {
    // Module-level cycles are tolerated by the inference itself, but the
    // synthetic inputs they produce form a task-level cycle, which the
    // executor rejects before anything runs.
    let b = bobje(vec!["src/a/B.java", "src/d/E.java"]);
    let t = texts(vec![
        ("src/a/B.java", Some("import d.E;\nclass B {}\n")),
        ("src/d/E.java", Some("import a.B;\nclass E {}\n")),
    ]);
    let mut e = Executor::new();
    generate_javac_tasks(&b, &t, &mut e).unwrap();
    assert!(matches!(e.prepare(), Err(ConfigError::CycleDetected)));
}

#[test]
fn javac_command_is_exact() {
    let b = bobje(vec!["src/a/B.java", "src/a/C.java"]);
    let t = texts(vec![
        ("src/a/B.java", Some("class B {}\n")),
        ("src/a/C.java", Some("class C {}\n")),
    ]);
    let mut e = Executor::new();
    generate_javac_tasks(&b, &t, &mut e).unwrap();
    assert_eq!(e.tasks.len(), 1);
    assert_eq!(
        e.tasks[0].command,
        "javac -Xlint -Werror -g -cp target/debug/classes -d target/debug/classes \
         src/a/B.java src/a/C.java"
    );
}

#[test]
fn release_profile_and_declared_options_change_the_command() {
    let mut b = bobje(vec!["src/a/B.java"]);
    b.profile = Profile::Release;
    b.javac_flags = "-parameters".to_string();
    b.classpath = vec!["lib/extra.jar".to_string()];
    let t = texts(vec![("src/a/B.java", Some("class B {}\n"))]);
    let mut e = Executor::new();
    generate_javac_tasks(&b, &t, &mut e).unwrap();
    assert_eq!(
        e.tasks[0].command,
        "javac -Xlint -Werror -g:none -parameters -cp target/release/classes:lib/extra.jar \
         -d target/release/classes src/a/B.java"
    );
}

#[test]
fn dependency_modules_are_not_reemitted() {
    let mut b = bobje(vec!["src/a/B.java"]);
    b.dependencies.push(bobje(vec!["src/lib/L.java"]));
    let t = texts(vec![
        ("src/a/B.java", Some("class B {}\n")),
        ("src/lib/L.java", Some("class L {}\n")),
    ]);
    let mut e = Executor::new();
    generate_javac_tasks(&b, &t, &mut e).unwrap();
    assert_eq!(e.tasks.len(), 1, "only the package's own module compiles");
    assert_eq!(e.tasks[0].outputs, vec!["target/debug/classes/a"]);
}

#[test]
fn first_match_entry_point_policy() {
    let b = bobje(vec!["src/a/First.java", "src/a/Second.java"]);
    let t = texts(vec![
        (
            "src/a/First.java",
            Some("class First { public static void main(String[] a) {} }"),
        ),
        (
            "src/a/Second.java",
            Some("class Second { public static void main(String[] a) {} }"),
        ),
    ]);
    assert_eq!(find_main_class(&b, &t).unwrap(), "a.First");
    // Deterministic across repeated runs with an unchanged source list.
    assert_eq!(find_main_class(&b, &t).unwrap(), "a.First");
}

#[test]
fn entry_point_matches_unqualified_signature() {
    let b = bobje(vec!["src/Main.java"]);
    let t = texts(vec![(
        "src/Main.java",
        Some("class Main { static void main(String[] a) {} }"),
    )]);
    assert_eq!(find_main_class(&b, &t).unwrap(), "Main");
}

#[test]
fn missing_entry_point_is_fatal() {
    let b = bobje(vec!["src/a/B.java"]);
    let t = texts(vec![("src/a/B.java", Some("class B {}\n"))]);
    assert!(matches!(
        find_main_class(&b, &t),
        Err(ConfigError::MainClassNotFound)
    ));
}

#[test]
fn entry_point_outside_root_names_the_file() {
    // The first matching file decides, and when it lies under no source
    // root the error carries exactly that file.
    let b = bobje(vec!["stray/Main.java", "src/a/Second.java"]);
    let t = texts(vec![
        (
            "stray/Main.java",
            Some("class Main { public static void main(String[] a) {} }"),
        ),
        (
            "src/a/Second.java",
            Some("class Second { public static void main(String[] a) {} }"),
        ),
    ]);
    match find_main_class(&b, &t) {
        Err(ConfigError::SourceOutsideRoot(p)) => assert_eq!(p, "stray/Main.java"),
        _ => panic!("expected a source-outside-root error"),
    }
    match java_run_command(&b, &t) {
        Err(ConfigError::SourceOutsideRoot(p)) => assert_eq!(p, "stray/Main.java"),
        _ => panic!("expected a source-outside-root error"),
    }
}

#[test]
fn compile_generation_names_the_rootless_file() {
    let b = bobje(vec!["stray/B.java"]);
    let t = texts(vec![("stray/B.java", Some("class B {}\n"))]);
    let mut e = Executor::new();
    match generate_javac_tasks(&b, &t, &mut e) {
        Err(ConfigError::SourceOutsideRoot(p)) => assert_eq!(p, "stray/B.java"),
        _ => panic!("expected a source-outside-root error"),
    }
    assert!(e.tasks.is_empty(), "nothing was appended");
}

#[test]
fn jar_task_bundles_all_modules() {
    let mut b = bobje(vec!["src/a/B.java", "src/d/E.java"]);
    b.jar = Some(JarMetadata { main_class: Some("a.B".to_string()) });
    let t = texts(vec![
        ("src/a/B.java", Some("class B {}\n")),
        ("src/d/E.java", Some("class E {}\n")),
    ]);
    let mut e = Executor::new();
    generate_jar_tasks(&b, &t, &mut e).unwrap();
    assert_eq!(e.tasks.len(), 1);
    let jar = &e.tasks[0];
    assert_eq!(
        jar.command,
        "jar cfe target/debug/demo-1.0.0.jar a.B -C target/debug/classes ."
    );
    assert_eq!(
        jar.inputs,
        vec!["target/debug/classes/a", "target/debug/classes/d"]
    );
    assert_eq!(jar.outputs, vec!["target/debug/demo-1.0.0.jar"]);
}

#[test]
fn jar_task_falls_back_to_scanned_entry_point() {
    let mut b = bobje(vec!["src/a/B.java"]);
    b.jar = Some(JarMetadata { main_class: None });
    let t = texts(vec![(
        "src/a/B.java",
        Some("class B { public static void main(String[] x) {} }"),
    )]);
    let mut e = Executor::new();
    generate_jar_tasks(&b, &t, &mut e).unwrap();
    assert!(e.tasks[0].command.contains(" a.B "));
}

#[test]
fn jar_without_entry_point_is_fatal() {
    let mut b = bobje(vec!["src/a/B.java"]);
    b.jar = Some(JarMetadata { main_class: None });
    let t = texts(vec![("src/a/B.java", Some("class B {}\n"))]);
    let mut e = Executor::new();
    assert!(matches!(
        generate_jar_tasks(&b, &t, &mut e),
        Err(ConfigError::MainClassNotFound)
    ));
    assert!(e.tasks.is_empty(), "the error comes before anything is appended");
}

#[test]
fn run_commands_are_exact() {
    let b = bobje(vec!["src/a/B.java"]);
    let t = texts(vec![(
        "src/a/B.java",
        Some("class B { public static void main(String[] x) {} }"),
    )]);
    assert_eq!(
        java_run_command(&b, &t).unwrap(),
        "java -cp target/debug/classes a.B"
    );
    assert_eq!(jar_run_command(&b), "java -jar target/debug/demo-1.0.0.jar");
}
