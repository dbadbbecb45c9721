use nabs::graph::{ProjectRef, TaskRef};
use nabs::hashing::{hash_contents, hash_task_inputs, HashError, InputFile, TaskHashes};
use nabs::output::{annotation_text, build_command_outputs, AnnotatedWrite};
use nabs::paths::{split_components, ValidPath, WorkspaceRoot};
use nabs::registry::HashRegistry;
use nabs::runner::{
    git_decision, git_decision_outside, hash_decision, must_run, oracle_decision, CommandResult, TaskError, split_command, OutcomeSummary, Scheduler,
    SimplifiedOutcome, TaskAction, TaskAndDeps, TaskRun,
};
use nabs::workspace::{TaskInfo, TaskInputs};

fn tref(project: &str, name: &str) -> TaskRef {
    TaskRef(
        ProjectRef(ValidPath { root: WorkspaceRoot::new("/ws"), subpath: split_components(project) }),
        name.to_string(),
    )
}

fn digest(b: u8) -> nabs::hashing::Hash {
    nabs::hashing::Hash([b; 32])
}

#[test]
fn prefix_waits_for_more_bytes() {
    let mut w = AnnotatedWrite::new(b"p| ".to_vec());
    assert_eq!(w.write(b"ab"), b"p| ab".to_vec());
    assert_eq!(w.write(b"c\n"), b"c\n".to_vec());
    assert_eq!(w.write(b""), Vec::<u8>::new());
    assert_eq!(w.write(b"d\ne"), b"p| d\np| e".to_vec());
}

#[test]
fn split_writes_match_one_write() {
    let mut one = AnnotatedWrite::new(b"> ".to_vec());
    let whole = one.write(b"x\ny\nz");
    let mut two = AnnotatedWrite::new(b"> ".to_vec());
    let mut parts = two.write(b"x\ny");
    parts.extend(two.write(b"\nz"));
    assert_eq!(whole, parts);
}

#[test]
fn annotation_is_padded() {
    assert_eq!(annotation_text("lib", "fail", 7, 5), "    lib | fail  ".to_string());
    assert_eq!(annotation_text("library", "fail", 3, 2), "library | fail ".to_string());
}

#[test]
fn each_task_gets_its_own_prefix() {
    let a = TaskInfo {
        project: tref("library", "build").0,
        project_name: "library".to_string(),
        name: "build".to_string(),
        commands: vec![],
        inputs: TaskInputs::default(),
    };
    let b = TaskInfo {
        project: tref("svc", "test").0,
        project_name: "svc".to_string(),
        name: "test".to_string(),
        commands: vec![],
        inputs: TaskInputs::default(),
    };
    let mut outputs = build_command_outputs(&vec![&a, &b]);
    let first = String::from_utf8(outputs[0].stdout(b"one\n")).unwrap();
    let second = String::from_utf8(outputs[1].stderr(b"two\n")).unwrap();
    assert!(first.contains("library | build ") && first.ends_with("one\n"));
    assert!(second.contains("    svc | test  ") && second.ends_with("two\n"));
}

#[test]
fn commands_split_on_spaces() {
    assert_eq!(split_command("echo a  b"), vec!["echo", "a", "", "b"]);
    assert_eq!(split_command(""), vec![""]);
}

#[test]
fn empty_command_list_succeeds_at_once() {
    let mut run = TaskRun::new(vec![], true, None);
    assert!(matches!(run.start(), TaskAction::Succeed { save_hash: None }));
    let mut skipped = TaskRun::new(vec!["echo hi".to_string()], false, Some(digest(1)));
    assert!(matches!(skipped.start(), TaskAction::Skip));
}

#[test]
fn commands_run_in_order_until_one_fails() {
    let mut run = TaskRun::new(vec!["echo a".to_string(), "false".to_string(), "echo c".to_string()], true, Some(digest(7)));
    match run.start() {
        TaskAction::Spawn { program, args } => {
            assert_eq!(program, "echo");
            assert_eq!(args, vec!["a".to_string()]);
        }
        other => panic!("unexpected {:?}", other),
    }
    assert!(matches!(run.command_finished(CommandResult::Exited(true)), TaskAction::Spawn { .. }));
    assert!(matches!(run.command_finished(CommandResult::Exited(false)), TaskAction::Fail(TaskError::CommandError(_))));
    let mut ok = TaskRun::new(vec!["true".to_string()], true, Some(digest(7)));
    ok.start();
    match ok.command_finished(CommandResult::Exited(true)) {
        TaskAction::Succeed { save_hash: Some(h) } => assert_eq!(h.0, [7u8; 32]),
        other => panic!("unexpected {:?}", other),
    }
}

#[test]
fn oracle_decisions() {
    assert!(hash_decision(&None, &Some(digest(1))));
    assert!(hash_decision(&Some(digest(1)), &None));
    assert!(!hash_decision(&Some(digest(1)), &Some(digest(1))));
    assert!(hash_decision(&Some(digest(1)), &Some(digest(2))));
    assert!(!git_decision(&vec![]));
    assert!(git_decision(&vec!["a".to_string()]));
    assert!(must_run(false, OutcomeSummary::SomeChange));
    assert!(!must_run(false, OutcomeSummary::NoChange));
}

fn chain() -> Vec<TaskAndDeps> {
    vec![
        TaskAndDeps { task_ref: tref("library", "fail"), deps: vec![] },
        TaskAndDeps { task_ref: tref("service", "fail"), deps: vec![tref("library", "fail")] },
        TaskAndDeps { task_ref: tref("other", "fail"), deps: vec![] },
    ]
}

#[test]
fn failure_stops_dispatch() {
    let mut s = Scheduler::new(&chain());
    let mut first = s.take_ready();
    first.sort();
    assert_eq!(first, vec![0, 2]);
    s.complete(0, SimplifiedOutcome::Failed);
    assert!(s.take_ready().is_empty());
    assert_eq!(s.in_flight(), 1);
    s.complete(2, SimplifiedOutcome::Successful);
    assert_eq!(s.in_flight(), 0);
    assert!(s.take_ready().is_empty());
}

#[test]
fn dependants_start_after_success() {
    let mut s = Scheduler::new(&chain());
    let _ = s.take_ready();
    s.complete(0, SimplifiedOutcome::Successful);
    assert_eq!(s.dependency_outcome(1), OutcomeSummary::SomeChange);
    assert_eq!(s.take_ready(), vec![1]);
    let mut t = Scheduler::new(&chain());
    let _ = t.take_ready();
    t.complete(0, SimplifiedOutcome::Skipped);
    assert_eq!(t.dependency_outcome(1), OutcomeSummary::NoChange);
    assert_eq!(t.take_ready(), vec![1]);
}

fn file(path: &str, b: u8) -> InputFile {
    InputFile { path: split_components(path), digest: digest(b) }
}

#[test]
fn no_globs_means_no_hash() {
    let r = hash_task_inputs(&vec![file("a.txt", 1)], &vec![], &vec![], &vec![], &vec![]);
    assert!(matches!(r, Ok(None)));
    let r = hash_task_inputs(&vec![], &vec![], &vec![], &vec!["HOME".to_string()], &vec![]);
    assert!(matches!(r, Err(HashError::EnvInputsUnsupported)));
}

#[test]
fn hash_ignores_non_inputs_and_order() {
    let globs = vec!["src/*".to_string()];
    let excl = vec![split_components("src/nested")];
    let base = vec![file("src/a", 1), file("src/b", 2)];
    let h1 = hash_task_inputs(&base, &globs, &excl, &vec![], &vec![]).unwrap().unwrap();
    let more = vec![file("src/b", 2), file("test.txt", 9), file("src/nested/x", 5), file("src/a", 1)];
    let h2 = hash_task_inputs(&more, &globs, &excl, &vec![], &vec![]).unwrap().unwrap();
    assert_eq!(h1.0, h2.0);
    let changed = vec![file("src/a", 1), file("src/b", 3)];
    let h3 = hash_task_inputs(&changed, &globs, &excl, &vec![], &vec![]).unwrap().unwrap();
    assert_ne!(h1.0, h3.0);
    let bad = hash_task_inputs(&base, &vec!["a[".to_string()], &excl, &vec![], &vec![]);
    assert!(matches!(bad, Err(HashError::InvalidGlob)));
}

#[test]
fn test_file_hashes_are_consistent() {
    let files = vec![
        InputFile { path: split_components("blah.txt"), digest: hash_contents(b"hello world") },
        InputFile { path: split_components("project.kdl"), digest: hash_contents(b"project \"hello\"") },
    ];
    let globs = vec!["*".to_string()];
    let first = hash_task_inputs(&files, &globs, &vec![], &vec![], &vec![]).unwrap().unwrap();
    let second = hash_task_inputs(&files, &globs, &vec![], &vec![], &vec![]).unwrap().unwrap();
    assert_eq!(first.0, second.0);
    assert_eq!(hash_contents(b"").0, *blake3::hash(b"").as_bytes());
}

#[test]
fn registry_update_and_lookup() {
    let mut reg = HashRegistry::new();
    let t = tref("library", "build");
    assert!(reg.lookup(&t).is_none());
    reg.update_input_hash(t.clone(), digest(4));
    let got: TaskHashes = reg.lookup(&t).unwrap();
    assert_eq!(got.inputs.unwrap().0, [4u8; 32]);
    assert!(got.outputs.is_none());
    reg.update_input_hash(t.clone(), digest(5));
    assert_eq!(reg.lookup(&t).unwrap().inputs.unwrap().0, [5u8; 32]);
    let records = reg.to_records();
    assert_eq!(records.len(), 1);
    assert_eq!(records[0].project, "library");
    assert_eq!(records[0].task, "build");
}

fn run_once(reg: &mut HashRegistry, hashes: &[nabs::hashing::Hash; 2]) -> Vec<String> {
    let tasks = vec![
        TaskAndDeps { task_ref: tref("library", "build"), deps: vec![] },
        TaskAndDeps { task_ref: tref("service", "build"), deps: vec![tref("library", "build")] },
    ];
    let mut s = Scheduler::new(&tasks);
    let mut ran = vec![];
    loop {
        let ready = s.take_ready();
        if ready.is_empty() && s.in_flight() == 0 {
            break;
        }
        for i in ready {
            let t = s.task(i).clone();
            let last = reg.lookup(&t).and_then(|h| h.inputs);
            let oracle = hash_decision(&Some(hashes[i]), &last);
            let run = must_run(oracle, s.dependency_outcome(i));
            let mut task_run = TaskRun::new(vec!["echo built".to_string()], run, Some(hashes[i]));
            let mut action = task_run.start();
            let outcome = loop {
                match action {
                    TaskAction::Skip => break SimplifiedOutcome::Skipped,
                    TaskAction::Spawn { .. } => action = task_run.command_finished(CommandResult::Exited(true)),
                    TaskAction::Succeed { save_hash } => {
                        if let Some(h) = save_hash {
                            reg.update_input_hash(t.clone(), h);
                        }
                        ran.push(t.to_string());
                        break SimplifiedOutcome::Successful;
                    }
                    TaskAction::Fail(_) => break SimplifiedOutcome::Failed,
                }
            };
            s.complete(i, outcome);
        }
    }
    ran
}

#[test]
fn unchanged_inputs_skip_on_second_run() {
    let mut reg = HashRegistry::new();
    let hashes = [digest(1), digest(2)];
    assert_eq!(run_once(&mut reg, &hashes), vec!["library::build", "service::build"]);
    assert!(run_once(&mut reg, &hashes).is_empty());
}

#[test]
fn changed_dependency_reruns_dependants() {
    let mut reg = HashRegistry::new();
    run_once(&mut reg, &[digest(1), digest(2)]);
    assert_eq!(
        run_once(&mut reg, &[digest(3), digest(2)]),
        vec!["library::build", "service::build"]
    );
}

fn hash_of(files: &Vec<InputFile>, globs: &[&str], excl: &[&str]) -> [u8; 32] {
    let globs: Vec<String> = globs.iter().map(|g| g.to_string()).collect();
    let excl: Vec<Vec<String>> = excl.iter().map(|e| split_components(e)).collect();
    hash_task_inputs(files, &globs, &excl, &vec![], &vec![]).unwrap().unwrap().0
}

#[test]
fn test_file_hashes_detect_changes() {
    let before = vec![file("blah.txt", 1)];
    let after = vec![file("blah.txt", 1), file("test.txt", 2)];
    assert_ne!(hash_of(&before, &["*"], &[]), hash_of(&after, &["*"], &[]));
}

#[test]
fn test_file_hashes_only_hashes_glob_matches() {
    let before = vec![file("src/hello", 1)];
    let after = vec![file("src/hello", 1), file("test.txt", 2)];
    assert_eq!(hash_of(&before, &["src/*"], &[]), hash_of(&after, &["src/*"], &[]));
}

#[test]
fn test_excludes_arent_hashed() {
    let before = vec![file("src/hello", 1), file("src/nested/blah", 3)];
    let after = vec![file("src/hello", 1), file("src/nested/blah", 3), file("src/nested/test.txt", 2)];
    assert_eq!(
        hash_of(&before, &["src/*"], &["src/nested"]),
        hash_of(&after, &["src/*"], &["src/nested"])
    );
}

#[test]
fn nested_changes_belong_to_the_nested_project() {
    let nested = vec![split_components("service/nested")];
    let only_nested = vec![split_components("service/nested/file.txt")];
    assert!(!git_decision_outside(&only_nested, &nested));
    let own = vec![split_components("service/file.txt"), split_components("service/nested/a")];
    assert!(git_decision_outside(&own, &nested));
    assert!(!git_decision_outside(&vec![], &nested));
}

#[test]
fn failure_kinds_are_kept() {
    let mut run = TaskRun::new(vec!["x".to_string()], true, None);
    run.start();
    assert!(matches!(run.command_finished(CommandResult::OutputFailed), TaskAction::Fail(TaskError::OutputError)));
    let mut run = TaskRun::new(vec!["x".to_string()], true, None);
    run.start();
    match run.command_finished(CommandResult::SpawnFailed("no such program".to_string())) {
        TaskAction::Fail(TaskError::CommandError(m)) => assert_eq!(m, "no such program"),
        other => panic!("unexpected {:?}", other),
    }
}

#[test]
fn oracle_picks_git_when_given() {
    assert!(!oracle_decision(Some(false), &None, &None));
    assert!(oracle_decision(None, &None, &None));
    assert!(!oracle_decision(None, &Some(digest(1)), &Some(digest(1))));
}
