use nabs::exclusions::calculate_exclusions;
use nabs::graph::{GraphError, ProjectRef, TaskRef};
use nabs::paths::{split_components, PathError, ValidPath, WorkspaceRoot};
use nabs::workspace::{
    parse_selector, ParsedSelector,
    ProjectFile, SpecificProjectSelector, Spanned, TargetSelector, TaskDefinition, TaskInputs,
    TaskRequires, TaskResolutionError, Workspace, WorkspaceError, WorkspaceInfo,
};

fn root() -> WorkspaceRoot {
    WorkspaceRoot::new("/ws")
}

fn vp(path: &str) -> ValidPath {
    ValidPath { root: root(), subpath: split_components(path) }
}

fn task(name: &str, commands: &[&str], requires: Vec<TaskRequires>) -> TaskDefinition {
    TaskDefinition {
        name: name.to_string(),
        commands: commands.iter().map(|c| c.to_string()).collect(),
        requires,
        inputs: TaskInputs::default(),
    }
}

fn req(name: &str, target: Option<TargetSelector>) -> TaskRequires {
    TaskRequires {
        task: Spanned { value: name.to_string(), span: (0, 0) },
        target: target.map(|t| Spanned { value: t, span: (1, 2) }),
    }
}

fn by_name(name: &str) -> Option<TargetSelector> {
    Some(TargetSelector::SpecificDependency(Spanned {
        value: SpecificProjectSelector::ByName(name.to_string()),
        span: (3, 4),
    }))
}

fn project(name: &str, path: &str, deps: &[&str], tasks: Vec<TaskDefinition>) -> ProjectFile {
    ProjectFile {
        name: name.to_string(),
        root: vp(path),
        dependencies: deps.iter().map(|d| vp(d)).collect(),
        tasks,
    }
}

fn workspace(files: Vec<ProjectFile>) -> Result<Workspace, nabs::workspace::ConfigError> {
    let mut ws = Workspace::new(WorkspaceInfo {
        name: "test".to_string(),
        project_paths: vec![],
        root_path: root(),
    });
    ws.add_projects(files)?;
    Ok(ws)
}

fn tref(project: &str, name: &str) -> TaskRef {
    TaskRef(ProjectRef(vp(project)), name.to_string())
}

fn names(v: &[TaskRef]) -> Vec<String> {
    v.iter().map(|t| t.to_string()).collect()
}

fn service_and_library() -> Workspace {
    workspace(vec![
        project(
            "service",
            "service",
            &["library"],
            vec![task("build", &["echo service"], vec![req("build", Some(TargetSelector::DependenciesOfCurrent))])],
        ),
        project("library", "library", &[], vec![task("build", &["echo library"], vec![])]),
    ])
    .unwrap()
}

#[test]
fn topsort_puts_dependencies_first() {
    let ws = service_and_library();
    let order = names(&ws.graph().topsort_tasks());
    assert_eq!(order, vec!["library::build".to_string(), "service::build".to_string()]);
    assert_eq!(names(&ws.graph().topsort_tasks()), order);
}

#[test]
fn walks_and_direct_dependencies() {
    let ws = service_and_library();
    let g = ws.graph();
    let deps = names(&g.walk_task_dependencies(&tref("service", "build")));
    assert_eq!(deps.len(), 2);
    assert!(deps.contains(&"library::build".to_string()));
    assert!(deps.contains(&"service::build".to_string()));
    let lib_deps = names(&g.walk_task_dependencies(&tref("library", "build")));
    assert_eq!(lib_deps, vec!["library::build".to_string()]);
    assert_eq!(names(&g.direct_task_dependencies(&tref("service", "build"))), vec!["library::build".to_string()]);
    let dependents: Vec<String> = g
        .walk_project_dependents(&ProjectRef(vp("library")))
        .iter()
        .map(|p| p.as_str())
        .collect();
    assert_eq!(dependents.len(), 2);
    assert!(g.has_project_dependency(&ProjectRef(vp("service")), &ProjectRef(vp("library"))));
    assert!(!g.has_project_dependency(&ProjectRef(vp("library")), &ProjectRef(vp("service"))));
    assert_eq!(names(&g.project_tasks(&ProjectRef(vp("library")))), vec!["library::build".to_string()]);
}

#[test]
fn requires_against_unrelated_project_is_rejected() {
    let result = workspace(vec![
        project("service", "service", &[], vec![task("build", &[], vec![req("build", by_name("library"))])]),
        project("library", "library", &[], vec![task("build", &[], vec![])]),
    ]);
    let errors = result.err().unwrap().errors;
    assert_eq!(errors.len(), 1);
    assert!(matches!(
        errors[0],
        WorkspaceError::Resolution(TaskResolutionError::RequiredFromUnrelatedProject { .. })
    ));
}

#[test]
fn requires_of_unknown_project_and_missing_task() {
    let result = workspace(vec![project(
        "service",
        "service",
        &[],
        vec![task("build", &[], vec![req("build", by_name("nowhere")), req("lint", None)])],
    )]);
    let errors = result.err().unwrap().errors;
    assert_eq!(errors.len(), 2);
    assert!(matches!(
        errors[0],
        WorkspaceError::Resolution(TaskResolutionError::UnknownProjectByName { .. })
    ));
    assert!(matches!(
        errors[1],
        WorkspaceError::Resolution(TaskResolutionError::NoMatchingTasksForImplicitSelf { .. })
    ));
}

#[test]
fn cyclic_dependencies_are_rejected() {
    let projects = workspace(vec![
        project("a", "a", &["b"], vec![]),
        project("b", "b", &["a"], vec![]),
    ]);
    let errors = projects.err().unwrap().errors;
    assert!(matches!(errors[0], WorkspaceError::Graph(GraphError::ProjectCycle)));

    let tasks = workspace(vec![project(
        "a",
        "a",
        &[],
        vec![
            task("one", &[], vec![req("two", None)]),
            task("two", &[], vec![req("one", None)]),
        ],
    )]);
    let errors = tasks.err().unwrap().errors;
    assert!(matches!(errors[0], WorkspaceError::Graph(GraphError::TaskCycle)));
}

#[test]
fn self_requirement_is_no_edge() {
    let ws = workspace(vec![project("a", "a", &[], vec![task("one", &[], vec![req("one", None)])])]).unwrap();
    assert!(ws.graph().direct_task_dependencies(&tref("a", "one")).is_empty());
}

#[test]
fn unknown_dependency_path_is_rejected() {
    let result = workspace(vec![project("a", "a", &["missing"], vec![])]);
    let errors = result.err().unwrap().errors;
    assert!(matches!(errors[0], WorkspaceError::Graph(GraphError::UnknownProject(_))));
}

#[test]
fn lookups_by_name_and_path() {
    let ws = service_and_library();
    assert_eq!(ws.project_by_name(&"library".to_string()).unwrap().root.as_subpath(), "library");
    assert!(ws.project_by_name(&"nope".to_string()).is_none());
    assert_eq!(ws.project_at_path(&vp("service")).unwrap().name, "service");
    assert_eq!(ws.lookup_task(&tref("service", "build")).unwrap().commands, vec!["echo service".to_string()]);
}

#[test]
fn test_calculate_exclusions() {
    let input = [
        test_pair("libs/one"),
        test_pair("libs/two"),
        test_pair("libs/one/subproject"),
        test_pair("libs/one/subproject/nested"),
        test_pair("libs/one-but-not-a-folder"),
    ];

    let exclusions = calculate_exclusions(&input.to_vec())
        .into_iter()
        .map(|(project, paths)| {
            let paths = paths.into_iter().map(|p| p.as_subpath()).collect::<Vec<_>>();
            (project.as_str(), paths)
        })
        .collect::<std::collections::HashMap<_, _>>();

    assert_eq!(exclusions["libs/one"], vec!["libs/one/subproject"]);
    assert!(exclusions["libs/two"].is_empty());
    assert_eq!(exclusions["libs/one/subproject"], vec!["libs/one/subproject/nested"]);
    assert!(exclusions["libs/one/subproject/nested"].is_empty());
    assert!(exclusions["libs/one-but-not-a-folder"].is_empty());
}

fn test_pair(path: &str) -> (ProjectRef, ValidPath) {
    let path = ValidPath {
        root: WorkspaceRoot::new("/Users/naebody/src"),
        subpath: split_components(path),
    };
    (ProjectRef(path.clone()), path)
}

#[test]
fn test_workspace_root_new() {
    assert_eq!(WorkspaceRoot::new("/workspace").as_str(), "/workspace/");
    assert_eq!(WorkspaceRoot::new("/workspace/").as_str(), "/workspace/");
}

#[test]
fn test_normalize_path() {
    let root = WorkspaceRoot::new("/");
    let p = root.subpath("/workspace/projects/../../hello.json").unwrap();
    assert_eq!(p.to_absolute(), "/hello.json");
    let q = root.subpath("/hello.json").unwrap();
    assert_eq!(q.to_absolute(), "/hello.json");
}

#[test]
fn joins_outside_the_root_fail() {
    let base = vp("projects/app");
    assert!(matches!(base.join("../../../etc"), Err(PathError::PathNotInWorkspace(_))));
    assert_eq!(base.join("../lib/./src").unwrap().subpath(), "projects/lib/src");
    assert_eq!(base.join("/other").unwrap().subpath(), "other");
    assert_eq!(base.parent().unwrap().as_subpath(), "projects");
    assert!(vp("").parent().is_none());
    assert_eq!(base.full_path(), "/ws/projects/app");
}

#[test]
fn test_validate_relative_path_doesnt_let_you_escape_via_symlinks() {
    let rel = root().subpath("projects/whatever/sh").unwrap();
    assert!(matches!(rel.validate("/bin/sh"), Err(PathError::PathNotInWorkspace(_))));
    let rel = root().subpath("projects/whatever").unwrap();
    assert_eq!(rel.validate("/ws/projects/whatever").unwrap().as_subpath(), "projects/whatever");
}

#[test]
fn parsing_selector() {
    assert!(matches!(parse_selector("self").unwrap(), ParsedSelector::CurrentProject));
    assert!(matches!(parse_selector("^self").unwrap(), ParsedSelector::DependenciesOfCurrent));
    match parse_selector("some-project-name").unwrap() {
        ParsedSelector::ProjectByName(name, _) => assert_eq!(name, "some-project-name"),
        other => panic!("unexpected {:?}", other),
    }
    match parse_selector("/lib/project").unwrap() {
        ParsedSelector::ProjectByPath(name, _) => assert_eq!(name, "/lib/project"),
        other => panic!("unexpected {:?}", other),
    }
    assert!(parse_selector("").is_none());
    assert!(parse_selector("two words").is_none());
}

#[test]
fn innermost_project_wins() {
    let ws = workspace(vec![
        project("service", "service", &[], vec![]),
        project("nested", "service/nested", &[], vec![]),
    ])
    .unwrap();
    let i = ws.innermost_project(&split_components("service/nested/file.txt")).unwrap();
    assert_eq!(ws.projects()[i].name, "nested");
    let j = ws.innermost_project(&split_components("service/file.txt")).unwrap();
    assert_eq!(ws.projects()[j].name, "service");
    assert!(ws.innermost_project(&split_components("elsewhere/file.txt")).is_none());
}

#[test]
fn filter_and_find_tasks() {
    let ws = service_and_library();
    let targets = ws.filter_projects(&vec!["service".to_string()]);
    assert_eq!(targets.len(), 1);
    let tasks = ws.find_tasks(&targets, &vec!["build".to_string()]);
    let order: Vec<String> = tasks.iter().map(|t| t.task_ref.to_string()).collect();
    assert_eq!(order, vec!["library::build".to_string(), "service::build".to_string()]);
    assert!(tasks[0].deps.is_empty());
    assert_eq!(names(&tasks[1].deps), vec!["library::build".to_string()]);
    assert_eq!(ws.filter_projects(&vec![]).len(), 2);
    assert_eq!(ws.filter_projects(&vec!["library".to_string()])[0].as_str(), "library");
}

#[test]
fn test_task_ref_direct_dependencies() {
    let ws = workspace(vec![
        project(
            "a-service",
            "projects/a-service",
            &["projects/a-lib"],
            vec![task("build", &[], vec![req("build", Some(TargetSelector::DependenciesOfCurrent))])],
        ),
        project("a-lib", "projects/a-lib", &[], vec![task("build", &[], vec![])]),
    ])
    .unwrap();
    let deps = names(&ws.graph().direct_task_dependencies(&tref("projects/a-service", "build")));
    assert_eq!(deps, vec!["projects/a-lib::build".to_string()]);
}

#[test]
fn test_joining_relative_paths_doesnt_let_you_escape_workspace() {
    let root = WorkspaceRoot::new("/workspace");
    let escape = |r: Result<nabs::paths::RelativePath, PathError>| match r {
        Err(PathError::PathNotInWorkspace(p)) => p,
        other => panic!("unexpected {:?}", other),
    };
    assert_eq!(escape(root.subpath("/projects/a-service").unwrap().join("../../../hello.json")), "/hello.json");
    assert_eq!(escape(root.subpath("/").unwrap().join("../hello.json")), "/hello.json");
    assert_eq!(escape(root.subpath("/").unwrap().join("/../hello.json")), "/hello.json");
}

#[test]
fn empty_command_lists_are_accepted_and_stored() {
    let ws = workspace(vec![project("a", "a", &[], vec![task("noop", &[], vec![])])]).unwrap();
    assert!(ws.lookup_task(&tref("a", "noop")).unwrap().commands.is_empty());
}

#[test]
fn repeated_task_names_are_rejected() {
    let result = workspace(vec![project("a", "a", &[], vec![task("x", &[], vec![]), task("x", &[], vec![])])]);
    let errors = result.err().unwrap().errors;
    assert!(matches!(errors[0], WorkspaceError::Graph(GraphError::DuplicateTask(_))));
}

#[test]
fn changes_affect_innermost_project_and_dependents() {
    let ws = workspace(vec![
        project("service", "service", &["library"], vec![]),
        project("library", "library", &[], vec![]),
        project("nested", "service/nested", &[], vec![]),
    ])
    .unwrap();
    let mut names: Vec<String> = ws
        .affected_projects(&vec![split_components("library/file.txt")])
        .iter()
        .map(|p| p.as_str())
        .collect();
    names.sort();
    assert_eq!(names, vec!["library".to_string(), "service".to_string()]);
    let only: Vec<String> = ws
        .affected_projects(&vec![split_components("service/nested/file.txt")])
        .iter()
        .map(|p| p.as_str())
        .collect();
    assert_eq!(only, vec!["service/nested".to_string()]);
}
