//! Projects, tasks, and the resolution of `requires` clauses against the
//! workspace graph.
use vstd::prelude::*;

use crate::graph::{
    dep_total, has_cycle, is_cycle_error, mentions_project, mentions_task, order_kinds, project_views,
    repeats_project, repeats_task, task_views, GraphError, NodeKey, ProjectRef, TaskRef,
    WorkspaceGraph, PROJECT_DEPENDS_ON,
};
use crate::runner::{lists_task, TaskAndDeps};
use crate::paths::{same_text, ValidPath, WorkspaceRoot};

verus! {

/// The inputs a task declares.
#[derive(Debug, Clone, Default)]
pub struct TaskInputs {
    pub paths: Vec<String>,
    pub env_vars: Vec<String>,
    pub commands: Vec<String>,
}

impl TaskInputs {
    pub fn is_empty(&self) -> (r: bool)
        ensures
            r == (self.paths.len() == 0 && self.env_vars.len() == 0 && self.commands.len() == 0),
    {
        self.paths.len() == 0 && self.env_vars.len() == 0 && self.commands.len() == 0
    }

    /// A copy of these inputs.
    pub fn duplicate(&self) -> (r: TaskInputs)
        ensures
            r.paths.deep_view() == self.paths.deep_view(),
            r.env_vars.deep_view() == self.env_vars.deep_view(),
            r.commands.deep_view() == self.commands.deep_view(),
    {
        TaskInputs {
            paths: crate::paths::clone_components(&self.paths),
            env_vars: crate::paths::clone_components(&self.env_vars),
            commands: crate::paths::clone_components(&self.commands),
        }
    }

    pub fn len(&self) -> (r: usize)
        requires
            self.paths.len() + self.env_vars.len() + self.commands.len() <= usize::MAX,
        ensures
            r == self.paths.len() + self.env_vars.len() + self.commands.len(),
    {
        self.paths.len() + self.env_vars.len() + self.commands.len()
    }
}

/// A project: its display name, its root, and the projects it depends on.
#[derive(Debug)]
pub struct ProjectInfo {
    pub name: String,
    pub dependencies: Vec<ProjectRef>,
    pub root: ValidPath,
}

impl ProjectInfo {
    pub fn project_ref(&self) -> (r: ProjectRef)
        ensures
            r@ == self.root@,
    {
        ProjectRef(self.root.duplicate())
    }
}

/// A task: its project, its name, its commands and its inputs.
#[derive(Debug)]
pub struct TaskInfo {
    pub project: ProjectRef,
    pub project_name: String,
    pub name: String,
    pub commands: Vec<String>,
    pub inputs: TaskInputs,
}

impl TaskInfo {
    pub open spec fn ref_view(&self) -> (Seq<Seq<char>>, Seq<char>) {
        (self.project@, self.name@)
    }

    pub fn task_ref(&self) -> (r: TaskRef)
        ensures
            r@ == self.ref_view(),
    {
        TaskRef(self.project.duplicate(), self.name.clone())
    }
}

/// Some project of `projects` has root `p`.
pub open spec fn declares_project(projects: Seq<ProjectInfo>, p: Seq<Seq<char>>) -> bool {
    exists|i: int| 0 <= i < projects.len() && #[trigger] projects[i].root@ == p
}

/// A project of `projects` with root `a` lists `b` among its dependencies.
pub open spec fn declares_dependency(
    projects: Seq<ProjectInfo>,
    a: Seq<Seq<char>>,
    b: Seq<Seq<char>>,
) -> bool {
    exists|i: int, j: int|
        0 <= i < projects.len() && 0 <= j < projects[i].dependencies@.len() && #[trigger] projects[i].root@
            == a && #[trigger] projects[i].dependencies@[j]@ == b
}

/// Some task of `tasks` is `t`.
pub open spec fn declares_task(tasks: Seq<TaskInfo>, t: (Seq<Seq<char>>, Seq<char>)) -> bool {
    exists|i: int| 0 <= i < tasks.len() && #[trigger] tasks[i].ref_view() == t
}

/// A requirement lists `b` among the dependencies of `a`.
pub open spec fn declares_requirement(
    reqs: Seq<(TaskRef, Vec<TaskRef>)>,
    a: (Seq<Seq<char>>, Seq<char>),
    b: (Seq<Seq<char>>, Seq<char>),
) -> bool {
    exists|i: int, j: int|
        0 <= i < reqs.len() && 0 <= j < reqs[i].1@.len() && #[trigger] reqs[i].0@ == a
            && #[trigger] reqs[i].1@[j]@ == b
}


/// A value read from configuration, with the byte range it came from.
#[derive(Debug)]
pub struct Spanned<T> {
    pub value: T,
    pub span: (usize, usize),
}

impl<T> Spanned<T> {
    pub fn into_inner(self) -> (r: T)
        ensures
            r == self.value,
    {
        self.value
    }
}

/// How a `requires` clause names a project.
#[derive(Debug)]
pub enum SpecificProjectSelector {
    ByName(String),
    ByPath(ValidPath),
}

/// Which projects a `requires` clause addresses.
#[derive(Debug)]
pub enum TargetSelector {
    CurrentProject,
    DependenciesOfCurrent,
    SpecificDependency(Spanned<SpecificProjectSelector>),
}

/// A `requires` clause: a task name and, optionally, where to find it.
#[derive(Debug)]
pub struct TaskRequires {
    pub task: Spanned<String>,
    pub target: Option<Spanned<TargetSelector>>,
}

/// How a diagnostic refers to the addressed projects.
#[derive(Debug, Clone, Copy, PartialEq, Eq)]
pub enum TargetPronoun {
    This,
    These,
}

impl TargetPronoun {
    pub fn describe(&self) -> (r: String)
        ensures
            self is This ==> r@ == "this project does"@,
            self is These ==> r@ == "these projects do"@,
    {
        match self {
            TargetPronoun::This => String::from_str("this project does"),
            TargetPronoun::These => String::from_str("these projects do"),
        }
    }
}

/// Why a `requires` clause could not be resolved.
#[derive(Debug)]
pub enum TaskResolutionError {
    UnknownProjectByName { name: String, span: (usize, usize) },
    UnknownProjectByPath { path: ValidPath, span: (usize, usize) },
    RequiredFromUnrelatedProject {
        required_project: String,
        current_project: String,
        span: (usize, usize),
    },
    NoMatchingTasks {
        task_name_span: (usize, usize),
        target_span: (usize, usize),
        task_name: String,
        target_pronoun: TargetPronoun,
    },
    NoMatchingTasksForImplicitSelf {
        task_name_span: (usize, usize),
        task_name: String,
        current_project: String,
    },
}

/// The first project of `projects` named `name`, if any.
pub open spec fn first_named(projects: Seq<ProjectInfo>, name: Seq<char>, i: int) -> bool {
    &&& 0 <= i < projects.len()
    &&& projects[i].name@ == name
    &&& forall|k: int| 0 <= k < i ==> projects[k].name@ != name
}

/// A project of `projects` named `name`.
pub open spec fn has_named(projects: Seq<ProjectInfo>, name: Seq<char>) -> bool {
    exists|i: int| 0 <= i < projects.len() && #[trigger] projects[i].name@ == name
}

/// The project a specific selector picks, if it picks one.
pub open spec fn selected_project(projects: Seq<ProjectInfo>, sel: SpecificProjectSelector) -> Option<
    Seq<Seq<char>>,
> {
    match sel {
        SpecificProjectSelector::ByName(n) => if has_named(projects, n@) {
            Some(projects[choose|i: int| first_named(projects, n@, i)].root@)
        } else {
            None
        },
        SpecificProjectSelector::ByPath(p) => if declares_project(projects, p@) {
            Some(p@)
        } else {
            None
        },
    }
}

/// The project `q` is one that a clause of target `target`, written in the
/// project `current`, addresses.
pub open spec fn addresses(
    g: WorkspaceGraph,
    projects: Seq<ProjectInfo>,
    current: Seq<Seq<char>>,
    target: Option<Spanned<TargetSelector>>,
    q: Seq<Seq<char>>,
) -> bool {
    match target {
        None => q == current,
        Some(t) => match t.value {
            TargetSelector::CurrentProject => q == current,
            TargetSelector::DependenciesOfCurrent => g.key_edge(
                NodeKey::Project(current),
                NodeKey::Project(q),
                seq![PROJECT_DEPENDS_ON],
            ),
            TargetSelector::SpecificDependency(s) => selected_project(projects, s.value) == Some(q),
        },
    }
}

/// The task `t` is what a clause asks for.
pub open spec fn resolves_to(
    g: WorkspaceGraph,
    projects: Seq<ProjectInfo>,
    current: Seq<Seq<char>>,
    req: TaskRequires,
    t: (Seq<Seq<char>>, Seq<char>),
) -> bool {
    &&& t.1 == req.task.value@
    &&& g.has_key(NodeKey::Task(t))
    &&& addresses(g, projects, current, req.target, t.0)
}

/// The project that a clause names explicitly, when it names one that exists.
pub open spec fn named_target(projects: Seq<ProjectInfo>, req: TaskRequires) -> Option<
    Seq<Seq<char>>,
> {
    match req.target {
        Some(t) => match t.value {
            TargetSelector::SpecificDependency(s) => selected_project(projects, s.value),
            _ => None,
        },
        None => None,
    }
}

/// Whether the clause names a project explicitly that does not exist.
pub open spec fn names_missing_project(projects: Seq<ProjectInfo>, req: TaskRequires) -> bool {
    match req.target {
        Some(t) => match t.value {
            TargetSelector::SpecificDependency(s) => selected_project(projects, s.value) is None,
            _ => false,
        },
        None => false,
    }
}

/// The task `t` is requested as `(targets[p], names[n])`, or is a dependency of
/// such a task, direct or not.
pub open spec fn requested(
    g: WorkspaceGraph,
    targets: Seq<ProjectRef>,
    names: Seq<String>,
    p: int,
    n: int,
    t: (Seq<Seq<char>>, Seq<char>),
) -> bool {
    g.has_key(NodeKey::Task((targets[p]@, names[n]@))) && g.task_reaches((targets[p]@, names[n]@), t)
}

/// The tasks listed in `r`.
pub open spec fn listed(r: Seq<TaskAndDeps>) -> Seq<(Seq<Seq<char>>, Seq<char>)> {
    r.map_values(|x: TaskAndDeps| x.task_ref@)
}

/// What resolving `req`, written in the project with root `cur`, gives.
pub open spec fn resolve_outcome(
    graph: WorkspaceGraph,
    projects: Seq<ProjectInfo>,
    cur: Seq<Seq<char>>,
    req: TaskRequires,
    r: Result<Vec<TaskRef>, TaskResolutionError>,
) -> bool {
    &&& match r {
        Ok(ts) => {
            &&& ts.len() > 0
            &&& forall|t: (Seq<Seq<char>>, Seq<char>)|
                task_views(ts@).contains(t) <==> resolves_to(graph, projects, cur, req, t)
            &&& named_target(projects, req) matches Some(q) ==> graph.key_reaches(
                NodeKey::Project(cur),
                NodeKey::Project(q),
                seq![PROJECT_DEPENDS_ON],
            )
        },
        Err(TaskResolutionError::UnknownProjectByName { name, span }) => names_missing_project(projects, req)
            && req.target.unwrap().value->SpecificDependency_0.value is ByName
            && name@ == req.target.unwrap().value->SpecificDependency_0.value->ByName_0@
            && span == req.target.unwrap().value->SpecificDependency_0.span,
        Err(TaskResolutionError::UnknownProjectByPath { path, span }) => names_missing_project(projects, req)
            && req.target.unwrap().value->SpecificDependency_0.value is ByPath
            && path@ == req.target.unwrap().value->SpecificDependency_0.value->ByPath_0@
            && span == req.target.unwrap().value->SpecificDependency_0.span,
        Err(TaskResolutionError::RequiredFromUnrelatedProject { span, .. }) => named_target(projects, req) matches Some(q)
            && !graph.key_reaches(
            NodeKey::Project(cur),
            NodeKey::Project(q),
            seq![PROJECT_DEPENDS_ON],
        ) && span == req.target.unwrap().value->SpecificDependency_0.span,
        Err(TaskResolutionError::NoMatchingTasks { task_name_span, target_span, task_name, .. }) => req.target is Some
            && !names_missing_project(projects, req)
            && (forall|t: (Seq<Seq<char>>, Seq<char>)| !resolves_to(graph, projects, cur, req, t))
            && task_name_span == req.task.span && target_span == req.target.unwrap().span
            && task_name@ == req.task.value@,
        Err(TaskResolutionError::NoMatchingTasksForImplicitSelf { task_name_span, task_name, .. }) => req.target is None
            && (forall|t: (Seq<Seq<char>>, Seq<char>)| !resolves_to(graph, projects, cur, req, t))
            && task_name_span == req.task.span && task_name@ == req.task.value@,
    }
    &&& (named_target(projects, req) matches Some(q) && !graph.key_reaches(
        NodeKey::Project(cur),
        NodeKey::Project(q),
        seq![PROJECT_DEPENDS_ON],
    ) ==> r matches Err(TaskResolutionError::RequiredFromUnrelatedProject { .. }))
    &&& (names_missing_project(projects, req) ==> r is Err)
}

/// A clause resolves: any project it names exists and is `cur` or one of
/// its dependencies, and some task matches.
pub open spec fn clause_ok(
    g: WorkspaceGraph,
    projects: Seq<ProjectInfo>,
    cur: Seq<Seq<char>>,
    req: TaskRequires,
) -> bool {
    &&& !names_missing_project(projects, req)
    &&& (named_target(projects, req) matches Some(q) ==> g.key_reaches(
        NodeKey::Project(cur),
        NodeKey::Project(q),
        seq![PROJECT_DEPENDS_ON],
    ))
    &&& exists|t: (Seq<Seq<char>>, Seq<char>)| resolves_to(g, projects, cur, req, t)
}

proof fn lemma_resolved_ok(
    g: WorkspaceGraph,
    projects: Seq<ProjectInfo>,
    cur: Seq<Seq<char>>,
    req: TaskRequires,
    ts: Vec<TaskRef>,
)
    requires
        resolve_outcome(g, projects, cur, req, Ok(ts)),
    ensures
        clause_ok(g, projects, cur, req),
        forall|t: (Seq<Seq<char>>, Seq<char>)| task_views(ts@).contains(t) <==> resolves_to(g, projects, cur, req, t),
{
    assert(task_views(ts@)[0] == ts@[0]@);
    assert(task_views(ts@).contains(ts@[0]@));
    assert(resolves_to(g, projects, cur, req, ts@[0]@));
}

proof fn lemma_resolved_err(
    g: WorkspaceGraph,
    projects: Seq<ProjectInfo>,
    cur: Seq<Seq<char>>,
    req: TaskRequires,
    e: TaskResolutionError,
)
    requires
        resolve_outcome(g, projects, cur, req, Err(e)),
    ensures
        !clause_ok(g, projects, cur, req),
{
}

/// Every `requires` clause of every task in `files` resolves.
pub open spec fn all_clauses_ok(g: WorkspaceGraph, projects: Seq<ProjectInfo>, files: Seq<ProjectFile>) -> bool {
    clauses_ok_upto(g, projects, files, files.len() as int, 0)
}

/// The clauses of the tasks before task `d` of file `f` resolve.
pub open spec fn clauses_ok_upto(
    g: WorkspaceGraph,
    projects: Seq<ProjectInfo>,
    files: Seq<ProjectFile>,
    f: int,
    d: int,
) -> bool {
    forall|a: int, b: int, c: int|
        0 <= a < files.len() && 0 <= b < files[a].tasks@.len() && 0 <= c < files[a].tasks@[b].requires@.len()
            && (a < f || (a == f && b < d)) ==> #[trigger] clause_ok(
            g,
            projects,
            files[a].root@,
            files[a].tasks@[b].requires@[c],
        )
}

/// Each task a clause resolves to, other than the task itself, is a direct
/// dependency of it in the graph.
pub open spec fn resolved_linked(g: WorkspaceGraph, projects: Seq<ProjectInfo>, files: Seq<ProjectFile>) -> bool {
    forall|a: int, b: int, c: int, t: (Seq<Seq<char>>, Seq<char>)|
        0 <= a < files.len() && 0 <= b < files[a].tasks@.len() && 0 <= c < files[a].tasks@[b].requires@.len()
            && #[trigger] resolves_to(g, projects, files[a].root@, files[a].tasks@[b].requires@[c], t)
            && t != (files[a].root@, files[a].tasks@[b].name@) ==> g.depends_on(
            (files[a].root@, files[a].tasks@[b].name@),
            t,
        )
}

/// The requirements so far list, for the tasks before task `d` of file `f`,
/// every task their resolving clauses resolve to.
pub open spec fn linked_upto(
    g: WorkspaceGraph,
    projects: Seq<ProjectInfo>,
    files: Seq<ProjectFile>,
    reqs: Seq<(TaskRef, Vec<TaskRef>)>,
    f: int,
    d: int,
) -> bool {
    forall|a: int, b: int, c: int, t: (Seq<Seq<char>>, Seq<char>)|
        0 <= a < files.len() && 0 <= b < files[a].tasks@.len() && 0 <= c < files[a].tasks@[b].requires@.len()
            && (a < f || (a == f && b < d)) && clause_ok(g, projects, files[a].root@, files[a].tasks@[b].requires@[c])
            && #[trigger] resolves_to(g, projects, files[a].root@, files[a].tasks@[b].requires@[c], t)
            ==> declares_requirement(reqs, (files[a].root@, files[a].tasks@[b].name@), t)
}

/// Every task named in `reqs` is in the graph.
pub open spec fn reqs_present(g: WorkspaceGraph, reqs: Seq<(TaskRef, Vec<TaskRef>)>) -> bool {
    forall|k: int|
        0 <= k < reqs.len() ==> g.has_key(NodeKey::Task((#[trigger] reqs[k]).0@)) && forall|
            t: (Seq<Seq<char>>, Seq<char>),
        | task_views(reqs[k].1@).contains(t) ==> g.has_key(NodeKey::Task(t))
}

proof fn lemma_reqs_present_mentions(
    g: WorkspaceGraph,
    reqs: Seq<(TaskRef, Vec<TaskRef>)>,
    t: (Seq<Seq<char>>, Seq<char>),
)
    requires
        reqs_present(g, reqs),
        mentions_task(reqs, t),
    ensures
        g.has_key(NodeKey::Task(t)),
{
    if exists|i: int| 0 <= i < reqs.len() && #[trigger] reqs[i].0@ == t {
        let i = choose|i: int| 0 <= i < reqs.len() && #[trigger] reqs[i].0@ == t;
        assert(g.has_key(NodeKey::Task(reqs[i].0@)));
    } else {
        let (i, j) = choose|i: int, j: int|
            0 <= i < reqs.len() && 0 <= j < reqs[i].1@.len() && #[trigger] reqs[i].1@[j]@ == t;
        assert(task_views(reqs[i].1@)[j] == t);
        assert(task_views(reqs[i].1@).contains(t));
        assert(reqs_present(g, reqs));
        assert(g.has_key(NodeKey::Task(reqs[i].0@)));
    }
}

proof fn lemma_linked_step(
    g: WorkspaceGraph,
    projects: Seq<ProjectInfo>,
    files: Seq<ProjectFile>,
    before: Seq<(TaskRef, Vec<TaskRef>)>,
    reqs: Seq<(TaskRef, Vec<TaskRef>)>,
    f: int,
    d: int,
)
    requires
        0 <= f < files.len(),
        0 <= d < files[f].tasks@.len(),
        linked_upto(g, projects, files, before, f, d),
        reqs.len() == before.len() + 1,
        reqs.drop_last() == before,
        reqs.last().0@ == (files[f].root@, files[f].tasks@[d].name@),
        forall|x: int, t: (Seq<Seq<char>>, Seq<char>)|
            0 <= x < files[f].tasks@[d].requires@.len() && clause_ok(g, projects, files[f].root@, files[f].tasks@[d].requires@[x])
                && #[trigger] resolves_to(g, projects, files[f].root@, files[f].tasks@[d].requires@[x], t)
                ==> task_views(reqs.last().1@).contains(t),
    ensures
        linked_upto(g, projects, files, reqs, f, d + 1),
{
    assert forall|a: int, b: int, c: int, t: (Seq<Seq<char>>, Seq<char>)|
        0 <= a < files.len() && 0 <= b < files[a].tasks@.len() && 0 <= c < files[a].tasks@[b].requires@.len()
            && (a < f || (a == f && b < d + 1)) && clause_ok(g, projects, files[a].root@, files[a].tasks@[b].requires@[c])
            && #[trigger] resolves_to(g, projects, files[a].root@, files[a].tasks@[b].requires@[c], t)
            implies declares_requirement(reqs, (files[a].root@, files[a].tasks@[b].name@), t) by {
        if a < f || b < d {
            let (i, j) = choose|i: int, j: int|
                0 <= i < before.len() && 0 <= j < before[i].1@.len() && #[trigger] before[i].0@
                    == (files[a].root@, files[a].tasks@[b].name@) && #[trigger] before[i].1@[j]@ == t;
            assert(reqs[i] == before[i]);
        } else {
            let n = before.len() as int;
            assert(task_views(reqs.last().1@).contains(t));
            let j = choose|j: int| 0 <= j < task_views(reqs[n].1@).len() && task_views(reqs[n].1@)[j] == t;
            assert(reqs[n].1@[j]@ == t);
        }
    }
}

proof fn lemma_next_file(
    g: WorkspaceGraph,
    projects: Seq<ProjectInfo>,
    files: Seq<ProjectFile>,
    reqs: Seq<(TaskRef, Vec<TaskRef>)>,
    f: int,
    clauses: bool,
)
    requires
        0 <= f < files.len(),
        linked_upto(g, projects, files, reqs, f, files[f].tasks@.len() as int),
        clauses ==> clauses_ok_upto(g, projects, files, f, files[f].tasks@.len() as int),
    ensures
        linked_upto(g, projects, files, reqs, f + 1, 0),
        clauses ==> clauses_ok_upto(g, projects, files, f + 1, 0),
{
}

proof fn lemma_clauses_step(g: WorkspaceGraph, projects: Seq<ProjectInfo>, files: Seq<ProjectFile>, f: int, d: int)
    requires
        0 <= f < files.len(),
        0 <= d < files[f].tasks@.len(),
        clauses_ok_upto(g, projects, files, f, d),
        forall|x: int|
            0 <= x < files[f].tasks@[d].requires@.len() ==> clause_ok(g, projects, files[f].root@,
                #[trigger] files[f].tasks@[d].requires@[x]),
    ensures
        clauses_ok_upto(g, projects, files, f, d + 1),
{
}

/// Resolution reads the graph only through its keys and project edges.
proof fn lemma_resolution_kept(before: WorkspaceGraph, after: WorkspaceGraph, projects: Seq<ProjectInfo>)
    requires
        forall|k: NodeKey| #[trigger] after.has_key(k) == before.has_key(k),
        forall|a: NodeKey, b: NodeKey|
            #[trigger] after.key_edge(a, b, seq![PROJECT_DEPENDS_ON]) == before.key_edge(a, b, seq![PROJECT_DEPENDS_ON]),
        forall|a: NodeKey, b: NodeKey|
            #[trigger] after.key_reaches(a, b, seq![PROJECT_DEPENDS_ON]) == before.key_reaches(a, b, seq![PROJECT_DEPENDS_ON]),
    ensures
        forall|cur: Seq<Seq<char>>, req: TaskRequires, t: (Seq<Seq<char>>, Seq<char>)|
            #[trigger] resolves_to(after, projects, cur, req, t) == resolves_to(before, projects, cur, req, t),
        forall|cur: Seq<Seq<char>>, req: TaskRequires|
            #[trigger] clause_ok(after, projects, cur, req) == clause_ok(before, projects, cur, req),
{
    assert forall|cur: Seq<Seq<char>>, req: TaskRequires, t: (Seq<Seq<char>>, Seq<char>)|
        #[trigger] resolves_to(after, projects, cur, req, t) == resolves_to(before, projects, cur, req, t) by {
        assert(after.has_key(NodeKey::Task(t)) == before.has_key(NodeKey::Task(t)));
        assert(after.key_edge(NodeKey::Project(cur), NodeKey::Project(t.0), seq![PROJECT_DEPENDS_ON])
            == before.key_edge(NodeKey::Project(cur), NodeKey::Project(t.0), seq![PROJECT_DEPENDS_ON]));
    }
    assert forall|cur: Seq<Seq<char>>, req: TaskRequires|
        #[trigger] clause_ok(after, projects, cur, req) == clause_ok(before, projects, cur, req) by {
        if let Some(q) = named_target(projects, req) {
            assert(after.key_reaches(NodeKey::Project(cur), NodeKey::Project(q), seq![PROJECT_DEPENDS_ON])
                == before.key_reaches(NodeKey::Project(cur), NodeKey::Project(q), seq![PROJECT_DEPENDS_ON]));
        }
        if exists|t: (Seq<Seq<char>>, Seq<char>)| resolves_to(after, projects, cur, req, t) {
            let t = choose|t: (Seq<Seq<char>>, Seq<char>)| resolves_to(after, projects, cur, req, t);
            assert(resolves_to(before, projects, cur, req, t));
        }
        if exists|t: (Seq<Seq<char>>, Seq<char>)| resolves_to(before, projects, cur, req, t) {
            let t = choose|t: (Seq<Seq<char>>, Seq<char>)| resolves_to(before, projects, cur, req, t);
            assert(resolves_to(after, projects, cur, req, t));
        }
    }
}

proof fn lemma_linked_all(
    before: WorkspaceGraph,
    after: WorkspaceGraph,
    projects: Seq<ProjectInfo>,
    files: Seq<ProjectFile>,
    reqs: Seq<(TaskRef, Vec<TaskRef>)>,
)
    requires
        linked_upto(before, projects, files, reqs, files.len() as int, 0),
        clauses_ok_upto(before, projects, files, files.len() as int, 0),
        forall|a: (Seq<Seq<char>>, Seq<char>), b: (Seq<Seq<char>>, Seq<char>)|
            #[trigger] declares_requirement(reqs, a, b) && a != b ==> after.depends_on(a, b),
        forall|cur: Seq<Seq<char>>, req: TaskRequires, t: (Seq<Seq<char>>, Seq<char>)|
            #[trigger] resolves_to(after, projects, cur, req, t) == resolves_to(before, projects, cur, req, t),
        forall|cur: Seq<Seq<char>>, req: TaskRequires|
            #[trigger] clause_ok(after, projects, cur, req) == clause_ok(before, projects, cur, req),
    ensures
        resolved_linked(after, projects, files),
        all_clauses_ok(after, projects, files),
{
    assert forall|a: int, b: int, c: int, t: (Seq<Seq<char>>, Seq<char>)|
        0 <= a < files.len() && 0 <= b < files[a].tasks@.len() && 0 <= c < files[a].tasks@[b].requires@.len()
            && #[trigger] resolves_to(after, projects, files[a].root@, files[a].tasks@[b].requires@[c], t)
            && t != (files[a].root@, files[a].tasks@[b].name@) implies after.depends_on(
            (files[a].root@, files[a].tasks@[b].name@),
            t,
        ) by {
        assert(clause_ok(before, projects, files[a].root@, files[a].tasks@[b].requires@[c]));
        assert(resolves_to(before, projects, files[a].root@, files[a].tasks@[b].requires@[c], t));
        assert(declares_requirement(reqs, (files[a].root@, files[a].tasks@[b].name@), t));
    }
    assert forall|a: int, b: int, c: int|
        0 <= a < files.len() && 0 <= b < files[a].tasks@.len() && 0 <= c < files[a].tasks@[b].requires@.len()
            implies #[trigger] clause_ok(after, projects, files[a].root@, files[a].tasks@[b].requires@[c]) by {
        assert(clause_ok(before, projects, files[a].root@, files[a].tasks@[b].requires@[c]));
    }
}

/// The tasks of `file` among `defs`, as stored.
pub open spec fn file_task_rows(file: ProjectFile, defs: Seq<TaskDefinition>) -> Seq<TaskRow> {
    defs.map_values(
        |d: TaskDefinition|
            (
                file.root@,
                file.name@,
                d.name@,
                d.commands.deep_view(),
                (d.inputs.paths.deep_view(), d.inputs.env_vars.deep_view(), d.inputs.commands.deep_view()),
            ),
    )
}

/// A stored task: project root, project name, name, commands, and inputs.
pub type TaskRow = (
    Seq<Seq<char>>,
    Seq<char>,
    Seq<char>,
    Seq<Seq<char>>,
    (Seq<Seq<char>>, Seq<Seq<char>>, Seq<Seq<char>>),
);

pub open spec fn task_row(t: TaskInfo) -> TaskRow {
    (
        t.project@,
        t.project_name@,
        t.name@,
        t.commands.deep_view(),
        (t.inputs.paths.deep_view(), t.inputs.env_vars.deep_view(), t.inputs.commands.deep_view()),
    )
}

pub open spec fn task_rows(ts: Seq<TaskInfo>) -> Seq<TaskRow> {
    ts.map_values(|t: TaskInfo| task_row(t))
}

/// The tasks the files declare, file by file, in order.
pub open spec fn declared_tasks(files: Seq<ProjectFile>) -> Seq<TaskRow>
    decreases files.len(),
{
    if files.len() == 0 {
        Seq::empty()
    } else {
        declared_tasks(files.drop_last()) + file_task_rows(files.last(), files.last().tasks@)
    }
}

/// Where task `d` of file `f` stands among the declared tasks.
pub open spec fn flat_index(files: Seq<ProjectFile>, f: int, d: int) -> int {
    declared_tasks(files.take(f)).len() + d
}

proof fn lemma_declared_prefix(files: Seq<ProjectFile>, f: int)
    requires
        0 <= f <= files.len(),
    ensures
        declared_tasks(files.take(f)).len() <= declared_tasks(files).len(),
        forall|i: int| 0 <= i < declared_tasks(files.take(f)).len() ==> declared_tasks(files)[i] == declared_tasks(files.take(f))[i],
        f < files.len() ==> declared_tasks(files.take(f + 1)) == declared_tasks(files.take(f))
            + file_task_rows(files[f], files[f].tasks@),
    decreases files.len() - f,
{
    if f < files.len() {
        assert(files.take(f + 1).drop_last() =~= files.take(f));
        lemma_declared_prefix(files.drop_last(), f);
        assert(files.drop_last().take(f) =~= files.take(f));
        if f + 1 < files.len() {
            lemma_declared_prefix(files, f + 1);
        } else {
            assert(files.take(f + 1) =~= files);
        }
    } else {
        assert(files.take(f) =~= files);
    }
}

proof fn lemma_flat_index(files: Seq<ProjectFile>, f: int, d: int)
    requires
        0 <= f < files.len(),
        0 <= d < files[f].tasks@.len(),
    ensures
        0 <= flat_index(files, f, d) < declared_tasks(files).len(),
        declared_tasks(files)[flat_index(files, f, d)].0 == files[f].root@,
        declared_tasks(files)[flat_index(files, f, d)].2 == files[f].tasks@[d].name@,
{
    lemma_declared_prefix(files, f);
    lemma_declared_prefix(files, f + 1);
    let i = flat_index(files, f, d);
    assert(declared_tasks(files.take(f + 1))[i] == file_task_rows(files[f], files[f].tasks@)[d]);
}

/// A stored project: root, name, and the roots of its dependencies.
pub open spec fn project_row(p: ProjectInfo) -> (Seq<Seq<char>>, Seq<char>, Seq<Seq<Seq<char>>>) {
    (p.root@, p.name@, project_views(p.dependencies@))
}

pub open spec fn project_rows(ps: Seq<ProjectInfo>) -> Seq<(Seq<Seq<char>>, Seq<char>, Seq<Seq<Seq<char>>>)> {
    ps.map_values(|p: ProjectInfo| project_row(p))
}

/// The projects the files declare, in order.
pub open spec fn declared_projects(files: Seq<ProjectFile>) -> Seq<(Seq<Seq<char>>, Seq<char>, Seq<Seq<Seq<char>>>)> {
    files.map_values(
        |f: ProjectFile| (f.root@, f.name@, f.dependencies@.map_values(|v: ValidPath| v@)),
    )
}

/// Why an error was reported.
pub open spec fn error_cause(
    g: WorkspaceGraph,
    projects: Seq<ProjectInfo>,
    tasks: Seq<TaskInfo>,
    files: Seq<ProjectFile>,
    e: WorkspaceError,
) -> bool {
    match e {
        WorkspaceError::Graph(ge) => match ge {
            GraphError::DuplicateProject(p) => repeats_project(projects, p@),
            GraphError::UnknownProject(p) => mentions_project(projects, tasks, p@) && !declares_project(
                projects,
                p@,
            ),
            GraphError::DuplicateTask(t) => repeats_task(tasks, t@),
            GraphError::UnknownTask(_) => false,
            GraphError::ProjectCycle => has_cycle(g.edges(), seq![PROJECT_DEPENDS_ON]) && g.holds_declarations(
                projects,
                tasks,
            ),
            GraphError::TaskCycle => has_cycle(g.edges(), order_kinds()) && g.holds_declarations(projects, tasks),
            GraphError::TooLarge => 1 + projects.len() + tasks.len() >= 0xffff_fffe || projects.len() + 2
                * dep_total(projects) + tasks.len() >= 0xffff_fffe || all_clauses_ok(g, projects, files),
        },
        WorkspaceError::Resolution(_) => exists|a: int, b: int, c: int|
            0 <= a < files.len() && 0 <= b < files[a].tasks@.len() && 0 <= c < files[a].tasks@[b].requires@.len()
                && !#[trigger] clause_ok(g, projects, files[a].root@, files[a].tasks@[b].requires@[c]),
    }
}

/// Project `i` is the one with the longest root holding `path`; ties go to
/// the first such project.
pub open spec fn innermost_for(projects: Seq<ProjectInfo>, path: Seq<Seq<char>>, i: int) -> bool {
    &&& 0 <= i < projects.len()
    &&& crate::paths::is_prefix(projects[i].root@, path)
    &&& forall|j: int|
        0 <= j < projects.len() && crate::paths::is_prefix(projects[j].root@, path) ==> projects[j].root@.len()
            <= projects[i].root@.len()
    &&& forall|j: int|
        0 <= j < i && crate::paths::is_prefix(projects[j].root@, path) ==> projects[j].root@.len()
            < projects[i].root@.len()
}

proof fn lemma_innermost_unique(projects: Seq<ProjectInfo>, path: Seq<Seq<char>>, i: int, j: int)
    requires
        innermost_for(projects, path, i),
        innermost_for(projects, path, j),
    ensures
        i == j,
{
}

/// Index of the first project named `name`.
fn find_named(projects: &Vec<ProjectInfo>, name: &String) -> (r: Option<usize>)
    ensures
        match r {
            Some(i) => first_named(projects@, name@, i as int),
            None => !has_named(projects@, name@),
        },
{
    let mut i: usize = 0;
    while i < projects.len()
        invariant
            i <= projects.len(),
            forall|k: int| 0 <= k < i ==> projects@[k].name@ != name@,
        decreases projects.len() - i,
    {
        if same_text(&projects[i].name, name) {
            return Some(i);
        }
        i = i + 1;
    }
    None
}

/// Index of the project with root `p`.
fn find_rooted(projects: &Vec<ProjectInfo>, p: &ValidPath) -> (r: Option<usize>)
    ensures
        match r {
            Some(i) => (i as int) < projects.len() && projects@[i as int].root@ == p@,
            None => !declares_project(projects@, p@),
        },
{
    let mut i: usize = 0;
    while i < projects.len()
        invariant
            i <= projects.len(),
            forall|k: int| 0 <= k < i ==> projects@[k].root@ != p@,
        decreases projects.len() - i,
    {
        if projects[i].root.same_as(p) {
            return Some(i);
        }
        i = i + 1;
    }
    None
}


fn single_project(p: ProjectRef) -> (r: Vec<ProjectRef>)
    ensures
        forall|q: Seq<Seq<char>>| project_views(r@).contains(q) <==> q == p@,
{
    let mut v: Vec<ProjectRef> = Vec::new();
    v.push(p);
    proof {
        assert(project_views(v@) =~= seq![p@]);
        assert forall|q: Seq<Seq<char>>| project_views(v@).contains(q) <==> q == p@ by {
            if q == p@ {
                assert(project_views(v@)[0] == q);
            }
        }
    }
    v
}

/// The tasks named `name` in the projects `anchors`.
fn tasks_in(graph: &WorkspaceGraph, anchors: &Vec<ProjectRef>, name: &String) -> (r: Vec<TaskRef>)
    requires
        graph.wf(),
    ensures
        forall|t: (Seq<Seq<char>>, Seq<char>)|
            task_views(r@).contains(t) <==> (t.1 == name@ && graph.has_key(NodeKey::Task(t))
                && project_views(anchors@).contains(t.0)),
{
    let mut r: Vec<TaskRef> = Vec::new();
    let mut i: usize = 0;
    while i < anchors.len()
        invariant
            graph.wf(),
            i <= anchors.len(),
            forall|t: (Seq<Seq<char>>, Seq<char>)|
                task_views(r@).contains(t) <==> (t.1 == name@ && graph.has_key(NodeKey::Task(t))
                    && project_views(anchors@.take(i as int)).contains(t.0)),
        decreases anchors.len() - i,
    {
        let tr = TaskRef(anchors[i].duplicate(), name.clone());
        let ghost before = r@;
        let ghost pv0 = project_views(anchors@.take(i as int));
        let ghost pv1 = project_views(anchors@.take(i as int + 1));
        proof {
            assert(pv1 =~= pv0.push(anchors@[i as int]@));
        }
        if graph.has_task(&tr) {
            r.push(tr);
            proof {
                assert(task_views(r@) =~= task_views(before).push(tr@));
                assert forall|t: (Seq<Seq<char>>, Seq<char>)|
                    task_views(r@).contains(t) <==> (t.1 == name@ && graph.has_key(NodeKey::Task(t))
                        && pv1.contains(t.0)) by {
                    if t == tr@ {
                        assert(task_views(r@)[before.len() as int] == t);
                        assert(pv1[i as int] == t.0);
                    } else {
                        if task_views(r@).contains(t) {
                            let m = choose|m: int| 0 <= m < task_views(r@).len() && task_views(r@)[m] == t;
                            assert(task_views(before)[m] == t);
                            assert(task_views(before).contains(t));
                            assert(pv0.contains(t.0));
                            let m2 = choose|m2: int| 0 <= m2 < pv0.len() && pv0[m2] == t.0;
                            assert(pv1[m2] == t.0);
                        }
                        if pv1.contains(t.0) && t.1 == name@ {
                            let m = choose|m: int|
                                0 <= m < pv1.len()
                                    && pv1[m] == t.0;
                            if m < i {
                                assert(pv0[m] == t.0);
                            }
                            if task_views(before).contains(t) {
                                let k = choose|k: int| 0 <= k < task_views(before).len() && task_views(before)[k] == t;
                                assert(task_views(r@)[k] == t);
                            }
                        }
                    }
                }
            }
        } else {
            proof {
                assert forall|t: (Seq<Seq<char>>, Seq<char>)|
                    task_views(r@).contains(t) <==> (t.1 == name@ && graph.has_key(NodeKey::Task(t))
                        && pv1.contains(t.0)) by {
                    if pv1.contains(t.0) && t.1 == name@
                        && graph.has_key(NodeKey::Task(t)) {
                        let m = choose|m: int|
                            0 <= m < pv1.len()
                                && pv1[m] == t.0;
                        if m < i {
                            assert(pv0[m] == t.0);
                            assert(pv0.contains(t.0));
                            assert(task_views(before).contains(t));
                        } else {
                            assert(anchors@.take(i as int + 1)[m] == anchors@[i as int]);
                            assert(pv1[m] == anchors@[i as int]@);
                            assert(tr@.0 == t.0);
                            assert(tr@.1 == t.1);
                            assert(t == tr@);
                            assert(false);
                        }
                    }
                    if task_views(r@).contains(t) {
                        assert(task_views(before).contains(t));
                        assert(t.1 == name@);
                        assert(graph.has_key(NodeKey::Task(t)));
                        assert(pv0.contains(t.0));
                        let m = choose|m: int|
                            0 <= m < pv0.len()
                                && pv0[m] == t.0;
                        assert(anchors@.take(i as int + 1)[m] == anchors@.take(i as int)[m]);
                        assert(pv1[m] == t.0);
                        assert(pv1.contains(t.0));
                    }
                }
            }
        }
        i = i + 1;
    }
    proof {
        assert(anchors@.take(anchors.len() as int) =~= anchors@);
    }
    r
}

/// Resolves one `requires` clause of a task in `current` to the tasks it
/// names. An explicitly named project must exist and be `current` or one of
/// its dependencies, direct or not; at least one task must match.
pub fn resolve_requires(
    req: &TaskRequires,
    current: &ProjectInfo,
    graph: &WorkspaceGraph,
    projects: &Vec<ProjectInfo>,
) -> (r: Result<Vec<TaskRef>, TaskResolutionError>)
    requires
        graph.wf(),
        graph.has_key(NodeKey::Project(current.root@)),
        forall|i: int| 0 <= i < projects.len() ==> graph.has_key(NodeKey::Project(#[trigger] projects@[i].root@)),
    ensures
        resolve_outcome(*graph, projects@, current.root@, *req, r),
{
    let cur = current.project_ref();
    let anchors: Vec<ProjectRef> = match &req.target {
        None => single_project(cur),
        Some(t) => match &t.value {
            TargetSelector::CurrentProject => single_project(cur),
            TargetSelector::DependenciesOfCurrent => graph.direct_project_dependencies(&cur),
            TargetSelector::SpecificDependency(sel) => {
                let idx = match &sel.value {
                    SpecificProjectSelector::ByName(n) => match find_named(projects, n) {
                        Some(i) => {
                            proof {
                                let j = choose|j: int| first_named(projects@, n@, j);
                                assert(j == i as int);
                            }
                            i
                        },
                        None => {
                            return Err(
                                TaskResolutionError::UnknownProjectByName { name: n.clone(), span: sel.span },
                            );
                        },
                    },
                    SpecificProjectSelector::ByPath(p) => match find_rooted(projects, p) {
                        Some(i) => i,
                        None => {
                            return Err(
                                TaskResolutionError::UnknownProjectByPath {
                                    path: p.duplicate(),
                                    span: sel.span,
                                },
                            );
                        },
                    },
                };
                let q = projects[idx].project_ref();
                if !graph.has_project_dependency(&cur, &q) {
                    return Err(
                        TaskResolutionError::RequiredFromUnrelatedProject {
                            required_project: projects[idx].name.clone(),
                            current_project: current.name.clone(),
                            span: sel.span,
                        },
                    );
                }
                single_project(q)
            },
        },
    };
    proof {
        assert forall|q: Seq<Seq<char>>|
            project_views(anchors@).contains(q) <==> addresses(*graph, projects@, current.root@, req.target, q) by {
        }
    }
    let tasks = tasks_in(graph, &anchors, &req.task.value);
    if tasks.len() == 0 {
        proof {
            assert forall|t: (Seq<Seq<char>>, Seq<char>)|
                !resolves_to(*graph, projects@, current.root@, *req, t) by {
                if resolves_to(*graph, projects@, current.root@, *req, t) {
                    assert(task_views(tasks@).contains(t));
                }
            }
        }
        return match &req.target {
            Some(target) => Err(
                TaskResolutionError::NoMatchingTasks {
                    task_name_span: req.task.span,
                    target_span: target.span,
                    task_name: req.task.value.clone(),
                    target_pronoun: match &target.value {
                        TargetSelector::DependenciesOfCurrent => TargetPronoun::These,
                        _ => TargetPronoun::This,
                    },
                },
            ),
            None => Err(
                TaskResolutionError::NoMatchingTasksForImplicitSelf {
                    task_name_span: req.task.span,
                    task_name: req.task.value.clone(),
                    current_project: current.name.clone(),
                },
            ),
        };
    }
    Ok(tasks)
}


/// What a `workspace.kdl` file says.
#[derive(Debug)]
pub struct WorkspaceInfo {
    pub name: String,
    pub project_paths: Vec<String>,
    pub root_path: WorkspaceRoot,
}

/// A task as its configuration declares it.
#[derive(Debug)]
pub struct TaskDefinition {
    pub name: String,
    pub commands: Vec<String>,
    pub requires: Vec<TaskRequires>,
    pub inputs: TaskInputs,
}

/// A `project.kdl` file, its paths already resolved.
#[derive(Debug)]
pub struct ProjectFile {
    pub name: String,
    pub root: ValidPath,
    pub dependencies: Vec<ValidPath>,
    pub tasks: Vec<TaskDefinition>,
}

/// One problem found while assembling a workspace.
#[derive(Debug)]
pub enum WorkspaceError {
    Graph(GraphError),
    Resolution(TaskResolutionError),
}

/// Every problem found while assembling a workspace.
#[derive(Debug)]
pub struct ConfigError {
    pub errors: Vec<WorkspaceError>,
}

/// A workspace: its projects and tasks, and the graph between them.
pub struct Workspace {
    pub info: WorkspaceInfo,
    graph_: WorkspaceGraph,
    projects: Vec<ProjectInfo>,
    tasks: Vec<TaskInfo>,
    task_requirements: Vec<(TaskRef, Vec<TaskRef>)>,
}

impl Workspace {
    /// The graph is sound and holds every project and task listed.
    pub closed spec fn wf(&self) -> bool {
        &&& self.graph_.wf()
        &&& forall|i: int|
            0 <= i < self.projects@.len() ==> self.graph_.has_key(
                NodeKey::Project(#[trigger] self.projects@[i].root@),
            )
        &&& forall|i: int|
            0 <= i < self.tasks@.len() ==> self.graph_.has_key(
                NodeKey::Task(#[trigger] self.tasks@[i].ref_view()),
            )
    }

    pub closed spec fn spec_info(&self) -> WorkspaceInfo {
        self.info
    }

    pub closed spec fn spec_graph(&self) -> WorkspaceGraph {
        self.graph_
    }

    pub closed spec fn spec_projects(&self) -> Seq<ProjectInfo> {
        self.projects@
    }

    pub closed spec fn spec_tasks(&self) -> Seq<TaskInfo> {
        self.tasks@
    }

    /// A sound workspace has a sound graph.
    pub proof fn lemma_graph_wf(&self)
        requires
            self.wf(),
        ensures
            self.spec_graph().wf(),
    {
    }

    /// A workspace with no projects yet.
    pub fn new(info: WorkspaceInfo) -> (r: Workspace)
        ensures
            r.wf(),
            r.spec_graph().is_fresh(),
            r.spec_projects().len() == 0,
            r.spec_tasks().len() == 0,
            r.spec_info() == info,
    {
        Workspace {
            info,
            graph_: WorkspaceGraph::new(),
            projects: Vec::new(),
            tasks: Vec::new(),
            task_requirements: Vec::new(),
        }
    }

    pub fn graph(&self) -> (r: &WorkspaceGraph)
        ensures
            *r == self.spec_graph(),
    {
        &self.graph_
    }

    pub fn projects(&self) -> (r: &Vec<ProjectInfo>)
        ensures
            r@ == self.spec_projects(),
    {
        &self.projects
    }

    pub fn tasks(&self) -> (r: &Vec<TaskInfo>)
        ensures
            r@ == self.spec_tasks(),
    {
        &self.tasks
    }

    pub fn root_path(&self) -> (r: &WorkspaceRoot)
        ensures
            *r == self.spec_info().root_path,
    {
        &self.info.root_path
    }

    /// The first project with display name `name`.
    pub fn project_by_name(&self, name: &String) -> (r: Option<&ProjectInfo>)
        ensures
            match r {
                Some(p) => exists|i: int|
                    first_named(self.spec_projects(), name@, i) && *p == self.spec_projects()[i],
                None => !has_named(self.spec_projects(), name@),
            },
    {
        match find_named(&self.projects, name) {
            Some(i) => {
                let p = &self.projects[i];
                assert(first_named(self.spec_projects(), name@, i as int) && *p
                    == self.spec_projects()[i as int]);
                Some(p)
            },
            None => None,
        }
    }

    /// The project whose root is `path`.
    pub fn project_at_path(&self, path: &ValidPath) -> (r: Option<&ProjectInfo>)
        ensures
            match r {
                Some(p) => p.root@ == path@ && self.spec_projects().contains(*p),
                None => !declares_project(self.spec_projects(), path@),
            },
    {
        match find_rooted(&self.projects, path) {
            Some(i) => {
                let p = &self.projects[i];
                assert(self.spec_projects()[i as int] == *p);
                Some(p)
            },
            None => None,
        }
    }

    /// The project a reference names.
    pub fn lookup_project(&self, p: &ProjectRef) -> (r: Option<&ProjectInfo>)
        ensures
            match r {
                Some(info) => info.root@ == p@ && self.spec_projects().contains(*info),
                None => !declares_project(self.spec_projects(), p@),
            },
    {
        self.project_at_path(&p.0)
    }

    /// The task a reference names.
    pub fn lookup_task(&self, t: &TaskRef) -> (r: Option<&TaskInfo>)
        ensures
            match r {
                Some(info) => info.ref_view() == t@ && self.spec_tasks().contains(*info),
                None => !declares_task(self.spec_tasks(), t@),
            },
    {
        let mut i: usize = 0;
        while i < self.tasks.len()
            invariant
                i <= self.tasks.len(),
                forall|k: int| 0 <= k < i ==> self.tasks@[k].ref_view() != t@,
            decreases self.tasks.len() - i,
        {
            let r = self.tasks[i].task_ref();
            if r.same(t) {
                let info = &self.tasks[i];
                assert(self.spec_tasks()[i as int] == *info);
                return Some(info);
            }
            i = i + 1;
        }
        None
    }

    /// The project whose root is the longest one containing `path`, if any.
    pub fn innermost_project(&self, path: &Vec<String>) -> (r: Option<usize>)
        ensures
            match r {
                Some(i) => {
                    &&& (i as int) < self.spec_projects().len()
                    &&& crate::paths::is_prefix(self.spec_projects()[i as int].root@, path.deep_view())
                    &&& forall|j: int|
                        0 <= j < self.spec_projects().len() && crate::paths::is_prefix(
                            self.spec_projects()[j].root@,
                            path.deep_view(),
                        ) ==> self.spec_projects()[j].root@.len() <= self.spec_projects()[i as int].root@.len()
                    &&& innermost_for(self.spec_projects(), path.deep_view(), i as int)
                },
                None => forall|j: int|
                    0 <= j < self.spec_projects().len() ==> !crate::paths::is_prefix(
                        self.spec_projects()[j].root@,
                        path.deep_view(),
                    ),
            },
    {
        let mut best: Option<usize> = None;
        let mut i: usize = 0;
        while i < self.projects.len()
            invariant
                i <= self.projects.len(),
                match best {
                    Some(b) => {
                        &&& (b as int) < i
                        &&& crate::paths::is_prefix(self.projects@[b as int].root@, path.deep_view())
                        &&& forall|j: int|
                            0 <= j < i && crate::paths::is_prefix(self.projects@[j].root@, path.deep_view())
                                ==> self.projects@[j].root@.len() <= self.projects@[b as int].root@.len()
                        &&& forall|j: int|
                            0 <= j < b && crate::paths::is_prefix(self.projects@[j].root@, path.deep_view())
                                ==> self.projects@[j].root@.len() < self.projects@[b as int].root@.len()
                    },
                    None => forall|j: int|
                        0 <= j < i ==> !crate::paths::is_prefix(self.projects@[j].root@, path.deep_view()),
                },
            decreases self.projects.len() - i,
        {
            let root = self.projects[i].root.components();
            if crate::paths::components_prefix(root, path) {
                let better = match best {
                    Some(b) => self.projects[b].root.components().len() < root.len(),
                    None => true,
                };
                if better {
                    best = Some(i);
                }
            }
            i = i + 1;
        }
        best
    }

    /// The projects a change affects: for each changed path, the innermost
    /// project holding it and every project depending on that one, each
    /// listed once.
    pub fn affected_projects(&self, changed: &Vec<Vec<String>>) -> (r: Vec<ProjectRef>)
        requires
            self.wf(),
        ensures
            project_views(r@).no_duplicates(),
            forall|p: Seq<Seq<char>>|
                project_views(r@).contains(p) <==> exists|k: int, i: int|
                    0 <= k < changed.len() && 0 <= i < self.spec_projects().len()
                        && #[trigger] innermost_for(self.spec_projects(), changed.deep_view()[k], i)
                        && #[trigger] self.spec_graph().key_reaches(
                        NodeKey::Project(self.spec_projects()[i].root@),
                        NodeKey::Project(p),
                        seq![crate::graph::PROJECT_DEPENDED_ON_BY],
                    ),
    {
        proof {
            self.lemma_graph_wf();
        }
        let mut r: Vec<ProjectRef> = Vec::new();
        let mut k: usize = 0;
        while k < changed.len()
            invariant
                self.graph_.wf(),
                self.wf(),
                k <= changed.len(),
                project_views(r@).no_duplicates(),
                forall|p: Seq<Seq<char>>|
                    #[trigger] project_views(r@).contains(p) <==> exists|kk: int, i: int|
                        0 <= kk < k && 0 <= i < self.projects@.len()
                            && #[trigger] innermost_for(self.projects@, changed.deep_view()[kk], i)
                            && #[trigger] self.graph_.key_reaches(
                            NodeKey::Project(self.projects@[i].root@),
                            NodeKey::Project(p),
                            seq![crate::graph::PROJECT_DEPENDED_ON_BY],
                        ),
            decreases changed.len() - k,
        {
            let ghost before = project_views(r@);
            proof {
                assert(changed.deep_view()[k as int] == changed@[k as int].deep_view());
            }
            match self.innermost_project(&changed[k]) {
                None => {
                    proof {
                        assert forall|p: Seq<Seq<char>>|
                            project_views(r@).contains(p) <==> exists|kk: int, i: int|
                                0 <= kk < k + 1 && 0 <= i < self.projects@.len()
                                    && #[trigger] innermost_for(self.projects@, changed.deep_view()[kk], i)
                                    && #[trigger] self.graph_.key_reaches(
                                    NodeKey::Project(self.projects@[i].root@),
                                    NodeKey::Project(p),
                                    seq![crate::graph::PROJECT_DEPENDED_ON_BY],
                                ) by {
                            if exists|kk: int, i: int|
                                0 <= kk < k + 1 && 0 <= i < self.projects@.len()
                                    && #[trigger] innermost_for(self.projects@, changed.deep_view()[kk], i)
                                    && #[trigger] self.graph_.key_reaches(
                                    NodeKey::Project(self.projects@[i].root@),
                                    NodeKey::Project(p),
                                    seq![crate::graph::PROJECT_DEPENDED_ON_BY],
                                ) {
                                let (kk, i) = choose|kk: int, i: int|
                                    0 <= kk < k + 1 && 0 <= i < self.projects@.len()
                                        && #[trigger] innermost_for(self.projects@, changed.deep_view()[kk], i)
                                        && #[trigger] self.graph_.key_reaches(
                                        NodeKey::Project(self.projects@[i].root@),
                                        NodeKey::Project(p),
                                        seq![crate::graph::PROJECT_DEPENDED_ON_BY],
                                    );
                                if kk == k {
                                    assert(self.spec_projects()[i] == self.projects@[i]);
                                    assert(crate::paths::is_prefix(self.spec_projects()[i].root@, changed@[k as int].deep_view()));
                                    assert(false);
                                }
                            }
                        }
                    }
                },
                Some(i) => {
                    let origin = self.projects[i].project_ref();
                    proof {
                        assert(self.graph_.has_key(NodeKey::Project(self.projects@[i as int].root@)));
                        assert(innermost_for(self.projects@, changed.deep_view()[k as int], i as int));
                    }
                    let deps = self.graph_.walk_project_dependents(&origin);
                    let mut m: usize = 0;
                    while m < deps.len()
                        invariant
                            self.graph_.wf(),
                            self.wf(),
                            k < changed.len(),
                            (i as int) < self.projects@.len(),
                            innermost_for(self.projects@, changed.deep_view()[k as int], i as int),
                            origin@ == self.projects@[i as int].root@,
                            forall|p: Seq<Seq<char>>|
                                project_views(deps@).contains(p) <==> self.graph_.key_reaches(
                                    NodeKey::Project(origin@),
                                    NodeKey::Project(p),
                                    seq![crate::graph::PROJECT_DEPENDED_ON_BY],
                                ),
                            m <= deps.len(),
                            forall|p: Seq<Seq<char>>|
                                #[trigger] before.contains(p) <==> exists|kk: int, j: int|
                                    0 <= kk < k && 0 <= j < self.projects@.len()
                                        && #[trigger] innermost_for(self.projects@, changed.deep_view()[kk], j)
                                        && #[trigger] self.graph_.key_reaches(
                                        NodeKey::Project(self.projects@[j].root@),
                                        NodeKey::Project(p),
                                        seq![crate::graph::PROJECT_DEPENDED_ON_BY],
                                    ),
                            project_views(r@).no_duplicates(),
                            forall|p: Seq<Seq<char>>|
                                #[trigger] project_views(r@).contains(p) <==> (before.contains(p)
                                    || project_views(deps@).take(m as int).contains(p)),
                        decreases deps.len() - m,
                    {
                        let ghost rv = project_views(r@);
                        let ghost dt0 = project_views(deps@).take(m as int);
                        let ghost dt1 = project_views(deps@).take(m as int + 1);
                        proof {
                            assert(dt1 =~= dt0.push(deps@[m as int]@));
                        }
                        let mut seen = false;
                        let mut x: usize = 0;
                        while x < r.len()
                            invariant
                                x <= r.len(),
                                m < deps.len(),
                                seen == exists|y: int| 0 <= y < x && r@[y]@ == deps@[m as int]@,
                            decreases r.len() - x,
                        {
                            if r[x].same(&deps[m]) {
                                seen = true;
                            }
                            x = x + 1;
                        }
                        if !seen {
                            r.push(deps[m].duplicate());
                            proof {
                                assert(project_views(r@) =~= rv.push(deps@[m as int]@));
                                assert forall|y: int| 0 <= y < rv.len() implies rv[y] != deps@[m as int]@ by {
                                    assert(r@[y]@ == rv[y]);
                                }
                            }
                        } else {
                            proof {
                                let y = choose|y: int| 0 <= y < r.len() && r@[y]@ == deps@[m as int]@;
                                assert(rv[y] == deps@[m as int]@);
                            }
                        }
                        proof {
                            assert forall|p: Seq<Seq<char>>|
                                project_views(r@).contains(p) <==> (before.contains(p) || dt1.contains(p)) by {
                                let in_old = rv.contains(p);
                                assert(in_old <==> (before.contains(p) || dt0.contains(p)));
                                assert(dt1.contains(p) <==> (dt0.contains(p) || p == deps@[m as int]@)) by {
                                    if dt1.contains(p) {
                                        let z = choose|z: int| 0 <= z < dt1.len() && dt1[z] == p;
                                        if z < m {
                                            assert(dt0[z] == p);
                                        }
                                    }
                                    if dt0.contains(p) {
                                        let z = choose|z: int| 0 <= z < dt0.len() && dt0[z] == p;
                                        assert(dt1[z] == p);
                                    }
                                    if p == deps@[m as int]@ {
                                        assert(dt1[m as int] == p);
                                    }
                                }
                                if !seen {
                                    assert(project_views(r@) == rv.push(deps@[m as int]@));
                                    if project_views(r@).contains(p) {
                                        let z = choose|z: int| 0 <= z < project_views(r@).len() && project_views(r@)[z] == p;
                                        if z < rv.len() {
                                            assert(rv[z] == p);
                                        }
                                    }
                                    if rv.contains(p) {
                                        let z = choose|z: int| 0 <= z < rv.len() && rv[z] == p;
                                        assert(project_views(r@)[z] == p);
                                    }
                                    if p == deps@[m as int]@ {
                                        assert(project_views(r@)[rv.len() as int] == p);
                                    }
                                } else {
                                    assert(project_views(r@) == rv);
                                    if p == deps@[m as int]@ {
                                        let y = choose|y: int| 0 <= y < r.len() && r@[y]@ == deps@[m as int]@;
                                        assert(rv[y] == p);
                                    }
                                }
                            }
                        }
                        m = m + 1;
                    }
                    proof {
                        assert(project_views(deps@).take(deps.len() as int) =~= project_views(deps@));
                        assert(forall|p: Seq<Seq<char>>|
                            project_views(r@).contains(p) <==> (before.contains(p) || project_views(deps@).contains(p)));
                        assert(forall|p: Seq<Seq<char>>|
                            before.contains(p) <==> exists|kk: int, j: int|
                                0 <= kk < k && 0 <= j < self.projects@.len()
                                    && #[trigger] innermost_for(self.projects@, changed.deep_view()[kk], j)
                                    && #[trigger] self.graph_.key_reaches(
                                    NodeKey::Project(self.projects@[j].root@),
                                    NodeKey::Project(p),
                                    seq![crate::graph::PROJECT_DEPENDED_ON_BY],
                                ));
                        assert forall|p: Seq<Seq<char>>|
                            project_views(r@).contains(p) <==> exists|kk: int, j: int|
                                0 <= kk < k + 1 && 0 <= j < self.projects@.len()
                                    && #[trigger] innermost_for(self.projects@, changed.deep_view()[kk], j)
                                    && #[trigger] self.graph_.key_reaches(
                                    NodeKey::Project(self.projects@[j].root@),
                                    NodeKey::Project(p),
                                    seq![crate::graph::PROJECT_DEPENDED_ON_BY],
                                ) by {
                            if exists|kk: int, j: int|
                                0 <= kk < k + 1 && 0 <= j < self.projects@.len()
                                    && #[trigger] innermost_for(self.projects@, changed.deep_view()[kk], j)
                                    && #[trigger] self.graph_.key_reaches(
                                    NodeKey::Project(self.projects@[j].root@),
                                    NodeKey::Project(p),
                                    seq![crate::graph::PROJECT_DEPENDED_ON_BY],
                                ) {
                                let (kk, j) = choose|kk: int, j: int|
                                    0 <= kk < k + 1 && 0 <= j < self.projects@.len()
                                        && #[trigger] innermost_for(self.projects@, changed.deep_view()[kk], j)
                                        && #[trigger] self.graph_.key_reaches(
                                        NodeKey::Project(self.projects@[j].root@),
                                        NodeKey::Project(p),
                                        seq![crate::graph::PROJECT_DEPENDED_ON_BY],
                                    );
                                if kk == k {
                                    lemma_innermost_unique(self.projects@, changed.deep_view()[kk], i as int, j);
                                    assert(project_views(deps@).contains(p));
                                } else {
                                    assert(0 <= kk < k);
                                    assert(before.contains(p));
                                }
                            }
                            if project_views(r@).contains(p) {
                                if before.contains(p) {
                                    let (kk, j) = choose|kk: int, j: int|
                                        0 <= kk < k && 0 <= j < self.projects@.len()
                                            && #[trigger] innermost_for(self.projects@, changed.deep_view()[kk], j)
                                            && #[trigger] self.graph_.key_reaches(
                                            NodeKey::Project(self.projects@[j].root@),
                                            NodeKey::Project(p),
                                            seq![crate::graph::PROJECT_DEPENDED_ON_BY],
                                        );
                                    assert(0 <= kk < k + 1);
                                } else {
                                    assert(project_views(deps@).contains(p));
                                    assert(0 <= k < k + 1 && #[trigger] innermost_for(self.projects@, changed.deep_view()[k as int], i as int)
                                        && #[trigger] self.graph_.key_reaches(
                                        NodeKey::Project(self.projects@[i as int].root@),
                                        NodeKey::Project(p),
                                        seq![crate::graph::PROJECT_DEPENDED_ON_BY],
                                    ));
                                }
                            }
                        }
                    }
                },
            }
            k = k + 1;
        }
        r
    }

    /// The projects a filter selects: all of them for no filter, else those
    /// whose display name or subpath equals one of the filter's entries.
    pub fn filter_projects(&self, specs: &Vec<String>) -> (r: Vec<ProjectRef>)
        ensures
            forall|p: Seq<Seq<char>>|
                project_views(r@).contains(p) <==> exists|i: int|
                    0 <= i < self.spec_projects().len() && #[trigger] self.spec_projects()[i].root@ == p
                        && (specs.len() == 0 || exists|k: int|
                        0 <= k < specs.len() && (specs@[k]@ == self.spec_projects()[i].name@
                            || specs@[k]@ == crate::paths::join_spec(p))),
    {
        let mut r: Vec<ProjectRef> = Vec::new();
        let mut i: usize = 0;
        while i < self.projects.len()
            invariant
                i <= self.projects.len(),
                forall|p: Seq<Seq<char>>|
                    project_views(r@).contains(p) <==> exists|j: int|
                        0 <= j < i && #[trigger] self.projects@[j].root@ == p && (specs.len() == 0
                            || exists|k: int|
                            0 <= k < specs.len() && (specs@[k]@ == self.projects@[j].name@
                                || specs@[k]@ == crate::paths::join_spec(p))),
            decreases self.projects.len() - i,
        {
            let info = &self.projects[i];
            let sub = info.root.as_subpath();
            let mut hit = specs.len() == 0;
            let mut k: usize = 0;
            while k < specs.len() && !hit
                invariant
                    k <= specs.len(),
                    sub@ == crate::paths::join_spec(info.root@),
                    hit == (specs.len() == 0 || exists|m: int|
                        0 <= m < k && (specs@[m]@ == info.name@ || specs@[m]@ == sub@)),
                decreases specs.len() - k,
            {
                if same_text(&specs[k], &info.name) || same_text(&specs[k], &sub) {
                    hit = true;
                }
                k = k + 1;
            }
            assert(hit == (specs.len() == 0 || exists|m: int|
                0 <= m < specs.len() && (specs@[m]@ == info.name@ || specs@[m]@ == sub@)));
            let ghost before = r@;
            if hit {
                r.push(info.project_ref());
            }
            proof {
                assert forall|p: Seq<Seq<char>>|
                    project_views(r@).contains(p) <==> exists|j: int|
                        0 <= j < i + 1 && #[trigger] self.projects@[j].root@ == p && (specs.len() == 0
                            || exists|k: int|
                            0 <= k < specs.len() && (specs@[k]@ == self.projects@[j].name@
                                || specs@[k]@ == crate::paths::join_spec(p))) by {
                    if hit {
                        assert(project_views(r@) =~= project_views(before).push(info.root@));
                        if p == info.root@ {
                            assert(project_views(r@)[before.len() as int] == p);
                        }
                    }
                    if project_views(r@).contains(p) && !(hit && p == info.root@) {
                        let m = choose|m: int| 0 <= m < project_views(r@).len() && project_views(r@)[m] == p;
                        assert(project_views(before)[m] == p);
                        assert(project_views(before).contains(p));
                    }
                    if exists|j: int|
                        0 <= j < i + 1 && #[trigger] self.projects@[j].root@ == p && (specs.len() == 0
                            || exists|k: int|
                            0 <= k < specs.len() && (specs@[k]@ == self.projects@[j].name@
                                || specs@[k]@ == crate::paths::join_spec(p))) {
                        let j = choose|j: int|
                            0 <= j < i + 1 && #[trigger] self.projects@[j].root@ == p && (specs.len() == 0
                                || exists|k: int|
                                0 <= k < specs.len() && (specs@[k]@ == self.projects@[j].name@
                                    || specs@[k]@ == crate::paths::join_spec(p)));
                        if j < i {
                            assert(project_views(before).contains(p));
                            let m = choose|m: int| 0 <= m < project_views(before).len() && project_views(before)[m] == p;
                            assert(project_views(r@)[m] == p);
                        } else if !hit {
                            assert(false);
                        }
                    }
                }
            }
            i = i + 1;
        }
        proof {
            assert forall|p: Seq<Seq<char>>|
                project_views(r@).contains(p) <==> exists|i: int|
                    0 <= i < self.spec_projects().len() && #[trigger] self.spec_projects()[i].root@ == p
                        && (specs.len() == 0 || exists|k: int|
                        0 <= k < specs.len() && (specs@[k]@ == self.spec_projects()[i].name@
                            || specs@[k]@ == crate::paths::join_spec(p))) by {
                if project_views(r@).contains(p) {
                    let j = choose|j: int|
                        0 <= j < self.projects@.len() && #[trigger] self.projects@[j].root@ == p && (specs.len() == 0
                            || exists|k: int|
                            0 <= k < specs.len() && (specs@[k]@ == self.projects@[j].name@
                                || specs@[k]@ == crate::paths::join_spec(p)));
                    assert(self.spec_projects()[j] == self.projects@[j]);
                }
                if exists|i: int|
                    0 <= i < self.spec_projects().len() && #[trigger] self.spec_projects()[i].root@ == p
                        && (specs.len() == 0 || exists|k: int|
                        0 <= k < specs.len() && (specs@[k]@ == self.spec_projects()[i].name@
                            || specs@[k]@ == crate::paths::join_spec(p))) {
                    let j = choose|i: int|
                        0 <= i < self.spec_projects().len() && #[trigger] self.spec_projects()[i].root@ == p
                            && (specs.len() == 0 || exists|k: int|
                            0 <= k < specs.len() && (specs@[k]@ == self.spec_projects()[i].name@
                                || specs@[k]@ == crate::paths::join_spec(p)));
                    assert(self.projects@[j].root@ == p);
                }
            }
        }
        r
    }

    /// The tasks named `names` in the projects `targets`, with everything
    /// they depend on, in an order where each task follows its direct
    /// dependencies, each with its direct dependencies.
    pub fn find_tasks(&self, targets: &Vec<ProjectRef>, names: &Vec<String>) -> (r: Vec<TaskAndDeps>)
        requires
            self.wf(),
        ensures
            forall|t: (Seq<Seq<char>>, Seq<char>)|
                listed(r@).contains(t) <==> exists|p: int, n: int|
                    0 <= p < targets.len() && 0 <= n < names.len() && #[trigger] requested(
                        self.spec_graph(),
                        targets@,
                        names@,
                        p,
                        n,
                        t,
                    ),
            forall|k: int|
                0 <= k < r.len() ==> forall|t: (Seq<Seq<char>>, Seq<char>)|
                    task_views((#[trigger] r@[k]).deps@).contains(t) <==> self.spec_graph().depends_on(
                        r@[k].task_ref@,
                        t,
                    ),
            forall|a: int, b: int|
                0 <= a < r.len() && 0 <= b < r.len() && self.spec_graph().depends_on(
                    r@[b].task_ref@,
                    r@[a].task_ref@,
                ) ==> a < b,
    {
        proof {
            self.lemma_graph_wf();
        }
        let mut wanted: Vec<TaskRef> = Vec::new();
        let mut p: usize = 0;
        while p < targets.len()
            invariant
                self.graph_.wf(),
                p <= targets.len(),
                forall|t: (Seq<Seq<char>>, Seq<char>)|
                    task_views(wanted@).contains(t) <==> exists|pp: int, nn: int|
                        0 <= pp < p && 0 <= nn < names.len() && #[trigger] requested(
                            self.graph_,
                            targets@,
                            names@,
                            pp,
                            nn,
                            t,
                        ),
            decreases targets.len() - p,
        {
            let mut n: usize = 0;
            while n < names.len()
                invariant
                    self.graph_.wf(),
                    p < targets.len(),
                    n <= names.len(),
                    forall|t: (Seq<Seq<char>>, Seq<char>)|
                        task_views(wanted@).contains(t) <==> exists|pp: int, nn: int|
                            0 <= pp < targets.len() && 0 <= nn < names.len() && (pp < p || (pp == p
                                && nn < n)) && #[trigger] requested(
                                self.graph_,
                                targets@,
                                names@,
                                pp,
                                nn,
                                t,
                            ),
                decreases names.len() - n,
            {
                let t = TaskRef(targets[p].duplicate(), names[n].clone());
                let ghost before = wanted@;
                let ghost mut cl: Seq<TaskRef> = Seq::empty();
                let present = self.graph_.has_task(&t);
                if present {
                    let mut closure = self.graph_.walk_task_dependencies(&t);
                    proof {
                        cl = closure@;
                    }
                    wanted.append(&mut closure);
                }
                proof {
                    assert(wanted@ == before + cl);
                    assert(task_views(wanted@) =~= task_views(before) + task_views(cl));
                    assert forall|u: (Seq<Seq<char>>, Seq<char>)|
                        task_views(cl).contains(u) <==> requested(
                            self.graph_,
                            targets@,
                            names@,
                            p as int,
                            n as int,
                            u,
                        ) by {
                        if !present {
                            if task_views(cl).contains(u) {
                                let m = choose|m: int| 0 <= m < task_views(cl).len() && task_views(cl)[m] == u;
                            }
                        }
                    }
                    assert forall|u: (Seq<Seq<char>>, Seq<char>)|
                        task_views(wanted@).contains(u) <==> exists|pp: int, nn: int|
                            0 <= pp < targets.len() && 0 <= nn < names.len() && (pp < p || (pp == p
                                && nn < n + 1)) && #[trigger] requested(
                                self.graph_,
                                targets@,
                                names@,
                                pp,
                                nn,
                                u,
                            ) by {
                        let tw = task_views(wanted@);
                        let tb = task_views(before);
                        let tc = task_views(cl);
                        if tw.contains(u) {
                            let m = choose|m: int| 0 <= m < tw.len() && tw[m] == u;
                            if m < tb.len() {
                                assert(tb[m] == u);
                                assert(tb.contains(u));
                                let (pp, nn) = choose|pp: int, nn: int|
                                    0 <= pp < targets.len() && 0 <= nn < names.len() && (pp < p || (pp == p
                                        && nn < n)) && #[trigger] requested(self.graph_, targets@, names@, pp, nn, u);
                                assert(0 <= pp < targets.len() && 0 <= nn < names.len() && (pp < p || (pp == p
                                    && nn < n + 1)) && requested(self.graph_, targets@, names@, pp, nn, u));
                            } else {
                                assert(tc[m - tb.len()] == u);
                                assert(tc.contains(u));
                                assert(requested(self.graph_, targets@, names@, p as int, n as int, u));
                            }
                        }
                        if exists|pp: int, nn: int|
                            0 <= pp < targets.len() && 0 <= nn < names.len() && (pp < p || (pp == p
                                && nn < n + 1)) && #[trigger] requested(self.graph_, targets@, names@, pp, nn, u) {
                            let (pp, nn) = choose|pp: int, nn: int|
                                0 <= pp < targets.len() && 0 <= nn < names.len() && (pp < p || (pp == p
                                    && nn < n + 1)) && #[trigger] requested(self.graph_, targets@, names@, pp, nn, u);
                            if pp < p || nn < n {
                                assert(tb.contains(u));
                                let m = choose|m: int| 0 <= m < tb.len() && tb[m] == u;
                                assert(tw[m] == u);
                            } else {
                                assert(tc.contains(u));
                                let m = choose|m: int| 0 <= m < tc.len() && tc[m] == u;
                                assert(tw[tb.len() + m] == u);
                            }
                        }
                    }
                }
                n = n + 1;
            }
            p = p + 1;
        }
        let order = self.graph_.topsort_tasks();
        let mut r: Vec<TaskAndDeps> = Vec::new();
        let ghost mut pos: Seq<int> = Seq::empty();
        let mut i: usize = 0;
        while i < order.len()
            invariant
                self.graph_.wf(),
                i <= order.len(),
                pos.len() == r.len(),
                forall|t: (Seq<Seq<char>>, Seq<char>)|
                    task_views(order@).contains(t) <==> self.graph_.has_key(NodeKey::Task(t)),
                forall|m: int| 0 <= m < pos.len() ==> 0 <= #[trigger] pos[m] < i && r@[m].task_ref@ == order@[pos[m]]@,
                forall|m1: int, m2: int| 0 <= m1 < m2 < pos.len() ==> pos[m1] < pos[m2],
                forall|t: (Seq<Seq<char>>, Seq<char>)|
                    #[trigger] listed(r@).contains(t) <==> (task_views(wanted@).contains(t)
                        && task_views(order@).take(i as int).contains(t)),
                forall|a: int, b: int|
                    0 <= a < order.len() && 0 <= b < order.len() && self.graph_.depends_on(
                        order@[b]@,
                        order@[a]@,
                    ) ==> a < b,
                forall|k: int|
                    0 <= k < r.len() ==> forall|t: (Seq<Seq<char>>, Seq<char>)|
                        task_views((#[trigger] r@[k]).deps@).contains(t) <==> self.graph_.depends_on(
                            r@[k].task_ref@,
                            t,
                        ),
            decreases order.len() - i,
        {
            proof {
                assert(task_views(order@)[i as int] == order@[i as int]@);
                assert(task_views(order@).contains(order@[i as int]@));
            }
            let ghost before = r@;
            let keep = lists_task(&wanted, &order[i]);
            if keep {
                let deps = self.graph_.direct_task_dependencies(&order[i]);
                r.push(TaskAndDeps { task_ref: order[i].duplicate(), deps });
                proof {
                    pos = pos.push(i as int);
                    assert(listed(r@) =~= listed(before).push(order@[i as int]@));
                }
            }
            proof {
                let ov = task_views(order@);
                let o1 = ov.take(i as int + 1);
                let o0 = ov.take(i as int);
                assert(o1 =~= o0.push(order@[i as int]@));
                assert forall|t: (Seq<Seq<char>>, Seq<char>)|
                    #[trigger] listed(r@).contains(t) <==> (task_views(wanted@).contains(t)
                        && o1.contains(t)) by {
                    if listed(r@).contains(t) {
                        if keep && t == order@[i as int]@ {
                            assert(task_views(wanted@).contains(t));
                            assert(o1[i as int] == t);
                        } else {
                            let m = choose|m: int| 0 <= m < listed(r@).len() && listed(r@)[m] == t;
                            if keep {
                                assert(m < before.len());
                            }
                            assert(listed(before)[m] == t);
                            assert(listed(before).contains(t));
                            let q = choose|q: int| 0 <= q < o0.len() && o0[q] == t;
                            assert(o1[q] == t);
                        }
                    }
                    if task_views(wanted@).contains(t) && o1.contains(t) {
                        let q = choose|q: int| 0 <= q < o1.len() && o1[q] == t;
                        if q < i {
                            assert(o0[q] == t);
                            assert(listed(before).contains(t));
                            let m = choose|m: int| 0 <= m < listed(before).len() && listed(before)[m] == t;
                            assert(listed(r@)[m] == t);
                        } else {
                            assert(order@[i as int]@ == t);
                            assert(keep);
                            assert(listed(r@)[before.len() as int] == t);
                        }
                    }
                }
            }
            i = i + 1;
        }
        proof {
            assert(task_views(order@).take(order.len() as int) =~= task_views(order@));
            assert forall|t: (Seq<Seq<char>>, Seq<char>)|
                listed(r@).contains(t) <==> exists|p: int, n: int|
                    0 <= p < targets.len() && 0 <= n < names.len() && #[trigger] requested(
                        self.spec_graph(),
                        targets@,
                        names@,
                        p,
                        n,
                        t,
                    ) by {
                if exists|p: int, n: int|
                    0 <= p < targets.len() && 0 <= n < names.len() && #[trigger] requested(
                        self.spec_graph(),
                        targets@,
                        names@,
                        p,
                        n,
                        t,
                    ) {
                    let (p, n) = choose|p: int, n: int|
                        0 <= p < targets.len() && 0 <= n < names.len() && #[trigger] requested(
                            self.spec_graph(),
                            targets@,
                            names@,
                            p,
                            n,
                            t,
                        );
                    self.graph_.lemma_reached_task_exists((targets@[p]@, names@[n]@), t);
                    assert(task_views(order@).contains(t));
                    let q = choose|q: int| 0 <= q < task_views(order@).len() && task_views(order@)[q] == t;
                    assert(order@[q]@ == t);
                }
            }
            assert forall|a: int, b: int|
                0 <= a < r.len() && 0 <= b < r.len() && self.graph_.depends_on(
                    r@[b].task_ref@,
                    r@[a].task_ref@,
                ) implies a < b by {
                assert(pos[a] < pos[b]) by {
                    assert(self.graph_.depends_on(order@[pos[b]]@, order@[pos[a]]@));
                }
                if a >= b {
                    if a > b {
                        assert(pos[b] < pos[a]);
                    }
                }
            }
        }
        r
    }

    /// Adds the projects of a fresh workspace: records them and their tasks,
    /// builds the graph, resolves every `requires` clause, and links the
    /// tasks. Resolution errors are reported together.
    pub fn add_projects(&mut self, files: Vec<ProjectFile>) -> (r: Result<(), ConfigError>)
        requires
            old(self).wf(),
            old(self).spec_graph().is_fresh(),
        ensures
            project_rows(final(self).spec_projects()) == declared_projects(files@),
            task_rows(final(self).spec_tasks()) == declared_tasks(files@),
            r is Ok ==> {
                &&& final(self).wf()
                &&& final(self).spec_graph().holds_declarations(
                    final(self).spec_projects(),
                    final(self).spec_tasks(),
                )
                &&& all_clauses_ok(final(self).spec_graph(), final(self).spec_projects(), files@)
                &&& resolved_linked(final(self).spec_graph(), final(self).spec_projects(), files@)
            },
            r matches Err(e) ==> e.errors.len() > 0 && forall|k: int|
                0 <= k < e.errors.len() ==> error_cause(
                    final(self).spec_graph(),
                    final(self).spec_projects(),
                    final(self).spec_tasks(),
                    files@,
                    #[trigger] e.errors@[k],
                ),
    {
        let mut projects: Vec<ProjectInfo> = Vec::new();
        let mut tasks: Vec<TaskInfo> = Vec::new();
        let mut f: usize = 0;
        while f < files.len()
            invariant
                f <= files.len(),
                project_rows(projects@) == declared_projects(files@.take(f as int)),
                task_rows(tasks@) == declared_tasks(files@.take(f as int)),
            decreases files.len() - f,
        {
            let file = &files[f];
            let mut dependencies: Vec<ProjectRef> = Vec::new();
            let mut k: usize = 0;
            while k < file.dependencies.len()
                invariant
                    k <= file.dependencies.len(),
                    project_views(dependencies@) == file.dependencies@.take(k as int).map_values(
                        |v: ValidPath| v@,
                    ),
                decreases file.dependencies.len() - k,
            {
                let ghost before = dependencies@;
                dependencies.push(ProjectRef(file.dependencies[k].duplicate()));
                proof {
                    assert(project_views(dependencies@) =~= project_views(before).push(
                        file.dependencies@[k as int]@,
                    ));
                    assert(file.dependencies@.take(k as int + 1).map_values(|v: ValidPath| v@)
                        =~= file.dependencies@.take(k as int).map_values(|v: ValidPath| v@).push(
                        file.dependencies@[k as int]@,
                    ));
                }
                k = k + 1;
            }
            proof {
                assert(file.dependencies@.take(file.dependencies.len() as int) =~= file.dependencies@);
            }
            let ghost tasks_before = task_rows(tasks@);
            let mut d: usize = 0;
            while d < file.tasks.len()
                invariant
                    f < files.len(),
                    file == files@[f as int],
                    d <= file.tasks.len(),
                    task_rows(tasks@) == tasks_before + file_task_rows(*file, file.tasks@.take(d as int)),
                decreases file.tasks.len() - d,
            {
                let def = &file.tasks[d];
                let ghost before = tasks@;
                let info = TaskInfo {
                    project: ProjectRef(file.root.duplicate()),
                    project_name: file.name.clone(),
                    name: def.name.clone(),
                    commands: crate::paths::clone_components(&def.commands),
                    inputs: def.inputs.duplicate(),
                };
                tasks.push(info);
                proof {
                    assert(task_rows(tasks@) =~= task_rows(before).push(task_row(info)));
                    assert(file.tasks@.take(d as int + 1) =~= file.tasks@.take(d as int).push(*def));
                    assert(file_task_rows(*file, file.tasks@.take(d as int + 1)) =~= file_task_rows(
                        *file,
                        file.tasks@.take(d as int),
                    ).push(task_row(info)));
                }
                d = d + 1;
            }
            let ghost projects_before = projects@;
            let pinfo = ProjectInfo { name: file.name.clone(), dependencies, root: file.root.duplicate() };
            projects.push(pinfo);
            proof {
                assert(files@.take(f as int + 1).drop_last() =~= files@.take(f as int));
                assert(file.tasks@.take(file.tasks.len() as int) =~= file.tasks@);
                assert(project_rows(projects@) =~= project_rows(projects_before).push(project_row(pinfo)));
            }
            f = f + 1;
        }
        proof {
            assert(files@.take(files.len() as int) =~= files@);
        }
        self.projects = projects;
        self.tasks = tasks;
        let mut errors: Vec<WorkspaceError> = Vec::new();
        let ghost fresh = self.graph_;
        match self.graph_.add_projects(&self.projects, &self.tasks) {
            Ok(_) => {},
            Err(e) => {
                errors.push(WorkspaceError::Graph(e));
                proof {
                    assert(error_cause(self.graph_, self.projects@, self.tasks@, files@, errors@[0]));
                }
                return Err(ConfigError { errors });
            },
        }
        proof {
            self.graph_.lemma_declared_keys(self.projects@, self.tasks@);
            self.graph_.lemma_sound_unlinked(self.projects@);
            assert forall|i: int| 0 <= i < files.len() implies self.projects@[i].root@ == files@[i].root@ by {
                assert(project_rows(self.projects@)[i] == declared_projects(files@)[i]);
            }
        }
        let mut reqs: Vec<(TaskRef, Vec<TaskRef>)> = Vec::new();
        let mut f: usize = 0;
        while f < files.len()
            invariant
                self.graph_.wf(),
                self.graph_.holds_declarations(self.projects@, self.tasks@),
                self.graph_.unlinked(),
                task_rows(self.tasks@) == declared_tasks(files@),
                forall|i: int|
                    0 <= i < self.tasks@.len() ==> self.graph_.has_key(
                        NodeKey::Task(#[trigger] self.tasks@[i].ref_view()),
                    ),
                self.projects@.len() == files.len(),
                forall|i: int| 0 <= i < files.len() ==> self.projects@[i].root@ == files@[i].root@,
                forall|i: int|
                    0 <= i < self.projects@.len() ==> self.graph_.has_key(
                        NodeKey::Project(#[trigger] self.projects@[i].root@),
                    ),
                f <= files.len(),
                forall|k: int|
                    0 <= k < errors.len() ==> error_cause(
                        self.graph_,
                        self.projects@,
                        self.tasks@,
                        files@,
                        #[trigger] errors@[k],
                    ),
                errors.len() == 0 ==> clauses_ok_upto(self.graph_, self.projects@, files@, f as int, 0),
                linked_upto(self.graph_, self.projects@, files@, reqs@, f as int, 0),
                reqs_present(self.graph_, reqs@),
            decreases files.len() - f,
        {
            let mut d: usize = 0;
            while d < files[f].tasks.len()
                invariant
                    self.graph_.wf(),
                    self.graph_.holds_declarations(self.projects@, self.tasks@),
                    self.graph_.unlinked(),
                    task_rows(self.tasks@) == declared_tasks(files@),
                    forall|i: int|
                        0 <= i < self.tasks@.len() ==> self.graph_.has_key(
                            NodeKey::Task(#[trigger] self.tasks@[i].ref_view()),
                        ),
                    self.projects@.len() == files.len(),
                    forall|i: int| 0 <= i < files.len() ==> self.projects@[i].root@ == files@[i].root@,
                    forall|i: int|
                        0 <= i < self.projects@.len() ==> self.graph_.has_key(
                            NodeKey::Project(#[trigger] self.projects@[i].root@),
                        ),
                    f < files.len(),
                    d <= files@[f as int].tasks.len(),
                    forall|k: int|
                        0 <= k < errors.len() ==> error_cause(
                            self.graph_,
                            self.projects@,
                            self.tasks@,
                            files@,
                            #[trigger] errors@[k],
                        ),
                    errors.len() == 0 ==> clauses_ok_upto(self.graph_, self.projects@, files@, f as int, d as int),
                    linked_upto(self.graph_, self.projects@, files@, reqs@, f as int, d as int),
                    reqs_present(self.graph_, reqs@),
                decreases files@[f as int].tasks.len() - d,
            {
                let def = &files[f].tasks[d];
                let mut resolved: Vec<TaskRef> = Vec::new();
                let mut c: usize = 0;
                while c < def.requires.len()
                    invariant
                        self.graph_.wf(),
                        self.graph_.holds_declarations(self.projects@, self.tasks@),
                        self.graph_.unlinked(),
                        task_rows(self.tasks@) == declared_tasks(files@),
                        forall|i: int|
                            0 <= i < self.tasks@.len() ==> self.graph_.has_key(
                                NodeKey::Task(#[trigger] self.tasks@[i].ref_view()),
                            ),
                        self.projects@.len() == files.len(),
                        forall|i: int| 0 <= i < files.len() ==> self.projects@[i].root@ == files@[i].root@,
                        forall|i: int|
                            0 <= i < self.projects@.len() ==> self.graph_.has_key(
                                NodeKey::Project(#[trigger] self.projects@[i].root@),
                            ),
                        f < files.len(),
                        d < files@[f as int].tasks.len(),
                        def == files@[f as int].tasks@[d as int],
                        c <= def.requires.len(),
                        forall|k: int|
                            0 <= k < errors.len() ==> error_cause(
                                self.graph_,
                                self.projects@,
                                self.tasks@,
                                files@,
                                #[trigger] errors@[k],
                            ),
                        errors.len() == 0 ==> clauses_ok_upto(self.graph_, self.projects@, files@, f as int, d as int),
                        errors.len() == 0 ==> forall|x: int|
                            0 <= x < c ==> clause_ok(self.graph_, self.projects@, files@[f as int].root@,
                                #[trigger] def.requires@[x]),
                        forall|x: int, t: (Seq<Seq<char>>, Seq<char>)|
                            0 <= x < c && clause_ok(self.graph_, self.projects@, files@[f as int].root@, def.requires@[x]) && #[trigger] resolves_to(self.graph_, self.projects@, files@[f as int].root@, def.requires@[x], t) ==> task_views(resolved@).contains(t),
                        forall|t: (Seq<Seq<char>>, Seq<char>)|
                            task_views(resolved@).contains(t) ==> self.graph_.has_key(NodeKey::Task(t)),
                        linked_upto(self.graph_, self.projects@, files@, reqs@, f as int, d as int),
                        reqs_present(self.graph_, reqs@),
                    decreases def.requires.len() - c,
                {
                    let ghost before = resolved@;
                    match resolve_requires(&def.requires[c], &self.projects[f], &self.graph_, &self.projects) {
                        Ok(ts) => {
                            let ghost tsv = ts;
                            proof {
                                lemma_resolved_ok(self.graph_, self.projects@, files@[f as int].root@, def.requires@[c as int], tsv);
                            }
                            let mut ts = ts;
                            let ghost tv = ts@;
                            resolved.append(&mut ts);
                            proof {
                                assert(task_views(resolved@) =~= task_views(before) + task_views(tv));
                                assert forall|t: (Seq<Seq<char>>, Seq<char>)|
                                    task_views(resolved@).contains(t) implies self.graph_.has_key(NodeKey::Task(t)) by {
                                    let m = choose|m: int| 0 <= m < task_views(resolved@).len() && task_views(resolved@)[m] == t;
                                    if m < before.len() {
                                        assert(task_views(before)[m] == t);
                                        assert(task_views(before).contains(t));
                                    } else {
                                        assert(task_views(tv)[m - before.len()] == t);
                                        assert(task_views(tv).contains(t));
                                    }
                                }
                                assert forall|x: int, t: (Seq<Seq<char>>, Seq<char>)|
                                    0 <= x < c + 1 && clause_ok(self.graph_, self.projects@, files@[f as int].root@, def.requires@[x]) && #[trigger] resolves_to(self.graph_, self.projects@, files@[f as int].root@, def.requires@[x], t) implies task_views(resolved@).contains(t) by {
                                    if x < c {
                                        assert(task_views(before).contains(t));
                                        let m = choose|m: int| 0 <= m < task_views(before).len() && task_views(before)[m] == t;
                                        assert(task_views(resolved@)[m] == t);
                                    } else {
                                        assert(task_views(tv).contains(t));
                                        let m = choose|m: int| 0 <= m < task_views(tv).len() && task_views(tv)[m] == t;
                                        assert(task_views(resolved@)[before.len() + m] == t);
                                    }
                                }
                            }
                        },
                        Err(e) => {
                            proof {
                                lemma_resolved_err(self.graph_, self.projects@, files@[f as int].root@, def.requires@[c as int], e);
                            }
                            errors.push(WorkspaceError::Resolution(e));
                            proof {
                                let n = errors.len() - 1;
                                assert(0 <= f < files.len() && 0 <= d < files@[f as int].tasks@.len()
                                    && 0 <= c < files@[f as int].tasks@[d as int].requires@.len()
                                    && !clause_ok(self.graph_, self.projects@, files@[f as int].root@,
                                    files@[f as int].tasks@[d as int].requires@[c as int]));
                                assert(error_cause(self.graph_, self.projects@, self.tasks@, files@, errors@[n]));
                                assert forall|x: int, t: (Seq<Seq<char>>, Seq<char>)|
                                    0 <= x < c + 1 && clause_ok(self.graph_, self.projects@, files@[f as int].root@, def.requires@[x]) && #[trigger] resolves_to(self.graph_, self.projects@, files@[f as int].root@, def.requires@[x], t) implies task_views(resolved@).contains(t) by {
                                    if x == c {
                                        assert(!clause_ok(self.graph_, self.projects@, files@[f as int].root@, def.requires@[x]));
                                    }
                                }
                            }
                        },
                    }
                    c = c + 1;
                }
                let owner = TaskRef(ProjectRef(files[f].root.duplicate()), def.name.clone());
                let ghost rbefore = reqs@;
                proof {
                    let i = flat_index(files@, f as int, d as int);
                    lemma_flat_index(files@, f as int, d as int);
                    assert(task_rows(self.tasks@)[i] == declared_tasks(files@)[i]);
                    assert(self.tasks@[i].ref_view() == owner@);
                }
                let ghost rv = resolved@;
                reqs.push((owner, resolved));
                proof {
                    assert(reqs@.drop_last() =~= rbefore);
                    assert forall|k: int| 0 <= k < reqs@.len() implies self.graph_.has_key(NodeKey::Task((#[trigger] reqs@[k]).0@)) && forall|
                        t: (Seq<Seq<char>>, Seq<char>),
                    | task_views(reqs@[k].1@).contains(t) ==> self.graph_.has_key(NodeKey::Task(t)) by {
                        if k < rbefore.len() {
                            assert(reqs@[k] == rbefore[k]);
                        }
                    }
                    assert(reqs@.last().0@ == (files@[f as int].root@, files@[f as int].tasks@[d as int].name@));
                    lemma_linked_step(self.graph_, self.projects@, files@, rbefore, reqs@, f as int, d as int);
                    if errors.len() == 0 {
                        lemma_clauses_step(self.graph_, self.projects@, files@, f as int, d as int);
                    }
                }
                d = d + 1;
            }
            proof {
                lemma_next_file(self.graph_, self.projects@, files@, reqs@, f as int, errors.len() == 0);
            }
            f = f + 1;
        }
        if errors.len() > 0 {
            return Err(ConfigError { errors });
        }
        let ghost before = self.graph_;
        match self.graph_.link_tasks(&reqs) {
            Ok(_) => {},
            Err(e) => {
                proof {
                    WorkspaceGraph::lemma_task_edges_keep_projects(&before, &self.graph_);
                    lemma_resolution_kept(before, self.graph_, self.projects@);
                    assert(clauses_ok_upto(before, self.projects@, files@, files.len() as int, 0));
                    assert forall|a: int, b: int, c: int|
                        0 <= a < files.len() && 0 <= b < files@[a].tasks@.len() && 0 <= c < files@[a].tasks@[b].requires@.len()
                            implies #[trigger] clause_ok(self.graph_, self.projects@, files@[a].root@, files@[a].tasks@[b].requires@[c]) by {
                        assert(clause_ok(before, self.projects@, files@[a].root@, files@[a].tasks@[b].requires@[c]));
                    }
                    if e is UnknownTask {
                        let t = e->UnknownTask_0;
                        lemma_reqs_present_mentions(before, reqs@, t@);
                    }
                    if is_cycle_error(Err::<(), GraphError>(e)) {
                        WorkspaceGraph::lemma_holds_grows(&before, &self.graph_, self.projects@, self.tasks@);
                    }
                }
                errors.push(WorkspaceError::Graph(e));
                proof {
                    assert(error_cause(self.graph_, self.projects@, self.tasks@, files@, errors@[0]));
                }
                return Err(ConfigError { errors });
            },
        }
        proof {
            WorkspaceGraph::lemma_holds_grows(&before, &self.graph_, self.projects@, self.tasks@);
            self.graph_.lemma_declared_keys(self.projects@, self.tasks@);
            WorkspaceGraph::lemma_task_edges_keep_projects(&before, &self.graph_);
            lemma_resolution_kept(before, self.graph_, self.projects@);
            lemma_linked_all(before, self.graph_, self.projects@, files@, reqs@);
        }
        self.task_requirements = reqs;
        Ok(())
    }
}


/// Whether a character has the Unicode `Alphabetic` property.
pub uninterp spec fn alphabetic(c: char) -> bool;

/// Relies on `char::is_alphabetic`: the Unicode `Alphabetic` property, which
/// every ASCII letter has.
#[verifier::external_body]
fn is_alphabetic(c: char) -> (r: bool)
    ensures
        r == alphabetic(c),
        ('a' <= c <= 'z') || ('A' <= c <= 'Z') ==> r,
{
    c.is_alphabetic()
}

/// A character allowed in a project name.
pub open spec fn name_char(c: char) -> bool {
    alphabetic(c) || c == '_' || c == '-'
}

/// The target of a `requires` clause as written.
#[derive(Debug)]
pub enum ParsedSelector {
    CurrentProject,
    DependenciesOfCurrent,
    ProjectByName(String, (usize, usize)),
    ProjectByPath(String, (usize, usize)),
}

/// What a target text means: `self`, `^self`, a path from the workspace
/// root (leading `/`), or a project name of letters, `_` and `-`.
pub open spec fn selector_kind(s: Seq<char>) -> int {
    if s == "self"@ {
        0
    } else if s == "^self"@ {
        1
    } else if s.len() > 0 && s[0] == '/' {
        3
    } else if s.len() > 0 && forall|i: int| 0 <= i < s.len() ==> name_char(s[i]) {
        2
    } else {
        -1
    }
}

/// Reads the target of a `requires` clause; none when it is malformed.
pub fn parse_selector(s: &str) -> (r: Option<ParsedSelector>)
    ensures
        selector_kind(s@) == -1 <==> r is None,
        selector_kind(s@) == 0 <==> r matches Some(ParsedSelector::CurrentProject),
        selector_kind(s@) == 1 <==> r matches Some(ParsedSelector::DependenciesOfCurrent),
        selector_kind(s@) == 2 <==> r matches Some(ParsedSelector::ProjectByName(_, _)),
        selector_kind(s@) == 3 <==> r matches Some(ParsedSelector::ProjectByPath(_, _)),
        r matches Some(ParsedSelector::ProjectByName(n, span)) ==> n@ == s@ && span == (0usize, s@.len() as usize),
        r matches Some(ParsedSelector::ProjectByPath(p, span)) ==> p@ == s@ && span == (0usize, s@.len() as usize),
{
    let owned = s.to_owned();
    let n = s.unicode_len();
    let self_text = String::from_str("self");
    let deps_text = String::from_str("^self");
    if owned.eq(&self_text) {
        return Some(ParsedSelector::CurrentProject);
    }
    if owned.eq(&deps_text) {
        return Some(ParsedSelector::DependenciesOfCurrent);
    }
    if n > 0 && s.get_char(0) == '/' {
        return Some(ParsedSelector::ProjectByPath(owned, (0, n)));
    }
    if n == 0 {
        return None;
    }
    let mut i: usize = 0;
    while i < n
        invariant
            n == s@.len(),
            n > 0,
            s@ != "self"@,
            s@ != "^self"@,
            s@[0] != '/',
            i <= n,
            forall|k: int| 0 <= k < i ==> name_char(s@[k]),
        decreases n - i,
    {
        let c = s.get_char(i);
        if !(is_alphabetic(c) || c == '_' || c == '-') {
            assert(!name_char(s@[i as int]));
            return None;
        }
        i = i + 1;
    }
    Some(ParsedSelector::ProjectByName(owned, (0, n)))
}

} // verus!
