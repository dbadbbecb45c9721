//! The workspace graph: one root, one node per project and per task, and
//! tagged edges between them, held in a petgraph `Graph`.
use vstd::prelude::*;

use crate::paths::{same_text, ValidPath};
use crate::workspace::{
    declares_dependency, declares_project, declares_requirement, ProjectInfo, TaskInfo,
};
use petgraph::visit::{EdgeRef, IntoNeighbors, Walker};

verus! {

#[verifier::external_type_specification]
#[verifier::external_body]
#[verifier::reject_recursive_types(N)]
#[verifier::reject_recursive_types(E)]
#[verifier::reject_recursive_types(Ty)]
#[verifier::reject_recursive_types(Ix)]
pub struct ExGraph<N, E, Ty, Ix>(petgraph::Graph<N, E, Ty, Ix>);

#[verifier::external_type_specification]
#[verifier::external_body]
pub struct ExDirected(petgraph::Directed);

/// The graph as petgraph holds it: unit node weights, edge kinds as codes.
pub type RawGraph = petgraph::Graph<(), u8>;

/// How many nodes a graph holds.
pub uninterp spec fn graph_node_count(g: RawGraph) -> nat;

/// The order petgraph's `toposort` gives for the edges of `kinds`; it depends
/// on the graph and the kinds alone.
pub uninterp spec fn toposort_of(g: RawGraph, kinds: Seq<u8>) -> Seq<usize>;

/// The edges of a graph, in the order they were added: source, target, kind.
pub uninterp spec fn graph_edges(g: RawGraph) -> Seq<(usize, usize, u8)>;

pub const HAS_PROJECT: u8 = 0;
pub const PROJECT_DEPENDS_ON: u8 = 1;
pub const PROJECT_DEPENDED_ON_BY: u8 = 2;
pub const TASK_DEPENDS_ON: u8 = 3;
pub const TASK_DEPENDED_ON_BY: u8 = 4;
pub const HAS_TASK: u8 = 5;

/// An edge from `a` to `b` of one of `kinds`.
pub open spec fn is_edge(es: Seq<(usize, usize, u8)>, kinds: Seq<u8>, a: usize, b: usize) -> bool {
    exists|i: int|
        0 <= i < es.len() && (#[trigger] es[i]).0 == a && es[i].1 == b && kinds.contains(es[i].2)
}

/// A walk along edges of `kinds`.
pub open spec fn is_path(es: Seq<(usize, usize, u8)>, kinds: Seq<u8>, p: Seq<usize>) -> bool {
    &&& p.len() >= 1
    &&& forall|i: int| 0 <= i < p.len() - 1 ==> #[trigger] is_edge(es, kinds, p[i], p[i + 1])
}

/// `b` can be reached from `a` along edges of `kinds` (every node reaches itself).
pub open spec fn reaches(es: Seq<(usize, usize, u8)>, kinds: Seq<u8>, a: usize, b: usize) -> bool {
    exists|p: Seq<usize>| #[trigger] is_path(es, kinds, p) && p[0] == a && p.last() == b
}

/// Some walk of at least one edge along `kinds` comes back to where it started.
pub open spec fn has_cycle(es: Seq<(usize, usize, u8)>, kinds: Seq<u8>) -> bool {
    exists|p: Seq<usize>| #[trigger] is_path(es, kinds, p) && p.len() >= 2 && p[0] == p.last()
}

/// `order` lists the `n` nodes once each, every edge of `kinds` pointing forward.
pub open spec fn is_topological(
    es: Seq<(usize, usize, u8)>,
    kinds: Seq<u8>,
    n: nat,
    order: Seq<usize>,
) -> bool {
    &&& order.len() == n
    &&& order.no_duplicates()
    &&& forall|i: int| 0 <= i < order.len() ==> (order[i] as nat) < n
    &&& forall|x: usize| (x as nat) < n ==> order.contains(x)
    &&& forall|i: int, j: int|
        0 <= i < order.len() && 0 <= j < order.len() && #[trigger] is_edge(
            es,
            kinds,
            order[i],
            order[j],
        ) ==> i < j
}

/// Whether `k` is among `kinds`.
pub fn kind_in(kinds: &Vec<u8>, k: u8) -> (r: bool)
    ensures
        r == kinds@.contains(k),
{
    let mut i: usize = 0;
    while i < kinds.len()
        invariant
            i <= kinds.len(),
            forall|j: int| 0 <= j < i ==> kinds@[j] != k,
        decreases kinds.len() - i,
    {
        if kinds[i] == k {
            return true;
        }
        i = i + 1;
    }
    false
}

/// Relies on petgraph's `Graph::new`: an empty graph.
#[verifier::external_body]
fn graph_new() -> (g: RawGraph)
    ensures
        graph_node_count(g) == 0,
        graph_edges(g) == Seq::<(usize, usize, u8)>::empty(),
{
    petgraph::Graph::new()
}

/// Relies on petgraph's `Graph::add_node`: the new node takes the next index;
/// it panics once the `u32` indices run out.
#[verifier::external_body]
fn graph_add_node(g: &mut RawGraph) -> (r: usize)
    requires
        graph_node_count(*old(g)) < u32::MAX,
    ensures
        r == graph_node_count(*old(g)),
        graph_node_count(*final(g)) == graph_node_count(*old(g)) + 1,
        graph_edges(*final(g)) == graph_edges(*old(g)),
{
    g.add_node(()).index()
}

/// Relies on petgraph's `Graph::add_edge`: the edge is appended; it panics on
/// a node out of bounds or once the `u32` edge indices run out.
#[verifier::external_body]
fn graph_add_edge(g: &mut RawGraph, a: usize, b: usize, kind: u8)
    requires
        (a as nat) < graph_node_count(*old(g)),
        (b as nat) < graph_node_count(*old(g)),
        graph_edges(*old(g)).len() < u32::MAX,
    ensures
        graph_node_count(*final(g)) == graph_node_count(*old(g)),
        graph_edges(*final(g)) == graph_edges(*old(g)).push((a, b, kind)),
{
    g.add_edge(petgraph::graph::NodeIndex::new(a), petgraph::graph::NodeIndex::new(b), kind);
}

/// Relies on petgraph's `neighbors` on an `EdgeFiltered` view: the targets
/// of the edges of `kinds` that leave `a`.
#[verifier::external_body]
fn graph_neighbors(g: &RawGraph, a: usize, kinds: &Vec<u8>) -> (r: Vec<usize>)
    requires
        (a as nat) < graph_node_count(*g),
    ensures
        forall|x: usize| r@.contains(x) <==> is_edge(graph_edges(*g), kinds@, a, x),
{
    let filtered = petgraph::visit::EdgeFiltered::from_fn(
        g,
        |e: petgraph::graph::EdgeReference<'_, u8>| kind_in(kinds, *e.weight()),
    );
    (&filtered).neighbors(petgraph::graph::NodeIndex::new(a)).map(|i| i.index()).collect()
}

/// Relies on petgraph's `DfsPostOrder` on an `EdgeFiltered` view: every node
/// reachable from `start` along edges of `kinds`, `start` included, once each.
#[verifier::external_body]
fn graph_reachable(g: &RawGraph, start: usize, kinds: &Vec<u8>) -> (r: Vec<usize>)
    requires
        (start as nat) < graph_node_count(*g),
    ensures
        r@.no_duplicates(),
        forall|x: usize| r@.contains(x) <==> reaches(graph_edges(*g), kinds@, start, x),
{
    let filtered = petgraph::visit::EdgeFiltered::from_fn(
        g,
        |e: petgraph::graph::EdgeReference<'_, u8>| kind_in(kinds, *e.weight()),
    );
    petgraph::visit::DfsPostOrder::new(&filtered, petgraph::graph::NodeIndex::new(start)).iter(
        &filtered,
    ).map(|i| i.index()).collect()
}

/// Relies on petgraph's `has_path_connecting` on an `EdgeFiltered` view: true
/// when `to` is reachable from `from`, or equal to it.
#[verifier::external_body]
fn graph_has_path(g: &RawGraph, from: usize, to: usize, kinds: &Vec<u8>) -> (r: bool)
    requires
        (from as nat) < graph_node_count(*g),
        (to as nat) < graph_node_count(*g),
    ensures
        r == reaches(graph_edges(*g), kinds@, from, to),
{
    let filtered = petgraph::visit::EdgeFiltered::from_fn(
        g,
        |e: petgraph::graph::EdgeReference<'_, u8>| kind_in(kinds, *e.weight()),
    );
    petgraph::algo::has_path_connecting(
        &filtered,
        petgraph::graph::NodeIndex::new(from),
        petgraph::graph::NodeIndex::new(to),
        None,
    )
}

/// Relies on petgraph's `toposort` on an `EdgeFiltered` view: every node once,
/// each before its successors; or a node on a cycle.
#[verifier::external_body]
fn graph_toposort(g: &RawGraph, kinds: &Vec<u8>) -> (r: Result<Vec<usize>, usize>)
    ensures
        match r {
            Ok(order) => is_topological(graph_edges(*g), kinds@, graph_node_count(*g), order@)
                && order@ == toposort_of(*g, kinds@),
            Err(_) => has_cycle(graph_edges(*g), kinds@),
        },
{
    let filtered = petgraph::visit::EdgeFiltered::from_fn(
        g,
        |e: petgraph::graph::EdgeReference<'_, u8>| kind_in(kinds, *e.weight()),
    );
    match petgraph::algo::toposort(&filtered, None) {
        Ok(order) => Ok(order.into_iter().map(|i| i.index()).collect()),
        Err(cycle) => Err(cycle.node_id().index()),
    }
}

/// A one-kind list holds its kind.
pub proof fn lemma_single_kind(k: u8)
    ensures
        #[trigger] seq![k].contains(k),
{
    assert(seq![k][0] == k);
}

/// A task never depends, directly or not, on a distinct task that depends on it.
pub proof fn lemma_task_dependencies_antisymmetric(
    g: &WorkspaceGraph,
    a: (Seq<Seq<char>>, Seq<char>),
    b: (Seq<Seq<char>>, Seq<char>),
)
    requires
        g.wf(),
        a != b,
        g.task_reaches(b, a),
    ensures
        !g.task_reaches(a, b),
{
    if g.task_reaches(a, b) {
        g.lemma_task_walks_rise(b, a);
        g.lemma_task_walks_rise(a, b);
    }
}

/// The tasks among the nodes `order`, last first.
pub open spec fn tasks_reversed(keys: Seq<NodeKey>, order: Seq<usize>) -> Seq<(Seq<Seq<char>>, Seq<char>)>
    decreases order.len(),
{
    if order.len() == 0 {
        Seq::empty()
    } else {
        let rest = tasks_reversed(keys, order.drop_first());
        match keys[order[0] as int] {
            NodeKey::Task(t) => rest.push(t),
            _ => rest,
        }
    }
}

/// The position of `x` in `order`.
pub open spec fn position(order: Seq<usize>, x: usize) -> int {
    choose|i: int| 0 <= i < order.len() && order[i] == x
}

/// Along a walk whose edges a topological order covers, the order rises.
pub proof fn lemma_path_rises(
    es: Seq<(usize, usize, u8)>,
    kinds: Seq<u8>,
    order_kinds: Seq<u8>,
    n: nat,
    order: Seq<usize>,
    p: Seq<usize>,
    k: int,
)
    requires
        is_topological(es, order_kinds, n, order),
        forall|i: int| 0 <= i < es.len() ==> (es[i].0 as nat) < n && (es[i].1 as nat) < n,
        forall|c: u8| kinds.contains(c) ==> order_kinds.contains(c),
        is_path(es, kinds, p),
        1 <= k < p.len(),
    ensures
        0 <= position(order, p[0]) < position(order, p[k]) < order.len(),
        order[position(order, p[0])] == p[0],
        order[position(order, p[k])] == p[k],
    decreases k,
{
    let a = p[k - 1];
    let b = p[k];
    assert(is_edge(es, kinds, p[k - 1], p[(k - 1) + 1]));
    let e = choose|i: int|
        0 <= i < es.len() && (#[trigger] es[i]).0 == a && es[i].1 == b && kinds.contains(es[i].2);
    assert(order.contains(a));
    assert(order.contains(b));
    let ia = position(order, a);
    let ib = position(order, b);
    assert(is_edge(es, order_kinds, order[ia], order[ib]));
    assert(ia < ib);
    if k > 1 {
        lemma_path_rises(es, kinds, order_kinds, n, order, p, k - 1);
    } else {
        assert(order.contains(p[0]));
    }
}

/// A topological order rules out cycles.
pub proof fn lemma_topological_acyclic(
    es: Seq<(usize, usize, u8)>,
    kinds: Seq<u8>,
    n: nat,
    order: Seq<usize>,
)
    requires
        is_topological(es, kinds, n, order),
        forall|i: int| 0 <= i < es.len() ==> (es[i].0 as nat) < n && (es[i].1 as nat) < n,
    ensures
        !has_cycle(es, kinds),
{
    if has_cycle(es, kinds) {
        let p = choose|p: Seq<usize>| #[trigger] is_path(es, kinds, p) && p.len() >= 2 && p[0] == p.last();
        lemma_path_rises(es, kinds, kinds, n, order, p, p.len() - 1);
    }
}


/// Identity of a project: its root below the workspace.
#[derive(Debug, Clone, Hash)]
pub struct ProjectRef(pub ValidPath);

impl View for ProjectRef {
    type V = Seq<Seq<char>>;

    open spec fn view(&self) -> Seq<Seq<char>> {
        self.0@
    }
}

impl ProjectRef {
    /// Whether both name the same project.
    pub fn same(&self, other: &ProjectRef) -> (r: bool)
        ensures
            r == (self@ == other@),
    {
        self.0.same_as(&other.0)
    }

    /// A copy of this reference.
    pub fn duplicate(&self) -> (r: ProjectRef)
        ensures
            r@ == self@,
    {
        ProjectRef(self.0.duplicate())
    }

    /// The project's root below the workspace, as text.
    pub fn as_str(&self) -> (r: String)
        ensures
            r@ == crate::paths::join_spec(self@),
    {
        self.0.as_subpath()
    }
}

/// Identity of a task: its project and its name.
#[derive(Debug, Clone, Hash)]
pub struct TaskRef(pub ProjectRef, pub String);

impl View for TaskRef {
    type V = (Seq<Seq<char>>, Seq<char>);

    open spec fn view(&self) -> (Seq<Seq<char>>, Seq<char>) {
        (self.0@, self.1@)
    }
}

impl TaskRef {
    pub fn project(&self) -> (r: &ProjectRef)
        ensures
            r@ == self@.0,
    {
        &self.0
    }

    pub fn task_name(&self) -> (r: &str)
        ensures
            r@ == self@.1,
    {
        self.1.as_str()
    }

    /// Whether both name the same task.
    pub fn same(&self, other: &TaskRef) -> (r: bool)
        ensures
            r == (self@ == other@),
    {
        self.0.same(&other.0) && same_text(&self.1, &other.1)
    }

    /// A copy of this reference.
    pub fn duplicate(&self) -> (r: TaskRef)
        ensures
            r@ == self@,
    {
        TaskRef(self.0.duplicate(), self.1.clone())
    }

    /// The display form `<project-subpath>::<task-name>`.
    pub fn to_string(&self) -> (r: String)
        ensures
            r@ == crate::paths::join_spec(self@.0) + seq![':', ':'] + self@.1,
    {
        let mut s = self.0.as_str();
        s.append("::");
        proof {
            reveal_strlit("::");
        }
        s.append(self.1.as_str());
        s
    }
}

/// The views of a list of project references.
pub open spec fn project_views(v: Seq<ProjectRef>) -> Seq<Seq<Seq<char>>> {
    v.map_values(|x: ProjectRef| x@)
}

/// The views of a list of task references.
pub open spec fn task_views(v: Seq<TaskRef>) -> Seq<(Seq<Seq<char>>, Seq<char>)> {
    v.map_values(|x: TaskRef| x@)
}

/// What a node stands for.
#[derive(Debug)]
pub enum WorkspaceNode {
    WorkspaceRoot,
    Project(ProjectRef),
    Task(TaskRef),
}

/// A node's identity, as used in contracts.
pub enum NodeKey {
    Root,
    Project(Seq<Seq<char>>),
    Task((Seq<Seq<char>>, Seq<char>)),
}

impl WorkspaceNode {
    pub open spec fn key(&self) -> NodeKey {
        match self {
            WorkspaceNode::WorkspaceRoot => NodeKey::Root,
            WorkspaceNode::Project(p) => NodeKey::Project(p@),
            WorkspaceNode::Task(t) => NodeKey::Task(t@),
        }
    }
}

/// The tag of an edge.
#[derive(Debug, Clone, Copy, PartialEq, Eq)]
pub enum WorkspaceEdge {
    HasProject,
    ProjectDependsOn,
    ProjectDependedOnBy,
    TaskDependsOn,
    TaskDependedOnBy,
    HasTask,
}

impl WorkspaceEdge {
    pub open spec fn spec_code(&self) -> u8 {
        match self {
            WorkspaceEdge::HasProject => HAS_PROJECT,
            WorkspaceEdge::ProjectDependsOn => PROJECT_DEPENDS_ON,
            WorkspaceEdge::ProjectDependedOnBy => PROJECT_DEPENDED_ON_BY,
            WorkspaceEdge::TaskDependsOn => TASK_DEPENDS_ON,
            WorkspaceEdge::TaskDependedOnBy => TASK_DEPENDED_ON_BY,
            WorkspaceEdge::HasTask => HAS_TASK,
        }
    }

    /// The code the graph stores for this tag.
    pub fn code(&self) -> (r: u8)
        ensures
            r == self.spec_code(),
    {
        match self {
            WorkspaceEdge::HasProject => HAS_PROJECT,
            WorkspaceEdge::ProjectDependsOn => PROJECT_DEPENDS_ON,
            WorkspaceEdge::ProjectDependedOnBy => PROJECT_DEPENDED_ON_BY,
            WorkspaceEdge::TaskDependsOn => TASK_DEPENDS_ON,
            WorkspaceEdge::TaskDependedOnBy => TASK_DEPENDED_ON_BY,
            WorkspaceEdge::HasTask => HAS_TASK,
        }
    }
}

/// The edge kinds that order tasks: root to project, project to task, task
/// to the tasks it depends on.
pub open spec fn order_kinds() -> Seq<u8> {
    seq![HAS_PROJECT, HAS_TASK, TASK_DEPENDS_ON]
}

fn kinds_of(a: u8) -> (r: Vec<u8>)
    ensures
        r@ == seq![a],
{
    let mut v: Vec<u8> = Vec::new();
    v.push(a);
    v
}

fn order_kind_list() -> (r: Vec<u8>)
    ensures
        r@ == order_kinds(),
{
    let mut v: Vec<u8> = Vec::new();
    v.push(HAS_PROJECT);
    v.push(HAS_TASK);
    v.push(TASK_DEPENDS_ON);
    assert(v@ =~= order_kinds());
    v
}

/// Why a graph could not be built.
#[derive(Debug)]
pub enum GraphError {
    DuplicateProject(ProjectRef),
    UnknownProject(ProjectRef),
    DuplicateTask(TaskRef),
    UnknownTask(TaskRef),
    ProjectCycle,
    TaskCycle,
    TooLarge,
}

/// The tagged graph of a workspace.
pub struct WorkspaceGraph {
    graph: RawGraph,
    nodes: Vec<WorkspaceNode>,
    edge_count: usize,
    order: Ghost<Seq<usize>>,
    project_order: Ghost<Seq<usize>>,
}

fn push_node_result(r: Result<usize, GraphError>) -> (o: Result<usize, GraphError>)
    ensures
        o == r,
{
    r
}

fn push_edge_result(r: Result<(), GraphError>) -> (o: Result<(), GraphError>)
    ensures
        o == r,
{
    r
}

/// Whether some project of `projects` has the root `p`.
pub fn find_declared(projects: &Vec<ProjectInfo>, p: &ProjectRef) -> (r: bool)
    ensures
        r == declares_project(projects@, p@),
{
    let mut i: usize = 0;
    while i < projects.len()
        invariant
            i <= projects.len(),
            forall|k: int| 0 <= k < i ==> projects@[k].root@ != p@,
        decreases projects.len() - i,
    {
        if projects[i].root.same_as(&p.0) {
            return true;
        }
        i = i + 1;
    }
    false
}

/// Checks that roots and tasks are unique and every named project exists.
fn check_declarations(projects: &Vec<ProjectInfo>, tasks: &Vec<TaskInfo>) -> (r: Result<
    (),
    GraphError,
>)
    ensures
        r is Ok ==> {
            &&& forall|i: int, j: int|
                0 <= j < i < projects.len() ==> projects@[i].root@ != projects@[j].root@
            &&& forall|i: int, j: int|
                0 <= i < projects.len() && 0 <= j < projects@[i].dependencies@.len()
                    ==> declares_project(projects@, #[trigger] projects@[i].dependencies@[j]@)
            &&& forall|i: int, j: int|
                0 <= j < i < tasks.len() ==> tasks@[i].ref_view() != tasks@[j].ref_view()
            &&& forall|i: int|
                0 <= i < tasks.len() ==> declares_project(projects@, #[trigger] tasks@[i].project@)
        },
        r matches Err(e) ==> match e {
            GraphError::DuplicateProject(p) => repeats_project(projects@, p@),
            GraphError::UnknownProject(p) => mentions_project(projects@, tasks@, p@)
                && !declares_project(projects@, p@),
            GraphError::DuplicateTask(t) => repeats_task(tasks@, t@),
            _ => false,
        },
{
    let mut i: usize = 0;
    while i < projects.len()
        invariant
            i <= projects.len(),
            forall|a: int, b: int| 0 <= b < a < i ==> projects@[a].root@ != projects@[b].root@,
            forall|a: int, b: int|
                0 <= a < i && 0 <= b < projects@[a].dependencies@.len() ==> declares_project(
                    projects@,
                    #[trigger] projects@[a].dependencies@[b]@,
                ),
        decreases projects.len() - i,
    {
        let mut j: usize = 0;
        while j < i
            invariant
                i < projects.len(),
                j <= i,
                forall|b: int| 0 <= b < j ==> projects@[i as int].root@ != projects@[b].root@,
            decreases i - j,
        {
            if projects[i].root.same_as(&projects[j].root) {
                return Err(GraphError::DuplicateProject(projects[i].project_ref()));
            }
            j = j + 1;
        }
        let deps = &projects[i].dependencies;
        let mut d: usize = 0;
        while d < deps.len()
            invariant
                i < projects.len(),
                deps == projects@[i as int].dependencies,
                d <= deps.len(),
                forall|b: int|
                    0 <= b < d ==> declares_project(
                        projects@,
                        #[trigger] projects@[i as int].dependencies@[b]@,
                    ),
            decreases deps.len() - d,
        {
            if !find_declared(projects, &deps[d]) {
                return Err(GraphError::UnknownProject(deps[d].duplicate()));
            }
            d = d + 1;
        }
        i = i + 1;
    }
    let mut t: usize = 0;
    while t < tasks.len()
        invariant
            t <= tasks.len(),
            forall|a: int, b: int| 0 <= b < a < t ==> tasks@[a].ref_view() != tasks@[b].ref_view(),
            forall|a: int| 0 <= a < t ==> declares_project(projects@, #[trigger] tasks@[a].project@),
        decreases tasks.len() - t,
    {
        if !find_declared(projects, &tasks[t].project) {
            return Err(GraphError::UnknownProject(tasks[t].project.duplicate()));
        }
        let tr = tasks[t].task_ref();
        let mut u: usize = 0;
        while u < t
            invariant
                t < tasks.len(),
                tr@ == tasks@[t as int].ref_view(),
                u <= t,
                forall|b: int| 0 <= b < u ==> tasks@[t as int].ref_view() != tasks@[b].ref_view(),
            decreases t - u,
        {
            let other = tasks[u].task_ref();
            if tr.same(&other) {
                return Err(GraphError::DuplicateTask(tr));
            }
            u = u + 1;
        }
        t = t + 1;
    }
    Ok(())
}

/// `t` stands in a requirement, on either side.
pub open spec fn mentions_task(
    reqs: Seq<(TaskRef, Vec<TaskRef>)>,
    t: (Seq<Seq<char>>, Seq<char>),
) -> bool {
    (exists|i: int| 0 <= i < reqs.len() && #[trigger] reqs[i].0@ == t) || (exists|i: int, j: int|
        0 <= i < reqs.len() && 0 <= j < reqs[i].1@.len() && #[trigger] reqs[i].1@[j]@ == t)
}

/// How many dependencies `projects` declare in all.
pub open spec fn dep_total(projects: Seq<ProjectInfo>) -> nat
    decreases projects.len(),
{
    if projects.len() == 0 {
        0
    } else {
        dep_total(projects.drop_last()) + projects.last().dependencies@.len()
    }
}

/// How many dependencies `reqs` list in all.
pub open spec fn req_total(reqs: Seq<(TaskRef, Vec<TaskRef>)>) -> nat
    decreases reqs.len(),
{
    if reqs.len() == 0 {
        0
    } else {
        req_total(reqs.drop_last()) + reqs.last().1@.len()
    }
}

proof fn lemma_dep_total_step(projects: Seq<ProjectInfo>, i: int)
    requires
        0 <= i < projects.len(),
    ensures
        dep_total(projects.take(i + 1)) == dep_total(projects.take(i)) + projects[i].dependencies@.len(),
        dep_total(projects.take(i + 1)) <= dep_total(projects),
    decreases projects.len() - i,
{
    assert(projects.take(i + 1).drop_last() =~= projects.take(i));
    if i + 1 < projects.len() {
        lemma_dep_total_step(projects.drop_last(), i);
        assert(projects.drop_last().take(i + 1) =~= projects.take(i + 1));
    } else {
        assert(projects.take(i + 1) =~= projects);
    }
}

proof fn lemma_req_total_step(reqs: Seq<(TaskRef, Vec<TaskRef>)>, i: int)
    requires
        0 <= i < reqs.len(),
    ensures
        req_total(reqs.take(i + 1)) == req_total(reqs.take(i)) + reqs[i].1@.len(),
        req_total(reqs.take(i + 1)) <= req_total(reqs),
    decreases reqs.len() - i,
{
    assert(reqs.take(i + 1).drop_last() =~= reqs.take(i));
    if i + 1 < reqs.len() {
        lemma_req_total_step(reqs.drop_last(), i);
        assert(reqs.drop_last().take(i + 1) =~= reqs.take(i + 1));
    } else {
        assert(reqs.take(i + 1) =~= reqs);
    }
}

/// The graph was refused for a cycle.
pub open spec fn is_cycle_error(r: Result<(), GraphError>) -> bool {
    match r {
        Err(GraphError::ProjectCycle) => true,
        Err(GraphError::TaskCycle) => true,
        _ => false,
    }
}

/// The node keys of `projects`, in order.
pub open spec fn project_keys(projects: Seq<ProjectInfo>) -> Seq<NodeKey> {
    projects.map_values(|p: ProjectInfo| NodeKey::Project(p.root@))
}

/// The node keys of `tasks`, in order.
pub open spec fn task_keys(tasks: Seq<TaskInfo>) -> Seq<NodeKey> {
    tasks.map_values(|t: TaskInfo| NodeKey::Task(t.ref_view()))
}

/// Two projects of `projects` share the root `p`.
pub open spec fn repeats_project(projects: Seq<ProjectInfo>, p: Seq<Seq<char>>) -> bool {
    exists|i: int, j: int|
        0 <= j < i < projects.len() && #[trigger] projects[i].root@ == p && #[trigger] projects[j].root@
            == p
}

/// Two tasks of `tasks` are both `t`.
pub open spec fn repeats_task(tasks: Seq<TaskInfo>, t: (Seq<Seq<char>>, Seq<char>)) -> bool {
    exists|i: int, j: int|
        0 <= j < i < tasks.len() && #[trigger] tasks[i].ref_view() == t && #[trigger] tasks[j].ref_view()
            == t
}

/// `p` is named as a dependency or as a task's project.
pub open spec fn mentions_project(
    projects: Seq<ProjectInfo>,
    tasks: Seq<TaskInfo>,
    p: Seq<Seq<char>>,
) -> bool {
    (exists|i: int, j: int|
        0 <= i < projects.len() && 0 <= j < projects[i].dependencies@.len()
            && #[trigger] projects[i].dependencies@[j]@ == p) || (exists|i: int|
        0 <= i < tasks.len() && #[trigger] tasks[i].project@ == p)
}

impl WorkspaceGraph {
    /// The petgraph graph underneath.
    pub closed spec fn raw(&self) -> RawGraph {
        self.graph
    }

    pub closed spec fn edges(&self) -> Seq<(usize, usize, u8)> {
        graph_edges(self.graph)
    }

    pub closed spec fn keys(&self) -> Seq<NodeKey> {
        self.nodes@.map_values(|n: WorkspaceNode| n.key())
    }

    /// The structure every graph keeps: one node per key, the root first,
    /// edges between existing nodes, and no cycle among projects nor along
    /// the task order.
    pub closed spec fn wf(&self) -> bool {
        &&& self.wf_nodes()
        &&& is_topological(self.edges(), order_kinds(), self.nodes@.len() as nat, self.order@)
        &&& is_topological(
            self.edges(),
            seq![PROJECT_DEPENDS_ON],
            self.nodes@.len() as nat,
            self.project_order@,
        )
    }

    closed spec fn wf_nodes(&self) -> bool {
        &&& graph_node_count(self.graph) == self.nodes@.len()
        &&& self.edge_count == self.edges().len()
        &&& self.nodes@.len() >= 1
        &&& self.keys()[0] == NodeKey::Root
        &&& forall|i: int, j: int|
            0 <= i < self.nodes@.len() && 0 <= j < self.nodes@.len() && i != j ==> self.keys()[i]
                != self.keys()[j]
        &&& forall|i: int|
            0 <= i < self.edges().len() ==> (self.edges()[i].0 as nat) < self.nodes@.len() && (
            self.edges()[i].1 as nat) < self.nodes@.len()
    }

    /// A node with key `a` has an edge of `kinds` to a node with key `b`.
    pub closed spec fn key_edge(&self, a: NodeKey, b: NodeKey, kinds: Seq<u8>) -> bool {
        exists|i: usize, j: usize|
            (i as int) < self.keys().len() && (j as int) < self.keys().len() && self.keys()[i as int]
                == a && self.keys()[j as int] == b && #[trigger] is_edge(self.edges(), kinds, i, j)
    }

    /// A node with key `b` is reachable from one with key `a` along `kinds`.
    pub closed spec fn key_reaches(&self, a: NodeKey, b: NodeKey, kinds: Seq<u8>) -> bool {
        exists|i: usize, j: usize|
            (i as int) < self.keys().len() && (j as int) < self.keys().len() && self.keys()[i as int]
                == a && self.keys()[j as int] == b && #[trigger] reaches(self.edges(), kinds, i, j)
    }

    pub closed spec fn has_key(&self, k: NodeKey) -> bool {
        self.keys().contains(k)
    }

    /// The task `b` is a direct dependency of the task `a`.
    pub open spec fn depends_on(
        &self,
        a: (Seq<Seq<char>>, Seq<char>),
        b: (Seq<Seq<char>>, Seq<char>),
    ) -> bool {
        self.key_edge(NodeKey::Task(a), NodeKey::Task(b), seq![TASK_DEPENDS_ON])
    }

    /// The task `b` is `a` or one of its dependencies, direct or not.
    pub open spec fn task_reaches(
        &self,
        a: (Seq<Seq<char>>, Seq<char>),
        b: (Seq<Seq<char>>, Seq<char>),
    ) -> bool {
        self.key_reaches(NodeKey::Task(a), NodeKey::Task(b), seq![TASK_DEPENDS_ON])
    }

    /// An empty graph: the root alone.
    pub fn new() -> (r: WorkspaceGraph)
        ensures
            r.is_fresh(),
            r.wf(),
            r.keys() == seq![NodeKey::Root],
            r.edges().len() == 0,
    {
        let mut graph = graph_new();
        let root = graph_add_node(&mut graph);
        let mut nodes: Vec<WorkspaceNode> = Vec::new();
        nodes.push(WorkspaceNode::WorkspaceRoot);
        let ghost o: Seq<usize> = seq![0usize];
        let r = WorkspaceGraph {
            graph,
            nodes,
            edge_count: 0,
            order: Ghost(o),
            project_order: Ghost(o),
        };
        assert(r.keys() =~= seq![NodeKey::Root]);
        assert forall|x: usize| (x as nat) < 1 implies seq![0usize].contains(x) by {
            assert(seq![0usize][0] == x);
        }
        r
    }

    /// Each edge joins the kinds of node its tag names, as `projects` and
    /// `reqs` declare.
    pub closed spec fn edge_sound(
        &self,
        e: (usize, usize, u8),
        projects: Seq<ProjectInfo>,
        reqs: Seq<(TaskRef, Vec<TaskRef>)>,
    ) -> bool {
        let a = self.keys()[e.0 as int];
        let b = self.keys()[e.1 as int];
        if e.2 == HAS_PROJECT {
            a is Root && b is Project
        } else if e.2 == PROJECT_DEPENDS_ON {
            match (a, b) {
                (NodeKey::Project(x), NodeKey::Project(y)) => declares_dependency(projects, x, y),
                _ => false,
            }
        } else if e.2 == PROJECT_DEPENDED_ON_BY {
            match (a, b) {
                (NodeKey::Project(x), NodeKey::Project(y)) => declares_dependency(projects, y, x),
                _ => false,
            }
        } else if e.2 == HAS_TASK {
            match (a, b) {
                (NodeKey::Project(x), NodeKey::Task(t)) => t.0 == x,
                _ => false,
            }
        } else if e.2 == TASK_DEPENDS_ON {
            match (a, b) {
                (NodeKey::Task(x), NodeKey::Task(y)) => x != y && declares_requirement(reqs, x, y),
                _ => false,
            }
        } else if e.2 == TASK_DEPENDED_ON_BY {
            match (a, b) {
                (NodeKey::Task(x), NodeKey::Task(y)) => x != y && declares_requirement(reqs, y, x),
                _ => false,
            }
        } else {
            false
        }
    }

    /// Every edge is sound with respect to the declarations.
    pub closed spec fn edges_sound(
        &self,
        projects: Seq<ProjectInfo>,
        reqs: Seq<(TaskRef, Vec<TaskRef>)>,
    ) -> bool {
        forall|k: int|
            0 <= k < self.edges().len() ==> #[trigger] self.edge_sound(self.edges()[k], projects, reqs)
    }

    /// Every declaration of `projects` and `tasks` stands in the graph.
    pub closed spec fn holds_declarations(
        &self,
        projects: Seq<ProjectInfo>,
        tasks: Seq<TaskInfo>,
    ) -> bool {
        &&& self.keys() == seq![NodeKey::Root] + project_keys(projects) + task_keys(tasks)
        &&& forall|p: Seq<Seq<char>>|
            #[trigger] declares_project(projects, p) ==> self.key_edge(
                NodeKey::Root,
                NodeKey::Project(p),
                seq![HAS_PROJECT],
            )
        &&& forall|a: Seq<Seq<char>>, b: Seq<Seq<char>>|
            #[trigger] declares_dependency(projects, a, b) ==> self.key_edge(
                NodeKey::Project(a),
                NodeKey::Project(b),
                seq![PROJECT_DEPENDS_ON],
            ) && self.key_edge(NodeKey::Project(b), NodeKey::Project(a), seq![PROJECT_DEPENDED_ON_BY])
        &&& forall|i: int|
            0 <= i < tasks.len() ==> self.key_edge(
                NodeKey::Project(tasks[i].project@),
                NodeKey::Task(#[trigger] tasks[i].ref_view()),
                seq![HAS_TASK],
            )
    }

    /// Adding nodes and edges at the end keeps every edge between keys.
    proof fn lemma_grows(old: &WorkspaceGraph, new: &WorkspaceGraph)
        requires
            old.keys().len() <= new.keys().len(),
            new.keys().take(old.keys().len() as int) == old.keys(),
            old.edges().len() <= new.edges().len(),
            new.edges().take(old.edges().len() as int) == old.edges(),
        ensures
            forall|a: NodeKey, b: NodeKey, kinds: Seq<u8>|
                #[trigger] old.key_edge(a, b, kinds) ==> new.key_edge(a, b, kinds),
    {
        assert forall|a: NodeKey, b: NodeKey, kinds: Seq<u8>|
            #[trigger] old.key_edge(a, b, kinds) implies new.key_edge(a, b, kinds) by {
            let (i, j) = choose|i: usize, j: usize|
                (i as int) < old.keys().len() && (j as int) < old.keys().len() && old.keys()[i as int]
                    == a && old.keys()[j as int] == b && #[trigger] is_edge(old.edges(), kinds, i, j);
            let e = choose|e: int|
                0 <= e < old.edges().len() && (#[trigger] old.edges()[e]).0 == i && old.edges()[e].1
                    == j && kinds.contains(old.edges()[e].2);
            assert(new.keys()[i as int] == old.keys().take(old.keys().len() as int)[i as int]);
            assert(new.keys()[j as int] == old.keys().take(old.keys().len() as int)[j as int]);
            assert(new.edges()[e] == new.edges().take(old.edges().len() as int)[e]);
            assert(is_edge(new.edges(), kinds, i, j));
        }
    }

    /// Adds a node; refuses once the graph is full.
    fn push_node(&mut self, n: WorkspaceNode) -> (r: Result<usize, GraphError>)
        requires
            old(self).wf_nodes(),
            !old(self).has_key(n.key()),
        ensures
            match r {
                Ok(i) => {
                    &&& final(self).wf_nodes()
                    &&& i == old(self).keys().len()
                    &&& final(self).keys() == old(self).keys().push(n.key())
                    &&& final(self).edges() == old(self).edges()
                },
                Err(e) => e is TooLarge && *final(self) == *old(self) && old(self).keys().len() >= 0xffff_fffe,
            },
    {
        if self.nodes.len() >= 0xffff_fffe {
            return Err(GraphError::TooLarge);
        }
        let ghost k = n.key();
        let i = graph_add_node(&mut self.graph);
        self.nodes.push(n);
        proof {
            assert(self.keys() =~= old(self).keys().push(k));
            assert(self.edges() == old(self).edges());
        }
        Ok(i)
    }

    /// Adds an edge; refuses once the graph is full.
    fn push_edge(&mut self, a: usize, b: usize, kind: u8) -> (r: Result<(), GraphError>)
        requires
            old(self).wf_nodes(),
            (a as int) < old(self).keys().len(),
            (b as int) < old(self).keys().len(),
        ensures
            match r {
                Ok(_) => {
                    &&& final(self).wf_nodes()
                    &&& final(self).keys() == old(self).keys()
                    &&& final(self).edges() == old(self).edges().push((a, b, kind))
                },
                Err(e) => e is TooLarge && *final(self) == *old(self) && old(self).edges().len() >= 0xffff_fffe,
            },
    {
        if self.edge_count >= 0xffff_fffe {
            return Err(GraphError::TooLarge);
        }
        graph_add_edge(&mut self.graph, a, b, kind);
        self.edge_count = self.edge_count + 1;
        Ok(())
    }

    /// Checks both orders for cycles and records the orders found.
    fn settle(&mut self) -> (r: Result<(), GraphError>)
        requires
            old(self).wf_nodes(),
        ensures
            final(self).keys() == old(self).keys(),
            final(self).edges() == old(self).edges(),
            final(self).wf_nodes(),
            match r {
                Ok(_) => final(self).wf(),
                Err(e) => (e is ProjectCycle && has_cycle(
                    old(self).edges(),
                    seq![PROJECT_DEPENDS_ON],
                )) || (e is TaskCycle && has_cycle(old(self).edges(), order_kinds())),
            },
    {
        let pk = kinds_of(PROJECT_DEPENDS_ON);
        match graph_toposort(&self.graph, &pk) {
            Err(_) => {
                return Err(GraphError::ProjectCycle);
            },
            Ok(o) => {
                self.project_order = Ghost(o@);
            },
        }
        let ok = order_kind_list();
        match graph_toposort(&self.graph, &ok) {
            Err(_) => {
                return Err(GraphError::TaskCycle);
            },
            Ok(o) => {
                self.order = Ghost(o@);
            },
        }
        Ok(())
    }

    /// Soundness of the existing edges survives growth at the end.
    proof fn lemma_sound_grows(
        old: &WorkspaceGraph,
        new: &WorkspaceGraph,
        projects: Seq<ProjectInfo>,
        reqs: Seq<(TaskRef, Vec<TaskRef>)>,
    )
        requires
            old.wf_nodes(),
            old.edges_sound(projects, reqs),
            old.keys().len() <= new.keys().len(),
            new.keys().take(old.keys().len() as int) == old.keys(),
            old.edges().len() <= new.edges().len(),
            new.edges().take(old.edges().len() as int) == old.edges(),
            forall|k: int|
                old.edges().len() <= k < new.edges().len() ==> #[trigger] new.edge_sound(
                    new.edges()[k],
                    projects,
                    reqs,
                ),
        ensures
            new.edges_sound(projects, reqs),
    {
        assert forall|k: int| 0 <= k < new.edges().len() implies #[trigger] new.edge_sound(
            new.edges()[k],
            projects,
            reqs,
        ) by {
            if k < old.edges().len() {
                let e = old.edges()[k];
                assert(new.edges()[k] == new.edges().take(old.edges().len() as int)[k]);
                assert(old.edge_sound(e, projects, reqs));
                assert(new.keys()[e.0 as int] == new.keys().take(old.keys().len() as int)[e.0 as int]);
                assert(new.keys()[e.1 as int] == new.keys().take(old.keys().len() as int)[e.1 as int]);
            }
        }
    }

    /// Adds a node per project, each under the root.
    fn seed_projects(&mut self, projects: &Vec<ProjectInfo>) -> (r: Result<(), GraphError>)
        requires
            old(self).wf_nodes(),
            old(self).keys() == seq![NodeKey::Root],
            old(self).edges().len() == 0,
            forall|i: int, j: int|
                0 <= j < i < projects.len() ==> projects@[i].root@ != projects@[j].root@,
        ensures
            r is Ok ==> {
                &&& final(self).wf_nodes()
                &&& final(self).keys() == seq![NodeKey::Root] + project_keys(projects@)
                &&& final(self).edges_sound(projects@, Seq::empty())
                &&& forall|p: Seq<Seq<char>>|
                    #[trigger] declares_project(projects@, p) ==> final(self).key_edge(
                        NodeKey::Root,
                        NodeKey::Project(p),
                        seq![HAS_PROJECT],
                    )
                &&& final(self).edges().len() == projects.len()
            },
            r matches Err(e) ==> e is TooLarge && projects.len() + 1 >= 0xffff_fffe,
    {
        let mut i: usize = 0;
        while i < projects.len()
            invariant
                i <= projects.len(),
                self.wf_nodes(),
                forall|a: int, b: int|
                    0 <= b < a < projects.len() ==> projects@[a].root@ != projects@[b].root@,
                self.keys() == seq![NodeKey::Root] + project_keys(projects@.take(i as int)),
                self.keys().len() == i + 1,
                self.edges().len() == i,
                self.edges_sound(projects@, Seq::empty()),
                forall|x: int|
                    0 <= x < i ==> self.key_edge(
                        NodeKey::Root,
                        NodeKey::Project(#[trigger] projects@[x].root@),
                        seq![HAS_PROJECT],
                    ),
            decreases projects.len() - i,
        {
            let ghost before = *self;
            let pr = projects[i].project_ref();
            proof {
                if self.has_key(NodeKey::Project(pr@)) {
                    let k = choose|k: int| 0 <= k < self.keys().len() && self.keys()[k] == NodeKey::Project(pr@);
                    assert(project_keys(projects@.take(i as int))[k - 1] == NodeKey::Project(pr@));
                }
            }
            let n = push_node_result(self.push_node(WorkspaceNode::Project(pr)))?;
            let ghost mid = *self;
            push_edge_result(self.push_edge(0, n, HAS_PROJECT))?;
            proof {
                assert(project_keys(projects@.take(i as int + 1)) =~= project_keys(
                    projects@.take(i as int),
                ).push(NodeKey::Project(projects@[i as int].root@)));
                assert(self.keys() =~= seq![NodeKey::Root] + project_keys(projects@.take(i as int + 1)));
                assert(self.edges().take(before.edges().len() as int) =~= before.edges());
                assert(self.keys().take(before.keys().len() as int) =~= before.keys());
                assert(self.edge_sound(self.edges()[before.edges().len() as int], projects@, Seq::empty()));
                WorkspaceGraph::lemma_sound_grows(&before, self, projects@, Seq::empty());
                WorkspaceGraph::lemma_grows(&before, self);
                let last = self.edges().len() - 1;
                assert(self.edges()[last] == (0usize, n, HAS_PROJECT));
                lemma_single_kind(HAS_PROJECT);
                assert(is_edge(self.edges(), seq![HAS_PROJECT], 0, n));
                assert(self.key_edge(
                    NodeKey::Root,
                    NodeKey::Project(projects@[i as int].root@),
                    seq![HAS_PROJECT],
                ));
            }
            i = i + 1;
        }
        proof {
            assert(projects@.take(projects.len() as int) =~= projects@);
        }
        Ok(())
    }

    /// Adds both edges for each declared project dependency.
    fn link_projects(&mut self, projects: &Vec<ProjectInfo>) -> (r: Result<(), GraphError>)
        requires
            old(self).wf_nodes(),
            old(self).edges_sound(projects@, Seq::empty()),
            old(self).keys() == seq![NodeKey::Root] + project_keys(projects@),
            old(self).edges().len() == projects.len(),
            forall|i: int, j: int|
                0 <= i < projects.len() && 0 <= j < projects@[i].dependencies@.len()
                    ==> declares_project(projects@, #[trigger] projects@[i].dependencies@[j]@),
        ensures
            r is Ok ==> {
                &&& final(self).wf_nodes()
                &&& final(self).edges().len() == projects.len() + 2 * dep_total(projects@)
                &&& final(self).keys() == old(self).keys()
                &&& final(self).edges_sound(projects@, Seq::empty())
                &&& forall|a: NodeKey, b: NodeKey, kinds: Seq<u8>|
                    #[trigger] old(self).key_edge(a, b, kinds) ==> final(self).key_edge(a, b, kinds)
                &&& forall|a: Seq<Seq<char>>, b: Seq<Seq<char>>|
                    #[trigger] declares_dependency(projects@, a, b) ==> final(self).key_edge(
                        NodeKey::Project(a),
                        NodeKey::Project(b),
                        seq![PROJECT_DEPENDS_ON],
                    ) && final(self).key_edge(
                        NodeKey::Project(b),
                        NodeKey::Project(a),
                        seq![PROJECT_DEPENDED_ON_BY],
                    )
            },
            r matches Err(e) ==> e is TooLarge && projects.len() + 2 * dep_total(projects@) >= 0xffff_fffe,
    {
        let ghost start = *self;
        let mut i: usize = 0;
        proof {
            assert(projects@.take(0) =~= Seq::<ProjectInfo>::empty());
        }
        while i < projects.len()
            invariant
                i <= projects.len(),
                self.wf_nodes(),
                self.edges().len() == projects.len() + 2 * dep_total(projects@.take(i as int)),
                self.keys() == seq![NodeKey::Root] + project_keys(projects@),
                start.keys() == self.keys(),
                self.edges_sound(projects@, Seq::empty()),
                forall|a: NodeKey, b: NodeKey, kinds: Seq<u8>|
                    #[trigger] start.key_edge(a, b, kinds) ==> self.key_edge(a, b, kinds),
                forall|i: int, j: int|
                    0 <= i < projects.len() && 0 <= j < projects@[i].dependencies@.len()
                        ==> declares_project(projects@, #[trigger] projects@[i].dependencies@[j]@),
                forall|x: int, y: int|
                    0 <= x < i && 0 <= y < projects@[x].dependencies@.len() ==> self.key_edge(
                        NodeKey::Project(projects@[x].root@),
                        NodeKey::Project(#[trigger] projects@[x].dependencies@[y]@),
                        seq![PROJECT_DEPENDS_ON],
                    ) && self.key_edge(
                        NodeKey::Project(projects@[x].dependencies@[y]@),
                        NodeKey::Project(projects@[x].root@),
                        seq![PROJECT_DEPENDED_ON_BY],
                    ),
            decreases projects.len() - i,
        {
            let deps = &projects[i].dependencies;
            let mut j: usize = 0;
            proof {
                lemma_dep_total_step(projects@, i as int);
            }
            while j < deps.len()
                invariant
                    i < projects.len(),
                    deps == projects@[i as int].dependencies,
                    j <= deps.len(),
                    self.wf_nodes(),
                    dep_total(projects@.take(i as int + 1)) == dep_total(projects@.take(i as int)) + deps@.len(),
                    dep_total(projects@.take(i as int + 1)) <= dep_total(projects@),
                    self.edges().len() == projects.len() + 2 * (dep_total(projects@.take(i as int)) + j),
                    self.keys() == seq![NodeKey::Root] + project_keys(projects@),
                    start.keys() == self.keys(),
                    self.edges_sound(projects@, Seq::empty()),
                    forall|a: NodeKey, b: NodeKey, kinds: Seq<u8>|
                        #[trigger] start.key_edge(a, b, kinds) ==> self.key_edge(a, b, kinds),
                    forall|i: int, j: int|
                        0 <= i < projects.len() && 0 <= j < projects@[i].dependencies@.len()
                            ==> declares_project(projects@, #[trigger] projects@[i].dependencies@[j]@),
                    forall|x: int, y: int|
                        ((0 <= x < i && 0 <= y < projects@[x].dependencies@.len()) || (x == i && 0
                            <= y < j)) ==> self.key_edge(
                            NodeKey::Project(projects@[x].root@),
                            NodeKey::Project(#[trigger] projects@[x].dependencies@[y]@),
                            seq![PROJECT_DEPENDS_ON],
                        ) && self.key_edge(
                            NodeKey::Project(projects@[x].dependencies@[y]@),
                            NodeKey::Project(projects@[x].root@),
                            seq![PROJECT_DEPENDED_ON_BY],
                        ),
                decreases deps.len() - j,
            {
                let ghost before = *self;
                let a = i + 1;
                let target = WorkspaceNode::Project(deps[j].duplicate());
                proof {
                    assert(declares_project(projects@, projects@[i as int].dependencies@[j as int]@));
                    let k = choose|k: int| 0 <= k < projects.len() && #[trigger] projects@[k].root@
                        == projects@[i as int].dependencies@[j as int]@;
                    assert(self.keys()[k + 1] == project_keys(projects@)[k]);
                }
                let b = match self.find_key(&target) {
                    Some(b) => b,
                    None => {
                        proof {
                            assert(false);
                        }
                        return Err(GraphError::TooLarge);
                    },
                };
                proof {
                    assert(self.keys()[a as int] == project_keys(projects@)[i as int]);
                    assert(declares_dependency(
                        projects@,
                        projects@[i as int].root@,
                        projects@[i as int].dependencies@[j as int]@,
                    ));
                }
                push_edge_result(self.push_edge(a, b, PROJECT_DEPENDS_ON))?;
                let ghost mid = *self;
                push_edge_result(self.push_edge(b, a, PROJECT_DEPENDED_ON_BY))?;
                proof {
                    let n0 = before.edges().len() as int;
                    assert(self.edges().take(n0) =~= before.edges());
                    assert(self.keys().take(before.keys().len() as int) =~= before.keys());
                    assert(self.edges()[n0] == (a, b, PROJECT_DEPENDS_ON));
                    assert(self.edges()[n0 + 1] == (b, a, PROJECT_DEPENDED_ON_BY));
                    assert(self.edge_sound(self.edges()[n0], projects@, Seq::empty()));
                    assert(self.edge_sound(self.edges()[n0 + 1], projects@, Seq::empty()));
                    WorkspaceGraph::lemma_sound_grows(&before, self, projects@, Seq::empty());
                    WorkspaceGraph::lemma_grows(&before, self);
                    lemma_single_kind(PROJECT_DEPENDS_ON);
                    lemma_single_kind(PROJECT_DEPENDED_ON_BY);
                    assert(is_edge(self.edges(), seq![PROJECT_DEPENDS_ON], a, b));
                    assert(is_edge(self.edges(), seq![PROJECT_DEPENDED_ON_BY], b, a));
                    assert(self.key_edge(
                        NodeKey::Project(projects@[i as int].root@),
                        NodeKey::Project(projects@[i as int].dependencies@[j as int]@),
                        seq![PROJECT_DEPENDS_ON],
                    ));
                    assert(self.key_edge(
                        NodeKey::Project(projects@[i as int].dependencies@[j as int]@),
                        NodeKey::Project(projects@[i as int].root@),
                        seq![PROJECT_DEPENDED_ON_BY],
                    ));
                }
                j = j + 1;
            }
            i = i + 1;
        }
        proof {
            assert(projects@.take(projects.len() as int) =~= projects@);
        }
        Ok(())
    }

    /// Adds a node per task, each under its project.
    fn seed_tasks(&mut self, projects: &Vec<ProjectInfo>, tasks: &Vec<TaskInfo>) -> (r: Result<
        (),
        GraphError,
    >)
        requires
            old(self).wf_nodes(),
            old(self).edges_sound(projects@, Seq::empty()),
            old(self).keys() == seq![NodeKey::Root] + project_keys(projects@),
            forall|i: int, j: int|
                0 <= j < i < tasks.len() ==> tasks@[i].ref_view() != tasks@[j].ref_view(),
            forall|i: int|
                0 <= i < tasks.len() ==> declares_project(projects@, #[trigger] tasks@[i].project@),
        ensures
            r is Ok ==> {
                &&& final(self).wf_nodes()
                &&& final(self).edges().len() == old(self).edges().len() + tasks.len()
                &&& final(self).keys() == old(self).keys() + task_keys(tasks@)
                &&& final(self).edges_sound(projects@, Seq::empty())
                &&& forall|a: NodeKey, b: NodeKey, kinds: Seq<u8>|
                    #[trigger] old(self).key_edge(a, b, kinds) ==> final(self).key_edge(a, b, kinds)
                &&& forall|i: int|
                    0 <= i < tasks.len() ==> final(self).key_edge(
                        NodeKey::Project(tasks@[i].project@),
                        NodeKey::Task(#[trigger] tasks@[i].ref_view()),
                        seq![HAS_TASK],
                    )
            },
            r matches Err(e) ==> e is TooLarge && (1 + projects.len() + tasks.len() >= 0xffff_fffe
                || old(self).edges().len() + tasks.len() >= 0xffff_fffe),
    {
        let ghost start = *self;
        let mut i: usize = 0;
        while i < tasks.len()
            invariant
                i <= tasks.len(),
                self.wf_nodes(),
                self.keys().len() == 1 + projects.len() + i,
                self.edges().len() == start.edges().len() + i,
                start == *old(self),
                self.keys() == start.keys() + task_keys(tasks@.take(i as int)),
                start.keys() == seq![NodeKey::Root] + project_keys(projects@),
                self.edges_sound(projects@, Seq::empty()),
                forall|a: NodeKey, b: NodeKey, kinds: Seq<u8>|
                    #[trigger] start.key_edge(a, b, kinds) ==> self.key_edge(a, b, kinds),
                forall|i: int, j: int|
                    0 <= j < i < tasks.len() ==> tasks@[i].ref_view() != tasks@[j].ref_view(),
                forall|i: int|
                    0 <= i < tasks.len() ==> declares_project(projects@, #[trigger] tasks@[i].project@),
                forall|x: int|
                    0 <= x < i ==> self.key_edge(
                        NodeKey::Project(tasks@[x].project@),
                        NodeKey::Task(#[trigger] tasks@[x].ref_view()),
                        seq![HAS_TASK],
                    ),
            decreases tasks.len() - i,
        {
            let ghost before = *self;
            let owner = WorkspaceNode::Project(tasks[i].project.duplicate());
            proof {
                assert(declares_project(projects@, tasks@[i as int].project@));
                let k = choose|k: int| 0 <= k < projects.len() && #[trigger] projects@[k].root@
                    == tasks@[i as int].project@;
                assert(self.keys()[k + 1] == project_keys(projects@)[k]);
            }
            let p = match self.find_key(&owner) {
                Some(p) => p,
                None => {
                    proof {
                        assert(false);
                    }
                    return Err(GraphError::TooLarge);
                },
            };
            let tr = tasks[i].task_ref();
            proof {
                if self.has_key(NodeKey::Task(tr@)) {
                    let k = choose|k: int| 0 <= k < self.keys().len() && self.keys()[k] == NodeKey::Task(tr@);
                    if k >= start.keys().len() {
                        assert(task_keys(tasks@.take(i as int))[k - start.keys().len()] == NodeKey::Task(tr@));
                    } else if k > 0 {
                        assert(project_keys(projects@)[k - 1] == NodeKey::Task(tr@));
                    }
                }
            }
            let n = push_node_result(self.push_node(WorkspaceNode::Task(tr)))?;
            push_edge_result(self.push_edge(p, n, HAS_TASK))?;
            proof {
                assert(task_keys(tasks@.take(i as int + 1)) =~= task_keys(tasks@.take(i as int)).push(
                    NodeKey::Task(tasks@[i as int].ref_view()),
                ));
                assert(self.keys() =~= start.keys() + task_keys(tasks@.take(i as int + 1)));
                let n0 = before.edges().len() as int;
                assert(self.edges().take(n0) =~= before.edges());
                assert(self.keys().take(before.keys().len() as int) =~= before.keys());
                assert(self.keys()[p as int] == before.keys()[p as int]);
                assert(self.edges()[n0] == (p, n, HAS_TASK));
                assert(self.edge_sound(self.edges()[n0], projects@, Seq::empty()));
                WorkspaceGraph::lemma_sound_grows(&before, self, projects@, Seq::empty());
                WorkspaceGraph::lemma_grows(&before, self);
                lemma_single_kind(HAS_TASK);
                assert(is_edge(self.edges(), seq![HAS_TASK], p, n));
                assert(self.key_edge(
                    NodeKey::Project(tasks@[i as int].project@),
                    NodeKey::Task(tasks@[i as int].ref_view()),
                    seq![HAS_TASK],
                ));
            }
            i = i + 1;
        }
        proof {
            assert(tasks@.take(tasks.len() as int) =~= tasks@);
        }
        Ok(())
    }

    /// Adds the projects and tasks of a workspace to an empty graph: a node
    /// each, project dependency edges both ways, and each task under its
    /// project. Repeated roots or tasks, unknown projects, and cycles among
    /// project dependencies are refused.
    pub fn add_projects(&mut self, projects: &Vec<ProjectInfo>, tasks: &Vec<TaskInfo>) -> (r:
        Result<(), GraphError>)
        requires
            old(self).wf(),
            old(self).keys() == seq![NodeKey::Root],
            old(self).edges().len() == 0,
        ensures
            r is Ok ==> final(self).wf(),
            (r is Ok || is_cycle_error(r)) ==> {
                &&& final(self).holds_declarations(projects@, tasks@)
                &&& final(self).edges_sound(projects@, Seq::empty())
            },
            r matches Err(e) ==> match e {
                GraphError::DuplicateProject(p) => repeats_project(projects@, p@),
                GraphError::UnknownProject(p) => mentions_project(projects@, tasks@, p@)
                    && !declares_project(projects@, p@),
                GraphError::DuplicateTask(t) => repeats_task(tasks@, t@),
                GraphError::ProjectCycle => has_cycle(final(self).edges(), seq![PROJECT_DEPENDS_ON]),
                GraphError::TaskCycle => has_cycle(final(self).edges(), order_kinds()),
                GraphError::TooLarge => 1 + projects.len() + tasks.len() >= 0xffff_fffe || projects.len()
                    + 2 * dep_total(projects@) + tasks.len() >= 0xffff_fffe,
                _ => false,
            },
    {
        check_declarations(projects, tasks)?;
        self.seed_projects(projects)?;
        let ghost g1 = *self;
        self.link_projects(projects)?;
        let ghost g2 = *self;
        self.seed_tasks(projects, tasks)?;
        let ghost g3 = *self;
        let r = self.settle();
        proof {
            assert(g3.keys() =~= seq![NodeKey::Root] + project_keys(projects@) + task_keys(tasks@));
            assert forall|a: NodeKey, b: NodeKey, kinds: Seq<u8>|
                #[trigger] g3.key_edge(a, b, kinds) implies self.key_edge(a, b, kinds) by {
                assert(self.keys() == g3.keys());
                assert(self.edges() == g3.edges());
            }
            assert forall|p: Seq<Seq<char>>|
                #[trigger] declares_project(projects@, p) implies self.key_edge(
                    NodeKey::Root,
                    NodeKey::Project(p),
                    seq![HAS_PROJECT],
                ) by {
                assert(g1.key_edge(NodeKey::Root, NodeKey::Project(p), seq![HAS_PROJECT]));
                assert(g2.key_edge(NodeKey::Root, NodeKey::Project(p), seq![HAS_PROJECT]));
                assert(g3.key_edge(NodeKey::Root, NodeKey::Project(p), seq![HAS_PROJECT]));
            }
            assert forall|a: Seq<Seq<char>>, b: Seq<Seq<char>>|
                #[trigger] declares_dependency(projects@, a, b) implies self.key_edge(
                    NodeKey::Project(a),
                    NodeKey::Project(b),
                    seq![PROJECT_DEPENDS_ON],
                ) && self.key_edge(
                    NodeKey::Project(b),
                    NodeKey::Project(a),
                    seq![PROJECT_DEPENDED_ON_BY],
                ) by {
                assert(g2.key_edge(NodeKey::Project(a), NodeKey::Project(b), seq![PROJECT_DEPENDS_ON]));
                assert(g3.key_edge(NodeKey::Project(a), NodeKey::Project(b), seq![PROJECT_DEPENDS_ON]));
                assert(g2.key_edge(NodeKey::Project(b), NodeKey::Project(a), seq![PROJECT_DEPENDED_ON_BY]));
                assert(g3.key_edge(NodeKey::Project(b), NodeKey::Project(a), seq![PROJECT_DEPENDED_ON_BY]));
            }
            assert forall|i: int| 0 <= i < tasks.len() implies self.key_edge(
                NodeKey::Project(tasks@[i].project@),
                NodeKey::Task(#[trigger] tasks@[i].ref_view()),
                seq![HAS_TASK],
            ) by {
                assert(g3.key_edge(
                    NodeKey::Project(tasks@[i].project@),
                    NodeKey::Task(tasks@[i].ref_view()),
                    seq![HAS_TASK],
                ));
            }
            assert forall|k: int| 0 <= k < self.edges().len() implies #[trigger] self.edge_sound(
                self.edges()[k],
                projects@,
                Seq::empty(),
            ) by {
                assert(g3.edge_sound(g3.edges()[k], projects@, Seq::empty()));
            }
        }
        r
    }

    /// No edge between tasks yet.
    pub closed spec fn unlinked(&self) -> bool {
        forall|k: int|
            0 <= k < self.edges().len() ==> (#[trigger] self.edges()[k]).2 != TASK_DEPENDS_ON
                && self.edges()[k].2 != TASK_DEPENDED_ON_BY
    }

    /// Adds both edges for each resolved requirement between distinct tasks,
    /// then refuses the graph if the task order has a cycle.
    pub fn link_tasks(&mut self, reqs: &Vec<(TaskRef, Vec<TaskRef>)>) -> (r: Result<(), GraphError>)
        requires
            old(self).wf(),
            old(self).unlinked(),
        ensures
            final(self).keys() == old(self).keys(),
            r is Ok ==> final(self).wf(),
            old(self).edges().len() <= final(self).edges().len(),
            final(self).edges().take(old(self).edges().len() as int) == old(self).edges(),
            forall|k: int|
                old(self).edges().len() <= k < final(self).edges().len() ==> (#[trigger] final(self).edges()[k]).2
                    == TASK_DEPENDS_ON || final(self).edges()[k].2 == TASK_DEPENDED_ON_BY,
            (r is Ok || is_cycle_error(r)) ==> {
                &&& forall|a: NodeKey, b: NodeKey, kinds: Seq<u8>|
                    #[trigger] old(self).key_edge(a, b, kinds) ==> final(self).key_edge(a, b, kinds)
                &&& forall|k: int|
                    old(self).edges().len() <= k < final(self).edges().len() ==> {
                        &&& (#[trigger] final(self).edges()[k]).2 == TASK_DEPENDS_ON
                            || final(self).edges()[k].2 == TASK_DEPENDED_ON_BY
                        &&& final(self).edge_sound(final(self).edges()[k], Seq::empty(), reqs@)
                    }
                &&& forall|a: (Seq<Seq<char>>, Seq<char>), b: (Seq<Seq<char>>, Seq<char>)|
                    #[trigger] declares_requirement(reqs@, a, b) && a != b ==> final(self).depends_on(a, b)
                        && final(self).key_edge(
                        NodeKey::Task(b),
                        NodeKey::Task(a),
                        seq![TASK_DEPENDED_ON_BY],
                    )
            },
            r matches Err(e) ==> match e {
                GraphError::UnknownTask(t) => mentions_task(reqs@, t@) && !old(self).has_key(
                    NodeKey::Task(t@),
                ),
                GraphError::ProjectCycle => has_cycle(final(self).edges(), seq![PROJECT_DEPENDS_ON]),
                GraphError::TaskCycle => has_cycle(final(self).edges(), order_kinds()),
                GraphError::TooLarge => old(self).edges().len() + 2 * req_total(reqs@) >= 0xffff_fffe,
                _ => false,
            },
    {
        let ghost start = *self;
        proof {
            assert(reqs@.take(0) =~= Seq::<(TaskRef, Vec<TaskRef>)>::empty());
        }
        let mut i: usize = 0;
        while i < reqs.len()
            invariant
                i <= reqs.len(),
                self.wf_nodes(),
                start == *old(self),
                self.keys() == start.keys(),
                self.edges().len() <= start.edges().len() + 2 * req_total(reqs@.take(i as int)),
                start.edges().len() <= self.edges().len(),
                self.edges().take(start.edges().len() as int) == start.edges(),
                forall|k: int|
                    start.edges().len() <= k < self.edges().len() ==> {
                        &&& (#[trigger] self.edges()[k]).2 == TASK_DEPENDS_ON || self.edges()[k].2
                            == TASK_DEPENDED_ON_BY
                        &&& self.edge_sound(self.edges()[k], Seq::empty(), reqs@)
                    },
                forall|x: int, y: int|
                    0 <= x < i && 0 <= y < reqs@[x].1@.len() && reqs@[x].0@ != reqs@[x].1@[y]@
                        ==> self.depends_on(reqs@[x].0@, #[trigger] reqs@[x].1@[y]@)
                        && self.key_edge(
                        NodeKey::Task(reqs@[x].1@[y]@),
                        NodeKey::Task(reqs@[x].0@),
                        seq![TASK_DEPENDED_ON_BY],
                    ),
            decreases reqs.len() - i,
        {
            let owner = WorkspaceNode::Task(reqs[i].0.duplicate());
            let a = match self.find_key(&owner) {
                Some(a) => a,
                None => {
                    return Err(GraphError::UnknownTask(reqs[i].0.duplicate()));
                },
            };
            let deps = &reqs[i].1;
            let mut j: usize = 0;
            proof {
                lemma_req_total_step(reqs@, i as int);
            }
            while j < deps.len()
                invariant
                    i < reqs.len(),
                    req_total(reqs@.take(i as int + 1)) == req_total(reqs@.take(i as int)) + deps@.len(),
                    req_total(reqs@.take(i as int + 1)) <= req_total(reqs@),
                    self.edges().len() <= start.edges().len() + 2 * (req_total(reqs@.take(i as int)) + j),
                    deps == reqs@[i as int].1,
                    j <= deps.len(),
                    (a as int) < self.keys().len(),
                    self.keys()[a as int] == NodeKey::Task(reqs@[i as int].0@),
                    self.wf_nodes(),
                    start == *old(self),
                    self.keys() == start.keys(),
                    start.edges().len() <= self.edges().len(),
                    self.edges().take(start.edges().len() as int) == start.edges(),
                    forall|k: int|
                        start.edges().len() <= k < self.edges().len() ==> {
                            &&& (#[trigger] self.edges()[k]).2 == TASK_DEPENDS_ON || self.edges()[k].2
                                == TASK_DEPENDED_ON_BY
                            &&& self.edge_sound(self.edges()[k], Seq::empty(), reqs@)
                        },
                    forall|x: int, y: int|
                        ((0 <= x < i && 0 <= y < reqs@[x].1@.len()) || (x == i && 0 <= y < j))
                            && reqs@[x].0@ != reqs@[x].1@[y]@ ==> self.depends_on(
                            reqs@[x].0@,
                            #[trigger] reqs@[x].1@[y]@,
                        ) && self.key_edge(
                            NodeKey::Task(reqs@[x].1@[y]@),
                            NodeKey::Task(reqs@[x].0@),
                            seq![TASK_DEPENDED_ON_BY],
                        ),
                decreases deps.len() - j,
            {
                let target = WorkspaceNode::Task(deps[j].duplicate());
                let b = match self.find_key(&target) {
                    Some(b) => b,
                    None => {
                        return Err(GraphError::UnknownTask(deps[j].duplicate()));
                    },
                };
                if a != b {
                    let ghost before = *self;
                    proof {
                        assert(declares_requirement(
                            reqs@,
                            reqs@[i as int].0@,
                            reqs@[i as int].1@[j as int]@,
                        ));
                        assert(self.keys()[b as int] == NodeKey::Task(deps@[j as int]@));
                        assert(reqs@[i as int].0@ != reqs@[i as int].1@[j as int]@);
                    }
                    push_edge_result(self.push_edge(a, b, TASK_DEPENDS_ON))?;
                    push_edge_result(self.push_edge(b, a, TASK_DEPENDED_ON_BY))?;
                    proof {
                        let n0 = before.edges().len() as int;
                        assert(self.edges().take(n0) =~= before.edges());
                        assert(self.edges().take(start.edges().len() as int) =~= start.edges()) by {
                            assert(before.edges().take(start.edges().len() as int) == start.edges());
                        }
                        assert(self.edges()[n0] == (a, b, TASK_DEPENDS_ON));
                        assert(self.edges()[n0 + 1] == (b, a, TASK_DEPENDED_ON_BY));
                        assert forall|k: int|
                            start.edges().len() <= k < self.edges().len() implies {
                            &&& (#[trigger] self.edges()[k]).2 == TASK_DEPENDS_ON || self.edges()[k].2
                                == TASK_DEPENDED_ON_BY
                            &&& self.edge_sound(self.edges()[k], Seq::empty(), reqs@)
                        } by {
                            if k < n0 {
                                assert(self.edges()[k] == before.edges()[k]);
                            }
                        }
                        assert(self.keys().take(before.keys().len() as int) =~= before.keys());
                        WorkspaceGraph::lemma_grows(&before, self);
                        lemma_single_kind(TASK_DEPENDS_ON);
                        lemma_single_kind(TASK_DEPENDED_ON_BY);
                        assert(is_edge(self.edges(), seq![TASK_DEPENDS_ON], a, b));
                        assert(is_edge(self.edges(), seq![TASK_DEPENDED_ON_BY], b, a));
                        assert(self.depends_on(reqs@[i as int].0@, reqs@[i as int].1@[j as int]@));
                        assert(self.key_edge(
                            NodeKey::Task(reqs@[i as int].1@[j as int]@),
                            NodeKey::Task(reqs@[i as int].0@),
                            seq![TASK_DEPENDED_ON_BY],
                        ));
                    }
                } else {
                    proof {
                        assert(self.keys()[b as int] == NodeKey::Task(deps@[j as int]@));
                    }
                }
                j = j + 1;
            }
            i = i + 1;
        }
        let ghost linked = *self;
        let r = self.settle();
        proof {
            assert forall|a: (Seq<Seq<char>>, Seq<char>), b: (Seq<Seq<char>>, Seq<char>)|
                #[trigger] declares_requirement(reqs@, a, b) && a != b implies self.depends_on(a, b)
                && self.key_edge(NodeKey::Task(b), NodeKey::Task(a), seq![TASK_DEPENDED_ON_BY]) by {
                let (x, y) = choose|x: int, y: int|
                    0 <= x < reqs.len() && 0 <= y < reqs@[x].1@.len() && #[trigger] reqs@[x].0@ == a
                        && #[trigger] reqs@[x].1@[y]@ == b;
                assert(linked.depends_on(reqs@[x].0@, reqs@[x].1@[y]@));
                assert(linked.key_edge(NodeKey::Task(b), NodeKey::Task(a), seq![TASK_DEPENDED_ON_BY]));
                assert(self.keys() == linked.keys());
                assert(self.edges() == linked.edges());
            }
            assert forall|k: int|
                start.edges().len() <= k < self.edges().len() implies {
                &&& (#[trigger] self.edges()[k]).2 == TASK_DEPENDS_ON || self.edges()[k].2
                    == TASK_DEPENDED_ON_BY
                &&& self.edge_sound(self.edges()[k], Seq::empty(), reqs@)
            } by {
                assert(linked.edge_sound(linked.edges()[k], Seq::empty(), reqs@));
            }
            assert(self.keys().take(start.keys().len() as int) =~= start.keys());
            WorkspaceGraph::lemma_grows(&start, self);
        }
        r
    }

    /// The tasks among the nodes `idxs`.
    fn collect_tasks(&self, idxs: &Vec<usize>) -> (r: Vec<TaskRef>)
        requires
            self.wf_nodes(),
            forall|k: int| 0 <= k < idxs.len() ==> (idxs@[k] as int) < self.keys().len(),
        ensures
            forall|t: (Seq<Seq<char>>, Seq<char>)|
                task_views(r@).contains(t) <==> exists|k: int|
                    0 <= k < idxs.len() && self.keys()[#[trigger] idxs@[k] as int] == NodeKey::Task(t),
    {
        let mut r: Vec<TaskRef> = Vec::new();
        let mut i: usize = 0;
        while i < idxs.len()
            invariant
                self.wf_nodes(),
                i <= idxs.len(),
                forall|k: int| 0 <= k < idxs.len() ==> (idxs@[k] as int) < self.keys().len(),
                forall|t: (Seq<Seq<char>>, Seq<char>)|
                    task_views(r@).contains(t) <==> exists|k: int|
                        0 <= k < i && self.keys()[#[trigger] idxs@[k] as int] == NodeKey::Task(t),
            decreases idxs.len() - i,
        {
            let ghost before = r@;
            match &self.nodes[idxs[i]] {
                WorkspaceNode::Task(t) => {
                    r.push(t.duplicate());
                    proof {
                        assert(task_views(r@) =~= task_views(before).push(t@));
                        assert forall|u: (Seq<Seq<char>>, Seq<char>)|
                            task_views(r@).contains(u) <==> exists|k: int|
                                0 <= k < i + 1 && self.keys()[#[trigger] idxs@[k] as int]
                                    == NodeKey::Task(u) by {
                            if task_views(r@).contains(u) && u != t@ {
                                let m = choose|m: int| 0 <= m < task_views(r@).len() && task_views(r@)[m] == u;
                                assert(task_views(before)[m] == u);
                                assert(task_views(before).contains(u));
                                let k = choose|k: int|
                                    0 <= k < i && self.keys()[#[trigger] idxs@[k] as int]
                                        == NodeKey::Task(u);
                                assert(0 <= k < i + 1 && self.keys()[idxs@[k] as int] == NodeKey::Task(u));
                            }
                            if u == t@ {
                                assert(self.keys()[idxs@[i as int] as int] == NodeKey::Task(u));
                                assert(task_views(r@)[before.len() as int] == u);
                            }
                            if exists|k: int|
                                0 <= k < i + 1 && self.keys()[#[trigger] idxs@[k] as int]
                                    == NodeKey::Task(u) {
                                if u != t@ {
                                    let k = choose|k: int|
                                        0 <= k < i + 1 && self.keys()[#[trigger] idxs@[k] as int]
                                            == NodeKey::Task(u);
                                    assert(k < i);
                                    assert(exists|k2: int|
                                        0 <= k2 < i && self.keys()[#[trigger] idxs@[k2] as int]
                                            == NodeKey::Task(u));
                                    assert(task_views(before).contains(u));
                                    let m = choose|m: int| 0 <= m < task_views(before).len() && task_views(before)[m] == u;
                                    assert(task_views(r@)[m] == u);
                                }
                            }
                        }
                    }
                },
                _ => {
                    proof {
                        assert forall|u: (Seq<Seq<char>>, Seq<char>)|
                            task_views(r@).contains(u) <==> exists|k: int|
                                0 <= k < i + 1 && self.keys()[#[trigger] idxs@[k] as int]
                                    == NodeKey::Task(u) by {
                            if exists|k: int|
                                0 <= k < i + 1 && self.keys()[#[trigger] idxs@[k] as int]
                                    == NodeKey::Task(u) {
                                let k = choose|k: int|
                                    0 <= k < i + 1 && self.keys()[#[trigger] idxs@[k] as int]
                                        == NodeKey::Task(u);
                                assert(k < i);
                            }
                        }
                    }
                },
            }
            i = i + 1;
        }
        r
    }

    /// The projects among the nodes `idxs`.
    fn collect_projects(&self, idxs: &Vec<usize>) -> (r: Vec<ProjectRef>)
        requires
            self.wf_nodes(),
            forall|k: int| 0 <= k < idxs.len() ==> (idxs@[k] as int) < self.keys().len(),
        ensures
            forall|p: Seq<Seq<char>>|
                project_views(r@).contains(p) <==> exists|k: int|
                    0 <= k < idxs.len() && self.keys()[#[trigger] idxs@[k] as int] == NodeKey::Project(p),
    {
        let mut r: Vec<ProjectRef> = Vec::new();
        let mut i: usize = 0;
        while i < idxs.len()
            invariant
                self.wf_nodes(),
                i <= idxs.len(),
                forall|k: int| 0 <= k < idxs.len() ==> (idxs@[k] as int) < self.keys().len(),
                forall|p: Seq<Seq<char>>|
                    project_views(r@).contains(p) <==> exists|k: int|
                        0 <= k < i && self.keys()[#[trigger] idxs@[k] as int] == NodeKey::Project(p),
            decreases idxs.len() - i,
        {
            let ghost before = r@;
            match &self.nodes[idxs[i]] {
                WorkspaceNode::Project(q) => {
                    r.push(q.duplicate());
                    proof {
                        assert(project_views(r@) =~= project_views(before).push(q@));
                        assert forall|u: Seq<Seq<char>>|
                            project_views(r@).contains(u) <==> exists|k: int|
                                0 <= k < i + 1 && self.keys()[#[trigger] idxs@[k] as int]
                                    == NodeKey::Project(u) by {
                            if project_views(r@).contains(u) && u != q@ {
                                let m = choose|m: int| 0 <= m < project_views(r@).len() && project_views(r@)[m] == u;
                                assert(project_views(before)[m] == u);
                                assert(project_views(before).contains(u));
                                let k = choose|k: int|
                                    0 <= k < i && self.keys()[#[trigger] idxs@[k] as int]
                                        == NodeKey::Project(u);
                                assert(0 <= k < i + 1 && self.keys()[idxs@[k] as int] == NodeKey::Project(u));
                            }
                            if u == q@ {
                                assert(self.keys()[idxs@[i as int] as int] == NodeKey::Project(u));
                                assert(project_views(r@)[before.len() as int] == u);
                            }
                            if exists|k: int|
                                0 <= k < i + 1 && self.keys()[#[trigger] idxs@[k] as int]
                                    == NodeKey::Project(u) {
                                if u != q@ {
                                    let k = choose|k: int|
                                        0 <= k < i + 1 && self.keys()[#[trigger] idxs@[k] as int]
                                            == NodeKey::Project(u);
                                    assert(k < i);
                                    assert(exists|k2: int|
                                        0 <= k2 < i && self.keys()[#[trigger] idxs@[k2] as int]
                                            == NodeKey::Project(u));
                                    assert(project_views(before).contains(u));
                                    let m = choose|m: int| 0 <= m < project_views(before).len() && project_views(before)[m] == u;
                                    assert(project_views(r@)[m] == u);
                                }
                            }
                        }
                    }
                },
                _ => {
                    proof {
                        assert forall|u: Seq<Seq<char>>|
                            project_views(r@).contains(u) <==> exists|k: int|
                                0 <= k < i + 1 && self.keys()[#[trigger] idxs@[k] as int]
                                    == NodeKey::Project(u) by {
                            if exists|k: int|
                                0 <= k < i + 1 && self.keys()[#[trigger] idxs@[k] as int]
                                    == NodeKey::Project(u) {
                                let k = choose|k: int|
                                    0 <= k < i + 1 && self.keys()[#[trigger] idxs@[k] as int]
                                        == NodeKey::Project(u);
                                assert(k < i);
                            }
                        }
                    }
                },
            }
            i = i + 1;
        }
        r
    }

    /// Nodes reached from a valid node are valid.
    proof fn lemma_reach_in_range(&self, kinds: Seq<u8>, a: usize, x: usize)
        requires
            self.wf_nodes(),
            (a as int) < self.keys().len(),
            reaches(self.edges(), kinds, a, x),
        ensures
            (x as int) < self.keys().len(),
    {
        let p = choose|p: Seq<usize>| #[trigger] is_path(self.edges(), kinds, p) && p[0] == a && p.last() == x;
        if p.len() > 1 {
            let i = p.len() - 2;
            assert(is_edge(self.edges(), kinds, p[i], p[i + 1]));
        }
    }

    /// What a reachability query over node indices says over keys.
    proof fn lemma_reach_keys(&self, kinds: Seq<u8>, a: usize, ka: NodeKey, idxs: Seq<usize>)
        requires
            self.wf_nodes(),
            (a as int) < self.keys().len(),
            self.keys()[a as int] == ka,
            forall|x: usize| idxs.contains(x) <==> reaches(self.edges(), kinds, a, x),
        ensures
            forall|k: int| 0 <= k < idxs.len() ==> (idxs[k] as int) < self.keys().len(),
            forall|kb: NodeKey|
                (exists|k: int| 0 <= k < idxs.len() && self.keys()[#[trigger] idxs[k] as int] == kb)
                    <==> self.key_reaches(ka, kb, kinds),
    {
        assert forall|k: int| 0 <= k < idxs.len() implies (idxs[k] as int) < self.keys().len() by {
            assert(idxs.contains(idxs[k]));
            self.lemma_reach_in_range(kinds, a, idxs[k]);
        }
        assert forall|kb: NodeKey|
            (exists|k: int| 0 <= k < idxs.len() && self.keys()[#[trigger] idxs[k] as int] == kb)
                <==> self.key_reaches(ka, kb, kinds) by {
            if exists|k: int| 0 <= k < idxs.len() && self.keys()[#[trigger] idxs[k] as int] == kb {
                let k = choose|k: int| 0 <= k < idxs.len() && self.keys()[#[trigger] idxs[k] as int] == kb;
                assert(idxs.contains(idxs[k]));
                assert(reaches(self.edges(), kinds, a, idxs[k]));
            }
            if self.key_reaches(ka, kb, kinds) {
                let (i, j) = choose|i: usize, j: usize|
                    (i as int) < self.keys().len() && (j as int) < self.keys().len() && self.keys()[i as int]
                        == ka && self.keys()[j as int] == kb && #[trigger] reaches(self.edges(), kinds, i, j);
                assert(i == a);
                assert(idxs.contains(j));
                let k = choose|k: int| 0 <= k < idxs.len() && idxs[k] == j;
                assert(self.keys()[idxs[k] as int] == kb);
            }
        }
    }

    /// What a neighbour query over node indices says over keys.
    proof fn lemma_edge_keys(&self, kinds: Seq<u8>, a: usize, ka: NodeKey, idxs: Seq<usize>)
        requires
            self.wf_nodes(),
            (a as int) < self.keys().len(),
            self.keys()[a as int] == ka,
            forall|x: usize| idxs.contains(x) <==> is_edge(self.edges(), kinds, a, x),
        ensures
            forall|k: int| 0 <= k < idxs.len() ==> (idxs[k] as int) < self.keys().len(),
            forall|kb: NodeKey|
                (exists|k: int| 0 <= k < idxs.len() && self.keys()[#[trigger] idxs[k] as int] == kb)
                    <==> self.key_edge(ka, kb, kinds),
    {
        assert forall|k: int| 0 <= k < idxs.len() implies (idxs[k] as int) < self.keys().len() by {
            assert(idxs.contains(idxs[k]));
            assert(is_edge(self.edges(), kinds, a, idxs[k]));
        }
        assert forall|kb: NodeKey|
            (exists|k: int| 0 <= k < idxs.len() && self.keys()[#[trigger] idxs[k] as int] == kb)
                <==> self.key_edge(ka, kb, kinds) by {
            if exists|k: int| 0 <= k < idxs.len() && self.keys()[#[trigger] idxs[k] as int] == kb {
                let k = choose|k: int| 0 <= k < idxs.len() && self.keys()[#[trigger] idxs[k] as int] == kb;
                assert(idxs.contains(idxs[k]));
                assert(is_edge(self.edges(), kinds, a, idxs[k]));
            }
            if self.key_edge(ka, kb, kinds) {
                let (i, j) = choose|i: usize, j: usize|
                    (i as int) < self.keys().len() && (j as int) < self.keys().len() && self.keys()[i as int]
                        == ka && self.keys()[j as int] == kb && #[trigger] is_edge(self.edges(), kinds, i, j);
                assert(i == a);
                assert(idxs.contains(j));
                let k = choose|k: int| 0 <= k < idxs.len() && idxs[k] == j;
                assert(self.keys()[idxs[k] as int] == kb);
            }
        }
    }

    fn task_node(&self, t: &TaskRef) -> (r: usize)
        requires
            self.wf_nodes(),
            self.has_key(NodeKey::Task(t@)),
        ensures
            (r as int) < self.keys().len(),
            self.keys()[r as int] == NodeKey::Task(t@),
    {
        match self.find_key(&WorkspaceNode::Task(t.duplicate())) {
            Some(i) => i,
            None => {
                proof {
                    assert(false);
                }
                0
            },
        }
    }

    fn project_node(&self, p: &ProjectRef) -> (r: usize)
        requires
            self.wf_nodes(),
            self.has_key(NodeKey::Project(p@)),
        ensures
            (r as int) < self.keys().len(),
            self.keys()[r as int] == NodeKey::Project(p@),
    {
        match self.find_key(&WorkspaceNode::Project(p.duplicate())) {
            Some(i) => i,
            None => {
                proof {
                    assert(false);
                }
                0
            },
        }
    }

    /// The task itself and every task it depends on, directly or not.
    pub fn walk_task_dependencies(&self, task: &TaskRef) -> (r: Vec<TaskRef>)
        requires
            self.wf(),
            self.has_key(NodeKey::Task(task@)),
        ensures
            forall|t: (Seq<Seq<char>>, Seq<char>)|
                task_views(r@).contains(t) <==> self.task_reaches(task@, t),
    {
        let a = self.task_node(task);
        let kinds = kinds_of(TASK_DEPENDS_ON);
        let idxs = graph_reachable(&self.graph, a, &kinds);
        proof {
            self.lemma_reach_keys(kinds@, a, NodeKey::Task(task@), idxs@);
        }
        let r = self.collect_tasks(&idxs);
        proof {
            assert forall|t: (Seq<Seq<char>>, Seq<char>)|
                task_views(r@).contains(t) <==> self.task_reaches(task@, t) by {
                if task_views(r@).contains(t) {
                    let k = choose|k: int| 0 <= k < idxs.len() && self.keys()[#[trigger] idxs@[k] as int] == NodeKey::Task(t);
                }
                if self.task_reaches(task@, t) {
                    let k = choose|k: int| 0 <= k < idxs@.len() && self.keys()[#[trigger] idxs@[k] as int] == NodeKey::Task(t);
                }
            }
        }
        r
    }

    /// The tasks the task depends on directly.
    pub fn direct_task_dependencies(&self, task: &TaskRef) -> (r: Vec<TaskRef>)
        requires
            self.wf(),
            self.has_key(NodeKey::Task(task@)),
        ensures
            forall|t: (Seq<Seq<char>>, Seq<char>)|
                task_views(r@).contains(t) <==> self.depends_on(task@, t),
    {
        let a = self.task_node(task);
        let kinds = kinds_of(TASK_DEPENDS_ON);
        let idxs = graph_neighbors(&self.graph, a, &kinds);
        proof {
            self.lemma_edge_keys(kinds@, a, NodeKey::Task(task@), idxs@);
        }
        let r = self.collect_tasks(&idxs);
        proof {
            assert forall|t: (Seq<Seq<char>>, Seq<char>)|
                task_views(r@).contains(t) <==> self.depends_on(task@, t) by {
                if task_views(r@).contains(t) {
                    let k = choose|k: int| 0 <= k < idxs.len() && self.keys()[#[trigger] idxs@[k] as int] == NodeKey::Task(t);
                }
                if self.depends_on(task@, t) {
                    let k = choose|k: int| 0 <= k < idxs@.len() && self.keys()[#[trigger] idxs@[k] as int] == NodeKey::Task(t);
                }
            }
        }
        r
    }

    /// The tasks of a project.
    pub fn project_tasks(&self, project: &ProjectRef) -> (r: Vec<TaskRef>)
        requires
            self.wf(),
            self.has_key(NodeKey::Project(project@)),
        ensures
            forall|t: (Seq<Seq<char>>, Seq<char>)|
                task_views(r@).contains(t) <==> self.key_edge(
                    NodeKey::Project(project@),
                    NodeKey::Task(t),
                    seq![HAS_TASK],
                ),
    {
        let a = self.project_node(project);
        let kinds = kinds_of(HAS_TASK);
        let idxs = graph_neighbors(&self.graph, a, &kinds);
        proof {
            self.lemma_edge_keys(kinds@, a, NodeKey::Project(project@), idxs@);
        }
        let r = self.collect_tasks(&idxs);
        proof {
            assert forall|t: (Seq<Seq<char>>, Seq<char>)|
                task_views(r@).contains(t) <==> self.key_edge(
                    NodeKey::Project(project@),
                    NodeKey::Task(t),
                    seq![HAS_TASK],
                ) by {
                if task_views(r@).contains(t) {
                    let k = choose|k: int| 0 <= k < idxs.len() && self.keys()[#[trigger] idxs@[k] as int] == NodeKey::Task(t);
                }
                if self.key_edge(NodeKey::Project(project@), NodeKey::Task(t), seq![HAS_TASK]) {
                    let k = choose|k: int| 0 <= k < idxs@.len() && self.keys()[#[trigger] idxs@[k] as int] == NodeKey::Task(t);
                }
            }
        }
        r
    }

    /// The project itself and every project that depends on it, directly or not.
    pub fn walk_project_dependents(&self, project: &ProjectRef) -> (r: Vec<ProjectRef>)
        requires
            self.wf(),
            self.has_key(NodeKey::Project(project@)),
        ensures
            forall|p: Seq<Seq<char>>|
                project_views(r@).contains(p) <==> self.key_reaches(
                    NodeKey::Project(project@),
                    NodeKey::Project(p),
                    seq![PROJECT_DEPENDED_ON_BY],
                ),
    {
        self.project_walk(project, PROJECT_DEPENDED_ON_BY)
    }

    /// The project itself and every project it depends on, directly or not.
    pub fn project_dependencies(&self, project: &ProjectRef) -> (r: Vec<ProjectRef>)
        requires
            self.wf(),
            self.has_key(NodeKey::Project(project@)),
        ensures
            forall|p: Seq<Seq<char>>|
                project_views(r@).contains(p) <==> self.key_reaches(
                    NodeKey::Project(project@),
                    NodeKey::Project(p),
                    seq![PROJECT_DEPENDS_ON],
                ),
    {
        self.project_walk(project, PROJECT_DEPENDS_ON)
    }

    fn project_walk(&self, project: &ProjectRef, kind: u8) -> (r: Vec<ProjectRef>)
        requires
            self.wf(),
            self.has_key(NodeKey::Project(project@)),
        ensures
            forall|p: Seq<Seq<char>>|
                project_views(r@).contains(p) <==> self.key_reaches(
                    NodeKey::Project(project@),
                    NodeKey::Project(p),
                    seq![kind],
                ),
    {
        let a = self.project_node(project);
        let kinds = kinds_of(kind);
        let idxs = graph_reachable(&self.graph, a, &kinds);
        proof {
            self.lemma_reach_keys(kinds@, a, NodeKey::Project(project@), idxs@);
        }
        let r = self.collect_projects(&idxs);
        proof {
            assert forall|p: Seq<Seq<char>>|
                project_views(r@).contains(p) <==> self.key_reaches(
                    NodeKey::Project(project@),
                    NodeKey::Project(p),
                    seq![kind],
                ) by {
                if project_views(r@).contains(p) {
                    let k = choose|k: int| 0 <= k < idxs.len() && self.keys()[#[trigger] idxs@[k] as int] == NodeKey::Project(p);
                }
                if self.key_reaches(NodeKey::Project(project@), NodeKey::Project(p), seq![kind]) {
                    let k = choose|k: int| 0 <= k < idxs@.len() && self.keys()[#[trigger] idxs@[k] as int] == NodeKey::Project(p);
                }
            }
        }
        r
    }

    /// The projects a project depends on directly.
    pub fn direct_project_dependencies(&self, project: &ProjectRef) -> (r: Vec<ProjectRef>)
        requires
            self.wf(),
            self.has_key(NodeKey::Project(project@)),
        ensures
            forall|p: Seq<Seq<char>>|
                project_views(r@).contains(p) <==> self.key_edge(
                    NodeKey::Project(project@),
                    NodeKey::Project(p),
                    seq![PROJECT_DEPENDS_ON],
                ),
    {
        let a = self.project_node(project);
        let kinds = kinds_of(PROJECT_DEPENDS_ON);
        let idxs = graph_neighbors(&self.graph, a, &kinds);
        proof {
            self.lemma_edge_keys(kinds@, a, NodeKey::Project(project@), idxs@);
        }
        let r = self.collect_projects(&idxs);
        proof {
            assert forall|p: Seq<Seq<char>>|
                project_views(r@).contains(p) <==> self.key_edge(
                    NodeKey::Project(project@),
                    NodeKey::Project(p),
                    seq![PROJECT_DEPENDS_ON],
                ) by {
                if project_views(r@).contains(p) {
                    let k = choose|k: int| 0 <= k < idxs.len() && self.keys()[#[trigger] idxs@[k] as int] == NodeKey::Project(p);
                }
                if self.key_edge(NodeKey::Project(project@), NodeKey::Project(p), seq![PROJECT_DEPENDS_ON]) {
                    let k = choose|k: int| 0 <= k < idxs@.len() && self.keys()[#[trigger] idxs@[k] as int] == NodeKey::Project(p);
                }
            }
        }
        r
    }

    /// Whether `to` is `from` or one of its dependencies, directly or not.
    pub fn has_project_dependency(&self, from: &ProjectRef, to: &ProjectRef) -> (r: bool)
        requires
            self.wf(),
            self.has_key(NodeKey::Project(from@)),
            self.has_key(NodeKey::Project(to@)),
        ensures
            r == self.key_reaches(
                NodeKey::Project(from@),
                NodeKey::Project(to@),
                seq![PROJECT_DEPENDS_ON],
            ),
    {
        let a = self.project_node(from);
        let b = self.project_node(to);
        let kinds = kinds_of(PROJECT_DEPENDS_ON);
        let r = graph_has_path(&self.graph, a, b, &kinds);
        proof {
            if self.key_reaches(NodeKey::Project(from@), NodeKey::Project(to@), seq![PROJECT_DEPENDS_ON]) {
                let (i, j) = choose|i: usize, j: usize|
                    (i as int) < self.keys().len() && (j as int) < self.keys().len() && self.keys()[i as int]
                        == NodeKey::Project(from@) && self.keys()[j as int] == NodeKey::Project(to@)
                        && #[trigger] reaches(self.edges(), seq![PROJECT_DEPENDS_ON], i, j);
                assert(i == a && j == b);
            }
        }
        r
    }

    /// Every task once, each after the tasks it depends on directly.
    pub fn topsort_tasks(&self) -> (r: Vec<TaskRef>)
        requires
            self.wf(),
        ensures
            forall|t: (Seq<Seq<char>>, Seq<char>)|
                task_views(r@).contains(t) <==> self.has_key(NodeKey::Task(t)),
            task_views(r@).no_duplicates(),
            forall|a: int, b: int|
                0 <= a < r.len() && 0 <= b < r.len() && self.depends_on(r@[b]@, r@[a]@) ==> a < b,
            task_views(r@) == tasks_reversed(self.keys(), toposort_of(self.raw(), order_kinds())),
    {
        let kinds = order_kind_list();
        let order = match graph_toposort(&self.graph, &kinds) {
            Ok(o) => o,
            Err(_) => {
                proof {
                    lemma_topological_acyclic(
                        self.edges(),
                        order_kinds(),
                        self.nodes@.len() as nat,
                        self.order@,
                    );
                }
                return Vec::new();
            },
        };
        let n = order.len();
        let mut r: Vec<TaskRef> = Vec::new();
        let ghost mut src: Seq<int> = Seq::empty();
        proof {
            assert(order@.skip(n as int) =~= Seq::<usize>::empty());
            assert(task_views(r@) =~= Seq::<(Seq<Seq<char>>, Seq<char>)>::empty());
        }
        let mut k: usize = n;
        while k > 0
            invariant
                self.wf(),
                n == order.len(),
                is_topological(self.edges(), order_kinds(), self.nodes@.len() as nat, order@),
                k <= n,
                src.len() == r.len(),
                forall|m: int| 0 <= m < src.len() ==> k <= #[trigger] src[m] < n,
                forall|m1: int, m2: int| 0 <= m1 < m2 < src.len() ==> src[m1] > src[m2],
                forall|m: int|
                    0 <= m < src.len() ==> self.keys()[order@[#[trigger] src[m]] as int]
                        == NodeKey::Task(r@[m]@),
                forall|q: int, t: (Seq<Seq<char>>, Seq<char>)|
                    k <= q < n && self.keys()[order@[q] as int] == NodeKey::Task(t) ==> exists|m: int|
                        0 <= m < src.len() && #[trigger] src[m] == q,
                task_views(r@) == tasks_reversed(self.keys(), order@.skip(k as int)),
            decreases k,
        {
            k = k - 1;
            proof {
                assert(order@.skip(k as int).drop_first() =~= order@.skip(k as int + 1));
                assert(order@.skip(k as int)[0] == order@[k as int]);
            }
            let ghost rv = task_views(r@);
            let idx = order[k];
            match &self.nodes[idx] {
                WorkspaceNode::Task(t) => {
                    let ghost before = src;
                    r.push(t.duplicate());
                    proof {
                        assert(task_views(r@) =~= rv.push(t@));
                        assert(self.keys()[idx as int] == NodeKey::Task(t@));
                        src = src.push(k as int);
                        assert forall|q: int, u: (Seq<Seq<char>>, Seq<char>)|
                            k <= q < n && self.keys()[order@[q] as int] == NodeKey::Task(u) implies exists|m: int|
                                0 <= m < src.len() && #[trigger] src[m] == q by {
                            if q == k {
                                assert(src[src.len() - 1] == q);
                            } else {
                                let m = choose|m: int| 0 <= m < before.len() && #[trigger] before[m] == q;
                                assert(src[m] == q);
                            }
                        }
                    }
                },
                _ => {
                    proof {
                        assert forall|q: int, u: (Seq<Seq<char>>, Seq<char>)|
                            k <= q < n && self.keys()[order@[q] as int] == NodeKey::Task(u) implies exists|m: int|
                                0 <= m < src.len() && #[trigger] src[m] == q by {
                            assert(q != k);
                        }
                    }
                },
            }
        }
        proof {
            assert(order@.skip(0) =~= order@);
            assert forall|t: (Seq<Seq<char>>, Seq<char>)|
                task_views(r@).contains(t) <==> self.has_key(NodeKey::Task(t)) by {
                if task_views(r@).contains(t) {
                    let m = choose|m: int| 0 <= m < task_views(r@).len() && task_views(r@)[m] == t;
                    assert(self.keys()[order@[src[m]] as int] == NodeKey::Task(t));
                }
                if self.has_key(NodeKey::Task(t)) {
                    let j = choose|j: int| 0 <= j < self.keys().len() && self.keys()[j] == NodeKey::Task(t);
                    assert(order@.contains(j as usize));
                    let q = choose|q: int| 0 <= q < order@.len() && order@[q] == j as usize;
                    let m = choose|m: int| 0 <= m < src.len() && #[trigger] src[m] == q;
                    assert(task_views(r@)[m] == t);
                }
            }
            assert forall|m1: int, m2: int|
                0 <= m1 < task_views(r@).len() && 0 <= m2 < task_views(r@).len() && m1 != m2
                    implies task_views(r@)[m1] != task_views(r@)[m2] by {
                assert(src[m1] != src[m2]);
                assert(order@[src[m1]] != order@[src[m2]]);
            }
            assert forall|a: int, b: int|
                0 <= a < r.len() && 0 <= b < r.len() && self.depends_on(r@[b]@, r@[a]@) implies a < b by {
                let (i, j) = choose|i: usize, j: usize|
                    (i as int) < self.keys().len() && (j as int) < self.keys().len() && self.keys()[i as int]
                        == NodeKey::Task(r@[b]@) && self.keys()[j as int] == NodeKey::Task(r@[a]@)
                        && #[trigger] is_edge(self.edges(), seq![TASK_DEPENDS_ON], i, j);
                assert(order@[src[b]] == i);
                assert(order@[src[a]] == j);
                let e = choose|e: int|
                    0 <= e < self.edges().len() && (#[trigger] self.edges()[e]).0 == i
                        && self.edges()[e].1 == j && seq![TASK_DEPENDS_ON].contains(self.edges()[e].2);
                assert(seq![TASK_DEPENDS_ON][0] == self.edges()[e].2);
                assert(order_kinds()[2] == TASK_DEPENDS_ON);
                assert(is_edge(self.edges(), order_kinds(), order@[src[b]], order@[src[a]]));
                assert(src[b] < src[a]);
            }
        }
        r
    }

    /// A task walk between distinct tasks rises in the recorded order.
    proof fn lemma_task_walks_rise(&self, a: (Seq<Seq<char>>, Seq<char>), b: (Seq<Seq<char>>, Seq<char>))
        requires
            self.wf(),
            a != b,
            self.task_reaches(a, b),
        ensures
            exists|i: usize, j: usize|
                (i as int) < self.keys().len() && (j as int) < self.keys().len() && self.keys()[i as int]
                    == NodeKey::Task(a) && self.keys()[j as int] == NodeKey::Task(b) && position(
                    self.order@,
                    i,
                ) < position(self.order@, j),
            forall|i: usize, j: usize|
                (i as int) < self.keys().len() && (j as int) < self.keys().len() && self.keys()[i as int]
                    == NodeKey::Task(a) && self.keys()[j as int] == NodeKey::Task(b) ==> position(
                    self.order@,
                    i,
                ) < position(self.order@, j),
    {
        let (i, j) = choose|i: usize, j: usize|
            (i as int) < self.keys().len() && (j as int) < self.keys().len() && self.keys()[i as int]
                == NodeKey::Task(a) && self.keys()[j as int] == NodeKey::Task(b) && #[trigger] reaches(
                self.edges(),
                seq![TASK_DEPENDS_ON],
                i,
                j,
            );
        let p = choose|p: Seq<usize>|
            #[trigger] is_path(self.edges(), seq![TASK_DEPENDS_ON], p) && p[0] == i && p.last() == j;
        assert(i != j);
        assert forall|c: u8| seq![TASK_DEPENDS_ON].contains(c) implies order_kinds().contains(c) by {
            assert(seq![TASK_DEPENDS_ON][0] == c);
            assert(order_kinds()[2] == TASK_DEPENDS_ON);
        }
        lemma_path_rises(
            self.edges(),
            seq![TASK_DEPENDS_ON],
            order_kinds(),
            self.nodes@.len() as nat,
            self.order@,
            p,
            p.len() - 1,
        );
    }

    /// Whether the graph holds the task `t`.
    pub fn has_task(&self, t: &TaskRef) -> (r: bool)
        requires
            self.wf(),
        ensures
            r == self.has_key(NodeKey::Task(t@)),
    {
        self.find_key(&WorkspaceNode::Task(t.duplicate())).is_some()
    }

    /// Whether the graph holds the project `p`.
    pub fn has_project(&self, p: &ProjectRef) -> (r: bool)
        requires
            self.wf(),
        ensures
            r == self.has_key(NodeKey::Project(p@)),
    {
        self.find_key(&WorkspaceNode::Project(p.duplicate())).is_some()
    }

    /// What the declarations put in the graph can be found there.
    pub proof fn lemma_declared_keys(&self, projects: Seq<ProjectInfo>, tasks: Seq<TaskInfo>)
        requires
            self.holds_declarations(projects, tasks),
        ensures
            forall|i: int|
                0 <= i < projects.len() ==> self.has_key(NodeKey::Project(#[trigger] projects[i].root@)),
            forall|i: int|
                0 <= i < tasks.len() ==> self.has_key(NodeKey::Task(#[trigger] tasks[i].ref_view())),
    {
        assert forall|i: int| 0 <= i < projects.len() implies self.has_key(
            NodeKey::Project(#[trigger] projects[i].root@),
        ) by {
            assert(self.keys()[i + 1] == project_keys(projects)[i]);
        }
        assert forall|i: int| 0 <= i < tasks.len() implies self.has_key(
            NodeKey::Task(#[trigger] tasks[i].ref_view()),
        ) by {
            assert(self.keys()[1 + projects.len() + i] == task_keys(tasks)[i]);
        }
    }

    /// A graph whose edges all come from project declarations has no task edges.
    pub proof fn lemma_sound_unlinked(&self, projects: Seq<ProjectInfo>)
        requires
            self.edges_sound(projects, Seq::empty()),
        ensures
            self.unlinked(),
    {
        assert forall|k: int| 0 <= k < self.edges().len() implies (#[trigger] self.edges()[k]).2
            != TASK_DEPENDS_ON && self.edges()[k].2 != TASK_DEPENDED_ON_BY by {
            assert(self.edge_sound(self.edges()[k], projects, Seq::empty()));
        }
    }

    /// Graphs with the same keys hold the same keys.
    pub proof fn lemma_same_keys(a: &WorkspaceGraph, b: &WorkspaceGraph)
        requires
            a.keys() == b.keys(),
        ensures
            forall|k: NodeKey| #[trigger] a.has_key(k) == b.has_key(k),
    {
    }

    /// A task reached by a walk is in the graph.
    pub proof fn lemma_reached_task_exists(&self, a: (Seq<Seq<char>>, Seq<char>), b: (Seq<Seq<char>>, Seq<char>))
        requires
            self.task_reaches(a, b),
        ensures
            self.has_key(NodeKey::Task(b)),
    {
        let (i, j) = choose|i: usize, j: usize|
            (i as int) < self.keys().len() && (j as int) < self.keys().len() && self.keys()[i as int]
                == NodeKey::Task(a) && self.keys()[j as int] == NodeKey::Task(b) && #[trigger] reaches(
                self.edges(),
                seq![TASK_DEPENDS_ON],
                i,
                j,
            );
        assert(self.keys()[j as int] == NodeKey::Task(b));
    }

    /// A graph that construction accepted has no cycle among project
    /// dependencies and none along the task order.
    pub proof fn lemma_accepted_graph_acyclic(&self)
        requires
            self.wf(),
        ensures
            !has_cycle(self.edges(), seq![PROJECT_DEPENDS_ON]),
            !has_cycle(self.edges(), order_kinds()),
            !has_cycle(self.edges(), seq![TASK_DEPENDS_ON]),
    {
        lemma_topological_acyclic(
            self.edges(),
            seq![PROJECT_DEPENDS_ON],
            self.nodes@.len() as nat,
            self.project_order@,
        );
        lemma_topological_acyclic(self.edges(), order_kinds(), self.nodes@.len() as nat, self.order@);
        if has_cycle(self.edges(), seq![TASK_DEPENDS_ON]) {
            let p = choose|p: Seq<usize>|
                #[trigger] is_path(self.edges(), seq![TASK_DEPENDS_ON], p) && p.len() >= 2 && p[0] == p.last();
            assert forall|c: u8| seq![TASK_DEPENDS_ON].contains(c) implies order_kinds().contains(c) by {
                assert(seq![TASK_DEPENDS_ON][0] == c);
                assert(order_kinds()[2] == TASK_DEPENDS_ON);
            }
            lemma_path_rises(
                self.edges(),
                seq![TASK_DEPENDS_ON],
                order_kinds(),
                self.nodes@.len() as nat,
                self.order@,
                p,
                p.len() - 1,
            );
        }
    }

    /// The declarations stay in a graph whose keys are kept and whose edges
    /// only grow.
    pub proof fn lemma_holds_grows(
        old: &WorkspaceGraph,
        new: &WorkspaceGraph,
        projects: Seq<ProjectInfo>,
        tasks: Seq<TaskInfo>,
    )
        requires
            old.holds_declarations(projects, tasks),
            new.keys() == old.keys(),
            forall|a: NodeKey, b: NodeKey, kinds: Seq<u8>|
                #[trigger] old.key_edge(a, b, kinds) ==> new.key_edge(a, b, kinds),
        ensures
            new.holds_declarations(projects, tasks),
    {
        assert forall|i: int| 0 <= i < tasks.len() implies new.key_edge(
            NodeKey::Project(tasks[i].project@),
            NodeKey::Task(#[trigger] tasks[i].ref_view()),
            seq![HAS_TASK],
        ) by {
            assert(old.key_edge(
                NodeKey::Project(tasks[i].project@),
                NodeKey::Task(tasks[i].ref_view()),
                seq![HAS_TASK],
            ));
        }
        assert forall|a: Seq<Seq<char>>, b: Seq<Seq<char>>|
            #[trigger] declares_dependency(projects, a, b) implies new.key_edge(
                NodeKey::Project(a),
                NodeKey::Project(b),
                seq![PROJECT_DEPENDS_ON],
            ) && new.key_edge(NodeKey::Project(b), NodeKey::Project(a), seq![PROJECT_DEPENDED_ON_BY]) by {
            assert(old.key_edge(NodeKey::Project(a), NodeKey::Project(b), seq![PROJECT_DEPENDS_ON]));
            assert(old.key_edge(NodeKey::Project(b), NodeKey::Project(a), seq![PROJECT_DEPENDED_ON_BY]));
        }
        assert forall|p: Seq<Seq<char>>|
            #[trigger] declares_project(projects, p) implies new.key_edge(
                NodeKey::Root,
                NodeKey::Project(p),
                seq![HAS_PROJECT],
            ) by {
            assert(old.key_edge(NodeKey::Root, NodeKey::Project(p), seq![HAS_PROJECT]));
        }
    }

    /// Adding only task edges leaves the project relations as they were.
    pub proof fn lemma_task_edges_keep_projects(before: &WorkspaceGraph, after: &WorkspaceGraph)
        requires
            after.keys() == before.keys(),
            before.edges().len() <= after.edges().len(),
            after.edges().take(before.edges().len() as int) == before.edges(),
            forall|k: int|
                before.edges().len() <= k < after.edges().len() ==> (#[trigger] after.edges()[k]).2
                    == TASK_DEPENDS_ON || after.edges()[k].2 == TASK_DEPENDED_ON_BY,
        ensures
            forall|k: NodeKey| #[trigger] after.has_key(k) == before.has_key(k),
            forall|a: NodeKey, b: NodeKey|
                #[trigger] after.key_edge(a, b, seq![PROJECT_DEPENDS_ON]) == before.key_edge(
                    a,
                    b,
                    seq![PROJECT_DEPENDS_ON],
                ),
            forall|a: NodeKey, b: NodeKey|
                #[trigger] after.key_reaches(a, b, seq![PROJECT_DEPENDS_ON]) == before.key_reaches(
                    a,
                    b,
                    seq![PROJECT_DEPENDS_ON],
                ),
    {
        let pk = seq![PROJECT_DEPENDS_ON];
        assert forall|x: usize, y: usize| #[trigger] is_edge(after.edges(), pk, x, y) == is_edge(before.edges(), pk, x, y) by {
            if is_edge(after.edges(), pk, x, y) {
                let e = choose|e: int|
                    0 <= e < after.edges().len() && (#[trigger] after.edges()[e]).0 == x && after.edges()[e].1 == y
                        && pk.contains(after.edges()[e].2);
                assert(pk[0] == after.edges()[e].2);
                assert(e < before.edges().len());
                assert(before.edges()[e] == after.edges().take(before.edges().len() as int)[e]);
            }
            if is_edge(before.edges(), pk, x, y) {
                let e = choose|e: int|
                    0 <= e < before.edges().len() && (#[trigger] before.edges()[e]).0 == x && before.edges()[e].1 == y
                        && pk.contains(before.edges()[e].2);
                assert(before.edges()[e] == after.edges().take(before.edges().len() as int)[e]);
                assert(after.edges()[e] == before.edges()[e]);
            }
        }
        assert forall|p: Seq<usize>| #[trigger] is_path(after.edges(), pk, p) == is_path(before.edges(), pk, p) by {
            if is_path(after.edges(), pk, p) {
                assert forall|i: int| 0 <= i < p.len() - 1 implies #[trigger] is_edge(before.edges(), pk, p[i], p[i + 1]) by {
                    assert(is_edge(after.edges(), pk, p[i], p[i + 1]));
                }
            }
            if is_path(before.edges(), pk, p) {
                assert forall|i: int| 0 <= i < p.len() - 1 implies #[trigger] is_edge(after.edges(), pk, p[i], p[i + 1]) by {
                    assert(is_edge(before.edges(), pk, p[i], p[i + 1]));
                }
            }
        }
        assert forall|a: NodeKey, b: NodeKey|
            #[trigger] after.key_reaches(a, b, pk) == before.key_reaches(a, b, pk) by {
            if after.key_reaches(a, b, pk) {
                let (i, j) = choose|i: usize, j: usize|
                    (i as int) < after.keys().len() && (j as int) < after.keys().len() && after.keys()[i as int] == a
                        && after.keys()[j as int] == b && #[trigger] reaches(after.edges(), pk, i, j);
                let p = choose|p: Seq<usize>| #[trigger] is_path(after.edges(), pk, p) && p[0] == i && p.last() == j;
                assert(is_path(before.edges(), pk, p));
                assert(reaches(before.edges(), pk, i, j));
            }
            if before.key_reaches(a, b, pk) {
                let (i, j) = choose|i: usize, j: usize|
                    (i as int) < before.keys().len() && (j as int) < before.keys().len() && before.keys()[i as int] == a
                        && before.keys()[j as int] == b && #[trigger] reaches(before.edges(), pk, i, j);
                let p = choose|p: Seq<usize>| #[trigger] is_path(before.edges(), pk, p) && p[0] == i && p.last() == j;
                assert(is_path(after.edges(), pk, p));
                assert(reaches(after.edges(), pk, i, j));
            }
        }
        assert forall|a: NodeKey, b: NodeKey|
            #[trigger] after.key_edge(a, b, pk) == before.key_edge(a, b, pk) by {
            if after.key_edge(a, b, pk) {
                let (i, j) = choose|i: usize, j: usize|
                    (i as int) < after.keys().len() && (j as int) < after.keys().len() && after.keys()[i as int] == a
                        && after.keys()[j as int] == b && #[trigger] is_edge(after.edges(), pk, i, j);
                assert(is_edge(before.edges(), pk, i, j));
            }
            if before.key_edge(a, b, pk) {
                let (i, j) = choose|i: usize, j: usize|
                    (i as int) < before.keys().len() && (j as int) < before.keys().len() && before.keys()[i as int] == a
                        && before.keys()[j as int] == b && #[trigger] is_edge(before.edges(), pk, i, j);
                assert(is_edge(after.edges(), pk, i, j));
            }
        }
    }

    /// Whether nothing has been added to the root yet.
    pub open spec fn is_fresh(&self) -> bool {
        self.wf() && self.keys() == seq![NodeKey::Root] && self.edges().len() == 0
    }

    /// The index of the node with key `k`, if any.
    fn find_key(&self, k: &WorkspaceNode) -> (r: Option<usize>)
        requires
            self.wf_nodes(),
        ensures
            match r {
                Some(i) => (i as int) < self.keys().len() && self.keys()[i as int] == k.key(),
                None => !self.has_key(k.key()),
            },
    {
        let mut i: usize = 0;
        while i < self.nodes.len()
            invariant
                self.wf_nodes(),
                i <= self.nodes.len(),
                forall|j: int| 0 <= j < i ==> self.keys()[j] != k.key(),
            decreases self.nodes.len() - i,
        {
            let hit = match (&self.nodes[i], k) {
                (WorkspaceNode::WorkspaceRoot, WorkspaceNode::WorkspaceRoot) => true,
                (WorkspaceNode::Project(a), WorkspaceNode::Project(b)) => a.same(b),
                (WorkspaceNode::Task(a), WorkspaceNode::Task(b)) => a.same(b),
                _ => false,
            };
            if hit {
                return Some(i);
            }
            i = i + 1;
        }
        proof {
            if self.has_key(k.key()) {
                let j = choose|j: int| 0 <= j < self.keys().len() && self.keys()[j] == k.key();
            }
        }
        None
    }
}

} // verus!
