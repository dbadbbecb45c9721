//! The decisions of a run: whether a task must run, which command comes
//! next, and which tasks may be dispatched.
use vstd::prelude::*;

use crate::graph::{task_views, TaskRef};
use crate::git::GitError;

verus! {

/// Whether the hash oracle asks for a run: always, unless both hashes are
/// known and equal.
pub open spec fn hash_says_run(new_hash: Option<crate::hashing::Hash>, last: Option<crate::hashing::Hash>) -> bool {
    match (new_hash, last) {
        (Some(n), Some(l)) => n.bytes() != l.bytes(),
        _ => true,
    }
}

/// The hash oracle's decision from a fresh input hash and the stored one.
pub fn hash_decision(new_hash: &Option<crate::hashing::Hash>, last: &Option<crate::hashing::Hash>) -> (r: bool)
    ensures
        r == hash_says_run(*new_hash, *last),
{
    match (new_hash, last) {
        (Some(n), Some(l)) => !n.same(l),
        _ => true,
    }
}

/// The change oracle's decision: the git answer when a base ref was given,
/// else the hash comparison.
pub fn oracle_decision(
    git_changed: Option<bool>,
    new_hash: &Option<crate::hashing::Hash>,
    last: &Option<crate::hashing::Hash>,
) -> (r: bool)
    ensures
        r == match git_changed {
            Some(c) => c,
            None => hash_says_run(*new_hash, *last),
        },
{
    match git_changed {
        Some(c) => c,
        None => hash_decision(new_hash, last),
    }
}

/// The git oracle's decision: run when some file changed.
pub fn git_decision(changed: &Vec<String>) -> (r: bool)
    ensures
        r == (changed.len() > 0),
{
    changed.len() > 0
}

/// The git oracle's decision for a project with nested projects: run when
/// some changed file lies outside every nested project's root.
pub fn git_decision_outside(changed: &Vec<Vec<String>>, nested: &Vec<Vec<String>>) -> (r: bool)
    ensures
        r == exists|i: int|
            0 <= i < changed.len() && !crate::hashing::excluded(
                nested.deep_view(),
                #[trigger] changed.deep_view()[i],
            ),
{
    let mut i: usize = 0;
    while i < changed.len()
        invariant
            i <= changed.len(),
            forall|k: int|
                0 <= k < i ==> crate::hashing::excluded(nested.deep_view(), #[trigger] changed.deep_view()[k]),
        decreases changed.len() - i,
    {
        if !crate::hashing::is_excluded(nested, &changed[i]) {
            assert(changed.deep_view()[i as int] == changed@[i as int].deep_view());
            return true;
        }
        assert(changed.deep_view()[i as int] == changed@[i as int].deep_view());
        i = i + 1;
    }
    false
}

/// Whether a direct dependency ran in this run.
#[derive(Debug, Clone, Copy, PartialEq, Eq, Structural)]
pub enum OutcomeSummary {
    NoChange,
    SomeChange,
}

/// A task without input globs has no input hash, so the hash oracle always
/// asks for a run.
pub proof fn lemma_no_inputs_always_run(last: Option<crate::hashing::Hash>)
    ensures
        hash_says_run(None, last),
{
}

/// A task runs when its oracle asks for it or a direct dependency ran.
pub fn must_run(oracle_run: bool, deps: OutcomeSummary) -> (r: bool)
    ensures
        r == (oracle_run || deps == OutcomeSummary::SomeChange),
{
    oracle_run || matches!(deps, OutcomeSummary::SomeChange)
}

/// The pieces of `s` between occurrences of `sep`, empty ones kept.
pub open spec fn split_on(s: Seq<char>, sep: char) -> Seq<Seq<char>>
    decreases s.len(),
{
    if s.len() == 0 {
        seq![Seq::empty()]
    } else {
        let prev = split_on(s.drop_last(), sep);
        if s.last() == sep {
            prev.push(Seq::empty())
        } else {
            prev.update(prev.len() - 1, prev.last().push(s.last()))
        }
    }
}

/// The pieces of a command string between ASCII spaces, empty ones kept.
pub open spec fn split_spaces(s: Seq<char>) -> Seq<Seq<char>> {
    split_on(s, ' ')
}

proof fn lemma_split_nonempty(s: Seq<char>, sep: char)
    ensures
        split_on(s, sep).len() >= 1,
    decreases s.len(),
{
    if s.len() > 0 {
        lemma_split_nonempty(s.drop_last(), sep);
    }
}

/// Splits a command on ASCII spaces: the program, then its arguments.
pub fn split_command(s: &str) -> (r: Vec<String>)
    ensures
        r.deep_view() == split_spaces(s@),
        r.len() >= 1,
{
    split_text(s, ' ')
}

/// Splits `s` at each `sep`, empty pieces kept.
pub fn split_text(s: &str, sep: char) -> (r: Vec<String>)
    ensures
        r.deep_view() == split_on(s@, sep),
        r.len() >= 1,
{
    let n = s.unicode_len();
    let mut done: Vec<String> = Vec::new();
    let mut start: usize = 0;
    let mut i: usize = 0;
    proof {
        lemma_split_nonempty(s@, sep);
        assert(s@.take(0) =~= Seq::<char>::empty());
        assert(s@.subrange(0, 0) =~= Seq::<char>::empty());
        assert(done.deep_view() =~= Seq::<Seq<char>>::empty());
        assert(done.deep_view() + seq![s@.subrange(0, 0)] =~= seq![Seq::<char>::empty()]);
    }
    while i < n
        invariant
            n == s@.len(),
            start <= i <= n,
            done.deep_view() + seq![s@.subrange(start as int, i as int)] == split_on(
                s@.take(i as int),
                sep,
            ),
        decreases n - i,
    {
        let c = s.get_char(i);
        assert(s@.take(i as int + 1).drop_last() == s@.take(i as int));
        let ghost prev = split_on(s@.take(i as int), sep);
        if c == sep {
            let part = s.substring_char(start, i);
            let ghost before = done.deep_view();
            crate::paths::push_text(&mut done, part.to_owned());
            start = i + 1;
            proof {
                assert(s@.subrange(start as int, i as int + 1) =~= Seq::<char>::empty());
                assert(prev == before + seq![part@]);
                assert(done.deep_view() + seq![s@.subrange(start as int, i as int + 1)] =~= prev.push(
                    Seq::empty(),
                ));
            }
        } else {
            proof {
                assert(s@.subrange(start as int, i as int + 1) =~= s@.subrange(start as int, i as int).push(c));
                assert(done.deep_view() + seq![s@.subrange(start as int, i as int + 1)] =~= prev.update(
                    prev.len() - 1,
                    prev.last().push(c),
                ));
            }
        }
        i = i + 1;
    }
    assert(s@.take(n as int) == s@);
    let part = s.substring_char(start, n);
    crate::paths::push_text(&mut done, part.to_owned());
    done
}

/// Why a task failed.
#[derive(Debug)]
pub enum TaskError {
    GitError(GitError),
    CommandError(String),
    Hashing(String),
    OutputError,
}

/// How a task ended.
#[derive(Debug)]
pub enum TaskOutcome {
    Skipped,
    Successful,
    Failed(TaskError),
}

/// How a task ended, without the details of a failure.
#[derive(Debug, Clone, Copy, PartialEq, Eq, Structural)]
pub enum SimplifiedOutcome {
    Skipped,
    Successful,
    Failed,
}

impl SimplifiedOutcome {
    pub fn from_task_outcome(outcome: &TaskOutcome) -> (r: SimplifiedOutcome)
        ensures
            outcome is Skipped <==> r == SimplifiedOutcome::Skipped,
            outcome is Successful <==> r == SimplifiedOutcome::Successful,
            outcome is Failed <==> r == SimplifiedOutcome::Failed,
    {
        match outcome {
            TaskOutcome::Skipped => SimplifiedOutcome::Skipped,
            TaskOutcome::Successful => SimplifiedOutcome::Successful,
            TaskOutcome::Failed(_) => SimplifiedOutcome::Failed,
        }
    }
}

/// What the caller does next for a task.
#[derive(Debug)]
pub enum TaskAction {
    /// Nothing to do: the task is skipped.
    Skip,
    /// Start this program with these arguments in the project's root.
    Spawn { program: String, args: Vec<String> },
    /// All commands succeeded; store the input hash, if any.
    Succeed { save_hash: Option<crate::hashing::Hash> },
    /// A command failed; the task fails for this reason.
    Fail(TaskError),
}

/// How a command ended.
#[derive(Debug)]
pub enum CommandResult {
    /// The child ran; whether it exited with success.
    Exited(bool),
    /// The child could not be started.
    SpawnFailed(String),
    /// Its output could not be read.
    OutputFailed,
}

impl CommandResult {
    pub open spec fn ok(&self) -> bool {
        self matches CommandResult::Exited(true)
    }
}

/// The commands of one task, run in order until one fails.
pub struct TaskRun {
    commands: Vec<String>,
    next: usize,
    run: bool,
    input_hash: Option<crate::hashing::Hash>,
}

impl TaskRun {
    pub closed spec fn spec_commands(&self) -> Seq<Seq<char>> {
        self.commands.deep_view()
    }

    pub closed spec fn spec_next(&self) -> int {
        self.next as int
    }

    pub closed spec fn spec_run(&self) -> bool {
        self.run
    }

    pub closed spec fn spec_hash(&self) -> Option<crate::hashing::Hash> {
        self.input_hash
    }

    /// A task about to start; `run` is the decision of `must_run`.
    pub fn new(commands: Vec<String>, run: bool, input_hash: Option<crate::hashing::Hash>) -> (r: TaskRun)
        ensures
            r.spec_commands() == commands.deep_view(),
            r.spec_next() == 0,
            r.spec_run() == run,
            r.spec_hash() == input_hash,
    {
        TaskRun { commands, next: 0, run, input_hash }
    }

    fn advance(&mut self) -> (r: TaskAction)
        requires
            old(self).spec_next() <= old(self).spec_commands().len(),
        ensures
            final(self).spec_commands() == old(self).spec_commands(),
            final(self).spec_run() == old(self).spec_run(),
            final(self).spec_hash() == old(self).spec_hash(),
            old(self).spec_next() == old(self).spec_commands().len() ==> r == (TaskAction::Succeed {
                save_hash: old(self).spec_hash(),
            }) && final(self).spec_next() == old(self).spec_next(),
            old(self).spec_next() < old(self).spec_commands().len() ==> {
                &&& final(self).spec_next() == old(self).spec_next() + 1
                &&& r matches TaskAction::Spawn { program, args } && seq![program@] + args.deep_view()
                    == split_spaces(old(self).spec_commands()[old(self).spec_next()])
            },
    {
        if self.next < self.commands.len() {
            let parts = split_command(self.commands[self.next].as_str());
            let mut parts = parts;
            let ghost all = parts.deep_view();
            let program = parts.remove(0);
            proof {
                assert(seq![program@] + parts.deep_view() =~= all);
            }
            self.next = self.next + 1;
            TaskAction::Spawn { program, args: parts }
        } else {
            TaskAction::Succeed { save_hash: self.input_hash }
        }
    }

    /// The first action: skip, the first command, or success when there is
    /// no command at all.
    pub fn start(&mut self) -> (r: TaskAction)
        requires
            old(self).spec_next() == 0,
        ensures
            !old(self).spec_run() ==> r is Skip,
            old(self).spec_run() && old(self).spec_commands().len() == 0 ==> r == (TaskAction::Succeed {
                save_hash: old(self).spec_hash(),
            }),
            old(self).spec_run() && old(self).spec_commands().len() > 0 ==> {
                &&& final(self).spec_next() == 1
                &&& r matches TaskAction::Spawn { program, args } && seq![program@] + args.deep_view()
                    == split_spaces(old(self).spec_commands()[0])
            },
            final(self).spec_commands() == old(self).spec_commands(),
            final(self).spec_hash() == old(self).spec_hash(),
            final(self).spec_run() == old(self).spec_run(),
            final(self).spec_next() <= final(self).spec_commands().len(),
    {
        if !self.run {
            return TaskAction::Skip;
        }
        self.advance()
    }

    /// The action after a command exits: fail on a non-zero exit, else the
    /// next command, else success.
    pub fn command_finished(&mut self, result: CommandResult) -> (r: TaskAction)
        requires
            old(self).spec_next() <= old(self).spec_commands().len(),
        ensures
            result matches CommandResult::Exited(false) ==> r matches TaskAction::Fail(
                TaskError::CommandError(_),
            ),
            result matches CommandResult::SpawnFailed(m) ==> r == TaskAction::Fail(
                TaskError::CommandError(m),
            ),
            result is OutputFailed ==> r == TaskAction::Fail(TaskError::OutputError),
            result.ok() && old(self).spec_next() == old(self).spec_commands().len() ==> r == (TaskAction::Succeed {
                save_hash: old(self).spec_hash(),
            }),
            result.ok() && old(self).spec_next() < old(self).spec_commands().len() ==> {
                &&& final(self).spec_next() == old(self).spec_next() + 1
                &&& r matches TaskAction::Spawn { program, args } && seq![program@] + args.deep_view()
                    == split_spaces(old(self).spec_commands()[old(self).spec_next()])
            },
            final(self).spec_commands() == old(self).spec_commands(),
            final(self).spec_hash() == old(self).spec_hash(),
            final(self).spec_run() == old(self).spec_run(),
            final(self).spec_next() <= final(self).spec_commands().len(),
    {
        match result {
            CommandResult::Exited(true) => {},
            CommandResult::Exited(false) => {
                return TaskAction::Fail(
                    TaskError::CommandError(String::from_str("the command exited with a failure status")),
                );
            },
            CommandResult::SpawnFailed(m) => {
                return TaskAction::Fail(TaskError::CommandError(m));
            },
            CommandResult::OutputFailed => {
                return TaskAction::Fail(TaskError::OutputError);
            },
        }
        self.advance()
    }
}


/// A selected task and its direct dependencies.
#[derive(Debug)]
pub struct TaskAndDeps {
    pub task_ref: TaskRef,
    pub deps: Vec<TaskRef>,
}

/// Where a task stands in a run.
#[derive(Debug, Clone, Copy, PartialEq, Eq, Structural)]
pub enum TaskStatus {
    Waiting,
    Running,
    Done(SimplifiedOutcome),
}

/// The task finished without failing.
pub open spec fn finished_well(s: TaskStatus) -> bool {
    s == TaskStatus::Done(SimplifiedOutcome::Successful) || s == TaskStatus::Done(
        SimplifiedOutcome::Skipped,
    )
}

/// The dispatch state of a run over a fixed list of tasks.
pub struct Scheduler {
    tasks: Vec<TaskRef>,
    deps: Vec<Vec<usize>>,
    status: Vec<TaskStatus>,
    halted: bool,
}

impl Scheduler {
    pub closed spec fn len(&self) -> nat {
        self.tasks@.len()
    }

    pub closed spec fn spec_status(&self) -> Seq<TaskStatus> {
        self.status@
    }

    pub closed spec fn spec_deps(&self, i: int) -> Seq<usize> {
        self.deps@[i]@
    }

    pub closed spec fn spec_halted(&self) -> bool {
        self.halted
    }

    /// Every direct dependency of task `i` finished without failing.
    pub open spec fn deps_done(&self, i: int) -> bool {
        forall|k: int|
            0 <= k < self.spec_deps(i).len() ==> finished_well(
                self.spec_status()[#[trigger] self.spec_deps(i)[k] as int],
            )
    }

    /// The structure of the state: no task left waiting has been started
    /// before its dependencies finished well, and a failure halts the run.
    pub closed spec fn wf(&self) -> bool {
        &&& self.deps@.len() == self.tasks@.len()
        &&& self.status@.len() == self.tasks@.len()
        &&& forall|i: int, k: int|
            0 <= i < self.deps@.len() && 0 <= k < self.deps@[i]@.len() ==> (#[trigger] self.deps@[i]@[k]
                as int) < self.tasks@.len()
        &&& forall|i: int|
            0 <= i < self.status@.len() && self.status@[i] != TaskStatus::Waiting ==> self.deps_done(i)
        &&& self.halted <==> exists|i: int|
            0 <= i < self.status@.len() && self.status@[i] == TaskStatus::Done(SimplifiedOutcome::Failed)
    }

    /// A run over `selected`, each task waiting on those of its direct
    /// dependencies that are selected too.
    pub fn new(selected: &Vec<TaskAndDeps>) -> (r: Scheduler)
        ensures
            r.wf(),
            r.len() == selected.len(),
            !r.spec_halted(),
            forall|i: int| 0 <= i < r.len() ==> r.spec_status()[i] == TaskStatus::Waiting,
            forall|i: int| 0 <= i < r.len() ==> (#[trigger] r.spec_task(i))@ == selected@[i].task_ref@,
            forall|i: int, j: int|
                0 <= i < r.len() && 0 <= j < r.len() ==> (r.spec_deps(i).contains(j as usize)
                    <==> task_views(selected@[i].deps@).contains(selected@[j].task_ref@)),
    {
        let mut tasks: Vec<TaskRef> = Vec::new();
        let mut status: Vec<TaskStatus> = Vec::new();
        let mut i: usize = 0;
        while i < selected.len()
            invariant
                i <= selected.len(),
                tasks.len() == i,
                status.len() == i,
                forall|k: int| 0 <= k < i ==> tasks@[k]@ == selected@[k].task_ref@,
                forall|k: int| 0 <= k < i ==> status@[k] == TaskStatus::Waiting,
            decreases selected.len() - i,
        {
            tasks.push(selected[i].task_ref.duplicate());
            status.push(TaskStatus::Waiting);
            i = i + 1;
        }
        let mut deps: Vec<Vec<usize>> = Vec::new();
        let mut a: usize = 0;
        while a < selected.len()
            invariant
                a <= selected.len(),
                tasks.len() == selected.len(),
                forall|k: int| 0 <= k < selected.len() ==> tasks@[k]@ == selected@[k].task_ref@,
                deps.len() == a,
                forall|x: int, k: int|
                    0 <= x < a && 0 <= k < deps@[x]@.len() ==> (#[trigger] deps@[x]@[k] as int)
                        < selected.len(),
                forall|x: int, j: int|
                    0 <= x < a && 0 <= j < selected.len() ==> (deps@[x]@.contains(j as usize)
                        <==> task_views(selected@[x].deps@).contains(selected@[j].task_ref@)),
            decreases selected.len() - a,
        {
            let mut mine: Vec<usize> = Vec::new();
            let mut b: usize = 0;
            while b < selected.len()
                invariant
                    a < selected.len(),
                    b <= selected.len(),
                    tasks.len() == selected.len(),
                    forall|k: int| 0 <= k < selected.len() ==> tasks@[k]@ == selected@[k].task_ref@,
                    forall|k: int| 0 <= k < mine@.len() ==> (mine@[k] as int) < b,
                    forall|j: int|
                        0 <= j < selected.len() ==> (mine@.contains(j as usize) <==> (j < b
                            && task_views(selected@[a as int].deps@).contains(
                            selected@[j].task_ref@,
                        ))),
                decreases selected.len() - b,
            {
                let ghost before = mine@;
                let listed = lists_task(&selected[a].deps, &tasks[b]);
                if listed {
                    mine.push(b);
                }
                proof {
                    assert forall|j: int|
                        0 <= j < selected.len() implies (mine@.contains(j as usize) <==> (j < b + 1
                            && task_views(selected@[a as int].deps@).contains(
                            selected@[j].task_ref@,
                        ))) by {
                        if j == b as int {
                            if listed {
                                assert(mine@[mine@.len() - 1] == b);
                            } else {
                                assert(!before.contains(b));
                            }
                        } else {
                            if mine@.contains(j as usize) {
                                let m = choose|m: int| 0 <= m < mine@.len() && mine@[m] == j as usize;
                                if m < before.len() {
                                    assert(before[m] == j as usize);
                                }
                            }
                            if before.contains(j as usize) {
                                let m = choose|m: int| 0 <= m < before.len() && before[m] == j as usize;
                                assert(mine@[m] == j as usize);
                            }
                        }
                    }
                }
                b = b + 1;
            }
            deps.push(mine);
            proof {
                assert forall|x: int, j: int|
                    0 <= x < a + 1 && 0 <= j < selected.len() implies (deps@[x]@.contains(j as usize)
                        <==> task_views(selected@[x].deps@).contains(selected@[j].task_ref@)) by {
                    if x == a {
                        assert(deps@[x] == mine);
                    }
                }
            }
            a = a + 1;
        }
        Scheduler { tasks, deps, status, halted: false }
    }

    pub closed spec fn spec_task(&self, i: int) -> TaskRef {
        self.tasks@[i]
    }

    /// The task at index `i`.
    pub fn task(&self, i: usize) -> (r: &TaskRef)
        requires
            self.wf(),
            (i as int) < self.len(),
        ensures
            *r == self.spec_task(i as int),
    {
        &self.tasks[i]
    }

    fn deps_ready(&self, i: usize) -> (r: bool)
        requires
            self.wf(),
            (i as int) < self.len(),
        ensures
            r == self.deps_done(i as int),
    {
        let d = &self.deps[i];
        let mut k: usize = 0;
        while k < d.len()
            invariant
                self.wf(),
                (i as int) < self.len(),
                d == self.deps@[i as int],
                k <= d.len(),
                forall|m: int| 0 <= m < k ==> finished_well(self.spec_status()[#[trigger] d@[m] as int]),
            decreases d.len() - k,
        {
            let s = self.status[d[k]];
            match s {
                TaskStatus::Done(SimplifiedOutcome::Successful) => {},
                TaskStatus::Done(SimplifiedOutcome::Skipped) => {},
                _ => {
                    proof {
                        assert(self.spec_deps(i as int)[k as int] == d@[k as int]);
                        assert(!finished_well(
                            self.spec_status()[self.spec_deps(i as int)[k as int] as int],
                        ));
                    }
                    return false;
                },
            }
            k = k + 1;
        }
        proof {
            assert forall|m: int| 0 <= m < self.spec_deps(i as int).len() implies finished_well(
                self.spec_status()[#[trigger] self.spec_deps(i as int)[m] as int],
            ) by {
                assert(self.spec_deps(i as int)[m] == d@[m]);
            }
        }
        true
    }

    /// Starts every waiting task whose direct dependencies all finished
    /// without failing; none once a task has failed.
    pub fn take_ready(&mut self) -> (r: Vec<usize>)
        requires
            old(self).wf(),
        ensures
            final(self).wf(),
            final(self).len() == old(self).len(),
            final(self).spec_halted() == old(self).spec_halted(),
            forall|i: int| 0 <= i < final(self).len() ==> #[trigger] final(self).spec_deps(i) == old(self).spec_deps(i),
            old(self).spec_halted() ==> r.len() == 0 && final(self).spec_status() == old(self).spec_status(),
            !old(self).spec_halted() ==> forall|i: int|
                0 <= i < old(self).len() ==> (r@.contains(i as usize) <==> (old(self).spec_status()[i]
                    == TaskStatus::Waiting && old(self).deps_done(i))),
            forall|i: int|
                0 <= i < old(self).len() ==> #[trigger] final(self).spec_status()[i] == (if r@.contains(
                    i as usize,
                ) {
                    TaskStatus::Running
                } else {
                    old(self).spec_status()[i]
                }),
            r@.no_duplicates(),
    {
        let mut r: Vec<usize> = Vec::new();
        if self.halted {
            return r;
        }
        let ghost start = *self;
        let n = self.tasks.len();
        let mut candidates: Vec<usize> = Vec::new();
        let mut i: usize = 0;
        while i < n
            invariant
                *self == start,
                start.wf(),
                n == start.len(),
                i <= n,
                forall|k: int| 0 <= k < candidates@.len() ==> (candidates@[k] as int) < i,
                forall|k1: int, k2: int| 0 <= k1 < k2 < candidates@.len() ==> candidates@[k1] < candidates@[k2],
                forall|j: int|
                    0 <= j < n ==> (#[trigger] candidates@.contains(j as usize) <==> (j < i
                        && start.spec_status()[j] == TaskStatus::Waiting && start.deps_done(j))),
            decreases n - i,
        {
            let ghost before = candidates@;
            let pick = self.status[i] == TaskStatus::Waiting && self.deps_ready(i);
            if pick {
                candidates.push(i);
            }
            proof {
                assert forall|j: int|
                    0 <= j < n implies (#[trigger] candidates@.contains(j as usize) <==> (j < i + 1
                        && start.spec_status()[j] == TaskStatus::Waiting && start.deps_done(j))) by {
                    if j == i as int {
                        if pick {
                            assert(candidates@[candidates@.len() - 1] == i);
                        } else {
                            assert(!before.contains(i));
                        }
                    } else {
                        if candidates@.contains(j as usize) {
                            let m = choose|m: int| 0 <= m < candidates@.len() && candidates@[m] == j as usize;
                            if m < before.len() {
                                assert(before[m] == j as usize);
                                assert(before.contains(j as usize));
                            }
                        }
                        if j < i && start.spec_status()[j] == TaskStatus::Waiting && start.deps_done(j) {
                            assert(before.contains(j as usize));
                        }
                        if before.contains(j as usize) {
                            let m = choose|m: int| 0 <= m < before.len() && before[m] == j as usize;
                            assert(candidates@[m] == j as usize);
                        }
                    }
                }
            }
            i = i + 1;
        }
        let mut c: usize = 0;
        while c < candidates.len()
            invariant
                start.wf(),
                !start.halted,
                self.tasks == start.tasks,
                self.deps == start.deps,
                self.halted == start.halted,
                n == start.len(),
                forall|k: int| 0 <= k < candidates@.len() ==> (candidates@[k] as int) < n,
                forall|k1: int, k2: int| 0 <= k1 < k2 < candidates@.len() ==> candidates@[k1] < candidates@[k2],
                forall|j: int|
                    0 <= j < n ==> (#[trigger] candidates@.contains(j as usize) <==> (start.spec_status()[j]
                        == TaskStatus::Waiting && start.deps_done(j))),
                c <= candidates.len(),
                r@ == candidates@.take(c as int),
                self.status@.len() == n,
                forall|j: int|
                    0 <= j < n ==> #[trigger] self.status@[j] == (if candidates@.take(c as int).contains(j as usize) {
                        TaskStatus::Running
                    } else {
                        start.spec_status()[j]
                    }),
            decreases candidates.len() - c,
        {
            let t = candidates[c];
            let ghost prev = self.status@;
            let ghost tk1 = candidates@.take(c as int + 1);
            let ghost tk0 = candidates@.take(c as int);
            self.status.set(t, TaskStatus::Running);
            r.push(t);
            proof {
                assert(r@ =~= candidates@.take(c as int + 1));
                assert forall|j: int| 0 <= j < n implies #[trigger] self.status@[j] == (if candidates@.take(c as int + 1).contains(
                    j as usize,
                ) {
                    TaskStatus::Running
                } else {
                    start.spec_status()[j]
                }) by {
                    assert(candidates@.take(c as int + 1)[c as int] == t);
                    if j != t as int {
                        assert(self.status@[j] == prev[j]);
                        if tk1.contains(j as usize) {
                            let m = choose|m: int| 0 <= m < tk1.len() && tk1[m] == j as usize;
                            assert(m < c);
                            assert(tk0[m] == j as usize);
                        }
                        if tk0.contains(j as usize) {
                            let m = choose|m: int| 0 <= m < tk0.len() && tk0[m] == j as usize;
                            assert(tk1[m] == j as usize);
                        }
                    }
                }
            }
            c = c + 1;
        }
        proof {
            assert(r@ =~= candidates@);
            assert(candidates@.take(candidates@.len() as int) =~= candidates@);
            assert forall|i: int|
                0 <= i < self.status@.len() && self.status@[i] != TaskStatus::Waiting implies self.deps_done(i) by {
                if !r@.contains(i as usize) {
                    assert(start.status@[i] != TaskStatus::Waiting);
                    assert(start.deps_done(i));
                } else {
                    assert(candidates@.contains(i as usize));
                    assert(start.deps_done(i));
                }
                assert forall|k: int| 0 <= k < self.spec_deps(i).len() implies finished_well(
                    self.spec_status()[#[trigger] self.spec_deps(i)[k] as int],
                ) by {
                    let d = self.spec_deps(i)[k] as int;
                    assert(start.spec_deps(i)[k] as int == d);
                    assert(0 <= d < n);
                    assert(finished_well(start.spec_status()[start.spec_deps(i)[k] as int]));
                    assert(start.spec_status()[d] != TaskStatus::Waiting);
                    assert(!candidates@.contains(d as usize));
                }
            }
            assert((exists|i: int|
                0 <= i < self.status@.len() && self.status@[i] == TaskStatus::Done(SimplifiedOutcome::Failed)) ==> (exists|i: int|
                0 <= i < start.status@.len() && start.status@[i] == TaskStatus::Done(SimplifiedOutcome::Failed)));
        }
        r
    }

    /// Records how a running task ended; a failure halts further dispatch.
    pub fn complete(&mut self, i: usize, outcome: SimplifiedOutcome)
        requires
            old(self).wf(),
            (i as int) < old(self).len(),
            old(self).spec_status()[i as int] == TaskStatus::Running,
        ensures
            final(self).wf(),
            final(self).len() == old(self).len(),
            final(self).spec_status() == old(self).spec_status().update(i as int, TaskStatus::Done(outcome)),
            final(self).spec_halted() == (old(self).spec_halted() || outcome == SimplifiedOutcome::Failed),
            forall|j: int| 0 <= j < final(self).len() ==> #[trigger] final(self).spec_deps(j) == old(self).spec_deps(j),
    {
        let ghost start = *self;
        self.status.set(i, TaskStatus::Done(outcome));
        if matches!(outcome, SimplifiedOutcome::Failed) {
            self.halted = true;
        }
        proof {
            assert(self.status@ == start.status@.update(i as int, TaskStatus::Done(outcome)));
            assert forall|x: int|
                0 <= x < self.status@.len() && self.status@[x] != TaskStatus::Waiting implies self.deps_done(x) by {
                assert(start.status@[x] != TaskStatus::Waiting);
                assert(start.deps_done(x));
                assert forall|k: int| 0 <= k < self.spec_deps(x).len() implies finished_well(
                    self.spec_status()[#[trigger] self.spec_deps(x)[k] as int],
                ) by {
                    let d = start.spec_deps(x)[k] as int;
                    assert(self.spec_deps(x)[k] as int == d);
                    assert(finished_well(start.spec_status()[start.spec_deps(x)[k] as int]));
                    assert(d != i as int);
                    assert(self.spec_status()[d] == start.spec_status()[d]);
                }
            }
            if outcome == SimplifiedOutcome::Failed {
                assert(self.status@[i as int] == TaskStatus::Done(SimplifiedOutcome::Failed));
            } else {
                if exists|x: int|
                    0 <= x < self.status@.len() && self.status@[x] == TaskStatus::Done(SimplifiedOutcome::Failed) {
                    let x = choose|x: int|
                        0 <= x < self.status@.len() && self.status@[x] == TaskStatus::Done(SimplifiedOutcome::Failed);
                    assert(x != i as int);
                    assert(start.status@[x] == TaskStatus::Done(SimplifiedOutcome::Failed));
                }
                if start.halted {
                    let x = choose|x: int|
                        0 <= x < start.status@.len() && start.status@[x] == TaskStatus::Done(SimplifiedOutcome::Failed);
                    assert(x != i as int);
                    assert(self.status@[x] == TaskStatus::Done(SimplifiedOutcome::Failed));
                }
            }
        }
    }

    /// Whether a direct dependency of task `i` ran successfully.
    pub fn dependency_outcome(&self, i: usize) -> (r: OutcomeSummary)
        requires
            self.wf(),
            (i as int) < self.len(),
        ensures
            (r == OutcomeSummary::SomeChange) <==> exists|k: int|
                0 <= k < self.spec_deps(i as int).len() && self.spec_status()[#[trigger] self.spec_deps(
                    i as int,
                )[k] as int] == TaskStatus::Done(SimplifiedOutcome::Successful),
    {
        let d = &self.deps[i];
        let mut k: usize = 0;
        while k < d.len()
            invariant
                self.wf(),
                (i as int) < self.len(),
                d == self.deps@[i as int],
                k <= d.len(),
                forall|m: int|
                    0 <= m < k ==> self.spec_status()[#[trigger] d@[m] as int] != TaskStatus::Done(
                        SimplifiedOutcome::Successful,
                    ),
            decreases d.len() - k,
        {
            if self.status[d[k]] == TaskStatus::Done(SimplifiedOutcome::Successful) {
                return OutcomeSummary::SomeChange;
            }
            k = k + 1;
        }
        OutcomeSummary::NoChange
    }

    /// How many tasks are running.
    pub fn in_flight(&self) -> (r: usize)
        requires
            self.wf(),
        ensures
            r == 0 <==> forall|i: int| 0 <= i < self.len() ==> self.spec_status()[i] != TaskStatus::Running,
    {
        let mut count: usize = 0;
        let mut i: usize = 0;
        while i < self.status.len()
            invariant
                self.wf(),
                i <= self.status@.len(),
                count <= i,
                count == 0 <==> forall|k: int| 0 <= k < i ==> self.status@[k] != TaskStatus::Running,
            decreases self.status@.len() - i,
        {
            if self.status[i] == TaskStatus::Running {
                count = count + 1;
            }
            i = i + 1;
        }
        count
    }
}

/// Whether `t` is among `list`.
pub fn lists_task(list: &Vec<TaskRef>, t: &TaskRef) -> (r: bool)
    ensures
        r == task_views(list@).contains(t@),
{
    let mut i: usize = 0;
    while i < list.len()
        invariant
            i <= list.len(),
            forall|k: int| 0 <= k < i ==> list@[k]@ != t@,
        decreases list.len() - i,
    {
        if list[i].same(t) {
            assert(task_views(list@)[i as int] == t@);
            return true;
        }
        i = i + 1;
    }
    proof {
        if task_views(list@).contains(t@) {
            let k = choose|k: int| 0 <= k < task_views(list@).len() && task_views(list@)[k] == t@;
            assert(list@[k]@ == t@);
        }
    }
    false
}

} // verus!
