//! Configuration as the core receives it: sources, task files, and the
//! gathering of per-item results.
use vstd::prelude::*;

use crate::paths::ValidPath;
use crate::workspace::TaskDefinition;

verus! {

/// A configuration file's name and text, for diagnostics.
#[derive(Debug, Clone)]
pub struct ConfigSource {
    pub filename: String,
    pub code: String,
}

impl ConfigSource {
    pub fn new(filename: &str, code: String) -> (r: ConfigSource)
        ensures
            r.filename@ == filename@,
            r.code@ == code@,
    {
        ConfigSource { filename: filename.to_owned(), code }
    }
}

/// The tasks a file declares, and the files it imports.
#[derive(Debug)]
pub struct TaskBlock {
    pub imports: Vec<ValidPath>,
    pub tasks: Vec<TaskDefinition>,
}

/// A task file.
#[derive(Debug)]
pub struct TaskFile {
    pub config: TaskBlock,
}

/// A task dependency as an older configuration form wrote it.
#[derive(Debug)]
pub struct TaskDependency {
    pub task: String,
    pub for_project_deps: Option<bool>,
    pub include_this_package: Option<bool>,
}

/// Why a workspace manifest failed validation; none are defined yet.
#[derive(Debug)]
pub enum WorkspaceValidationError {
    Unsupported(String),
}

/// The values of `Ok` results.
pub open spec fn oks<T, E>(v: Seq<Result<T, E>>) -> Seq<T>
    decreases v.len(),
{
    if v.len() == 0 {
        Seq::empty()
    } else {
        match v.last() {
            Ok(x) => oks(v.drop_last()).push(x),
            Err(_) => oks(v.drop_last()),
        }
    }
}

/// The values of `Err` results.
pub open spec fn errs<T, E>(v: Seq<Result<T, E>>) -> Seq<E>
    decreases v.len(),
{
    if v.len() == 0 {
        Seq::empty()
    } else {
        match v.last() {
            Ok(_) => errs(v.drop_last()),
            Err(e) => errs(v.drop_last()).push(e),
        }
    }
}

/// All values when every result is `Ok`, else all errors.
pub fn partition_results<T, E>(v: Vec<Result<T, E>>) -> (r: Result<Vec<T>, Vec<E>>)
    ensures
        errs(v@).len() == 0 ==> (r matches Ok(items) && items@ == oks(v@)),
        errs(v@).len() > 0 ==> (r matches Err(es) && es@ == errs(v@)),
{
    let ghost all = v@;
    let n = v.len();
    assert(all.len() == n);
    let mut v = v;
    let mut items: Vec<T> = Vec::new();
    let mut errors: Vec<E> = Vec::new();
    let mut taken: usize = 0;
    while v.len() > 0
        invariant
            taken + v@.len() == all.len(),
            all.len() <= usize::MAX,
            v@ == all.skip(taken as int),
            items@ == oks(all.take(taken as int)),
            errors@ == errs(all.take(taken as int)),
        decreases v@.len(),
    {
        let x = v.remove(0);
        proof {
            assert(all.take(taken as int + 1).drop_last() =~= all.take(taken as int));
            assert(all.take(taken as int + 1).last() == all[taken as int]);
            assert(v@ =~= all.skip(taken as int + 1));
        }
        match x {
            Ok(item) => items.push(item),
            Err(e) => errors.push(e),
        }
        taken = taken + 1;
    }
    proof {
        assert(all.take(all.len() as int) =~= all);
    }
    if errors.len() > 0 {
        Err(errors)
    } else {
        Ok(items)
    }
}

/// Gathering a list of results: every value, or every error.
pub trait CollectResults<T, E> {
    fn collect_results(self) -> Result<Vec<T>, Vec<E>>;
}

impl<T, E> CollectResults<T, E> for Vec<Result<T, E>> {
    fn collect_results(self) -> Result<Vec<T>, Vec<E>> {
        partition_results(self)
    }
}

} // verus!
