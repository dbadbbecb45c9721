//! The registry of last-seen input hashes, and its records on disk.
use vstd::prelude::*;

use crate::graph::{NodeKey, ProjectRef, TaskRef, WorkspaceGraph};
use crate::hashing::TaskHashes;
use crate::paths::{join_spec, split_components, split_path, ValidPath};
use crate::workspace::Workspace;

verus! {

/// One stored record: a project's subpath, a task name, its hashes.
#[derive(Debug)]
pub struct RegistryRecord {
    pub project: String,
    pub task: String,
    pub hashes: TaskHashes,
}

/// The key of a task, as contracts see it.
pub type TaskKey = (Seq<Seq<char>>, Seq<char>);

/// The map from tasks to their last-seen hashes.
pub struct HashRegistry {
    hashes: Vec<(TaskRef, TaskHashes)>,
}

/// The hashes stored under `k` in `entries`, if any.
pub open spec fn lookup_in(entries: Seq<(TaskKey, TaskHashes)>, k: TaskKey) -> Option<TaskHashes> {
    if exists|i: int| 0 <= i < entries.len() && entries[i].0 == k {
        Some(entries[choose|i: int| 0 <= i < entries.len() && entries[i].0 == k].1)
    } else {
        None
    }
}

/// Each key once.
pub open spec fn unique_keys(entries: Seq<(TaskKey, TaskHashes)>) -> bool {
    forall|i: int, j: int| 0 <= i < j < entries.len() ==> entries[i].0 != entries[j].0
}

/// The key a record names once its project text is read back into components.
pub open spec fn record_key(r: RegistryRecord) -> TaskKey {
    (split_path(r.project@), r.task@)
}

impl HashRegistry {
    pub closed spec fn entries(&self) -> Seq<(TaskKey, TaskHashes)> {
        self.hashes@.map_values(|e: (TaskRef, TaskHashes)| (e.0@, e.1))
    }

    pub closed spec fn wf(&self) -> bool {
        unique_keys(self.entries())
    }

    /// An empty registry.
    pub fn new() -> (r: HashRegistry)
        ensures
            r.wf(),
            r.entries().len() == 0,
    {
        HashRegistry { hashes: Vec::new() }
    }

    fn find(&self, t: &TaskRef) -> (r: Option<usize>)
        ensures
            match r {
                Some(i) => (i as int) < self.entries().len() && self.entries()[i as int].0 == t@,
                None => forall|i: int| 0 <= i < self.entries().len() ==> self.entries()[i].0 != t@,
            },
    {
        let mut i: usize = 0;
        while i < self.hashes.len()
            invariant
                i <= self.hashes.len(),
                forall|k: int| 0 <= k < i ==> self.entries()[k].0 != t@,
            decreases self.hashes.len() - i,
        {
            if self.hashes[i].0.same(t) {
                return Some(i);
            }
            i = i + 1;
        }
        None
    }

    /// The hashes last stored for `t`.
    pub fn lookup(&self, t: &TaskRef) -> (r: Option<TaskHashes>)
        requires
            self.wf(),
        ensures
            r == lookup_in(self.entries(), t@),
    {
        match self.find(t) {
            Some(i) => {
                proof {
                    let j = choose|j: int| 0 <= j < self.entries().len() && self.entries()[j].0 == t@;
                    assert(j == i as int);
                }
                Some(self.hashes[i].1)
            },
            None => None,
        }
    }

    /// Stores `h` as the input hash of `t`, keeping its output hash.
    pub fn update_input_hash(&mut self, t: TaskRef, h: crate::hashing::Hash)
        requires
            old(self).wf(),
        ensures
            final(self).wf(),
            lookup_in(final(self).entries(), t@) == Some(
                TaskHashes {
                    inputs: Some(h),
                    outputs: match lookup_in(old(self).entries(), t@) {
                        Some(o) => o.outputs,
                        None => None,
                    },
                },
            ),
            forall|k: TaskKey| k != t@ ==> lookup_in(final(self).entries(), k) == lookup_in(old(self).entries(), k),
    {
        let ghost tv = t@;
        match self.find(&t) {
            Some(i) => {
                let old_hashes = self.hashes[i].1;
                proof {
                    let j = choose|j: int| 0 <= j < self.entries().len() && self.entries()[j].0 == tv;
                    assert(j == i as int);
                }
                self.hashes.set(i, (t, TaskHashes { inputs: Some(h), outputs: old_hashes.outputs }));
                proof {
                    assert(self.entries() =~= old(self).entries().update(
                        i as int,
                        (tv, TaskHashes { inputs: Some(h), outputs: old_hashes.outputs }),
                    ));
                    assert forall|k: TaskKey| k != tv implies lookup_in(self.entries(), k) == lookup_in(old(self).entries(), k) by {
                        if exists|j: int| 0 <= j < old(self).entries().len() && old(self).entries()[j].0 == k {
                            let j = choose|j: int| 0 <= j < old(self).entries().len() && old(self).entries()[j].0 == k;
                            assert(self.entries()[j].0 == k);
                        }
                        if exists|j: int| 0 <= j < self.entries().len() && self.entries()[j].0 == k {
                            let j = choose|j: int| 0 <= j < self.entries().len() && self.entries()[j].0 == k;
                            assert(old(self).entries()[j].0 == k);
                        }
                    }
                    assert(self.entries()[i as int].0 == tv);
                    let j = choose|j: int| 0 <= j < self.entries().len() && self.entries()[j].0 == tv;
                    assert(j == i as int);
                }
            },
            None => {
                self.hashes.push((t, TaskHashes { inputs: Some(h), outputs: None }));
                proof {
                    let n = old(self).entries().len() as int;
                    assert(self.entries() =~= old(self).entries().push(
                        (tv, TaskHashes { inputs: Some(h), outputs: None }),
                    ));
                    assert forall|k: TaskKey| k != tv implies lookup_in(self.entries(), k) == lookup_in(old(self).entries(), k) by {
                        if exists|j: int| 0 <= j < old(self).entries().len() && old(self).entries()[j].0 == k {
                            let j = choose|j: int| 0 <= j < old(self).entries().len() && old(self).entries()[j].0 == k;
                            assert(self.entries()[j].0 == k);
                        }
                        if exists|j: int| 0 <= j < self.entries().len() && self.entries()[j].0 == k {
                            let j = choose|j: int| 0 <= j < self.entries().len() && self.entries()[j].0 == k;
                            assert(j < n);
                            assert(old(self).entries()[j].0 == k);
                        }
                    }
                    assert(self.entries()[n].0 == tv);
                    let j = choose|j: int| 0 <= j < self.entries().len() && self.entries()[j].0 == tv;
                    assert(j == n);
                }
            },
        }
    }

    /// The records to store: one per task, the project as its subpath text.
    pub fn to_records(&self) -> (r: Vec<RegistryRecord>)
        ensures
            r.len() == self.entries().len(),
            forall|i: int|
                0 <= i < r.len() ==> (#[trigger] r@[i]).project@ == join_spec(self.entries()[i].0.0)
                    && r@[i].task@ == self.entries()[i].0.1 && r@[i].hashes == self.entries()[i].1,
    {
        let mut r: Vec<RegistryRecord> = Vec::new();
        let mut i: usize = 0;
        while i < self.hashes.len()
            invariant
                i <= self.hashes.len(),
                r.len() == i,
                forall|k: int|
                    0 <= k < i ==> (#[trigger] r@[k]).project@ == join_spec(self.entries()[k].0.0)
                        && r@[k].task@ == self.entries()[k].0.1 && r@[k].hashes == self.entries()[k].1,
            decreases self.hashes.len() - i,
        {
            let e = &self.hashes[i];
            r.push(
                RegistryRecord {
                    project: e.0.0.as_str(),
                    task: e.0.1.clone(),
                    hashes: e.1,
                },
            );
            i = i + 1;
        }
        r
    }

    /// A registry from stored records, keeping those whose task still exists
    /// in the workspace; the first record for a task wins.
    pub fn from_records(records: &Vec<RegistryRecord>, ws: &Workspace) -> (r: HashRegistry)
        requires
            ws.wf(),
        ensures
            r.wf(),
            r.entries() == load_spec(records@, ws.spec_graph()),
    {
        proof {
            ws.lemma_graph_wf();
        }
        let mut reg = HashRegistry::new();
        let mut j: usize = 0;
        while j < records.len()
            invariant
                ws.spec_graph().wf(),
                j <= records.len(),
                reg.wf(),
                reg.entries() == load_spec(records@.take(j as int), ws.spec_graph()),
            decreases records.len() - j,
        {
            let rec = &records[j];
            let path = ValidPath {
                root: ws.root_path().duplicate(),
                subpath: split_components(rec.project.as_str()),
            };
            let t = TaskRef(ProjectRef(path), rec.task.clone());
            proof {
                assert(records@.take(j as int + 1).drop_last() =~= records@.take(j as int));
                assert(records@.take(j as int + 1).last() == records@[j as int]);
            }
            if ws.graph().has_task(&t) {
                match reg.find(&t) {
                    Some(_) => {},
                    None => {
                        let ghost before = reg.entries();
                        reg.hashes.push((t, rec.hashes));
                        proof {
                            assert(reg.entries() =~= before.push((t@, rec.hashes)));
                        }
                    },
                }
            }
            j = j + 1;
        }
        proof {
            assert(records@.take(records.len() as int) =~= records@);
        }
        reg
    }
}

/// The entries loaded from `recs`: those whose task `g` holds, the first
/// record of a task winning.
pub open spec fn load_spec(recs: Seq<RegistryRecord>, g: WorkspaceGraph) -> Seq<(TaskKey, TaskHashes)>
    decreases recs.len(),
{
    if recs.len() == 0 {
        Seq::empty()
    } else {
        let prev = load_spec(recs.drop_last(), g);
        let r = recs.last();
        if g.has_key(NodeKey::Task(record_key(r))) && !(exists|i: int|
            0 <= i < prev.len() && prev[i].0 == record_key(r)) {
            prev.push((record_key(r), r.hashes))
        } else {
            prev
        }
    }
}

proof fn lemma_load_holds(recs: Seq<RegistryRecord>, g: WorkspaceGraph, i: int)
    requires
        0 <= i < recs.len(),
        g.has_key(NodeKey::Task(record_key(recs[i]))),
        forall|a: int, b: int| 0 <= a < b < recs.len() ==> record_key(recs[a]) != record_key(recs[b]),
    ensures
        exists|m: int|
            0 <= m < load_spec(recs, g).len() && load_spec(recs, g)[m] == (
                record_key(recs[i]),
                recs[i].hashes,
            ),
    decreases recs.len(),
{
    let prev = load_spec(recs.drop_last(), g);
    if i < recs.len() - 1 {
        lemma_load_holds(recs.drop_last(), g, i);
        let m = choose|m: int|
            0 <= m < prev.len() && prev[m] == (record_key(recs.drop_last()[i]), recs.drop_last()[i].hashes);
        assert(load_spec(recs, g)[m] == prev[m]);
    } else {
        if exists|k: int| 0 <= k < prev.len() && prev[k].0 == record_key(recs.last()) {
            let k = choose|k: int| 0 <= k < prev.len() && prev[k].0 == record_key(recs.last());
            lemma_load_from(recs.drop_last(), g, k);
        }
        assert(load_spec(recs, g)[prev.len() as int] == (record_key(recs[i]), recs[i].hashes));
    }
}

proof fn lemma_load_from(recs: Seq<RegistryRecord>, g: WorkspaceGraph, m: int)
    requires
        0 <= m < load_spec(recs, g).len(),
    ensures
        exists|j: int| 0 <= j < recs.len() && record_key(recs[j]) == load_spec(recs, g)[m].0,
    decreases recs.len(),
{
    let prev = load_spec(recs.drop_last(), g);
    if m < prev.len() {
        lemma_load_from(recs.drop_last(), g, m);
        let j = choose|j: int| 0 <= j < recs.drop_last().len() && record_key(recs.drop_last()[j]) == prev[m].0;
        assert(recs[j] == recs.drop_last()[j]);
    } else {
        assert(record_key(recs[recs.len() - 1]) == load_spec(recs, g)[m].0);
    }
}

proof fn lemma_load_unique(recs: Seq<RegistryRecord>, g: WorkspaceGraph)
    ensures
        unique_keys(load_spec(recs, g)),
    decreases recs.len(),
{
    if recs.len() > 0 {
        lemma_load_unique(recs.drop_last(), g);
    }
}

/// Saving a registry and loading it back into a workspace recovers the
/// hashes of every task that the workspace still holds.
pub proof fn lemma_registry_round_trip(
    reg: &HashRegistry,
    records: Seq<RegistryRecord>,
    g: WorkspaceGraph,
    i: int,
)
    requires
        reg.wf(),
        0 <= i < reg.entries().len(),
        forall|k: int|
            0 <= k < reg.entries().len() ==> split_path(join_spec(#[trigger] reg.entries()[k].0.0))
                == reg.entries()[k].0.0,
        records.len() == reg.entries().len(),
        forall|k: int|
            0 <= k < records.len() ==> (#[trigger] records[k]).project@ == join_spec(reg.entries()[k].0.0)
                && records[k].task@ == reg.entries()[k].0.1 && records[k].hashes == reg.entries()[k].1,
        g.has_key(NodeKey::Task(reg.entries()[i].0)),
    ensures
        lookup_in(load_spec(records, g), reg.entries()[i].0) == Some(reg.entries()[i].1),
{
    assert forall|k: int| 0 <= k < records.len() implies record_key(#[trigger] records[k]) == reg.entries()[k].0 by {
        assert(split_path(join_spec(reg.entries()[k].0.0)) == reg.entries()[k].0.0);
    }
    assert forall|a: int, b: int| 0 <= a < b < records.len() implies record_key(records[a]) != record_key(records[b]) by {
        assert(record_key(records[a]) == reg.entries()[a].0);
        assert(record_key(records[b]) == reg.entries()[b].0);
    }
    assert(record_key(records[i]) == reg.entries()[i].0);
    lemma_load_holds(records, g, i);
    lemma_load_unique(records, g);
    let loaded = load_spec(records, g);
    let m = choose|m: int| 0 <= m < loaded.len() && loaded[m] == (record_key(records[i]), records[i].hashes);
    let w = choose|w: int| 0 <= w < loaded.len() && loaded[w].0 == reg.entries()[i].0;
    if w != m {
        if w < m {
            assert(loaded[w].0 != loaded[m].0);
        } else {
            assert(loaded[m].0 != loaded[w].0);
        }
    }
}

} // verus!
