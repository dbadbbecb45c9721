use nabs::graph::{ProjectRef, TaskRef};
use nabs::paths::{split_components, ValidPath, WorkspaceRoot};
use nabs::registry::{HashRegistry, RegistryRecord};
use nabs::workspace::{ProjectFile, TaskDefinition, TaskInputs, Workspace, WorkspaceInfo};

fn vp(path: &str) -> ValidPath {
    ValidPath { root: WorkspaceRoot::new("/ws"), subpath: split_components(path) }
}

#[test]
fn saved_hashes_load_back_for_live_tasks() {
    let mut ws = Workspace::new(WorkspaceInfo {
        name: "t".to_string(),
        project_paths: vec![],
        root_path: WorkspaceRoot::new("/ws"),
    });
    ws.add_projects(vec![ProjectFile {
        name: "library".to_string(),
        root: vp("libs/library"),
        dependencies: vec![],
        tasks: vec![TaskDefinition {
            name: "build".to_string(),
            commands: vec![],
            requires: vec![],
            inputs: TaskInputs::default(),
        }],
    }])
    .unwrap();
    let live = TaskRef(ProjectRef(vp("libs/library")), "build".to_string());
    let gone = TaskRef(ProjectRef(vp("libs/old")), "build".to_string());
    let mut reg = HashRegistry::new();
    reg.update_input_hash(live.clone(), nabs::hashing::Hash([1; 32]));
    reg.update_input_hash(gone.clone(), nabs::hashing::Hash([2; 32]));
    let records: Vec<RegistryRecord> = reg.to_records();
    assert_eq!(records[0].project, "libs/library");
    let loaded = HashRegistry::from_records(&records, &ws);
    assert_eq!(loaded.lookup(&live).unwrap().inputs.unwrap().0, [1; 32]);
    assert!(loaded.lookup(&gone).is_none());
}
