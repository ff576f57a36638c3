use turborepo_lib::cache::LocalCache;
use turborepo_lib::daemon::{initial_state, step, ConnectAction, ConnectEvent};
use turborepo_lib::executor::{complete, dispatch, NodeAction};
use turborepo_lib::scheduler::{FailurePolicy, RunState, Status, EXIT_GRAPH_ERROR, EXIT_TASKS_FAILED};
use turborepo_lib::task_graph::{build, DepSpec, TaskDefinition, TaskGraph, TaskId, Workspace};
use turborepo_lib::task_hash::{hash_graph, NodeInputs};

const BUILD: u64 = 1;

fn workspace() -> Workspace {
    Workspace {
        package_deps: vec![vec![], vec![0]],
        definitions: vec![
            TaskDefinition {
                id: TaskId { package: 0, task: BUILD },
                depends_on: vec![DepSpec::SameTaskInDependencies(BUILD)],
                persistent: false,
                cache: true,
            },
            TaskDefinition {
                id: TaskId { package: 1, task: BUILD },
                depends_on: vec![DepSpec::SameTaskInDependencies(BUILD)],
                persistent: false,
                cache: true,
            },
        ],
    }
}

fn inputs(g: &TaskGraph) -> Vec<NodeInputs> {
    g.nodes
        .iter()
        .map(|t| NodeInputs {
            config: vec![t.task, 77],
            files: vec![(t.package as u64 * 10 + 1, 1000 + t.package as u64)],
            declared_env: vec![],
        })
        .collect()
}

/// Runs every node once, using the cache; returns the final statuses.
fn run(g: &TaskGraph, cache: &mut LocalCache, salt: u64) -> Vec<Status> {
    let keys = hash_graph(g, &inputs(g), salt, &vec![]);
    let mut st = RunState::new(g);
    while let Some(v) = st.next_ready(g, 2) {
        match dispatch(&mut st, g, cache, v, &keys[v]) {
            Some(NodeAction::RunCommand) => {
                complete(&mut st, g, cache, v, &keys[v], &vec![v as u8], &b"done".to_vec(), 0);
            },
            Some(NodeAction::UseCached) => {},
            None => panic!("dispatched a node that was not eligible"),
        }
        st.skip_blocked(g, FailurePolicy::BailSubtree);
    }
    st.status
}

#[test]
fn second_run_is_all_cache_hits() {
    let g = build(&workspace(), &vec![TaskId { package: 0, task: BUILD }, TaskId { package: 1, task: BUILD }])
        .expect("acyclic");
    assert_eq!(g.nodes, vec![TaskId { package: 0, task: BUILD }, TaskId { package: 1, task: BUILD }]);
    assert_eq!(g.preds, vec![vec![], vec![0]]);
    let mut cache = LocalCache::new();
    assert_eq!(run(&g, &mut cache, 1), vec![Status::Success, Status::Success]);
    assert_eq!(run(&g, &mut cache, 1), vec![Status::CacheHit, Status::CacheHit]);
}

#[test]
fn changed_salt_misses_everything() {
    let g = build(&workspace(), &vec![TaskId { package: 1, task: BUILD }]).expect("acyclic");
    let mut cache = LocalCache::new();
    assert_eq!(run(&g, &mut cache, 1), vec![Status::Success, Status::Success]);
    let keys_old = hash_graph(&g, &inputs(&g), 1, &vec![]);
    let keys_new = hash_graph(&g, &inputs(&g), 2, &vec![]);
    for k in &keys_new {
        assert!(cache.lookup(k).is_none());
    }
    assert_ne!(keys_old, keys_new);
    assert_eq!(run(&g, &mut cache, 2), vec![Status::Success, Status::Success]);
}

#[test]
fn upstream_key_reaches_dependent() {
    let g = build(&workspace(), &vec![TaskId { package: 1, task: BUILD }]).expect("acyclic");
    let mut inp = inputs(&g);
    let before = hash_graph(&g, &inp, 1, &vec![]);
    inp[0].files[0].1 += 1;
    let after = hash_graph(&g, &inp, 1, &vec![]);
    assert_ne!(before[0], after[0]);
    assert_ne!(before[1], after[1]);
}

#[test]
fn cold_run_after_failed_spawns_still_builds_and_hashes() {
    let (s1, a1) = step(initial_state(), ConnectEvent::Unreachable);
    assert_eq!(a1, ConnectAction::Spawn);
    let (s2, a2) = step(s1, ConnectEvent::SpawnFailed);
    assert_eq!(a2, ConnectAction::Spawn);
    let (_s3, a3) = step(s2, ConnectEvent::SpawnFailed);
    assert_eq!(a3, ConnectAction::RunCold);
    let g = build(&workspace(), &vec![TaskId { package: 1, task: BUILD }]).expect("acyclic");
    assert_eq!(g.preds, vec![vec![], vec![0]]);
    let keys = hash_graph(&g, &inputs(&g), 1, &vec![]);
    assert_eq!(keys, hash_graph(&g, &inputs(&g), 1, &vec![]));
}

#[test]
fn failed_command_stores_nothing_and_skips_dependent() {
    let g = build(&workspace(), &vec![TaskId { package: 1, task: BUILD }]).expect("acyclic");
    let keys = hash_graph(&g, &inputs(&g), 1, &vec![]);
    let mut cache = LocalCache::new();
    let mut st = RunState::new(&g);
    assert_eq!(dispatch(&mut st, &g, &cache, 1, &keys[1]), None);
    assert_eq!(dispatch(&mut st, &g, &cache, 0, &keys[0]), Some(NodeAction::RunCommand));
    complete(&mut st, &g, &mut cache, 0, &keys[0], &vec![], &b"error".to_vec(), 2);
    assert!(cache.lookup(&keys[0]).is_none());
    st.skip_blocked(&g, FailurePolicy::BailSubtree);
    assert_eq!(st.status, vec![Status::Failed, Status::Skipped]);
    assert_eq!(st.exit_code(), EXIT_TASKS_FAILED);
}

#[test]
fn graph_error_has_its_own_exit_code() {
    let ws = Workspace {
        package_deps: vec![vec![0]],
        definitions: vec![TaskDefinition {
            id: TaskId { package: 0, task: BUILD },
            depends_on: vec![DepSpec::SameTaskInDependencies(BUILD)],
            persistent: false,
            cache: true,
        }],
    };
    let e = build(&ws, &vec![TaskId { package: 0, task: BUILD }]).unwrap_err();
    assert_eq!(e.exit_code(), EXIT_GRAPH_ERROR);
}

#[test]
fn persistent_task_is_never_cached() {
    let g = TaskGraph {
        nodes: vec![TaskId { package: 0, task: 9 }],
        persistent: vec![true],
        cached: vec![true],
        preds: vec![vec![]],
    };
    let key = vec![1u8; 32];
    let mut cache = LocalCache::new();
    cache.store(&key, &vec![1], &b"old".to_vec(), 0);
    let mut st = RunState::new(&g);
    assert_eq!(dispatch(&mut st, &g, &cache, 0, &key), Some(NodeAction::RunCommand));
    assert_eq!(st.status, vec![Status::Running]);
    let mut fresh = LocalCache::new();
    complete(&mut st, &g, &mut fresh, 0, &key, &vec![2], &b"dev".to_vec(), 0);
    assert_eq!(st.status, vec![Status::Success]);
    assert!(fresh.lookup(&key).is_none());
}

#[test]
fn cache_off_task_always_runs() {
    let g = TaskGraph {
        nodes: vec![TaskId { package: 0, task: 4 }],
        persistent: vec![false],
        cached: vec![false],
        preds: vec![vec![]],
    };
    let key = vec![2u8; 32];
    let mut cache = LocalCache::new();
    cache.store(&key, &vec![1], &b"old".to_vec(), 0);
    let mut st = RunState::new(&g);
    assert_eq!(dispatch(&mut st, &g, &cache, 0, &key), Some(NodeAction::RunCommand));
    let mut fresh = LocalCache::new();
    complete(&mut st, &g, &mut fresh, 0, &key, &vec![2], &b"log".to_vec(), 0);
    assert_eq!(st.status, vec![Status::Success]);
    assert!(fresh.lookup(&key).is_none());
}
