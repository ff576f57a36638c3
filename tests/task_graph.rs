use turborepo_lib::task_graph::{build, DepSpec, GraphError, TaskDefinition, TaskId, Workspace};

const BUILD: u64 = 1;
const TEST: u64 = 2;
const DEV: u64 = 3;
const UTILS: usize = 0;
const WEB: usize = 1;

fn def(package: usize, task: u64, depends_on: Vec<DepSpec>, persistent: bool) -> TaskDefinition {
    TaskDefinition { id: TaskId { package, task }, depends_on, persistent, cache: !persistent }
}

fn web_utils() -> Workspace {
    Workspace {
        package_deps: vec![vec![], vec![UTILS]],
        definitions: vec![
            def(UTILS, BUILD, vec![DepSpec::SameTaskInDependencies(BUILD)], false),
            def(WEB, BUILD, vec![DepSpec::SameTaskInDependencies(BUILD)], false),
        ],
    }
}

#[test]
fn web_depends_on_utils_build() {
    let ws = web_utils();
    let g = build(&ws, &vec![TaskId { package: UTILS, task: BUILD }, TaskId { package: WEB, task: BUILD }])
        .expect("acyclic");
    assert_eq!(g.nodes, vec![TaskId { package: UTILS, task: BUILD }, TaskId { package: WEB, task: BUILD }]);
    assert_eq!(g.preds, vec![vec![], vec![0]]);
    assert_eq!(g.persistent, vec![false, false]);
}

#[test]
fn requesting_dependent_pulls_in_dependency() {
    let ws = web_utils();
    let g = build(&ws, &vec![TaskId { package: WEB, task: BUILD }]).expect("acyclic");
    assert_eq!(g.nodes.len(), 2);
    let u = g.nodes.iter().position(|t| *t == TaskId { package: UTILS, task: BUILD }).unwrap();
    let w = g.nodes.iter().position(|t| *t == TaskId { package: WEB, task: BUILD }).unwrap();
    assert_eq!(g.preds[w], vec![u]);
    assert!(g.preds[u].is_empty());
}

#[test]
fn package_cycle_is_detected() {
    let ws = Workspace {
        package_deps: vec![vec![1], vec![0]],
        definitions: vec![
            def(0, BUILD, vec![DepSpec::SameTaskInDependencies(BUILD)], false),
            def(1, BUILD, vec![DepSpec::SameTaskInDependencies(BUILD)], false),
        ],
    };
    match build(&ws, &vec![TaskId { package: 0, task: BUILD }]) {
        Err(GraphError::CycleDetected(c)) => {
            assert_eq!(c.len(), 2);
            assert!(c.contains(&TaskId { package: 0, task: BUILD }));
            assert!(c.contains(&TaskId { package: 1, task: BUILD }));
            assert_ne!(c[0], c[1]);
        },
        other => panic!("expected a cycle, got {:?}", other),
    }
}

#[test]
fn self_referential_package_is_a_cycle() {
    let ws = Workspace {
        package_deps: vec![vec![0]],
        definitions: vec![def(0, BUILD, vec![DepSpec::SameTaskInDependencies(BUILD)], false)],
    };
    match build(&ws, &vec![TaskId { package: 0, task: BUILD }]) {
        Err(GraphError::CycleDetected(c)) => assert_eq!(c, vec![TaskId { package: 0, task: BUILD }]),
        other => panic!("expected a cycle, got {:?}", other),
    }
}

#[test]
fn same_package_ordering_is_not_a_cycle() {
    let ws = Workspace {
        package_deps: vec![vec![]],
        definitions: vec![
            def(0, TEST, vec![DepSpec::SameTaskSamePackage(BUILD)], false),
            def(0, BUILD, vec![], false),
        ],
    };
    let g = build(&ws, &vec![TaskId { package: 0, task: TEST }]).expect("acyclic");
    assert_eq!(g.nodes, vec![TaskId { package: 0, task: BUILD }, TaskId { package: 0, task: TEST }]);
    assert_eq!(g.preds, vec![vec![], vec![0]]);
}

#[test]
fn task_level_cycle_in_one_package() {
    let ws = Workspace {
        package_deps: vec![vec![]],
        definitions: vec![
            def(0, TEST, vec![DepSpec::SameTaskSamePackage(BUILD)], false),
            def(0, BUILD, vec![DepSpec::ExplicitPackageTask(0, TEST)], false),
        ],
    };
    assert!(matches!(build(&ws, &vec![TaskId { package: 0, task: BUILD }]), Err(GraphError::CycleDetected(_))));
}

#[test]
fn persistent_dependency_is_invalid() {
    let ws = Workspace {
        package_deps: vec![vec![]],
        definitions: vec![
            def(0, BUILD, vec![DepSpec::SameTaskSamePackage(DEV)], false),
            def(0, DEV, vec![], true),
        ],
    };
    match build(&ws, &vec![TaskId { package: 0, task: BUILD }]) {
        Err(GraphError::InvalidDependency(a, b)) => {
            assert_eq!(a, TaskId { package: 0, task: BUILD });
            assert_eq!(b, TaskId { package: 0, task: DEV });
        },
        other => panic!("expected an invalid dependency, got {:?}", other),
    }
}

#[test]
fn persistent_task_alone_is_fine() {
    let ws = Workspace {
        package_deps: vec![vec![]],
        definitions: vec![def(0, DEV, vec![DepSpec::SameTaskSamePackage(BUILD)], true), def(0, BUILD, vec![], false)],
    };
    let g = build(&ws, &vec![TaskId { package: 0, task: DEV }]).expect("valid");
    assert_eq!(g.persistent, vec![false, true]);
}

#[test]
fn unresolved_specifiers_are_no_ops() {
    let ws = Workspace {
        package_deps: vec![vec![], vec![0]],
        definitions: vec![def(
            1,
            BUILD,
            vec![
                DepSpec::SameTaskInDependencies(BUILD),
                DepSpec::SameTaskSamePackage(TEST),
                DepSpec::ExplicitPackageTask(5, BUILD),
            ],
            false,
        )],
    };
    let g = build(&ws, &vec![TaskId { package: 1, task: BUILD }, TaskId { package: 0, task: BUILD }]).expect("valid");
    assert_eq!(g.nodes, vec![TaskId { package: 1, task: BUILD }]);
    assert_eq!(g.preds, vec![Vec::<usize>::new()]);
}

#[test]
fn shared_dependency_appears_once() {
    // a and b both depend on c; top depends on a and b.
    let ws = Workspace {
        package_deps: vec![vec![], vec![0], vec![0], vec![1, 2]],
        definitions: vec![
            def(0, BUILD, vec![DepSpec::SameTaskInDependencies(BUILD)], false),
            def(1, BUILD, vec![DepSpec::SameTaskInDependencies(BUILD)], false),
            def(2, BUILD, vec![DepSpec::SameTaskInDependencies(BUILD), DepSpec::ExplicitPackageTask(0, BUILD)], false),
            def(3, BUILD, vec![DepSpec::SameTaskInDependencies(BUILD)], false),
        ],
    };
    let g = build(&ws, &vec![TaskId { package: 3, task: BUILD }, TaskId { package: 3, task: BUILD }]).expect("acyclic");
    assert_eq!(g.nodes.len(), 4);
    for (v, ps) in g.preds.iter().enumerate() {
        for u in ps {
            assert!(*u < v);
        }
    }
    let c = g.nodes.iter().position(|t| t.package == 2).unwrap();
    assert_eq!(g.preds[c].len(), 1);
}

#[test]
fn duplicate_definitions_are_reported() {
    let mut ws = web_utils();
    assert!(ws.definitions_unique());
    ws.definitions.push(def(WEB, BUILD, vec![], false));
    assert!(!ws.definitions_unique());
}

#[test]
fn cycle_chain_leaves_out_tasks_that_only_lead_into_it() {
    // top (2) depends on a (0), which forms a cycle with b (1).
    let ws = Workspace {
        package_deps: vec![vec![1], vec![0], vec![0]],
        definitions: vec![
            def(0, BUILD, vec![DepSpec::SameTaskInDependencies(BUILD)], false),
            def(1, BUILD, vec![DepSpec::SameTaskInDependencies(BUILD)], false),
            def(2, BUILD, vec![DepSpec::SameTaskInDependencies(BUILD)], false),
        ],
    };
    match build(&ws, &vec![TaskId { package: 2, task: BUILD }]) {
        Err(GraphError::CycleDetected(c)) => {
            assert_eq!(c.len(), 2);
            assert!(!c.contains(&TaskId { package: 2, task: BUILD }));
        },
        other => panic!("expected a cycle, got {:?}", other),
    }
}

#[test]
fn cache_flag_reaches_the_graph() {
    let ws = Workspace {
        package_deps: vec![vec![]],
        definitions: vec![
            TaskDefinition { id: TaskId { package: 0, task: TEST }, depends_on: vec![DepSpec::SameTaskSamePackage(BUILD)], persistent: false, cache: false },
            def(0, BUILD, vec![], false),
        ],
    };
    let g = build(&ws, &vec![TaskId { package: 0, task: TEST }]).expect("acyclic");
    assert_eq!(g.cached, vec![true, false]);
}
