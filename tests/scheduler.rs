use turborepo_lib::scheduler::{FailurePolicy, Outcome, RunState, Status, EXIT_SUCCESS, EXIT_TASKS_FAILED};
use turborepo_lib::task_graph::{TaskGraph, TaskId};

fn chain() -> TaskGraph {
    // u (0) <- t (1) <- w (2); x (3) independent
    TaskGraph {
        nodes: vec![
            TaskId { package: 0, task: 1 },
            TaskId { package: 1, task: 1 },
            TaskId { package: 2, task: 1 },
            TaskId { package: 3, task: 1 },
        ],
        persistent: vec![false, false, false, false],
        cached: vec![true, true, true, true],
        preds: vec![vec![], vec![0], vec![1], vec![]],
    }
}

#[test]
fn dependent_waits_for_predecessor() {
    let g = chain();
    let mut st = RunState::new(&g);
    assert!(!st.start(&g, 1));
    assert!(st.start(&g, 0));
    assert!(!st.start(&g, 1));
    st.finish(&g, 0, Outcome::Success);
    assert!(st.start(&g, 1));
    assert_eq!(st.status[1], Status::Running);
}

#[test]
fn failure_skips_dependents_only() {
    let g = chain();
    let mut st = RunState::new(&g);
    assert!(st.start(&g, 0));
    st.finish(&g, 0, Outcome::Failed);
    assert!(!st.start(&g, 1));
    st.skip_blocked(&g, FailurePolicy::BailSubtree);
    assert_eq!(st.status, vec![Status::Failed, Status::Skipped, Status::Skipped, Status::Pending]);
    assert!(st.start(&g, 3));
}

#[test]
fn fail_fast_skips_everything_pending() {
    let g = chain();
    let mut st = RunState::new(&g);
    assert!(st.start(&g, 0));
    st.finish(&g, 0, Outcome::Failed);
    st.skip_blocked(&g, FailurePolicy::FailFast);
    assert_eq!(st.status, vec![Status::Failed, Status::Skipped, Status::Skipped, Status::Skipped]);
}

#[test]
fn next_ready_respects_limit_and_order() {
    let g = chain();
    let mut st = RunState::new(&g);
    assert_eq!(st.next_ready(&g, 1), Some(0));
    assert!(st.start(&g, 0));
    assert_eq!(st.next_ready(&g, 1), None);
    assert_eq!(st.next_ready(&g, 2), Some(3));
    assert_eq!(st.count_running(), 1);
    st.finish(&g, 0, Outcome::CacheHit);
    assert_eq!(st.status[0], Status::CacheHit);
    assert_eq!(st.next_ready(&g, 1), Some(1));
}

#[test]
fn finish_of_node_not_running_is_ignored() {
    let g = chain();
    let mut st = RunState::new(&g);
    st.finish(&g, 2, Outcome::Success);
    assert_eq!(st.status[2], Status::Pending);
}

#[test]
fn persistent_node_does_not_gate_completion() {
    let g = TaskGraph {
        nodes: vec![TaskId { package: 0, task: 1 }, TaskId { package: 0, task: 9 }],
        persistent: vec![false, true],
        cached: vec![true, false],
        preds: vec![vec![], vec![0]],
    };
    let mut st = RunState::new(&g);
    assert!(!st.run_complete(&g));
    assert!(st.start(&g, 0));
    assert!(!st.run_complete(&g));
    st.finish(&g, 0, Outcome::Success);
    assert!(st.start(&g, 1));
    assert!(st.run_complete(&g));
}

#[test]
fn exit_code_reports_failures() {
    let g = chain();
    let mut st = RunState::new(&g);
    assert_eq!(st.exit_code(), EXIT_SUCCESS);
    assert!(st.start(&g, 0));
    st.finish(&g, 0, Outcome::Success);
    assert_eq!(st.exit_code(), EXIT_SUCCESS);
    assert!(st.start(&g, 1));
    st.finish(&g, 1, Outcome::Failed);
    assert_eq!(st.exit_code(), EXIT_TASKS_FAILED);
}
