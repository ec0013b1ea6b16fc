//! End-to-end tests of the execution engine: graph validation, batch
//! scheduling, dispatch/skip/wait decisions, and result aggregation.

use nova_core::executor::{Action, Executor, ExecutorConfig, ExecutionError, StepResult};
use nova_core::graph::{DependencyGraph, GraphError};
use nova_core::planner::{ExecutionPlan, ExecutionStep};
use nova_core::security::{SecurityConfig, SecurityManager, SandboxMode};

fn step(id: &str, tool: &str, deps: &[&str]) -> ExecutionStep {
    ExecutionStep {
        id: id.to_string(),
        tool_name: tool.to_string(),
        parameters: serde_json::Value::Null,
        dependencies: deps.iter().map(|d| d.to_string()).collect(),
    }
}

fn plan(steps: Vec<ExecutionStep>) -> ExecutionPlan {
    ExecutionPlan { task_id: "task-1".to_string(), steps }
}

fn open_security() -> SecurityManager {
    SecurityManager::new(SecurityConfig {
        sandbox_mode: SandboxMode::Process,
        allowed_tools: vec![],
        denied_tools: vec![],
    })
}

fn executor(max_parallel: usize) -> Executor {
    Executor::new(ExecutorConfig { max_parallel, default_timeout_ms: 30000 })
}

fn value(s: &str) -> serde_json::Value {
    serde_json::Value::String(s.to_string())
}

#[test]
fn cycle_detected_names_exactly_the_cycle() {
    let p = plan(vec![
        step("a", "bash", &["c"]),
        step("b", "bash", &["a"]),
        step("c", "bash", &["b"]),
    ]);
    match DependencyGraph::new(&p) {
        Err(GraphError::CycleDetected { step_ids }) => {
            assert_eq!(step_ids, vec!["a".to_string(), "b".to_string(), "c".to_string()]);
        }
        other => panic!("expected CycleDetected, got {:?}", other.is_ok()),
    }
}

#[test]
fn self_loop_is_a_cycle() {
    let p = plan(vec![step("a", "bash", &["a"])]);
    match DependencyGraph::new(&p) {
        Err(GraphError::CycleDetected { step_ids }) => {
            assert_eq!(step_ids, vec!["a".to_string()]);
        }
        _ => panic!("expected CycleDetected"),
    }
}

#[test]
fn unknown_dependency_is_rejected() {
    let p = plan(vec![step("a", "bash", &[]), step("b", "bash", &["ghost"])]);
    match DependencyGraph::new(&p) {
        Err(GraphError::UnknownDependency { step_id, missing_id }) => {
            assert_eq!(step_id, "b");
            assert_eq!(missing_id, "ghost");
        }
        _ => panic!("expected UnknownDependency"),
    }
}

#[test]
fn batches_partition_the_steps() {
    // Diamond: a; b and c depend on a; d depends on b and c.
    let p = plan(vec![
        step("a", "bash", &[]),
        step("b", "bash", &["a"]),
        step("c", "bash", &["a"]),
        step("d", "bash", &["b", "c"]),
    ]);
    let g = DependencyGraph::new(&p).unwrap();
    // Adjacency in both directions.
    assert_eq!(g.preds, vec![vec![], vec![0], vec![0], vec![1, 2]]);
    assert_eq!(g.succs, vec![vec![1usize, 2], vec![3], vec![3], vec![]]);
    let batches = g.execution_batches();
    assert_eq!(batches, &vec![vec![0usize], vec![1, 2], vec![3]]);
    // Every step appears exactly once over all batches.
    let mut seen: Vec<usize> = batches.iter().flatten().copied().collect();
    seen.sort();
    assert_eq!(seen, vec![0, 1, 2, 3]);
}

#[test]
fn scheduling_is_deterministic() {
    let p = plan(vec![
        step("a", "bash", &[]),
        step("b", "bash", &["a"]),
        step("c", "bash", &[]),
    ]);
    let g1 = DependencyGraph::new(&p).unwrap();
    let g2 = DependencyGraph::new(&p).unwrap();
    assert_eq!(g1.execution_batches(), g2.execution_batches());
}

#[test]
fn outputs_follow_declaration_order_not_completion_order() {
    // s1 and s2 are independent; s3 depends on both. s2 "finishes" before
    // s1, yet the outputs stay in declaration order.
    let p = plan(vec![
        step("s1", "bash", &[]),
        step("s2", "bash", &[]),
        step("s3", "bash", &["s1", "s2"]),
    ]);
    let mut e = executor(10).start(p, &open_security()).unwrap();
    assert!(matches!(e.next_action(), Action::Dispatch(0)));
    assert!(matches!(e.next_action(), Action::Dispatch(1)));
    assert!(matches!(e.next_action(), Action::Wait));
    // Completions arrive in reverse of declaration order.
    e.record(1, StepResult::Success(value("two")));
    e.record(0, StepResult::Success(value("one")));
    assert!(matches!(e.next_action(), Action::Dispatch(2)));
    e.record(2, StepResult::Success(value("three")));
    assert!(matches!(e.next_action(), Action::Done));
    let r = e.aggregate(7);
    assert!(r.success);
    assert_eq!(r.task_id, "task-1");
    assert_eq!(r.duration_ms, 7);
    assert_eq!(
        r.outputs,
        vec![Some(value("one")), Some(value("two")), Some(value("three"))]
    );
}

#[test]
fn failure_is_isolated_to_the_failing_step() {
    let p = plan(vec![step("a", "bash", &[]), step("b", "bash", &[])]);
    let mut e = executor(10).start(p, &open_security()).unwrap();
    assert!(matches!(e.next_action(), Action::Dispatch(0)));
    assert!(matches!(e.next_action(), Action::Dispatch(1)));
    e.record(0, StepResult::Failure("boom".to_string()));
    // b keeps running and succeeds, untouched by a's failure.
    e.record(1, StepResult::Success(value("fine")));
    assert!(matches!(e.next_action(), Action::Done));
    let r = e.aggregate(1);
    assert!(!r.success);
    assert_eq!(r.outputs, vec![None, Some(value("fine"))]);
}

#[test]
fn dependent_of_failed_step_is_skipped_without_dispatch() {
    let p = plan(vec![step("a", "bash", &[]), step("c", "bash", &["a"])]);
    let mut e = executor(10).start(p, &open_security()).unwrap();
    assert!(matches!(e.next_action(), Action::Dispatch(0)));
    e.record(0, StepResult::Failure("boom".to_string()));
    // c is never dispatched: the engine marks it skipped.
    match e.next_action() {
        Action::Skip(1) => {}
        other => panic!("expected Skip(1), got {:?}", other),
    }
    assert!(matches!(e.next_action(), Action::Done));
    let r = e.aggregate(1);
    assert!(!r.success);
    assert_eq!(r.outputs, vec![None, None]);
}

#[test]
fn authorization_rejection_precedes_any_dispatch() {
    let p = plan(vec![step("a", "bash", &[]), step("b", "forbidden", &[])]);
    let security = SecurityManager::new(SecurityConfig {
        sandbox_mode: SandboxMode::Process,
        allowed_tools: vec!["bash".to_string()],
        denied_tools: vec![],
    });
    // No engine is built, so nothing can ever be dispatched.
    match executor(10).start(p, &security) {
        Err(ExecutionError::Authorization(_)) => {}
        _ => panic!("expected an authorization rejection"),
    }
}

#[test]
fn concurrency_cap_limits_steps_in_flight() {
    let p = plan(vec![
        step("a", "bash", &[]),
        step("b", "bash", &[]),
        step("c", "bash", &[]),
        step("d", "bash", &[]),
        step("e", "bash", &[]),
    ]);
    let mut e = executor(2).start(p, &open_security()).unwrap();
    assert!(matches!(e.next_action(), Action::Dispatch(0)));
    assert!(matches!(e.next_action(), Action::Dispatch(1)));
    // The cap of two is reached: no third dispatch before a completion.
    assert!(matches!(e.next_action(), Action::Wait));
    e.record(0, StepResult::Success(value("a")));
    assert!(matches!(e.next_action(), Action::Dispatch(2)));
    assert!(matches!(e.next_action(), Action::Wait));
    e.record(1, StepResult::Success(value("b")));
    e.record(2, StepResult::Success(value("c")));
    assert!(matches!(e.next_action(), Action::Dispatch(3)));
    assert!(matches!(e.next_action(), Action::Dispatch(4)));
    e.record(3, StepResult::Success(value("d")));
    e.record(4, StepResult::Success(value("e")));
    assert!(matches!(e.next_action(), Action::Done));
    assert!(e.aggregate(0).success);
}

#[test]
fn start_surfaces_graph_errors() {
    let p = plan(vec![step("a", "bash", &["a"])]);
    match executor(2).start(p, &open_security()) {
        Err(ExecutionError::Graph(GraphError::CycleDetected { step_ids })) => {
            assert_eq!(step_ids, vec!["a".to_string()]);
        }
        _ => panic!("expected a graph error"),
    }
}

#[test]
fn empty_plan_trivially_succeeds() {
    let p = plan(vec![]);
    let mut e = executor(10).start(p, &open_security()).unwrap();
    assert!(matches!(e.next_action(), Action::Done));
    let r = e.aggregate(0);
    assert!(r.success);
    assert!(r.outputs.is_empty());
    assert_eq!(r.duration_ms, 0);
}

#[test]
fn timeout_is_recorded_as_a_step_error() {
    let p = plan(vec![step("a", "bash", &[])]);
    let mut e = executor(10).start(p, &open_security()).unwrap();
    assert!(matches!(e.next_action(), Action::Dispatch(0)));
    e.record(0, StepResult::TimedOut);
    assert!(matches!(e.next_action(), Action::Done));
    let r = e.aggregate(3);
    assert!(!r.success);
    assert_eq!(r.outputs, vec![None]);
}

#[test]
fn later_batch_waits_for_the_whole_earlier_batch() {
    let p = plan(vec![
        step("a", "bash", &[]),
        step("b", "bash", &[]),
        step("c", "bash", &["a"]),
    ]);
    let mut e = executor(10).start(p, &open_security()).unwrap();
    assert!(matches!(e.next_action(), Action::Dispatch(0)));
    assert!(matches!(e.next_action(), Action::Dispatch(1)));
    e.record(0, StepResult::Success(value("a")));
    // a (c's only dependency) is done, but b of the same batch is still
    // in flight: batches run strictly in order.
    assert!(matches!(e.next_action(), Action::Wait));
    e.record(1, StepResult::Success(value("b")));
    assert!(matches!(e.next_action(), Action::Dispatch(2)));
    e.record(2, StepResult::Success(value("c")));
    assert!(matches!(e.next_action(), Action::Done));
}
