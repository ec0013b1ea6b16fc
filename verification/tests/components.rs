//! Unit tests of the planner, the security policy, the tool registry and
//! the executor configuration.

use nova_core::executor::{Action, Executor, ExecutorConfig, ExecutionStatus, StepResult};
use nova_core::planner::{ExecutionPlan, ExecutionStep, Planner};
use nova_core::security::{AuthorizationError, SecurityConfig, SecurityManager, SandboxMode};
use nova_core::tools::{ToolDefinition, ToolRegistry};
use nova_core::{Task, ToolCall};

fn plan_with_tools(tools: &[&str]) -> ExecutionPlan {
    ExecutionPlan {
        task_id: "t".to_string(),
        steps: tools
            .iter()
            .enumerate()
            .map(|(i, t)| ExecutionStep {
                id: format!("s{}", i),
                tool_name: t.to_string(),
                parameters: serde_json::Value::Null,
                dependencies: vec![],
            })
            .collect(),
    }
}

#[test]
fn planner_maps_tool_calls_in_order() {
    let task = Task {
        id: "task-42".to_string(),
        description: "demo".to_string(),
        tool_calls: vec![
            ToolCall { tool_name: "bash".to_string(), parameters: serde_json::Value::Bool(true) },
            ToolCall {
                tool_name: "read".to_string(),
                parameters: serde_json::Value::String("f".to_string()),
            },
        ],
    };
    let plan = Planner::new().plan(&task);
    assert_eq!(plan.task_id, "task-42");
    assert_eq!(plan.steps.len(), 2);
    assert_eq!(plan.steps[0].id, "step-0");
    assert_eq!(plan.steps[1].id, "step-1");
    assert_eq!(plan.steps[0].tool_name, "bash");
    assert_eq!(plan.steps[1].tool_name, "read");
    assert_eq!(plan.steps[0].parameters, serde_json::Value::Bool(true));
    assert!(plan.steps[0].dependencies.is_empty());
    assert!(plan.steps[1].dependencies.is_empty());
}

#[test]
fn security_default_allows_the_builtins() {
    let c = SecurityConfig::default();
    assert!(matches!(c.sandbox_mode, SandboxMode::Process));
    assert_eq!(c.allowed_tools, vec!["bash", "read", "write"]);
    assert!(c.denied_tools.is_empty());
}

#[test]
fn authorize_accepts_allowlisted_tools() {
    let m = SecurityManager::new(SecurityConfig::default());
    assert!(m.authorize(&plan_with_tools(&["bash", "read"])).is_ok());
}

#[test]
fn authorize_rejects_tool_missing_from_allowlist() {
    let m = SecurityManager::new(SecurityConfig::default());
    match m.authorize(&plan_with_tools(&["bash", "curl"])) {
        Err(AuthorizationError::NotInAllowlist(name)) => assert_eq!(name, "curl"),
        _ => panic!("expected NotInAllowlist"),
    }
}

#[test]
fn authorize_rejects_denied_tool_even_with_open_allowlist() {
    let m = SecurityManager::new(SecurityConfig {
        sandbox_mode: SandboxMode::Disabled,
        allowed_tools: vec![],
        denied_tools: vec!["rm".to_string()],
    });
    match m.authorize(&plan_with_tools(&["bash", "rm"])) {
        Err(AuthorizationError::Denied(name)) => assert_eq!(name, "rm"),
        _ => panic!("expected Denied"),
    }
}

#[test]
fn empty_plan_is_always_authorized() {
    let m = SecurityManager::new(SecurityConfig {
        sandbox_mode: SandboxMode::Process,
        allowed_tools: vec!["nothing".to_string()],
        denied_tools: vec![],
    });
    assert!(m.authorize(&plan_with_tools(&[])).is_ok());
}

#[test]
fn registry_holds_the_builtin_tools() {
    let r = ToolRegistry::new();
    let bash = r.get("bash").expect("bash is built in");
    assert_eq!(bash.name, "bash");
    assert_eq!(bash.permissions, vec!["process"]);
    let read = r.get("read").expect("read is built in");
    assert_eq!(read.permissions, vec!["filesystem:read"]);
    assert!(r.get("write").is_none());
}

#[test]
fn registry_register_adds_and_replaces() {
    let mut r = ToolRegistry::new();
    r.register(ToolDefinition {
        name: "write".to_string(),
        description: "Write file contents".to_string(),
        parameters_schema: serde_json::Value::Null,
        permissions: vec!["filesystem:write".to_string()],
    });
    assert_eq!(r.get("write").unwrap().permissions, vec!["filesystem:write"]);
    r.register(ToolDefinition {
        name: "write".to_string(),
        description: "Write file contents".to_string(),
        parameters_schema: serde_json::Value::Null,
        permissions: vec!["filesystem:write", "filesystem:create"]
            .into_iter()
            .map(|s| s.to_string())
            .collect(),
    });
    assert_eq!(r.get("write").unwrap().permissions.len(), 2);
    // Replacement keeps the registry at one entry per name.
    assert_eq!(r.tools.len(), 3);
}

#[test]
fn executor_config_defaults() {
    let c = ExecutorConfig::default();
    assert_eq!(c.max_parallel, 10);
    assert_eq!(c.default_timeout_ms, 30000);
}

#[test]
fn timeout_override_wins_over_default() {
    let c = ExecutorConfig::default();
    assert_eq!(c.timeout_for(None), 30000);
    assert_eq!(c.timeout_for(Some(500)), 500);
}

#[test]
fn statuses_are_observable_by_id() {
    let plan = plan_with_tools(&["bash", "bash"]);
    let security = SecurityManager::new(SecurityConfig {
        sandbox_mode: SandboxMode::Process,
        allowed_tools: vec![],
        denied_tools: vec![],
    });
    let mut e = Executor::new(ExecutorConfig::default()).start(plan, &security).unwrap();
    assert!(matches!(e.status_of(&"s0".to_string()), Some(ExecutionStatus::Pending)));
    assert!(matches!(e.next_action(), Action::Dispatch(0)));
    assert!(matches!(e.status_of(&"s0".to_string()), Some(ExecutionStatus::Running)));
    e.record(0, StepResult::Success(serde_json::Value::Null));
    assert!(matches!(e.status_of(&"s0".to_string()), Some(ExecutionStatus::Completed)));
    assert!(matches!(e.get_status(1), ExecutionStatus::Pending));
    assert!(e.status_of(&"missing".to_string()).is_none());
}
