//! Dependency-aware plan execution engine.
//!
//! A task is decomposed into a plan of steps, each naming the steps it
//! depends on. The library validates the dependency relation (unknown
//! references, cycles), partitions the steps into maximal-parallelism
//! batches, tracks the life cycle of every step while a driver performs
//! the tool invocations, and aggregates the per-step outcomes into one
//! task result in declaration order.

use vstd::prelude::*;

pub mod executor;
pub mod graph;
pub mod jsonval;
pub mod planner;
pub mod security;
pub mod tools;

verus! {

/// A request to run one tool with structured parameters.
pub struct ToolCall {
    pub tool_name: String,
    pub parameters: serde_json::Value,
}

/// A task: an identifier, a human description, and the tool calls it needs.
pub struct Task {
    pub id: String,
    pub description: String,
    pub tool_calls: Vec<ToolCall>,
}

/// The immutable record of one finished execution. `outputs` holds one
/// slot per plan step, in declaration order; a step that produced no
/// value (it failed, timed out or was skipped) keeps its slot as `None`.
/// `success` is true iff no step's outcome carries an error.
pub struct TaskResult {
    pub task_id: String,
    pub success: bool,
    pub outputs: Vec<Option<serde_json::Value>>,
    pub duration_ms: u64,
}

/// Configuration of a whole runtime instance.
pub struct RuntimeConfig {
    pub memory_path: String,
    pub security: security::SecurityConfig,
    pub executor: executor::ExecutorConfig,
}

} // verus!
