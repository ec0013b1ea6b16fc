//! Decomposition of a task into an execution plan.
//!
//! The planner is deliberately simple: one step per requested tool call,
//! in call order, each under a fresh sequential id and with no declared
//! dependencies. Richer planners are collaborators; the engine consumes
//! only the plan shape produced here.

use vstd::prelude::*;
use crate::Task;

verus! {

/// One unit of work: a tool to run, its parameters, and the ids of the
/// steps whose results it needs.
pub struct ExecutionStep {
    pub id: String,
    pub tool_name: String,
    pub parameters: serde_json::Value,
    pub dependencies: Vec<String>,
}

/// A task decomposed into steps with declared inter-step dependencies.
pub struct ExecutionPlan {
    pub task_id: String,
    pub steps: Vec<ExecutionStep>,
}

/// The characters of the fresh id given to the step at position `i`.
pub uninterp spec fn step_id_seq(i: nat) -> Seq<char>;

/// Relies on std's format macro: renders "step-" followed by the decimal
/// digits of `i`, a function of `i` alone.
#[verifier::external_body]
fn step_id_string(i: usize) -> (r: String)
    ensures
        r@ == step_id_seq(i as nat),
{
    format!("step-{}", i)
}

/// Turns tasks into execution plans.
#[derive(Debug)]
pub struct Planner {}

impl Planner {
    pub fn new() -> (p: Planner) {
        Planner {}
    }

    /// Decompose a task: one step per tool call, in call order, with fresh
    /// sequential ids and no dependencies.
    pub fn plan(&self, task: &Task) -> (p: ExecutionPlan)
        ensures
            p.task_id@ == task.id@,
            p.steps@.len() == task.tool_calls@.len(),
            forall|i: int|
                0 <= i < p.steps@.len() ==> {
                    &&& p.steps@[i].id@ == step_id_seq(i as nat)
                    &&& p.steps@[i].tool_name@ == task.tool_calls@[i].tool_name@
                    &&& p.steps@[i].parameters == task.tool_calls@[i].parameters
                    &&& p.steps@[i].dependencies@.len() == 0
                },
    {
        let mut steps: Vec<ExecutionStep> = Vec::new();
        let n = task.tool_calls.len();
        for i in 0..n
            invariant
                n == task.tool_calls@.len(),
                steps@.len() == i,
                forall|j: int|
                    0 <= j < i ==> {
                        &&& steps@[j].id@ == step_id_seq(j as nat)
                        &&& steps@[j].tool_name@ == task.tool_calls@[j].tool_name@
                        &&& steps@[j].parameters == task.tool_calls@[j].parameters
                        &&& steps@[j].dependencies@.len() == 0
                    },
        {
            let call = &task.tool_calls[i];
            steps.push(ExecutionStep {
                id: step_id_string(i),
                tool_name: call.tool_name.clone(),
                parameters: call.parameters.clone(),
                dependencies: Vec::new(),
            });
        }
        ExecutionPlan { task_id: task.id.clone(), steps }
    }
}

impl Default for Planner {
    fn default() -> (p: Planner) {
        Planner::new()
    }
}

} // verus!
