//! Capability-based authorization of execution plans.
//!
//! Before any step of a plan is dispatched, every tool it names is held
//! against an allowlist and a denylist. A rejection is raised before any
//! side effect occurs, and names the first offending step's tool.

use vstd::prelude::*;
use crate::planner::ExecutionPlan;

verus! {

/// How strongly tool processes are isolated. Advisory configuration for
/// the surrounding runtime; the engine itself only carries it.
#[derive(Clone, Copy, Debug, PartialEq, Eq, Structural)]
pub enum SandboxMode {
    Disabled,
    Process,
    Container,
    VM,
}

/// Policy: a tool may run iff it is on the allowlist (when the allowlist
/// is non-empty) and not on the denylist.
#[derive(Clone, Debug)]
pub struct SecurityConfig {
    pub sandbox_mode: SandboxMode,
    pub allowed_tools: Vec<String>,
    pub denied_tools: Vec<String>,
}

/// Why a plan was rejected: the named tool is missing from a non-empty
/// allowlist, or stands on the denylist.
#[derive(Debug)]
pub enum AuthorizationError {
    NotInAllowlist(String),
    Denied(String),
}

/// Whether some string in `v` has exactly the characters `s`.
pub open spec fn contains_str(v: Seq<String>, s: Seq<char>) -> bool {
    exists|i: int| 0 <= i < v.len() && v[i]@ == s
}

/// A non-empty allowlist that does not name the tool blocks it.
pub open spec fn blocked_by_allowlist(c: SecurityConfig, name: Seq<char>) -> bool {
    c.allowed_tools@.len() > 0 && !contains_str(c.allowed_tools@, name)
}

/// A denylist entry for the tool blocks it.
pub open spec fn blocked_by_denylist(c: SecurityConfig, name: Seq<char>) -> bool {
    contains_str(c.denied_tools@, name)
}

/// The policy's verdict on one tool name.
pub open spec fn tool_permitted(c: SecurityConfig, name: Seq<char>) -> bool {
    !blocked_by_allowlist(c, name) && !blocked_by_denylist(c, name)
}

/// The policy's verdict on a whole plan: every step's tool is permitted.
pub open spec fn plan_permitted(c: SecurityConfig, plan: ExecutionPlan) -> bool {
    forall|i: int|
        0 <= i < plan.steps@.len() ==> tool_permitted(c, plan.steps@[i].tool_name@)
}

/// Linear search for a string with exactly the characters of `s`.
fn vec_contains_string(v: &Vec<String>, s: &String) -> (r: bool)
    ensures
        r == contains_str(v@, s@),
{
    let n = v.len();
    for i in 0..n
        invariant
            n == v@.len(),
            forall|j: int| 0 <= j < i ==> v@[j]@ != s@,
    {
        if v[i].eq(s) {
            return true;
        }
    }
    false
}

impl Default for SecurityConfig {
    /// Process-level sandboxing; shell, file read and file write allowed;
    /// nothing denied.
    fn default() -> (c: SecurityConfig)
        ensures
            c.sandbox_mode == SandboxMode::Process,
            c.allowed_tools@.len() == 3,
            c.allowed_tools@[0]@ == "bash"@,
            c.allowed_tools@[1]@ == "read"@,
            c.allowed_tools@[2]@ == "write"@,
            c.denied_tools@.len() == 0,
    {
        SecurityConfig {
            sandbox_mode: SandboxMode::Process,
            allowed_tools: vec![
                String::from_str("bash"),
                String::from_str("read"),
                String::from_str("write"),
            ],
            denied_tools: Vec::new(),
        }
    }
}

/// Holds the policy and judges plans against it.
#[derive(Debug)]
pub struct SecurityManager {
    pub config: SecurityConfig,
}

impl SecurityManager {
    pub fn new(config: SecurityConfig) -> (m: SecurityManager)
        ensures
            m.config == config,
    {
        SecurityManager { config }
    }

    /// Authorize an execution plan: accepts iff every step's tool is
    /// permitted by the policy; otherwise rejects with the verdict on the
    /// first offending step, the allowlist consulted before the denylist.
    pub fn authorize(&self, plan: &ExecutionPlan) -> (r: Result<(), AuthorizationError>)
        ensures
            r is Ok <==> plan_permitted(self.config, *plan),
            r matches Err(e) ==> exists|i: int|
                {
                    &&& 0 <= i < plan.steps@.len()
                    &&& forall|j: int|
                        0 <= j < i ==> tool_permitted(self.config, plan.steps@[j].tool_name@)
                    &&& if blocked_by_allowlist(self.config, plan.steps@[i].tool_name@) {
                        e matches AuthorizationError::NotInAllowlist(n)
                            && n@ == plan.steps@[i].tool_name@
                    } else {
                        blocked_by_denylist(self.config, plan.steps@[i].tool_name@)
                            && (e matches AuthorizationError::Denied(n)
                            && n@ == plan.steps@[i].tool_name@)
                    }
                },
    {
        let n = plan.steps.len();
        for i in 0..n
            invariant
                n == plan.steps@.len(),
                forall|j: int| 0 <= j < i ==> tool_permitted(self.config, plan.steps@[j].tool_name@),
        {
            let name = &plan.steps[i].tool_name;
            if self.config.allowed_tools.len() > 0
                && !vec_contains_string(&self.config.allowed_tools, name) {
                return Err(AuthorizationError::NotInAllowlist(name.clone()));
            }
            if vec_contains_string(&self.config.denied_tools, name) {
                return Err(AuthorizationError::Denied(name.clone()));
            }
        }
        Ok(())
    }
}

} // verus!
