//! Dependency-aware plan execution.
//!
//! The executor turns a validated plan into a sequence of decisions: which
//! step to dispatch next, when to wait for in-flight steps, when a step
//! must be skipped because a dependency failed, and when the plan is done.
//! A driver performs the actual tool invocations and reports each step's
//! result back; every scheduling decision and every state transition is
//! made here, so the ordering guarantees hold however the driver
//! interleaves completions. Batches run strictly in order, steps of one
//! batch are admitted in plan order, and at most `max_parallel` steps are
//! ever in flight.

use vstd::prelude::*;
use crate::TaskResult;
use crate::graph::{
    DependencyGraph, GraphError, all_deps_resolve, covered, deps_of, find_id, find_step_index,
    lemma_batch_partition, schedule_complete, uncovered_below,
};
use crate::planner::ExecutionPlan;
use crate::security::{AuthorizationError, SecurityManager, plan_permitted};

verus! {

/// Tunables of one executor instance.
#[derive(Debug, Clone)]
pub struct ExecutorConfig {
    /// Upper bound on the number of steps in flight at once.
    pub max_parallel: usize,
    /// Per-step timeout, used when a call gives no override.
    pub default_timeout_ms: u64,
}

impl Default for ExecutorConfig {
    /// Ten steps in flight at most; thirty seconds per step.
    fn default() -> (c: ExecutorConfig)
        ensures
            c.max_parallel == 10,
            c.default_timeout_ms == 30000,
    {
        ExecutorConfig { max_parallel: 10, default_timeout_ms: 30000 }
    }
}

impl ExecutorConfig {
    /// The timeout for one step: the per-call override when given, the
    /// configured default otherwise.
    pub fn timeout_for(&self, override_ms: Option<u64>) -> (t: u64)
        ensures
            t == match override_ms {
                Some(ms) => ms,
                None => self.default_timeout_ms,
            },
    {
        match override_ms {
            Some(ms) => ms,
            None => self.default_timeout_ms,
        }
    }
}

/// Life cycle of one step: created Pending, Running once dispatched,
/// terminal once its outcome is recorded.
#[derive(Debug, Clone)]
pub enum ExecutionStatus {
    Pending,
    Running,
    Completed,
    Failed(String),
}

/// What went wrong with one step. Local to the step: recorded, never
/// thrown, and never aborting sibling steps.
#[derive(Debug, Clone)]
pub enum StepError {
    ToolFailure(String),
    Timeout,
    SkippedDueToDependencyFailure,
}

/// The terminal result of one step: a value or an error, never both.
#[derive(Debug)]
pub struct StepOutcome {
    pub step_id: String,
    pub value: Option<serde_json::Value>,
    pub error: Option<StepError>,
}

/// What the driver reports for a dispatched step.
#[derive(Debug)]
pub enum StepResult {
    Success(serde_json::Value),
    Failure(String),
    TimedOut,
}

/// The executor's next decision for the driver.
#[derive(Debug)]
pub enum Action {
    /// Invoke the tool of the step at this plan position.
    Dispatch(usize),
    /// The step at this position was marked skipped (a dependency
    /// failed); nothing to invoke, ask again.
    Skip(usize),
    /// Steps are in flight; report one of their results first.
    Wait,
    /// Every step has a terminal outcome.
    Done,
}

/// A terminal status: the step's outcome is on record.
pub open spec fn terminal(s: ExecutionStatus) -> bool {
    s is Completed || s is Failed
}

/// How many statuses are Running.
pub open spec fn count_running(s: Seq<ExecutionStatus>) -> nat
    decreases s.len(),
{
    if s.len() == 0 {
        0
    } else {
        count_running(s.drop_last()) + if s.last() is Running {
            1nat
        } else {
            0nat
        }
    }
}

proof fn lemma_count_running_none(s: Seq<ExecutionStatus>)
    requires
        forall|i: int| 0 <= i < s.len() ==> !(#[trigger] s[i] is Running),
    ensures
        count_running(s) == 0,
    decreases s.len(),
{
    if s.len() > 0 {
        lemma_count_running_none(s.drop_last());
    }
}

proof fn lemma_count_running_update(s: Seq<ExecutionStatus>, i: int, v: ExecutionStatus)
    requires
        0 <= i < s.len(),
    ensures
        count_running(s.update(i, v)) == count_running(s) - (if s[i] is Running {
            1int
        } else {
            0int
        }) + (if v is Running {
            1int
        } else {
            0int
        }),
    decreases s.len(),
{
    let upd = s.update(i, v);
    if i == s.len() - 1 {
        assert(upd.drop_last() =~= s.drop_last());
    } else {
        assert(upd.drop_last() =~= s.drop_last().update(i, v));
        lemma_count_running_update(s.drop_last(), i, v);
    }
}

/// Whether every status named by `row` is Completed.
#[verifier::loop_isolation(false)]
fn row_all_completed(row: &Vec<usize>, statuses: &Vec<ExecutionStatus>) -> (r: bool)
    requires
        forall|t: int| 0 <= t < row@.len() ==> (#[trigger] row@[t]) < statuses@.len(),
    ensures
        r == (forall|t: int|
            0 <= t < row@.len() ==> statuses@[#[trigger] row@[t] as int] is Completed),
{
    let m = row.len();
    for t in 0..m
        invariant
            forall|t2: int| 0 <= t2 < t ==> statuses@[#[trigger] row@[t2] as int] is Completed,
    {
        let done = match &statuses[row[t]] {
            ExecutionStatus::Completed => true,
            _ => false,
        };
        if !done {
            return false;
        }
    }
    true
}

/// The state of one plan's execution: the validated graph, every step's
/// status and (once terminal) outcome, and the dispatch cursor. The graph
/// is never mutated after construction.
pub struct PlanExecution {
    pub plan: ExecutionPlan,
    pub graph: DependencyGraph,
    pub max_parallel: usize,
    pub default_timeout_ms: u64,
    pub statuses: Vec<ExecutionStatus>,
    pub outcomes: Vec<Option<StepOutcome>>,
    /// The batch currently being worked through.
    pub batch_ix: usize,
    /// The first position of the current batch not yet dispatched or
    /// skipped.
    pub next_in_batch: usize,
    /// How many steps are in flight.
    pub running: usize,
}

impl PlanExecution {
    /// Number of steps in the plan.
    pub open spec fn n(self) -> int {
        self.plan.steps@.len() as int
    }

    /// The scheduled batches.
    pub open spec fn bv(self) -> Seq<Seq<int>> {
        self.graph.batches_view()
    }

    /// The resolved dependency relation.
    pub open spec fn deps(self) -> Seq<Seq<int>> {
        deps_of(self.plan.steps@)
    }

    /// Batch positions strictly before the dispatch cursor.
    pub open spec fn decided_pos(self, k: int, t: int) -> bool {
        k < self.batch_ix || (k == self.batch_ix && t < self.next_in_batch)
    }

    /// Every step has a terminal outcome on record.
    pub open spec fn complete(self) -> bool {
        forall|i: int| 0 <= i < self.n() ==> (#[trigger] self.outcomes@[i]) is Some
    }

    /// The execution invariant.
    pub open spec fn wf(self) -> bool {
        &&& self.graph.wf()
        &&& self.graph.steps() == self.plan.steps@
        &&& self.statuses@.len() == self.n()
        &&& self.outcomes@.len() == self.n()
        &&& self.max_parallel >= 1
        &&& self.batch_ix <= self.bv().len()
        &&& (self.batch_ix < self.bv().len() ==> self.next_in_batch
            <= self.bv()[self.batch_ix as int].len())
        &&& (self.batch_ix == self.bv().len() ==> self.next_in_batch == 0)
        &&& self.running == count_running(self.statuses@)
        &&& self.running <= self.max_parallel
        // Statuses follow the cursor: steps in earlier batches are
        // terminal; steps before the cursor in the current batch are
        // dispatched or terminal; everything after is untouched.
        &&& forall|k: int, t: int|
            #![trigger self.bv()[k][t]]
            0 <= k < self.bv().len() && 0 <= t < self.bv()[k].len() ==> {
                if k < self.batch_ix {
                    terminal(self.statuses@[self.bv()[k][t]])
                } else if self.decided_pos(k, t) {
                    !(self.statuses@[self.bv()[k][t]] is Pending)
                } else {
                    self.statuses@[self.bv()[k][t]] is Pending
                }
            }
        // An outcome is on record exactly for the terminal steps, and it
        // matches the step and its status.
        &&& forall|i: int|
            0 <= i < self.n() ==> ((#[trigger] self.outcomes@[i]) is Some <==> terminal(
                self.statuses@[i],
            ))
        &&& forall|i: int|
            0 <= i < self.n() ==> match #[trigger] self.outcomes@[i] {
                Some(o) => {
                    &&& o.step_id@ == self.plan.steps@[i].id@
                    &&& (o.error is Some <==> self.statuses@[i] is Failed)
                    &&& (o.error is Some ==> o.value is None)
                    &&& (o.error is None ==> o.value is Some)
                },
                None => true,
            }
        // A step runs or succeeds only after all its dependencies
        // succeeded.
        &&& forall|i: int, j: int|
            #![trigger self.deps()[i][j]]
            0 <= i < self.n() && 0 <= j < self.deps()[i].len() && (self.statuses@[i] is Running
                || self.statuses@[i] is Completed) ==> 0 <= self.deps()[i][j] < self.n()
                && self.statuses@[self.deps()[i][j]] is Completed
        // A skipped step has a failed dependency.
        &&& forall|i: int|
            0 <= i < self.n() && ((#[trigger] self.outcomes@[i]) matches Some(o) && o.error
                == Some(StepError::SkippedDueToDependencyFailure)) ==> exists|j: int|
                0 <= j < self.deps()[i].len() && 0 <= #[trigger] self.deps()[i][j] < self.n()
                    && self.statuses@[self.deps()[i][j]] is Failed
    }
}

/// At most `max_parallel` steps are ever in flight.
pub proof fn lemma_concurrency_cap(e: PlanExecution)
    requires
        e.wf(),
    ensures
        count_running(e.statuses@) <= e.max_parallel,
{
}

/// An empty plan is complete as soon as it starts.
pub proof fn lemma_empty_plan_complete(e: PlanExecution)
    requires
        e.wf(),
        e.plan.steps@.len() == 0,
    ensures
        e.complete(),
{
}

proof fn lemma_count_running_pos(s: Seq<ExecutionStatus>, i: int)
    requires
        0 <= i < s.len(),
        s[i] is Running,
    ensures
        count_running(s) >= 1,
    decreases s.len(),
{
    if i < s.len() - 1 {
        lemma_count_running_pos(s.drop_last(), i);
    }
}

proof fn lemma_count_running_zero(s: Seq<ExecutionStatus>)
    requires
        count_running(s) == 0,
    ensures
        forall|i: int| 0 <= i < s.len() ==> !(#[trigger] s[i] is Running),
{
    assert forall|i: int| 0 <= i < s.len() implies !(#[trigger] s[i] is Running) by {
        if s[i] is Running {
            lemma_count_running_pos(s, i);
        }
    }
}

/// A structural validation or authorization failure: raised before any
/// step is dispatched.
#[derive(Debug)]
pub enum ExecutionError {
    Graph(GraphError),
    Authorization(AuthorizationError),
}

/// Holds the executor configuration and sets plan executions up.
#[derive(Debug)]
pub struct Executor {
    pub config: ExecutorConfig,
}

impl Executor {
    pub fn new(config: ExecutorConfig) -> (e: Executor)
        ensures
            e.config == config,
    {
        Executor { config }
    }

    /// Validate a plan and set its execution state up: every step Pending,
    /// nothing in flight, the cursor at the first batch.
    #[verifier::loop_isolation(false)]
    pub fn begin(&self, plan: ExecutionPlan) -> (r: Result<PlanExecution, GraphError>)
        requires
            self.config.max_parallel >= 1,
        ensures
            r is Ok <==> all_deps_resolve(plan.steps@) && schedule_complete(plan.steps@),
            r matches Ok(e) ==> {
                &&& e.wf()
                &&& e.plan == plan
                &&& e.max_parallel == self.config.max_parallel
                &&& e.default_timeout_ms == self.config.default_timeout_ms
                &&& e.running == 0
                &&& forall|i: int| 0 <= i < e.n() ==> (#[trigger] e.statuses@[i]) is Pending
                &&& forall|i: int| 0 <= i < e.n() ==> (#[trigger] e.outcomes@[i]) is None
            },
            r matches Err(GraphError::UnknownDependency { step_id, missing_id })
                ==> !all_deps_resolve(plan.steps@) && find_id(plan.steps@, missing_id@) == -1,
            r matches Err(GraphError::CycleDetected { step_ids }) ==> ({
                let u = uncovered_below(deps_of(plan.steps@), plan.steps@.len() as nat);
                &&& all_deps_resolve(plan.steps@)
                &&& u.len() > 0
                &&& step_ids@.len() == u.len()
                &&& forall|t: int|
                    0 <= t < u.len() ==> (#[trigger] step_ids@[t])@ == plan.steps@[u[t]].id@
            }),
    {
        let graph = match DependencyGraph::new(&plan) {
            Ok(g) => g,
            Err(e) => {
                return Err(e);
            },
        };
        let n = plan.steps.len();
        let mut statuses: Vec<ExecutionStatus> = Vec::new();
        let mut outcomes: Vec<Option<StepOutcome>> = Vec::new();
        let mut z: usize = 0;
        while z < n
            invariant
                z <= n,
                statuses@.len() == z,
                outcomes@.len() == z,
                forall|i: int| 0 <= i < z ==> (#[trigger] statuses@[i]) is Pending,
                forall|i: int| 0 <= i < z ==> (#[trigger] outcomes@[i]) is None,
            decreases n - z,
        {
            statuses.push(ExecutionStatus::Pending);
            outcomes.push(None);
            z += 1;
        }
        proof {
            lemma_count_running_none(statuses@);
        }
        let e = PlanExecution {
            plan,
            graph,
            max_parallel: self.config.max_parallel,
            default_timeout_ms: self.config.default_timeout_ms,
            statuses,
            outcomes,
            batch_ix: 0,
            next_in_batch: 0,
            running: 0,
        };
        proof {
            lemma_batch_partition(e.plan.steps@);
            assert forall|k: int, t: int|
                #![trigger e.bv()[k][t]]
                0 <= k < e.bv().len() && 0 <= t < e.bv()[k].len() implies e.statuses@[e.bv()[k][t]]
                is Pending by {
                assert(0 <= e.bv()[k][t] < e.n());
            }
        }
        Ok(e)
    }

    /// The full pre-dispatch pipeline: authorize the plan against the
    /// policy, then validate its dependency relation and set the execution
    /// up. A policy rejection aborts before anything is built, so no step
    /// of a disallowed plan can ever be dispatched.
    pub fn start(&self, plan: ExecutionPlan, security: &SecurityManager) -> (r: Result<
        PlanExecution,
        ExecutionError,
    >)
        requires
            self.config.max_parallel >= 1,
        ensures
            r is Ok <==> plan_permitted(security.config, plan) && all_deps_resolve(plan.steps@)
                && schedule_complete(plan.steps@),
            !plan_permitted(security.config, plan) ==> r matches Err(
                ExecutionError::Authorization(_),
            ),
            r matches Err(ExecutionError::Authorization(_)) ==> !plan_permitted(
                security.config,
                plan,
            ),
            r matches Err(ExecutionError::Graph(_)) ==> plan_permitted(security.config, plan) && !(
            all_deps_resolve(plan.steps@) && schedule_complete(plan.steps@)),
            r matches Ok(e) ==> {
                &&& e.wf()
                &&& e.plan == plan
                &&& e.max_parallel == self.config.max_parallel
                &&& e.default_timeout_ms == self.config.default_timeout_ms
                &&& e.running == 0
                &&& forall|i: int| 0 <= i < e.n() ==> (#[trigger] e.statuses@[i]) is Pending
            },
    {
        match security.authorize(&plan) {
            Err(a) => Err(ExecutionError::Authorization(a)),
            Ok(()) => match self.begin(plan) {
                Ok(e) => Ok(e),
                Err(g) => Err(ExecutionError::Graph(g)),
            },
        }
    }
}

impl PlanExecution {
    /// The next scheduling decision. Dispatches the first undecided step
    /// of the current batch when its dependencies all succeeded and a
    /// concurrency slot is free; marks it skipped when a dependency
    /// failed; waits while the batch is full or exhausted with steps in
    /// flight; reports Done when every step is terminal. A later batch
    /// never starts before every step of the current one is terminal.
    #[verifier::loop_isolation(false)]
    #[verifier::rlimit(100)]
    pub fn next_action(&mut self) -> (a: Action)
        requires
            old(self).wf(),
        ensures
            final(self).wf(),
            final(self).plan == old(self).plan,
            final(self).graph == old(self).graph,
            final(self).max_parallel == old(self).max_parallel,
            final(self).default_timeout_ms == old(self).default_timeout_ms,
            match a {
                Action::Dispatch(i) => {
                    &&& (i as int) < old(self).n()
                    &&& old(self).statuses@[i as int] is Pending
                    &&& final(self).statuses@ == old(self).statuses@.update(
                        i as int,
                        ExecutionStatus::Running,
                    )
                    &&& forall|j: int|
                        0 <= j < old(self).deps()[i as int].len() ==> old(self).statuses@[(
                        #[trigger] old(self).deps()[i as int][j])] is Completed
                    &&& old(self).running < old(self).max_parallel
                    &&& final(self).running == old(self).running + 1
                    &&& final(self).outcomes@ == old(self).outcomes@
                },
                Action::Skip(i) => {
                    &&& (i as int) < old(self).n()
                    &&& old(self).statuses@[i as int] is Pending
                    &&& final(self).statuses@[i as int] is Failed
                    &&& exists|j: int|
                        0 <= j < old(self).deps()[i as int].len() && old(self).statuses@[(
                        #[trigger] old(self).deps()[i as int][j])] is Failed
                    &&& (final(self).outcomes@[i as int] matches Some(o) && o.error == Some(
                        StepError::SkippedDueToDependencyFailure,
                    ) && o.value is None)
                    &&& final(self).running == old(self).running
                    &&& forall|x: int|
                        0 <= x < old(self).n() && x != i as int ==> final(self).statuses@[x] == old(
                            self,
                        ).statuses@[x] && final(self).outcomes@[x] == old(self).outcomes@[x]
                },
                Action::Wait => {
                    &&& final(self).statuses@ == old(self).statuses@
                    &&& final(self).outcomes@ == old(self).outcomes@
                    &&& final(self).running == old(self).running
                    &&& old(self).running > 0
                },
                Action::Done => {
                    &&& final(self).statuses@ == old(self).statuses@
                    &&& final(self).outcomes@ == old(self).outcomes@
                    &&& final(self).running == 0
                    &&& final(self).complete()
                },
            },
    {
        proof {
            lemma_batch_partition(self.plan.steps@);
        }
        let nbatches = self.graph.batches.len();
        // Close the current batch once everything in it is terminal.
        if self.batch_ix < nbatches {
            let cur_len = self.graph.batches[self.batch_ix].len();
            if self.next_in_batch == cur_len && self.running == 0 {
                proof {
                    lemma_count_running_zero(self.statuses@);
                }
                self.batch_ix += 1;
                self.next_in_batch = 0;
                proof {
                    assert forall|k: int, t: int|
                        #![trigger self.bv()[k][t]]
                        0 <= k < self.bv().len() && 0 <= t < self.bv()[k].len() && k
                            < self.batch_ix implies terminal(self.statuses@[self.bv()[k][t]]) by {
                        assert(!(self.statuses@[self.bv()[k][t]] is Pending));
                        assert(!(self.statuses@[self.bv()[k][t]] is Running));
                    }
                    assert(self.wf());
                }
            }
        }
        if self.batch_ix == nbatches {
            proof {
                assert forall|i: int| 0 <= i < self.n() implies terminal(
                    #[trigger] self.statuses@[i],
                ) by {
                    assert(covered(self.bv(), i));
                    let k = choose|k: int|
                        0 <= k < self.bv().len() && #[trigger] self.bv()[k].contains(i);
                    let t = choose|t: int|
                        0 <= t < self.bv()[k].len() && #[trigger] self.bv()[k][t] == i;
                    assert(terminal(self.statuses@[self.bv()[k][t]]));
                }
                lemma_count_running_none(self.statuses@);
            }
            return Action::Done;
        }
        let cur_len = self.graph.batches[self.batch_ix].len();
        proof {
            assert(self.bv()[self.batch_ix as int].len() == cur_len as int);
            assert(cur_len > 0);
        }
        if self.next_in_batch == cur_len {
            // The batch is fully dispatched but some steps are still in
            // flight: the advance above did not fire, so running > 0.
            return Action::Wait;
        }
        let step_ix = self.graph.batches[self.batch_ix][self.next_in_batch];
        proof {
            assert(self.bv()[self.batch_ix as int][self.next_in_batch as int] == step_ix as int);
            assert((step_ix as int) < self.n());
            assert(self.statuses@[step_ix as int] is Pending);
            assert(self.deps()[step_ix as int] == crate::graph::row_view(
                self.graph.preds@[step_ix as int],
            ));
        }
        let deps_ok = row_all_completed(&self.graph.preds[step_ix], &self.statuses);
        proof {
            let si = step_ix as int;
            let drow = self.deps()[si];
            assert(deps_ok == (forall|j: int|
                0 <= j < drow.len() ==> self.statuses@[#[trigger] drow[j]] is Completed)) by {
                let row = self.graph.preds@[si];
                assert forall|j: int| 0 <= j < row@.len() implies #[trigger] drow[j] == row@[j]
                    as int by {}
                if deps_ok {
                    assert forall|j: int| 0 <= j < drow.len() implies self.statuses@[(
                    #[trigger] drow[j])] is Completed by {
                        assert(self.statuses@[row@[j] as int] is Completed);
                    }
                } else {
                    let t = choose|t: int|
                        0 <= t < row@.len() && !(self.statuses@[(#[trigger] row@[t]) as int]
                            is Completed);
                    assert(!(self.statuses@[drow[t]] is Completed));
                }
            }
            assert(deps_ok == (forall|j: int|
                0 <= j < self.deps()[si].len() ==> self.statuses@[#[trigger] self.deps()[si][j]]
                    is Completed));
        }
        if deps_ok {
            if self.running < self.max_parallel {
                let ghost pre = self.statuses@;
                self.statuses[step_ix] = ExecutionStatus::Running;
                self.running += 1;
                self.next_in_batch += 1;
                proof {
                    lemma_count_running_update(pre, step_ix as int, ExecutionStatus::Running);
                    self.lemma_after_decide(pre, step_ix as int);
                }
                Action::Dispatch(step_ix)
            } else {
                Action::Wait
            }
        } else {
            // Some dependency is terminal but not Completed: it failed.
            let ghost pre = self.statuses@;
            let ghost deps = self.deps();
            proof {
                let si = step_ix as int;
                let drow = deps[si];
                let j = choose|j: int|
                    0 <= j < drow.len() && !(self.statuses@[#[trigger] drow[j]] is Completed);
                let d = drow[j];
                let k2 = choose|k2: int|
                    0 <= k2 < self.batch_ix as int && #[trigger] self.bv()[k2].contains(d);
                let t2 = choose|t2: int|
                    0 <= t2 < self.bv()[k2].len() && #[trigger] self.bv()[k2][t2] == d;
                assert(terminal(self.statuses@[d]));
                assert(self.statuses@[d] is Failed);
            }
            let reason = String::from_str("dependency failed");
            self.statuses[step_ix] = ExecutionStatus::Failed(reason);
            let outcome = StepOutcome {
                step_id: self.plan.steps[step_ix].id.clone(),
                value: None,
                error: Some(StepError::SkippedDueToDependencyFailure),
            };
            self.outcomes[step_ix] = Some(outcome);
            self.next_in_batch += 1;
            proof {
                lemma_count_running_update(
                    pre,
                    step_ix as int,
                    self.statuses@[step_ix as int],
                );
                self.lemma_after_decide(pre, step_ix as int);
            }
            Action::Skip(step_ix)
        }
    }

    /// Record the result the driver observed for a dispatched step. Only
    /// that step's status and outcome change: a failure neither cancels
    /// nor alters any sibling step (failure isolation).
    #[verifier::loop_isolation(false)]
    #[verifier::rlimit(100)]
    pub fn record(&mut self, step_ix: usize, result: StepResult)
        requires
            old(self).wf(),
            (step_ix as int) < old(self).n(),
            old(self).statuses@[step_ix as int] is Running,
        ensures
            final(self).wf(),
            final(self).plan == old(self).plan,
            final(self).graph == old(self).graph,
            final(self).max_parallel == old(self).max_parallel,
            final(self).default_timeout_ms == old(self).default_timeout_ms,
            final(self).batch_ix == old(self).batch_ix,
            final(self).next_in_batch == old(self).next_in_batch,
            final(self).running == old(self).running - 1,
            forall|x: int|
                0 <= x < old(self).n() && x != step_ix as int ==> final(self).statuses@[x] == old(
                    self,
                ).statuses@[x] && final(self).outcomes@[x] == old(self).outcomes@[x],
            final(self).outcomes@[step_ix as int] matches Some(o) && {
                &&& o.step_id@ == old(self).plan.steps@[step_ix as int].id@
                &&& (result matches StepResult::Success(v) ==> o.value == Some(v) && o.error
                    is None && final(self).statuses@[step_ix as int] is Completed)
                &&& (result matches StepResult::Failure(m) ==> o.value is None && o.error == Some(
                    StepError::ToolFailure(m),
                ) && final(self).statuses@[step_ix as int] is Failed)
                &&& (result is TimedOut ==> o.value is None && o.error == Some(StepError::Timeout)
                    && final(self).statuses@[step_ix as int] is Failed)
            },
    {
        let ghost pre = self.statuses@;
        let step_id = self.plan.steps[step_ix].id.clone();
        match result {
            StepResult::Success(v) => {
                self.statuses[step_ix] = ExecutionStatus::Completed;
                self.outcomes[step_ix] =
                    Some(StepOutcome { step_id, value: Some(v), error: None });
            },
            StepResult::Failure(m) => {
                self.statuses[step_ix] = ExecutionStatus::Failed(m.clone());
                self.outcomes[step_ix] =
                    Some(
                        StepOutcome { step_id, value: None, error: Some(StepError::ToolFailure(m)) },
                    );
            },
            StepResult::TimedOut => {
                self.statuses[step_ix] = ExecutionStatus::Failed(
                    String::from_str("step timed out"),
                );
                self.outcomes[step_ix] =
                    Some(StepOutcome { step_id, value: None, error: Some(StepError::Timeout) });
            },
        }
        proof {
            lemma_count_running_pos(pre, step_ix as int);
            lemma_count_running_update(pre, step_ix as int, self.statuses@[step_ix as int]);
        }
        self.running -= 1;
        proof {
            let si = step_ix as int;
            lemma_batch_partition(self.plan.steps@);
            // The decided step stays decided; nothing else moved.
            assert forall|k: int, t: int|
                #![trigger self.bv()[k][t]]
                0 <= k < self.bv().len() && 0 <= t < self.bv()[k].len() implies {
                if k < self.batch_ix {
                    terminal(self.statuses@[self.bv()[k][t]])
                } else if self.decided_pos(k, t) {
                    !(self.statuses@[self.bv()[k][t]] is Pending)
                } else {
                    self.statuses@[self.bv()[k][t]] is Pending
                }
            } by {
                if self.bv()[k][t] != si {
                    assert(self.statuses@[self.bv()[k][t]] == pre[self.bv()[k][t]]);
                } else {
                    // A Running step is neither in an earlier batch (those
                    // are terminal) nor beyond the cursor (those are
                    // Pending), so its position is decided; it is now
                    // terminal.
                    if k < self.batch_ix {
                        assert(terminal(pre[si]));
                        assert(false);
                    } else if !self.decided_pos(k, t) {
                        assert(pre[si] is Pending);
                        assert(false);
                    }
                }
            }
            // A Running step is never a dependency of a running or
            // completed step, so the dependency clause survives.
            assert forall|i: int, j: int|
                #![trigger self.deps()[i][j]]
                0 <= i < self.n() && 0 <= j < self.deps()[i].len() && (self.statuses@[i] is Running
                    || self.statuses@[i] is Completed) implies 0 <= self.deps()[i][j] < self.n()
                && self.statuses@[self.deps()[i][j]] is Completed by {
                if i == si {
                    assert(pre[i] is Running);
                    assert(pre[self.deps()[i][j]] is Completed);
                    assert(self.deps()[i][j] != si);
                } else {
                    assert(self.statuses@[i] == pre[i]);
                    assert(pre[self.deps()[i][j]] is Completed);
                    assert(self.deps()[i][j] != si);
                }
            }
            // Skip witnesses keep their failed dependency.
            assert forall|i: int|
                0 <= i < self.n() && ((#[trigger] self.outcomes@[i]) matches Some(o) && o.error
                    == Some(StepError::SkippedDueToDependencyFailure)) implies exists|j: int|
                0 <= j < self.deps()[i].len() && 0 <= #[trigger] self.deps()[i][j] < self.n()
                    && self.statuses@[self.deps()[i][j]] is Failed by {
                assert(i != si);
                let j = choose|j: int|
                    0 <= j < old(self).deps()[i].len() && 0 <= #[trigger] old(self).deps()[i][j]
                        < old(self).n() && pre[old(self).deps()[i][j]] is Failed;
                assert(self.deps()[i][j] != si);
                assert(self.statuses@[self.deps()[i][j]] is Failed);
            }
        }
    }

    /// Merge the recorded outcomes into one task result: one output slot
    /// per step in plan declaration order (independent of the order in
    /// which steps finished), overall success iff no step failed.
    #[verifier::loop_isolation(false)]
    pub fn aggregate(&self, duration_ms: u64) -> (r: TaskResult)
        requires
            self.wf(),
            self.complete(),
        ensures
            r.task_id@ == self.plan.task_id@,
            r.duration_ms == duration_ms,
            r.outputs@.len() == self.plan.steps@.len(),
            forall|i: int|
                0 <= i < r.outputs@.len() ==> match self.outcomes@[i] {
                    Some(o) => #[trigger] r.outputs@[i] == o.value,
                    None => true,
                },
            r.success == (forall|i: int|
                0 <= i < self.n() ==> ((#[trigger] self.outcomes@[i]) matches Some(o) ==> o.error
                    is None)),
    {
        let n = self.outcomes.len();
        let mut outputs: Vec<Option<serde_json::Value>> = Vec::new();
        let mut success = true;
        for i in 0..n
            invariant
                outputs@.len() == i,
                forall|x: int|
                    0 <= x < i ==> match self.outcomes@[x] {
                        Some(o) => #[trigger] outputs@[x] == o.value,
                        None => true,
                    },
                success == (forall|x: int|
                    0 <= x < i ==> ((#[trigger] self.outcomes@[x]) matches Some(o) ==> o.error
                        is None)),
        {
            match &self.outcomes[i] {
                Some(o) => {
                    match &o.value {
                        Some(v) => outputs.push(Some(v.clone())),
                        None => outputs.push(None),
                    }
                    if let Some(_) = &o.error {
                        success = false;
                    }
                },
                None => {
                    outputs.push(None);
                },
            }
        }
        TaskResult { task_id: self.plan.task_id.clone(), success, outputs, duration_ms }
    }

    /// Observability: the current status of the step at a plan position.
    pub fn get_status(&self, i: usize) -> (s: &ExecutionStatus)
        requires
            self.wf(),
            (i as int) < self.n(),
        ensures
            *s == self.statuses@[i as int],
    {
        &self.statuses[i]
    }

    /// Observability: the current status of the step with this id, if the
    /// plan has one.
    pub fn status_of(&self, step_id: &String) -> (s: Option<&ExecutionStatus>)
        requires
            self.wf(),
        ensures
            match s {
                Some(st) => find_id(self.plan.steps@, step_id@) >= 0 && *st == self.statuses@[
                    find_id(self.plan.steps@, step_id@)],
                None => find_id(self.plan.steps@, step_id@) == -1,
            },
    {
        match find_step_index(&self.plan.steps, step_id) {
            Some(i) => Some(&self.statuses[i]),
            None => None,
        }
    }

    /// Re-establish the positional part of the invariant after the step at
    /// the cursor was decided (dispatched or skipped) and the cursor moved
    /// one position on.
    proof fn lemma_after_decide(self, pre: Seq<ExecutionStatus>, i: int)
        requires
            self.graph.wf(),
            self.graph.steps() == self.plan.steps@,
            pre.len() == self.n(),
            self.statuses@ =~= pre.update(i, self.statuses@[i]),
            0 <= i < self.n(),
            self.batch_ix < self.bv().len(),
            0 < self.next_in_batch <= self.bv()[self.batch_ix as int].len(),
            self.bv()[self.batch_ix as int][self.next_in_batch - 1] == i,
            !(self.statuses@[i] is Pending),
            forall|k: int, t: int|
                #![trigger self.bv()[k][t]]
                0 <= k < self.bv().len() && 0 <= t < self.bv()[k].len() ==> {
                    if k < self.batch_ix {
                        terminal(pre[self.bv()[k][t]])
                    } else if k == self.batch_ix && t < self.next_in_batch - 1 {
                        !(pre[self.bv()[k][t]] is Pending)
                    } else {
                        pre[self.bv()[k][t]] is Pending
                    }
                },
        ensures
            forall|k: int, t: int|
                #![trigger self.bv()[k][t]]
                0 <= k < self.bv().len() && 0 <= t < self.bv()[k].len() ==> {
                    if k < self.batch_ix {
                        terminal(self.statuses@[self.bv()[k][t]])
                    } else if self.decided_pos(k, t) {
                        !(self.statuses@[self.bv()[k][t]] is Pending)
                    } else {
                        self.statuses@[self.bv()[k][t]] is Pending
                    }
                },
    {
        lemma_batch_partition(self.plan.steps@);
        assert forall|k: int, t: int|
            #![trigger self.bv()[k][t]]
            0 <= k < self.bv().len() && 0 <= t < self.bv()[k].len() implies {
            if k < self.batch_ix {
                terminal(self.statuses@[self.bv()[k][t]])
            } else if self.decided_pos(k, t) {
                !(self.statuses@[self.bv()[k][t]] is Pending)
            } else {
                self.statuses@[self.bv()[k][t]] is Pending
            }
        } by {
            if k == self.batch_ix as int && t == self.next_in_batch - 1 {
            } else {
                assert(self.bv()[k][t] != i);
                assert(self.statuses@[self.bv()[k][t]] == pre[self.bv()[k][t]]);
            }
        }
    }
}

} // verus!
