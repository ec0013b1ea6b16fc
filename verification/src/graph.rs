//! Dependency graph building and batch scheduling.
//!
//! A plan's steps name their dependencies by step id. Building the graph
//! resolves every id to a step position (rejecting unknown ids), and
//! partitions the steps into batches: each batch is the set of steps, in
//! plan order, whose dependencies all lie in strictly earlier batches. If
//! the relation has a cycle, the steps left over after batching are
//! reported. The whole construction is a pure function of the plan, so
//! scheduling is deterministic.

use vstd::prelude::*;
use crate::planner::{ExecutionPlan, ExecutionStep};

verus! {

/// Why a plan's dependency relation was rejected.
#[derive(Debug)]
pub enum GraphError {
    /// `step_id` declares a dependency on `missing_id`, which names no
    /// step of the plan.
    UnknownDependency { step_id: String, missing_id: String },
    /// The steps with these ids (in plan order) could not be batched:
    /// each of them sits on or behind a dependency cycle.
    CycleDetected { step_ids: Vec<String> },
}

/// Position of the first step at or after `k` whose id has the characters
/// `id`; -1 if there is none.
pub open spec fn find_id_from(steps: Seq<ExecutionStep>, id: Seq<char>, k: int) -> int
    decreases steps.len() - k,
    when 0 <= k <= steps.len()
{
    if k >= steps.len() {
        -1
    } else if steps[k].id@ == id {
        k
    } else {
        find_id_from(steps, id, k + 1)
    }
}

/// Position of the first step whose id has the characters `id`; -1 if none.
pub open spec fn find_id(steps: Seq<ExecutionStep>, id: Seq<char>) -> int {
    find_id_from(steps, id, 0)
}

/// The dependencies of step `i`, resolved to step positions (-1 marks an
/// id that resolves to no step).
pub open spec fn dep_indices(steps: Seq<ExecutionStep>, i: int) -> Seq<int> {
    Seq::new(steps[i].dependencies@.len(), |j: int| find_id(steps, steps[i].dependencies@[j]@))
}

/// The whole resolved dependency relation, step by step.
pub open spec fn deps_of(steps: Seq<ExecutionStep>) -> Seq<Seq<int>> {
    Seq::new(steps.len(), |i: int| dep_indices(steps, i))
}

/// Every dependency id of step `i` names a step of the plan.
pub open spec fn step_resolves(steps: Seq<ExecutionStep>, i: int) -> bool {
    forall|j: int| 0 <= j < dep_indices(steps, i).len() ==> dep_indices(steps, i)[j] >= 0
}

/// Every dependency id of every step names a step of the plan.
pub open spec fn all_deps_resolve(steps: Seq<ExecutionStep>) -> bool {
    forall|i: int| 0 <= i < steps.len() ==> step_resolves(steps, i)
}

/// Step `i` may join the next batch: not yet scheduled, and every
/// dependency already scheduled.
pub open spec fn is_ready(deps: Seq<Seq<int>>, done: Seq<bool>, i: int) -> bool {
    &&& 0 <= i < done.len()
    &&& !done[i]
    &&& forall|j: int|
        0 <= j < deps[i].len() ==> 0 <= #[trigger] deps[i][j] < done.len() && done[deps[i][j]]
}

/// The ready step positions below `k`, ascending.
pub open spec fn ready_below(deps: Seq<Seq<int>>, done: Seq<bool>, k: nat) -> Seq<int>
    decreases k,
{
    if k == 0 {
        Seq::empty()
    } else if is_ready(deps, done, k - 1) {
        ready_below(deps, done, (k - 1) as nat) + seq![k - 1]
    } else {
        ready_below(deps, done, (k - 1) as nat)
    }
}

/// `done` with every position of `b` additionally marked scheduled.
pub open spec fn mark(done: Seq<bool>, b: Seq<int>) -> Seq<bool> {
    Seq::new(done.len(), |i: int| done[i] || b.contains(i))
}

/// How many positions are still unscheduled.
pub open spec fn num_unmarked(done: Seq<bool>) -> nat
    decreases done.len(),
{
    if done.len() == 0 {
        0
    } else {
        num_unmarked(done.drop_last()) + if done.last() {
            0nat
        } else {
            1nat
        }
    }
}

/// The batch sequence from a partial state: the ready steps form the next
/// batch; scheduling stops when no step is ready.
pub open spec fn batches_from(deps: Seq<Seq<int>>, done: Seq<bool>) -> Seq<Seq<int>>
    decreases num_unmarked(done),
    when done.len() == deps.len()
    via batches_from_decreases
{
    let b = ready_below(deps, done, done.len() as nat);
    if b.len() == 0 {
        Seq::empty()
    } else {
        seq![b] + batches_from(deps, mark(done, b))
    }
}

#[via_fn]
proof fn batches_from_decreases(deps: Seq<Seq<int>>, done: Seq<bool>) {
    let b = ready_below(deps, done, done.len() as nat);
    if b.len() != 0 {
        lemma_ready_below(deps, done, done.len() as nat);
        let w = b[0];
        assert(mark(done, b)[w]) by {
            assert(b.contains(w));
        }
        lemma_num_unmarked_mono_strict(done, mark(done, b), w);
    }
}

/// The batch sequence of a fully unscheduled plan with dependency
/// relation `deps`.
pub open spec fn spec_batches(deps: Seq<Seq<int>>) -> Seq<Seq<int>> {
    batches_from(deps, Seq::new(deps.len(), |i: int| false))
}

/// Position `i` appears in some batch of `bs`.
pub open spec fn covered(bs: Seq<Seq<int>>, i: int) -> bool {
    exists|k: int| 0 <= k < bs.len() && #[trigger] bs[k].contains(i)
}

/// Every step of the plan lands in a batch: the relation is acyclic.
pub open spec fn schedule_complete(steps: Seq<ExecutionStep>) -> bool {
    forall|i: int| 0 <= i < steps.len() ==> covered(spec_batches(deps_of(steps)), i)
}

/// The step positions below `k` left out of every batch, ascending.
pub open spec fn uncovered_below(deps: Seq<Seq<int>>, k: nat) -> Seq<int>
    decreases k,
{
    if k == 0 {
        Seq::empty()
    } else if !covered(spec_batches(deps), k - 1) {
        uncovered_below(deps, (k - 1) as nat) + seq![k - 1]
    } else {
        uncovered_below(deps, (k - 1) as nat)
    }
}

/// The positions of the steps that depend on step `i`, below `k`,
/// ascending.
pub open spec fn succs_below(deps: Seq<Seq<int>>, i: int, k: nat) -> Seq<int>
    decreases k,
{
    if k == 0 {
        Seq::empty()
    } else if deps[k - 1].contains(i) {
        succs_below(deps, i, (k - 1) as nat) + seq![k - 1]
    } else {
        succs_below(deps, i, (k - 1) as nat)
    }
}

/// A dependency row as scheduling sees it.
pub open spec fn row_view(v: Vec<usize>) -> Seq<int> {
    v@.map_values(|u: usize| u as int)
}

/// A batch list as scheduling sees it.
pub open spec fn batches_view_of(b: Seq<Vec<usize>>) -> Seq<Seq<int>> {
    b.map_values(|r: Vec<usize>| row_view(r))
}

// ------------------------------------------------------------------
// Lemmas about the spec-level schedule.
// ------------------------------------------------------------------

proof fn lemma_find_id_from(steps: Seq<ExecutionStep>, id: Seq<char>, k: int)
    requires
        0 <= k <= steps.len(),
    ensures
        ({
            let f = find_id_from(steps, id, k);
            ||| (f == -1 && forall|t: int| k <= t < steps.len() ==> steps[t].id@ != id)
            ||| (k <= f < steps.len() && steps[f].id@ == id && forall|t: int|
                k <= t < f ==> steps[t].id@ != id)
        }),
    decreases steps.len() - k,
{
    if k < steps.len() && steps[k].id@ != id {
        lemma_find_id_from(steps, id, k + 1);
    }
}

proof fn lemma_num_unmarked_update(done: Seq<bool>, i: int)
    requires
        0 <= i < done.len(),
        !done[i],
    ensures
        num_unmarked(done.update(i, true)) + 1 == num_unmarked(done),
    decreases done.len(),
{
    let upd = done.update(i, true);
    if i == done.len() - 1 {
        assert(upd.drop_last() =~= done.drop_last());
    } else {
        assert(upd.drop_last() =~= done.drop_last().update(i, true));
        lemma_num_unmarked_update(done.drop_last(), i);
    }
}

proof fn lemma_num_unmarked_pos(done: Seq<bool>, i: int)
    requires
        0 <= i < done.len(),
        !done[i],
    ensures
        num_unmarked(done) >= 1,
    decreases done.len(),
{
    if i < done.len() - 1 {
        lemma_num_unmarked_pos(done.drop_last(), i);
    }
}

proof fn lemma_num_unmarked_zero(done: Seq<bool>)
    requires
        num_unmarked(done) == 0,
    ensures
        forall|i: int| 0 <= i < done.len() ==> done[i],
{
    assert forall|i: int| 0 <= i < done.len() implies done[i] by {
        if !done[i] {
            lemma_num_unmarked_pos(done, i);
        }
    }
}

proof fn lemma_num_unmarked_mono(a: Seq<bool>, b: Seq<bool>)
    requires
        a.len() == b.len(),
        forall|x: int| 0 <= x < a.len() ==> (a[x] ==> b[x]),
    ensures
        num_unmarked(b) <= num_unmarked(a),
    decreases a.len(),
{
    if a.len() > 0 {
        lemma_num_unmarked_mono(a.drop_last(), b.drop_last());
    }
}

proof fn lemma_num_unmarked_mono_strict(a: Seq<bool>, b: Seq<bool>, w: int)
    requires
        a.len() == b.len(),
        forall|x: int| 0 <= x < a.len() ==> (a[x] ==> b[x]),
        0 <= w < a.len(),
        !a[w],
        b[w],
    ensures
        num_unmarked(b) < num_unmarked(a),
    decreases a.len(),
{
    if w == a.len() - 1 {
        lemma_num_unmarked_mono(a.drop_last(), b.drop_last());
    } else {
        lemma_num_unmarked_mono_strict(a.drop_last(), b.drop_last(), w);
    }
}

proof fn lemma_ready_below(deps: Seq<Seq<int>>, done: Seq<bool>, k: nat)
    ensures
        ({
            let rb = ready_below(deps, done, k);
            &&& forall|t: int|
                0 <= t < rb.len() ==> 0 <= #[trigger] rb[t] < k && is_ready(deps, done, rb[t])
            &&& forall|t1: int, t2: int| 0 <= t1 < t2 < rb.len() ==> rb[t1] < rb[t2]
            &&& forall|i: int| 0 <= i < k && is_ready(deps, done, i) ==> rb.contains(i)
        }),
    decreases k,
{
    if k > 0 {
        lemma_ready_below(deps, done, (k - 1) as nat);
        let prev = ready_below(deps, done, (k - 1) as nat);
        let rb = ready_below(deps, done, k);
        assert forall|i: int| 0 <= i < k && is_ready(deps, done, i) implies rb.contains(i) by {
            if i < k - 1 {
                assert(prev.contains(i));
                let t = choose|t: int| 0 <= t < prev.len() && prev[t] == i;
                assert(rb[t] == i);
            } else {
                assert(rb[rb.len() - 1] == i);
            }
        }
    }
}

/// Structural facts about every batch sequence: batches are non-empty,
/// ascending, within range, disjoint, made of unscheduled steps, and a
/// batched step's dependencies are already scheduled or lie in a strictly
/// earlier batch.
proof fn lemma_batches_from_props(deps: Seq<Seq<int>>, done: Seq<bool>)
    requires
        done.len() == deps.len(),
    ensures
        ({
            let bs = batches_from(deps, done);
            &&& forall|k: int| 0 <= k < bs.len() ==> #[trigger] bs[k].len() > 0
            &&& forall|k: int, t: int|
                0 <= k < bs.len() && 0 <= t < bs[k].len() ==> 0 <= #[trigger] bs[k][t]
                    < deps.len() && !done[bs[k][t]]
            &&& forall|k: int, t1: int, t2: int|
                0 <= k < bs.len() && 0 <= t1 < t2 < bs[k].len() ==> #[trigger] bs[k][t1]
                    < #[trigger] bs[k][t2]
            &&& forall|k1: int, t1: int, k2: int, t2: int|
                0 <= k1 < bs.len() && 0 <= t1 < bs[k1].len() && 0 <= k2 < bs.len() && 0 <= t2
                    < bs[k2].len() && (k1 != k2 || t1 != t2) ==> #[trigger] bs[k1][t1]
                    != #[trigger] bs[k2][t2]
            &&& forall|k: int, t: int, j: int|
                0 <= k < bs.len() && 0 <= t < bs[k].len() && 0 <= j < deps[bs[k][t]].len()
                    ==> 0 <= #[trigger] deps[bs[k][t]][j] < deps.len() && (done[deps[bs[k][t]][j]]
                    || exists|k2: int| 0 <= k2 < k && #[trigger] bs[k2].contains(
                    deps[bs[k][t]][j],
                ))
        }),
    decreases num_unmarked(done),
{
    let b = ready_below(deps, done, done.len() as nat);
    lemma_ready_below(deps, done, done.len() as nat);
    if b.len() != 0 {
        let done2 = mark(done, b);
        let w = b[0];
        assert(done2[w]) by {
            assert(b.contains(w));
        }
        lemma_num_unmarked_mono_strict(done, done2, w);
        lemma_batches_from_props(deps, done2);
        let rest = batches_from(deps, done2);
        let bs = batches_from(deps, done);
        assert(bs == seq![b] + rest);
        assert(bs[0] == b);
        assert forall|k: int| 1 <= k < bs.len() implies bs[k] == rest[k - 1] by {}
        // batch 0 elements are ready now; later elements were unscheduled
        // after the marking, hence not in b and not scheduled before.
        assert forall|k: int, t: int|
            0 <= k < bs.len() && 0 <= t < bs[k].len() implies 0 <= #[trigger] bs[k][t]
            < deps.len() && !done[bs[k][t]] by {
            if k >= 1 {
                assert(!done2[bs[k][t]]);
            }
        }
        assert forall|k1: int, t1: int, k2: int, t2: int|
            0 <= k1 < bs.len() && 0 <= t1 < bs[k1].len() && 0 <= k2 < bs.len() && 0 <= t2
                < bs[k2].len() && (k1 != k2 || t1 != t2) implies #[trigger] bs[k1][t1]
            != #[trigger] bs[k2][t2] by {
            if k1 == 0 && k2 >= 1 {
                assert(!done2[bs[k2][t2]]);
                assert(b.contains(bs[k1][t1]));
            } else if k2 == 0 && k1 >= 1 {
                assert(!done2[bs[k1][t1]]);
                assert(b.contains(bs[k2][t2]));
            }
        }
        assert forall|k: int, t: int, j: int|
            0 <= k < bs.len() && 0 <= t < bs[k].len() && 0 <= j < deps[bs[k][t]].len()
                implies 0 <= #[trigger] deps[bs[k][t]][j] < deps.len() && (done[deps[bs[k][t]][j]]
            || exists|k2: int| 0 <= k2 < k && #[trigger] bs[k2].contains(deps[bs[k][t]][j])) by {
            let d = deps[bs[k][t]][j];
            if k == 0 {
                assert(is_ready(deps, done, bs[0][t]));
                assert(0 <= d < deps.len() && done[d]);
            } else {
                assert(0 <= j < deps[rest[k - 1][t]].len());
                assert(0 <= deps[rest[k - 1][t]][j] < deps.len() && (done2[deps[rest[k - 1][t]][j]]
                    || exists|k2: int|
                    0 <= k2 < k - 1 && #[trigger] rest[k2].contains(deps[rest[k - 1][t]][j])));
                if done2[d] {
                    if !done[d] {
                        // d was marked by batch 0
                        assert(b.contains(d));
                        assert(bs[0].contains(d));
                        assert(exists|k2: int| 0 <= k2 < k && #[trigger] bs[k2].contains(d));
                    }
                } else {
                    let k2 = choose|k2: int| 0 <= k2 < k - 1 && #[trigger] rest[k2].contains(d);
                    assert(bs[k2 + 1] == rest[k2]);
                    assert(bs[k2 + 1].contains(d));
                }
            }
        }
    }
}

/// The schedule partitions the steps: every step position appears in
/// exactly one batch position, batches are non-empty and ascending, and
/// every dependency of a batched step lies in a strictly earlier batch.
pub proof fn lemma_batch_partition(steps: Seq<ExecutionStep>)
    requires
        schedule_complete(steps),
    ensures
        ({
            let bs = spec_batches(deps_of(steps));
            &&& forall|i: int| 0 <= i < steps.len() ==> covered(bs, i)
            &&& forall|k: int| 0 <= k < bs.len() ==> #[trigger] bs[k].len() > 0
            &&& forall|k: int, t: int|
                0 <= k < bs.len() && 0 <= t < bs[k].len() ==> 0 <= #[trigger] bs[k][t]
                    < steps.len()
            &&& forall|k: int, t1: int, t2: int|
                0 <= k < bs.len() && 0 <= t1 < t2 < bs[k].len() ==> #[trigger] bs[k][t1]
                    < #[trigger] bs[k][t2]
            &&& forall|k1: int, t1: int, k2: int, t2: int|
                0 <= k1 < bs.len() && 0 <= t1 < bs[k1].len() && 0 <= k2 < bs.len() && 0 <= t2
                    < bs[k2].len() && (k1 != k2 || t1 != t2) ==> #[trigger] bs[k1][t1]
                    != #[trigger] bs[k2][t2]
            &&& forall|k: int, t: int, j: int|
                #![trigger deps_of(steps)[bs[k][t]][j]]
                0 <= k < bs.len() && 0 <= t < bs[k].len() && 0 <= j
                    < deps_of(steps)[bs[k][t]].len() ==> 0 <= deps_of(steps)[bs[k][t]][j]
                    < steps.len() && exists|k2: int|
                    0 <= k2 < k && #[trigger] bs[k2].contains(deps_of(steps)[bs[k][t]][j])
        }),
{
    let deps = deps_of(steps);
    let done0 = Seq::new(deps.len(), |i: int| false);
    lemma_batches_from_props(deps, done0);
    let bs = spec_batches(deps);
    assert forall|k: int, t: int, j: int|
        #![trigger deps_of(steps)[bs[k][t]][j]]
        0 <= k < bs.len() && 0 <= t < bs[k].len() && 0 <= j < deps_of(steps)[bs[k][t]].len()
            implies 0 <= deps_of(steps)[bs[k][t]][j] < steps.len() && exists|k2: int|
        0 <= k2 < k && #[trigger] bs[k2].contains(deps_of(steps)[bs[k][t]][j]) by {
        let d = deps[bs[k][t]][j];
        assert(0 <= d < deps.len() && (done0[d] || exists|k2: int|
            0 <= k2 < k && #[trigger] bs[k2].contains(d)));
        assert(!done0[d]);
    }
}

/// Like `lemma_ready_below`, for the steps left uncovered by the schedule.
proof fn lemma_uncovered_below(deps: Seq<Seq<int>>, k: nat)
    ensures
        ({
            let u = uncovered_below(deps, k);
            &&& forall|t: int|
                0 <= t < u.len() ==> 0 <= #[trigger] u[t] < k && !covered(spec_batches(deps), u[t])
            &&& forall|x: int| 0 <= x < k && !covered(spec_batches(deps), x) ==> u.contains(x)
        }),
    decreases k,
{
    if k > 0 {
        lemma_uncovered_below(deps, (k - 1) as nat);
        let prev = uncovered_below(deps, (k - 1) as nat);
        let u = uncovered_below(deps, k);
        assert forall|x: int| 0 <= x < k && !covered(spec_batches(deps), x) implies u.contains(
            x,
        ) by {
            if x < k - 1 {
                assert(prev.contains(x));
                let t = choose|t: int| 0 <= t < prev.len() && prev[t] == x;
                assert(u[t] == x);
            } else {
                assert(u[u.len() - 1] == x);
            }
        }
    }
}

proof fn lemma_num_unmarked_exists(done: Seq<bool>)
    requires
        num_unmarked(done) > 0,
    ensures
        exists|x: int| 0 <= x < done.len() && !done[x],
    decreases done.len(),
{
    if done.len() > 0 && done.last() {
        lemma_num_unmarked_exists(done.drop_last());
        let x = choose|x: int| 0 <= x < done.drop_last().len() && !done.drop_last()[x];
        assert(!done[x]);
    }
}

// ------------------------------------------------------------------
// The executable graph builder.
// ------------------------------------------------------------------

/// Position of the first step whose id equals `*id`, if any.
#[verifier::loop_isolation(false)]
pub(crate) fn find_step_index(steps: &Vec<ExecutionStep>, id: &String) -> (r: Option<usize>)
    ensures
        match r {
            Some(k) => k < steps@.len() && find_id(steps@, id@) == k as int,
            None => find_id(steps@, id@) == -1,
        },
{
    let n = steps.len();
    proof {
        lemma_find_id_from(steps@, id@, 0);
    }
    for k in 0..n
        invariant
            forall|t: int| 0 <= t < k ==> steps@[t].id@ != id@,
    {
        if steps[k].id.eq(id) {
            return Some(k);
        }
    }
    None
}

/// Whether `row` names the position `x`.
#[verifier::loop_isolation(false)]
fn row_contains(row: &Vec<usize>, x: usize) -> (r: bool)
    ensures
        r == row_view(*row).contains(x as int),
{
    let m = row.len();
    for t in 0..m
        invariant
            forall|t2: int| 0 <= t2 < t ==> (#[trigger] row@[t2]) != x,
    {
        if row[t] == x {
            proof {
                assert(row_view(*row)[t as int] == x as int);
            }
            return true;
        }
    }
    proof {
        if row_view(*row).contains(x as int) {
            let t = choose|t: int|
                0 <= t < row_view(*row).len() && #[trigger] row_view(*row)[t] == x as int;
            assert(row@[t] == x);
        }
    }
    false
}

/// Whether every position named by `row` is already scheduled.
#[verifier::loop_isolation(false)]
fn row_all_true(row: &Vec<usize>, assigned: &Vec<bool>) -> (r: bool)
    requires
        forall|t: int| 0 <= t < row@.len() ==> (#[trigger] row@[t]) < assigned@.len(),
    ensures
        r == (forall|t: int| 0 <= t < row@.len() ==> assigned@[#[trigger] row@[t] as int]),
{
    let m = row.len();
    for t in 0..m
        invariant
            forall|t2: int| 0 <= t2 < t ==> assigned@[#[trigger] row@[t2] as int],
    {
        if !assigned[row[t]] {
            return false;
        }
    }
    true
}

/// Read-only view over a validated plan: every step's dependencies
/// resolved to step positions, and the steps partitioned into batches,
/// each batch ascending by original plan position.
pub struct DependencyGraph {
    /// For each step position, the positions of the steps it depends on,
    /// in declaration order.
    pub preds: Vec<Vec<usize>>,
    /// For each step position, the positions of the steps that depend on
    /// it, ascending.
    pub succs: Vec<Vec<usize>>,
    /// The topological levels: each batch lists the positions of steps
    /// whose dependencies all lie in strictly earlier batches.
    pub batches: Vec<Vec<usize>>,
    /// How many steps the plan has.
    pub num_steps: usize,
    /// The plan's steps, carried for specification purposes only.
    pub steps_gh: Ghost<Seq<ExecutionStep>>,
}

impl DependencyGraph {
    /// The steps this graph was built from.
    pub open spec fn steps(self) -> Seq<ExecutionStep> {
        self.steps_gh@
    }

    /// The resolved dependency relation of those steps.
    pub open spec fn deps(self) -> Seq<Seq<int>> {
        deps_of(self.steps())
    }

    /// The batches as the specification sees them.
    pub open spec fn batches_view(self) -> Seq<Seq<int>> {
        batches_view_of(self.batches@)
    }

    /// A validated graph: all ids resolved, schedule complete (acyclic),
    /// the stored rows equal to the resolved relation, and the stored
    /// batches equal to the scheduled ones.
    pub open spec fn wf(self) -> bool {
        &&& self.num_steps == self.steps().len()
        &&& all_deps_resolve(self.steps())
        &&& schedule_complete(self.steps())
        &&& self.preds@.len() == self.steps().len()
        &&& forall|i: int|
            0 <= i < self.preds@.len() ==> row_view(#[trigger] self.preds@[i]) == self.deps()[i]
        &&& forall|i: int, j: int|
            0 <= i < self.preds@.len() && 0 <= j < self.preds@[i]@.len() ==> (
            #[trigger] self.preds@[i]@[j]) < self.num_steps
        &&& self.succs@.len() == self.steps().len()
        &&& forall|i: int|
            0 <= i < self.succs@.len() ==> row_view(#[trigger] self.succs@[i]) == succs_below(
                self.deps(),
                i,
                self.steps().len() as nat,
            )
        &&& forall|i: int, j: int|
            0 <= i < self.succs@.len() && 0 <= j < self.succs@[i]@.len() ==> (
            #[trigger] self.succs@[i]@[j]) < self.num_steps
        &&& self.batches_view() == spec_batches(self.deps())
        &&& forall|k: int, t: int|
            0 <= k < self.batches@.len() && 0 <= t < self.batches@[k]@.len() ==> (
            #[trigger] self.batches@[k]@[t]) < self.num_steps
    }

    /// Build the graph for a plan: resolve every dependency id to a step
    /// position and partition the steps into batches. Rejects the first
    /// dependency id (in step order, then declaration order) that names no
    /// step; rejects with the leftover step ids when the relation has a
    /// cycle.
    #[verifier::loop_isolation(false)]
    #[verifier::rlimit(60)]
    pub fn new(plan: &ExecutionPlan) -> (r: Result<DependencyGraph, GraphError>)
        ensures
            r is Ok <==> all_deps_resolve(plan.steps@) && schedule_complete(plan.steps@),
            r matches Ok(g) ==> g.wf() && g.steps() == plan.steps@,
            r matches Err(GraphError::UnknownDependency { step_id, missing_id })
                ==> !all_deps_resolve(plan.steps@) && exists|i: int, j: int|
                #![trigger plan.steps@[i].dependencies@[j]]
                {
                    &&& 0 <= i < plan.steps@.len()
                    &&& 0 <= j < plan.steps@[i].dependencies@.len()
                    &&& step_id@ == plan.steps@[i].id@
                    &&& missing_id@ == plan.steps@[i].dependencies@[j]@
                    &&& find_id(plan.steps@, missing_id@) == -1
                    &&& forall|i2: int| 0 <= i2 < i ==> step_resolves(plan.steps@, i2)
                    &&& forall|j2: int|
                        0 <= j2 < j ==> dep_indices(plan.steps@, i)[j2] >= 0
                },
            r matches Err(GraphError::CycleDetected { step_ids }) ==> ({
                let u = uncovered_below(deps_of(plan.steps@), plan.steps@.len() as nat);
                &&& all_deps_resolve(plan.steps@)
                &&& u.len() > 0
                &&& step_ids@.len() == u.len()
                &&& forall|t: int|
                    0 <= t < u.len() ==> (#[trigger] step_ids@[t])@ == plan.steps@[u[t]].id@
            }),
    {
        let steps = &plan.steps;
        let ghost sps = plan.steps@;
        let n = steps.len();
        let ghost deps = deps_of(sps);

        // Resolve every dependency id to a step position.
        let mut preds: Vec<Vec<usize>> = Vec::new();
        let mut i: usize = 0;
        while i < n
            invariant
                i <= n,
                preds@.len() == i,
                forall|i2: int|
                    0 <= i2 < i ==> row_view(#[trigger] preds@[i2]) == dep_indices(sps, i2),
                forall|i2: int, j2: int|
                    0 <= i2 < i && 0 <= j2 < preds@[i2]@.len() ==> (#[trigger] preds@[i2]@[j2]) < n,
            decreases n - i,
        {
            let deps_i = &steps[i].dependencies;
            let m = deps_i.len();
            let mut row: Vec<usize> = Vec::new();
            let mut j: usize = 0;
            while j < m
                invariant
                    j <= m,
                    row@.len() == j,
                    forall|j2: int|
                        0 <= j2 < j ==> (#[trigger] row@[j2]) as int == dep_indices(
                            sps,
                            i as int,
                        )[j2] && row@[j2] < n,
                decreases m - j,
            {
                match find_step_index(steps, &deps_i[j]) {
                    Some(k) => {
                        row.push(k);
                    },
                    None => {
                        proof {
                            assert(dep_indices(sps, i as int)[j as int] == -1);
                            assert(!step_resolves(sps, i as int));
                            assert forall|i2: int| 0 <= i2 < i implies step_resolves(
                                sps,
                                i2,
                            ) by {
                                assert(row_view(preds@[i2]) == dep_indices(sps, i2));
                                assert forall|j2: int|
                                    0 <= j2 < dep_indices(sps, i2).len() implies dep_indices(
                                    sps,
                                    i2,
                                )[j2] >= 0 by {
                                    assert(dep_indices(sps, i2)[j2] == row_view(preds@[i2])[j2]);
                                }
                            }
                            assert(sps[i as int].dependencies@[j as int] == deps_i@[j as int]);
                            assert(find_id(sps, sps[i as int].dependencies@[j as int]@) == -1);
                            assert forall|j2: int| 0 <= j2 < j implies dep_indices(
                                sps,
                                i as int,
                            )[j2] >= 0 by {
                                assert(dep_indices(sps, i as int)[j2] == row@[j2] as int);
                            }
                        }
                        return Err(GraphError::UnknownDependency {
                            step_id: steps[i].id.clone(),
                            missing_id: deps_i[j].clone(),
                        });
                    },
                }
                j += 1;
            }
            proof {
                assert(row_view(row) =~= dep_indices(sps, i as int));
            }
            preds.push(row);
            i += 1;
        }
        proof {
            assert(all_deps_resolve(sps)) by {
                assert forall|i2: int| 0 <= i2 < sps.len() implies step_resolves(sps, i2) by {
                    assert forall|j2: int|
                        0 <= j2 < dep_indices(sps, i2).len() implies dep_indices(sps, i2)[j2]
                        >= 0 by {
                        assert(dep_indices(sps, i2)[j2] == row_view(preds@[i2])[j2]);
                    }
                }
            }
        }

        // Partition into batches: repeatedly take every unscheduled step
        // whose dependencies are all scheduled.
        let mut assigned: Vec<bool> = Vec::new();
        let mut z: usize = 0;
        while z < n
            invariant
                z <= n,
                assigned@.len() == z,
                forall|x: int| 0 <= x < z ==> !(#[trigger] assigned@[x]),
            decreases n - z,
        {
            assigned.push(false);
            z += 1;
        }
        proof {
            assert(assigned@ =~= Seq::new(deps.len(), |x: int| false));
        }

        let mut batches: Vec<Vec<usize>> = Vec::new();
        let mut remaining: usize = n;
        let mut more = true;
        proof {
            assert(remaining == num_unmarked(assigned@)) by {
                lemma_num_unmarked_all_false(assigned@);
            }
        }
        while more
            invariant
                assigned@.len() == n,
                remaining == num_unmarked(assigned@),
                forall|x: int|
                    0 <= x < n ==> (#[trigger] assigned@[x] <==> covered(
                        batches_view_of(batches@),
                        x,
                    )),
                spec_batches(deps) == batches_view_of(batches@) + batches_from(deps, assigned@),
                !more ==> batches_from(deps, assigned@) == Seq::<Seq<int>>::empty(),
            decreases remaining, (if more { 1int } else { 0int }),
        {
            // Collect the ready steps, ascending.
            let mut batch: Vec<usize> = Vec::new();
            let mut c: usize = 0;
            while c < n
                invariant
                    c <= n,
                    row_view(batch) == ready_below(deps, assigned@, c as nat),
                    forall|t: int| 0 <= t < batch@.len() ==> (#[trigger] batch@[t]) < n,
                decreases n - c,
            {
                let ready = !assigned[c] && row_all_true(&preds[c], &assigned);
                proof {
                    assert(deps[c as int] == row_view(preds@[c as int]));
                    let rowv = row_view(preds@[c as int]);
                    assert forall|j: int| 0 <= j < rowv.len() implies #[trigger] rowv[j]
                        == preds@[c as int]@[j] as int && 0 <= rowv[j] < n by {}
                    let ci = c as int;
                    assert(ready == is_ready(deps, assigned@, ci)) by {
                        if !assigned@[ci] {
                            if forall|t: int|
                                0 <= t < preds@[ci]@.len() ==> assigned@[(
                                #[trigger] preds@[ci]@[t]) as int] {
                                assert forall|j: int|
                                    0 <= j < deps[ci].len() implies 0 <= #[trigger] deps[ci][j]
                                    < assigned@.len() && assigned@[deps[ci][j]] by {
                                    assert(deps[ci][j] == preds@[ci]@[j] as int);
                                }
                                assert(is_ready(deps, assigned@, ci));
                            } else {
                                let t = choose|t: int|
                                    0 <= t < preds@[ci]@.len() && !assigned@[(
                                    #[trigger] preds@[ci]@[t]) as int];
                                assert(deps[ci][t] == preds@[ci]@[t] as int);
                                assert(!is_ready(deps, assigned@, ci));
                            }
                        }
                    }
                    if ready {
                        assert(row_view(batch).push(c as int) =~= ready_below(
                            deps,
                            assigned@,
                            (c + 1) as nat,
                        ));
                    }
                }
                if ready {
                    batch.push(c);
                    proof {
                        assert(row_view(batch) =~= ready_below(deps, assigned@, (c + 1) as nat));
                    }
                }
                c += 1;
            }
            let bl = batch.len();
            if bl == 0 {
                more = false;
            } else {
                // Mark the whole batch scheduled, then record it.
                let ghost pre = assigned@;
                let ghost b = row_view(batch);
                proof {
                    lemma_ready_below(deps, pre, n as nat);
                }
                let mut t: usize = 0;
                while t < bl
                    invariant
                        t <= bl,
                        bl == batch@.len(),
                        assigned@.len() == n,
                        remaining == num_unmarked(assigned@),
                        forall|x: int|
                            0 <= x < n ==> (#[trigger] assigned@[x] == (pre[x] || b.subrange(
                                0,
                                t as int,
                            ).contains(x))),
                    decreases bl - t,
                {
                    let idx = batch[t];
                    proof {
                        assert(is_ready(deps, pre, b[t as int]));
                        assert(!pre[idx as int]);
                        assert forall|s: int| 0 <= s < t implies b[s] != idx as int by {
                            assert(b[s] < b[t as int]);
                        }
                        assert(!b.subrange(0, t as int).contains(idx as int));
                        assert(!assigned@[idx as int]);
                        lemma_num_unmarked_pos(assigned@, idx as int);
                        lemma_num_unmarked_update(assigned@, idx as int);
                    }
                    let ghost before = assigned@;
                    assigned[idx] = true;
                    remaining -= 1;
                    proof {
                        assert(assigned@ == before.update(idx as int, true));
                        assert forall|x: int|
                            0 <= x < n implies (#[trigger] assigned@[x] == (pre[x] || b.subrange(
                                0,
                                (t + 1) as int,
                            ).contains(x))) by {
                            assert(b.subrange(0, (t + 1) as int) =~= b.subrange(0, t as int).push(
                                b[t as int],
                            ));
                            if x == idx as int {
                                assert(b.subrange(0, (t + 1) as int)[t as int] == x);
                                assert(b.subrange(0, (t + 1) as int).contains(x));
                            } else {
                                if b.subrange(0, (t + 1) as int).contains(x) {
                                    let s = choose|s: int|
                                        0 <= s < t + 1 && #[trigger] b.subrange(
                                            0,
                                            (t + 1) as int,
                                        )[s] == x;
                                    assert(b.subrange(0, t as int)[s] == x);
                                    assert(b.subrange(0, t as int).contains(x));
                                } else if b.subrange(0, t as int).contains(x) {
                                    let s = choose|s: int|
                                        0 <= s < t && #[trigger] b.subrange(0, t as int)[s] == x;
                                    assert(b.subrange(0, (t + 1) as int)[s] == x);
                                }
                            }
                        }
                    }
                    t += 1;
                }
                proof {
                    assert(b.subrange(0, bl as int) =~= b);
                    assert(assigned@ =~= mark(pre, b));
                    assert(mark(pre, b)[b[0]]) by {
                        assert(b.contains(b[0]));
                    }
                    lemma_num_unmarked_mono_strict(pre, mark(pre, b), b[0]);
                    // One unfolding of the schedule.
                    assert(batches_from(deps, pre) == seq![b] + batches_from(deps, mark(pre, b)));
                    assert(batches_view_of(batches@.push(batch)) =~= batches_view_of(
                        batches@,
                    ).push(b));
                    assert((batches_view_of(batches@).push(b)) + batches_from(deps, assigned@)
                        =~= batches_view_of(batches@) + (seq![b] + batches_from(
                        deps,
                        assigned@,
                    )));
                }
                let ghost old_bv = batches_view_of(batches@);
                batches.push(batch);
                proof {
                    assert forall|x: int|
                        0 <= x < n implies (#[trigger] assigned@[x] <==> covered(
                        batches_view_of(batches@),
                        x,
                    )) by {
                        let bv = batches_view_of(batches@);
                        assert(bv == old_bv.push(b));
                        if assigned@[x] {
                            if pre[x] {
                                let k = choose|k: int|
                                    0 <= k < old_bv.len() && #[trigger] old_bv[k].contains(x);
                                assert(bv[k].contains(x));
                            } else {
                                assert(b.contains(x));
                                assert(bv[bv.len() - 1].contains(x));
                            }
                        } else {
                            if covered(bv, x) {
                                let k = choose|k: int|
                                    0 <= k < bv.len() && #[trigger] bv[k].contains(x);
                                if k < old_bv.len() {
                                    assert(old_bv[k].contains(x));
                                    assert(covered(old_bv, x));
                                } else {
                                    assert(b.contains(x));
                                }
                                assert(false);
                            }
                        }
                    }
                }
            }
        }

        if remaining == 0 {
            proof {
                lemma_num_unmarked_zero(assigned@);
                assert(spec_batches(deps) =~= batches_view_of(batches@)) by {
                    assert(batches_view_of(batches@) + Seq::<Seq<int>>::empty()
                        =~= batches_view_of(batches@));
                }
                assert forall|x: int| 0 <= x < sps.len() implies covered(
                    spec_batches(deps_of(sps)),
                    x,
                ) by {
                    assert(assigned@[x]);
                    assert(covered(batches_view_of(batches@), x));
                }
                assert(schedule_complete(sps));
                lemma_batch_partition(sps);
                assert forall|k: int, t: int|
                    0 <= k < batches@.len() && 0 <= t < batches@[k]@.len() implies (
                #[trigger] batches@[k]@[t]) < n by {
                    assert(batches_view_of(batches@)[k][t] == batches@[k]@[t] as int);
                }
            }
            // Invert the dependency rows into successor lists.
            let mut succs: Vec<Vec<usize>> = Vec::new();
            let mut si: usize = 0;
            while si < n
                invariant
                    si <= n,
                    succs@.len() == si,
                    forall|i2: int|
                        0 <= i2 < si ==> row_view(#[trigger] succs@[i2]) == succs_below(
                            deps,
                            i2,
                            n as nat,
                        ),
                    forall|i2: int, j2: int|
                        0 <= i2 < si && 0 <= j2 < succs@[i2]@.len() ==> (
                        #[trigger] succs@[i2]@[j2]) < n,
                decreases n - si,
            {
                let mut row: Vec<usize> = Vec::new();
                let mut sj: usize = 0;
                while sj < n
                    invariant
                        sj <= n,
                        row_view(row) == succs_below(deps, si as int, sj as nat),
                        forall|t: int| 0 <= t < row@.len() ==> (#[trigger] row@[t]) < n,
                    decreases n - sj,
                {
                    proof {
                        assert(deps[sj as int] == row_view(preds@[sj as int]));
                    }
                    if row_contains(&preds[sj], si) {
                        row.push(sj);
                        proof {
                            assert(row_view(row) =~= succs_below(deps, si as int, (sj + 1) as nat));
                        }
                    }
                    sj += 1;
                }
                succs.push(row);
                si += 1;
            }
            Ok(
                DependencyGraph {
                    preds,
                    succs,
                    batches,
                    num_steps: n,
                    steps_gh: Ghost(plan.steps@),
                },
            )
        } else {
            proof {
                lemma_num_unmarked_exists(assigned@);
                assert(spec_batches(deps) =~= batches_view_of(batches@)) by {
                    assert(batches_view_of(batches@) + Seq::<Seq<int>>::empty()
                        =~= batches_view_of(batches@));
                }
                lemma_uncovered_below(deps, n as nat);
            }
            // Report every step that no batch could take.
            let ghost u = uncovered_below(deps, n as nat);
            let mut ids: Vec<String> = Vec::new();
            let mut w: usize = 0;
            while w < n
                invariant
                    w <= n,
                    ids@.len() == uncovered_below(deps, w as nat).len(),
                    forall|t: int|
                        0 <= t < ids@.len() ==> (#[trigger] ids@[t])@ == sps[uncovered_below(
                            deps,
                            w as nat,
                        )[t]].id@,
                decreases n - w,
            {
                proof {
                    lemma_uncovered_below(deps, w as nat);
                    lemma_uncovered_below(deps, (w + 1) as nat);
                }
                if !assigned[w] {
                    ids.push(steps[w].id.clone());
                }
                w += 1;
            }
            proof {
                let x = choose|x: int| 0 <= x < assigned@.len() && !assigned@[x];
                assert(!covered(spec_batches(deps), x));
                assert(u.contains(x));
                assert(u.len() > 0);
            }
            Err(GraphError::CycleDetected { step_ids: ids })
        }
    }

    /// The scheduled batches, one `Vec` of step positions per level.
    pub fn execution_batches(&self) -> (r: &Vec<Vec<usize>>)
        ensures
            *r == self.batches,
    {
        &self.batches
    }
}

proof fn lemma_num_unmarked_all_false(done: Seq<bool>)
    requires
        forall|x: int| 0 <= x < done.len() ==> !(#[trigger] done[x]),
    ensures
        num_unmarked(done) == done.len(),
    decreases done.len(),
{
    if done.len() > 0 {
        lemma_num_unmarked_all_false(done.drop_last());
    }
}

/// Scheduling is deterministic: graphs built from the same steps carry
/// the same batch contents in the same order.
pub proof fn lemma_schedule_deterministic(g1: DependencyGraph, g2: DependencyGraph)
    requires
        g1.wf(),
        g2.wf(),
        g1.steps() == g2.steps(),
    ensures
        g1.batches_view() == g2.batches_view(),
{
}

} // verus!
