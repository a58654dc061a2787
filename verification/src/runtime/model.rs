//! The scheduler as a mathematical state machine.
//!
//! A run executes units, each a single node or a batch of nodes of one tool.
//! The functions here say what every step of the scheduler does; the
//! invariant [`run_wf`] and the laws say what holds of every run.

use vstd::prelude::*;

use crate::adapters::api::ToolErrorV;
use crate::graph::resolved::ResolvedV;
use crate::json::Json;
use crate::plan::{NodeV, PlanV, WhenV};
use crate::runtime::config::{ErrorMode, RunConfig};
use crate::runtime::dispatch::{NodeResultV, OutcomeV, PreparedV};
use crate::runtime::locks::RequestV;
use crate::runtime::result::{EventV, RunMetrics, SkipReason, TraceStatus};

verus! {

use crate::adapters::api::coded;
use crate::graph::order::{distinct_ids, valid_ids};
use crate::graph::validate::{referenced_nodes, tool_effects};
use crate::optimizer::batch::{has_node, node_named};
use crate::ordered::lookup;
use crate::refs::refs_in;
use crate::runtime::dispatch::{capped_sum, prepared_node};
use crate::runtime::error::resolution_failure;
use crate::runtime::locks::may_overlap;
use crate::runtime::policy::policy_for;
use crate::runtime::resolve::{filled, resolved, resolved_ref};
use crate::runtime::result::{event, no_metrics};
use crate::runtime::schema::{rejected_input, violates};
use crate::value::json_same;

// ---------------------------------------------------------------------------
// Program
// ---------------------------------------------------------------------------

/// One schedulable unit: a single node or an optimizer batch group.
#[verifier::ext_equal]
pub struct UnitV {
    pub members: Seq<Seq<char>>,
    pub tool: Seq<char>,
    pub adapter: Seq<char>,
    pub batch: bool,
    pub lock: RequestV,
    pub cost: u64,
}

/// What does not change during a run.
#[verifier::ext_equal]
pub struct ProgramV {
    pub plan: PlanV,
    /// The effects of each node.
    pub effects: Map<Seq<char>, ResolvedV>,
    pub units: Seq<UnitV>,
    /// Which units each unit waits for.
    pub deps: Seq<Set<int>>,
    /// Scheduling priority of each unit.
    pub keys: Seq<u64>,
    pub blocked_tools: Set<Seq<char>>,
    /// The input schemas of the tools that have one.
    pub schemas: Map<Seq<char>, Json>,
    pub config: RunConfig,
    pub serial: bool,
}

/// The nodes whose failure poisons the node: those that its input, its
/// fan-out source and its condition refer to.
pub open spec fn data_deps(node: NodeV) -> Set<Seq<char>> {
    let refs = match refs_in(node.input) {
        Ok(refs) => refs,
        Err(_) => Seq::empty(),
    };
    referenced_nodes(node, refs).to_set()
}

/// The node with the id.
pub open spec fn node_of(p: ProgramV, id: Seq<char>) -> NodeV {
    node_named(p.plan.nodes, id)
}

/// Units and plan fit together: every node belongs to exactly one unit.
pub open spec fn program_wf(p: ProgramV) -> bool {
    &&& distinct_ids(p.plan.nodes)
    &&& valid_ids(p.plan.nodes)
    &&& p.deps.len() == p.units.len()
    &&& p.keys.len() == p.units.len()
    &&& p.units.len() <= usize::MAX
    &&& p.plan.nodes.len() < usize::MAX
    &&& forall|u: int|
        0 <= u < p.units.len() ==> deps_in_range(#[trigger] p.deps[u], u, p.units.len() as int)
    &&& forall|u: int, i: int|
        0 <= u < p.units.len() && 0 <= i < p.units[u].members.len() ==> has_node(
            p.plan.nodes,
            #[trigger] p.units[u].members[i],
        ) && p.effects.dom().contains(p.units[u].members[i])
    &&& forall|u: int, i: int, v: int, j: int|
        #![trigger p.units[u].members[i], p.units[v].members[j]]
        0 <= u < p.units.len() && 0 <= i < p.units[u].members.len() && 0 <= v < p.units.len() && 0
            <= j < p.units[v].members.len() && p.units[u].members[i] == p.units[v].members[j] ==> u
            == v && i == j
    &&& forall|id: Seq<char>| #[trigger] has_node(p.plan.nodes, id) ==> has_unit(p, id)
}

/// The units that a unit waits for are other units.
pub open spec fn deps_in_range(deps: Set<int>, u: int, n: int) -> bool {
    &&& deps.finite()
    &&& !deps.contains(u)
    &&& forall|d: int| #[trigger] deps.contains(d) ==> 0 <= d < n
}

/// Some unit has the node as a member.
pub open spec fn has_unit(p: ProgramV, id: Seq<char>) -> bool {
    exists|u: int| 0 <= u < p.units.len() && (#[trigger] p.units[u]).members.contains(id)
}

// ---------------------------------------------------------------------------
// State
// ---------------------------------------------------------------------------

/// What changes during a run.
#[verifier::ext_equal]
pub struct RunV {
    /// Units that may be tried.
    pub ready: Set<int>,
    /// Units that were tried and not admitted, in order.
    pub blocked: Seq<int>,
    /// Units that were dispatched, with the nodes that went out.
    pub running: Seq<(int, Seq<Seq<char>>)>,
    /// Units that are over.
    pub done: Set<int>,
    pub outputs: Map<Seq<char>, Json>,
    pub errors: Map<Seq<char>, ToolErrorV>,
    pub skipped: Map<Seq<char>, SkipReason>,
    pub trace: Seq<EventV>,
    pub metrics: RunMetrics,
    pub stop: Option<SkipReason>,
}

/// The node is over: it finished, failed or was skipped.
pub open spec fn settled(s: RunV, id: Seq<char>) -> bool {
    s.outputs.dom().contains(id) || s.errors.dom().contains(id) || s.skipped.dom().contains(id)
}

/// The node failed or was skipped.
pub open spec fn dead(s: RunV, id: Seq<char>) -> bool {
    s.errors.dom().contains(id) || s.skipped.dom().contains(id)
}

/// A node that this one refers to failed or was skipped.
pub open spec fn poisoned(p: ProgramV, s: RunV, id: Seq<char>) -> bool {
    exists|d: Seq<char>| #[trigger] data_deps(node_of(p, id)).contains(d) && dead(s, d)
}

/// The state after the event.
pub open spec fn with_event(s: RunV, e: EventV) -> RunV {
    RunV { trace: s.trace.push(e), ..s }
}

/// The state after the node was skipped.
pub open spec fn after_skip(p: ProgramV, s: RunV, id: Seq<char>, reason: SkipReason, now: u64) -> RunV {
    RunV {
        skipped: s.skipped.insert(id, reason),
        metrics: RunMetrics { nodes_skipped: (s.metrics.nodes_skipped + 1) as usize, ..s.metrics },
        ..with_event(s, event(id, node_of(p, id).tool, TraceStatus::Skipped, now))
    }
}

/// The state after the failure of the node was recorded. The first failure
/// stops a fail-fast run.
pub open spec fn after_failure(p: ProgramV, s: RunV, id: Seq<char>, e: ToolErrorV) -> RunV {
    RunV {
        errors: s.errors.insert(id, e),
        metrics: RunMetrics { nodes_failed: (s.metrics.nodes_failed + 1) as usize, ..s.metrics },
        stop: if s.stop is None && p.config.on_error == ErrorMode::FailFast {
            Some(SkipReason::NotRun)
        } else {
            s.stop
        },
        ..s
    }
}

/// The state after the node failed before it was dispatched.
pub open spec fn after_error(p: ProgramV, s: RunV, id: Seq<char>, e: ToolErrorV, now: u64) -> RunV {
    after_failure(
        p,
        with_event(
            s,
            EventV {
                duration_ms: Some(0),
                error: Some(e.message),
                ..event(id, node_of(p, id).tool, TraceStatus::Failed, now)
            },
        ),
        id,
        e,
    )
}

/// The state after the node finished.
pub open spec fn after_success(s: RunV, id: Seq<char>, output: Json) -> RunV {
    RunV {
        outputs: s.outputs.insert(id, output),
        metrics: RunMetrics {
            nodes_succeeded: (s.metrics.nodes_succeeded + 1) as usize,
            ..s.metrics
        },
        ..s
    }
}

/// The units that wait for `u` and, once `u` is over, for nothing else.
pub open spec fn unblocked(p: ProgramV, done: Set<int>, u: int) -> Set<int> {
    Set::new(
        |d: int|
            0 <= d < p.units.len() && p.deps[d].contains(u) && p.deps[d].subset_of(done.insert(u)),
    )
}

/// The state after the unit is over.
pub open spec fn after_unit(p: ProgramV, s: RunV, u: int) -> RunV {
    RunV { done: s.done.insert(u), ready: s.ready.union(unblocked(p, s.done, u)), ..s }
}

/// Why a member is skipped when the run settles what is left.
pub open spec fn settle_reason(p: ProgramV, s: RunV, id: Seq<char>, fallback: SkipReason) -> SkipReason {
    if poisoned(p, s, id) {
        SkipReason::FailedDependency
    } else {
        fallback
    }
}

/// The state after the first `k` members of the unit that are not over were
/// skipped.
pub open spec fn settled_members(
    p: ProgramV,
    s: RunV,
    members: Seq<Seq<char>>,
    k: int,
    fallback: SkipReason,
    now: u64,
) -> RunV
    decreases k,
{
    if k <= 0 {
        s
    } else {
        let before = settled_members(p, s, members, k - 1, fallback, now);
        let id = members[k - 1];
        if settled(before, id) {
            before
        } else {
            after_skip(p, before, id, settle_reason(p, before, id, fallback), now)
        }
    }
}

/// The state after the unit was settled without being run.
pub open spec fn after_settle(p: ProgramV, s: RunV, u: int, fallback: SkipReason, now: u64) -> RunV {
    let members = p.units[u].members;
    after_unit(p, settled_members(p, s, members, members.len() as int, fallback, now), u)
}

// ---------------------------------------------------------------------------
// Preparation
// ---------------------------------------------------------------------------

/// Whether a condition holds.
pub open spec fn when_verdict(w: WhenV, outputs: Map<Seq<char>, Json>) -> Result<bool, ToolErrorV> {
    match resolved_ref(w.target, outputs) {
        Err(e) => Err(resolution_failure(e)),
        Ok(value) => {
            let verdict = match w.equals {
                Some(expected) => json_same(value, expected),
                None => !(value is Null || value == Json::Bool(false)),
            };
            Ok(verdict != w.not)
        },
    }
}

/// The items of a fan-out node.
pub open spec fn fan_out_items(node: NodeV, outputs: Map<Seq<char>, Json>) -> Result<
    Option<Seq<Json>>,
    ToolErrorV,
> {
    match node.for_each {
        None => Ok(None),
        Some(r) => match resolved_ref(r, outputs) {
            Err(e) => Err(resolution_failure(e)),
            Ok(Json::List(items)) => Ok(Some(items)),
            Ok(_) => Err(
                coded(
                    "for_each of node '"@ + node.id + "' must resolve to an array"@,
                    "invalid_for_each"@,
                ),
            ),
        },
    }
}

/// The template filled with the item is an input that does not match the
/// schema. An item that cannot be filled in gives no input.
pub open spec fn item_violates(schema: Json, template: Json, item: Json) -> bool {
    match filled(template, item) {
        Ok(input) => violates(schema, input),
        Err(_) => false,
    }
}

/// Some item gives an input that does not match the schema.
pub open spec fn some_item_violates(schema: Json, template: Json, items: Seq<Json>) -> bool {
    exists|i: int| 0 <= i < items.len() && item_violates(schema, template, #[trigger] items[i])
}

/// The schema of the node's tool rejects an input that the node would hand to
/// the tool: its input, or that of one of its items.
pub open spec fn input_rejected(
    p: ProgramV,
    node: NodeV,
    input: Json,
    items: Option<Seq<Json>>,
) -> bool {
    p.schemas.dom().contains(node.tool) && match items {
        None => violates(p.schemas[node.tool], input),
        Some(list) => some_item_violates(p.schemas[node.tool], input, list),
    }
}

/// The node with its input resolved and checked. `reason` is what the
/// validator says where it rejects an input.
pub open spec fn prepared(
    p: ProgramV,
    outputs: Map<Seq<char>, Json>,
    node: NodeV,
    reason: Seq<char>,
) -> Result<PreparedV, ToolErrorV> {
    match resolved(node.input, outputs) {
        Err(e) => Err(resolution_failure(e)),
        Ok(input) => match fan_out_items(node, outputs) {
            Err(e) => Err(e),
            Ok(items) => if input_rejected(p, node, input, items) {
                Err(rejected_input(node.id, node.tool, reason))
            } else {
                Ok(
                    prepared_node(
                        node,
                        p.plan.tools,
                        input,
                        items,
                        policy_for(
                            tool_effects(p.plan.tools, node.tool),
                            p.config.default_timeout_ms,
                        ),
                        if p.effects.dom().contains(node.id) {
                            p.effects[node.id].reads
                        } else {
                            Set::empty()
                        },
                    ),
                )
            },
        },
    }
}

/// What becomes of a member when its unit is tried.
pub enum MemberV {
    /// It is over already.
    Settled,
    /// It is skipped.
    Skip(SkipReason),
    /// It fails before it is dispatched.
    Fail(ToolErrorV),
    /// It is dispatched.
    Go(PreparedV),
}

/// The error of a node that calls a blocked tool.
pub open spec fn blocked_tool(tool: Seq<char>) -> ToolErrorV {
    coded("tool '"@ + tool + "' is blocked in this runtime"@, "blocked_tool"@)
}

/// The part of the verdict on a member behind its condition.
pub open spec fn gated(p: ProgramV, s: RunV, node: NodeV, reason: Seq<char>) -> MemberV {
    if p.blocked_tools.contains(node.tool) {
        MemberV::Fail(blocked_tool(node.tool))
    } else {
        match prepared(p, s.outputs, node, reason) {
            Ok(m) => MemberV::Go(m),
            Err(e) => MemberV::Fail(e),
        }
    }
}

/// What becomes of a member when its unit is tried. `reason` is what the
/// validator says where it rejects the member's input.
pub open spec fn member_verdict(p: ProgramV, s: RunV, id: Seq<char>, reason: Seq<char>) -> MemberV {
    let node = node_of(p, id);
    if settled(s, id) {
        MemberV::Settled
    } else if poisoned(p, s, id) {
        MemberV::Skip(SkipReason::FailedDependency)
    } else {
        match node.when {
            None => gated(p, s, node, reason),
            Some(w) => match when_verdict(w, s.outputs) {
                Err(e) => MemberV::Fail(e),
                Ok(true) => gated(p, s, node, reason),
                Ok(false) => MemberV::Skip(SkipReason::Condition),
            },
        }
    }
}

/// The state after the verdict on a member.
pub open spec fn after_verdict(p: ProgramV, s: RunV, id: Seq<char>, v: MemberV, now: u64) -> RunV {
    match v {
        MemberV::Settled => s,
        MemberV::Skip(reason) => after_skip(p, s, id, reason, now),
        MemberV::Fail(e) => after_error(p, s, id, e, now),
        MemberV::Go(_) => s,
    }
}

/// A turn of the scheduler: the time, and what the validator says of each node
/// whose input it rejects. A node is rejected once at most, for it is over
/// then.
pub struct TurnV {
    pub at: u64,
    pub reasons: spec_fn(Seq<char>) -> Seq<char>,
}

/// The state after the first `k` members were looked at, and those of them
/// that go out.
pub open spec fn tried(p: ProgramV, s: RunV, members: Seq<Seq<char>>, k: int, now: TurnV) -> (
    RunV,
    Seq<PreparedV>,
)
    decreases k,
{
    if k <= 0 {
        (s, Seq::empty())
    } else {
        let (before, out) = tried(p, s, members, k - 1, now);
        let v = member_verdict(p, before, members[k - 1], (now.reasons)(members[k - 1]));
        (
            after_verdict(p, before, members[k - 1], v, now.at),
            match v {
                MemberV::Go(m) => out.push(m),
                _ => out,
            },
        )
    }
}

// ---------------------------------------------------------------------------
// Admission
// ---------------------------------------------------------------------------

/// How many of the running units call the tool.
pub open spec fn tool_load(p: ProgramV, running: Seq<(int, Seq<Seq<char>>)>, tool: Seq<char>) -> nat
    decreases running.len(),
{
    if running.len() == 0 {
        0
    } else {
        tool_load(p, running.drop_last(), tool) + if p.units[running.last().0].tool == tool {
            1nat
        } else {
            0nat
        }
    }
}

/// How many units may run at once. A serial run takes one at a time.
pub open spec fn global_limit(p: ProgramV) -> Option<usize> {
    if p.serial {
        Some(1)
    } else {
        p.config.max_concurrency
    }
}

/// How many units of the tool may run at once.
pub open spec fn tool_limit(p: ProgramV, tool: Seq<char>) -> Option<usize> {
    match lookup(p.plan.tools, tool) {
        Some(spec) => match spec.limits {
            Some(l) => l.max_concurrency,
            None => None,
        },
        None => None,
    }
}

/// There is room under the limit.
pub open spec fn below(n: nat, limit: Option<usize>) -> bool {
    match limit {
        Some(l) => n < l,
        None => true,
    }
}

/// The number is within the limit.
pub open spec fn within(n: nat, limit: Option<usize>) -> bool {
    match limit {
        Some(l) => n <= l,
        None => true,
    }
}

/// The unit may start beside those that run.
pub open spec fn admits(p: ProgramV, running: Seq<(int, Seq<Seq<char>>)>, u: int) -> bool {
    &&& below(running.len(), global_limit(p))
    &&& below(tool_load(p, running, p.units[u].tool), tool_limit(p, p.units[u].tool))
    &&& forall|i: int|
        0 <= i < running.len() ==> may_overlap(
            p.units[(#[trigger] running[i]).0].lock,
            p.units[u].lock,
        )
}

// ---------------------------------------------------------------------------
// Scheduling
// ---------------------------------------------------------------------------

/// A unit that goes out, with its prepared members.
#[verifier::ext_equal]
pub struct DispatchV {
    pub unit: int,
    pub members: Seq<PreparedV>,
}

/// The ids of prepared members.
pub open spec fn member_ids(members: Seq<PreparedV>) -> Seq<Seq<char>> {
    Seq::new(members.len(), |i: int| members[i].node)
}

/// The ready unit that is tried next: the one of highest priority, and of
/// those the first.
pub open spec fn is_next(p: ProgramV, ready: Set<int>, u: int) -> bool {
    &&& ready.contains(u)
    &&& forall|v: int| #[trigger]
        ready.contains(v) && v != u ==> p.keys[v] < p.keys[u] || (p.keys[v] == p.keys[u] && u < v)
}

/// The ready unit that is tried next.
pub open spec fn next_unit(p: ProgramV, ready: Set<int>) -> int {
    choose|u: int| is_next(p, ready, u)
}

/// There is one next unit at most.
pub proof fn next_unit_unique(p: ProgramV, ready: Set<int>, u: int)
    requires
        is_next(p, ready, u),
    ensures
        next_unit(p, ready) == u,
{
    let v = next_unit(p, ready);
    assert(is_next(p, ready, v));
}

/// The state after one ready unit was tried, and what goes out.
pub open spec fn after_try(p: ProgramV, s: RunV, u: int, now: TurnV) -> (RunV, Option<DispatchV>) {
    let popped = RunV { ready: s.ready.remove(u), ..s };
    match s.stop {
        Some(reason) => (after_settle(p, popped, u, reason, now.at), None),
        None => {
            let members = p.units[u].members;
            let (after, out) = tried(p, popped, members, members.len() as int, now);
            if out.len() == 0 {
                (after_unit(p, after, u), None)
            } else if admits(p, after.running, u) {
                (
                    RunV { running: after.running.push((u, member_ids(out))), ..after },
                    Some(DispatchV { unit: u, members: out }),
                )
            } else {
                (RunV { blocked: after.blocked.push(u), ..after }, None)
            }
        },
    }
}

/// The state after `n` ready units were tried, and what goes out.
pub open spec fn after_tries(p: ProgramV, s: RunV, n: nat, now: TurnV) -> (RunV, Seq<DispatchV>)
    decreases n,
{
    if n == 0 {
        (s, Seq::empty())
    } else {
        let (before, out) = after_tries(p, s, (n - 1) as nat, now);
        let (after, d) = after_try(p, before, next_unit(p, before.ready), now);
        (
            after,
            match d {
                Some(d) => out.push(d),
                None => out,
            },
        )
    }
}

/// Exactly `n` tries leave no unit ready.
pub open spec fn drains(p: ProgramV, s: RunV, n: nat, now: TurnV) -> bool {
    &&& after_tries(p, s, n, now).0.ready == Set::<int>::empty()
    &&& forall|m: nat|
        m < n ==> (#[trigger] after_tries(p, s, m, now)).0.ready != Set::<int>::empty()
}

/// The state after every ready unit was tried, and what goes out.
pub open spec fn scheduled(p: ProgramV, s: RunV, now: TurnV) -> (RunV, Seq<DispatchV>) {
    after_tries(p, s, choose|n: nat| drains(p, s, n, now), now)
}

/// The number of tries is determined.
pub proof fn drains_unique(p: ProgramV, s: RunV, n: nat, now: TurnV)
    requires
        drains(p, s, n, now),
    ensures
        scheduled(p, s, now) == after_tries(p, s, n, now),
{
    let m = choose|m: nat| drains(p, s, m, now);
    assert(drains(p, s, m, now));
    if m < n {
        assert(after_tries(p, s, m, now).0.ready != Set::<int>::empty());
    }
    if n < m {
        assert(after_tries(p, s, n, now).0.ready != Set::<int>::empty());
    }
}

/// The state after the first `k` blocked units were settled.
pub open spec fn leftovers_settled(p: ProgramV, s: RunV, units: Seq<int>, k: int, now: u64) -> RunV
    decreases k,
{
    if k <= 0 {
        s
    } else {
        after_settle(
            p,
            leftovers_settled(p, s, units, k - 1, now),
            units[k - 1],
            SkipReason::NotRun,
            now,
        )
    }
}

/// One round of the scheduler: every ready unit is tried. Where nothing runs
/// then, all locks and permits are free, so what is blocked would stay
/// blocked forever: it is settled. Says whether another round follows.
pub open spec fn round(p: ProgramV, s: RunV, now: TurnV) -> (RunV, Seq<DispatchV>, bool) {
    let (after, out) = scheduled(p, s, now);
    if after.running.len() > 0 || after.blocked.len() == 0 {
        (after, out, false)
    } else {
        let left = leftovers_settled(
            p,
            RunV { blocked: Seq::empty(), ..after },
            after.blocked,
            after.blocked.len() as int,
            now.at,
        );
        (left, out, left.ready != Set::<int>::empty())
    }
}

/// The state after `n` rounds, what goes out, and whether another follows.
pub open spec fn rounds(p: ProgramV, s: RunV, n: nat, now: TurnV) -> (RunV, Seq<DispatchV>, bool)
    decreases n,
{
    if n == 0 {
        (s, Seq::empty(), true)
    } else {
        let (before, out, go_on) = rounds(p, s, (n - 1) as nat, now);
        let (after, more, again) = round(p, before, now);
        (after, out + more, again)
    }
}

/// Exactly `n` rounds are needed.
pub open spec fn settles(p: ProgramV, s: RunV, n: nat, now: TurnV) -> bool {
    &&& !rounds(p, s, n, now).2
    &&& forall|m: nat| m < n ==> (#[trigger] rounds(p, s, m, now)).2
}

/// The state once the scheduler waits for what runs or is at the end, and
/// what goes out.
pub open spec fn advanced(p: ProgramV, s: RunV, now: TurnV) -> (RunV, Seq<DispatchV>) {
    let r = rounds(p, s, choose|n: nat| settles(p, s, n, now), now);
    (r.0, r.1)
}

/// The number of rounds is determined.
pub proof fn settles_unique(p: ProgramV, s: RunV, n: nat, now: TurnV)
    requires
        settles(p, s, n, now),
    ensures
        advanced(p, s, now) == (rounds(p, s, n, now).0, rounds(p, s, n, now).1),
{
    let m = choose|m: nat| settles(p, s, m, now);
    assert(settles(p, s, m, now));
    if m < n {
        assert(rounds(p, s, m, now).2);
    }
    if n < m {
        assert(rounds(p, s, n, now).2);
    }
}

// ---------------------------------------------------------------------------
// Landing
// ---------------------------------------------------------------------------

/// The state after the first `k` results were recorded.
pub open spec fn after_results(p: ProgramV, s: RunV, results: Seq<NodeResultV>, k: int) -> RunV
    decreases k,
{
    if k <= 0 {
        s
    } else {
        let before = after_results(p, s, results, k - 1);
        match results[k - 1].result {
            Ok(output) => after_success(before, results[k - 1].node, output),
            Err(e) => after_failure(p, before, results[k - 1].node, e),
        }
    }
}

/// The state after what a unit reports was recorded.
pub open spec fn after_outcome(p: ProgramV, s: RunV, o: OutcomeV) -> RunV {
    after_results(
        p,
        RunV {
            trace: s.trace + o.events,
            metrics: RunMetrics {
                cache_hits: capped_sum(s.metrics.cache_hits, o.cache_hits),
                retries: capped_sum(s.metrics.retries, o.retries),
                batch_dispatches: capped_sum(s.metrics.batch_dispatches, o.batch_dispatches),
                ..s.metrics
            },
            ..s
        },
        o.results,
        o.results.len() as int,
    )
}

/// The resources that the first `k` results wrote.
pub open spec fn written(p: ProgramV, results: Seq<NodeResultV>, k: int) -> Set<Seq<char>>
    decreases k,
{
    if k <= 0 {
        Set::empty()
    } else {
        let before = written(p, results, k - 1);
        let id = results[k - 1].node;
        if results[k - 1].result is Ok && p.effects.dom().contains(id) {
            before.union(p.effects[id].writes)
        } else {
            before
        }
    }
}

/// The state after every blocked unit may be tried again.
pub open spec fn requeued(s: RunV) -> RunV {
    RunV { ready: s.ready.union(s.blocked.to_set()), blocked: Seq::empty(), ..s }
}

/// The state after the `k`-th running unit reported.
pub open spec fn landed(p: ProgramV, s: RunV, k: int, o: OutcomeV) -> RunV {
    let free = RunV { running: s.running.remove(k), ..s };
    requeued(after_unit(p, after_outcome(p, free, o), s.running[k].0))
}

/// The state after the run was cancelled. What runs is never aborted.
pub open spec fn cancelled(s: RunV) -> RunV {
    RunV {
        stop: match s.stop {
            None => Some(SkipReason::Cancelled),
            other => other,
        },
        ..s
    }
}

/// The state before anything was tried.
pub open spec fn initial(p: ProgramV) -> RunV {
    RunV {
        ready: Set::new(|u: int| 0 <= u < p.units.len() && p.deps[u] == Set::<int>::empty()),
        blocked: Seq::empty(),
        running: Seq::empty(),
        done: Set::empty(),
        outputs: Map::empty(),
        errors: Map::empty(),
        skipped: Map::empty(),
        trace: Seq::empty(),
        metrics: RunMetrics { nodes_total: p.plan.nodes.len() as usize, ..no_metrics() },
        stop: None,
    }
}

} // verus!
