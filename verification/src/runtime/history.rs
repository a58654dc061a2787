//! What holds along every run, from its start to its end.

use vstd::prelude::*;

use crate::runtime::dispatch::{NodeResultV, OutcomeV};
use crate::runtime::model::{MemberV, ProgramV, RunV, TurnV};
use crate::runtime::result::SkipReason;

verus! {

use crate::optimizer::batch::has_node;
use crate::runtime::dispatch::{covers, result_nodes};
use crate::runtime::drive::initial_wf;
use crate::runtime::locks::may_overlap;
use crate::runtime::meaning::{
    callable, callable_is_stable, extends, prepared_nodes_are_callable, value_of,
    verdict_is_stable, ToolsV,
};
use crate::runtime::model::{
    admits, advanced, after_outcome, after_results, after_skip, after_tries, after_try, after_unit,
    cancelled, data_deps, dead, drains, drains_unique, global_limit, initial, is_next, landed,
    leftovers_settled, member_ids, member_verdict, next_unit, next_unit_unique, node_of, poisoned,
    program_wf, round, rounds, scheduled, settle_reason, settled, settled_members, settles,
    settles_unique, tool_limit, tool_load, tried, when_verdict, within,
};
use crate::runtime::units::{
    lemma_leftover_step, lemma_try_closes, lemma_undone_monotone, lemma_undone_shrinks, open_units,
    undone,
};
use crate::runtime::upkeep::{
    block_keeps_wf, dispatch_keeps_wf, flight_wf, in_running, landing_keeps_wf,
    lemma_go_names_member, lemma_same_state, outcome_noted, outcome_settles_unit, placed,
    pop_keeps_wf, requeue_keeps_wf, run_wf, settling_keeps_wf, trying_keeps_wf,
    unblock_all_keeps_wf, unit_end_keeps_wf,
};

// ---------------------------------------------------------------------------
// Trying units
// ---------------------------------------------------------------------------

/// Trying a ready unit keeps the invariant.
pub proof fn try_keeps_wf(p: ProgramV, s: RunV, u: int, now: TurnV)
    requires
        run_wf(p, s),
        s.ready.contains(u),
    ensures
        run_wf(p, after_try(p, s, u, now).0),
{
    let hole = Set::<int>::empty().insert(u);
    let popped = RunV { ready: s.ready.remove(u), ..s };
    let members = p.units[u].members;
    let n = members.len() as int;
    pop_keeps_wf(p, s, Set::empty(), u);
    assert(hole.remove(u) =~= Set::empty());
    match s.stop {
        Some(reason) => {
            settling_keeps_wf(p, popped, hole, u, n, reason, now.at);
            unit_end_keeps_wf(p, settled_members(p, popped, members, n, reason, now.at), hole, u);
        },
        None => {
            trying_keeps_wf(p, popped, hole, u, n, now);
            let (after, out) = tried(p, popped, members, n, now);
            let ids = member_ids(out);
            assert(members.take(n) =~= members);
            if out.len() == 0 {
                assert forall|i: int| 0 <= i < p.units[u].members.len() implies settled(
                    after,
                    #[trigger] p.units[u].members[i],
                ) by {
                    assert(settled(after, members[i]) || ids.contains(members[i]));
                }
                unit_end_keeps_wf(p, after, hole, u);
            } else if admits(p, after.running, u) {
                assert(flight_wf(p, after, u, ids)) by {
                    assert forall|i: int| 0 <= i < ids.len() implies p.units[u].members.contains(
                        #[trigger] ids[i],
                    ) && !settled(after, ids[i]) by {
                        assert(ids[i] == out[i].node);
                    }
                }
                dispatch_keeps_wf(p, after, hole, u, ids);
            } else {
                block_keeps_wf(p, after, hole, u);
            }
        },
    }
}

proof fn lemma_best(p: ProgramV, ready: Set<int>, n: int, w: int) -> (u: int)
    requires
        ready.contains(w),
        0 <= w < n,
    ensures
        ready.contains(u),
        0 <= u < n,
        forall|v: int| #[trigger]
            ready.contains(v) && 0 <= v < n && v != u ==> p.keys[v] < p.keys[u] || (p.keys[v]
                == p.keys[u] && u < v),
    decreases n,
{
    if exists|x: int| 0 <= x < n - 1 && ready.contains(x) {
        let x = choose|x: int| 0 <= x < n - 1 && ready.contains(x);
        let b = lemma_best(p, ready, n - 1, x);
        if ready.contains(n - 1) && p.keys[n - 1] > p.keys[b] {
            n - 1
        } else {
            b
        }
    } else {
        w
    }
}

proof fn lemma_next(p: ProgramV, s: RunV)
    requires
        run_wf(p, s),
        s.ready != Set::<int>::empty(),
    ensures
        s.ready.contains(next_unit(p, s.ready)),
{
    assert(exists|w: int| s.ready.contains(w)) by {
        if forall|w: int| !s.ready.contains(w) {
            assert(s.ready =~= Set::empty());
        }
    }
    let w = choose|w: int| s.ready.contains(w);
    let u = lemma_best(p, s.ready, p.units.len() as int, w);
    assert(is_next(p, s.ready, u));
    next_unit_unique(p, s.ready, u);
}

/// Every one of the first `n` tries finds a unit.
pub open spec fn busy(p: ProgramV, s: RunV, n: nat, now: TurnV) -> bool {
    forall|m: nat| m < n ==> (#[trigger] after_tries(p, s, m, now)).0.ready != Set::<int>::empty()
}

proof fn lemma_tries_wf(p: ProgramV, s: RunV, n: nat, now: TurnV)
    requires
        run_wf(p, s),
        busy(p, s, n, now),
    ensures
        run_wf(p, after_tries(p, s, n, now).0),
        s.done.subset_of(after_tries(p, s, n, now).0.done),
    decreases n,
{
    if n > 0 {
        let m = (n - 1) as nat;
        lemma_tries_wf(p, s, m, now);
        let before = after_tries(p, s, m, now).0;
        lemma_next(p, before);
        let u = next_unit(p, before.ready);
        try_keeps_wf(p, before, u, now);
        lemma_try_closes(p, before, u, now);
    }
}

proof fn lemma_drain(p: ProgramV, s: RunV, n: nat, now: TurnV)
    requires
        run_wf(p, s),
        busy(p, s, n, now),
    ensures
        exists|m: nat| drains(p, s, m, now),
    decreases open_units(p, after_tries(p, s, n, now).0).len(),
{
    lemma_tries_wf(p, s, n, now);
    let here = after_tries(p, s, n, now).0;
    if here.ready == Set::<int>::empty() {
        assert(drains(p, s, n, now));
    } else {
        lemma_next(p, here);
        let u = next_unit(p, here.ready);
        try_keeps_wf(p, here, u, now);
        lemma_try_closes(p, here, u, now);
        assert(after_tries(p, s, n + 1, now).0 == after_try(p, here, u, now).0);
        lemma_drain(p, s, n + 1, now);
    }
}

/// The tries that a scheduling takes.
pub proof fn lemma_scheduled(p: ProgramV, s: RunV, now: TurnV) -> (n: nat)
    requires
        run_wf(p, s),
    ensures
        busy(p, s, n, now),
        drains(p, s, n, now),
        scheduled(p, s, now) == after_tries(p, s, n, now),
        run_wf(p, scheduled(p, s, now).0),
        scheduled(p, s, now).0.ready == Set::<int>::empty(),
        s.done.subset_of(scheduled(p, s, now).0.done),
{
    lemma_drain(p, s, 0, now);
    let n = choose|m: nat| drains(p, s, m, now);
    drains_unique(p, s, n, now);
    lemma_tries_wf(p, s, n, now);
    n
}

proof fn lemma_round(p: ProgramV, s: RunV, now: TurnV)
    requires
        run_wf(p, s),
    ensures
        run_wf(p, round(p, s, now).0),
        round(p, s, now).2 ==> undone(p, round(p, s, now).0).len() < undone(p, s).len(),
        !round(p, s, now).2 ==> round(p, s, now).0.ready == Set::<int>::empty() && (round(
            p,
            s,
            now,
        ).0.running.len() == 0 ==> round(p, s, now).0.blocked.len() == 0),
{
    let n = lemma_scheduled(p, s, now);
    let after = scheduled(p, s, now).0;
    lemma_undone_monotone(p, s, after);
    if !(after.running.len() > 0 || after.blocked.len() == 0) {
        let units = after.blocked;
        let start = RunV { blocked: Seq::empty(), ..after };
        unblock_all_keeps_wf(p, after);
        lemma_leftover_step(p, start, units, units.len() as int, now.at);
        assert(units.skip(units.len() as int) =~= Seq::empty());
        assert(units.skip(units.len() as int).to_set() =~= Set::empty());
        let left = leftovers_settled(p, start, units, units.len() as int, now.at);
        lemma_undone_shrinks(p, after, left, units[0]);
    }
}

spec fn going(p: ProgramV, s: RunV, n: nat, now: TurnV) -> bool {
    forall|m: nat| m < n ==> (#[trigger] rounds(p, s, m, now)).2
}

/// Rounds keep the invariant.
pub proof fn lemma_rounds_wf(p: ProgramV, s: RunV, n: nat, now: TurnV)
    requires
        run_wf(p, s),
    ensures
        run_wf(p, rounds(p, s, n, now).0),
    decreases n,
{
    if n > 0 {
        lemma_rounds_wf(p, s, (n - 1) as nat, now);
        lemma_round(p, rounds(p, s, (n - 1) as nat, now).0, now);
    }
}

proof fn lemma_settle(p: ProgramV, s: RunV, n: nat, now: TurnV)
    requires
        run_wf(p, s),
        going(p, s, n, now),
    ensures
        exists|m: nat| settles(p, s, m, now),
    decreases
            undone(p, rounds(p, s, n, now).0).len(),
            (if rounds(p, s, n, now).2 {
                1int
            } else {
                0int
            }),
{
    if !rounds(p, s, n, now).2 {
        assert(settles(p, s, n, now));
    } else {
        lemma_rounds_wf(p, s, n, now);
        let here = rounds(p, s, n, now).0;
        lemma_round(p, here, now);
        assert(rounds(p, s, n + 1, now).0 == round(p, here, now).0);
        assert(rounds(p, s, n + 1, now).2 == round(p, here, now).2);
        lemma_round_monotone(p, here, now);
        lemma_settle(p, s, n + 1, now);
    }
}

proof fn lemma_round_monotone(p: ProgramV, s: RunV, now: TurnV)
    requires
        run_wf(p, s),
    ensures
        !round(p, s, now).2 ==> undone(p, round(p, s, now).0).len() <= undone(p, s).len(),
{
    let n = lemma_scheduled(p, s, now);
    let after = scheduled(p, s, now).0;
    lemma_undone_monotone(p, s, after);
    if !(after.running.len() > 0 || after.blocked.len() == 0) {
        let units = after.blocked;
        let start = RunV { blocked: Seq::empty(), ..after };
        unblock_all_keeps_wf(p, after);
        lemma_leftover_step(p, start, units, units.len() as int, now.at);
        lemma_undone_monotone(
            p,
            after,
            leftovers_settled(p, start, units, units.len() as int, now.at),
        );
    }
}

/// Advancing a run keeps the invariant and leaves no unit waiting that could
/// be tried: when nothing runs, nothing is blocked either.
pub proof fn advancing_keeps_wf(p: ProgramV, s: RunV, now: TurnV)
    requires
        run_wf(p, s),
    ensures
        run_wf(p, advanced(p, s, now).0),
        advanced(p, s, now).0.ready == Set::<int>::empty(),
        advanced(p, s, now).0.running.len() == 0 ==> advanced(p, s, now).0.blocked.len() == 0,
{
    lemma_settle(p, s, 0, now);
    let n = choose|m: nat| settles(p, s, m, now);
    settles_unique(p, s, n, now);
    lemma_rounds_wf(p, s, n, now);
    assert(n > 0);
    let m = (n - 1) as nat;
    lemma_rounds_wf(p, s, m, now);
    lemma_round(p, rounds(p, s, m, now).0, now);
}

/// Taking a report in keeps the invariant.
pub proof fn landing_a_report_keeps_wf(p: ProgramV, s: RunV, k: int, o: OutcomeV)
    requires
        run_wf(p, s),
        0 <= k < s.running.len(),
        covers(o.results, s.running[k].1),
    ensures
        run_wf(p, landed(p, s, k, o)),
{
    let u = s.running[k].0;
    let hole = Set::<int>::empty().insert(u);
    let free = RunV { running: s.running.remove(k), ..s };
    landing_keeps_wf(p, s, k);
    outcome_settles_unit(p, free, hole, u, s.running[k].1, o);
    let noted = after_outcome(p, free, o);
    unit_end_keeps_wf(p, noted, hole, u);
    assert(hole.remove(u) =~= Set::empty());
    requeue_keeps_wf(p, after_unit(p, noted, u));
}

/// Cancelling a run keeps the invariant.
pub proof fn cancelling_keeps_wf(p: ProgramV, s: RunV)
    requires
        run_wf(p, s),
    ensures
        run_wf(p, cancelled(s)),
{
    lemma_same_state(p, s, cancelled(s), Set::empty());
}

// ---------------------------------------------------------------------------
// Histories
// ---------------------------------------------------------------------------

/// What a host does with a run.
pub enum StepV {
    /// Tries what can start.
    Advance(TurnV),
    /// Hands in what the running unit at the position reports.
    Land(int, OutcomeV),
    /// Cancels the run.
    Cancel,
}

/// The state after a step.
pub open spec fn stepped(p: ProgramV, s: RunV, step: StepV) -> RunV {
    match step {
        StepV::Advance(now) => advanced(p, s, now).0,
        StepV::Land(k, o) => landed(p, s, k, o),
        StepV::Cancel => cancelled(s),
    }
}

/// The state after the first `k` steps.
pub open spec fn after_steps(p: ProgramV, steps: Seq<StepV>, k: int) -> RunV
    decreases k,
{
    if k <= 0 {
        initial(p)
    } else {
        stepped(p, after_steps(p, steps, k - 1), steps[k - 1])
    }
}

/// The step can be taken: a report names a running unit and has exactly one
/// result for each of the nodes that went out with it.
pub open spec fn is_legal(s: RunV, step: StepV) -> bool {
    match step {
        StepV::Land(k, o) => 0 <= k < s.running.len() && covers(o.results, s.running[k].1),
        _ => true,
    }
}

/// The first `k` steps can be taken.
pub open spec fn all_legal(p: ProgramV, steps: Seq<StepV>, k: int) -> bool {
    forall|i: int| 0 <= i < k ==> is_legal(#[trigger] after_steps(p, steps, i), steps[i])
}

/// The invariant holds in every state of every run.
pub proof fn runs_stay_well_formed(p: ProgramV, steps: Seq<StepV>, k: int)
    requires
        program_wf(p),
        0 <= k <= steps.len(),
        all_legal(p, steps, k),
    ensures
        run_wf(p, after_steps(p, steps, k)),
    decreases k,
{
    if k == 0 {
        initial_wf(p);
    } else {
        runs_stay_well_formed(p, steps, k - 1);
        let s = after_steps(p, steps, k - 1);
        match steps[k - 1] {
            StepV::Advance(now) => {
                advancing_keeps_wf(p, s, now);
            },
            StepV::Land(i, o) => {
                assert(is_legal(s, steps[k - 1]));
                landing_a_report_keeps_wf(p, s, i, o);
            },
            StepV::Cancel => {
                cancelling_keeps_wf(p, s);
            },
        }
    }
}

/// A unit runs only after every unit that it waits for is over.
pub proof fn units_wait_for_their_dependencies(p: ProgramV, s: RunV, k: int)
    requires
        run_wf(p, s),
        0 <= k < s.running.len(),
    ensures
        p.deps[s.running[k].0].subset_of(s.done),
{
    let u = s.running[k].0;
    assert(in_running(s, u));
    assert(placed(s, u));
    assert(p.deps[u].subset_of(s.done) <==> placed(s, u) || Set::<int>::empty().contains(u));
}

/// Units that run at the same time do not clash, and their number keeps the
/// limit of the run and of each tool.
pub proof fn running_units_do_not_clash(p: ProgramV, s: RunV, i: int, j: int)
    requires
        run_wf(p, s),
        0 <= i < j < s.running.len(),
    ensures
        may_overlap(p.units[s.running[i].0].lock, p.units[s.running[j].0].lock),
        within(s.running.len(), global_limit(p)),
        within(
            tool_load(p, s.running, p.units[s.running[i].0].tool),
            tool_limit(p, p.units[s.running[i].0].tool),
        ),
{
    assert(in_running(s, s.running[i].0));
}

/// A serial run has one unit running at a time.
pub proof fn serial_runs_take_turns(p: ProgramV, s: RunV)
    requires
        run_wf(p, s),
        p.serial,
    ensures
        s.running.len() <= 1,
{
}

/// Every unit of the group waits for one of the group.
pub open spec fn self_waiting(p: ProgramV, w: Set<int>) -> bool {
    &&& exists|u: int| w.contains(u)
    &&& forall|u: int| #[trigger]
        w.contains(u) ==> 0 <= u < p.units.len() && exists|d: int| #[trigger]
            p.deps[u].contains(d) && w.contains(d)
}

/// No group of units waits for itself.
pub open spec fn units_acyclic(p: ProgramV) -> bool {
    forall|w: Set<int>| !(#[trigger] self_waiting(p, w))
}

/// A run that has nothing left to try and nothing running has settled every
/// node: each finished, failed or was skipped.
pub proof fn finished_runs_settle_every_node(p: ProgramV, s: RunV, id: Seq<char>)
    requires
        run_wf(p, s),
        units_acyclic(p),
        s.ready == Set::<int>::empty(),
        s.running.len() == 0,
        s.blocked.len() == 0,
        has_node(p.plan.nodes, id),
    ensures
        settled(s, id),
{
    let w = undone(p, s);
    if exists|u: int| w.contains(u) {
        assert forall|u: int| #[trigger] w.contains(u) implies 0 <= u < p.units.len()
            && exists|d: int| #[trigger] p.deps[u].contains(d) && w.contains(d) by {
            if p.deps[u].subset_of(s.done) {
                assert(placed(s, u) || Set::<int>::empty().contains(u));
                assert(!in_running(s, u));
            } else {
                let d = choose|d: int| #[trigger] p.deps[u].contains(d) && !s.done.contains(d);
                assert(0 <= d < p.units.len());
                assert(w.contains(d));
            }
        }
        assert(self_waiting(p, w));
    }
    assert(crate::runtime::model::has_unit(p, id));
    let u = choose|u: int| 0 <= u < p.units.len() && (#[trigger] p.units[u]).members.contains(id);
    assert(!w.contains(u));
    let i = choose|i: int| 0 <= i < p.units[u].members.len() && p.units[u].members[i] == id;
    assert(settled(s, p.units[u].members[i]));
}

// ---------------------------------------------------------------------------
// Stopping
// ---------------------------------------------------------------------------

proof fn lemma_settling_keeps_stop(
    p: ProgramV,
    s: RunV,
    members: Seq<Seq<char>>,
    k: int,
    fallback: SkipReason,
    now: u64,
)
    ensures
        settled_members(p, s, members, k, fallback, now).stop == s.stop,
        settled_members(p, s, members, k, fallback, now).running == s.running,
    decreases k,
{
    if k > 0 {
        lemma_settling_keeps_stop(p, s, members, k - 1, fallback, now);
    }
}

proof fn lemma_tries_stopped(p: ProgramV, s: RunV, n: nat, now: TurnV)
    requires
        s.stop is Some,
    ensures
        after_tries(p, s, n, now).1.len() == 0,
        after_tries(p, s, n, now).0.stop == s.stop,
        after_tries(p, s, n, now).0.running == s.running,
    decreases n,
{
    if n > 0 {
        lemma_tries_stopped(p, s, (n - 1) as nat, now);
        let before = after_tries(p, s, (n - 1) as nat, now).0;
        let u = next_unit(p, before.ready);
        let popped = RunV { ready: before.ready.remove(u), ..before };
        let members = p.units[u].members;
        lemma_settling_keeps_stop(
            p,
            popped,
            members,
            members.len() as int,
            s.stop->0,
            now.at,
        );
    }
}

proof fn lemma_leftovers_stopped(p: ProgramV, s: RunV, units: Seq<int>, k: int, now: u64)
    ensures
        leftovers_settled(p, s, units, k, now).stop == s.stop,
        leftovers_settled(p, s, units, k, now).running == s.running,
    decreases k,
{
    if k > 0 {
        lemma_leftovers_stopped(p, s, units, k - 1, now);
        let before = leftovers_settled(p, s, units, k - 1, now);
        let members = p.units[units[k - 1]].members;
        lemma_settling_keeps_stop(
            p,
            before,
            members,
            members.len() as int,
            SkipReason::NotRun,
            now,
        );
    }
}

proof fn lemma_rounds_stopped(p: ProgramV, s: RunV, n: nat, now: TurnV)
    requires
        s.stop is Some,
    ensures
        rounds(p, s, n, now).1.len() == 0,
        rounds(p, s, n, now).0.stop == s.stop,
        rounds(p, s, n, now).0.running == s.running,
    decreases n,
{
    if n > 0 {
        lemma_rounds_stopped(p, s, (n - 1) as nat, now);
        let before = rounds(p, s, (n - 1) as nat, now).0;
        let m = choose|m: nat| drains(p, before, m, now);
        lemma_tries_stopped(p, before, m, now);
        let after = scheduled(p, before, now).0;
        lemma_leftovers_stopped(
            p,
            RunV { blocked: Seq::empty(), ..after },
            after.blocked,
            after.blocked.len() as int,
            now.at,
        );
    }
}

/// A run that was stopped, by a failure in a fail-fast run or by
/// cancellation, starts nothing more, and what runs is left to finish.
pub proof fn stopped_runs_start_nothing(p: ProgramV, s: RunV, now: TurnV)
    requires
        s.stop is Some,
    ensures
        advanced(p, s, now).1.len() == 0,
        advanced(p, s, now).0.stop == s.stop,
        advanced(p, s, now).0.running == s.running,
{
    let n = choose|n: nat| settles(p, s, n, now);
    lemma_rounds_stopped(p, s, n, now);
}

// ---------------------------------------------------------------------------
// Faithfulness
// ---------------------------------------------------------------------------

/// The reason is the right one. Only conditions and lost dependencies need
/// one; the others depend on when the run was stopped.
pub open spec fn justified(p: ProgramV, s: RunV, id: Seq<char>, reason: SkipReason) -> bool {
    match reason {
        SkipReason::Condition => node_of(p, id).when is Some && when_verdict(
            node_of(p, id).when->0,
            s.outputs,
        ) == Ok::<bool, crate::adapters::api::ToolErrorV>(false),
        SkipReason::FailedDependency => poisoned(p, s, id),
        _ => true,
    }
}

/// The run does what the plan says: every output is what the tools answer
/// the node, every skip has its reason, and what went out can be called.
pub open spec fn faithful(p: ProgramV, tools: ToolsV, s: RunV) -> bool {
    &&& forall|id: Seq<char>| #[trigger]
        s.outputs.dom().contains(id) ==> callable(node_of(p, id), s.outputs) && s.outputs[id]
            == value_of(tools, node_of(p, id), s.outputs)
    &&& forall|id: Seq<char>| #[trigger]
        s.skipped.dom().contains(id) ==> justified(p, s, id, s.skipped[id])
    &&& forall|k: int, i: int|
        0 <= k < s.running.len() && 0 <= i < s.running[k].1.len() ==> callable(
            node_of(p, #[trigger] s.running[k].1[i]),
            s.outputs,
        )
}

/// Every result that a report brings is what the tools answer.
pub open spec fn honest(p: ProgramV, tools: ToolsV, s: RunV, results: Seq<NodeResultV>) -> bool {
    forall|i: int|
        0 <= i < results.len() ==> ((#[trigger] results[i]).result matches Ok(v) ==> v == value_of(
            tools,
            node_of(p, results[i].node),
            s.outputs,
        ))
}

/// The nodes that are dead in the first state are dead in the second.
spec fn buries(s: RunV, t: RunV) -> bool {
    &&& s.errors.dom().subset_of(t.errors.dom())
    &&& s.skipped.dom().subset_of(t.skipped.dom())
}

proof fn lemma_justified(p: ProgramV, s: RunV, t: RunV, id: Seq<char>, reason: SkipReason)
    requires
        justified(p, s, id, reason),
        buries(s, t),
        extends(t.outputs, s.outputs),
    ensures
        justified(p, t, id, reason),
{
    match reason {
        SkipReason::Condition => {
            verdict_is_stable(node_of(p, id).when->0, s.outputs, t.outputs);
        },
        SkipReason::FailedDependency => {
            let d = choose|d: Seq<char>| #[trigger]
                data_deps(node_of(p, id)).contains(d) && dead(s, d);
            assert(dead(t, d));
        },
        _ => {},
    }
}

/// A state that differs in nothing else but justified skips, failures and
/// callable departures is faithful.
proof fn lemma_keep(p: ProgramV, tools: ToolsV, s: RunV, t: RunV)
    requires
        faithful(p, tools, s),
        t.outputs == s.outputs,
        buries(s, t),
        forall|id: Seq<char>| #[trigger]
            t.skipped.dom().contains(id) ==> justified(p, s, id, t.skipped[id]),
        forall|k: int, i: int|
            0 <= k < t.running.len() && 0 <= i < t.running[k].1.len() ==> callable(
                node_of(p, #[trigger] t.running[k].1[i]),
                s.outputs,
            ),
    ensures
        faithful(p, tools, t),
{
    assert forall|id: Seq<char>| #[trigger] t.skipped.dom().contains(id) implies justified(
        p,
        t,
        id,
        t.skipped[id],
    ) by {
        lemma_justified(p, s, t, id, t.skipped[id]);
    }
}

proof fn lemma_same(p: ProgramV, tools: ToolsV, s: RunV, t: RunV)
    requires
        faithful(p, tools, s),
        t.outputs == s.outputs,
        t.errors == s.errors,
        t.skipped == s.skipped,
        t.running == s.running,
    ensures
        faithful(p, tools, t),
{
    lemma_keep(p, tools, s, t);
}

proof fn lemma_skip(
    p: ProgramV,
    tools: ToolsV,
    s: RunV,
    id: Seq<char>,
    reason: SkipReason,
    now: u64,
)
    requires
        faithful(p, tools, s),
        justified(p, s, id, reason),
    ensures
        faithful(p, tools, after_skip(p, s, id, reason, now)),
        after_skip(p, s, id, reason, now).outputs == s.outputs,
{
    lemma_keep(p, tools, s, after_skip(p, s, id, reason, now));
}

proof fn lemma_settling(
    p: ProgramV,
    tools: ToolsV,
    s: RunV,
    members: Seq<Seq<char>>,
    k: int,
    fallback: SkipReason,
    now: u64,
)
    requires
        faithful(p, tools, s),
        fallback == SkipReason::NotRun || fallback == SkipReason::Cancelled,
    ensures
        faithful(p, tools, settled_members(p, s, members, k, fallback, now)),
        settled_members(p, s, members, k, fallback, now).outputs == s.outputs,
        settled_members(p, s, members, k, fallback, now).running == s.running,
    decreases k,
{
    if k > 0 {
        lemma_settling(p, tools, s, members, k - 1, fallback, now);
        let before = settled_members(p, s, members, k - 1, fallback, now);
        let id = members[k - 1];
        if !settled(before, id) {
            lemma_skip(p, tools, before, id, settle_reason(p, before, id, fallback), now);
        }
    }
}

proof fn lemma_trying(
    p: ProgramV,
    tools: ToolsV,
    s: RunV,
    members: Seq<Seq<char>>,
    k: int,
    now: TurnV,
)
    requires
        faithful(p, tools, s),
        0 <= k <= members.len(),
        forall|i: int| 0 <= i < members.len() ==> has_node(p.plan.nodes, #[trigger] members[i]),
    ensures
        faithful(p, tools, tried(p, s, members, k, now).0),
        tried(p, s, members, k, now).0.outputs == s.outputs,
        tried(p, s, members, k, now).0.running == s.running,
        forall|i: int|
            0 <= i < tried(p, s, members, k, now).1.len() ==> callable(
                node_of(p, (#[trigger] tried(p, s, members, k, now).1[i]).node),
                s.outputs,
            ),
    decreases k,
{
    if k > 0 {
        lemma_trying(p, tools, s, members, k - 1, now);
        let (before, out) = tried(p, s, members, k - 1, now);
        let (after, more) = tried(p, s, members, k, now);
        let id = members[k - 1];
        let why = (now.reasons)(id);
        let v = member_verdict(p, before, id, why);
        let node = node_of(p, id);
        assert(has_node(p.plan.nodes, members[k - 1]));
        match v {
            MemberV::Settled => {},
            MemberV::Skip(reason) => {
                lemma_skip(p, tools, before, id, reason, now.at);
            },
            MemberV::Fail(e) => {
                lemma_keep(p, tools, before, after);
            },
            MemberV::Go(m) => {
                lemma_go_names_member(p, before, id, why);
                prepared_nodes_are_callable(node, before.outputs);
            },
        }
        assert forall|i: int| 0 <= i < more.len() implies callable(
            node_of(p, (#[trigger] more[i]).node),
            s.outputs,
        ) by {
            if i < out.len() {
                assert(more[i] == out[i]);
            }
        }
    }
}

/// A stop has one of two reasons.
pub open spec fn stop_known(s: RunV) -> bool {
    match s.stop {
        None => true,
        Some(reason) => reason == SkipReason::NotRun || reason == SkipReason::Cancelled,
    }
}

proof fn lemma_verdicts_keep_stop(
    p: ProgramV,
    s: RunV,
    members: Seq<Seq<char>>,
    k: int,
    now: TurnV,
)
    requires
        stop_known(s),
    ensures
        stop_known(tried(p, s, members, k, now).0),
    decreases k,
{
    if k > 0 {
        lemma_verdicts_keep_stop(p, s, members, k - 1, now);
    }
}

proof fn lemma_try(p: ProgramV, tools: ToolsV, s: RunV, u: int, now: TurnV)
    requires
        run_wf(p, s),
        s.ready.contains(u),
        faithful(p, tools, s),
        stop_known(s),
    ensures
        faithful(p, tools, after_try(p, s, u, now).0),
        after_try(p, s, u, now).0.outputs == s.outputs,
        stop_known(after_try(p, s, u, now).0),
        forall|i: int|
            after_try(p, s, u, now).1 is Some && 0 <= i < after_try(p, s, u, now).1->0.members.len()
                ==> callable(
                node_of(p, (#[trigger] after_try(p, s, u, now).1->0.members[i]).node),
                s.outputs,
            ),
{
    let popped = RunV { ready: s.ready.remove(u), ..s };
    let members = p.units[u].members;
    let n = members.len() as int;
    lemma_same(p, tools, s, popped);
    match s.stop {
        Some(reason) => {
            lemma_settling(p, tools, popped, members, n, reason, now.at);
            lemma_settling_keeps_stop(p, popped, members, n, reason, now.at);
            let mid = settled_members(p, popped, members, n, reason, now.at);
            lemma_same(p, tools, mid, after_unit(p, mid, u));
        },
        None => {
            assert forall|i: int| 0 <= i < members.len() implies has_node(
                p.plan.nodes,
                #[trigger] members[i],
            ) by {
                assert(has_node(p.plan.nodes, p.units[u].members[i]));
            }
            lemma_trying(p, tools, popped, members, n, now);
            lemma_verdicts_keep_stop(p, popped, members, n, now);
            let (after, out) = tried(p, popped, members, n, now);
            let t = after_try(p, s, u, now).0;
            if out.len() == 0 {
                lemma_same(p, tools, after, t);
            } else if admits(p, after.running, u) {
                assert forall|k: int, i: int|
                    0 <= k < t.running.len() && 0 <= i < t.running[k].1.len() implies callable(
                    node_of(p, #[trigger] t.running[k].1[i]),
                    after.outputs,
                ) by {
                    if k < after.running.len() {
                        assert(t.running[k] == after.running[k]);
                        assert(callable(node_of(p, after.running[k].1[i]), after.outputs));
                    } else {
                        assert(t.running[k].1[i] == out[i].node);
                    }
                }
                lemma_keep(p, tools, after, t);
            } else {
                lemma_same(p, tools, after, t);
            }
        },
    }
}

proof fn lemma_tries(p: ProgramV, tools: ToolsV, s: RunV, n: nat, now: TurnV)
    requires
        run_wf(p, s),
        busy(p, s, n, now),
        faithful(p, tools, s),
        stop_known(s),
    ensures
        faithful(p, tools, after_tries(p, s, n, now).0),
        after_tries(p, s, n, now).0.outputs == s.outputs,
        stop_known(after_tries(p, s, n, now).0),
    decreases n,
{
    if n > 0 {
        let m = (n - 1) as nat;
        lemma_tries(p, tools, s, m, now);
        lemma_tries_wf(p, s, m, now);
        let before = after_tries(p, s, m, now).0;
        lemma_next(p, before);
        lemma_try(p, tools, before, next_unit(p, before.ready), now);
    }
}

proof fn lemma_leftovers(p: ProgramV, tools: ToolsV, s: RunV, units: Seq<int>, k: int, now: u64)
    requires
        faithful(p, tools, s),
    ensures
        faithful(p, tools, leftovers_settled(p, s, units, k, now)),
        leftovers_settled(p, s, units, k, now).outputs == s.outputs,
    decreases k,
{
    if k > 0 {
        lemma_leftovers(p, tools, s, units, k - 1, now);
        let before = leftovers_settled(p, s, units, k - 1, now);
        let members = p.units[units[k - 1]].members;
        let n = members.len() as int;
        lemma_settling(p, tools, before, members, n, SkipReason::NotRun, now);
        let mid = settled_members(p, before, members, n, SkipReason::NotRun, now);
        lemma_same(p, tools, mid, after_unit(p, mid, units[k - 1]));
    }
}

proof fn lemma_rounds(p: ProgramV, tools: ToolsV, s: RunV, n: nat, now: TurnV)
    requires
        run_wf(p, s),
        faithful(p, tools, s),
        stop_known(s),
    ensures
        faithful(p, tools, rounds(p, s, n, now).0),
        rounds(p, s, n, now).0.outputs == s.outputs,
        stop_known(rounds(p, s, n, now).0),
    decreases n,
{
    if n > 0 {
        let m = (n - 1) as nat;
        lemma_rounds(p, tools, s, m, now);
        lemma_rounds_wf(p, s, m, now);
        let before = rounds(p, s, m, now).0;
        let k = lemma_scheduled(p, before, now);
        lemma_tries(p, tools, before, k, now);
        let after = scheduled(p, before, now).0;
        if !(after.running.len() > 0 || after.blocked.len() == 0) {
            let start = RunV { blocked: Seq::empty(), ..after };
            lemma_same(p, tools, after, start);
            lemma_leftovers(p, tools, start, after.blocked, after.blocked.len() as int, now.at);
            lemma_leftovers_stopped(p, start, after.blocked, after.blocked.len() as int, now.at);
        }
    }
}

proof fn lemma_results(
    p: ProgramV,
    tools: ToolsV,
    s: RunV,
    results: Seq<NodeResultV>,
    k: int,
)
    requires
        faithful(p, tools, s),
        stop_known(s),
        honest(p, tools, s, results),
        result_nodes(results).no_duplicates(),
        forall|i: int|
            0 <= i < results.len() ==> callable(node_of(p, (#[trigger] results[i]).node), s.outputs)
                && !s.outputs.dom().contains(results[i].node),
        0 <= k <= results.len(),
    ensures
        faithful(p, tools, after_results(p, s, results, k)),
        stop_known(after_results(p, s, results, k)),
        extends(after_results(p, s, results, k).outputs, s.outputs),
        forall|i: int|
            k <= i < results.len() ==> !after_results(p, s, results, k).outputs.dom().contains(
                (#[trigger] results[i]).node,
            ),
    decreases k,
{
    if k > 0 {
        lemma_results(p, tools, s, results, k - 1);
        let before = after_results(p, s, results, k - 1);
        let after = after_results(p, s, results, k);
        let id = results[k - 1].node;
        let names = result_nodes(results);
        assert forall|i: int| k <= i < results.len() implies !after.outputs.dom().contains(
            (#[trigger] results[i]).node,
        ) by {
            assert(names[i] != names[k - 1]);
            assert(!before.outputs.dom().contains(results[i].node));
        }
        match results[k - 1].result {
            Ok(v) => {
                let node = node_of(p, id);
                assert(callable(node_of(p, results[k - 1].node), s.outputs));
                assert(!before.outputs.dom().contains(results[k - 1].node));
                assert(extends(after.outputs, before.outputs));
                callable_is_stable(tools, node, s.outputs, before.outputs);
                callable_is_stable(tools, node, before.outputs, after.outputs);
                assert forall|x: Seq<char>| #[trigger] after.outputs.dom().contains(x) implies callable(
                    node_of(p, x),
                    after.outputs,
                ) && after.outputs[x] == value_of(tools, node_of(p, x), after.outputs) by {
                    if x != id {
                        assert(before.outputs.dom().contains(x));
                        callable_is_stable(tools, node_of(p, x), before.outputs, after.outputs);
                    }
                }
                assert forall|x: Seq<char>| #[trigger] after.skipped.dom().contains(x) implies justified(
                    p,
                    after,
                    x,
                    after.skipped[x],
                ) by {
                    lemma_justified(p, before, after, x, after.skipped[x]);
                }
                assert forall|j: int, i: int|
                    0 <= j < after.running.len() && 0 <= i < after.running[j].1.len() implies callable(
                    node_of(p, #[trigger] after.running[j].1[i]),
                    after.outputs,
                ) by {
                    let x = before.running[j].1[i];
                    assert(callable(node_of(p, before.running[j].1[i]), before.outputs));
                    callable_is_stable(tools, node_of(p, x), before.outputs, after.outputs);
                }
            },
            Err(e) => {
                lemma_keep(p, tools, before, after);
            },
        }
    }
}

/// Advancing a run keeps it faithful and changes no output.
pub proof fn advancing_keeps_faith(p: ProgramV, tools: ToolsV, s: RunV, now: TurnV)
    requires
        run_wf(p, s),
        faithful(p, tools, s),
        stop_known(s),
    ensures
        faithful(p, tools, advanced(p, s, now).0),
        stop_known(advanced(p, s, now).0),
        advanced(p, s, now).0.outputs == s.outputs,
{
    let n = choose|m: nat| settles(p, s, m, now);
    lemma_rounds(p, tools, s, n, now);
}

/// Taking an honest report in keeps a run faithful; outputs that are there
/// stay as they are.
pub proof fn honest_reports_keep_faith(
    p: ProgramV,
    tools: ToolsV,
    s: RunV,
    k: int,
    o: OutcomeV,
)
    requires
        run_wf(p, s),
        faithful(p, tools, s),
        stop_known(s),
        0 <= k < s.running.len(),
        covers(o.results, s.running[k].1),
        honest(p, tools, s, o.results),
    ensures
        faithful(p, tools, landed(p, s, k, o)),
        stop_known(landed(p, s, k, o)),
        extends(landed(p, s, k, o).outputs, s.outputs),
{
    let ids = s.running[k].1;
    let free = RunV { running: s.running.remove(k), ..s };
    assert forall|j: int, i: int|
        0 <= j < free.running.len() && 0 <= i < free.running[j].1.len() implies callable(
        node_of(p, #[trigger] free.running[j].1[i]),
        s.outputs,
    ) by {
        let x = if j < k {
            j
        } else {
            j + 1
        };
        assert(free.running[j] == s.running[x]);
        assert(callable(node_of(p, s.running[x].1[i]), s.outputs));
    }
    lemma_keep(p, tools, s, free);
    let noted = outcome_noted(free, o);
    lemma_same(p, tools, free, noted);
    assert(flight_wf(p, s, s.running[k].0, s.running[k].1));
    assert forall|i: int| 0 <= i < o.results.len() implies callable(
        node_of(p, (#[trigger] o.results[i]).node),
        noted.outputs,
    ) && !noted.outputs.dom().contains(o.results[i].node) by {
        assert(ids.contains(o.results[i].node));
        let x = choose|x: int| 0 <= x < ids.len() && ids[x] == o.results[i].node;
        assert(callable(node_of(p, s.running[k].1[x]), s.outputs));
        assert(!settled(s, ids[x]));
    }
    assert(honest(p, tools, noted, o.results));
    lemma_results(p, tools, noted, o.results, o.results.len() as int);
    let done = after_outcome(p, free, o);
    assert(done == after_results(p, noted, o.results, o.results.len() as int));
    lemma_same(p, tools, done, landed(p, s, k, o));
}

/// The reports among the first `k` steps are honest.
pub open spec fn all_honest(p: ProgramV, tools: ToolsV, steps: Seq<StepV>, k: int) -> bool {
    forall|i: int|
        0 <= i < k ==> (steps[i] matches StepV::Land(_, o) ==> honest(
            p,
            tools,
            #[trigger] after_steps(p, steps, i),
            o.results,
        ))
}

/// Whatever the schedule, the batches and the order in which reports arrive:
/// with tools that answer by their input, every output is what the plan says.
pub proof fn runs_are_faithful(p: ProgramV, tools: ToolsV, steps: Seq<StepV>, k: int)
    requires
        program_wf(p),
        0 <= k <= steps.len(),
        all_legal(p, steps, k),
        all_honest(p, tools, steps, k),
    ensures
        faithful(p, tools, after_steps(p, steps, k)),
        stop_known(after_steps(p, steps, k)),
    decreases k,
{
    if k > 0 {
        runs_are_faithful(p, tools, steps, k - 1);
        runs_stay_well_formed(p, steps, k - 1);
        let s = after_steps(p, steps, k - 1);
        match steps[k - 1] {
            StepV::Advance(now) => {
                advancing_keeps_faith(p, tools, s, now);
            },
            StepV::Land(i, o) => {
                assert(is_legal(s, steps[k - 1]));
                honest_reports_keep_faith(p, tools, s, i, o);
            },
            StepV::Cancel => {
                lemma_same(p, tools, s, cancelled(s));
            },
        }
    }
}

} // verus!
