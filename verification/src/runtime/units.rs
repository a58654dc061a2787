//! Moving units through a run: admission, dispatch, landing.

use vstd::prelude::*;

use crate::ordered::StrSet;
use crate::runtime::dispatch::{DispatchOutcome, NodeResult, PreparedMember, UnitSpec};
use crate::runtime::engine::Program;
use crate::runtime::model::{DispatchV, ProgramV, RunV, TurnV};
use crate::runtime::result::SkipReason;
use crate::runtime::scheduler::{
    complete_error, complete_skip, is_poisoned, is_settled, judge, record_failure, record_output,
    Flight, RunState, Verdict,
};

verus! {

use crate::graph::rounds::ints;
use crate::optimizer::batch::has_node;
use crate::ordered::{pairs_view_lookup, views};
use crate::runtime::dispatch::covers;
use crate::runtime::engine::are_dependents;
use crate::runtime::locks::{grants, may_overlap};
use crate::runtime::model::{
    admits, after_outcome, after_results, after_settle, after_tries, after_try, after_unit,
    deps_in_range, drains, drains_unique, is_next, landed, leftovers_settled, member_ids,
    member_verdict, next_unit_unique, requeued, scheduled, settled, settled_members, tool_limit, tool_load, tried,
    unblocked, written,
};
use crate::runtime::scheduler::{counted, held_locks, same_units};
use crate::runtime::turns::{
    lemma_verdict, merged, merged_turns_agree, tried_agrees, tries_agree, try_agrees,
};
use crate::runtime::upkeep::{
    block_keeps_wf, dispatch_keeps_wf, flight_wf, in_running, landing_keeps_wf,
    lemma_go_names_member, lemma_load_bound,
    lemma_load_push, lemma_load_remove, lemma_room, lemma_same_state, outcome_noted,
    outcome_settles_unit, pop_keeps_wf, requeue_keeps_wf, results_keep_wf, run_wf,
    settling_keeps_wf, trying_keeps_wf, unblock_all_keeps_wf, unit_end_keeps_wf, wf_holding,
};
use crate::text::texts_view;

// ---------------------------------------------------------------------------
// Ending a unit
// ---------------------------------------------------------------------------

proof fn lemma_waits_less(deps: Set<int>, done: Set<int>, u: int)
    requires
        deps.finite(),
        deps.contains(u),
        !done.contains(u),
    ensures
        deps.difference(done).len() >= 1,
        deps.difference(done.insert(u)).len() == deps.difference(done).len() - 1,
        deps.difference(done.insert(u)).len() == 0 <==> deps.subset_of(done.insert(u)),
{
    let a = deps.difference(done);
    let b = deps.difference(done.insert(u));
    assert(a.subset_of(deps));
    vstd::set_lib::lemma_len_subset(a, deps);
    assert(a.contains(u));
    assert(b =~= a.remove(u));
    if b.len() == 0 {
        assert(b =~= Set::empty());
        assert forall|d: int| deps.contains(d) implies done.insert(u).contains(d) by {
            if !done.insert(u).contains(d) {
                assert(b.contains(d));
            }
        }
    }
    if deps.subset_of(done.insert(u)) {
        assert(b =~= Set::empty());
    }
}

proof fn lemma_in_ints(s: Seq<usize>, x: usize)
    ensures
        ints(s).contains(x as int) == s.contains(x),
        ints(s).to_set().contains(x as int) == s.contains(x),
{
    if s.contains(x) {
        let i = choose|i: int| 0 <= i < s.len() && s[i] == x;
        assert(ints(s)[i] == x);
    }
    if ints(s).contains(x as int) {
        let i = choose|i: int| 0 <= i < ints(s).len() && ints(s)[i] == x;
        assert(s[i] == x);
    }
}

/// Ends a unit: the units that wait for nothing else become ready.
fn unblock(p: &Program, st: &mut RunState, unit: usize, Ghost(hole): Ghost<Set<int>>)
    requires
        p.wf(),
        old(st).linked(p@),
        wf_holding(p@, old(st)@, hole),
        hole.contains(unit as int),
    ensures
        final(st)@ == after_unit(p@, old(st)@, unit as int),
        final(st).linked(p@),
{
    let ghost u = unit as int;
    let ghost pv = p@;
    let ghost before = *st;
    let ghost done = st.done@;
    let ghost list = p.dependents@[u]@;
    assert(are_dependents(pv.deps, u, list));
    let mut i: usize = 0;
    proof {
        assert(list.take(0) =~= Seq::empty());
        assert(st@.ready =~= before@.ready.union(
            Set::new(
                |d: int|
                    0 <= d < pv.units.len() && list.take(0).contains(d as usize)
                        && pv.deps[d].subset_of(done.insert(u)),
            ),
        ));
    }
    while i < p.dependents[unit].len()
        invariant
            p.wf(),
            pv == p@,
            u == unit,
            0 <= u < pv.units.len(),
            list == p.dependents@[u]@,
            are_dependents(pv.deps, u, list),
            i <= list.len(),
            before.linked(pv),
            wf_holding(pv, before@, hole),
            hole.contains(u),
            done == before.done@,
            st.done == before.done,
            st.blocked == before.blocked,
            st.running == before.running,
            st.locks == before.locks,
            st.tool_in_flight == before.tool_in_flight,
            st.outputs == before.outputs,
            st.errors == before.errors,
            st.skipped == before.skipped,
            st.trace == before.trace,
            st.metrics == before.metrics,
            st.stop == before.stop,
            st.remaining@.len() == pv.units.len(),
            forall|w: int|
                0 <= w < pv.units.len() ==> (#[trigger] st.remaining@[w]) == if list.take(
                    i as int,
                ).contains(w as usize) {
                    pv.deps[w].difference(done.insert(u)).len()
                } else {
                    pv.deps[w].difference(done).len()
                },
            st.ready@.no_duplicates(),
            forall|d: usize| #[trigger]
                st.ready@.contains(d) <==> before.ready@.contains(d) || (list.take(
                    i as int,
                ).contains(d) && pv.deps[d as int].subset_of(done.insert(u))),
        decreases list.len() - i,
    {
        let d: usize = p.dependents[unit][i];
        let ghost seen = list.take(i as int);
        let ghost more = list.take(i + 1);
        proof {
            assert(more =~= seen.push(d));
            assert(list.contains(d)) by {
                assert(list[i as int] == d);
            }
            assert(pv.deps[d as int].contains(u));
            assert(deps_in_range(pv.deps[d as int], d as int, pv.units.len() as int));
            assert(!done.contains(u));
            lemma_waits_less(pv.deps[d as int], done, u);
            assert(!seen.contains(d)) by {
                if seen.contains(d) {
                    let j = choose|j: int| 0 <= j < seen.len() && seen[j] == d;
                    assert(list[j] == list[i as int]);
                }
            }
            assert forall|x: usize| #[trigger] more.contains(x) <==> seen.contains(x) || x == d by {
                if seen.contains(x) {
                    let j = choose|j: int| 0 <= j < seen.len() && seen[j] == x;
                    assert(more[j] == x);
                }
                assert(more[i as int] == d);
                if more.contains(x) {
                    let j = choose|j: int| 0 <= j < more.len() && more[j] == x;
                    if j < i {
                        assert(seen[j] == x);
                    }
                }
            }
            assert(!before@.ready.contains(d as int)) by {
                assert(!pv.deps[d as int].subset_of(done));
            }
            lemma_in_ints(before.ready@, d);
        }
        let left: usize = st.remaining[d] - 1;
        st.remaining.set(d, left);
        let ghost ready_before = st.ready@;
        if left == 0 {
            st.ready.push(d);
        }
        proof {
            assert forall|x: usize| #[trigger] st.ready@.contains(x) <==> before.ready@.contains(x) || (
            more.contains(x) && pv.deps[x as int].subset_of(done.insert(u))) by {
                if left == 0 {
                    if ready_before.contains(x) {
                        let j = choose|j: int| 0 <= j < ready_before.len() && ready_before[j] == x;
                        assert(st.ready@[j] == x);
                    }
                    assert(st.ready@[ready_before.len() as int] == d);
                    if st.ready@.contains(x) {
                        let j = choose|j: int| 0 <= j < st.ready@.len() && st.ready@[j] == x;
                        if j < ready_before.len() {
                            assert(ready_before[j] == x);
                        }
                    }
                }
                assert(more.contains(x) <==> seen.contains(x) || x == d);
                assert(ready_before.contains(x) <==> before.ready@.contains(x) || (seen.contains(x)
                    && pv.deps[x as int].subset_of(done.insert(u))));
            }
            if left == 0 {
                assert(!ready_before.contains(d));
                assert forall|a: int, b: int|
                    0 <= a < st.ready@.len() && 0 <= b < st.ready@.len() && a != b implies st.ready@[a]
                    != st.ready@[b] by {
                    if a < ready_before.len() && b < ready_before.len() {
                        assert(ready_before[a] != ready_before[b]);
                    } else if a < ready_before.len() {
                        assert(ready_before.contains(ready_before[a]));
                    } else {
                        assert(ready_before.contains(ready_before[b]));
                    }
                }
            }
        }
        i = i + 1;
    }
    st.done = Ghost(done.insert(u));
    proof {
        assert(list.take(i as int) =~= list);
        assert forall|w: int| 0 <= w < pv.units.len() implies (#[trigger] st.remaining@[w])
            == pv.deps[w].difference(st.done@).len() by {
            if !list.contains(w as usize) {
                assert(!pv.deps[w].contains(u));
                assert(pv.deps[w].difference(done.insert(u)) =~= pv.deps[w].difference(done));
            }
        }
        let want = after_unit(pv, before@, u);
        assert forall|w: int| #[trigger] st@.ready.contains(w) <==> want.ready.contains(w) by {
            if st@.ready.contains(w) {
                let j = choose|j: int| 0 <= j < ints(st.ready@).len() && ints(st.ready@)[j] == w;
                let x = st.ready@[j];
                assert(st.ready@.contains(x));
                lemma_in_ints(before.ready@, x);
            }
            if want.ready.contains(w) {
                if before@.ready.contains(w) {
                    let j = choose|j: int|
                        0 <= j < ints(before.ready@).len() && ints(before.ready@)[j] == w;
                    let x = before.ready@[j];
                    assert(before.ready@.contains(x));
                    lemma_in_ints(st.ready@, x);
                } else {
                    let x = w as usize;
                    assert(unblocked(pv, before@.done, u).contains(w));
                    assert(list.contains(x));
                    lemma_in_ints(st.ready@, x);
                }
            }
        }
        assert(st@.ready =~= want.ready);
        assert(st@ =~= want);
        assert(st@.running == before@.running);
        assert forall|tool: Seq<char>| #[trigger] counted(st.tool_in_flight@, tool) == tool_load(
            pv,
            st@.running,
            tool,
        ) by {
            assert(counted(before.tool_in_flight@, tool) == tool_load(pv, before@.running, tool));
        }
    }
}

/// `linked` speaks of units alone.
proof fn lemma_linked_same(p: ProgramV, a: RunState, b: RunState)
    requires
        a.linked(p),
        same_units(a, b),
    ensures
        b.linked(p),
        b@.running == a@.running,
        b@.ready == a@.ready,
        b@.blocked == a@.blocked,
        b@.done == a@.done,
{
    assert(b@.running == a@.running);
    assert forall|tool: Seq<char>| #[trigger] counted(b.tool_in_flight@, tool) == tool_load(
        p,
        b@.running,
        tool,
    ) by {
        assert(counted(a.tool_in_flight@, tool) == tool_load(p, a@.running, tool));
    }
}

/// Settles a unit without running it.
fn settle_unit(
    p: &Program,
    st: &mut RunState,
    unit: usize,
    fallback: SkipReason,
    now: u64,
    Ghost(hole): Ghost<Set<int>>,
)
    requires
        p.wf(),
        old(st).linked(p@),
        wf_holding(p@, old(st)@, hole),
        hole.contains(unit as int),
    ensures
        final(st)@ == after_settle(p@, old(st)@, unit as int, fallback, now),
        final(st).linked(p@),
        wf_holding(p@, final(st)@, hole.remove(unit as int)),
{
    let ghost u = unit as int;
    let ghost pv = p@;
    let ghost s0 = st@;
    let ghost members = pv.units[u].members;
    assert(members == texts_view(p.units@[u].members@));
    let mut i: usize = 0;
    while i < p.units[unit].members.len()
        invariant
            p.wf(),
            pv == p@,
            u == unit,
            0 <= u < pv.units.len(),
            members == pv.units[u].members,
            members == texts_view(p.units@[u].members@),
            i <= members.len(),
            wf_holding(pv, s0, hole),
            hole.contains(u),
            st.linked(pv),
            st@ == settled_members(pv, s0, members, i as int, fallback, now),
        decreases members.len() - i,
    {
        let ghost before = *st;
        let member = p.units[unit].members[i].as_str();
        assert(members[i as int] == member@);
        assert(has_node(pv.plan.nodes, pv.units[u].members[i as int]));
        proof {
            settling_keeps_wf(pv, s0, hole, u, i as int, fallback, now);
        }
        if !is_settled(st, member) {
            proof {
                lemma_room(pv, before@, hole, member@);
            }
            let reason = if is_poisoned(p, st, member) {
                SkipReason::FailedDependency
            } else {
                fallback
            };
            complete_skip(p, st, member, reason, now);
            proof {
                lemma_linked_same(pv, before, *st);
            }
        }
        i = i + 1;
    }
    proof {
        settling_keeps_wf(pv, s0, hole, u, members.len() as int, fallback, now);
        unit_end_keeps_wf(pv, st@, hole, u);
    }
    unblock(p, st, unit, Ghost(hole));
}

/// Resolves inputs and gates (`when`, blocked tools, input schemas). Members
/// that fail or skip are settled; those that go out are returned, with what the
/// validator said of those it rejected.
fn prepare_members(
    p: &Program,
    st: &mut RunState,
    unit: usize,
    now: u64,
    Ghost(hole): Ghost<Set<int>>,
) -> (r: (Vec<PreparedMember>, Ghost<TurnV>))
    requires
        p.wf(),
        old(st).linked(p@),
        wf_holding(p@, old(st)@, hole),
        hole.contains(unit as int),
    ensures
        r.1@.at == now,
        (final(st)@, views(r.0@)) == tried(
            p@,
            old(st)@,
            p@.units[unit as int].members,
            p@.units[unit as int].members.len() as int,
            r.1@,
        ),
        final(st).linked(p@),
        wf_holding(p@, final(st)@, hole),
        final(st)@.running == old(st)@.running,
{
    let ghost u = unit as int;
    let ghost pv = p@;
    let ghost s0 = st@;
    let ghost members = pv.units[u].members;
    assert(members == texts_view(p.units@[u].members@));
    let mut out: Vec<PreparedMember> = Vec::new();
    let ghost mut turn = TurnV { at: now, reasons: |id: Seq<char>| Seq::empty() };
    let mut i: usize = 0;
    assert(views(out@) =~= Seq::empty());
    while i < p.units[unit].members.len()
        invariant
            p.wf(),
            pv == p@,
            u == unit,
            0 <= u < pv.units.len(),
            members == pv.units[u].members,
            members == texts_view(p.units@[u].members@),
            i <= members.len(),
            wf_holding(pv, s0, hole),
            hole.contains(u),
            st.linked(pv),
            turn.at == now,
            (st@, views(out@)) == tried(pv, s0, members, i as int, turn),
            st@.running == s0.running,
        decreases members.len() - i,
    {
        let ghost before = *st;
        let ghost sent = views(out@);
        let member = p.units[unit].members[i].as_str();
        assert(members[i as int] == member@);
        assert(has_node(pv.plan.nodes, pv.units[u].members[i as int]));
        proof {
            trying_keeps_wf(pv, s0, hole, u, i as int, turn);
        }
        let verdict = judge(p, st, member);
        let ghost v = verdict@;
        proof {
            let reason = choose|reason: Seq<char>| v == #[trigger] member_verdict(
                pv,
                before@,
                member@,
                reason,
            );
            lemma_go_names_member(pv, before@, member@, reason);
            let told = TurnV { at: now, reasons: |id: Seq<char>| reason };
            let next = merged(turn, told, before@);
            merged_turns_agree(turn, told, s0, before@, before@);
            tried_agrees(pv, s0, members, i as int, turn, next);
            if v is Fail {
                assert(!settled(before@, member@));
                assert((next.reasons)(member@) == reason);
            } else {
                lemma_verdict(pv, before@, member@, reason, (next.reasons)(member@));
            }
            assert(v == member_verdict(pv, before@, member@, (next.reasons)(member@)));
            turn = next;
        }
        match verdict {
            Verdict::Settled => {},
            Verdict::Skip(reason) => {
                proof {
                    lemma_room(pv, before@, hole, member@);
                }
                complete_skip(p, st, member, reason, now);
                proof {
                    lemma_linked_same(pv, before, *st);
                }
            },
            Verdict::Fail(error) => {
                proof {
                    lemma_room(pv, before@, hole, member@);
                }
                complete_error(p, st, member, error, now);
                proof {
                    lemma_linked_same(pv, before, *st);
                }
            },
            Verdict::Go(prepared) => {
                let ghost m = prepared@;
                out.push(prepared);
                assert(views(out@) =~= sent.push(m));
            },
        }
        i = i + 1;
    }
    proof {
        trying_keeps_wf(pv, s0, hole, u, members.len() as int, turn);
    }
    (out, Ghost(turn))
}

// ---------------------------------------------------------------------------
// Admission
// ---------------------------------------------------------------------------

proof fn lemma_running_few(p: ProgramV, s: RunV, hole: Set<int>, u: int)
    requires
        wf_holding(p, s, hole),
        hole.contains(u),
    ensures
        s.running.len() < p.units.len(),
{
    let us = Seq::new(s.running.len(), |i: int| s.running[i].0);
    assert(us.no_duplicates()) by {
        assert forall|i: int, j: int| 0 <= i < us.len() && 0 <= j < us.len() && i != j implies us[i]
            != us[j] by {
            if us[i] == us[j] {
                assert(s.running[i].0 == s.running[j].0);
            }
        }
    }
    us.unique_seq_to_set();
    let range = vstd::set_lib::set_int_range(0, p.units.len() as int);
    vstd::set_lib::lemma_int_range(0, p.units.len() as int);
    assert(range.contains(u));
    assert(us.to_set().subset_of(range.remove(u))) by {
        assert forall|x: int| us.to_set().contains(x) implies range.remove(u).contains(x) by {
            let i = choose|i: int| 0 <= i < us.len() && us[i] == x;
            assert(s.running[i].0 == x);
            assert(in_running(s, x));
        }
    }
    vstd::set_lib::lemma_len_subset(us.to_set(), range.remove(u));
}

proof fn lemma_grants_admits(p: ProgramV, running: Seq<(int, Seq<Seq<char>>)>, u: int)
    ensures
        grants(held_locks(p, running).to_multiset(), p.units[u].lock) <==> forall|i: int|
            0 <= i < running.len() ==> may_overlap(
                p.units[(#[trigger] running[i]).0].lock,
                p.units[u].lock,
            ),
{
    let held = held_locks(p, running);
    held.to_multiset_ensures();
    if grants(held.to_multiset(), p.units[u].lock) {
        assert forall|i: int| 0 <= i < running.len() implies may_overlap(
            p.units[(#[trigger] running[i]).0].lock,
            p.units[u].lock,
        ) by {
            assert(held[i] == p.units[running[i].0].lock);
            assert(held.contains(held[i]));
            assert(held.to_multiset().contains(held[i]));
        }
    }
    if forall|i: int|
        0 <= i < running.len() ==> may_overlap(
            p.units[(#[trigger] running[i]).0].lock,
            p.units[u].lock,
        ) {
        assert forall|h: crate::runtime::locks::RequestV| #[trigger] held.to_multiset().contains(
            h,
        ) implies may_overlap(h, p.units[u].lock) by {
            assert(held.contains(h));
            let i = choose|i: int| 0 <= i < held.len() && held[i] == h;
            assert(held[i] == p.units[running[i].0].lock);
        }
    }
}

/// Starts the unit with the nodes, if the limits and locks allow it.
fn try_admit(
    p: &Program,
    st: &mut RunState,
    unit: usize,
    nodes: Vec<String>,
    Ghost(hole): Ghost<Set<int>>,
) -> (r: bool)
    requires
        p.wf(),
        old(st).linked(p@),
        wf_holding(p@, old(st)@, hole),
        hole.contains(unit as int),
    ensures
        r == admits(p@, old(st)@.running, unit as int),
        final(st)@ == if r {
            RunV {
                running: old(st)@.running.push((unit as int, texts_view(nodes@))),
                ..old(st)@
            }
        } else {
            old(st)@
        },
        final(st).linked(p@),
{
    let ghost u = unit as int;
    let ghost pv = p@;
    let ghost before = *st;
    let ghost running = st@.running;
    let ghost entry = (u, texts_view(nodes@));
    proof {
        lemma_running_few(pv, before@, hole, u);
        lemma_grants_admits(pv, running, u);
        lemma_load_bound(pv, running, pv.units[u].tool);
        held_locks(pv, running).to_multiset_ensures();
        assert(counted(st.tool_in_flight@, pv.units[u].tool) == tool_load(
            pv,
            running,
            pv.units[u].tool,
        ));
        assert(views(p.units@)[u] == p.units@[u]@);
    }
    let limit: Option<usize> = if p.serial {
        Some(1)
    } else {
        p.config.max_concurrency
    };
    if let Some(limit) = limit {
        if st.running.len() >= limit {
            return false;
        }
    }
    let tool = p.units[unit].tool.as_str();
    p.plan.tools.prove_sorted();
    proof {
        pairs_view_lookup(p.plan.tools, tool@);
    }
    let load: usize = match st.tool_in_flight.get(tool) {
        Some(n) => *n,
        None => 0,
    };
    let tool_limit: Option<usize> = match p.plan.tools.get(tool) {
        Some(spec) => match &spec.limits {
            Some(limits) => limits.max_concurrency,
            None => None,
        },
        None => None,
    };
    if let Some(limit) = tool_limit {
        if load >= limit {
            return false;
        }
    }
    if !st.locks.try_acquire(&p.units[unit].lock) {
        proof {
            assert(st@ =~= before@);
            lemma_linked_counts(pv, before, *st);
        }
        return false;
    }
    st.tool_in_flight.insert(tool.to_owned(), load + 1);
    st.running.push(Flight { unit, nodes });
    proof {
        let after = running.push(entry);
        assert(st@.running =~= after);
        assert(st@ =~= (RunV { running: after, ..before@ }));
        assert(held_locks(pv, after) =~= held_locks(pv, running).push(pv.units[u].lock));
        assert forall|t: Seq<char>| #[trigger] counted(st.tool_in_flight@, t) == tool_load(
            pv,
            st@.running,
            t,
        ) by {
            lemma_load_push(pv, running, entry, t);
            assert(counted(before.tool_in_flight@, t) == tool_load(pv, running, t));
        }
    }
    true
}

/// A state that differs in nothing but equal tables is linked too.
proof fn lemma_linked_counts(p: ProgramV, a: RunState, b: RunState)
    requires
        a.linked(p),
        b@ == a@,
        b.ready == a.ready,
        b.remaining == a.remaining,
        b.done == a.done,
        b.locks@ == a.locks@,
        b.tool_in_flight == a.tool_in_flight,
    ensures
        b.linked(p),
{
    assert forall|tool: Seq<char>| #[trigger] counted(b.tool_in_flight@, tool) == tool_load(
        p,
        b@.running,
        tool,
    ) by {
        assert(counted(a.tool_in_flight@, tool) == tool_load(p, a@.running, tool));
    }
}

// ---------------------------------------------------------------------------
// Landing
// ---------------------------------------------------------------------------

/// Takes a unit back: its locks and permits are free again.
fn land(p: &Program, st: &mut RunState, k: usize) -> (r: Flight)
    requires
        p.wf(),
        old(st).linked(p@),
        run_wf(p@, old(st)@),
        k < old(st)@.running.len(),
    ensures
        r@ == old(st)@.running[k as int],
        r.unit < p@.units.len(),
        final(st)@ == (RunV { running: old(st)@.running.remove(k as int), ..old(st)@ }),
        final(st).linked(p@),
{
    let ghost pv = p@;
    let ghost before = *st;
    let ghost running = st@.running;
    let ghost e = running[k as int];
    proof {
        assert(e == st.running@[k as int]@);
        assert(in_running(before@, e.0));
        held_locks(pv, running).to_multiset_ensures();
        let held = held_locks(pv, running);
        assert(held[k as int] == pv.units[e.0].lock);
        assert(held.contains(held[k as int]));
        assert(views(p.units@)[e.0] == p.units@[e.0]@);
        lemma_load_remove(pv, running, k as int, pv.units[e.0].tool);
        assert(counted(st.tool_in_flight@, pv.units[e.0].tool) == tool_load(
            pv,
            running,
            pv.units[e.0].tool,
        ));
    }
    let flight = st.running.remove(k);
    let unit: usize = flight.unit;
    st.locks.release(&p.units[unit].lock);
    let tool = p.units[unit].tool.as_str();
    let load: usize = match st.tool_in_flight.get(tool) {
        Some(n) => *n,
        None => 0,
    };
    if load > 0 {
        st.tool_in_flight.insert(tool.to_owned(), load - 1);
    }
    proof {
        let after = running.remove(k as int);
        assert(st@.running =~= after);
        assert(st@ =~= (RunV { running: after, ..before@ }));
        assert(held_locks(pv, after) =~= held_locks(pv, running).remove(k as int));
        assert forall|t: Seq<char>| #[trigger] counted(st.tool_in_flight@, t) == tool_load(
            pv,
            st@.running,
            t,
        ) by {
            lemma_load_remove(pv, running, k as int, t);
            assert(counted(before.tool_in_flight@, t) == tool_load(pv, running, t));
        }
    }
    flight
}

fn capped_add(a: usize, b: usize) -> (r: usize)
    ensures
        r == crate::runtime::dispatch::capped_sum(a, b),
{
    if a > usize::MAX - b {
        usize::MAX
    } else {
        a + b
    }
}

/// Records what a unit reports and returns the resources that were written.
fn absorb(
    p: &Program,
    st: &mut RunState,
    outcome: DispatchOutcome,
    Ghost(u): Ghost<int>,
    Ghost(ids): Ghost<Seq<Seq<char>>>,
) -> (r: StrSet)
    requires
        p.wf(),
        old(st).linked(p@),
        wf_holding(p@, old(st)@, Set::empty().insert(u)),
        flight_wf(p@, old(st)@, u, ids),
        covers(outcome@.results, ids),
    ensures
        r@ == written(p@, outcome@.results, outcome@.results.len() as int),
        final(st)@ == after_outcome(p@, old(st)@, outcome@),
        final(st).linked(p@),
{
    let ghost pv = p@;
    let ghost s0 = st@;
    let ghost start = *st;
    let ghost o = outcome@;
    let ghost hole = Set::<int>::empty().insert(u);
    let ghost all = o.results;
    let DispatchOutcome { mut results, mut events, cache_hits, retries, batch_dispatches } = outcome;
    st.metrics.cache_hits = capped_add(st.metrics.cache_hits, cache_hits);
    st.metrics.retries = capped_add(st.metrics.retries, retries);
    st.metrics.batch_dispatches = capped_add(st.metrics.batch_dispatches, batch_dispatches);
    let ghost told = o.events;
    st.trace.append(&mut events);
    let ghost mid = outcome_noted(s0, o);
    proof {
        assert(st@.trace =~= s0.trace + told);
        assert(st@ =~= mid);
        lemma_linked_same(pv, start, *st);
        lemma_same_state(pv, s0, mid, hole);
        assert(flight_wf(pv, mid, u, ids)) by {
            assert forall|x: Seq<char>| #[trigger] settled(mid, x) == settled(s0, x) by {}
            assert forall|i: int| 0 <= i < pv.units[u].members.len() implies settled(
                mid,
                #[trigger] pv.units[u].members[i],
            ) || ids.contains(pv.units[u].members[i]) by {
                assert(settled(s0, pv.units[u].members[i]) || ids.contains(pv.units[u].members[i]));
            }
        }
    }
    let mut touched = StrSet::new();
    let mut i: usize = 0;
    let total: usize = results.len();
    assert(results@.len() == all.len());
    assert(all.skip(0) =~= all);
    while results.len() > 0
        invariant
            p.wf(),
            pv == p@,
            all.len() == total,
            i + results@.len() == total,
            views(results@) == all.skip(i as int),
            wf_holding(pv, mid, hole),
            hole.contains(u),
            flight_wf(pv, mid, u, ids),
            covers(all, ids),
            st.linked(pv),
            st@ == after_results(pv, mid, all, i as int),
            touched@ == written(pv, all, i as int),
        decreases results@.len(),
    {
        let ghost before = *st;
        assert(views(results@)[0] == all[i as int]);
        assert(results@[0]@ == all[i as int]);
        let ghost old_results = results@;
        let NodeResult { node, result } = results.remove(0);
        proof {
            assert(views(results@) =~= all.skip(i + 1)) by {
                assert forall|j: int| 0 <= j < results@.len() implies views(results@)[j]
                    == all.skip(i + 1)[j] by {
                    assert(results@[j] == old_results[j + 1]);
                    assert(views(old_results)[j + 1] == all.skip(i as int)[j + 1]);
                }
            }
            results_keep_wf(pv, mid, hole, u, ids, all, i as int);
            let at = choose|j: int|
                0 <= j < pv.units[u].members.len() && pv.units[u].members[j] == node@;
            assert(has_node(pv.plan.nodes, pv.units[u].members[at]));
            lemma_room(pv, before@, hole, node@);
        }
        match result {
            Ok(output) => {
                if let Some(effects) = p.effects.get(node.as_str()) {
                    touched.extend(&effects.writes);
                }
                record_output(st, node.as_str(), output);
            },
            Err(error) => {
                record_failure(p, st, node.as_str(), error);
            },
        }
        proof {
            lemma_linked_same(pv, before, *st);
            assert(touched@ =~= written(pv, all, i + 1));
        }
        i = i + 1;
    }
    touched
}

/// Makes every blocked unit ready for another try.
fn requeue(p: &Program, st: &mut RunState)
    requires
        old(st).linked(p@),
        run_wf(p@, old(st)@),
    ensures
        final(st)@ == requeued(old(st)@),
        final(st).linked(p@),
        run_wf(p@, final(st)@),
{
    let ghost pv = p@;
    let ghost before = *st;
    let mut blocked: Vec<usize> = Vec::new();
    std::mem::swap(&mut blocked, &mut st.blocked);
    let ghost moved = blocked@;
    st.ready.append(&mut blocked);
    proof {
        let a = before.ready@;
        let t = st.ready@;
        assert(t =~= a + moved);
        assert forall|x: usize| moved.contains(x) implies before@.blocked.contains(x as int) by {
            lemma_in_ints(moved, x);
        }
        assert(t.no_duplicates()) by {
            assert forall|i: int, j: int| 0 <= i < t.len() && 0 <= j < t.len() && i != j implies t[i]
                != t[j] by {
                if i < a.len() && j < a.len() {
                    assert(a[i] != a[j]);
                } else if i >= a.len() && j >= a.len() {
                    assert(before@.blocked[i - a.len()] != before@.blocked[j - a.len()]);
                } else {
                    let (x, y) = if i < a.len() {
                        (i, j)
                    } else {
                        (j, i)
                    };
                    assert(a.contains(a[x]));
                    lemma_in_ints(a, a[x]);
                    assert(moved.contains(moved[y - a.len()]));
                    assert(before@.ready.contains(a[x] as int));
                }
            }
        }
        let want = requeued(before@);
        assert forall|w: int| #[trigger] st@.ready.contains(w) <==> want.ready.contains(w) by {
            if st@.ready.contains(w) {
                let j = choose|j: int| 0 <= j < ints(t).len() && ints(t)[j] == w;
                if j < a.len() {
                    assert(ints(a)[j] == w);
                } else {
                    assert(ints(moved)[j - a.len()] == w);
                }
            }
            if before@.ready.contains(w) {
                let j = choose|j: int| 0 <= j < ints(a).len() && ints(a)[j] == w;
                assert(ints(t)[j] == w);
            }
            if before@.blocked.contains(w) {
                let j = choose|j: int| 0 <= j < ints(moved).len() && ints(moved)[j] == w;
                assert(ints(t)[a.len() + j] == w);
            }
        }
        assert(st@.ready =~= want.ready);
        assert(st@.blocked =~= Seq::empty());
        assert(st@ =~= want);
        assert forall|tool: Seq<char>| #[trigger] counted(st.tool_in_flight@, tool) == tool_load(
            pv,
            st@.running,
            tool,
        ) by {
            assert(counted(before.tool_in_flight@, tool) == tool_load(pv, before@.running, tool));
        }
        requeue_keeps_wf(pv, before@);
    }
}

/// Records what the `k`-th running unit reports. Returns the resources that
/// it wrote, whose cached reads are stale.
pub fn complete(p: &Program, st: &mut RunState, k: usize, outcome: DispatchOutcome) -> (r: StrSet)
    requires
        p.wf(),
        old(st).linked(p@),
        run_wf(p@, old(st)@),
        k < old(st)@.running.len(),
        covers(outcome@.results, old(st)@.running[k as int].1),
    ensures
        r@ == written(p@, outcome@.results, outcome@.results.len() as int),
        final(st)@ == landed(p@, old(st)@, k as int, outcome@),
        final(st).linked(p@),
        run_wf(p@, final(st)@),
{
    let ghost pv = p@;
    let ghost s0 = st@;
    let ghost u = s0.running[k as int].0;
    let ghost ids = s0.running[k as int].1;
    let ghost o = outcome@;
    let ghost hole = Set::<int>::empty().insert(u);
    proof {
        landing_keeps_wf(pv, s0, k as int);
    }
    let flight = land(p, st, k);
    let ghost s1 = st@;
    proof {
        outcome_settles_unit(pv, s1, hole, u, ids, o);
    }
    let touched = absorb(p, st, outcome, Ghost(u), Ghost(ids));
    let ghost s2 = st@;
    proof {
        unit_end_keeps_wf(pv, s2, hole, u);
        assert(hole.remove(u) =~= Set::empty());
    }
    unblock(p, st, flight.unit, Ghost(hole));
    requeue(p, st);
    touched
}

// ---------------------------------------------------------------------------
// Scheduling
// ---------------------------------------------------------------------------

/// A unit that goes out, with its prepared members.
pub struct Dispatch {
    pub unit: usize,
    pub spec: UnitSpec,
    pub members: Vec<PreparedMember>,
}

impl View for Dispatch {
    type V = DispatchV;

    open spec fn view(&self) -> DispatchV {
        DispatchV { unit: self.unit as int, members: views(self.members@) }
    }
}

/// The dispatch names the tool and the adapter of its unit.
pub open spec fn well_addressed(p: ProgramV, d: Dispatch) -> bool {
    &&& d.unit < p.units.len()
    &&& d.spec@.tool == p.units[d.unit as int].tool
    &&& d.spec@.adapter == p.units[d.unit as int].adapter
    &&& d.spec@.batch == p.units[d.unit as int].batch
}

/// The units that were not tried since they became ready.
pub open spec fn open_units(p: ProgramV, s: RunV) -> Set<int> {
    Set::new(
        |u: int|
            0 <= u < p.units.len() && !s.done.contains(u) && !s.blocked.contains(u) && !in_running(
                s,
                u,
            ),
    )
}

pub proof fn lemma_open_finite(p: ProgramV, s: RunV)
    ensures
        open_units(p, s).finite(),
{
    let range = vstd::set_lib::set_int_range(0, p.units.len() as int);
    vstd::set_lib::lemma_int_range(0, p.units.len() as int);
    assert(open_units(p, s).subset_of(range));
    vstd::set_lib::lemma_len_subset(open_units(p, s), range);
}

/// Trying a ready unit takes it away from the open ones and adds none.
pub proof fn lemma_try_closes(p: ProgramV, s: RunV, u: int, now: TurnV)
    requires
        run_wf(p, s),
        s.ready.contains(u),
        run_wf(p, after_try(p, s, u, now).0),
    ensures
        open_units(p, after_try(p, s, u, now).0).len() < open_units(p, s).len(),
        s.done.subset_of(after_try(p, s, u, now).0.done),
{
    let hole = Set::<int>::empty().insert(u);
    let popped = RunV { ready: s.ready.remove(u), ..s };
    let t = after_try(p, s, u, now).0;
    let members = p.units[u].members;
    pop_keeps_wf(p, s, Set::empty(), u);
    assert(Set::<int>::empty().insert(u) =~= hole);
    match s.stop {
        Some(reason) => {
            settling_keeps_wf(p, popped, hole, u, members.len() as int, reason, now.at);
        },
        None => {
            trying_keeps_wf(p, popped, hole, u, members.len() as int, now);
        },
    }
    lemma_open_finite(p, s);
    lemma_open_finite(p, t);
    assert(open_units(p, s).contains(u));
    assert(!open_units(p, t).contains(u)) by {
        if t.done.contains(u) {
        } else if t.blocked.len() > s.blocked.len() {
            assert(t.blocked[s.blocked.len() as int] == u);
        } else {
            assert(t.running[s.running.len() as int].0 == u);
            assert(in_running(t, u));
        }
    }
    assert forall|w: int| open_units(p, t).contains(w) implies #[trigger] open_units(p, s).contains(w) by {
        if s.blocked.contains(w) {
            let i = choose|i: int| 0 <= i < s.blocked.len() && s.blocked[i] == w;
            assert(t.blocked[i] == w);
        }
        if in_running(s, w) {
            let i = choose|i: int| 0 <= i < s.running.len() && (#[trigger] s.running[i]).0 == w;
            assert(t.running[i].0 == w);
        }
    }
    assert(open_units(p, t).subset_of(open_units(p, s).remove(u)));
    vstd::set_lib::lemma_len_subset(open_units(p, t), open_units(p, s).remove(u));
}

/// The position of the ready unit that is tried next.
fn pick_next(p: &Program, ready: &Vec<usize>) -> (r: usize)
    requires
        ready@.len() > 0,
        forall|i: int| 0 <= i < ready@.len() ==> (#[trigger] ready@[i]) < p.keys@.len(),
    ensures
        r < ready@.len(),
        is_next(p@, ints(ready@).to_set(), ready@[r as int] as int),
{
    let mut best: usize = 0;
    let mut i: usize = 1;
    while i < ready.len()
        invariant
            best < ready@.len(),
            1 <= i <= ready@.len(),
            forall|j: int| 0 <= j < ready@.len() ==> (#[trigger] ready@[j]) < p.keys@.len(),
            forall|j: int|
                0 <= j < i && (#[trigger] ready@[j]) != ready@[best as int]
                    ==> p.keys@[ready@[j] as int] < p.keys@[ready@[best as int] as int] || (
                p.keys@[ready@[j] as int] == p.keys@[ready@[best as int] as int]
                    && ready@[best as int] < ready@[j]),
        decreases ready.len() - i,
    {
        let mine: usize = ready[i];
        let other: usize = ready[best];
        if p.keys[mine] > p.keys[other] || (p.keys[mine] == p.keys[other] && mine < other) {
            best = i;
        }
        i = i + 1;
    }
    proof {
        let set = ints(ready@).to_set();
        let u = ready@[best as int];
        assert(ints(ready@)[best as int] == u);
        assert forall|v: int| #[trigger] set.contains(v) && v != u implies p@.keys[v] < p@.keys[u as int] || (
        p@.keys[v] == p@.keys[u as int] && u < v) by {
            let j = choose|j: int| 0 <= j < ints(ready@).len() && ints(ready@)[j] == v;
            assert(ready@[j] == v);
        }
    }
    best
}

fn node_names(members: &Vec<PreparedMember>) -> (r: Vec<String>)
    ensures
        texts_view(r@) == member_ids(views(members@)),
{
    let mut out: Vec<String> = Vec::new();
    let mut i: usize = 0;
    while i < members.len()
        invariant
            i <= members@.len(),
            out@.len() == i,
            forall|j: int| 0 <= j < i ==> (#[trigger] out@[j])@ == members@[j]@.node,
        decreases members.len() - i,
    {
        out.push(members[i].node.clone());
        i = i + 1;
    }
    assert(texts_view(out@) =~= member_ids(views(members@)));
    out
}

/// Takes the unit at the position out of the ready list.
fn pop_ready(p: &Program, st: &mut RunState, at: usize) -> (r: usize)
    requires
        old(st).linked(p@),
        run_wf(p@, old(st)@),
        at < old(st).ready@.len(),
    ensures
        r == old(st).ready@[at as int],
        r < p@.units.len(),
        old(st)@.ready.contains(r as int),
        final(st)@ == (RunV { ready: old(st)@.ready.remove(r as int), ..old(st)@ }),
        final(st).linked(p@),
        wf_holding(p@, final(st)@, Set::empty().insert(r as int)),
{
    let ghost pv = p@;
    let ghost before = *st;
    let unit = st.ready.remove(at);
    proof {
        let a = before.ready@;
        let t = st.ready@;
        assert(a.contains(unit)) by {
            assert(a[at as int] == unit);
        }
        lemma_in_ints(a, unit);
        assert forall|i: int| 0 <= i < t.len() implies #[trigger] t[i] == a[if i < at {
            i
        } else {
            i + 1
        }] by {}
        assert(t.no_duplicates()) by {
            assert forall|i: int, j: int| 0 <= i < t.len() && 0 <= j < t.len() && i != j implies t[i]
                != t[j] by {
                let x = if i < at { i } else { i + 1 };
                let y = if j < at { j } else { j + 1 };
                assert(a[x] != a[y]);
            }
        }
        assert forall|w: int| #[trigger] st@.ready.contains(w) <==> before@.ready.remove(
            unit as int,
        ).contains(w) by {
            if st@.ready.contains(w) {
                let i = choose|i: int| 0 <= i < ints(t).len() && ints(t)[i] == w;
                let x = if i < at { i } else { i + 1 };
                assert(a[x] == w);
                assert(ints(a)[x] == w);
                assert(a[x] != a[at as int]);
            }
            if before@.ready.contains(w) && w != unit {
                let x = choose|x: int| 0 <= x < ints(a).len() && ints(a)[x] == w;
                let i = if x < at { x } else { x - 1 };
                assert(t[i] == a[x]);
                assert(ints(t)[i] == w);
            }
        }
        assert(st@.ready =~= before@.ready.remove(unit as int));
        assert(st@ =~= (RunV { ready: before@.ready.remove(unit as int), ..before@ }));
        assert forall|tool: Seq<char>| #[trigger] counted(st.tool_in_flight@, tool) == tool_load(
            pv,
            st@.running,
            tool,
        ) by {
            assert(counted(before.tool_in_flight@, tool) == tool_load(pv, before@.running, tool));
        }
        pop_keeps_wf(pv, before@, Set::empty(), unit as int);
    }
    unit
}

/// Tries one ready unit.
fn try_unit(p: &Program, st: &mut RunState, at: usize, now: u64) -> (r: (
    Option<Dispatch>,
    Ghost<TurnV>,
))
    requires
        p.wf(),
        old(st).linked(p@),
        run_wf(p@, old(st)@),
        at < old(st).ready@.len(),
    ensures
        ({
            let (after, d) = after_try(p@, old(st)@, old(st).ready@[at as int] as int, r.1@);
            &&& r.1@.at == now
            &&& final(st)@ == after
            &&& match (r.0, d) {
                (Some(x), Some(m)) => x@ == m && well_addressed(p@, x),
                (None, None) => true,
                _ => false,
            }
        }),
        final(st).linked(p@),
        run_wf(p@, final(st)@),
{
    let ghost pv = p@;
    let ghost s0 = st@;
    let unit = pop_ready(p, st, at);
    let ghost u = unit as int;
    let ghost hole = Set::<int>::empty().insert(u);
    let ghost popped = st@;
    assert(hole.remove(u) =~= Set::empty());
    if let Some(reason) = st.stop {
        settle_unit(p, st, unit, reason, now, Ghost(hole));
        return (None, Ghost(TurnV { at: now, reasons: |id: Seq<char>| Seq::empty() }));
    }
    let ghost members = pv.units[u].members;
    let (prepared, Ghost(turn)) = prepare_members(p, st, unit, now, Ghost(hole));
    let ghost out = views(prepared@);
    let ghost after = st@;
    proof {
        trying_keeps_wf(pv, popped, hole, u, members.len() as int, turn);
        assert(members.take(members.len() as int) =~= members);
        assert(tried(pv, popped, members, members.len() as int, turn) == (after, out));
    }
    if prepared.len() == 0 {
        proof {
            assert(member_ids(out).len() == 0);
            assert forall|i: int| 0 <= i < pv.units[u].members.len() implies settled(
                after,
                #[trigger] pv.units[u].members[i],
            ) by {
                assert(settled(after, members[i]) || member_ids(out).contains(members[i]));
            }
            unit_end_keeps_wf(pv, after, hole, u);
        }
        unblock(p, st, unit, Ghost(hole));
        return (None, Ghost(turn));
    }
    let names = node_names(&prepared);
    let ghost ids = member_ids(out);
    assert(flight_wf(pv, after, u, ids)) by {
        assert forall|i: int| 0 <= i < ids.len() implies pv.units[u].members.contains(
            #[trigger] ids[i],
        ) && !settled(after, ids[i]) by {
            assert(ids[i] == out[i].node);
        }
    }
    if try_admit(p, st, unit, names, Ghost(hole)) {
        proof {
            dispatch_keeps_wf(pv, after, hole, u, ids);
            assert(views(p.units@)[u] == p.units@[u]@);
        }
        let spec = UnitSpec {
            tool: p.units[unit].tool.clone(),
            adapter: p.units[unit].adapter.clone(),
            batch: p.units[unit].batch,
        };
        (Some(Dispatch { unit, spec, members: prepared }), Ghost(turn))
    } else {
        proof {
            block_keeps_wf(pv, after, hole, u);
        }
        let ghost mid = *st;
        st.blocked.push(unit);
        proof {
            assert(st@.blocked =~= after.blocked.push(u));
            assert(st@ =~= (RunV { blocked: after.blocked.push(u), ..after }));
            assert forall|tool: Seq<char>| #[trigger] counted(st.tool_in_flight@, tool) == tool_load(
                pv,
                st@.running,
                tool,
            ) by {
                assert(counted(mid.tool_in_flight@, tool) == tool_load(pv, mid@.running, tool));
            }
        }
        (None, Ghost(turn))
    }
}

/// All dispatches name the tool and adapter of their unit.
pub open spec fn all_addressed(p: ProgramV, ds: Seq<Dispatch>) -> bool {
    forall|i: int| 0 <= i < ds.len() ==> well_addressed(p, #[trigger] ds[i])
}

/// Tries every ready unit.
pub(crate) fn schedule(p: &Program, st: &mut RunState, now: u64, out: &mut Vec<Dispatch>) -> (r:
    Ghost<TurnV>)
    requires
        p.wf(),
        old(st).linked(p@),
        run_wf(p@, old(st)@),
        all_addressed(p@, old(out)@),
    ensures
        r@.at == now,
        final(st)@ == scheduled(p@, old(st)@, r@).0,
        views(final(out)@) == views(old(out)@) + scheduled(p@, old(st)@, r@).1,
        final(st)@.ready == Set::<int>::empty(),
        final(st).linked(p@),
        run_wf(p@, final(st)@),
        all_addressed(p@, final(out)@),
        old(st)@.done.subset_of(final(st)@.done),
{
    let ghost pv = p@;
    let ghost s0 = st@;
    let ghost given = views(out@);
    let ghost mut n: nat = 0;
    let ghost mut turn = TurnV { at: now, reasons: |id: Seq<char>| Seq::empty() };
    assert(given + Seq::<DispatchV>::empty() =~= given);
    while st.ready.len() > 0
        invariant
            p.wf(),
            pv == p@,
            st.linked(pv),
            run_wf(pv, st@),
            turn.at == now,
            st@ == after_tries(pv, s0, n, turn).0,
            views(out@) == given + after_tries(pv, s0, n, turn).1,
            all_addressed(pv, out@),
            forall|m: nat|
                m < n ==> (#[trigger] after_tries(pv, s0, m, turn)).0.ready != Set::<int>::empty(),
            s0.done.subset_of(st@.done),
        decreases open_units(pv, st@).len(),
    {
        let ghost before = st@;
        let ghost sent = after_tries(pv, s0, n, turn).1;
        proof {
            assert forall|i: int| 0 <= i < st.ready@.len() implies (#[trigger] st.ready@[i])
                < p.keys@.len() by {
                assert(ints(st.ready@)[i] == st.ready@[i]);
                assert(st@.ready.contains(st.ready@[i] as int));
            }
        }
        let at = pick_next(p, &st.ready);
        let ghost u = st.ready@[at as int] as int;
        proof {
            next_unit_unique(pv, before.ready, u);
            assert(before.ready.contains(u));
            assert(before.ready != Set::<int>::empty());
        }
        let ghost out_before = out@;
        let (dispatch, Ghost(told)) = try_unit(p, st, at, now);
        proof {
            lemma_try_closes(pv, before, u, told);
            let next = merged(turn, told, before);
            merged_turns_agree(turn, told, s0, before, st@);
            tries_agree(pv, s0, n, turn, next);
            try_agrees(pv, before, u, told, next);
            assert forall|m: nat| m < n + 1 implies (#[trigger] after_tries(
                pv,
                s0,
                m,
                next,
            )).0.ready != Set::<int>::empty() by {
                assert(after_tries(pv, s0, m, next) == after_tries(pv, s0, m, turn));
            }
            turn = next;
        }
        match dispatch {
            Some(d) => {
                let ghost dv = d@;
                out.push(d);
                proof {
                    assert(views(out@) =~= views(out_before).push(dv));
                    assert(given + sent.push(dv) =~= (given + sent).push(dv));
                }
            },
            None => {},
        }
        proof {
            n = n + 1;
        }
    }
    proof {
        assert(st@.ready =~= Set::empty()) by {
            assert(ints(st.ready@).len() == 0);
        }
        assert(drains(pv, s0, n, turn));
        drains_unique(pv, s0, n, turn);
    }
    Ghost(turn)
}

pub proof fn lemma_leftover_step(p: ProgramV, s: RunV, units: Seq<int>, k: int, now: u64)
    requires
        wf_holding(p, s, units.to_set()),
        units.no_duplicates(),
        0 <= k <= units.len(),
    ensures
        wf_holding(p, leftovers_settled(p, s, units, k, now), units.skip(k).to_set()),
        leftovers_settled(p, s, units, k, now).running == s.running,
        leftovers_settled(p, s, units, k, now).blocked == s.blocked,
        forall|i: int| 0 <= i < k ==> leftovers_settled(p, s, units, k, now).done.contains(#[trigger] units[i]),
        s.done.subset_of(leftovers_settled(p, s, units, k, now).done),
    decreases k,
{
    if k == 0 {
        assert(units.skip(0) =~= units);
    } else {
        lemma_leftover_step(p, s, units, k - 1, now);
        let before = leftovers_settled(p, s, units, k - 1, now);
        let u = units[k - 1];
        let hole = units.skip(k - 1).to_set();
        assert(hole.contains(u)) by {
            assert(units.skip(k - 1)[0] == u);
        }
        let members = p.units[u].members;
        settling_keeps_wf(p, before, hole, u, members.len() as int, SkipReason::NotRun, now);
        unit_end_keeps_wf(
            p,
            settled_members(p, before, members, members.len() as int, SkipReason::NotRun, now),
            hole,
            u,
        );
        lemma_skip_set(units, k);
    }
}

proof fn lemma_skip_set(units: Seq<int>, k: int)
    requires
        units.no_duplicates(),
        0 < k <= units.len(),
    ensures
        units.skip(k - 1).to_set().remove(units[k - 1]) == units.skip(k).to_set(),
{
    let a = units.skip(k - 1);
    let b = units.skip(k);
    assert forall|x: int| #[trigger] b.to_set().contains(x) <==> a.to_set().remove(units[k - 1]).contains(
        x,
    ) by {
        if b.contains(x) {
            let i = choose|i: int| 0 <= i < b.len() && b[i] == x;
            assert(a[i + 1] == x);
            assert(units[k + i] == x);
            assert(x != units[k - 1]);
        }
        if a.contains(x) && x != units[k - 1] {
            let i = choose|i: int| 0 <= i < a.len() && a[i] == x;
            assert(i > 0);
            assert(b[i - 1] == x);
        }
    }
    assert(b.to_set() =~= a.to_set().remove(units[k - 1]));
}

/// Settles the units that nothing will ever unblock.
pub(crate) fn settle_leftovers(p: &Program, st: &mut RunState, now: u64)
    requires
        p.wf(),
        old(st).linked(p@),
        run_wf(p@, old(st)@),
    ensures
        final(st)@ == leftovers_settled(
            p@,
            (RunV { blocked: Seq::empty(), ..old(st)@ }),
            old(st)@.blocked,
            old(st)@.blocked.len() as int,
            now,
        ),
        final(st).linked(p@),
        run_wf(p@, final(st)@),
        final(st)@.running == old(st)@.running,
        final(st)@.blocked.len() == 0,
        old(st)@.blocked.len() > 0 ==> undone(p@, final(st)@).len() < undone(p@, old(st)@).len(),
{
    let ghost pv = p@;
    let ghost s0 = st@;
    let ghost start = *st;
    let mut left: Vec<usize> = Vec::new();
    std::mem::swap(&mut left, &mut st.blocked);
    let ghost units = s0.blocked;
    let ghost s1 = RunV { blocked: Seq::empty(), ..s0 };
    proof {
        assert(st@.blocked =~= Seq::empty());
        assert(st@ =~= s1);
        assert(ints(left@) == units);
        unblock_all_keeps_wf(pv, s0);
        assert forall|tool: Seq<char>| #[trigger] counted(st.tool_in_flight@, tool) == tool_load(
            pv,
            st@.running,
            tool,
        ) by {
            assert(counted(start.tool_in_flight@, tool) == tool_load(pv, start@.running, tool));
        }
        assert(st.linked(pv));
    }
    let mut i: usize = 0;
    while i < left.len()
        invariant
            p.wf(),
            pv == p@,
            ints(left@) == units,
            units.no_duplicates(),
            i <= left@.len(),
            wf_holding(pv, s1, units.to_set()),
            st.linked(pv),
            st@ == leftovers_settled(pv, s1, units, i as int, now),
        decreases left.len() - i,
    {
        let unit = left[i];
        assert(units[i as int] == unit);
        let ghost hole = units.skip(i as int).to_set();
        proof {
            lemma_leftover_step(pv, s1, units, i as int, now);
            assert(units.skip(i as int)[0] == unit);
            assert(hole.contains(unit as int));
        }
        settle_unit(p, st, unit, SkipReason::NotRun, now, Ghost(hole));
        i = i + 1;
    }
    proof {
        lemma_leftover_step(pv, s1, units, units.len() as int, now);
        assert(units.skip(units.len() as int) =~= Seq::empty());
        assert(units.skip(units.len() as int).to_set() =~= Set::empty());
        if units.len() > 0 {
            lemma_undone_shrinks(pv, s0, st@, units[0]);
        }
    }
}

/// The units that are not over.
pub open spec fn undone(p: ProgramV, s: RunV) -> Set<int> {
    Set::new(|u: int| 0 <= u < p.units.len() && !s.done.contains(u))
}

/// Units stay over.
pub proof fn lemma_undone_monotone(p: ProgramV, s: RunV, t: RunV)
    requires
        s.done.subset_of(t.done),
    ensures
        undone(p, t).len() <= undone(p, s).len(),
{
    let range = vstd::set_lib::set_int_range(0, p.units.len() as int);
    vstd::set_lib::lemma_int_range(0, p.units.len() as int);
    assert(undone(p, s).subset_of(range));
    vstd::set_lib::lemma_len_subset(undone(p, s), range);
    assert(undone(p, t).subset_of(undone(p, s)));
    vstd::set_lib::lemma_len_subset(undone(p, t), undone(p, s));
}

pub proof fn lemma_undone_shrinks(p: ProgramV, s: RunV, t: RunV, u: int)
    requires
        run_wf(p, s),
        s.blocked.contains(u) || s.ready.contains(u) || s.blocked[0] == u && s.blocked.len() > 0,
        s.done.subset_of(t.done),
        t.done.contains(u),
    ensures
        undone(p, t).len() < undone(p, s).len(),
{
    let range = vstd::set_lib::set_int_range(0, p.units.len() as int);
    vstd::set_lib::lemma_int_range(0, p.units.len() as int);
    assert(undone(p, s).subset_of(range));
    vstd::set_lib::lemma_len_subset(undone(p, s), range);
    assert(s.blocked.contains(u) || s.ready.contains(u));
    assert(undone(p, s).contains(u));
    assert(undone(p, t).subset_of(undone(p, s).remove(u)));
    vstd::set_lib::lemma_len_subset(undone(p, t), undone(p, s).remove(u));
}

} // verus!
