//! Driving a run: what to dispatch, what was reported, and when it is over.

use vstd::prelude::*;

use crate::ordered::{StrMap, StrSet};
use crate::runtime::dispatch::DispatchOutcome;
use crate::runtime::engine::Program;
use crate::runtime::locks::LockTable;
use crate::runtime::model::{ProgramV, RunV, TurnV};
use crate::runtime::result::{RunMetrics, SkipReason};
use crate::runtime::scheduler::RunState;
use crate::runtime::units::{complete, schedule, settle_leftovers, Dispatch};

verus! {

use crate::graph::rounds::ints;
use crate::ordered::views;
use crate::runtime::dispatch::covers;
use crate::runtime::model::{
    advanced, cancelled, deps_in_range, initial, landed, program_wf, round, rounds, settles,
    settles_unique, tool_load, written,
};
use crate::runtime::scheduler::{counted, held_locks};
use crate::runtime::turns::{merged, merged_turns_agree, round_agrees, rounds_agree};
use crate::runtime::units::{all_addressed, lemma_undone_monotone, undone};
use crate::runtime::upkeep::{in_running, lemma_same_state, placed, run_wf};

/// A run starts in a state in which everything is in order.
pub proof fn initial_wf(p: ProgramV)
    requires
        program_wf(p),
    ensures
        run_wf(p, initial(p)),
{
    let s = initial(p);
    assert forall|u: int| !in_running(s, u) by {}
    assert forall|u: int| #![trigger p.deps[u]] 0 <= u < p.units.len() implies (p.deps[u].subset_of(
        s.done,
    ) <==> placed(s, u) || Set::<int>::empty().contains(u)) by {
        if p.deps[u].subset_of(s.done) {
            assert(p.deps[u] =~= Set::empty());
        }
    }
    assert forall|u: int| 0 <= u < p.units.len() implies crate::runtime::model::within(
        tool_load(p, s.running, (#[trigger] p.units[u]).tool),
        crate::runtime::model::tool_limit(p, p.units[u].tool),
    ) by {}
}

/// One run of a program.
///
/// The host starts every dispatch that [`Engine::advance`] returns, reports
/// each outcome with [`Engine::complete`], and advances again.
pub struct Engine {
    pub program: Program,
    pub state: RunState,
}

impl View for Engine {
    type V = RunV;

    open spec fn view(&self) -> RunV {
        self.state@
    }
}

impl Engine {
    /// What holds in every state of a run.
    pub open spec fn wf(&self) -> bool {
        &&& self.program.wf()
        &&& self.state.linked(self.program@)
        &&& run_wf(self.program@, self.state@)
    }

    /// The run of a program before anything was tried.
    pub fn start(program: Program) -> (r: Self)
        requires
            program.wf(),
        ensures
            r.wf(),
            r.program == program,
            r@ == initial(program@),
    {
        let ghost pv = program@;
        let ghost n = pv.units.len();
        let mut ready: Vec<usize> = Vec::new();
        let mut remaining: Vec<usize> = Vec::new();
        let mut u: usize = 0;
        while u < program.units.len()
            invariant
                program.wf(),
                pv == program@,
                n == program.units@.len(),
                u <= n,
                remaining@.len() == u,
                forall|w: int| 0 <= w < u ==> (#[trigger] remaining@[w]) == pv.deps[w].len(),
                ready@.no_duplicates(),
                forall|x: usize| #[trigger]
                    ready@.contains(x) <==> x < u && pv.deps[x as int].len() == 0,
            decreases n - u,
        {
            proof {
                assert(deps_in_range(pv.deps[u as int], u as int, n as int));
            }
            let waits: usize = program.waits[u];
            remaining.push(waits);
            let ghost before = ready@;
            if waits == 0 {
                ready.push(u);
            }
            proof {
                assert forall|x: usize| #[trigger] ready@.contains(x) <==> x < u + 1
                    && pv.deps[x as int].len() == 0 by {
                    if waits == 0 {
                        if before.contains(x) {
                            let i = choose|i: int| 0 <= i < before.len() && before[i] == x;
                            assert(ready@[i] == x);
                        }
                        assert(ready@[before.len() as int] == u);
                        if ready@.contains(x) {
                            let i = choose|i: int| 0 <= i < ready@.len() && ready@[i] == x;
                            if i < before.len() {
                                assert(before[i] == x);
                            }
                        }
                    }
                    assert(before.contains(x) <==> x < u && pv.deps[x as int].len() == 0);
                }
                if waits == 0 {
                    assert(!before.contains(u));
                    assert forall|i: int, j: int|
                        0 <= i < ready@.len() && 0 <= j < ready@.len() && i != j implies ready@[i]
                        != ready@[j] by {
                        if i < before.len() && j < before.len() {
                            assert(before[i] != before[j]);
                        } else if i < before.len() {
                            assert(before.contains(before[i]));
                        } else {
                            assert(before.contains(before[j]));
                        }
                    }
                }
            }
            u = u + 1;
        }
        let state = RunState {
            ready,
            blocked: Vec::new(),
            running: Vec::new(),
            remaining,
            outputs: StrMap::new(),
            errors: StrMap::new(),
            skipped: StrMap::new(),
            trace: Vec::new(),
            metrics: RunMetrics {
                wall_ms: 0,
                nodes_total: program.plan.nodes.len(),
                nodes_succeeded: 0,
                nodes_failed: 0,
                nodes_skipped: 0,
                cache_hits: 0,
                batch_dispatches: 0,
                retries: 0,
            },
            stop: None,
            locks: LockTable::new(),
            tool_in_flight: StrMap::new(),
            done: Ghost(Set::empty()),
        };
        proof {
            let s = state@;
            let want = initial(pv);
            assert forall|w: int| #[trigger] s.ready.contains(w) <==> want.ready.contains(w) by {
                if s.ready.contains(w) {
                    let i = choose|i: int| 0 <= i < ints(ready@).len() && ints(ready@)[i] == w;
                    assert(ready@.contains(ready@[i]));
                    assert(deps_in_range(pv.deps[w], w, n as int));
                    assert(pv.deps[w] =~= Set::empty());
                }
                if want.ready.contains(w) {
                    assert(ready@.contains(w as usize));
                    let i = choose|i: int| 0 <= i < ready@.len() && ready@[i] == w as usize;
                    assert(ints(ready@)[i] == w);
                }
            }
            assert(s.ready =~= want.ready);
            assert(s.blocked =~= Seq::empty());
            assert(s.running =~= Seq::empty());
            assert(s.outputs =~= Map::empty());
            assert(s.errors =~= Map::empty());
            assert(s.skipped =~= Map::empty());
            assert(s.trace =~= Seq::empty());
            assert(s =~= want);
            assert forall|w: int| 0 <= w < n implies (#[trigger] state.remaining@[w])
                == pv.deps[w].difference(state.done@).len() by {
                assert(pv.deps[w].difference(Set::empty()) =~= pv.deps[w]);
            }
            let held = held_locks(pv, s.running);
            assert(held =~= Seq::empty());
            held.to_multiset_ensures();
            assert(held.to_multiset() =~= vstd::multiset::Multiset::empty());
            initial_wf(pv);
        }
        Engine { program, state }
    }

    /// Tries every unit that can start. Returns what has to be dispatched;
    /// when nothing is, the run waits for what is running or is over. What the
    /// validator says of the inputs that it rejects is left open.
    pub fn advance(&mut self, now: u64) -> (r: Vec<Dispatch>)
        requires
            old(self).wf(),
        ensures
            final(self).wf(),
            final(self).program == old(self).program,
            exists|turn: TurnV|
                turn.at == now && (final(self)@, views(r@)) == #[trigger] advanced(
                    old(self).program@,
                    old(self)@,
                    turn,
                ),
            all_addressed(final(self).program@, r@),
            final(self)@.ready == Set::<int>::empty(),
            final(self)@.running.len() == 0 ==> final(self)@.blocked.len() == 0,
    {
        let ghost pv = self.program@;
        let ghost s0 = self@;
        let mut out: Vec<Dispatch> = Vec::new();
        let ghost mut n: nat = 0;
        let ghost mut turn = TurnV { at: now, reasons: |id: Seq<char>| Seq::empty() };
        let mut again = true;
        assert(views(out@) =~= Seq::empty());
        while again
            invariant
                self.program == old(self).program,
                pv == self.program@,
                s0 == old(self)@,
                self.wf(),
                run_wf(pv, s0),
                turn.at == now,
                self@ == rounds(pv, s0, n, turn).0,
                views(out@) == rounds(pv, s0, n, turn).1,
                again == rounds(pv, s0, n, turn).2,
                forall|m: nat| m < n ==> (#[trigger] rounds(pv, s0, m, turn)).2,
                all_addressed(pv, out@),
                !again ==> self@.ready == Set::<int>::empty() && (self@.running.len() == 0
                    ==> self@.blocked.len() == 0),
            decreases undone(pv, self@).len(), (if again {
                    1int
                } else {
                    0int
                }),
        {
            let ghost before = self@;
            let ghost sent = views(out@);
            let Ghost(told) = schedule(&self.program, &mut self.state, now, &mut out);
            let ghost after = self@;
            proof {
                lemma_undone_monotone(pv, before, after);
            }
            if self.state.running.len() > 0 || self.state.blocked.len() == 0 {
                again = false;
            } else {
                settle_leftovers(&self.program, &mut self.state, now);
                again = self.state.ready.len() > 0;
                proof {
                    if self.state.ready@.len() > 0 {
                        assert(ints(self.state.ready@)[0] == self.state.ready@[0]);
                        assert(self@.ready.contains(self.state.ready@[0] as int));
                    } else {
                        assert(self@.ready =~= Set::empty());
                    }
                }
            }
            proof {
                assert((self@, views(out@), again) == (
                    round(pv, before, told).0,
                    sent + round(pv, before, told).1,
                    round(pv, before, told).2,
                ));
                let next = merged(turn, told, before);
                merged_turns_agree(turn, told, s0, before, self@);
                rounds_agree(pv, s0, n, turn, next);
                round_agrees(pv, before, told, next);
                assert forall|m: nat| m < n + 1 implies (#[trigger] rounds(pv, s0, m, next)).2 by {
                    assert(rounds(pv, s0, m, next) == rounds(pv, s0, m, turn));
                }
                turn = next;
                n = n + 1;
                assert(rounds(pv, s0, n, turn).0 == round(pv, before, turn).0);
            }
        }
        proof {
            assert(settles(pv, s0, n, turn));
            settles_unique(pv, s0, n, turn);
        }
        out
    }

    /// The position of a running unit.
    pub fn position(&self, unit: usize) -> (r: Option<usize>)
        ensures
            match r {
                Some(k) => k < self@.running.len() && self@.running[k as int].0 == unit,
                None => !in_running(self@, unit as int),
            },
    {
        let mut k: usize = 0;
        while k < self.state.running.len()
            invariant
                k <= self.state.running@.len(),
                forall|j: int| 0 <= j < k ==> (#[trigger] self@.running[j]).0 != unit,
            decreases self.state.running.len() - k,
        {
            assert(self@.running[k as int] == self.state.running@[k as int]@);
            if self.state.running[k].unit == unit {
                return Some(k);
            }
            k = k + 1;
        }
        None
    }

    /// Records what the running unit at the position reports. Returns the
    /// resources that it wrote: cached reads of them must be dropped before
    /// anything else is dispatched.
    pub fn complete(&mut self, k: usize, outcome: DispatchOutcome) -> (r: StrSet)
        requires
            old(self).wf(),
            k < old(self)@.running.len(),
            covers(outcome@.results, old(self)@.running[k as int].1),
        ensures
            final(self).wf(),
            final(self).program == old(self).program,
            final(self)@ == landed(old(self).program@, old(self)@, k as int, outcome@),
            r@ == written(
                old(self).program@,
                outcome@.results,
                outcome@.results.len() as int,
            ),
    {
        complete(&self.program, &mut self.state, k, outcome)
    }

    /// Cancels the run: nothing more is started, and what runs is drained.
    pub fn cancel(&mut self)
        requires
            old(self).wf(),
        ensures
            final(self).wf(),
            final(self).program == old(self).program,
            final(self)@ == cancelled(old(self)@),
    {
        let ghost before = self.state;
        if self.state.stop.is_none() {
            self.state.stop = Some(SkipReason::Cancelled);
        }
        proof {
            let pv = self.program@;
            assert(self@ =~= cancelled(old(self)@));
            lemma_same_state(pv, before@, self@, Set::empty());
            assert forall|tool: Seq<char>| #[trigger] counted(self.state.tool_in_flight@, tool)
                == tool_load(pv, self@.running, tool) by {
                assert(counted(before.tool_in_flight@, tool) == tool_load(pv, before@.running, tool));
            }
        }
    }

    /// Whether nothing is running.
    pub fn is_idle(&self) -> (r: bool)
        ensures
            r == (self@.running.len() == 0),
    {
        self.state.running.len() == 0
    }
}

} // verus!
