//! What a turn depends on: of the validator's reasons, only those of the nodes
//! that are rejected in it.

use vstd::prelude::*;

use crate::runtime::model::{ProgramV, RunV, TurnV};
use crate::runtime::result::SkipReason;

verus! {

use crate::runtime::history::{lemma_rounds_wf, lemma_scheduled};
use crate::runtime::model::{
    after_tries, after_try, drains, drains_unique, leftovers_settled, member_verdict, next_unit,
    round, rounds, scheduled, settled_members, tried,
};
use crate::runtime::upkeep::run_wf;

/// The turns take place at the same time and give the same reasons for the
/// nodes that failed on the way from `s` to `t`.
pub open spec fn agree(a: TurnV, b: TurnV, s: RunV, t: RunV) -> bool {
    &&& a.at == b.at
    &&& forall|id: Seq<char>|
        #![trigger t.errors.dom().contains(id)]
        t.errors.dom().contains(id) && !s.errors.dom().contains(id) ==> (a.reasons)(id) == (
        b.reasons)(id)
}

/// The turn that gives the reasons of `a` for the nodes that failed before `s`
/// and those of `b` for the others.
pub open spec fn merged(a: TurnV, b: TurnV, s: RunV) -> TurnV {
    TurnV {
        at: a.at,
        reasons: |id: Seq<char>|
            if s.errors.dom().contains(id) {
                (a.reasons)(id)
            } else {
                (b.reasons)(id)
            },
    }
}

/// The merged turn agrees with the first up to `s` and with the second from
/// there on.
pub proof fn merged_turns_agree(a: TurnV, b: TurnV, start: RunV, s: RunV, t: RunV)
    requires
        a.at == b.at,
    ensures
        agree(a, merged(a, b, s), start, s),
        agree(b, merged(a, b, s), s, t),
{
}

/// Failures are kept.
pub open spec fn keeps_errors(s: RunV, t: RunV) -> bool {
    s.errors.dom().subset_of(t.errors.dom())
}

/// The reason matters to a verdict only where it is a failure, and a node that
/// failed already does not fail again.
pub proof fn lemma_verdict(p: ProgramV, s: RunV, id: Seq<char>, x: Seq<char>, y: Seq<char>)
    ensures
        member_verdict(p, s, id, x) == member_verdict(p, s, id, y) || (member_verdict(
            p,
            s,
            id,
            x,
        ) is Fail && member_verdict(p, s, id, y) is Fail),
        member_verdict(p, s, id, x) is Fail ==> !s.errors.dom().contains(id),
{
}

/// The members of a unit fare alike in turns that agree on those that fail.
pub proof fn tried_agrees(
    p: ProgramV,
    s: RunV,
    members: Seq<Seq<char>>,
    k: int,
    a: TurnV,
    b: TurnV,
)
    requires
        agree(a, b, s, tried(p, s, members, k, a).0),
    ensures
        tried(p, s, members, k, b) == tried(p, s, members, k, a),
        keeps_errors(s, tried(p, s, members, k, a).0),
    decreases k,
{
    if k > 0 {
        let before = tried(p, s, members, k - 1, a).0;
        let after = tried(p, s, members, k, a).0;
        let id = members[k - 1];
        let x = (a.reasons)(id);
        lemma_tried_errors(p, s, members, k - 1, a);
        assert(keeps_errors(before, after));
        tried_agrees(p, s, members, k - 1, a, b);
        lemma_verdict(p, before, id, x, (b.reasons)(id));
        if member_verdict(p, before, id, x) is Fail {
            assert(after.errors.dom().contains(id));
        }
    }
}

proof fn lemma_tried_errors(p: ProgramV, s: RunV, members: Seq<Seq<char>>, k: int, a: TurnV)
    ensures
        keeps_errors(s, tried(p, s, members, k, a).0),
    decreases k,
{
    if k > 0 {
        lemma_tried_errors(p, s, members, k - 1, a);
    }
}

proof fn lemma_settling_errors(
    p: ProgramV,
    s: RunV,
    members: Seq<Seq<char>>,
    k: int,
    fallback: SkipReason,
    now: u64,
)
    ensures
        settled_members(p, s, members, k, fallback, now).errors == s.errors,
    decreases k,
{
    if k > 0 {
        lemma_settling_errors(p, s, members, k - 1, fallback, now);
    }
}

proof fn lemma_leftover_errors(p: ProgramV, s: RunV, units: Seq<int>, k: int, now: u64)
    ensures
        leftovers_settled(p, s, units, k, now).errors == s.errors,
    decreases k,
{
    if k > 0 {
        lemma_leftover_errors(p, s, units, k - 1, now);
        let members = p.units[units[k - 1]].members;
        lemma_settling_errors(
            p,
            leftovers_settled(p, s, units, k - 1, now),
            members,
            members.len() as int,
            SkipReason::NotRun,
            now,
        );
    }
}

proof fn lemma_try_errors(p: ProgramV, s: RunV, u: int, a: TurnV)
    ensures
        keeps_errors(s, after_try(p, s, u, a).0),
{
    let popped = RunV { ready: s.ready.remove(u), ..s };
    let members = p.units[u].members;
    match s.stop {
        Some(reason) => {
            lemma_settling_errors(p, popped, members, members.len() as int, reason, a.at);
        },
        None => {
            lemma_tried_errors(p, popped, members, members.len() as int, a);
        },
    }
}

/// A unit fares alike in turns that agree on the nodes that fail.
pub proof fn try_agrees(p: ProgramV, s: RunV, u: int, a: TurnV, b: TurnV)
    requires
        agree(a, b, s, after_try(p, s, u, a).0),
    ensures
        after_try(p, s, u, b) == after_try(p, s, u, a),
{
    let popped = RunV { ready: s.ready.remove(u), ..s };
    let members = p.units[u].members;
    let n = members.len() as int;
    if s.stop is None {
        let mid = tried(p, popped, members, n, a).0;
        assert(after_try(p, s, u, a).0.errors == mid.errors);
        assert(agree(a, b, popped, mid));
        tried_agrees(p, popped, members, n, a, b);
    }
}

proof fn lemma_tries_errors(p: ProgramV, s: RunV, m: nat, n: nat, a: TurnV)
    requires
        m <= n,
    ensures
        keeps_errors(after_tries(p, s, m, a).0, after_tries(p, s, n, a).0),
    decreases n,
{
    if m < n {
        let k = (n - 1) as nat;
        lemma_tries_errors(p, s, m, k, a);
        let before = after_tries(p, s, k, a).0;
        lemma_try_errors(p, before, next_unit(p, before.ready), a);
    }
}

/// Tries come out alike in turns that agree on the nodes that fail.
pub proof fn tries_agree(p: ProgramV, s: RunV, n: nat, a: TurnV, b: TurnV)
    requires
        agree(a, b, s, after_tries(p, s, n, a).0),
    ensures
        after_tries(p, s, n, b) == after_tries(p, s, n, a),
        forall|m: nat| m <= n ==> #[trigger] after_tries(p, s, m, b) == after_tries(p, s, m, a),
    decreases n,
{
    if n > 0 {
        let k = (n - 1) as nat;
        let before = after_tries(p, s, k, a).0;
        let after = after_tries(p, s, n, a).0;
        lemma_tries_errors(p, s, k, n, a);
        lemma_tries_errors(p, s, 0, k, a);
        assert(agree(a, b, s, before)) by {
            assert forall|id: Seq<char>| #[trigger]
                before.errors.dom().contains(id) && !s.errors.dom().contains(id) implies (a.reasons)(
                id,
            ) == (b.reasons)(id) by {
                assert(after.errors.dom().contains(id));
            }
        }
        tries_agree(p, s, k, a, b);
        assert(agree(a, b, before, after)) by {
            assert forall|id: Seq<char>| #[trigger]
                after.errors.dom().contains(id) && !before.errors.dom().contains(id) implies (
            a.reasons)(id) == (b.reasons)(id) by {
                assert(!s.errors.dom().contains(id));
            }
        }
        try_agrees(p, before, next_unit(p, before.ready), a, b);
        assert forall|m: nat| m <= n implies #[trigger] after_tries(p, s, m, b) == after_tries(
            p,
            s,
            m,
            a,
        ) by {
            if m < n {
                assert(m <= k);
            }
        }
    }
}

proof fn lemma_round_errors(p: ProgramV, s: RunV, a: TurnV)
    requires
        run_wf(p, s),
    ensures
        round(p, s, a).0.errors == scheduled(p, s, a).0.errors,
        keeps_errors(s, round(p, s, a).0),
{
    let n = lemma_scheduled(p, s, a);
    lemma_tries_errors(p, s, 0, n, a);
    let after = scheduled(p, s, a).0;
    lemma_leftover_errors(
        p,
        RunV { blocked: Seq::empty(), ..after },
        after.blocked,
        after.blocked.len() as int,
        a.at,
    );
}

/// A round comes out alike in turns that agree on the nodes that fail.
pub proof fn round_agrees(p: ProgramV, s: RunV, a: TurnV, b: TurnV)
    requires
        run_wf(p, s),
        agree(a, b, s, round(p, s, a).0),
    ensures
        round(p, s, b) == round(p, s, a),
{
    let n = lemma_scheduled(p, s, a);
    lemma_round_errors(p, s, a);
    let after = scheduled(p, s, a).0;
    assert(agree(a, b, s, after));
    tries_agree(p, s, n, a, b);
    assert(drains(p, s, n, b)) by {
        assert forall|m: nat| m < n implies (#[trigger] after_tries(p, s, m, b)).0.ready
            != Set::<int>::empty() by {
            assert(after_tries(p, s, m, a).0.ready != Set::<int>::empty());
        }
    }
    drains_unique(p, s, n, b);
}

proof fn lemma_rounds_errors(p: ProgramV, s: RunV, m: nat, n: nat, a: TurnV)
    requires
        run_wf(p, s),
        m <= n,
    ensures
        keeps_errors(rounds(p, s, m, a).0, rounds(p, s, n, a).0),
    decreases n,
{
    if m < n {
        let k = (n - 1) as nat;
        lemma_rounds_errors(p, s, m, k, a);
        lemma_rounds_wf(p, s, k, a);
        lemma_round_errors(p, rounds(p, s, k, a).0, a);
    }
}

/// Rounds come out alike in turns that agree on the nodes that fail.
pub proof fn rounds_agree(p: ProgramV, s: RunV, n: nat, a: TurnV, b: TurnV)
    requires
        run_wf(p, s),
        agree(a, b, s, rounds(p, s, n, a).0),
    ensures
        rounds(p, s, n, b) == rounds(p, s, n, a),
        forall|m: nat| m <= n ==> #[trigger] rounds(p, s, m, b) == rounds(p, s, m, a),
    decreases n,
{
    if n > 0 {
        let k = (n - 1) as nat;
        let before = rounds(p, s, k, a).0;
        let after = rounds(p, s, n, a).0;
        lemma_rounds_errors(p, s, k, n, a);
        lemma_rounds_errors(p, s, 0, k, a);
        lemma_rounds_wf(p, s, k, a);
        assert(agree(a, b, s, before)) by {
            assert forall|id: Seq<char>| #[trigger]
                before.errors.dom().contains(id) && !s.errors.dom().contains(id) implies (a.reasons)(
                id,
            ) == (b.reasons)(id) by {
                assert(after.errors.dom().contains(id));
            }
        }
        rounds_agree(p, s, k, a, b);
        assert(agree(a, b, before, after)) by {
            assert forall|id: Seq<char>| #[trigger]
                after.errors.dom().contains(id) && !before.errors.dom().contains(id) implies (
            a.reasons)(id) == (b.reasons)(id) by {
                assert(!s.errors.dom().contains(id));
            }
        }
        assert(after == round(p, before, a).0);
        round_agrees(p, before, a, b);
        assert forall|m: nat| m <= n implies #[trigger] rounds(p, s, m, b) == rounds(
            p,
            s,
            m,
            a,
        ) by {
            if m < n {
                assert(m <= k);
            }
        }
    }
}

} // verus!
