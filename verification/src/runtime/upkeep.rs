//! What holds in every state of a run.

use vstd::prelude::*;

use crate::adapters::api::ToolErrorV;
use crate::json::Json;
use crate::plan::NodeV;
use crate::runtime::dispatch::{NodeResultV, OutcomeV};
use crate::runtime::model::{MemberV, ProgramV, RunV, TurnV};
use crate::runtime::result::{RunMetrics, SkipReason};

verus! {

use crate::optimizer::batch::has_node;
use crate::runtime::dispatch::{covers, result_nodes};
use crate::runtime::locks::may_overlap;
use crate::runtime::model::{
    admits, after_error, after_failure, after_outcome, after_results, after_skip, after_success,
    after_unit, deps_in_range, global_limit, member_ids, member_verdict, node_of, program_wf,
    settle_reason, settled, settled_members, tool_limit, tool_load, tried, unblocked, with_event,
    within,
};

// ---------------------------------------------------------------------------
// Statement
// ---------------------------------------------------------------------------

/// The unit is among the running ones.
pub open spec fn in_running(s: RunV, u: int) -> bool {
    exists|i: int| 0 <= i < s.running.len() && (#[trigger] s.running[i]).0 == u
}

/// The unit is ready, blocked, running or over.
pub open spec fn placed(s: RunV, u: int) -> bool {
    s.ready.contains(u) || s.blocked.contains(u) || in_running(s, u) || s.done.contains(u)
}

/// Every unit is in one place at most, and it waits for others exactly until
/// all of them are over. The units in `hole` are being moved: they are in no
/// place at the moment.
pub open spec fn places_wf(p: ProgramV, s: RunV, hole: Set<int>) -> bool {
    let n = p.units.len();
    &&& forall|u: int| #[trigger] s.ready.contains(u) ==> 0 <= u < n && !s.blocked.contains(u)
        && !in_running(s, u) && !s.done.contains(u) && !hole.contains(u)
    &&& forall|u: int| #[trigger] s.blocked.contains(u) ==> 0 <= u < n && !in_running(s, u)
        && !s.done.contains(u) && !hole.contains(u)
    &&& forall|u: int| #[trigger] in_running(s, u) ==> 0 <= u < n && !s.done.contains(u)
        && !hole.contains(u)
    &&& forall|u: int| #[trigger] s.done.contains(u) ==> 0 <= u < n && !hole.contains(u)
    &&& forall|u: int| #[trigger] hole.contains(u) ==> 0 <= u < n
    &&& s.blocked.no_duplicates()
    &&& forall|i: int, j: int|
        0 <= i < s.running.len() && 0 <= j < s.running.len() && (#[trigger] s.running[i]).0 == (
        #[trigger] s.running[j]).0 ==> i == j
    &&& forall|u: int|
        #![trigger p.deps[u]]
        0 <= u < n ==> (p.deps[u].subset_of(s.done) <==> placed(s, u) || hole.contains(u))
}

/// The nodes that went out with a running unit are the members that are not
/// over.
pub open spec fn flight_wf(p: ProgramV, s: RunV, u: int, ids: Seq<Seq<char>>) -> bool {
    &&& ids.no_duplicates()
    &&& forall|i: int|
        0 <= i < ids.len() ==> p.units[u].members.contains(#[trigger] ids[i]) && !settled(s, ids[i])
    &&& forall|i: int|
        0 <= i < p.units[u].members.len() ==> settled(s, #[trigger] p.units[u].members[i])
            || ids.contains(p.units[u].members[i])
}

/// Every node is over at most once, and exactly the members of units that are
/// over must be.
pub open spec fn nodes_wf(p: ProgramV, s: RunV) -> bool {
    &&& forall|id: Seq<char>| #[trigger] settled(s, id) ==> has_node(p.plan.nodes, id)
    &&& s.outputs.dom().disjoint(s.errors.dom())
    &&& s.outputs.dom().disjoint(s.skipped.dom())
    &&& s.errors.dom().disjoint(s.skipped.dom())
    &&& forall|u: int, i: int|
        s.done.contains(u) && 0 <= i < p.units[u].members.len() ==> settled(
            s,
            #[trigger] p.units[u].members[i],
        )
    &&& forall|k: int|
        0 <= k < s.running.len() ==> flight_wf(p, s, (#[trigger] s.running[k]).0, s.running[k].1)
}

/// The metrics count what they say.
pub open spec fn metrics_wf(p: ProgramV, s: RunV) -> bool {
    &&& s.outputs.dom().finite()
    &&& s.errors.dom().finite()
    &&& s.skipped.dom().finite()
    &&& s.metrics.nodes_total == p.plan.nodes.len()
    &&& s.metrics.nodes_succeeded == s.outputs.dom().len()
    &&& s.metrics.nodes_failed == s.errors.dom().len()
    &&& s.metrics.nodes_skipped == s.skipped.dom().len()
}

/// The running units respect all limits, and no two of them clash.
pub open spec fn admission_wf(p: ProgramV, s: RunV) -> bool {
    &&& within(s.running.len(), global_limit(p))
    &&& forall|u: int|
        0 <= u < p.units.len() ==> within(
            tool_load(p, s.running, (#[trigger] p.units[u]).tool),
            tool_limit(p, p.units[u].tool),
        )
    &&& forall|i: int, j: int|
        #![trigger s.running[i], s.running[j]]
        0 <= i < j < s.running.len() ==> may_overlap(
            p.units[s.running[i].0].lock,
            p.units[s.running[j].0].lock,
        )
}

/// The invariant while the units in `hole` are being moved.
pub open spec fn wf_holding(p: ProgramV, s: RunV, hole: Set<int>) -> bool {
    &&& program_wf(p)
    &&& places_wf(p, s, hole)
    &&& nodes_wf(p, s)
    &&& metrics_wf(p, s)
    &&& admission_wf(p, s)
}

/// What holds in every state of a run.
pub open spec fn run_wf(p: ProgramV, s: RunV) -> bool {
    wf_holding(p, s, Set::empty())
}

// ---------------------------------------------------------------------------
// Counting
// ---------------------------------------------------------------------------

/// There are no more nodes than the plan has.
pub proof fn ids_are_few(nodes: Seq<NodeV>, ids: Set<Seq<char>>)
    requires
        forall|id: Seq<char>| #[trigger] ids.contains(id) ==> has_node(nodes, id),
    ensures
        ids.finite(),
        ids.len() <= nodes.len(),
{
    let names = Seq::new(nodes.len(), |i: int| nodes[i].id);
    assert forall|id: Seq<char>| #[trigger] ids.contains(id) implies names.to_set().contains(id) by {
        assert(has_node(nodes, id));
        let i = choose|i: int| 0 <= i < nodes.len() && (#[trigger] nodes[i]).id == id;
        assert(names[i] == id);
    }
    assert(ids.subset_of(names.to_set()));
    vstd::seq_lib::seq_to_set_is_finite(names);
    names.lemma_cardinality_of_set();
    vstd::set_lib::lemma_len_subset(ids, names.to_set());
}

/// A node that is not over leaves room in every count.
pub proof fn lemma_room(p: ProgramV, s: RunV, hole: Set<int>, id: Seq<char>)
    requires
        wf_holding(p, s, hole),
        has_node(p.plan.nodes, id),
        !settled(s, id),
    ensures
        s.outputs.dom().len() < p.plan.nodes.len(),
        s.errors.dom().len() < p.plan.nodes.len(),
        s.skipped.dom().len() < p.plan.nodes.len(),
{
    assert forall|x: Seq<char>| #[trigger] s.outputs.dom().insert(id).contains(x) implies has_node(
        p.plan.nodes,
        x,
    ) by {
        if x != id {
            assert(settled(s, x));
        }
    }
    assert forall|x: Seq<char>| #[trigger] s.errors.dom().insert(id).contains(x) implies has_node(
        p.plan.nodes,
        x,
    ) by {
        if x != id {
            assert(settled(s, x));
        }
    }
    assert forall|x: Seq<char>| #[trigger] s.skipped.dom().insert(id).contains(x) implies has_node(
        p.plan.nodes,
        x,
    ) by {
        if x != id {
            assert(settled(s, x));
        }
    }
    ids_are_few(p.plan.nodes, s.outputs.dom().insert(id));
    ids_are_few(p.plan.nodes, s.errors.dom().insert(id));
    ids_are_few(p.plan.nodes, s.skipped.dom().insert(id));
}

// ---------------------------------------------------------------------------
// Settling one node
// ---------------------------------------------------------------------------

/// `t` is `s` after one more node was over.
pub open spec fn settles_one(s: RunV, t: RunV, id: Seq<char>) -> bool {
    &&& t.ready == s.ready
    &&& t.blocked == s.blocked
    &&& t.running == s.running
    &&& t.done == s.done
    &&& forall|x: Seq<char>| #[trigger] settled(t, x) <==> settled(s, x) || x == id
}

proof fn lemma_settles_one(p: ProgramV, s: RunV, t: RunV, hole: Set<int>, u: int, id: Seq<char>)
    requires
        wf_holding(p, s, hole),
        hole.contains(u),
        p.units[u].members.contains(id),
        !settled(s, id),
        settles_one(s, t, id),
        t.outputs.dom().disjoint(t.errors.dom()),
        t.outputs.dom().disjoint(t.skipped.dom()),
        t.errors.dom().disjoint(t.skipped.dom()),
        metrics_wf(p, t),
    ensures
        wf_holding(p, t, hole),
{
    let m = choose|m: int| 0 <= m < p.units[u].members.len() && p.units[u].members[m] == id;
    assert(has_node(p.plan.nodes, p.units[u].members[m]));
    assert forall|v: int| in_running(t, v) == in_running(s, v) by {
        if in_running(s, v) {
            let i = choose|i: int| 0 <= i < s.running.len() && (#[trigger] s.running[i]).0 == v;
            assert(t.running[i].0 == v);
        }
        if in_running(t, v) {
            let i = choose|i: int| 0 <= i < t.running.len() && (#[trigger] t.running[i]).0 == v;
            assert(s.running[i].0 == v);
        }
    }
    assert(places_wf(p, t, hole)) by {
        assert forall|w: int| #![trigger p.deps[w]] 0 <= w < p.units.len() implies (p.deps[w].subset_of(
            t.done,
        ) <==> placed(t, w) || hole.contains(w)) by {
            assert(placed(t, w) == placed(s, w));
        }
    }
    assert forall|k: int| 0 <= k < t.running.len() implies flight_wf(
        p,
        t,
        (#[trigger] t.running[k]).0,
        t.running[k].1,
    ) by {
        let v = s.running[k].0;
        let ids = s.running[k].1;
        assert(flight_wf(p, s, v, ids));
        assert(in_running(s, v));
        assert(v != u);
        assert forall|i: int| 0 <= i < ids.len() implies p.units[v].members.contains(
            #[trigger] ids[i],
        ) && !settled(t, ids[i]) by {
            assert(p.units[v].members.contains(ids[i]));
            let j = choose|j: int| 0 <= j < p.units[v].members.len() && p.units[v].members[j] == ids[i];
            if ids[i] == id {
                assert(p.units[v].members[j] == p.units[u].members[m]);
            }
        }
        assert forall|i: int| 0 <= i < p.units[v].members.len() implies settled(
            t,
            #[trigger] p.units[v].members[i],
        ) || ids.contains(p.units[v].members[i]) by {
            assert(settled(s, p.units[v].members[i]) || ids.contains(p.units[v].members[i]));
        }
    }
    assert(nodes_wf(p, t));
    assert(admission_wf(p, t));
}

/// Skipping a member that is not over keeps the invariant.
pub proof fn skip_keeps_wf(
    p: ProgramV,
    s: RunV,
    hole: Set<int>,
    u: int,
    id: Seq<char>,
    reason: SkipReason,
    now: u64,
)
    requires
        wf_holding(p, s, hole),
        hole.contains(u),
        p.units[u].members.contains(id),
        !settled(s, id),
    ensures
        wf_holding(p, after_skip(p, s, id, reason, now), hole),
        settles_one(s, after_skip(p, s, id, reason, now), id),
{
    let t = after_skip(p, s, id, reason, now);
    let m = choose|m: int| 0 <= m < p.units[u].members.len() && p.units[u].members[m] == id;
    assert(has_node(p.plan.nodes, p.units[u].members[m]));
    lemma_room(p, s, hole, id);
    assert(t.skipped.dom() =~= s.skipped.dom().insert(id));
    lemma_settles_one(p, s, t, hole, u, id);
}

/// Failing a member that is not over keeps the invariant.
pub proof fn failure_keeps_wf(
    p: ProgramV,
    s: RunV,
    hole: Set<int>,
    u: int,
    id: Seq<char>,
    e: ToolErrorV,
)
    requires
        wf_holding(p, s, hole),
        hole.contains(u),
        p.units[u].members.contains(id),
        !settled(s, id),
    ensures
        wf_holding(p, after_failure(p, s, id, e), hole),
        settles_one(s, after_failure(p, s, id, e), id),
{
    let t = after_failure(p, s, id, e);
    let m = choose|m: int| 0 <= m < p.units[u].members.len() && p.units[u].members[m] == id;
    assert(has_node(p.plan.nodes, p.units[u].members[m]));
    lemma_room(p, s, hole, id);
    assert(t.errors.dom() =~= s.errors.dom().insert(id));
    lemma_settles_one(p, s, t, hole, u, id);
}

/// Finishing a member that is not over keeps the invariant.
pub proof fn success_keeps_wf(
    p: ProgramV,
    s: RunV,
    hole: Set<int>,
    u: int,
    id: Seq<char>,
    output: Json,
)
    requires
        wf_holding(p, s, hole),
        hole.contains(u),
        p.units[u].members.contains(id),
        !settled(s, id),
    ensures
        wf_holding(p, after_success(s, id, output), hole),
        settles_one(s, after_success(s, id, output), id),
{
    let t = after_success(s, id, output);
    let m = choose|m: int| 0 <= m < p.units[u].members.len() && p.units[u].members[m] == id;
    assert(has_node(p.plan.nodes, p.units[u].members[m]));
    lemma_room(p, s, hole, id);
    assert(t.outputs.dom() =~= s.outputs.dom().insert(id));
    lemma_settles_one(p, s, t, hole, u, id);
}

/// An event changes nothing but the trace.
pub proof fn event_keeps_wf(p: ProgramV, s: RunV, hole: Set<int>, e: crate::runtime::result::EventV)
    requires
        wf_holding(p, s, hole),
    ensures
        wf_holding(p, with_event(s, e), hole),
{
    lemma_same_state(p, s, with_event(s, e), hole);
}

/// The invariant does not speak of the trace, of what the outputs are, nor of
/// why the run stops.
pub proof fn lemma_same_state(p: ProgramV, s: RunV, t: RunV, hole: Set<int>)
    requires
        wf_holding(p, s, hole),
        t.ready == s.ready,
        t.blocked == s.blocked,
        t.running == s.running,
        t.done == s.done,
        t.outputs.dom() == s.outputs.dom(),
        t.errors.dom() == s.errors.dom(),
        t.skipped.dom() == s.skipped.dom(),
        t.metrics.nodes_total == s.metrics.nodes_total,
        t.metrics.nodes_succeeded == s.metrics.nodes_succeeded,
        t.metrics.nodes_failed == s.metrics.nodes_failed,
        t.metrics.nodes_skipped == s.metrics.nodes_skipped,
    ensures
        wf_holding(p, t, hole),
{
    assert forall|x: Seq<char>| #[trigger] settled(t, x) == settled(s, x) by {}
    assert forall|v: int| #[trigger] in_running(t, v) == in_running(s, v) by {
        if in_running(s, v) {
            let i = choose|i: int| 0 <= i < s.running.len() && (#[trigger] s.running[i]).0 == v;
            assert(t.running[i].0 == v);
        }
        if in_running(t, v) {
            let i = choose|i: int| 0 <= i < t.running.len() && (#[trigger] t.running[i]).0 == v;
            assert(s.running[i].0 == v);
        }
    }
    assert(places_wf(p, t, hole)) by {
        assert forall|w: int| #![trigger p.deps[w]] 0 <= w < p.units.len() implies (p.deps[w].subset_of(
            t.done,
        ) <==> placed(t, w) || hole.contains(w)) by {
            assert(placed(t, w) == placed(s, w));
        }
    }
    assert forall|k: int| 0 <= k < t.running.len() implies flight_wf(
        p,
        t,
        (#[trigger] t.running[k]).0,
        t.running[k].1,
    ) by {
        assert(flight_wf(p, s, s.running[k].0, s.running[k].1));
        let v = s.running[k].0;
        assert forall|i: int| 0 <= i < p.units[v].members.len() implies settled(
            t,
            #[trigger] p.units[v].members[i],
        ) || s.running[k].1.contains(p.units[v].members[i]) by {
            assert(settled(s, p.units[v].members[i]) || s.running[k].1.contains(
                p.units[v].members[i],
            ));
        }
    }
    assert(nodes_wf(p, t));
}

/// Failing a member before it is dispatched keeps the invariant.
pub proof fn error_keeps_wf(
    p: ProgramV,
    s: RunV,
    hole: Set<int>,
    u: int,
    id: Seq<char>,
    e: ToolErrorV,
    now: u64,
)
    requires
        wf_holding(p, s, hole),
        hole.contains(u),
        p.units[u].members.contains(id),
        !settled(s, id),
    ensures
        wf_holding(p, after_error(p, s, id, e, now), hole),
        settles_one(s, after_error(p, s, id, e, now), id),
{
    let ev = crate::runtime::result::EventV {
        duration_ms: Some(0),
        error: Some(e.message),
        ..crate::runtime::result::event(
            id,
            node_of(p, id).tool,
            crate::runtime::result::TraceStatus::Failed,
            now,
        )
    };
    let mid = with_event(s, ev);
    event_keeps_wf(p, s, hole, ev);
    assert(!settled(mid, id));
    failure_keeps_wf(p, mid, hole, u, id, e);
    let t = after_error(p, s, id, e, now);
    assert(t == after_failure(p, mid, id, e));
    assert forall|x: Seq<char>| #[trigger] settled(t, x) <==> settled(s, x) || x == id by {
        assert(settled(mid, x) == settled(s, x));
    }
}

// ---------------------------------------------------------------------------
// Settling the members of a unit
// ---------------------------------------------------------------------------

/// `t` differs from `s` only in members of the unit that are over, the trace,
/// the counts and whether the run stops.
pub open spec fn same_places(s: RunV, t: RunV) -> bool {
    &&& t.ready == s.ready
    &&& t.blocked == s.blocked
    &&& t.running == s.running
    &&& t.done == s.done
    &&& t.outputs == s.outputs
    &&& forall|x: Seq<char>| #[trigger] settled(s, x) ==> settled(t, x)
}

/// Settling the members of a unit keeps the invariant and leaves none of them
/// open.
pub proof fn settling_keeps_wf(
    p: ProgramV,
    s: RunV,
    hole: Set<int>,
    u: int,
    k: int,
    fallback: SkipReason,
    now: u64,
)
    requires
        wf_holding(p, s, hole),
        hole.contains(u),
        0 <= k <= p.units[u].members.len(),
    ensures
        wf_holding(p, settled_members(p, s, p.units[u].members, k, fallback, now), hole),
        same_places(s, settled_members(p, s, p.units[u].members, k, fallback, now)),
        settled_members(p, s, p.units[u].members, k, fallback, now).stop == s.stop,
        forall|i: int|
            0 <= i < k ==> settled(
                settled_members(p, s, p.units[u].members, k, fallback, now),
                #[trigger] p.units[u].members[i],
            ),
    decreases k,
{
    let members = p.units[u].members;
    if k > 0 {
        settling_keeps_wf(p, s, hole, u, k - 1, fallback, now);
        let before = settled_members(p, s, members, k - 1, fallback, now);
        let id = members[k - 1];
        assert(members.contains(id));
        if !settled(before, id) {
            skip_keeps_wf(p, before, hole, u, id, settle_reason(p, before, id, fallback), now);
        }
        let after = settled_members(p, s, members, k, fallback, now);
        assert forall|x: Seq<char>| #[trigger] settled(s, x) implies settled(after, x) by {
            assert(settled(before, x));
        }
        assert forall|i: int| 0 <= i < k implies settled(after, #[trigger] members[i]) by {
            if i < k - 1 {
                assert(settled(before, members[i]));
            }
        }
    }
}

/// Trying the members of a unit keeps the invariant. Each of them is then over
/// or goes out, once.
pub proof fn trying_keeps_wf(p: ProgramV, s: RunV, hole: Set<int>, u: int, k: int, now: TurnV)
    requires
        wf_holding(p, s, hole),
        hole.contains(u),
        0 <= k <= p.units[u].members.len(),
    ensures
        wf_holding(p, tried(p, s, p.units[u].members, k, now).0, hole),
        same_places(s, tried(p, s, p.units[u].members, k, now).0),
        tried(p, s, p.units[u].members, k, now).1.len() <= k,
        member_ids(tried(p, s, p.units[u].members, k, now).1).no_duplicates(),
        forall|i: int|
            0 <= i < tried(p, s, p.units[u].members, k, now).1.len() ==> {
                let id = (#[trigger] tried(p, s, p.units[u].members, k, now).1[i]).node;
                p.units[u].members.take(k).contains(id) && !settled(
                    tried(p, s, p.units[u].members, k, now).0,
                    id,
                )
            },
        forall|i: int|
            0 <= i < k ==> settled(
                tried(p, s, p.units[u].members, k, now).0,
                #[trigger] p.units[u].members[i],
            ) || member_ids(tried(p, s, p.units[u].members, k, now).1).contains(
                p.units[u].members[i],
            ),
    decreases k,
{
    let members = p.units[u].members;
    if k > 0 {
        trying_keeps_wf(p, s, hole, u, k - 1, now);
        let (before, out) = tried(p, s, members, k - 1, now);
        let (after, more) = tried(p, s, members, k, now);
        let id = members[k - 1];
        let reason = (now.reasons)(id);
        let v = member_verdict(p, before, id, reason);
        assert(members.contains(id));
        assert(has_node(p.plan.nodes, p.units[u].members[k - 1]));
        match v {
            MemberV::Settled => {},
            MemberV::Skip(why) => {
                skip_keeps_wf(p, before, hole, u, id, why, now.at);
            },
            MemberV::Fail(e) => {
                error_keeps_wf(p, before, hole, u, id, e, now.at);
            },
            MemberV::Go(m) => {
                lemma_go_names_member(p, before, id, reason);
                assert(m.node == id);
            },
        }
        let front = members.take(k - 1);
        assert(members.take(k) =~= front.push(id));
        assert(!front.contains(id)) by {
            if front.contains(id) {
                let j = choose|j: int| 0 <= j < front.len() && front[j] == id;
                assert(p.units[u].members[j] == p.units[u].members[k - 1]);
            }
        }
        assert forall|x: Seq<char>| #[trigger] settled(s, x) implies settled(after, x) by {
            assert(settled(before, x));
        }
        assert forall|x: Seq<char>| x != id implies #[trigger] settled(after, x) == settled(
            before,
            x,
        ) by {}
        assert forall|i: int| 0 <= i < more.len() implies members.take(k).contains(
            (#[trigger] more[i]).node,
        ) && !settled(after, more[i].node) by {
            if i < out.len() {
                assert(more[i] == out[i]);
                assert(front.contains(out[i].node));
                let j = choose|j: int| 0 <= j < front.len() && front[j] == out[i].node;
                assert(members.take(k)[j] == out[i].node);
            } else {
                assert(more[i].node == id);
                assert(members.take(k)[k - 1] == id);
            }
        }
        let ids = member_ids(more);
        let old_ids = member_ids(out);
        assert forall|i: int, j: int| 0 <= i < ids.len() && 0 <= j < ids.len() && i != j implies ids[i]
            != ids[j] by {
            if i < out.len() && j < out.len() {
                assert(old_ids[i] != old_ids[j]);
            } else if i < out.len() {
                assert(front.contains(out[i].node));
            } else {
                assert(front.contains(out[j].node));
            }
        }
        assert forall|i: int| 0 <= i < k implies settled(after, #[trigger] members[i])
            || ids.contains(members[i]) by {
            if i < k - 1 {
                assert(settled(before, members[i]) || old_ids.contains(members[i]));
                if old_ids.contains(members[i]) {
                    let j = choose|j: int| 0 <= j < old_ids.len() && old_ids[j] == members[i];
                    assert(ids[j] == members[i]);
                }
            } else {
                match v {
                    MemberV::Go(m) => {
                        assert(ids[out.len() as int] == id);
                    },
                    _ => {},
                }
            }
        }
    } else {
        assert(p.units[u].members.take(0).len() == 0);
    }
}

/// A member that goes out is the member that was asked about.
pub proof fn lemma_go_names_member(p: ProgramV, s: RunV, id: Seq<char>, reason: Seq<char>)
    requires
        has_node(p.plan.nodes, id),
    ensures
        member_verdict(p, s, id, reason) matches MemberV::Go(m) ==> m.node == id,
        member_verdict(p, s, id, reason) matches MemberV::Go(m) ==> !settled(s, id),
        member_verdict(p, s, id, reason) matches MemberV::Skip(_) ==> !settled(s, id),
        member_verdict(p, s, id, reason) matches MemberV::Fail(_) ==> !settled(s, id),
{
    let node = node_of(p, id);
    assert(node.id == id);
}

// ---------------------------------------------------------------------------
// Moving a unit
// ---------------------------------------------------------------------------

/// Taking a ready unit up keeps the invariant.
pub proof fn pop_keeps_wf(p: ProgramV, s: RunV, hole: Set<int>, u: int)
    requires
        wf_holding(p, s, hole),
        s.ready.contains(u),
    ensures
        wf_holding(p, (RunV { ready: s.ready.remove(u), ..s }), hole.insert(u)),
{
    let t = RunV { ready: s.ready.remove(u), ..s };
    let h = hole.insert(u);
    lemma_running_same(s, t);
    assert forall|x: Seq<char>| #[trigger] settled(t, x) == settled(s, x) by {}
    assert(places_wf(p, t, h)) by {
        assert forall|w: int| #![trigger p.deps[w]] 0 <= w < p.units.len() implies (p.deps[w].subset_of(
            t.done,
        ) <==> placed(t, w) || h.contains(w)) by {
            assert(p.deps[w].subset_of(s.done) <==> placed(s, w) || hole.contains(w));
        }
    }
    lemma_nodes_same(p, s, t);
}

proof fn lemma_running_same(s: RunV, t: RunV)
    requires
        t.running == s.running,
    ensures
        forall|v: int| #[trigger] in_running(t, v) == in_running(s, v),
{
    assert forall|v: int| #[trigger] in_running(t, v) == in_running(s, v) by {
        if in_running(s, v) {
            let i = choose|i: int| 0 <= i < s.running.len() && (#[trigger] s.running[i]).0 == v;
            assert(t.running[i].0 == v);
        }
        if in_running(t, v) {
            let i = choose|i: int| 0 <= i < t.running.len() && (#[trigger] t.running[i]).0 == v;
            assert(s.running[i].0 == v);
        }
    }
}

proof fn lemma_nodes_same(p: ProgramV, s: RunV, t: RunV)
    requires
        nodes_wf(p, s),
        t.running == s.running,
        t.done == s.done,
        t.outputs == s.outputs,
        t.errors == s.errors,
        t.skipped == s.skipped,
    ensures
        nodes_wf(p, t),
{
    assert forall|x: Seq<char>| #[trigger] settled(t, x) == settled(s, x) by {}
    assert forall|k: int| 0 <= k < t.running.len() implies flight_wf(
        p,
        t,
        (#[trigger] t.running[k]).0,
        t.running[k].1,
    ) by {
        let v = s.running[k].0;
        assert(flight_wf(p, s, v, s.running[k].1));
        assert forall|i: int| 0 <= i < p.units[v].members.len() implies settled(
            t,
            #[trigger] p.units[v].members[i],
        ) || s.running[k].1.contains(p.units[v].members[i]) by {
            assert(settled(s, p.units[v].members[i]) || s.running[k].1.contains(
                p.units[v].members[i],
            ));
        }
    }
}

/// Ending a unit whose members are all over keeps the invariant.
pub proof fn unit_end_keeps_wf(p: ProgramV, s: RunV, hole: Set<int>, u: int)
    requires
        wf_holding(p, s, hole),
        hole.contains(u),
        forall|i: int|
            0 <= i < p.units[u].members.len() ==> settled(s, #[trigger] p.units[u].members[i]),
    ensures
        wf_holding(p, after_unit(p, s, u), hole.remove(u)),
{
    let t = after_unit(p, s, u);
    let h = hole.remove(u);
    lemma_running_same(s, t);
    assert forall|x: Seq<char>| #[trigger] settled(t, x) == settled(s, x) by {}
    assert forall|d: int| #[trigger] unblocked(p, s.done, u).contains(d) implies !placed(s, d)
        && !hole.contains(d) && 0 <= d < p.units.len() by {
        assert(p.deps[d].contains(u));
        assert(!s.done.contains(u));
        assert(!p.deps[d].subset_of(s.done));
    }
    assert(places_wf(p, t, h)) by {
        assert forall|w: int| #![trigger p.deps[w]] 0 <= w < p.units.len() implies (p.deps[w].subset_of(
            t.done,
        ) <==> placed(t, w) || h.contains(w)) by {
            assert(deps_in_range(p.deps[w], w, p.units.len() as int));
            assert(p.deps[w].subset_of(s.done) <==> placed(s, w) || hole.contains(w));
            if p.deps[w].subset_of(s.done) {
                assert(p.deps[w].subset_of(t.done));
            } else if p.deps[w].subset_of(t.done) {
                if !p.deps[w].contains(u) {
                    assert forall|d: int| p.deps[w].contains(d) implies s.done.contains(d) by {
                        assert(t.done.contains(d));
                    }
                    assert(p.deps[w].subset_of(s.done));
                }
                assert(unblocked(p, s.done, u).contains(w));
            } else {
                assert(!unblocked(p, s.done, u).contains(w));
                assert(w != u);
            }
        }
        assert forall|w: int| #[trigger] t.ready.contains(w) implies 0 <= w < p.units.len()
            && !t.blocked.contains(w) && !in_running(t, w) && !t.done.contains(w) && !h.contains(
            w,
        ) by {
            if unblocked(p, s.done, u).contains(w) {
                assert(!placed(s, w));
                assert(w != u) by {
                    assert(hole.contains(u));
                }
            }
        }
    }
    assert forall|k: int| 0 <= k < t.running.len() implies flight_wf(
        p,
        t,
        (#[trigger] t.running[k]).0,
        t.running[k].1,
    ) by {
        let v = s.running[k].0;
        assert(flight_wf(p, s, v, s.running[k].1));
        assert forall|i: int| 0 <= i < p.units[v].members.len() implies settled(
            t,
            #[trigger] p.units[v].members[i],
        ) || s.running[k].1.contains(p.units[v].members[i]) by {
            assert(settled(s, p.units[v].members[i]) || s.running[k].1.contains(
                p.units[v].members[i],
            ));
        }
    }
    assert(nodes_wf(p, t));
}

/// Blocking a unit keeps the invariant.
pub proof fn block_keeps_wf(p: ProgramV, s: RunV, hole: Set<int>, u: int)
    requires
        wf_holding(p, s, hole),
        hole.contains(u),
    ensures
        wf_holding(p, (RunV { blocked: s.blocked.push(u), ..s }), hole.remove(u)),
{
    let t = RunV { blocked: s.blocked.push(u), ..s };
    let h = hole.remove(u);
    lemma_running_same(s, t);
    assert(!s.blocked.contains(u));
    assert forall|w: int| #[trigger] t.blocked.contains(w) <==> s.blocked.contains(w) || w == u by {
        if s.blocked.contains(w) {
            let i = choose|i: int| 0 <= i < s.blocked.len() && s.blocked[i] == w;
            assert(t.blocked[i] == w);
        }
        assert(t.blocked[s.blocked.len() as int] == u);
        if t.blocked.contains(w) {
            let i = choose|i: int| 0 <= i < t.blocked.len() && t.blocked[i] == w;
            if i < s.blocked.len() {
                assert(s.blocked[i] == w);
            }
        }
    }
    assert(t.blocked.no_duplicates()) by {
        assert forall|i: int, j: int|
            0 <= i < t.blocked.len() && 0 <= j < t.blocked.len() && i != j implies t.blocked[i]
            != t.blocked[j] by {
            if i < s.blocked.len() && j < s.blocked.len() {
                assert(s.blocked[i] != s.blocked[j]);
            } else if i < s.blocked.len() {
                assert(s.blocked.contains(s.blocked[i]));
            } else {
                assert(s.blocked.contains(s.blocked[j]));
            }
        }
    }
    assert(places_wf(p, t, h)) by {
        assert forall|w: int| #![trigger p.deps[w]] 0 <= w < p.units.len() implies (p.deps[w].subset_of(
            t.done,
        ) <==> placed(t, w) || h.contains(w)) by {
            assert(p.deps[w].subset_of(s.done) <==> placed(s, w) || hole.contains(w));
            assert(t.blocked.contains(w) <==> s.blocked.contains(w) || w == u);
        }
    }
    lemma_nodes_same(p, s, t);
}

/// The load of a tool grows by one with each unit of the tool.
pub proof fn lemma_load_push(
    p: ProgramV,
    running: Seq<(int, Seq<Seq<char>>)>,
    e: (int, Seq<Seq<char>>),
    tool: Seq<char>,
)
    ensures
        tool_load(p, running.push(e), tool) == tool_load(p, running, tool) + if p.units[e.0].tool
            == tool {
            1nat
        } else {
            0nat
        },
{
    assert(running.push(e).drop_last() =~= running);
}

/// The load of a tool shrinks by one when a unit of the tool ends.
pub proof fn lemma_load_remove(
    p: ProgramV,
    running: Seq<(int, Seq<Seq<char>>)>,
    k: int,
    tool: Seq<char>,
)
    requires
        0 <= k < running.len(),
    ensures
        tool_load(p, running, tool) == tool_load(p, running.remove(k), tool) + if p.units[running[k].0].tool
            == tool {
            1nat
        } else {
            0nat
        },
    decreases running.len(),
{
    if k == running.len() - 1 {
        assert(running.remove(k) =~= running.drop_last());
    } else {
        let rest = running.drop_last();
        lemma_load_remove(p, rest, k, tool);
        assert(running.remove(k).drop_last() =~= rest.remove(k));
        assert(running.remove(k).last() == running.last());
        assert(rest[k] == running[k]);
    }
}

/// No more units of a tool run than units run.
pub proof fn lemma_load_bound(p: ProgramV, running: Seq<(int, Seq<Seq<char>>)>, tool: Seq<char>)
    ensures
        tool_load(p, running, tool) <= running.len(),
    decreases running.len(),
{
    if running.len() > 0 {
        lemma_load_bound(p, running.drop_last(), tool);
    }
}

/// Dispatching an admitted unit keeps the invariant.
pub proof fn dispatch_keeps_wf(p: ProgramV, s: RunV, hole: Set<int>, u: int, ids: Seq<Seq<char>>)
    requires
        wf_holding(p, s, hole),
        hole.contains(u),
        admits(p, s.running, u),
        flight_wf(p, s, u, ids),
    ensures
        wf_holding(p, (RunV { running: s.running.push((u, ids)), ..s }), hole.remove(u)),
{
    let t = RunV { running: s.running.push((u, ids)), ..s };
    let h = hole.remove(u);
    assert forall|x: Seq<char>| #[trigger] settled(t, x) == settled(s, x) by {}
    assert forall|w: int| #[trigger] in_running(t, w) <==> in_running(s, w) || w == u by {
        if in_running(s, w) {
            let i = choose|i: int| 0 <= i < s.running.len() && (#[trigger] s.running[i]).0 == w;
            assert(t.running[i].0 == w);
        }
        assert(t.running[s.running.len() as int].0 == u);
        if in_running(t, w) {
            let i = choose|i: int| 0 <= i < t.running.len() && (#[trigger] t.running[i]).0 == w;
            if i < s.running.len() {
                assert(s.running[i].0 == w);
            }
        }
    }
    assert forall|i: int, j: int|
        0 <= i < t.running.len() && 0 <= j < t.running.len() && (#[trigger] t.running[i]).0 == (
        #[trigger] t.running[j]).0 implies i == j by {
        if i < s.running.len() && j < s.running.len() {
            assert(s.running[i].0 == s.running[j].0);
        } else if i < s.running.len() {
            assert(s.running[i].0 == u);
            assert(in_running(s, u));
        } else if j < s.running.len() {
            assert(s.running[j].0 == u);
            assert(in_running(s, u));
        }
    }
    assert(places_wf(p, t, h)) by {
        assert forall|w: int| #![trigger p.deps[w]] 0 <= w < p.units.len() implies (p.deps[w].subset_of(
            t.done,
        ) <==> placed(t, w) || h.contains(w)) by {
            assert(p.deps[w].subset_of(s.done) <==> placed(s, w) || hole.contains(w));
            assert(in_running(t, w) <==> in_running(s, w) || w == u);
        }
    }
    assert forall|k: int| 0 <= k < t.running.len() implies flight_wf(
        p,
        t,
        (#[trigger] t.running[k]).0,
        t.running[k].1,
    ) by {
        let v = t.running[k].0;
        let these = t.running[k].1;
        if k < s.running.len() {
            assert(flight_wf(p, s, s.running[k].0, s.running[k].1));
        }
        assert(flight_wf(p, s, v, these));
        assert forall|i: int| 0 <= i < p.units[v].members.len() implies settled(
            t,
            #[trigger] p.units[v].members[i],
        ) || these.contains(p.units[v].members[i]) by {
            assert(settled(s, p.units[v].members[i]) || these.contains(p.units[v].members[i]));
        }
    }
    assert(nodes_wf(p, t));
    assert(admission_wf(p, t)) by {
        assert forall|w: int| 0 <= w < p.units.len() implies within(
            tool_load(p, t.running, (#[trigger] p.units[w]).tool),
            tool_limit(p, p.units[w].tool),
        ) by {
            lemma_load_push(p, s.running, (u, ids), p.units[w].tool);
            assert(within(
                tool_load(p, s.running, p.units[w].tool),
                tool_limit(p, p.units[w].tool),
            ));
        }
        assert forall|i: int, j: int|
            #![trigger t.running[i], t.running[j]]
            0 <= i < j < t.running.len() implies may_overlap(
            p.units[t.running[i].0].lock,
            p.units[t.running[j].0].lock,
        ) by {
            assert(t.running[i] == s.running[i]);
            if j < s.running.len() {
                assert(t.running[j] == s.running[j]);
            } else {
                assert(may_overlap(p.units[s.running[i].0].lock, p.units[u].lock));
            }
        }
    }
}

/// Taking a running unit back keeps the invariant; its open members are those
/// that went out.
pub proof fn landing_keeps_wf(p: ProgramV, s: RunV, k: int)
    requires
        run_wf(p, s),
        0 <= k < s.running.len(),
    ensures
        wf_holding(
            p,
            (RunV { running: s.running.remove(k), ..s }),
            Set::empty().insert(s.running[k].0),
        ),
        flight_wf(
            p,
            (RunV { running: s.running.remove(k), ..s }),
            s.running[k].0,
            s.running[k].1,
        ),
{
    let u = s.running[k].0;
    let t = RunV { running: s.running.remove(k), ..s };
    let h = Set::<int>::empty().insert(u);
    assert forall|x: Seq<char>| #[trigger] settled(t, x) == settled(s, x) by {}
    assert forall|i: int| 0 <= i < t.running.len() implies #[trigger] t.running[i] == s.running[if i < k {
        i
    } else {
        i + 1
    }] by {}
    assert(in_running(s, u));
    assert forall|w: int| #[trigger] in_running(t, w) <==> in_running(s, w) && w != u by {
        if in_running(t, w) {
            let i = choose|i: int| 0 <= i < t.running.len() && (#[trigger] t.running[i]).0 == w;
            let o = if i < k { i } else { i + 1 };
            assert(s.running[o].0 == w);
            if w == u {
                assert(s.running[o].0 == s.running[k].0);
            }
        }
        if in_running(s, w) && w != u {
            let o = choose|o: int| 0 <= o < s.running.len() && (#[trigger] s.running[o]).0 == w;
            let i = if o < k { o } else { o - 1 };
            assert(t.running[i].0 == w);
        }
    }
    assert forall|i: int, j: int|
        0 <= i < t.running.len() && 0 <= j < t.running.len() && (#[trigger] t.running[i]).0 == (
        #[trigger] t.running[j]).0 implies i == j by {
        let a = if i < k { i } else { i + 1 };
        let b = if j < k { j } else { j + 1 };
        assert(s.running[a].0 == s.running[b].0);
    }
    assert(places_wf(p, t, h)) by {
        assert forall|w: int| #![trigger p.deps[w]] 0 <= w < p.units.len() implies (p.deps[w].subset_of(
            t.done,
        ) <==> placed(t, w) || h.contains(w)) by {
            assert(p.deps[w].subset_of(s.done) <==> placed(s, w) || Set::<int>::empty().contains(w));
            assert(in_running(t, w) <==> in_running(s, w) && w != u);
        }
    }
    assert forall|m: int| 0 <= m < t.running.len() implies flight_wf(
        p,
        t,
        (#[trigger] t.running[m]).0,
        t.running[m].1,
    ) by {
        let o = if m < k { m } else { m + 1 };
        let v = s.running[o].0;
        assert(flight_wf(p, s, v, s.running[o].1));
        assert forall|i: int| 0 <= i < p.units[v].members.len() implies settled(
            t,
            #[trigger] p.units[v].members[i],
        ) || s.running[o].1.contains(p.units[v].members[i]) by {
            assert(settled(s, p.units[v].members[i]) || s.running[o].1.contains(
                p.units[v].members[i],
            ));
        }
    }
    assert(flight_wf(p, t, u, s.running[k].1)) by {
        assert(flight_wf(p, s, u, s.running[k].1));
        assert forall|i: int| 0 <= i < p.units[u].members.len() implies settled(
            t,
            #[trigger] p.units[u].members[i],
        ) || s.running[k].1.contains(p.units[u].members[i]) by {
            assert(settled(s, p.units[u].members[i]) || s.running[k].1.contains(
                p.units[u].members[i],
            ));
        }
    }
    assert(nodes_wf(p, t));
    assert(admission_wf(p, t)) by {
        assert forall|w: int| 0 <= w < p.units.len() implies within(
            tool_load(p, t.running, (#[trigger] p.units[w]).tool),
            tool_limit(p, p.units[w].tool),
        ) by {
            lemma_load_remove(p, s.running, k, p.units[w].tool);
            assert(within(
                tool_load(p, s.running, p.units[w].tool),
                tool_limit(p, p.units[w].tool),
            ));
        }
        assert forall|i: int, j: int|
            #![trigger t.running[i], t.running[j]]
            0 <= i < j < t.running.len() implies may_overlap(
            p.units[t.running[i].0].lock,
            p.units[t.running[j].0].lock,
        ) by {
            let a = if i < k { i } else { i + 1 };
            let b = if j < k { j } else { j + 1 };
            assert(may_overlap(p.units[s.running[a].0].lock, p.units[s.running[b].0].lock));
        }
    }
}

/// Making every blocked unit ready again keeps the invariant.
pub proof fn requeue_keeps_wf(p: ProgramV, s: RunV)
    requires
        run_wf(p, s),
    ensures
        run_wf(
            p,
            (RunV { ready: s.ready.union(s.blocked.to_set()), blocked: Seq::empty(), ..s }),
        ),
{
    let t = RunV { ready: s.ready.union(s.blocked.to_set()), blocked: Seq::empty(), ..s };
    lemma_running_same(s, t);
    assert(places_wf(p, t, Set::empty())) by {
        assert forall|w: int| #[trigger] t.ready.contains(w) <==> s.ready.contains(w)
            || s.blocked.contains(w) by {}
        assert forall|w: int| #![trigger p.deps[w]] 0 <= w < p.units.len() implies (p.deps[w].subset_of(
            t.done,
        ) <==> placed(t, w) || Set::<int>::empty().contains(w)) by {
            assert(p.deps[w].subset_of(s.done) <==> placed(s, w) || Set::<int>::empty().contains(w));
        }
    }
    lemma_nodes_same(p, s, t);
}

/// Taking every blocked unit up keeps the invariant.
pub proof fn unblock_all_keeps_wf(p: ProgramV, s: RunV)
    requires
        run_wf(p, s),
    ensures
        wf_holding(p, (RunV { blocked: Seq::empty(), ..s }), s.blocked.to_set()),
{
    let t = RunV { blocked: Seq::empty(), ..s };
    let h = s.blocked.to_set();
    lemma_running_same(s, t);
    assert forall|w: int| #[trigger] h.contains(w) <==> s.blocked.contains(w) by {}
    assert(places_wf(p, t, h)) by {
        assert forall|w: int| #![trigger p.deps[w]] 0 <= w < p.units.len() implies (p.deps[w].subset_of(
            t.done,
        ) <==> placed(t, w) || h.contains(w)) by {
            assert(p.deps[w].subset_of(s.done) <==> placed(s, w) || Set::<int>::empty().contains(w));
        }
    }
    lemma_nodes_same(p, s, t);
}

// ---------------------------------------------------------------------------
// Recording results
// ---------------------------------------------------------------------------

/// The places of units are the same in both states.
pub open spec fn units_unmoved(s: RunV, t: RunV) -> bool {
    &&& t.ready == s.ready
    &&& t.blocked == s.blocked
    &&& t.running == s.running
    &&& t.done == s.done
}

/// Recording results keeps the invariant: exactly their nodes are over then.
pub proof fn results_keep_wf(
    p: ProgramV,
    s: RunV,
    hole: Set<int>,
    u: int,
    ids: Seq<Seq<char>>,
    results: Seq<NodeResultV>,
    k: int,
)
    requires
        wf_holding(p, s, hole),
        hole.contains(u),
        flight_wf(p, s, u, ids),
        covers(results, ids),
        0 <= k <= results.len(),
    ensures
        wf_holding(p, after_results(p, s, results, k), hole),
        units_unmoved(s, after_results(p, s, results, k)),
        forall|x: Seq<char>| #[trigger]
            settled(after_results(p, s, results, k), x) <==> settled(s, x) || result_nodes(
                results,
            ).take(k).contains(x),
        k < results.len() ==> p.units[u].members.contains(results[k].node) && !settled(
            after_results(p, s, results, k),
            results[k].node,
        ),
    decreases k,
{
    let names = result_nodes(results);
    if k > 0 {
        results_keep_wf(p, s, hole, u, ids, results, k - 1);
        let before = after_results(p, s, results, k - 1);
        let id = results[k - 1].node;
        match results[k - 1].result {
            Ok(output) => {
                success_keeps_wf(p, before, hole, u, id, output);
            },
            Err(e) => {
                failure_keeps_wf(p, before, hole, u, id, e);
            },
        }
        let after = after_results(p, s, results, k);
        let front = names.take(k - 1);
        let more = names.take(k);
        assert(more =~= front.push(id));
        assert forall|x: Seq<char>| #[trigger] settled(after, x) <==> settled(s, x) || more.contains(x) by {
            assert(settled(after, x) <==> settled(before, x) || x == id);
            if front.contains(x) {
                let j = choose|j: int| 0 <= j < front.len() && front[j] == x;
                assert(more[j] == x);
            }
            assert(more[k - 1] == id);
            if more.contains(x) {
                let j = choose|j: int| 0 <= j < more.len() && more[j] == x;
                if j < k - 1 {
                    assert(front[j] == x);
                }
            }
        }
    } else {
        assert(names.take(0).len() == 0);
    }
    if k < results.len() {
        let id = results[k].node;
        let more = names.take(k);
        assert(ids.contains(id));
        let i = choose|i: int| 0 <= i < ids.len() && ids[i] == id;
        assert(p.units[u].members.contains(ids[i]) && !settled(s, ids[i]));
        assert(!more.contains(id)) by {
            if more.contains(id) {
                let j = choose|j: int| 0 <= j < more.len() && more[j] == id;
                assert(names[j] == names[k]);
            }
        }
    }
}

/// What a unit reports settles every one of its members.
pub proof fn outcome_settles_unit(
    p: ProgramV,
    s: RunV,
    hole: Set<int>,
    u: int,
    ids: Seq<Seq<char>>,
    o: OutcomeV,
)
    requires
        wf_holding(p, s, hole),
        hole.contains(u),
        flight_wf(p, s, u, ids),
        covers(o.results, ids),
    ensures
        wf_holding(p, after_outcome(p, s, o), hole),
        units_unmoved(s, after_outcome(p, s, o)),
        forall|i: int|
            0 <= i < p.units[u].members.len() ==> settled(
                after_outcome(p, s, o),
                #[trigger] p.units[u].members[i],
            ),
{
    let mid = outcome_noted(s, o);
    lemma_same_state(p, s, mid, hole);
    assert(flight_wf(p, mid, u, ids)) by {
        assert forall|x: Seq<char>| #[trigger] settled(mid, x) == settled(s, x) by {}
        assert forall|i: int| 0 <= i < p.units[u].members.len() implies settled(
            mid,
            #[trigger] p.units[u].members[i],
        ) || ids.contains(p.units[u].members[i]) by {
            assert(settled(s, p.units[u].members[i]) || ids.contains(p.units[u].members[i]));
        }
    }
    let n = o.results.len() as int;
    results_keep_wf(p, mid, hole, u, ids, o.results, n);
    let after = after_outcome(p, s, o);
    let names = result_nodes(o.results);
    assert(names.take(n) =~= names);
    assert forall|i: int| 0 <= i < p.units[u].members.len() implies settled(
        after,
        #[trigger] p.units[u].members[i],
    ) by {
        let id = p.units[u].members[i];
        assert(settled(mid, id) || ids.contains(id));
        if ids.contains(id) {
            let j = choose|j: int| 0 <= j < ids.len() && ids[j] == id;
            assert(names.contains(ids[j]));
        }
    }
}

/// The state after the events and counts of a report were recorded.
pub open spec fn outcome_noted(s: RunV, o: OutcomeV) -> RunV {
    RunV {
        trace: s.trace + o.events,
        metrics: RunMetrics {
            cache_hits: crate::runtime::dispatch::capped_sum(s.metrics.cache_hits, o.cache_hits),
            retries: crate::runtime::dispatch::capped_sum(s.metrics.retries, o.retries),
            batch_dispatches: crate::runtime::dispatch::capped_sum(
                s.metrics.batch_dispatches,
                o.batch_dispatches,
            ),
            ..s.metrics
        },
        ..s
    }
}

} // verus!
