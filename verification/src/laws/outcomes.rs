//! Outcomes: what is noted of calls that were answered, retried or lost.

use vstd::prelude::*;

use crate::adapters::api::{BatchOutputV, ToolErrorV};
use crate::json::Json;
use crate::runtime::dispatch::{NodeResultV, OutcomeV, PreparedV, UnitSpecV};
use crate::runtime::model::ProgramV;
use crate::runtime::result::TraceStatus;

verus! {

use crate::runtime::calls::{
    batch_started, looked_up, lost, store_of, with_hit, with_reply, with_retries,
};
use crate::runtime::fanout::{answer, chunk_stores};
use crate::runtime::model::written;

/// A call that the cache answers is counted as a hit, traced as one, and ends
/// its node with the cached output.
pub proof fn hits_end_their_node(o: OutcomeV, node: Seq<char>, tool: Seq<char>, output: Json, now: u64)
    requires
        o.cache_hits < usize::MAX,
    ensures
        with_hit(o, node, tool, output, now).cache_hits == o.cache_hits + 1,
        with_hit(o, node, tool, output, now).results == o.results.push(
            NodeResultV { node, result: Ok(output) },
        ),
        with_hit(o, node, tool, output, now).events.len() == o.events.len() + 1,
        with_hit(o, node, tool, output, now).events.last().status == TraceStatus::CacheHit,
        with_hit(o, node, tool, output, now).events.last().node == node,
        with_hit(o, node, tool, output, now).retries == o.retries,
{
}

/// A reply ends its node: with the output, traced as finished, or with the
/// error, traced as failed.
pub proof fn replies_end_their_node(
    o: OutcomeV,
    node: Seq<char>,
    tool: Seq<char>,
    reply: Result<Json, ToolErrorV>,
    duration: u64,
    batch_id: Option<u64>,
    now: u64,
)
    ensures
        ({
            let r = with_reply(o, node, tool, reply, duration, batch_id, now);
            &&& r.results == o.results.push(NodeResultV { node, result: reply })
            &&& r.events.len() == o.events.len() + 1
            &&& r.events.drop_last() == o.events
            &&& r.events.last().node == node
            &&& r.events.last().tool == tool
            &&& r.events.last().duration_ms == Some(duration)
            &&& r.events.last().batch_id == batch_id
            &&& reply is Ok ==> r.events.last().status == TraceStatus::Finished
                && r.events.last().error is None
            &&& reply matches Err(e) ==> r.events.last().status == TraceStatus::Failed
                && r.events.last().error == Some(e.message)
            &&& r.cache_hits == o.cache_hits
            &&& r.retries == o.retries
        }),
{
    let r = with_reply(o, node, tool, reply, duration, batch_id, now);
    assert(r.events.drop_last() =~= o.events);
}

/// Every attempt that was retried is counted and traced, numbered from one
/// on, with the error that it failed with.
pub proof fn retries_are_numbered(
    o: OutcomeV,
    node: Seq<char>,
    tool: Seq<char>,
    retries: Seq<ToolErrorV>,
    now: u64,
    i: int,
)
    requires
        0 <= i < retries.len() < 255,
        o.retries + retries.len() <= usize::MAX,
    ensures
        ({
            let r = with_retries(o, node, tool, retries, now);
            let e = r.events[o.events.len() + i];
            &&& r.retries == o.retries + retries.len()
            &&& r.events.len() == o.events.len() + retries.len()
            &&& e.status == TraceStatus::Retried
            &&& e.node == node
            &&& e.error == Some(retries[i].message)
            &&& e.attempt matches Some(n) && n == i + 1
            &&& r.results == o.results
        }),
{
}

/// A batch sends out exactly the members that the cache does not answer, in
/// order; each of the others ends with its cached output.
pub proof fn batches_send_what_is_not_cached(
    o: OutcomeV,
    tool: Seq<char>,
    members: Seq<PreparedV>,
    cached: Seq<Option<Json>>,
    now: u64,
    k: int,
)
    requires
        0 <= k <= members.len(),
        members.len() == cached.len(),
    ensures
        forall|i: int|
            looked_up(o, tool, members, cached, now, k).1.contains(i) <==> 0 <= i < k
                && (#[trigger] cached[i]) is None,
        forall|x: int, y: int|
            0 <= x < y < looked_up(o, tool, members, cached, now, k).1.len() ==> looked_up(
                o,
                tool,
                members,
                cached,
                now,
                k,
            ).1[x] < looked_up(o, tool, members, cached, now, k).1[y],
        forall|i: int|
            0 <= i < k && (#[trigger] cached[i]) is Some ==> looked_up(
                o,
                tool,
                members,
                cached,
                now,
                k,
            ).0.results.contains(NodeResultV { node: members[i].node, result: Ok(cached[i]->0) }),
        looked_up(o, tool, members, cached, now, k).0.results.len() + looked_up(
            o,
            tool,
            members,
            cached,
            now,
            k,
        ).1.len() == o.results.len() + k,
    decreases k,
{
    if k > 0 {
        batches_send_what_is_not_cached(o, tool, members, cached, now, k - 1);
        let (before, waiting) = looked_up(o, tool, members, cached, now, k - 1);
        let (after, pending) = looked_up(o, tool, members, cached, now, k);
        assert forall|i: int| pending.contains(i) <==> 0 <= i < k && (#[trigger] cached[i]) is None by {
            if cached[k - 1] is None {
                assert(pending[waiting.len() as int] == k - 1);
                if waiting.contains(i) {
                    let x = choose|x: int| 0 <= x < waiting.len() && waiting[x] == i;
                    assert(pending[x] == i);
                }
                if pending.contains(i) && i != k - 1 {
                    let x = choose|x: int| 0 <= x < pending.len() && pending[x] == i;
                    assert(waiting[x] == i);
                }
            }
        }
        assert forall|x: int, y: int| 0 <= x < y < pending.len() implies pending[x] < pending[y] by {
            if cached[k - 1] is None {
                assert(pending[x] == waiting[x]);
                assert(waiting.contains(waiting[x]));
                assert(cached[waiting[x]] is None);
                if y < waiting.len() {
                    assert(pending[y] == waiting[y]);
                }
            }
        }
        assert forall|i: int| 0 <= i < k && (#[trigger] cached[i]) is Some implies after.results.contains(
            NodeResultV { node: members[i].node, result: Ok(cached[i]->0) },
        ) by {
            let r = NodeResultV { node: members[i].node, result: Ok(cached[i]->0) };
            if i < k - 1 {
                let x = choose|x: int| 0 <= x < before.results.len() && before.results[x] == r;
                assert(after.results[x] == r);
            } else {
                assert(after.results[before.results.len() as int] == r);
            }
        }
    }
}

/// Every member that goes out is traced as started, under the batch.
pub proof fn batches_start_their_members(
    tool: Seq<char>,
    members: Seq<PreparedV>,
    pending: Seq<int>,
    batch_id: u64,
    now: u64,
    i: int,
)
    requires
        0 <= i < pending.len(),
    ensures
        batch_started(tool, members, pending, batch_id, now).len() == pending.len(),
        batch_started(tool, members, pending, batch_id, now)[i].node == members[pending[i]].node,
        batch_started(tool, members, pending, batch_id, now)[i].status == TraceStatus::Started,
        batch_started(tool, members, pending, batch_id, now)[i].batch_id == Some(batch_id),
{
}

/// When a dispatch is lost, each of its nodes fails with the same error.
pub proof fn lost_dispatches_fail_every_node(
    o: OutcomeV,
    tool: Seq<char>,
    nodes: Seq<Seq<char>>,
    error: ToolErrorV,
    now: u64,
    k: int,
)
    requires
        0 <= k <= nodes.len(),
    ensures
        lost(o, tool, nodes, error, now, k).results.len() == o.results.len() + k,
        forall|i: int|
            0 <= i < o.results.len() ==> lost(o, tool, nodes, error, now, k).results[i]
                == o.results[i],
        forall|i: int|
            0 <= i < k ==> lost(o, tool, nodes, error, now, k).results[o.results.len() + i] == (
            NodeResultV { node: #[trigger] nodes[i], result: Err(error) }),
    decreases k,
{
    if k > 0 {
        lost_dispatches_fail_every_node(o, tool, nodes, error, now, k - 1);
        assert forall|i: int| 0 <= i < k implies lost(o, tool, nodes, error, now, k).results[
        o.results.len() + i] == (NodeResultV { node: #[trigger] nodes[i], result: Err(error) }) by {
            if i < k - 1 {
                assert(lost(o, tool, nodes, error, now, k).results[o.results.len() + i] == lost(
                    o,
                    tool,
                    nodes,
                    error,
                    now,
                    k - 1,
                ).results[o.results.len() + i]);
            }
        }
    }
}

/// A resource counts as written exactly when a node that succeeded writes it.
pub proof fn only_successes_write(p: ProgramV, results: Seq<NodeResultV>, k: int, r: Seq<char>)
    requires
        0 <= k <= results.len(),
    ensures
        written(p, results, k).contains(r) <==> exists|i: int|
            0 <= i < k && (#[trigger] results[i]).result is Ok && p.effects.dom().contains(
                results[i].node,
            ) && p.effects[results[i].node].writes.contains(r),
    decreases k,
{
    if k > 0 {
        only_successes_write(p, results, k - 1, r);
        if results[k - 1].result is Ok && p.effects.dom().contains(results[k - 1].node)
            && p.effects[results[k - 1].node].writes.contains(r) {
            assert(written(p, results, k).contains(r));
        }
    }
}

/// The answers to the items of a chunk are stored, each under its own input.
pub proof fn answers_are_stored_by_item(
    m: PreparedV,
    spec: UnitSpecV,
    use_cache: bool,
    inputs: Seq<Json>,
    outputs: Seq<BatchOutputV>,
    chunk: Seq<int>,
    n: int,
    i: int,
)
    requires
        0 <= i < n <= chunk.len(),
        answer(outputs, chunk[i]) is Some,
        store_of(m, spec, use_cache, inputs[chunk[i]], answer(outputs, chunk[i])->0) is Some,
    ensures
        chunk_stores(m, spec, use_cache, inputs, outputs, chunk, n).contains(
            store_of(m, spec, use_cache, inputs[chunk[i]], answer(outputs, chunk[i])->0)->0,
        ),
    decreases n,
{
    let s = store_of(m, spec, use_cache, inputs[chunk[i]], answer(outputs, chunk[i])->0)->0;
    let before = chunk_stores(m, spec, use_cache, inputs, outputs, chunk, n - 1);
    let all = chunk_stores(m, spec, use_cache, inputs, outputs, chunk, n);
    if i < n - 1 {
        answers_are_stored_by_item(m, spec, use_cache, inputs, outputs, chunk, n - 1, i);
        let x = choose|x: int| 0 <= x < before.len() && before[x] == s;
        assert(all[x] == s);
    } else {
        assert(all[before.len() as int] == s);
    }
}

} // verus!
