//! Calls: fan-out items, batch replies, and the cache.

use vstd::prelude::*;

use crate::adapters::api::{BatchOutputV, ToolErrorV};
use crate::json::Json;
use crate::runtime::cache::{CacheKeyV, CacheV};
use crate::runtime::dispatch::{PreparedV, UnitSpecV};
use crate::runtime::error::RuntimeErrorV;
use crate::runtime::fanout::FanOutV;

verus! {

use crate::canonical::canonical;
use crate::runtime::cache::{after_get, after_insert, after_write, found, is_oldest, oldest};
use crate::runtime::calls::{batch_reply, by_node, lookup_key, store_of, unclaimed};
use crate::runtime::fanout::{
    answer, answer_for, answered, collected, hits, item_failure, item_inputs, missing, next_chunk,
    with_answers,
};
use crate::runtime::resolve::filled;
use crate::scan::parsed_number;
use crate::text::decimal;

// ---------------------------------------------------------------------------
// Fan-out
// ---------------------------------------------------------------------------

/// There is one input per item, in order: the template filled in with that
/// item.
pub proof fn items_give_one_input_each(template: Json, items: Seq<Json>, k: int)
    requires
        0 <= k <= items.len(),
        item_inputs(template, items, k) is Ok,
    ensures
        item_inputs(template, items, k)->Ok_0.len() == k,
        forall|i: int|
            0 <= i < k ==> filled(template, #[trigger] items[i]) == Ok::<Json, RuntimeErrorV>(
                item_inputs(template, items, k)->Ok_0[i],
            ),
    decreases k,
{
    if k > 0 {
        items_give_one_input_each(template, items, k - 1);
    }
}

/// An item that the template cannot be filled in with is reported.
pub proof fn bad_items_are_reported(template: Json, items: Seq<Json>, k: int, i: int)
    requires
        0 <= i < k <= items.len(),
        filled(template, items[i]) is Err,
    ensures
        item_inputs(template, items, k) is Err,
    decreases k,
{
    if i < k - 1 {
        bad_items_are_reported(template, items, k - 1, i);
    }
}

/// Exactly the items without a stored output are called, in order; the others
/// are hits.
pub proof fn only_missing_items_are_called(cached: Seq<Option<Json>>, k: int, i: int)
    requires
        0 <= k <= cached.len(),
        0 <= i < k,
    ensures
        missing(cached, k).contains(i) <==> cached[i] is None,
        forall|a: int, b: int|
            0 <= a < b < missing(cached, k).len() ==> missing(cached, k)[a] < missing(cached, k)[b],
        hits(cached, k) + missing(cached, k).len() == k,
    decreases k,
{
    lemma_missing(cached, k);
    lemma_missing_has(cached, k, i);
}

proof fn lemma_missing(cached: Seq<Option<Json>>, k: int)
    requires
        0 <= k <= cached.len(),
    ensures
        forall|a: int|
            0 <= a < missing(cached, k).len() ==> 0 <= (#[trigger] missing(cached, k)[a]) < k
                && cached[missing(cached, k)[a]] is None,
        forall|a: int, b: int|
            0 <= a < b < missing(cached, k).len() ==> missing(cached, k)[a] < missing(cached, k)[b],
        hits(cached, k) + missing(cached, k).len() == k,
    decreases k,
{
    if k > 0 {
        lemma_missing(cached, k - 1);
    }
}

proof fn lemma_missing_has(cached: Seq<Option<Json>>, k: int, i: int)
    requires
        0 <= i < k <= cached.len(),
    ensures
        missing(cached, k).contains(i) <==> cached[i] is None,
    decreases k,
{
    lemma_missing(cached, k);
    let m = missing(cached, k);
    if cached[i] is None {
        if i < k - 1 {
            lemma_missing_has(cached, k - 1, i);
            let before = missing(cached, k - 1);
            let a = choose|a: int| 0 <= a < before.len() && before[a] == i;
            assert(m[a] == i);
        } else {
            assert(m.last() == i);
        }
    } else if m.contains(i) {
        let a = choose|a: int| 0 <= a < m.len() && m[a] == i;
        assert(cached[m[a]] is None);
    }
}

/// A batch call takes the next items in order: as many as the batch size
/// allows and as are left.
pub proof fn chunks_take_the_next_items(f: FanOutV, batch_size: usize)
    requires
        0 <= f.next < f.pending.len(),
        batch_size >= 1,
    ensures
        ({
            let chunk = next_chunk(f, batch_size);
            &&& 1 <= chunk.len() <= batch_size
            &&& chunk.len() == batch_size || f.next + chunk.len() == f.pending.len()
            &&& forall|i: int| 0 <= i < chunk.len() ==> #[trigger] chunk[i] == f.pending[f.next + i]
        }),
{
}

/// The entry names the item.
pub open spec fn names_item(o: BatchOutputV, index: int) -> bool {
    parsed_number(o.node, usize::MAX as nat) == Some(index as nat)
}

proof fn lemma_answer(outputs: Seq<BatchOutputV>, index: int, k: int, j: int)
    requires
        0 <= j < k <= outputs.len(),
        names_item(outputs[j], index),
        forall|i: int| j < i < k ==> !names_item(#[trigger] outputs[i], index),
    ensures
        answer_for(outputs, index, k) == Some(outputs[j].output),
    decreases k,
{
    if j < k - 1 {
        assert(!names_item(outputs[k - 1], index));
        lemma_answer(outputs, index, k - 1, j);
    }
}

proof fn lemma_no_answer(outputs: Seq<BatchOutputV>, index: int, k: int)
    requires
        0 <= k <= outputs.len(),
        forall|i: int| 0 <= i < k ==> !names_item(#[trigger] outputs[i], index),
    ensures
        answer_for(outputs, index, k) is None,
    decreases k,
{
    if k > 0 {
        assert(!names_item(outputs[k - 1], index));
        lemma_no_answer(outputs, index, k - 1);
    }
}

/// Replies are matched by the item that they name, wherever they stand in the
/// reply; the last one that names an item counts, and an item that none names
/// has no answer.
pub proof fn replies_are_matched_by_item(outputs: Seq<BatchOutputV>, index: int, j: int)
    ensures
        0 <= j < outputs.len() && names_item(outputs[j], index) && (forall|i: int|
            j < i < outputs.len() ==> !names_item(#[trigger] outputs[i], index)) ==> answer(
            outputs,
            index,
        ) == Some(outputs[j].output),
        (forall|i: int| 0 <= i < outputs.len() ==> !names_item(#[trigger] outputs[i], index))
            ==> answer(outputs, index) is None,
{
    if 0 <= j < outputs.len() && names_item(outputs[j], index) && (forall|i: int|
        j < i < outputs.len() ==> !names_item(#[trigger] outputs[i], index)) {
        lemma_answer(outputs, index, outputs.len() as int, j);
    }
    if forall|i: int| 0 <= i < outputs.len() ==> !names_item(#[trigger] outputs[i], index) {
        lemma_no_answer(outputs, index, outputs.len() as int);
    }
}

/// The output of a fan-out lists the outputs of its items in their order.
pub proof fn outputs_are_listed_in_order(results: Seq<Option<Json>>, outputs: Seq<Json>)
    requires
        results.len() == outputs.len(),
        forall|i: int| 0 <= i < results.len() ==> #[trigger] results[i] == Some(outputs[i]),
    ensures
        collected(results) == Json::List(outputs),
{
    assert(collected(results)->List_0 =~= outputs);
}

/// The failure of an item names the item and keeps the code of the error, or
/// takes `item_failed` where it has none.
pub proof fn item_failures_name_the_item(index: int, e: ToolErrorV)
    ensures
        item_failure(index, e).message == "item "@ + decimal(index as nat) + ": "@ + e.message,
        e.code is Some ==> item_failure(index, e).code == e.code,
        e.code is None ==> item_failure(index, e).code == Some("item_failed"@),
{
}

/// An answer to a chunk is taken up to the first item that has none.
pub proof fn answers_are_taken_up_to_the_first_gap(
    outputs: Seq<BatchOutputV>,
    chunk: Seq<int>,
    from: int,
)
    requires
        0 <= from <= chunk.len(),
    ensures
        from <= answered(outputs, chunk, from) <= chunk.len(),
        forall|i: int|
            from <= i < answered(outputs, chunk, from) ==> answer(outputs, #[trigger] chunk[i]) is Some,
        answered(outputs, chunk, from) < chunk.len() ==> answer(
            outputs,
            chunk[answered(outputs, chunk, from)],
        ) is None,
    decreases chunk.len() - from,
{
    if from < chunk.len() && answer(outputs, chunk[from]) is Some {
        answers_are_taken_up_to_the_first_gap(outputs, chunk, from + 1);
    }
}

/// Every answered item of a chunk gets its own answer, and the other items
/// keep what they have.
pub proof fn items_get_their_own_answer(
    results: Seq<Option<Json>>,
    outputs: Seq<BatchOutputV>,
    chunk: Seq<int>,
    n: int,
    x: int,
)
    requires
        0 <= n <= chunk.len(),
        0 <= x < results.len(),
        forall|i: int| 0 <= i < chunk.len() ==> 0 <= #[trigger] chunk[i] < results.len(),
        forall|i: int, j: int| 0 <= i < j < chunk.len() ==> chunk[i] != chunk[j],
    ensures
        with_answers(results, outputs, chunk, n).len() == results.len(),
        (exists|i: int| 0 <= i < n && #[trigger] chunk[i] == x) ==> with_answers(
            results,
            outputs,
            chunk,
            n,
        )[x] == answer(outputs, x),
        (forall|i: int| 0 <= i < n ==> #[trigger] chunk[i] != x) ==> with_answers(
            results,
            outputs,
            chunk,
            n,
        )[x] == results[x],
    decreases n,
{
    if n > 0 {
        items_get_their_own_answer(results, outputs, chunk, n - 1, x);
        if chunk[n - 1] == x {
            assert forall|i: int| 0 <= i < n - 1 implies #[trigger] chunk[i] != x by {
            }
        }
    }
}

// ---------------------------------------------------------------------------
// Batches
// ---------------------------------------------------------------------------

pub(crate) proof fn lemma_by_node(outputs: Seq<BatchOutputV>, k: int, node: Seq<char>, j: int)
    requires
        0 <= j < k <= outputs.len(),
        outputs[j].node == node,
        forall|i: int| j < i < k ==> (#[trigger] outputs[i]).node != node,
    ensures
        by_node(outputs, k).dom().contains(node),
        by_node(outputs, k)[node] == outputs[j].output,
    decreases k,
{
    if j < k - 1 {
        assert(outputs[k - 1].node != node);
        lemma_by_node(outputs, k - 1, node, j);
    }
}

pub(crate) proof fn lemma_not_by_node(outputs: Seq<BatchOutputV>, k: int, node: Seq<char>)
    requires
        0 <= k <= outputs.len(),
        forall|i: int| 0 <= i < k ==> (#[trigger] outputs[i]).node != node,
    ensures
        !by_node(outputs, k).dom().contains(node),
    decreases k,
{
    if k > 0 {
        assert(outputs[k - 1].node != node);
        lemma_not_by_node(outputs, k - 1, node);
    }
}

proof fn lemma_unclaimed(
    answers: Map<Seq<char>, Json>,
    members: Seq<PreparedV>,
    pending: Seq<int>,
    k: int,
    node: Seq<char>,
)
    requires
        0 <= k <= pending.len(),
        forall|i: int| 0 <= i < k ==> members[#[trigger] pending[i]].node != node,
    ensures
        unclaimed(answers, members, pending, k).dom().contains(node) == answers.dom().contains(node),
        answers.dom().contains(node) ==> unclaimed(answers, members, pending, k)[node]
            == answers[node],
    decreases k,
{
    if k > 0 {
        lemma_unclaimed(answers, members, pending, k - 1, node);
        assert(members[pending[k - 1]].node != node);
    }
}

/// Each member of a batch gets the output that the reply names it for,
/// wherever that stands in the reply. A member that the reply leaves out fails
/// with `batch_missing_output`, and an error of the call is the error of each.
pub proof fn members_get_their_own_output(
    reply: Result<Seq<BatchOutputV>, ToolErrorV>,
    members: Seq<PreparedV>,
    pending: Seq<int>,
    k: int,
    j: int,
)
    requires
        0 <= k < pending.len(),
        forall|i: int|
            0 <= i < pending.len() && i != k ==> members[#[trigger] pending[i]].node
                != members[pending[k]].node,
    ensures
        reply matches Err(e) ==> batch_reply(reply, members, pending, k) == Err::<
            Json,
            ToolErrorV,
        >(e),
        reply matches Ok(outputs) ==> {
            let node = members[pending[k]].node;
            &&& 0 <= j < outputs.len() && outputs[j].node == node && (forall|i: int|
                j < i < outputs.len() ==> (#[trigger] outputs[i]).node != node) ==> batch_reply(
                reply,
                members,
                pending,
                k,
            ) == Ok::<Json, ToolErrorV>(outputs[j].output)
            &&& (forall|i: int| 0 <= i < outputs.len() ==> (#[trigger] outputs[i]).node != node)
                ==> batch_reply(reply, members, pending, k) is Err && batch_reply(
                reply,
                members,
                pending,
                k,
            )->Err_0.code == Some("batch_missing_output"@)
        },
{
    if reply is Ok {
        let outputs = reply->Ok_0;
        let node = members[pending[k]].node;
        let n = outputs.len() as int;
        lemma_unclaimed(by_node(outputs, n), members, pending, k, node);
        if 0 <= j < n && outputs[j].node == node && (forall|i: int|
            j < i < n ==> (#[trigger] outputs[i]).node != node) {
            lemma_by_node(outputs, n, node, j);
        }
        if forall|i: int| 0 <= i < n ==> (#[trigger] outputs[i]).node != node {
            lemma_not_by_node(outputs, n, node);
        }
    }
}

// ---------------------------------------------------------------------------
// Cache
// ---------------------------------------------------------------------------

/// An output is stored only where the cache is used and the tool is pure or
/// cacheable, under its adapter, tool, version and canonical input, together
/// with what the call read.
pub proof fn only_cacheable_outputs_are_stored(
    m: PreparedV,
    spec: UnitSpecV,
    use_cache: bool,
    input: Json,
    output: Json,
)
    ensures
        store_of(m, spec, use_cache, input, output) is Some <==> use_cache && m.cacheable,
        store_of(m, spec, use_cache, input, output) matches Some(s) ==> {
            &&& s.output == output
            &&& s.reads == m.reads
            &&& s.key.adapter == spec.adapter
            &&& s.key.tool == spec.tool
            &&& s.key.version == m.version
            &&& s.key.input == canonical(input)
            &&& lookup_key(m, spec, use_cache, input) == Some(s.key)
        },
{
}

/// An entry is found up to the end of its time to live and not after it; one
/// without a limit is found always.
pub proof fn entries_live_for_their_time(
    c: CacheV,
    k: CacheKeyV,
    output: Json,
    reads: Set<Seq<char>>,
    stored: u64,
    now: u64,
)
    ensures
        c.ttl is None ==> found(after_insert(c, k, output, reads, stored), k, now) == Some(output),
        c.ttl matches Some(t) ==> {
            &&& now <= stored + t ==> found(after_insert(c, k, output, reads, stored), k, now)
                == Some(output)
            &&& now > stored + t ==> found(after_insert(c, k, output, reads, stored), k, now) is None
        },
{
}

/// Storing an output costs no other entry while there is room; in a full cache
/// it costs exactly the entry that was used least recently.
pub proof fn the_least_recently_used_entry_makes_room(
    c: CacheV,
    k: CacheKeyV,
    other: CacheKeyV,
    output: Json,
    reads: Set<Seq<char>>,
    now: u64,
)
    requires
        other != k,
        c.entries.dom().contains(other),
    ensures
        c.entries.remove(k).dom().len() < c.max_entries ==> after_insert(
            c,
            k,
            output,
            reads,
            now,
        ).entries.dom().contains(other) && after_insert(c, k, output, reads, now).entries[other]
            == c.entries[other],
        c.entries.remove(k).dom().len() >= c.max_entries && (exists|x: CacheKeyV|
            is_oldest(c.entries.remove(k), x)) && !after_insert(
            c,
            k,
            output,
            reads,
            now,
        ).entries.dom().contains(other) ==> forall|x: CacheKeyV|
            x != k && #[trigger] c.entries.dom().contains(x) ==> c.entries[other].last_used
                <= c.entries[x].last_used,
{
    let rest = c.entries.remove(k);
    if rest.dom().len() >= c.max_entries && (exists|x: CacheKeyV| is_oldest(rest, x)) {
        let victim = oldest(rest);
        assert(is_oldest(rest, victim));
        if !after_insert(c, k, output, reads, now).entries.dom().contains(other) {
            assert(other == victim);
            assert forall|x: CacheKeyV| x != k && #[trigger] c.entries.dom().contains(x) implies c.entries[other].last_used
                <= c.entries[x].last_used by {
                assert(rest.dom().contains(x));
            }
        }
    }
}

/// A lookup that hits makes its entry the most recently used one and changes
/// nothing that is found; one that meets an expired entry drops it.
pub proof fn lookups_refresh_entries(c: CacheV, k: CacheKeyV, other: CacheKeyV, now: u64)
    requires
        c.clock < u64::MAX,
        forall|x: CacheKeyV| #[trigger]
            c.entries.dom().contains(x) ==> c.entries[x].last_used <= c.clock,
    ensures
        found(after_get(c, k, now), other, now) == found(c, other, now),
        found(c, k, now) is Some && other != k && c.entries.dom().contains(other) ==> after_get(
            c,
            k,
            now,
        ).entries[other].last_used < after_get(c, k, now).entries[k].last_used,
        c.entries.dom().contains(k) && found(c, k, now) is None ==> !after_get(
            c,
            k,
            now,
        ).entries.dom().contains(k),
{
}

/// A write drops exactly the entries that read something that was written.
pub proof fn writes_drop_what_read_them(c: CacheV, w: Set<Seq<char>>, k: CacheKeyV, r: Seq<char>)
    requires
        c.entries.dom().contains(k),
    ensures
        c.entries[k].reads.contains(r) && w.contains(r) ==> !after_write(
            c,
            w,
        ).entries.dom().contains(k),
        (forall|x: Seq<char>| #[trigger] w.contains(x) ==> !c.entries[k].reads.contains(x))
            ==> after_write(c, w).entries.dom().contains(k) && after_write(c, w).entries[k]
            == c.entries[k],
{
}

} // verus!
