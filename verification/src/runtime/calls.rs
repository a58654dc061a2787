//! Calls of one dispatched unit: what is asked of the cache and of the tool,
//! and what is recorded of the replies. The host looks up keys, makes the
//! calls, and stores what it is told to store.

use vstd::prelude::*;

use crate::adapters::api::{BatchInput, BatchInputV, BatchOutput, BatchOutputV, ToolErrorV, ToolExecutionError};
use crate::json::{Json, Value};
use crate::ordered::{StrMap, StrSet};
use crate::runtime::cache::{CacheKey, CacheKeyV};
use crate::runtime::dispatch::{
    DispatchOutcome, NodeResult, NodeResultV, OutcomeV, PreparedMember, PreparedV, UnitSpec,
    UnitSpecV,
};
use crate::runtime::result::{EventV, TraceEvent, TraceStatus};
use crate::text::wrapped;

verus! {

use crate::adapters::api::coded;
use crate::ordered::{map_view, map_view_insert, opt_view, views};
use crate::runtime::dispatch::{cache_key_of, capped_sum, covers, result_nodes};
use crate::runtime::result::event;
use crate::text::texts_view;

broadcast use crate::json::group_json_views;

/// An output to store in the cache.
pub struct Store {
    pub key: CacheKey,
    pub output: Value,
    pub reads: StrSet,
}

/// An output to store in the cache, as a mathematical value.
#[verifier::ext_equal]
pub struct StoreV {
    pub key: CacheKeyV,
    pub output: Json,
    pub reads: Set<Seq<char>>,
}

impl View for Store {
    type V = StoreV;

    open spec fn view(&self) -> StoreV {
        StoreV { key: self.key@, output: self.output@, reads: self.reads@ }
    }
}

// ---------------------------------------------------------------------------
// Model
// ---------------------------------------------------------------------------

/// The key under which the output of a call is looked up and stored.
pub open spec fn lookup_key(m: PreparedV, spec: UnitSpecV, use_cache: bool, input: Json) -> Option<
    CacheKeyV,
> {
    if use_cache {
        cache_key_of(m, spec, input)
    } else {
        None
    }
}

/// What is stored of an output.
pub open spec fn store_of(
    m: PreparedV,
    spec: UnitSpecV,
    use_cache: bool,
    input: Json,
    output: Json,
) -> Option<StoreV> {
    match lookup_key(m, spec, use_cache, input) {
        Some(key) => Some(StoreV { key, output, reads: m.reads }),
        None => None,
    }
}

/// The list with the item, when there is one.
pub open spec fn with_some<T>(s: Seq<T>, x: Option<T>) -> Seq<T> {
    match x {
        Some(v) => s.push(v),
        None => s,
    }
}

/// The outcome with one more event.
pub open spec fn with_trace(o: OutcomeV, e: EventV) -> OutcomeV {
    OutcomeV { events: o.events.push(e), ..o }
}

/// The outcome with one more result.
pub open spec fn with_result(o: OutcomeV, node: Seq<char>, result: Result<Json, ToolErrorV>) -> OutcomeV {
    OutcomeV { results: o.results.push(NodeResultV { node, result }), ..o }
}

/// The outcome after a call was answered from the cache.
pub open spec fn with_hit(o: OutcomeV, node: Seq<char>, tool: Seq<char>, output: Json, now: u64) -> OutcomeV {
    let counted = OutcomeV { cache_hits: capped_sum(o.cache_hits, 1), ..o };
    with_result(
        with_trace(counted, event(node, tool, TraceStatus::CacheHit, now)),
        node,
        Ok(output),
    )
}

/// The events of failed attempts that were retried.
pub open spec fn retried_events(
    node: Seq<char>,
    tool: Seq<char>,
    retries: Seq<ToolErrorV>,
    now: u64,
) -> Seq<EventV> {
    Seq::new(
        retries.len(),
        |i: int|
            EventV {
                error: Some(retries[i].message),
                attempt: Some(if i + 1 < 255 {
                    (i + 1) as u8
                } else {
                    255
                }),
                ..event(node, tool, TraceStatus::Retried, now)
            },
    )
}

/// The outcome after failed attempts were recorded.
pub open spec fn with_retries(
    o: OutcomeV,
    node: Seq<char>,
    tool: Seq<char>,
    retries: Seq<ToolErrorV>,
    now: u64,
) -> OutcomeV {
    OutcomeV {
        retries: capped_sum(o.retries, retries.len() as usize),
        events: o.events + retried_events(node, tool, retries, now),
        ..o
    }
}

/// The outcome after the reply to the call of a node.
pub open spec fn with_reply(
    o: OutcomeV,
    node: Seq<char>,
    tool: Seq<char>,
    reply: Result<Json, ToolErrorV>,
    duration: u64,
    batch_id: Option<u64>,
    now: u64,
) -> OutcomeV {
    let e = match reply {
        Ok(_) => EventV {
            duration_ms: Some(duration),
            batch_id,
            ..event(node, tool, TraceStatus::Finished, now)
        },
        Err(error) => EventV {
            duration_ms: Some(duration),
            batch_id,
            error: Some(error.message),
            ..event(node, tool, TraceStatus::Failed, now)
        },
    };
    with_result(with_trace(o, e), node, reply)
}

/// A reply as a mathematical value.
pub open spec fn reply_view(r: Result<Value, ToolExecutionError>) -> Result<Json, ToolErrorV> {
    match r {
        Ok(v) => Ok(v@),
        Err(e) => Err(e@),
    }
}

/// The views of optional values.
pub open spec fn opt_values(s: Seq<Option<Value>>) -> Seq<Option<Json>> {
    Seq::new(s.len(), |i: int| opt_view(s[i]))
}

/// The outcome after the first `k` members were looked up, and the positions
/// of those that were not found.
pub open spec fn looked_up(
    o: OutcomeV,
    tool: Seq<char>,
    members: Seq<PreparedV>,
    cached: Seq<Option<Json>>,
    now: u64,
    k: int,
) -> (OutcomeV, Seq<int>)
    decreases k,
{
    if k <= 0 {
        (o, Seq::empty())
    } else {
        let (before, pending) = looked_up(o, tool, members, cached, now, k - 1);
        match cached[k - 1] {
            Some(output) => (with_hit(before, members[k - 1].node, tool, output, now), pending),
            None => (before, pending.push(k - 1)),
        }
    }
}

/// The events of nodes that go out in one batch.
pub open spec fn batch_started(
    tool: Seq<char>,
    members: Seq<PreparedV>,
    pending: Seq<int>,
    batch_id: u64,
    now: u64,
) -> Seq<EventV> {
    Seq::new(
        pending.len(),
        |i: int|
            EventV {
                batch_id: Some(batch_id),
                ..event(members[pending[i]].node, tool, TraceStatus::Started, now)
            },
    )
}

/// The outcome after a batch was looked up and, where something is left,
/// started; and the positions of the members that go out.
pub open spec fn batch_begun(
    o: OutcomeV,
    tool: Seq<char>,
    members: Seq<PreparedV>,
    cached: Seq<Option<Json>>,
    batch_id: u64,
    now: u64,
) -> (OutcomeV, Seq<int>) {
    let (after, pending) = looked_up(o, tool, members, cached, now, members.len() as int);
    if pending.len() == 0 {
        (after, pending)
    } else {
        (
            OutcomeV {
                batch_dispatches: capped_sum(after.batch_dispatches, 1),
                events: after.events + batch_started(tool, members, pending, batch_id, now),
                ..after
            },
            pending,
        )
    }
}

/// What the first `k` entries of a batch reply say of each node; later
/// entries win.
pub open spec fn by_node(outputs: Seq<BatchOutputV>, k: int) -> Map<Seq<char>, Json>
    decreases k,
{
    if k <= 0 {
        Map::empty()
    } else {
        by_node(outputs, k - 1).insert(outputs[k - 1].node, outputs[k - 1].output)
    }
}

/// What is left of the reply after the first `k` pending members took theirs.
pub open spec fn unclaimed(
    answers: Map<Seq<char>, Json>,
    members: Seq<PreparedV>,
    pending: Seq<int>,
    k: int,
) -> Map<Seq<char>, Json>
    decreases k,
{
    if k <= 0 {
        answers
    } else {
        unclaimed(answers, members, pending, k - 1).remove(members[pending[k - 1]].node)
    }
}

/// The error of a node that a batch reply leaves out.
pub open spec fn missing_output(node: Seq<char>) -> ToolErrorV {
    coded(
        "batch call did not return output for node '"@ + node + "'"@,
        "batch_missing_output"@,
    )
}

/// The reply for the `k`-th pending member.
pub open spec fn batch_reply(
    reply: Result<Seq<BatchOutputV>, ToolErrorV>,
    members: Seq<PreparedV>,
    pending: Seq<int>,
    k: int,
) -> Result<Json, ToolErrorV> {
    let node = members[pending[k]].node;
    match reply {
        Err(e) => Err(e),
        Ok(outputs) => {
            let left = unclaimed(by_node(outputs, outputs.len() as int), members, pending, k);
            if left.dom().contains(node) {
                Ok(left[node])
            } else {
                Err(missing_output(node))
            }
        },
    }
}

/// The outcome after the first `k` pending members got their replies, and
/// what is to be stored.
pub open spec fn batch_ended(
    o: OutcomeV,
    spec: UnitSpecV,
    members: Seq<PreparedV>,
    pending: Seq<int>,
    use_cache: bool,
    reply: Result<Seq<BatchOutputV>, ToolErrorV>,
    duration: u64,
    batch_id: u64,
    now: u64,
    k: int,
) -> (OutcomeV, Seq<StoreV>)
    decreases k,
{
    if k <= 0 {
        (o, Seq::empty())
    } else {
        let (before, stores) = batch_ended(
            o,
            spec,
            members,
            pending,
            use_cache,
            reply,
            duration,
            batch_id,
            now,
            k - 1,
        );
        let m = members[pending[k - 1]];
        let r = batch_reply(reply, members, pending, k - 1);
        (
            with_reply(before, m.node, spec.tool, r, duration, Some(batch_id), now),
            match r {
                Ok(output) => with_some(stores, store_of(m, spec, use_cache, m.input, output)),
                Err(_) => stores,
            },
        )
    }
}

// ---------------------------------------------------------------------------
// Laws
// ---------------------------------------------------------------------------

proof fn lemma_looked_up(
    o: OutcomeV,
    tool: Seq<char>,
    members: Seq<PreparedV>,
    cached: Seq<Option<Json>>,
    now: u64,
    k: int,
)
    requires
        0 <= k <= members.len(),
        cached.len() == members.len(),
    ensures
        ({
            let (after, pending) = looked_up(o, tool, members, cached, now, k);
            &&& after.results.len() + pending.len() == o.results.len() + k
            &&& o.results.len() <= after.results.len()
            &&& after.results.take(o.results.len() as int) == o.results
            &&& forall|i: int| 0 <= i < pending.len() ==> 0 <= #[trigger] pending[i] < k
            &&& forall|i: int, j: int| 0 <= i < j < pending.len() ==> pending[i] < pending[j]
            &&& forall|i: int|
                o.results.len() <= i < after.results.len() ==> exists|q: int|
                    0 <= q < k && cached[q] is Some && (#[trigger] after.results[i]).node
                        == #[trigger] members[q].node
            &&& forall|q: int|
                0 <= q < k ==> pending.contains(q) || exists|i: int|
                    o.results.len() <= i < after.results.len() && (#[trigger] after.results[i]).node
                        == (#[trigger] members[q]).node
            &&& forall|i: int| 0 <= i < pending.len() ==> cached[#[trigger] pending[i]] is None
        }),
    decreases k,
{
    if k > 0 {
        lemma_looked_up(o, tool, members, cached, now, k - 1);
        let (before, old_pending) = looked_up(o, tool, members, cached, now, k - 1);
        let (after, pending) = looked_up(o, tool, members, cached, now, k);
        assert(after.results.take(o.results.len() as int) =~= o.results) by {
            assert forall|i: int| 0 <= i < o.results.len() implies after.results[i] == o.results[i] by {
                assert(before.results.take(o.results.len() as int)[i] == o.results[i]);
            }
        }
        assert forall|i: int| o.results.len() <= i < after.results.len() implies exists|q: int|
            0 <= q < k && cached[q] is Some && (#[trigger] after.results[i]).node
                == #[trigger] members[q].node by {
            if i < before.results.len() {
                let q = choose|q: int|
                    0 <= q < k - 1 && cached[q] is Some && before.results[i].node
                        == #[trigger] members[q].node;
                assert(after.results[i] == before.results[i]);
                assert(members[q].node == after.results[i].node);
            } else {
                assert(members[k - 1].node == after.results[i].node);
            }
        }
        assert forall|q: int| 0 <= q < k implies pending.contains(q) || exists|i: int|
            o.results.len() <= i < after.results.len() && (#[trigger] after.results[i]).node == (
            #[trigger] members[q]).node by {
            if q < k - 1 {
                if old_pending.contains(q) {
                    let i = choose|i: int| 0 <= i < old_pending.len() && old_pending[i] == q;
                    assert(pending[i] == q);
                } else {
                    let i = choose|i: int|
                        o.results.len() <= i < before.results.len() && (
                        #[trigger] before.results[i]).node == members[q].node;
                    assert(after.results[i] == before.results[i]);
                }
            } else if cached[q] is None {
                assert(pending[old_pending.len() as int] == q);
            } else {
                assert(after.results[before.results.len() as int].node == members[q].node);
            }
        }
    }
}

proof fn lemma_batch_ended(
    o: OutcomeV,
    spec: UnitSpecV,
    members: Seq<PreparedV>,
    pending: Seq<int>,
    use_cache: bool,
    reply: Result<Seq<BatchOutputV>, ToolErrorV>,
    duration: u64,
    batch_id: u64,
    now: u64,
    k: int,
)
    requires
        0 <= k <= pending.len(),
    ensures
        ({
            let after = batch_ended(
                o,
                spec,
                members,
                pending,
                use_cache,
                reply,
                duration,
                batch_id,
                now,
                k,
            ).0;
            &&& after.results.len() == o.results.len() + k
            &&& after.results.take(o.results.len() as int) == o.results
            &&& forall|i: int|
                0 <= i < k ==> after.results[o.results.len() + i].node == members[(
                #[trigger] pending[i])].node
        }),
    decreases k,
{
    if k > 0 {
        lemma_batch_ended(
            o,
            spec,
            members,
            pending,
            use_cache,
            reply,
            duration,
            batch_id,
            now,
            k - 1,
        );
        let before = batch_ended(
            o,
            spec,
            members,
            pending,
            use_cache,
            reply,
            duration,
            batch_id,
            now,
            k - 1,
        ).0;
        let after = batch_ended(
            o,
            spec,
            members,
            pending,
            use_cache,
            reply,
            duration,
            batch_id,
            now,
            k,
        ).0;
        assert(after.results.take(o.results.len() as int) =~= o.results) by {
            assert forall|i: int| 0 <= i < o.results.len() implies after.results[i] == o.results[i] by {
                assert(before.results.take(o.results.len() as int)[i] == o.results[i]);
            }
        }
    }
}

/// Whatever the cache holds and the tool replies, a batch reports exactly one
/// result for each of its members.
pub proof fn batch_covers_members(
    spec: UnitSpecV,
    members: Seq<PreparedV>,
    cached: Seq<Option<Json>>,
    use_cache: bool,
    reply: Result<Seq<BatchOutputV>, ToolErrorV>,
    retries: usize,
    duration: u64,
    batch_id: u64,
    now: u64,
)
    requires
        cached.len() == members.len(),
        crate::runtime::model::member_ids(members).no_duplicates(),
    ensures
        ({
            let (begun, pending) = batch_begun(
                crate::runtime::dispatch::no_outcome(),
                spec.tool,
                members,
                cached,
                batch_id,
                now,
            );
            let called = OutcomeV { retries: capped_sum(begun.retries, retries), ..begun };
            let end = batch_ended(
                called,
                spec,
                members,
                pending,
                use_cache,
                reply,
                duration,
                batch_id,
                now,
                pending.len() as int,
            ).0;
            covers(end.results, crate::runtime::model::member_ids(members))
        }),
{
    let none = crate::runtime::dispatch::no_outcome();
    let ids = crate::runtime::model::member_ids(members);
    let n = members.len() as int;
    let (after, pending) = looked_up(none, spec.tool, members, cached, now, n);
    let begun = batch_begun(none, spec.tool, members, cached, batch_id, now).0;
    let called = OutcomeV { retries: capped_sum(begun.retries, retries), ..begun };
    let end = batch_ended(
        called,
        spec,
        members,
        pending,
        use_cache,
        reply,
        duration,
        batch_id,
        now,
        pending.len() as int,
    ).0;
    lemma_looked_up(none, spec.tool, members, cached, now, n);
    lemma_batch_ended(
        called,
        spec,
        members,
        pending,
        use_cache,
        reply,
        duration,
        batch_id,
        now,
        pending.len() as int,
    );
    let hits = after.results.len();
    assert(called.results == after.results);
    assert forall|i: int| 0 <= i < hits implies end.results[i] == after.results[i] by {
        assert(end.results.take(hits as int)[i] == after.results[i]);
    }
    // Every result speaks of a member.
    assert forall|i: int| 0 <= i < end.results.len() implies exists|q: int|
        0 <= q < n && (#[trigger] end.results[i]).node == ids[q] by {
        if i < hits {
            let q = choose|q: int|
                0 <= q < n && cached[q] is Some && after.results[i].node == #[trigger] members[q].node;
            assert(ids[q] == end.results[i].node);
        } else {
            let q = pending[i - hits];
            assert(ids[q] == end.results[i].node);
        }
    }
    assert forall|i: int| 0 <= i < end.results.len() implies ids.contains(
        (#[trigger] end.results[i]).node,
    ) by {
        let q = choose|q: int| 0 <= q < n && end.results[i].node == ids[q];
        assert(ids[q] == end.results[i].node);
    }
    // Every member has a result.
    let nodes = result_nodes(end.results);
    assert forall|q: int| 0 <= q < ids.len() implies nodes.contains(#[trigger] ids[q]) by {
        if pending.contains(q) {
            let i = choose|i: int| 0 <= i < pending.len() && pending[i] == q;
            assert(end.results[hits + i].node == members[pending[i]].node);
            assert(nodes[hits + i] == ids[q]);
        } else {
            assert(ids[q] == members[q].node);
            let i = choose|i: int|
                0 <= i < after.results.len() && (#[trigger] after.results[i]).node
                    == members[q].node;
            assert(nodes[i] == ids[q]);
        }
    }
    // As many results as members, so none occurs twice.
    assert(nodes.to_set() =~= ids.to_set()) by {
        assert forall|x: Seq<char>| #[trigger] nodes.to_set().contains(x) <==> ids.to_set().contains(x) by {
            if nodes.contains(x) {
                let i = choose|i: int| 0 <= i < nodes.len() && nodes[i] == x;
                assert(ids.contains(end.results[i].node));
            }
            if ids.contains(x) {
                let q = choose|q: int| 0 <= q < ids.len() && ids[q] == x;
                assert(nodes.contains(ids[q]));
            }
        }
    }
    ids.unique_seq_to_set();
    nodes.lemma_no_dup_set_cardinality();
}

// ---------------------------------------------------------------------------
// Single calls
// ---------------------------------------------------------------------------

impl PreparedMember {
    /// The key under which the output of a call is looked up and stored.
    pub fn lookup_key(&self, spec: &UnitSpec, use_cache: bool, input: &Value) -> (r: Option<CacheKey>)
        ensures
            opt_view(r) == lookup_key(self@, spec@, use_cache, input@),
    {
        if use_cache {
            self.key(spec, input)
        } else {
            None
        }
    }

    pub fn store(&self, spec: &UnitSpec, use_cache: bool, input: &Value, output: &Value) -> (r: Option<
        Store,
    >)
        ensures
            opt_view(r) == store_of(self@, spec@, use_cache, input@, output@),
    {
        match self.lookup_key(spec, use_cache, input) {
            Some(key) => Some(Store { key, output: output.clone(), reads: self.reads.clone() }),
            None => None,
        }
    }
}

impl DispatchOutcome {
    pub fn add_event(&mut self, e: TraceEvent)
        ensures
            final(self)@ == with_trace(old(self)@, e@),
    {
        let ghost before = self@.events;
        self.events.push(e);
        assert(self@.events =~= before.push(e@));
        assert(self@ =~= with_trace(old(self)@, e@));
    }

    fn add_result(&mut self, node: &str, result: Result<Value, ToolExecutionError>)
        ensures
            final(self)@ == with_result(old(self)@, node@, reply_view(result)),
    {
        let ghost before = self@.results;
        let ghost one = NodeResultV { node: node@, result: reply_view(result) };
        self.results.push(NodeResult { node: node.to_owned(), result });
        assert(self@.results =~= before.push(one));
        assert(self@ =~= with_result(old(self)@, node@, one.result));
    }

    fn add_hit(&mut self, node: &str, tool: &str, output: Value, now: u64)
        ensures
            final(self)@ == with_hit(old(self)@, node@, tool@, output@, now),
    {
        self.cache_hits = add_capped(self.cache_hits, 1);
        self.add_event(TraceEvent::new(node, tool, TraceStatus::CacheHit, now));
        self.add_result(node, Ok(output));
    }

    pub fn add_reply(
        &mut self,
        node: &str,
        tool: &str,
        reply: Result<Value, ToolExecutionError>,
        duration: u64,
        batch_id: Option<u64>,
        now: u64,
    )
        ensures
            final(self)@ == with_reply(
                old(self)@,
                node@,
                tool@,
                reply_view(reply),
                duration,
                batch_id,
                now,
            ),
    {
        let e = match &reply {
            Ok(_) => TraceEvent::new(node, tool, TraceStatus::Finished, now).with_duration(
                duration,
            ).with_batch(batch_id),
            Err(error) => TraceEvent::new(node, tool, TraceStatus::Failed, now).with_duration(
                duration,
            ).with_batch(batch_id).with_error(error),
        };
        self.add_event(e);
        self.add_result(node, reply);
    }

    /// Records failed attempts that were retried.
    pub fn record_retries(
        &mut self,
        node: &str,
        tool: &str,
        retries: &Vec<ToolExecutionError>,
        now: u64,
    )
        ensures
            final(self)@ == with_retries(old(self)@, node@, tool@, views(retries@), now),
    {
        let ghost o = self@;
        let ghost rs = views(retries@);
        let ghost all = retried_events(node@, tool@, rs, now);
        self.retries = add_capped(self.retries, retries.len());
        let ghost counted = self@;
        let mut i: usize = 0;
        assert(self@.events =~= o.events + all.take(0));
        while i < retries.len()
            invariant
                i <= retries@.len(),
                rs == views(retries@),
                all == retried_events(node@, tool@, rs, now),
                self@ == (OutcomeV { events: o.events + all.take(i as int), ..counted }),
            decreases retries.len() - i,
        {
            let attempt: u8 = if i < 254 {
                (i + 1) as u8
            } else {
                255
            };
            let e = TraceEvent::new(node, tool, TraceStatus::Retried, now).with_error(
                &retries[i],
            ).with_attempt(attempt);
            assert(e@ == all[i as int]);
            self.add_event(e);
            assert(o.events + all.take(i + 1) =~= (o.events + all.take(i as int)).push(
                all[i as int],
            ));
            i = i + 1;
        }
        assert(all.take(i as int) =~= all);
        assert(self@ =~= with_retries(o, node@, tool@, rs, now));
    }

    /// Begins a single call with what the cache holds for it; says whether
    /// the tool has to be called.
    pub fn begin_single(
        &mut self,
        spec: &UnitSpec,
        member: &PreparedMember,
        cached: Option<Value>,
        now: u64,
    ) -> (r: bool)
        ensures
            r == (cached is None),
            final(self)@ == match cached {
                Some(v) => with_hit(old(self)@, member@.node, spec@.tool, v@, now),
                None => with_trace(
                    old(self)@,
                    event(member@.node, spec@.tool, TraceStatus::Started, now),
                ),
            },
    {
        match cached {
            Some(output) => {
                self.add_hit(member.node.as_str(), spec.tool.as_str(), output, now);
                false
            },
            None => {
                self.add_event(
                    TraceEvent::new(
                        member.node.as_str(),
                        spec.tool.as_str(),
                        TraceStatus::Started,
                        now,
                    ),
                );
                true
            },
        }
    }

    /// Records the reply to a single call; returns what is to be stored.
    pub fn end_single(
        &mut self,
        spec: &UnitSpec,
        member: &PreparedMember,
        use_cache: bool,
        reply: Result<Value, ToolExecutionError>,
        retries: &Vec<ToolExecutionError>,
        duration: u64,
        now: u64,
    ) -> (r: Option<Store>)
        ensures
            final(self)@ == with_reply(
                with_retries(old(self)@, member@.node, spec@.tool, views(retries@), now),
                member@.node,
                spec@.tool,
                reply_view(reply),
                duration,
                None,
                now,
            ),
            opt_view(r) == match reply {
                Ok(v) => store_of(member@, spec@, use_cache, member@.input, v@),
                Err(_) => None,
            },
    {
        let node = member.node.as_str();
        let tool = spec.tool.as_str();
        self.record_retries(node, tool, retries, now);
        let store = match &reply {
            Ok(output) => member.store(spec, use_cache, &member.input, output),
            Err(_) => None,
        };
        self.add_reply(node, tool, reply, duration, None, now);
        store
    }
}

pub fn add_capped(a: usize, b: usize) -> (r: usize)
    ensures
        r == capped_sum(a, b),
{
    match a.checked_add(b) {
        Some(sum) => sum,
        None => usize::MAX,
    }
}

// ---------------------------------------------------------------------------
// Batches
// ---------------------------------------------------------------------------

impl DispatchOutcome {
    /// Begins a batch with what the cache holds for each member; returns the
    /// positions of the members that go out in one call.
    pub fn begin_batch(
        &mut self,
        spec: &UnitSpec,
        members: &Vec<PreparedMember>,
        cached: &Vec<Option<Value>>,
        batch_id: u64,
        now: u64,
    ) -> (r: Vec<usize>)
        requires
            cached@.len() == members@.len(),
        ensures
            (final(self)@, crate::graph::rounds::ints(r@)) == batch_begun(
                old(self)@,
                spec@.tool,
                views(members@),
                opt_values(cached@),
                batch_id,
                now,
            ),
            forall|i: int| 0 <= i < r@.len() ==> (#[trigger] r@[i]) < members@.len(),
    {
        let ghost o = self@;
        let ghost ms = views(members@);
        let ghost cs = opt_values(cached@);
        let ghost tool = spec@.tool;
        let mut pending: Vec<usize> = Vec::new();
        let mut k: usize = 0;
        assert(crate::graph::rounds::ints(pending@) =~= Seq::empty());
        while k < members.len()
            invariant
                k <= members@.len(),
                cached@.len() == members@.len(),
                ms == views(members@),
                cs == opt_values(cached@),
                tool == spec@.tool,
                (self@, crate::graph::rounds::ints(pending@)) == looked_up(
                    o,
                    tool,
                    ms,
                    cs,
                    now,
                    k as int,
                ),
                forall|i: int| 0 <= i < pending@.len() ==> (#[trigger] pending@[i]) < k,
            decreases members.len() - k,
        {
            assert(ms[k as int] == members@[k as int]@);
            assert(cs[k as int] == opt_view(cached@[k as int]));
            match &cached[k] {
                Some(output) => {
                    self.add_hit(members[k].node.as_str(), spec.tool.as_str(), output.clone(), now);
                },
                None => {
                    let ghost before = crate::graph::rounds::ints(pending@);
                    pending.push(k);
                    assert(crate::graph::rounds::ints(pending@) =~= before.push(k as int));
                },
            }
            k = k + 1;
        }
        if pending.len() == 0 {
            return pending;
        }
        let ghost after = self@;
        let ghost ps = crate::graph::rounds::ints(pending@);
        let ghost all = batch_started(tool, ms, ps, batch_id, now);
        self.batch_dispatches = add_capped(self.batch_dispatches, 1);
        let ghost counted = self@;
        let mut i: usize = 0;
        assert(self@.events =~= after.events + all.take(0));
        while i < pending.len()
            invariant
                i <= pending@.len(),
                ms == views(members@),
                tool == spec@.tool,
                ps == crate::graph::rounds::ints(pending@),
                all == batch_started(tool, ms, ps, batch_id, now),
                forall|i: int| 0 <= i < pending@.len() ==> (#[trigger] pending@[i]) < members@.len(),
                self@ == (OutcomeV { events: after.events + all.take(i as int), ..counted }),
            decreases pending.len() - i,
        {
            let at: usize = pending[i];
            let e = TraceEvent::new(
                members[at].node.as_str(),
                spec.tool.as_str(),
                TraceStatus::Started,
                now,
            ).with_batch(Some(batch_id));
            assert(ps[i as int] == at);
            assert(e@ == all[i as int]);
            self.add_event(e);
            assert(after.events + all.take(i + 1) =~= (after.events + all.take(i as int)).push(
                all[i as int],
            ));
            i = i + 1;
        }
        assert(all.take(i as int) =~= all);
        assert(self@ =~= batch_begun(o, tool, ms, cs, batch_id, now).0);
        pending
    }

    /// Records the reply to a batch call, made after `retries` failed
    /// attempts; returns what is to be stored.
    pub fn end_batch(
        &mut self,
        spec: &UnitSpec,
        members: &Vec<PreparedMember>,
        pending: &Vec<usize>,
        use_cache: bool,
        reply: Result<Vec<BatchOutput>, ToolExecutionError>,
        retries: usize,
        duration: u64,
        batch_id: u64,
        now: u64,
    ) -> (r: Vec<Store>)
        requires
            forall|i: int| 0 <= i < pending@.len() ==> (#[trigger] pending@[i]) < members@.len(),
        ensures
            (final(self)@, views(r@)) == batch_ended(
                (OutcomeV { retries: capped_sum(old(self)@.retries, retries), ..old(self)@ }),
                spec@,
                views(members@),
                crate::graph::rounds::ints(pending@),
                use_cache,
                batch_reply_view(reply),
                duration,
                batch_id,
                now,
                pending@.len() as int,
            ),
    {
        let ghost ms = views(members@);
        let ghost ps = crate::graph::rounds::ints(pending@);
        let ghost rv = batch_reply_view(reply);
        self.retries = add_capped(self.retries, retries);
        let ghost o = self@;
        let (mut answers, failure) = match reply {
            Ok(outputs) => (outputs_by_node(outputs), None),
            Err(e) => (StrMap::new(), Some(e)),
        };
        let ghost all = map_view(answers);
        let mut stores: Vec<Store> = Vec::new();
        let mut k: usize = 0;
        assert(views(stores@) =~= Seq::empty());
        while k < pending.len()
            invariant
                k <= pending@.len(),
                ms == views(members@),
                ps == crate::graph::rounds::ints(pending@),
                forall|i: int| 0 <= i < pending@.len() ==> (#[trigger] pending@[i]) < members@.len(),
                match failure {
                    Some(e) => rv == Err::<Seq<BatchOutputV>, ToolErrorV>(e@),
                    None => rv is Ok && all == by_node(rv->Ok_0, rv->Ok_0.len() as int)
                        && map_view(answers) == unclaimed(all, ms, ps, k as int),
                },
                (self@, views(stores@)) == batch_ended(
                    o,
                    spec@,
                    ms,
                    ps,
                    use_cache,
                    rv,
                    duration,
                    batch_id,
                    now,
                    k as int,
                ),
            decreases pending.len() - k,
        {
            let at: usize = pending[k];
            let member = &members[at];
            assert(ps[k as int] == at);
            assert(ms[at as int] == member@);
            let reply: Result<Value, ToolExecutionError> = match &failure {
                Some(e) => Err(e.clone()),
                None => {
                    let ghost before = answers;
                    let taken = answers.remove(member.node.as_str());
                    assert(map_view(answers) =~= map_view(before).remove(member@.node));
                    match taken {
                        Some(output) => {
                            assert(before@.dom().contains(member@.node));
                            Ok(output)
                        },
                        None => {
                            assert(!before@.dom().contains(member@.node));
                            Err(
                                ToolExecutionError::coded(
                                    wrapped(
                                        "batch call did not return output for node '",
                                        member.node.as_str(),
                                        "'",
                                    ).as_str(),
                                    "batch_missing_output",
                                ),
                            )
                        },
                    }
                },
            };
            assert(reply_view(reply) == batch_reply(rv, ms, ps, k as int));
            let ghost before = views(stores@);
            if let Ok(output) = &reply {
                if let Some(store) = member.store(spec, use_cache, &member.input, output) {
                    stores.push(store);
                    assert(views(stores@) =~= before.push(store@));
                }
            }
            self.add_reply(
                member.node.as_str(),
                spec.tool.as_str(),
                reply,
                duration,
                Some(batch_id),
                now,
            );
            k = k + 1;
        }
        stores
    }
}

/// A batch reply as a mathematical value.
pub open spec fn batch_reply_view(r: Result<Vec<BatchOutput>, ToolExecutionError>) -> Result<
    Seq<BatchOutputV>,
    ToolErrorV,
> {
    match r {
        Ok(v) => Ok(views(v@)),
        Err(e) => Err(e@),
    }
}

pub fn outputs_by_node(outputs: Vec<BatchOutput>) -> (r: StrMap<Value>)
    ensures
        map_view(r) == by_node(views(outputs@), outputs@.len() as int),
{
    let ghost os = views(outputs@);
    let mut out: StrMap<Value> = StrMap::new();
    let mut i: usize = 0;
    assert(map_view(out) =~= Map::empty());
    while i < outputs.len()
        invariant
            i <= outputs@.len(),
            os == views(outputs@),
            map_view(out) == by_node(os, i as int),
        decreases outputs.len() - i,
    {
        let ghost before = out;
        let value = outputs[i].output.clone();
        out.insert(outputs[i].node.clone(), value);
        proof {
            assert(os[i as int] == outputs@[i as int]@);
            map_view_insert(before, out, os[i as int].node, value);
        }
        i = i + 1;
    }
    out
}

/// The entries of a batch call.
pub fn batch_inputs(members: &Vec<PreparedMember>, pending: &Vec<usize>) -> (r: Vec<BatchInput>)
    requires
        forall|i: int| 0 <= i < pending@.len() ==> (#[trigger] pending@[i]) < members@.len(),
    ensures
        views(r@) == Seq::new(
            pending@.len(),
            |i: int|
                BatchInputV {
                    node: members@[pending@[i] as int]@.node,
                    input: members@[pending@[i] as int]@.input,
                },
        ),
{
    let mut out: Vec<BatchInput> = Vec::new();
    let mut i: usize = 0;
    while i < pending.len()
        invariant
            i <= pending@.len(),
            out@.len() == i,
            forall|i: int| 0 <= i < pending@.len() ==> (#[trigger] pending@[i]) < members@.len(),
            forall|j: int|
                0 <= j < i ==> (#[trigger] out@[j])@.node == members@[pending@[j] as int]@.node
                    && out@[j]@.input == members@[pending@[j] as int]@.input,
        decreases pending.len() - i,
    {
        let member = &members[pending[i]];
        out.push(BatchInput { node: member.node.clone(), input: member.input.clone() });
        i = i + 1;
    }
    let ghost want = Seq::new(
        pending@.len(),
        |i: int|
            BatchInputV {
                node: members@[pending@[i] as int]@.node,
                input: members@[pending@[i] as int]@.input,
            },
    );
    assert(views(out@) =~= want);
    out
}

/// The outcome after every one of the first `k` nodes failed with the error.
pub open spec fn lost(
    o: OutcomeV,
    tool: Seq<char>,
    nodes: Seq<Seq<char>>,
    error: ToolErrorV,
    now: u64,
    k: int,
) -> OutcomeV
    decreases k,
{
    if k <= 0 {
        o
    } else {
        with_reply(
            lost(o, tool, nodes, error, now, k - 1),
            nodes[k - 1],
            tool,
            Err(error),
            0,
            None,
            now,
        )
    }
}

proof fn lemma_lost(
    o: OutcomeV,
    tool: Seq<char>,
    nodes: Seq<Seq<char>>,
    error: ToolErrorV,
    now: u64,
    k: int,
)
    requires
        0 <= k <= nodes.len(),
        o.results.len() == 0,
    ensures
        lost(o, tool, nodes, error, now, k).results.len() == k,
        forall|i: int|
            0 <= i < k ==> (#[trigger] lost(o, tool, nodes, error, now, k).results[i]).node
                == nodes[i],
    decreases k,
{
    if k > 0 {
        lemma_lost(o, tool, nodes, error, now, k - 1);
    }
}

/// What a unit reports whose dispatch itself broke down: every node that went
/// out failed with the error.
pub fn lost_outcome(tool: &str, nodes: &Vec<String>, error: &ToolExecutionError, now: u64) -> (r:
    DispatchOutcome)
    ensures
        r@ == lost(
            crate::runtime::dispatch::no_outcome(),
            tool@,
            texts_view(nodes@),
            error@,
            now,
            nodes@.len() as int,
        ),
        texts_view(nodes@).no_duplicates() ==> covers(r@.results, texts_view(nodes@)),
{
    let ghost names = texts_view(nodes@);
    let ghost none = crate::runtime::dispatch::no_outcome();
    let mut outcome = DispatchOutcome::new();
    let mut i: usize = 0;
    while i < nodes.len()
        invariant
            i <= nodes@.len(),
            names == texts_view(nodes@),
            none == crate::runtime::dispatch::no_outcome(),
            outcome@ == lost(none, tool@, names, error@, now, i as int),
        decreases nodes.len() - i,
    {
        assert(names[i as int] == nodes@[i as int]@);
        outcome.add_reply(nodes[i].as_str(), tool, Err(error.clone()), 0, None, now);
        i = i + 1;
    }
    proof {
        lemma_lost(none, tool@, names, error@, now, names.len() as int);
        let rs = outcome@.results;
        assert(result_nodes(rs) =~= names);
        assert forall|j: int| 0 <= j < rs.len() implies names.contains((#[trigger] rs[j]).node) by {
            assert(names[j] == rs[j].node);
        }
    }
    outcome
}

} // verus!
