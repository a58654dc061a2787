//! Dynamic fan-out execution for `for_each` nodes: one call per item,
//! batched in chunks when the tool is batchable, otherwise one after the
//! other. The node output is the array of per-item outputs in order.

use vstd::prelude::*;

use crate::adapters::api::{BatchInput, BatchInputV, BatchOutput, BatchOutputV, ToolErrorV, ToolExecutionError};
use crate::json::{Json, Value};
use crate::runtime::calls::{add_capped, Store, StoreV};
use crate::runtime::dispatch::{DispatchOutcome, OutcomeV, PreparedMember, PreparedV, UnitSpec, UnitSpecV};
use crate::runtime::error::RuntimeErrorV;
use crate::runtime::resolve::substitute_item;
use crate::runtime::result::{TraceEvent, TraceStatus};
use crate::scan::parse_index;
use crate::text::{concat2, decimal_text};

verus! {

use crate::adapters::api::coded;
use crate::graph::rounds::ints;
use crate::json::values_view;
use crate::ordered::{opt_view, views};
use crate::runtime::calls::{
    batch_reply_view, opt_values, store_of, with_reply, with_some, with_trace,
};
use crate::runtime::dispatch::capped_sum;
use crate::runtime::error::runtime_error_text;
use crate::runtime::resolve::filled;
use crate::runtime::result::event;
use crate::scan::parsed_number;
use crate::text::decimal;

broadcast use crate::json::group_json_views;

// ---------------------------------------------------------------------------
// Model
// ---------------------------------------------------------------------------

/// The inputs for the first `k` items, or what is wrong with the template.
pub open spec fn item_inputs(template: Json, items: Seq<Json>, k: int) -> Result<
    Seq<Json>,
    RuntimeErrorV,
>
    decreases k,
{
    if k <= 0 {
        Ok(Seq::empty())
    } else {
        match item_inputs(template, items, k - 1) {
            Err(e) => Err(e),
            Ok(before) => match filled(template, items[k - 1]) {
                Ok(v) => Ok(before.push(v)),
                Err(e) => Err(e),
            },
        }
    }
}

proof fn lemma_item_error(template: Json, items: Seq<Json>, k: int, n: int)
    requires
        0 <= k <= n,
        item_inputs(template, items, k) is Err,
    ensures
        item_inputs(template, items, n) == item_inputs(template, items, k),
    decreases n,
{
    if k < n {
        lemma_item_error(template, items, k, n - 1);
    }
}

/// The items of a prepared fan-out node.
pub open spec fn items_of(m: PreparedV) -> Seq<Json> {
    match m.items {
        Some(items) => items,
        None => Seq::empty(),
    }
}

/// The positions among the first `k` for which the cache holds nothing.
pub open spec fn missing(cached: Seq<Option<Json>>, k: int) -> Seq<int>
    decreases k,
{
    if k <= 0 {
        Seq::empty()
    } else if cached[k - 1] is None {
        missing(cached, k - 1).push(k - 1)
    } else {
        missing(cached, k - 1)
    }
}

/// How many of the first `k` items the cache answers.
pub open spec fn hits(cached: Seq<Option<Json>>, k: int) -> nat
    decreases k,
{
    if k <= 0 {
        0
    } else {
        hits(cached, k - 1) + if cached[k - 1] is Some {
            1nat
        } else {
            0nat
        }
    }
}

/// A fan-out in progress as a mathematical value.
#[verifier::ext_equal]
pub struct FanOutV {
    /// The input for each item.
    pub inputs: Seq<Json>,
    /// What is known of the output for each item.
    pub results: Seq<Option<Json>>,
    /// The items that need a call, in order.
    pub pending: Seq<int>,
    /// How many of them were called.
    pub next: int,
    /// Whether the calls are batched.
    pub batched: bool,
}

/// The items of the next batch call.
pub open spec fn next_chunk(f: FanOutV, batch_size: usize) -> Seq<int> {
    let size = if batch_size < 1 {
        1
    } else {
        batch_size as int
    };
    if f.next + size < f.pending.len() {
        f.pending.subrange(f.next, f.next + size)
    } else {
        f.pending.subrange(f.next, f.pending.len() as int)
    }
}

/// What the last of the first `k` entries of a reply that speak of the item
/// says.
pub open spec fn answer_for(outputs: Seq<BatchOutputV>, index: int, k: int) -> Option<Json>
    decreases k,
{
    if k <= 0 {
        None
    } else if parsed_number(outputs[k - 1].node, usize::MAX as nat) == Some(index as nat) {
        Some(outputs[k - 1].output)
    } else {
        answer_for(outputs, index, k - 1)
    }
}

/// The entry of a batch reply for the item.
pub open spec fn answer(outputs: Seq<BatchOutputV>, index: int) -> Option<Json> {
    answer_for(outputs, index, outputs.len() as int)
}

/// How many items of the chunk have an answer before the first, from `from`,
/// that has none.
pub open spec fn answered(outputs: Seq<BatchOutputV>, chunk: Seq<int>, from: int) -> int
    decreases chunk.len() - from,
{
    if 0 <= from < chunk.len() && answer(outputs, chunk[from]) is Some {
        answered(outputs, chunk, from + 1)
    } else {
        from
    }
}

/// The results after the first `n` items of the chunk got their answers.
pub open spec fn with_answers(
    results: Seq<Option<Json>>,
    outputs: Seq<BatchOutputV>,
    chunk: Seq<int>,
    n: int,
) -> Seq<Option<Json>>
    decreases n,
{
    if n <= 0 {
        results
    } else {
        with_answers(results, outputs, chunk, n - 1).update(
            chunk[n - 1],
            answer(outputs, chunk[n - 1]),
        )
    }
}

/// What is stored of the answers to the first `n` items of the chunk.
pub open spec fn chunk_stores(
    m: PreparedV,
    spec: UnitSpecV,
    use_cache: bool,
    inputs: Seq<Json>,
    outputs: Seq<BatchOutputV>,
    chunk: Seq<int>,
    n: int,
) -> Seq<StoreV>
    decreases n,
{
    if n <= 0 {
        Seq::empty()
    } else {
        with_some(
            chunk_stores(m, spec, use_cache, inputs, outputs, chunk, n - 1),
            store_of(
                m,
                spec,
                use_cache,
                inputs[chunk[n - 1]],
                answer(outputs, chunk[n - 1])->0,
            ),
        )
    }
}

/// The error of an item that a batch reply leaves out.
pub open spec fn missing_item(index: int) -> ToolErrorV {
    coded(
        "batch call did not return output for item "@ + decimal(index as nat),
        "batch_missing_output"@,
    )
}

/// The error of a node one of whose items failed.
pub open spec fn item_failure(index: int, e: ToolErrorV) -> ToolErrorV {
    coded(
        "item "@ + decimal(index as nat) + ": "@ + e.message,
        match e.code {
            Some(code) => code,
            None => "item_failed"@,
        },
    )
}

/// The output of the node: what is known for each item, in order.
pub open spec fn collected(results: Seq<Option<Json>>) -> Json {
    Json::List(
        Seq::new(
            results.len(),
            |i: int|
                match results[i] {
                    Some(v) => v,
                    None => Json::Null,
                },
        ),
    )
}

/// An item lacks a result exactly while its call is still to come.
pub open spec fn fan_wf(f: FanOutV) -> bool {
    &&& f.results.len() == f.inputs.len()
    &&& 0 <= f.next <= f.pending.len()
    &&& forall|i: int| 0 <= i < f.pending.len() ==> 0 <= #[trigger] f.pending[i] < f.inputs.len()
    &&& forall|i: int, j: int| 0 <= i < j < f.pending.len() ==> f.pending[i] < f.pending[j]
    &&& forall|i: int|
        f.next <= i < f.pending.len() ==> f.results[#[trigger] f.pending[i]] is None
    &&& forall|x: int|
        0 <= x < f.results.len() && (#[trigger] f.results[x]) is None ==> awaited(f, x)
}

/// The item still needs its call.
pub open spec fn awaited(f: FanOutV, x: int) -> bool {
    exists|i: int| f.next <= i < f.pending.len() && (#[trigger] f.pending[i]) == x
}

/// Once every call was made, the output of the node has the result of every
/// item, in the order of the items.
pub proof fn finished_fan_out_is_complete(f: FanOutV)
    requires
        fan_wf(f),
        f.next == f.pending.len(),
    ensures
        collected(f.results) is List,
        collected(f.results)->List_0.len() == f.inputs.len(),
        forall|x: int|
            0 <= x < f.inputs.len() ==> f.results[x] == Some(
                #[trigger] collected(f.results)->List_0[x],
            ),
{
    assert forall|x: int| 0 <= x < f.inputs.len() implies f.results[x] == Some(
        #[trigger] collected(f.results)->List_0[x],
    ) by {
        if f.results[x] is None {
            assert(awaited(f, x));
        }
    }
}

proof fn lemma_missing(cached: Seq<Option<Json>>, k: int)
    requires
        0 <= k <= cached.len(),
    ensures
        forall|i: int|
            0 <= i < missing(cached, k).len() ==> 0 <= #[trigger] missing(cached, k)[i] < k
                && cached[missing(cached, k)[i]] is None,
        forall|i: int, j: int|
            0 <= i < j < missing(cached, k).len() ==> missing(cached, k)[i] < missing(cached, k)[j],
        forall|x: int|
            0 <= x < k && (#[trigger] cached[x]) is None ==> missing(cached, k).contains(x),
    decreases k,
{
    if k > 0 {
        lemma_missing(cached, k - 1);
        let before = missing(cached, k - 1);
        let all = missing(cached, k);
        assert forall|x: int| 0 <= x < k && (#[trigger] cached[x]) is None implies all.contains(x) by {
            if x < k - 1 {
                assert(before.contains(x));
                let i = choose|i: int| 0 <= i < before.len() && before[i] == x;
                assert(all[i] == x);
            } else {
                assert(all[before.len() as int] == x);
            }
        }
    }
}

proof fn lemma_with_answers(
    results: Seq<Option<Json>>,
    outputs: Seq<BatchOutputV>,
    chunk: Seq<int>,
    n: int,
)
    requires
        0 <= n <= chunk.len(),
        forall|i: int| 0 <= i < chunk.len() ==> 0 <= #[trigger] chunk[i] < results.len(),
    ensures
        with_answers(results, outputs, chunk, n).len() == results.len(),
        forall|x: int|
            0 <= x < results.len() ==> {
                ||| (#[trigger] with_answers(results, outputs, chunk, n)[x]) == results[x]
                ||| chunk.take(n).contains(x) && with_answers(results, outputs, chunk, n)[x]
                    == answer(outputs, x)
            },
        forall|i: int|
            0 <= i < n ==> with_answers(results, outputs, chunk, n)[#[trigger] chunk[i]] == answer(
                outputs,
                chunk[i],
            ),
    decreases n,
{
    if n > 0 {
        lemma_with_answers(results, outputs, chunk, n - 1);
        let before = with_answers(results, outputs, chunk, n - 1);
        let after = with_answers(results, outputs, chunk, n);
        assert forall|x: int| 0 <= x < results.len() implies {
            ||| (#[trigger] after[x]) == results[x]
            ||| chunk.take(n).contains(x) && after[x] == answer(outputs, x)
        } by {
            if x == chunk[n - 1] {
                assert(chunk.take(n)[n - 1] == x);
            } else if before[x] != results[x] {
                let front = chunk.take(n - 1);
                let i = choose|i: int| 0 <= i < front.len() && front[i] == x;
                assert(chunk.take(n)[i] == x);
            }
        }
        assert forall|i: int| 0 <= i < n implies after[#[trigger] chunk[i]] == answer(
            outputs,
            chunk[i],
        ) by {
            if chunk[i] != chunk[n - 1] {
                assert(before[chunk[i]] == answer(outputs, chunk[i]));
            }
        }
    }
}

proof fn lemma_answered(outputs: Seq<BatchOutputV>, chunk: Seq<int>, from: int)
    requires
        0 <= from <= chunk.len(),
    ensures
        from <= answered(outputs, chunk, from) <= chunk.len(),
        forall|i: int|
            from <= i < answered(outputs, chunk, from) ==> answer(outputs, #[trigger] chunk[i]) is Some,
    decreases chunk.len() - from,
{
    if from < chunk.len() && answer(outputs, chunk[from]) is Some {
        lemma_answered(outputs, chunk, from + 1);
    }
}

// ---------------------------------------------------------------------------
// Execution
// ---------------------------------------------------------------------------

/// A fan-out in progress.
pub struct FanOut {
    inputs: Vec<Value>,
    results: Vec<Option<Value>>,
    pending: Vec<usize>,
    next: usize,
    batched: bool,
}

impl View for FanOut {
    type V = FanOutV;

    closed spec fn view(&self) -> FanOutV {
        FanOutV {
            inputs: values_view(self.inputs@),
            results: opt_values(self.results@),
            pending: ints(self.pending@),
            next: self.next as int,
            batched: self.batched,
        }
    }
}

/// What a fan-out does next.
pub enum FanStep {
    /// One batch call with these entries.
    Batch(Vec<BatchInput>),
    /// One call for the item with this input.
    Item(Value),
    /// Every call was made.
    Done,
}

impl DispatchOutcome {
    /// Begins a fan-out: the input for each item, or the error that the node
    /// fails with.
    pub fn begin_fan_out(&mut self, spec: &UnitSpec, member: &PreparedMember, now: u64) -> (r: Result<
        Vec<Value>,
        ToolExecutionError,
    >)
        ensures
            final(self)@ == with_trace(
                old(self)@,
                event(member@.node, spec@.tool, TraceStatus::Started, now),
            ),
            match (r, item_inputs(member@.input, items_of(member@), items_of(member@).len() as int)) {
                (Ok(v), Ok(m)) => values_view(v@) == m,
                (Err(e), Err(m)) => e@ == coded(runtime_error_text(m), "invalid_item"@),
                _ => false,
            },
    {
        self.add_event(
            TraceEvent::new(member.node.as_str(), spec.tool.as_str(), TraceStatus::Started, now),
        );
        let ghost begun = self@;
        let ghost its = items_of(member@);
        let ghost template = member@.input;
        let mut inputs: Vec<Value> = Vec::new();
        assert(values_view(inputs@) =~= Seq::empty());
        if let Some(items) = &member.items {
            assert(its == values_view(items@));
            let mut i: usize = 0;
            while i < items.len()
                invariant
                    i <= items@.len(),
                    its == values_view(items@),
                    its == items_of(member@),
                    template == member@.input,
                    self@ == begun,
                    begun == with_trace(
                        old(self)@,
                        event(member@.node, spec@.tool, TraceStatus::Started, now),
                    ),
                    item_inputs(template, its, i as int) == Ok::<Seq<Json>, RuntimeErrorV>(
                        values_view(inputs@),
                    ),
                decreases items.len() - i,
            {
                assert(its[i as int] == items@[i as int]@);
                match substitute_item(&member.input, &items[i]) {
                    Ok(input) => {
                        let ghost before = values_view(inputs@);
                        inputs.push(input);
                        assert(values_view(inputs@) =~= before.push(input@));
                    },
                    Err(e) => {
                        proof {
                            assert(item_inputs(template, its, i + 1) == Err::<Seq<Json>, RuntimeErrorV>(e@));
                            lemma_item_error(template, its, i + 1, its.len() as int);
                        }
                        return Err(ToolExecutionError::coded(e.message().as_str(), "invalid_item"));
                    },
                }
                i = i + 1;
            }
        }
        Ok(inputs)
    }

    /// Fails a fan-out node.
    pub fn fail_fan_out(
        &mut self,
        spec: &UnitSpec,
        member: &PreparedMember,
        error: ToolExecutionError,
        duration: u64,
        now: u64,
    )
        ensures
            final(self)@ == with_reply(
                old(self)@,
                member@.node,
                spec@.tool,
                Err(error@),
                duration,
                None,
                now,
            ),
    {
        self.add_reply(
            member.node.as_str(),
            spec.tool.as_str(),
            Err(error),
            duration,
            None,
            now,
        );
    }
}

impl FanOut {
    /// A fan-out over the inputs, with what the cache holds for each.
    pub fn new(
        outcome: &mut DispatchOutcome,
        member: &PreparedMember,
        inputs: Vec<Value>,
        cached: Vec<Option<Value>>,
    ) -> (r: Self)
        requires
            cached@.len() == inputs@.len(),
        ensures
            fan_wf(r@),
            r@ == ({
                let cs = opt_values(cached@);
                let pending = missing(cs, cs.len() as int);
                FanOutV {
                    inputs: values_view(inputs@),
                    results: cs,
                    pending,
                    next: 0,
                    batched: member@.batchable && pending.len() > 1,
                }
            }),
            final(outcome)@ == (OutcomeV {
                cache_hits: capped_sum(
                    old(outcome)@.cache_hits,
                    hits(opt_values(cached@), cached@.len() as int) as usize,
                ),
                ..old(outcome)@
            }),
    {
        let ghost cs = opt_values(cached@);
        let mut pending: Vec<usize> = Vec::new();
        let mut count: usize = 0;
        let mut i: usize = 0;
        assert(ints(pending@) =~= Seq::empty());
        while i < cached.len()
            invariant
                i <= cached@.len(),
                cs == opt_values(cached@),
                ints(pending@) == missing(cs, i as int),
                count <= i,
                count == hits(cs, i as int),
            decreases cached.len() - i,
        {
            assert(cs[i as int] == opt_view(cached@[i as int]));
            if cached[i].is_some() {
                count = count + 1;
            } else {
                let ghost before = ints(pending@);
                pending.push(i);
                assert(ints(pending@) =~= before.push(i as int));
            }
            i = i + 1;
        }
        outcome.cache_hits = add_capped(outcome.cache_hits, count);
        let batched = member.batchable && pending.len() > 1;
        let r = FanOut { inputs, results: cached, pending, next: 0, batched };
        proof {
            lemma_missing(cs, cs.len() as int);
            assert forall|x: int| 0 <= x < r@.results.len() && (#[trigger] r@.results[x]) is None implies awaited(
                r@,
                x,
            ) by {
                assert(cs[x] is None);
                assert(missing(cs, cs.len() as int).contains(x));
                let p = choose|p: int| 0 <= p < r@.pending.len() && r@.pending[p] == x;
                assert(r@.pending[p] == x);
            }
        }
        r
    }

    fn chunk_end(&self, batch_size: usize) -> (r: usize)
        requires
            fan_wf(self@),
        ensures
            self@.next <= r <= self@.pending.len(),
            next_chunk(self@, batch_size) == self@.pending.subrange(self@.next, r as int),
            self@.next < self@.pending.len() ==> self@.next < r,
    {
        let size: usize = if batch_size < 1 {
            1
        } else {
            batch_size
        };
        let left: usize = self.pending.len() - self.next;
        if size < left {
            self.next + size
        } else {
            self.pending.len()
        }
    }

    /// What to do next.
    pub fn step(&self, member: &PreparedMember) -> (r: FanStep)
        requires
            fan_wf(self@),
        ensures
            match r {
                FanStep::Done => self@.next == self@.pending.len(),
                FanStep::Item(v) => {
                    &&& self@.next < self@.pending.len()
                    &&& !self@.batched
                    &&& v@ == self@.inputs[self@.pending[self@.next]]
                },
                FanStep::Batch(entries) => {
                    let chunk = next_chunk(self@, member@.batch_size);
                    &&& self@.next < self@.pending.len()
                    &&& self@.batched
                    &&& views(entries@) == Seq::new(
                        chunk.len(),
                        |i: int|
                            BatchInputV {
                                node: decimal(chunk[i] as nat),
                                input: self@.inputs[chunk[i]],
                            },
                    )
                },
            },
    {
        if self.next == self.pending.len() {
            return FanStep::Done;
        }
        if !self.batched {
            let at: usize = self.pending[self.next];
            assert(self@.pending[self@.next] == at);
            assert(self@.inputs[at as int] == self.inputs@[at as int]@);
            return FanStep::Item(self.inputs[at].clone());
        }
        let ghost f = self@;
        let end = self.chunk_end(member.batch_size);
        let ghost chunk = next_chunk(f, member@.batch_size);
        let mut out: Vec<BatchInput> = Vec::new();
        let mut i: usize = self.next;
        while i < end
            invariant
                f == self@,
                fan_wf(f),
                f.next == self.next,
                self.next <= i <= end,
                end <= self.pending@.len(),
                chunk == f.pending.subrange(f.next, end as int),
                out@.len() == i - self.next,
                forall|j: int|
                    0 <= j < out@.len() ==> (#[trigger] out@[j])@ == (BatchInputV {
                        node: decimal(chunk[j] as nat),
                        input: f.inputs[chunk[j]],
                    }),
            decreases end - i,
        {
            let at: usize = self.pending[i];
            assert(f.pending[i as int] == at);
            assert(chunk[i - self.next] == at);
            assert(f.inputs[at as int] == self.inputs@[at as int]@);
            out.push(
                BatchInput { node: decimal_text(at as u64), input: self.inputs[at].clone() },
            );
            i = i + 1;
        }
        proof {
            let want = Seq::new(
                chunk.len(),
                |i: int|
                    BatchInputV { node: decimal(chunk[i] as nat), input: f.inputs[chunk[i]] },
            );
            assert(views(out@) =~= want);
        }
        FanStep::Batch(out)
    }

    /// Records the reply to a batch call, made after `retries` failed
    /// attempts. Items whose outputs came are stored even where a later one
    /// is missing.
    pub fn absorb_batch(
        &mut self,
        outcome: &mut DispatchOutcome,
        spec: &UnitSpec,
        member: &PreparedMember,
        use_cache: bool,
        reply: Result<Vec<BatchOutput>, ToolExecutionError>,
        retries: usize,
    ) -> (r: (Vec<Store>, Option<ToolExecutionError>))
        requires
            fan_wf(old(self)@),
        ensures
            final(outcome)@ == (OutcomeV {
                batch_dispatches: capped_sum(old(outcome)@.batch_dispatches, 1),
                retries: capped_sum(old(outcome)@.retries, retries),
                ..old(outcome)@
            }),
            ({
                let f = old(self)@;
                let chunk = next_chunk(f, member@.batch_size);
                match batch_reply_view(reply) {
                    Err(e) => {
                        &&& final(self)@ == f
                        &&& r.0@.len() == 0
                        &&& opt_view(r.1) == Some(e)
                    },
                    Ok(outputs) => {
                        let n = answered(outputs, chunk, 0);
                        &&& final(self)@ == (FanOutV {
                            results: with_answers(f.results, outputs, chunk, n),
                            next: f.next + n,
                            ..f
                        })
                        &&& views(r.0@) == chunk_stores(
                            member@,
                            spec@,
                            use_cache,
                            f.inputs,
                            outputs,
                            chunk,
                            n,
                        )
                        &&& opt_view(r.1) == if n < chunk.len() {
                            Some(missing_item(chunk[n]))
                        } else {
                            None
                        }
                    },
                }
            }),
            fan_wf(final(self)@),
    {
        outcome.batch_dispatches = add_capped(outcome.batch_dispatches, 1);
        outcome.retries = add_capped(outcome.retries, retries);
        let ghost f = self@;
        let ghost rv = batch_reply_view(reply);
        let ghost counted = outcome@;
        let mut stores: Vec<Store> = Vec::new();
        let outputs = match reply {
            Ok(outputs) => outputs,
            Err(e) => {
                return (stores, Some(e));
            },
        };
        let ghost os = views(outputs@);
        let ghost chunk = next_chunk(f, member@.batch_size);
        let end = self.chunk_end(member.batch_size);
        let found = outputs_by_index(&outputs, self.inputs.len());
        let start: usize = self.next;
        let mut i: usize = start;
        assert(views(stores@) =~= Seq::empty());
        proof {
            lemma_answered(os, chunk, 0);
        }
        while i < end
            invariant
                fan_wf(f),
                f == old(self)@,
                outcome@ == counted,
                counted == (OutcomeV {
                    batch_dispatches: capped_sum(old(outcome)@.batch_dispatches, 1),
                    retries: capped_sum(old(outcome)@.retries, retries),
                    ..old(outcome)@
                }),
                rv == batch_reply_view(reply),
                chunk == next_chunk(f, member@.batch_size),
                f.next == start,
                start <= i <= end,
                end <= self.pending@.len(),
                chunk == f.pending.subrange(f.next, end as int),
                self@.inputs == f.inputs,
                self@.pending == f.pending,
                self@.batched == f.batched,
                self.next == i,
                found@.len() == f.inputs.len(),
                forall|x: int| 0 <= x < found@.len() ==> opt_view(#[trigger] found@[x]) == answer(os, x),
                answered(os, chunk, 0) == answered(os, chunk, i - start),
                self@.results == with_answers(f.results, os, chunk, i - start),
                self@.results.len() == f.inputs.len(),
                views(stores@) == chunk_stores(
                    member@,
                    spec@,
                    use_cache,
                    f.inputs,
                    os,
                    chunk,
                    i - start,
                ),
                rv == Ok::<Seq<BatchOutputV>, ToolErrorV>(os),
            decreases end - i,
        {
            let at: usize = self.pending[i];
            let ghost k = i - start;
            assert(f.pending[i as int] == at);
            assert(chunk[k] == at);
            match &found[at] {
                Some(output) => {
                    assert(answer(os, at as int) == Some(output@));
                    let ghost before = views(stores@);
                    assert(f.inputs[at as int] == self.inputs@[at as int]@);
                    if let Some(store) = member.store(spec, use_cache, &self.inputs[at], output) {
                        stores.push(store);
                        assert(views(stores@) =~= before.push(store@));
                    }
                    let ghost was = self@.results;
                    self.results.set(at, Some(output.clone()));
                    self.next = i + 1;
                    assert(self@.results =~= was.update(at as int, answer(os, at as int)));
                },
                None => {
                    proof {
                        assert(answer(os, at as int) is None);
                        assert(answered(os, chunk, k) == k);
                        lemma_fan_progress(f, os, chunk, k);
                        assert(self@ =~= (FanOutV {
                            results: with_answers(f.results, os, chunk, k),
                            next: f.next + k,
                            ..f
                        }));
                    }
                    let error = ToolExecutionError::coded(
                        concat2(
                            "batch call did not return output for item ",
                            decimal_text(at as u64).as_str(),
                        ).as_str(),
                        "batch_missing_output",
                    );
                    return (stores, Some(error));
                },
            }
            i = i + 1;
        }
        proof {
            assert(answered(os, chunk, chunk.len() as int) == chunk.len());
            lemma_fan_progress(f, os, chunk, chunk.len() as int);
            assert(self@ =~= (FanOutV {
                results: with_answers(f.results, os, chunk, chunk.len() as int),
                next: f.next + chunk.len(),
                ..f
            }));
        }
        (stores, None)
    }

    /// Records the reply to the call for the next item, made after `retries`
    /// failed attempts.
    pub fn absorb_item(
        &mut self,
        outcome: &mut DispatchOutcome,
        spec: &UnitSpec,
        member: &PreparedMember,
        use_cache: bool,
        reply: Result<Value, ToolExecutionError>,
        retries: usize,
    ) -> (r: Result<Option<Store>, ToolExecutionError>)
        requires
            fan_wf(old(self)@),
            old(self)@.next < old(self)@.pending.len(),
        ensures
            final(outcome)@ == (OutcomeV {
                retries: capped_sum(old(outcome)@.retries, retries),
                ..old(outcome)@
            }),
            fan_wf(final(self)@),
            ({
                let f = old(self)@;
                let index = f.pending[f.next];
                match (r, reply) {
                    (Ok(store), Ok(v)) => {
                        &&& final(self)@ == (FanOutV {
                            results: f.results.update(index, Some(v@)),
                            next: f.next + 1,
                            ..f
                        })
                        &&& opt_view(store) == store_of(
                            member@,
                            spec@,
                            use_cache,
                            f.inputs[index],
                            v@,
                        )
                    },
                    (Err(e), Err(m)) => final(self)@ == f && e@ == item_failure(index, m@),
                    _ => false,
                }
            }),
    {
        outcome.retries = add_capped(outcome.retries, retries);
        let ghost f = self@;
        let total: usize = self.pending.len();
        let at: usize = self.pending[self.next];
        assert(f.pending[f.next] == at);
        assert(self.next < total);
        match reply {
            Ok(output) => {
                assert(f.inputs[at as int] == self.inputs@[at as int]@);
                let store = member.store(spec, use_cache, &self.inputs[at], &output);
                let ghost v = output@;
                let ghost was = self@.results;
                self.results.set(at, Some(output));
                self.next = self.next + 1;
                proof {
                    assert(self@.results =~= was.update(at as int, Some(v)));
                    assert(self@ =~= (FanOutV {
                        results: f.results.update(at as int, Some(v)),
                        next: f.next + 1,
                        ..f
                    }));
                    assert forall|x: int|
                        0 <= x < self@.results.len() && (#[trigger] self@.results[x]) is None implies awaited(
                        self@,
                        x,
                    ) by {
                        assert(f.results[x] is None);
                        assert(awaited(f, x));
                        let p = choose|p: int|
                            f.next <= p < f.pending.len() && (#[trigger] f.pending[p]) == x;
                        assert(self@.pending[p] == x);
                    }
                }
                Ok(store)
            },
            Err(error) => {
                let code: &str = match &error.code {
                    Some(code) => code.as_str(),
                    None => "item_failed",
                };
                let mut message = concat2("item ", decimal_text(at as u64).as_str());
                message.push_str(": ");
                message.push_str(error.message.as_str());
                Err(ToolExecutionError::coded(message.as_str(), code))
            },
        }
    }

    /// Records the output of the node once every call was made.
    pub fn finish(
        self,
        outcome: &mut DispatchOutcome,
        spec: &UnitSpec,
        member: &PreparedMember,
        duration: u64,
        now: u64,
    )
        ensures
            final(outcome)@ == with_reply(
                old(outcome)@,
                member@.node,
                spec@.tool,
                Ok(collected(self@.results)),
                duration,
                None,
                now,
            ),
    {
        let ghost rs = self@.results;
        let results = self.results;
        let mut out: Vec<Value> = Vec::new();
        let mut i: usize = 0;
        while i < results.len()
            invariant
                i <= results@.len(),
                rs == opt_values(results@),
                out@.len() == i,
                forall|j: int|
                    0 <= j < i ==> (#[trigger] out@[j])@ == match rs[j] {
                        Some(v) => v,
                        None => Json::Null,
                    },
            decreases results.len() - i,
        {
            assert(rs[i as int] == opt_view(results@[i as int]));
            let value = match &results[i] {
                Some(v) => v.clone(),
                None => Value::Null,
            };
            out.push(value);
            i = i + 1;
        }
        let output = Value::Array(out);
        proof {
            assert(output@ == Json::List(values_view(out@)));
            assert(values_view(out@) =~= collected(rs)->List_0);
            assert(output@ == collected(rs));
        }
        outcome.add_reply(
            member.node.as_str(),
            spec.tool.as_str(),
            Ok(output),
            duration,
            None,
            now,
        );
    }
}

/// Absorbing answers keeps a fan-out in order.
proof fn lemma_fan_progress(f: FanOutV, outputs: Seq<BatchOutputV>, chunk: Seq<int>, n: int)
    requires
        fan_wf(f),
        0 <= n <= chunk.len(),
        f.next + chunk.len() <= f.pending.len(),
        chunk == f.pending.subrange(f.next, f.next + chunk.len()),
        answered(outputs, chunk, 0) == n,
    ensures
        fan_wf(
            FanOutV {
                results: with_answers(f.results, outputs, chunk, n),
                next: f.next + n,
                ..f
            },
        ),
{
    let g = FanOutV {
        results: with_answers(f.results, outputs, chunk, n),
        next: f.next + n,
        ..f
    };
    assert forall|i: int| 0 <= i < chunk.len() implies 0 <= #[trigger] chunk[i] < f.results.len() by {
        assert(chunk[i] == f.pending[f.next + i]);
    }
    lemma_with_answers(f.results, outputs, chunk, n);
    lemma_answered(outputs, chunk, 0);
    assert forall|i: int| g.next <= i < g.pending.len() implies g.results[#[trigger] g.pending[i]] is None by {
        let x = g.pending[i];
        assert(f.results[f.pending[i]] is None);
        if g.results[x] != f.results[x] {
            let taken = chunk.take(n);
            let j = choose|j: int| 0 <= j < taken.len() && taken[j] == x;
            assert(chunk[j] == f.pending[f.next + j]);
        }
    }
    assert forall|x: int| 0 <= x < g.results.len() && (#[trigger] g.results[x]) is None implies awaited(
        g,
        x,
    ) by {
        if f.results[x] is None {
            assert(awaited(f, x));
            let p = choose|p: int| f.next <= p < f.pending.len() && (#[trigger] f.pending[p]) == x;
            if p < g.next {
                assert(chunk[p - f.next] == x);
                assert(answer(outputs, chunk[p - f.next]) is Some);
                assert(g.results[chunk[p - f.next]] == answer(outputs, chunk[p - f.next]));
            }
            assert(g.pending[p] == x);
        } else {
            assert(g.results[x] == answer(outputs, x));
            let taken = chunk.take(n);
            let j = choose|j: int| 0 <= j < taken.len() && taken[j] == x;
            assert(chunk[j] == x);
        }
    }
}

fn outputs_by_index(outputs: &Vec<BatchOutput>, size: usize) -> (r: Vec<Option<Value>>)
    ensures
        r@.len() == size,
        forall|x: int|
            0 <= x < size ==> opt_view(#[trigger] r@[x]) == answer(views(outputs@), x),
{
    let ghost os = views(outputs@);
    let mut out: Vec<Option<Value>> = Vec::new();
    let mut i: usize = 0;
    while i < size
        invariant
            i <= size,
            out@.len() == i,
            forall|x: int| 0 <= x < i ==> (#[trigger] out@[x]) is None,
        decreases size - i,
    {
        out.push(None);
        i = i + 1;
    }
    let mut k: usize = 0;
    while k < outputs.len()
        invariant
            k <= outputs@.len(),
            os == views(outputs@),
            out@.len() == size,
            forall|x: int|
                0 <= x < size ==> opt_view(#[trigger] out@[x]) == answer_for(os, x, k as int),
        decreases outputs.len() - k,
    {
        assert(os[k as int] == outputs@[k as int]@);
        let ghost before = out@;
        match parse_index(outputs[k].node.as_str()) {
            Some(at) => {
                if at < size {
                    out.set(at, Some(outputs[k].output.clone()));
                }
            },
            None => {},
        }
        proof {
            assert forall|x: int| 0 <= x < size implies opt_view(#[trigger] out@[x]) == answer_for(
                os,
                x,
                k + 1,
            ) by {
                assert(opt_view(before[x]) == answer_for(os, x, k as int));
            }
        }
        k = k + 1;
    }
    out
}

} // verus!
