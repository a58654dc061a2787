//! Run finalization: settling leftovers, resolving declared outputs, and
//! shaping the composite result.

use vstd::prelude::*;

use crate::adapters::api::{ToolErrorV, ToolExecutionError};
use crate::json::{Json, Value};
use crate::optimizer::report::OptimizationReport;
use crate::ordered::StrMap;
use crate::plan::NodeV;
use crate::refs::RefV;
use crate::runtime::config::RunConfig;
use crate::runtime::drive::Engine;
use crate::runtime::error::resolution_error;
use crate::runtime::model::{ProgramV, RunV};
use crate::runtime::resolve::resolve_value_ref;
use crate::runtime::result::{
    shape_output, Redactor, ResultMode, RunMetrics, RunResult, RunStatus, SkipReason, TraceEvent,
};
use crate::runtime::scheduler::{complete_skip, is_poisoned, is_settled};
use crate::text::concat2;

verus! {

use crate::graph::order::{distinct_ids, distinct_nodes_sort, is_sorted_nodes, sorted_nodes};
use crate::optimizer::batch::has_node;
use crate::ordered::{map_view, map_view_insert, pairs_view, sorted_pairs, sorted_position, views};
use crate::refs::node_id_error;
use crate::runtime::error::resolution_failure;
use crate::runtime::model::{after_skip, dead, program_wf, settle_reason, settled};
use crate::runtime::resolve::resolved_ref;
use crate::runtime::result::is_shaped;
use crate::runtime::upkeep::{ids_are_few, metrics_wf, run_wf};
use crate::runtime::wiring::lemma_index_sorted;

// ---------------------------------------------------------------------------
// Model
// ---------------------------------------------------------------------------

/// Why a node that was never tried is skipped.
pub open spec fn left_reason(s: RunV) -> SkipReason {
    match s.stop {
        Some(reason) => reason,
        None => SkipReason::NotRun,
    }
}

/// The state after those of the first `k` nodes that are not over were
/// skipped.
pub open spec fn accounted(p: ProgramV, s: RunV, nodes: Seq<NodeV>, k: int, now: u64) -> RunV
    decreases k,
{
    if k <= 0 {
        s
    } else {
        let before = accounted(p, s, nodes, k - 1, now);
        let id = nodes[k - 1].id;
        if settled(before, id) {
            before
        } else {
            after_skip(p, before, id, settle_reason(p, before, id, left_reason(s)), now)
        }
    }
}

/// The state in which every node is over.
pub open spec fn closed_run(p: ProgramV, s: RunV, now: u64) -> RunV {
    let nodes = sorted_nodes(p.plan.nodes);
    accounted(p, s, nodes, nodes.len() as int, now)
}

/// The values of the first `k` declared outputs that can be resolved.
pub open spec fn declared_outputs(
    outputs: Seq<(Seq<char>, RefV)>,
    values: Map<Seq<char>, Json>,
    k: int,
) -> Map<Seq<char>, Json>
    decreases k,
{
    if k <= 0 {
        Map::empty()
    } else {
        let before = declared_outputs(outputs, values, k - 1);
        match resolved_ref(outputs[k - 1].1, values) {
            Ok(v) => before.insert(outputs[k - 1].0, v),
            Err(_) => before,
        }
    }
}

/// The errors of the first `k` declared outputs that cannot be resolved
/// although their node did not fail.
pub open spec fn output_errors(outputs: Seq<(Seq<char>, RefV)>, s: RunV, k: int) -> Seq<
    (Seq<char>, ToolErrorV),
>
    decreases k,
{
    if k <= 0 {
        Seq::empty()
    } else {
        let before = output_errors(outputs, s, k - 1);
        let (name, target) = outputs[k - 1];
        match resolved_ref(target, s.outputs) {
            Ok(_) => before,
            Err(e) => if dead(s, target.node) {
                before
            } else {
                before.push(
                    (
                        "outputs."@ + name,
                        ToolErrorV { code: Some("unresolved_output"@), ..resolution_failure(e) },
                    ),
                )
            },
        }
    }
}

/// The map with the first `k` entries of the list stored in order.
pub open spec fn stored<T>(m: Map<Seq<char>, T>, list: Seq<(Seq<char>, T)>, k: int) -> Map<
    Seq<char>,
    T,
>
    decreases k,
{
    if k <= 0 {
        m
    } else {
        stored(m, list, k - 1).insert(list[k - 1].0, list[k - 1].1)
    }
}

/// The failures that a run reports: those of its nodes and those of outputs.
pub open spec fn reported_errors(outputs: Seq<(Seq<char>, RefV)>, s: RunV) -> Map<
    Seq<char>,
    ToolErrorV,
> {
    let list = output_errors(outputs, s, outputs.len() as int);
    stored(s.errors, list, list.len() as int)
}

/// The verdict on a run.
pub open spec fn run_status(
    stop: Option<SkipReason>,
    errors: Map<Seq<char>, ToolErrorV>,
) -> RunStatus {
    if stop == Some(SkipReason::Cancelled) {
        RunStatus::Cancelled
    } else if errors == Map::<Seq<char>, ToolErrorV>::empty() {
        RunStatus::Success
    } else {
        RunStatus::Failed
    }
}

/// `shown` shows each of the values, redacted and within the byte budget.
pub open spec fn shows<R: Redactor>(
    values: Map<Seq<char>, Json>,
    redactor: Option<&R>,
    max_output_bytes: Option<usize>,
    shown: Map<Seq<char>, Json>,
) -> bool {
    &&& shown.dom() == values.dom()
    &&& forall|k: Seq<char>| #[trigger]
        values.dom().contains(k) ==> is_shaped(k, values[k], redactor, max_output_bytes, shown[k])
}

/// `r` is the result of a run that ended in the state `s`.
pub open spec fn is_result<R: Redactor>(
    p: ProgramV,
    s: RunV,
    redactor: Option<&R>,
    wall_ms: u64,
    r: RunResult,
) -> bool {
    let declared = declared_outputs(p.plan.outputs, s.outputs, p.plan.outputs.len() as int);
    let full = p.config.result_mode == ResultMode::Full;
    &&& r.status == run_status(s.stop, reported_errors(p.plan.outputs, s))
    &&& shows(declared, redactor, p.config.max_output_bytes, map_view(r.outputs))
    &&& if full {
        shows(s.outputs, redactor, p.config.max_output_bytes, map_view(r.node_outputs))
    } else {
        map_view(r.node_outputs) == Map::<Seq<char>, Json>::empty()
    }
    &&& map_view(r.errors) == reported_errors(p.plan.outputs, s)
    &&& map_view(r.skipped) == s.skipped
    &&& views(r.trace@) == if full {
        s.trace
    } else {
        Seq::empty()
    }
    &&& r.metrics == (RunMetrics { wall_ms, ..s.metrics })
}

// ---------------------------------------------------------------------------
// Laws
// ---------------------------------------------------------------------------

/// The part of the invariant of a run that counts nodes.
pub open spec fn books_wf(p: ProgramV, s: RunV) -> bool {
    &&& metrics_wf(p, s)
    &&& forall|id: Seq<char>| #[trigger] settled(s, id) ==> has_node(p.plan.nodes, id)
    &&& s.outputs.dom().disjoint(s.errors.dom())
    &&& s.outputs.dom().disjoint(s.skipped.dom())
    &&& s.errors.dom().disjoint(s.skipped.dom())
}

proof fn lemma_skip_keeps_books(
    p: ProgramV,
    s: RunV,
    id: Seq<char>,
    reason: SkipReason,
    now: u64,
)
    requires
        program_wf(p),
        books_wf(p, s),
        has_node(p.plan.nodes, id),
        !settled(s, id),
    ensures
        s.metrics.nodes_skipped < p.plan.nodes.len(),
        books_wf(p, after_skip(p, s, id, reason, now)),
{
    let t = after_skip(p, s, id, reason, now);
    let more = s.skipped.dom().insert(id);
    assert(t.skipped.dom() =~= more);
    assert forall|x: Seq<char>| #[trigger] more.contains(x) implies has_node(p.plan.nodes, x) by {
        if x != id {
            assert(settled(s, x));
        }
    }
    ids_are_few(p.plan.nodes, more);
    assert forall|x: Seq<char>| #[trigger] settled(t, x) implies has_node(p.plan.nodes, x) by {
        if x != id {
            assert(settled(s, x));
        }
    }
}

/// When a run is closed every node is over, in exactly one way; what was
/// over before stays as it was.
pub proof fn every_node_is_accounted_for(p: ProgramV, s: RunV, nodes: Seq<NodeV>, k: int, now: u64)
    requires
        program_wf(p),
        books_wf(p, s),
        0 <= k <= nodes.len(),
        forall|i: int| 0 <= i < nodes.len() ==> has_node(p.plan.nodes, (#[trigger] nodes[i]).id),
    ensures
        books_wf(p, accounted(p, s, nodes, k, now)),
        accounted(p, s, nodes, k, now).outputs == s.outputs,
        accounted(p, s, nodes, k, now).errors == s.errors,
        accounted(p, s, nodes, k, now).stop == s.stop,
        forall|id: Seq<char>| #[trigger]
            settled(s, id) ==> settled(accounted(p, s, nodes, k, now), id),
        forall|i: int|
            0 <= i < k ==> settled(accounted(p, s, nodes, k, now), (#[trigger] nodes[i]).id),
    decreases k,
{
    if k > 0 {
        every_node_is_accounted_for(p, s, nodes, k - 1, now);
        let before = accounted(p, s, nodes, k - 1, now);
        let after = accounted(p, s, nodes, k, now);
        let id = nodes[k - 1].id;
        if !settled(before, id) {
            assert(has_node(p.plan.nodes, id));
            lemma_skip_keeps_books(
                p,
                before,
                id,
                settle_reason(p, before, id, left_reason(s)),
                now,
            );
        }
        assert forall|x: Seq<char>| #[trigger] settled(before, x) implies settled(after, x) by {}
        assert forall|i: int| 0 <= i < k implies settled(after, (#[trigger] nodes[i]).id) by {
            if i < k - 1 {
                assert(settled(before, nodes[i].id));
            }
        }
    }
}

/// Sorting brings in no other nodes.
proof fn lemma_sorted_are_nodes(nodes: Seq<NodeV>)
    requires
        distinct_ids(nodes),
    ensures
        is_sorted_nodes(nodes, sorted_nodes(nodes)),
        forall|i: int|
            0 <= i < nodes.len() ==> has_node(nodes, (#[trigger] sorted_nodes(nodes)[i]).id),
{
    distinct_nodes_sort(nodes);
    let s = sorted_nodes(nodes);
    assert forall|i: int| 0 <= i < s.len() implies has_node(nodes, (#[trigger] s[i]).id) by {
        assert(s.contains(s[i]));
        let k = choose|k: int| 0 <= k < nodes.len() && nodes[k] == s[i];
        assert(nodes[k].id == s[i].id);
    }
}

/// The metrics of a closed run add up: every node of the plan succeeded,
/// failed or was skipped, and is counted once.
pub proof fn metrics_add_up(p: ProgramV, s: RunV, now: u64)
    requires
        run_wf(p, s),
    ensures
        ({
            let end = closed_run(p, s, now);
            &&& forall|id: Seq<char>| #[trigger] has_node(p.plan.nodes, id) <==> settled(end, id)
            &&& end.metrics.nodes_succeeded + end.metrics.nodes_failed + end.metrics.nodes_skipped
                == end.metrics.nodes_total
        }),
{
    let nodes = sorted_nodes(p.plan.nodes);
    let end = closed_run(p, s, now);
    assert(books_wf(p, s));
    lemma_sorted_are_nodes(p.plan.nodes);
    every_node_is_accounted_for(p, s, nodes, nodes.len() as int, now);
    assert forall|id: Seq<char>| has_node(p.plan.nodes, id) implies #[trigger] settled(end, id) by {
        let k = choose|k: int| 0 <= k < p.plan.nodes.len() && (#[trigger] p.plan.nodes[k]).id == id;
        assert(p.plan.nodes.contains(p.plan.nodes[k]));
        assert(nodes.contains(p.plan.nodes[k]));
        let i = choose|i: int| 0 <= i < nodes.len() && nodes[i] == p.plan.nodes[k];
        assert(settled(end, nodes[i].id));
    }
    let all = end.outputs.dom().union(end.errors.dom()).union(end.skipped.dom());
    let names = Seq::new(p.plan.nodes.len(), |i: int| p.plan.nodes[i].id);
    assert(names.no_duplicates()) by {
        assert forall|i: int, j: int| 0 <= i < names.len() && 0 <= j < names.len() && i != j implies names[i]
            != names[j] by {
            if i < j {
                assert(p.plan.nodes[i].id != p.plan.nodes[j].id);
            } else {
                assert(p.plan.nodes[j].id != p.plan.nodes[i].id);
            }
        }
    }
    assert forall|id: Seq<char>| #[trigger] all.contains(id) <==> names.to_set().contains(id) by {
        assert(all.contains(id) <==> settled(end, id));
        if has_node(p.plan.nodes, id) {
            let k = choose|k: int|
                0 <= k < p.plan.nodes.len() && (#[trigger] p.plan.nodes[k]).id == id;
            assert(names[k] == id);
        }
        if names.contains(id) {
            let k = choose|k: int| 0 <= k < names.len() && names[k] == id;
            assert(p.plan.nodes[k].id == id);
        }
    }
    assert(all =~= names.to_set());
    names.unique_seq_to_set();
    vstd::set_lib::lemma_set_disjoint_lens(end.outputs.dom(), end.errors.dom());
    vstd::set_lib::lemma_set_disjoint_lens(
        end.outputs.dom().union(end.errors.dom()),
        end.skipped.dom(),
    );
}

/// Every node is a key of exactly one of the three maps of the result.
pub open spec fn places_each_node_once(nodes: Seq<NodeV>, r: RunResult) -> bool {
    forall|id: Seq<char>| #[trigger]
        has_node(nodes, id) ==> exactly_one(
            map_view(r.node_outputs).dom().contains(id),
            map_view(r.errors).dom().contains(id),
            map_view(r.skipped).dom().contains(id),
        )
}

/// One of the three holds, and no other.
pub open spec fn exactly_one(a: bool, b: bool, c: bool) -> bool {
    ||| a && !b && !c
    ||| !a && b && !c
    ||| !a && !b && c
}

/// The key of an error that is about a declared output.
pub open spec fn is_output_key(outputs: Seq<(Seq<char>, RefV)>, key: Seq<char>) -> bool {
    exists|i: int| 0 <= i < outputs.len() && key == "outputs."@ + (#[trigger] outputs[i]).0
}

/// The name of a declared output whose value can be resolved.
pub open spec fn resolves(
    outputs: Seq<(Seq<char>, RefV)>,
    values: Map<Seq<char>, Json>,
    name: Seq<char>,
) -> bool {
    exists|i: int|
        0 <= i < outputs.len() && (#[trigger] outputs[i]).0 == name && resolved_ref(
            outputs[i].1,
            values,
        ) is Ok
}

proof fn lemma_output_keys(outputs: Seq<(Seq<char>, RefV)>, s: RunV, k: int, x: int)
    requires
        0 <= k <= outputs.len(),
        0 <= x < output_errors(outputs, s, k).len(),
    ensures
        is_output_key(outputs, output_errors(outputs, s, k)[x].0),
    decreases k,
{
    let before = output_errors(outputs, s, k - 1);
    if x < before.len() {
        lemma_output_keys(outputs, s, k - 1, x);
    } else {
        assert(output_errors(outputs, s, k)[x].0 == "outputs."@ + outputs[k - 1].0);
    }
}

proof fn lemma_stored_keys<T>(m: Map<Seq<char>, T>, list: Seq<(Seq<char>, T)>, k: int, key: Seq<char>)
    requires
        0 <= k <= list.len(),
    ensures
        m.dom().contains(key) ==> stored(m, list, k).dom().contains(key),
        stored(m, list, k).dom().contains(key) && !m.dom().contains(key) ==> exists|x: int|
            0 <= x < k && (#[trigger] list[x]).0 == key,
    decreases k,
{
    if k > 0 {
        lemma_stored_keys(m, list, k - 1, key);
        if stored(m, list, k).dom().contains(key) && !m.dom().contains(key) && list[k - 1].0 != key {
            let x = choose|x: int| 0 <= x < k - 1 && (#[trigger] list[x]).0 == key;
            assert(list[x].0 == key);
        }
    }
}

proof fn lemma_declared_names(
    outputs: Seq<(Seq<char>, RefV)>,
    values: Map<Seq<char>, Json>,
    k: int,
    name: Seq<char>,
)
    requires
        0 <= k <= outputs.len(),
    ensures
        declared_outputs(outputs, values, k).dom().contains(name) <==> exists|i: int|
            0 <= i < k && (#[trigger] outputs[i]).0 == name && resolved_ref(outputs[i].1, values) is Ok,
    decreases k,
{
    if k > 0 {
        lemma_declared_names(outputs, values, k - 1, name);
        let before = declared_outputs(outputs, values, k - 1);
        if before.dom().contains(name) {
            let i = choose|i: int|
                0 <= i < k - 1 && (#[trigger] outputs[i]).0 == name && resolved_ref(
                    outputs[i].1,
                    values,
                ) is Ok;
            assert(outputs[i].0 == name);
        }
        assert(outputs[k - 1].0 == outputs[k - 1].0);
    }
}

/// The errors of outputs leave those of nodes as they are: their keys hold a
/// dot, which no node id does.
proof fn lemma_reported_keys(p: ProgramV, s: RunV, key: Seq<char>)
    requires
        program_wf(p),
        books_wf(p, s),
    ensures
        has_node(p.plan.nodes, key) ==> (reported_errors(p.plan.outputs, s).dom().contains(key)
            <==> s.errors.dom().contains(key)),
        reported_errors(p.plan.outputs, s).dom().contains(key) ==> has_node(p.plan.nodes, key)
            || is_output_key(p.plan.outputs, key),
{
    let outs = p.plan.outputs;
    let list = output_errors(outs, s, outs.len() as int);
    lemma_stored_keys(s.errors, list, list.len() as int, key);
    if s.errors.dom().contains(key) {
        assert(settled(s, key));
    } else if reported_errors(outs, s).dom().contains(key) {
        let x = choose|x: int| 0 <= x < list.len() && (#[trigger] list[x]).0 == key;
        lemma_output_keys(outs, s, outs.len() as int, x);
        if has_node(p.plan.nodes, key) {
            let k = choose|k: int| 0 <= k < p.plan.nodes.len() && (#[trigger] p.plan.nodes[k]).id == key;
            let i = choose|i: int| 0 <= i < outs.len() && key == "outputs."@ + (#[trigger] outs[i]).0;
            reveal_strlit("outputs.");
            assert(key[7] == '.');
            assert(key.contains('.'));
            assert(node_id_error(p.plan.nodes[k].id) is None);
        }
    }
}

/// A full result has every node of the plan as a key of exactly one of its
/// outputs, errors and skipped nodes; whatever else stands among the errors
/// is about a declared output. Its outputs are the declared ones that can be
/// resolved. The run counts as cancelled exactly when a cancellation stopped
/// it, and otherwise as a success exactly when there is no error. A compact
/// result has neither node outputs nor a trace.
pub proof fn results_account_for_every_node<R: Redactor>(
    p: ProgramV,
    s: RunV,
    redactor: Option<&R>,
    wall_ms: u64,
    now: u64,
    r: RunResult,
)
    requires
        run_wf(p, s),
        is_result(p, closed_run(p, s, now), redactor, wall_ms, r),
    ensures
        p.config.result_mode == ResultMode::Full ==> places_each_node_once(p.plan.nodes, r),
        forall|key: Seq<char>| #[trigger]
            map_view(r.errors).dom().contains(key) ==> has_node(p.plan.nodes, key) || is_output_key(
                p.plan.outputs,
                key,
            ),
        forall|name: Seq<char>| #[trigger]
            map_view(r.outputs).dom().contains(name) <==> resolves(p.plan.outputs, s.outputs, name),
        r.status == RunStatus::Cancelled <==> s.stop == Some(SkipReason::Cancelled),
        r.status == RunStatus::Success <==> s.stop != Some(SkipReason::Cancelled) && map_view(
            r.errors,
        ) == Map::<Seq<char>, ToolErrorV>::empty(),
        p.config.result_mode == ResultMode::Compact ==> map_view(r.node_outputs) == Map::<
            Seq<char>,
            Json,
        >::empty() && r.trace@.len() == 0,
{
    let end = closed_run(p, s, now);
    let nodes = sorted_nodes(p.plan.nodes);
    let outs = p.plan.outputs;
    metrics_add_up(p, s, now);
    lemma_sorted_are_nodes(p.plan.nodes);
    every_node_is_accounted_for(p, s, nodes, nodes.len() as int, now);
    assert forall|key: Seq<char>| #[trigger] map_view(r.errors).dom().contains(key) implies has_node(
        p.plan.nodes,
        key,
    ) || is_output_key(outs, key) by {
        lemma_reported_keys(p, end, key);
    }
    assert forall|name: Seq<char>| #[trigger]
        map_view(r.outputs).dom().contains(name) <==> resolves(outs, s.outputs, name) by {
        lemma_declared_names(outs, s.outputs, outs.len() as int, name);
    }
    if p.config.result_mode == ResultMode::Full {
        assert forall|id: Seq<char>| #[trigger] has_node(p.plan.nodes, id) implies exactly_one(
            map_view(r.node_outputs).dom().contains(id),
            map_view(r.errors).dom().contains(id),
            map_view(r.skipped).dom().contains(id),
        ) by {
            lemma_reported_keys(p, end, id);
            assert(settled(end, id));
        }
    } else {
        assert(views(r.trace@).len() == r.trace@.len());
    }
}

/// Of a run that ended in one state, a compact result tells what a full one
/// tells but for node outputs and trace: status, errors, skipped nodes and
/// metrics are the same, and the same outputs are shown, by the same rule.
pub proof fn compact_results_only_drop_detail<R: Redactor>(
    p: ProgramV,
    q: ProgramV,
    s: RunV,
    redactor: Option<&R>,
    wall_ms: u64,
    full: RunResult,
    compact: RunResult,
)
    requires
        p.config.result_mode == ResultMode::Full,
        q == (ProgramV {
            config: RunConfig { result_mode: ResultMode::Compact, ..p.config },
            ..p
        }),
        is_result(p, s, redactor, wall_ms, full),
        is_result(q, s, redactor, wall_ms, compact),
    ensures
        compact.status == full.status,
        map_view(compact.errors) == map_view(full.errors),
        map_view(compact.skipped) == map_view(full.skipped),
        compact.metrics == full.metrics,
        map_view(compact.outputs).dom() == map_view(full.outputs).dom(),
        shows(
            declared_outputs(p.plan.outputs, s.outputs, p.plan.outputs.len() as int),
            redactor,
            p.config.max_output_bytes,
            map_view(compact.outputs),
        ),
        map_view(compact.node_outputs) == Map::<Seq<char>, Json>::empty(),
        compact.trace@.len() == 0,
{
    assert(views(compact.trace@).len() == compact.trace@.len());
}

// ---------------------------------------------------------------------------
// Finishing
// ---------------------------------------------------------------------------

/// What is shown of the values.
fn shape_outputs<R: Redactor>(
    values: &StrMap<Value>,
    redactor: Option<&R>,
    max_output_bytes: Option<usize>,
) -> (r: StrMap<Value>)
    ensures
        shows(map_view(*values), redactor, max_output_bytes, map_view(r)),
{
    let ghost raw = map_view(*values);
    let mut out: StrMap<Value> = StrMap::new();
    values.prove_sorted();
    let mut i: usize = 0;
    while i < values.len()
        invariant
            i <= values.pairs().len(),
            sorted_pairs(values.pairs()),
            raw == map_view(*values),
            forall|k: Seq<char>| #[trigger]
                out@.dom().contains(k) <==> exists|j: int|
                    0 <= j < i && (#[trigger] values.pairs()[j]).0 == k,
            forall|k: Seq<char>| #[trigger]
                out@.dom().contains(k) ==> is_shaped(
                    k,
                    raw[k],
                    redactor,
                    max_output_bytes,
                    out@[k]@,
                ),
        decreases values.pairs().len() - i,
    {
        let name = values.key_at(i);
        let value = values.value_at(i).clone();
        proof {
            sorted_position(values.pairs(), i as int);
            assert(raw[name@] == value@);
        }
        let shaped = shape_output(name, value, redactor, max_output_bytes);
        let ghost before = out@;
        out.insert(name.to_owned(), shaped);
        proof {
            assert forall|k: Seq<char>| #[trigger] out@.dom().contains(k) <==> exists|j: int|
                0 <= j < i + 1 && (#[trigger] values.pairs()[j]).0 == k by {
                if before.dom().contains(k) {
                    let j = choose|j: int| 0 <= j < i && (#[trigger] values.pairs()[j]).0 == k;
                    assert(values.pairs()[j].0 == k);
                }
                assert(values.pairs()[i as int].0 == name@);
            }
        }
        i = i + 1;
    }
    assert(map_view(out).dom() =~= raw.dom());
    out
}

impl Engine {
    /// Closes the run: accounts for nodes that never reached any queue,
    /// resolves the declared outputs, and shapes the result. `now` is the
    /// time of the events this records, `wall_ms` how long the run took.
    pub fn finish<R: Redactor>(
        self,
        optimization: OptimizationReport,
        redactor: Option<&R>,
        wall_ms: u64,
        now: u64,
    ) -> (r: RunResult)
        requires
            self.wf(),
        ensures
            is_result(
                self.program@,
                closed_run(self.program@, self@, now),
                redactor,
                wall_ms,
                r,
            ),
            r.optimization == optimization,
            self.program@.config.result_mode == ResultMode::Full ==> places_each_node_once(
                self.program@.plan.nodes,
                r,
            ),
    {
        let ghost pv = self.program@;
        let ghost s0 = self.state@;
        let program = self.program;
        let mut state = self.state;
        let ghost nodes = sorted_nodes(pv.plan.nodes);
        program.node_index.prove_sorted();
        proof {
            assert forall|id: Seq<char>| #[trigger] program.node_index@.dom().contains(id) implies program.plan.nodes@[program.node_index@[id] as int]@.id
                == id by {
                assert(has_node(pv.plan.nodes, id));
            }
            lemma_index_sorted(program.plan.nodes@, program.node_index);
            assert forall|i: int| 0 <= i < nodes.len() implies has_node(
                pv.plan.nodes,
                (#[trigger] nodes[i]).id,
            ) by {
                let at = program.node_index.pairs()[i].1 as int;
                assert(pv.plan.nodes[at] == nodes[i]);
            }
            assert(books_wf(pv, s0));
        }
        let mut i: usize = 0;
        while i < program.node_index.len()
            invariant
                program.wf(),
                pv == program@,
                nodes == sorted_nodes(pv.plan.nodes),
                program.node_index.pairs().len() == nodes.len(),
                forall|i: int|
                    0 <= i < nodes.len() ==> (#[trigger] nodes[i]).id
                        == program.node_index.pairs()[i].0,
                forall|i: int|
                    0 <= i < nodes.len() ==> has_node(pv.plan.nodes, (#[trigger] nodes[i]).id),
                i <= nodes.len(),
                books_wf(pv, s0),
                state@ == accounted(pv, s0, nodes, i as int, now),
            decreases nodes.len() - i,
        {
            let id = program.node_index.key_at(i);
            assert(id@ == nodes[i as int].id);
            proof {
                every_node_is_accounted_for(pv, s0, nodes, i as int, now);
            }
            if !is_settled(&state, id) {
                let reason = if is_poisoned(&program, &state, id) {
                    SkipReason::FailedDependency
                } else {
                    match state.stop {
                        Some(reason) => reason,
                        None => SkipReason::NotRun,
                    }
                };
                proof {
                    lemma_skip_keeps_books(pv, state@, id@, reason, now);
                }
                complete_skip(&program, &mut state, id, reason, now);
            }
            i = i + 1;
        }
        let ghost end = state@;
        assert(end == closed_run(pv, s0, now));
        let ghost outs = pv.plan.outputs;
        let mut declared: StrMap<Value> = StrMap::new();
        let mut failed: Vec<(String, ToolExecutionError)> = Vec::new();
        let mut k: usize = 0;
        assert(map_view(declared) =~= Map::empty());
        assert(failures(failed@) =~= Seq::empty());
        while k < program.plan.outputs.len()
            invariant
                k <= outs.len(),
                outs == pairs_view(program.plan.outputs),
                end == state@,
                map_view(declared) == declared_outputs(outs, end.outputs, k as int),
                failures(failed@) == output_errors(outs, end, k as int),
            decreases outs.len() - k,
        {
            let name = program.plan.outputs.key_at(k);
            let target = program.plan.outputs.value_at(k);
            assert(outs[k as int] == (name@, target@));
            match resolve_value_ref(target, &state.outputs) {
                Ok(value) => {
                    let ghost before = declared;
                    let ghost v = value;
                    declared.insert(name.to_owned(), value);
                    proof {
                        map_view_insert(before, declared, name@, v);
                    }
                },
                Err(error) => {
                    let node = target.node();
                    if !(state.errors.contains_key(node) || state.skipped.contains_key(node)) {
                        let error = resolution_error(error).with_code("unresolved_output");
                        let ghost before = failures(failed@);
                        failed.push((concat2("outputs.", name), error));
                        assert(failures(failed@) =~= before.push(("outputs."@ + name@, error@)));
                    }
                },
            }
            k = k + 1;
        }
        let mut errors = state.errors;
        let ghost list = failures(failed@);
        let mut j: usize = 0;
        while j < failed.len()
            invariant
                j <= failed@.len(),
                list == failures(failed@),
                map_view(errors) == stored(end.errors, list, j as int),
            decreases failed.len() - j,
        {
            let ghost before = errors;
            let error = failed[j].1.clone();
            errors.insert(failed[j].0.clone(), error);
            proof {
                map_view_insert(before, errors, list[j as int].0, error);
            }
            j = j + 1;
        }
        let max_bytes = program.config.max_output_bytes;
        let outputs = shape_outputs(&declared, redactor, max_bytes);
        let full = program.config.result_mode == ResultMode::Full;
        let node_outputs = if full {
            shape_outputs(&state.outputs, redactor, max_bytes)
        } else {
            StrMap::new()
        };
        let trace: Vec<TraceEvent> = if full {
            state.trace
        } else {
            Vec::new()
        };
        let mut metrics = state.metrics;
        metrics.wall_ms = wall_ms;
        let clean = errors.is_empty();
        errors.prove_sorted();
        proof {
            let shown = map_view(errors);
            if clean {
                assert(shown =~= Map::empty());
            } else {
                sorted_position(errors.pairs(), 0);
                assert(shown.dom().contains(errors.pairs()[0].0));
            }
            if !full {
                assert(map_view(node_outputs) =~= Map::empty());
                assert(views(trace@) =~= Seq::empty());
            }
        }
        let status = match state.stop {
            Some(SkipReason::Cancelled) => RunStatus::Cancelled,
            _ => if clean {
                RunStatus::Success
            } else {
                RunStatus::Failed
            },
        };
        let result = RunResult {
            status,
            outputs,
            node_outputs,
            errors,
            skipped: state.skipped,
            trace,
            optimization,
            metrics,
        };
        proof {
            results_account_for_every_node(pv, s0, redactor, wall_ms, now, result);
        }
        result
    }
}

/// The views of named failures.
spec fn failures(s: Seq<(String, ToolExecutionError)>) -> Seq<(Seq<char>, ToolErrorV)> {
    Seq::new(s.len(), |i: int| (s[i].0@, s[i].1@))
}

} // verus!
