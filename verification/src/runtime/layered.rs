//! Layer-at-a-time execution: every layer of a plan is prepared as a whole,
//! its calls run beside each other, and the next layer starts when all of
//! them are over. A failed call ends the run.

use vstd::prelude::*;

use crate::adapters::api::{BatchOutput, BatchOutputV, ToolErrorV, ToolExecutionError};
use crate::canonical::canonical_json_string;
use crate::json::{Json, Value};
use crate::optimizer::batch::{push_chunks, BatchV};
use crate::optimizer::report::BatchGroup;
use crate::ordered::{StrMap, StrSet};
use crate::plan::{Node, NodeV, Plan, PlanV, ToolLimits, ToolSpecV};
use crate::refs::RefV;
use crate::runtime::cache::{CacheKey, CacheKeyV};
use crate::runtime::calls::outputs_by_node;
use crate::runtime::error::{RuntimeError, RuntimeErrorV};
use crate::runtime::registry::ToolRegistry;
use crate::runtime::resolve::{resolve_input, resolve_value_ref};
use crate::runtime::result::{EventV, TraceEvent, TraceStatus};
use crate::text::same_text;

verus! {

use crate::canonical::canonical;
use crate::optimizer::batch::{chunk_groups, chunk_size, has_node, node_named};
use crate::ordered::{
    has_key, lookup, map_view, map_view_insert, opt_view, pairs_view, pairs_view_lookup, views,
};
use crate::runtime::calls::{batch_reply_view, by_node, opt_values};
use crate::runtime::resolve::{resolved, resolved_ref};
use crate::runtime::result::event;
use crate::text::texts_view;

// ---------------------------------------------------------------------------
// Concurrency and groups of a layer
// ---------------------------------------------------------------------------

/// The limits of a tool.
pub open spec fn limits_of(tools: Seq<(Seq<char>, ToolSpecV)>, tool: Seq<char>) -> Option<ToolLimits> {
    match lookup(tools, tool) {
        Some(spec) => spec.limits,
        None => None,
    }
}

/// How many calls of the node's tool may run at once.
pub open spec fn node_limit(plan: PlanV, id: Seq<char>) -> Option<usize> {
    if has_node(plan.nodes, id) {
        match limits_of(plan.tools, node_named(plan.nodes, id).tool) {
            Some(l) => l.max_concurrency,
            None => None,
        }
    } else {
        None
    }
}

/// The least limit among the first `k` nodes of the layer.
pub open spec fn least_limit(plan: PlanV, layer: Seq<Seq<char>>, k: int) -> Option<usize>
    decreases k,
{
    if k <= 0 {
        None
    } else {
        match (least_limit(plan, layer, k - 1), node_limit(plan, layer[k - 1])) {
            (Some(a), Some(b)) => Some(if a <= b {
                a
            } else {
                b
            }),
            (None, b) => b,
            (a, None) => a,
        }
    }
}

/// How many calls of a layer run beside each other.
pub open spec fn layer_permits(plan: PlanV, layer: Seq<Seq<char>>) -> nat {
    let n = match least_limit(plan, layer, layer.len() as int) {
        Some(l) => l as nat,
        None => layer.len(),
    };
    if n < 1 {
        1
    } else {
        n
    }
}

/// Every member of the group stands in the layer.
pub open spec fn within_layer(g: BatchV, layer: Seq<Seq<char>>) -> bool {
    forall|i: int| 0 <= i < g.nodes.len() ==> layer.contains(#[trigger] g.nodes[i])
}

/// The group cut into dispatches of the size that the tool takes.
pub open spec fn split_group(plan: PlanV, g: BatchV) -> Seq<BatchV> {
    chunk_groups(
        g.adapter,
        g.tool,
        g.nodes,
        chunk_size(limits_of(plan.tools, g.tool), g.nodes.len()),
    )
}

/// The dispatches of the first `k` groups in the layer.
pub open spec fn groups_in(plan: PlanV, groups: Seq<BatchV>, layer: Seq<Seq<char>>, k: int) -> Seq<BatchV>
    decreases k,
{
    if k <= 0 {
        Seq::empty()
    } else {
        let before = groups_in(plan, groups, layer, k - 1);
        if within_layer(groups[k - 1], layer) {
            before + split_group(plan, groups[k - 1])
        } else {
            before
        }
    }
}

fn tool_limits(plan: &Plan, tool: &str) -> (r: Option<ToolLimits>)
    ensures
        r == limits_of(plan@.tools, tool@),
{
    plan.tools.prove_sorted();
    proof {
        pairs_view_lookup(plan.tools, tool@);
    }
    match plan.tools.get(tool) {
        Some(spec) => spec.limits,
        None => None,
    }
}

fn find_node<'a>(plan: &'a Plan, index: &StrMap<usize>, id: &str) -> (r: Option<&'a Node>)
    requires
        indexes(*index, plan.nodes@),
    ensures
        match r {
            Some(n) => has_node(plan@.nodes, id@) && n@ == node_named(plan@.nodes, id@),
            None => !has_node(plan@.nodes, id@),
        },
{
    match index.get(id) {
        Some(at) => {
            assert(index@.dom().contains(id@));
            Some(&plan.nodes[*at])
        },
        None => None,
    }
}

/// The index says where each node stands.
pub open spec fn indexes(index: StrMap<usize>, nodes: Seq<Node>) -> bool {
    &&& forall|id: Seq<char>| #[trigger] index@.dom().contains(id) <==> has_node(views(nodes), id)
    &&& forall|id: Seq<char>| #[trigger]
        index@.dom().contains(id) ==> index@[id] < nodes.len() && nodes[index@[id] as int]@
            == node_named(views(nodes), id)
}

/// The least of the limits that the tools of a layer declare.
pub fn layer_max_concurrency(plan: &Plan, index: &StrMap<usize>, layer: &Vec<String>) -> (r: Option<
    usize,
>)
    requires
        indexes(*index, plan.nodes@),
    ensures
        r == least_limit(plan@, texts_view(layer@), layer@.len() as int),
{
    let ghost ids = texts_view(layer@);
    let mut least: Option<usize> = None;
    let mut i: usize = 0;
    while i < layer.len()
        invariant
            i <= layer@.len(),
            ids == texts_view(layer@),
            indexes(*index, plan.nodes@),
            least == least_limit(plan@, ids, i as int),
        decreases layer.len() - i,
    {
        assert(ids[i as int] == layer@[i as int]@);
        let own: Option<usize> = match find_node(plan, index, layer[i].as_str()) {
            Some(node) => match tool_limits(plan, node.tool.as_str()) {
                Some(limits) => limits.max_concurrency,
                None => None,
            },
            None => None,
        };
        least = match (least, own) {
            (Some(a), Some(b)) => Some(
                if a <= b {
                    a
                } else {
                    b
                },
            ),
            (None, b) => b,
            (a, None) => a,
        };
        i = i + 1;
    }
    least
}

fn is_within(group: &BatchGroup, layer: &StrSet, Ghost(ids): Ghost<Seq<Seq<char>>>) -> (r: bool)
    requires
        layer@ == ids.to_set(),
    ensures
        r == within_layer(group@, ids),
{
    let ghost g = group@;
    let mut i: usize = 0;
    while i < group.nodes.len()
        invariant
            i <= group.nodes@.len(),
            g == group@,
            layer@ == ids.to_set(),
            forall|j: int| 0 <= j < i ==> ids.contains(#[trigger] g.nodes[j]),
        decreases group.nodes.len() - i,
    {
        assert(g.nodes[i as int] == group.nodes@[i as int]@);
        if !layer.contains(group.nodes[i].as_str()) {
            assert(!ids.contains(g.nodes[i as int]));
            return false;
        }
        i = i + 1;
    }
    true
}

fn set_of(texts: &Vec<String>) -> (r: StrSet)
    ensures
        r@ == texts_view(texts@).to_set(),
{
    let ghost ids = texts_view(texts@);
    let mut out = StrSet::new();
    let mut i: usize = 0;
    assert(ids.take(0).to_set() =~= Set::empty());
    while i < texts.len()
        invariant
            i <= texts@.len(),
            ids == texts_view(texts@),
            out@ == ids.take(i as int).to_set(),
        decreases texts.len() - i,
    {
        out.insert(texts[i].clone());
        proof {
            crate::runtime::wiring::lemma_take_push(ids, i as int);
        }
        i = i + 1;
    }
    assert(ids.take(i as int) =~= ids);
    out
}

/// The batch dispatches of a layer.
pub fn layer_batch_groups(plan: &Plan, groups: &Vec<BatchGroup>, layer: &Vec<String>) -> (r: Vec<
    BatchGroup,
>)
    ensures
        views(r@) == groups_in(
            plan@,
            views(groups@),
            texts_view(layer@),
            groups@.len() as int,
        ),
{
    let ghost ids = texts_view(layer@);
    let ghost gs = views(groups@);
    let members = set_of(layer);
    let mut out: Vec<BatchGroup> = Vec::new();
    let mut k: usize = 0;
    assert(views(out@) =~= Seq::empty());
    while k < groups.len()
        invariant
            k <= groups@.len(),
            ids == texts_view(layer@),
            gs == views(groups@),
            members@ == ids.to_set(),
            views(out@) == groups_in(plan@, gs, ids, k as int),
        decreases groups.len() - k,
    {
        let group = &groups[k];
        assert(gs[k as int] == group@);
        if is_within(group, &members, Ghost(ids)) {
            let mut size: usize = match tool_limits(plan, group.tool.as_str()) {
                Some(limits) => match limits.batch_size {
                    Some(n) => n,
                    None => group.nodes.len(),
                },
                None => group.nodes.len(),
            };
            if size < 1 {
                size = 1;
            }
            push_chunks(group.adapter.as_str(), group.tool.as_str(), &group.nodes, size, &mut out);
        }
        k = k + 1;
    }
    out
}

// ---------------------------------------------------------------------------
// Preparation of a layer
// ---------------------------------------------------------------------------

/// A call with its input resolved.
pub struct PreparedCall {
    pub node: Node,
    pub input: Value,
    pub cache_key: Option<CacheKey>,
}

/// A call with its input resolved, as a mathematical value.
#[verifier::ext_equal]
pub struct CallV {
    pub node: NodeV,
    pub input: Json,
    pub cache_key: Option<CacheKeyV>,
}

impl View for PreparedCall {
    type V = CallV;

    open spec fn view(&self) -> CallV {
        CallV { node: self.node@, input: self.input@, cache_key: opt_view(self.cache_key) }
    }
}

/// The cache key of a call, when its output may be cached.
pub open spec fn call_key(plan: PlanV, node: NodeV, input: Json) -> Option<CacheKeyV> {
    match lookup(plan.tools, node.tool) {
        Some(spec) => match spec.effects {
            Some(e) => if e.pure || e.cacheable {
                Some(
                    CacheKeyV {
                        adapter: spec.adapter,
                        tool: node.tool,
                        version: None,
                        input: canonical(input),
                    },
                )
            } else {
                None
            },
            None => None,
        },
        None => None,
    }
}

/// The call of a node.
pub open spec fn call_of(plan: PlanV, outputs: Map<Seq<char>, Json>, id: Seq<char>) -> Result<
    CallV,
    RuntimeErrorV,
> {
    let node = node_named(plan.nodes, id);
    match resolved(node.input, outputs) {
        Ok(input) => Ok(CallV { node, input, cache_key: call_key(plan, node, input) }),
        Err(e) => Err(e),
    }
}

/// The calls of the first `k` nodes.
pub open spec fn calls_of(
    plan: PlanV,
    outputs: Map<Seq<char>, Json>,
    ids: Seq<Seq<char>>,
    k: int,
) -> Result<Seq<CallV>, RuntimeErrorV>
    decreases k,
{
    if k <= 0 {
        Ok(Seq::empty())
    } else {
        match calls_of(plan, outputs, ids, k - 1) {
            Err(e) => Err(e),
            Ok(before) => match call_of(plan, outputs, ids[k - 1]) {
                Ok(c) => Ok(before.push(c)),
                Err(e) => Err(e),
            },
        }
    }
}

proof fn lemma_calls_error(
    plan: PlanV,
    outputs: Map<Seq<char>, Json>,
    ids: Seq<Seq<char>>,
    k: int,
    n: int,
)
    requires
        0 <= k <= n,
        calls_of(plan, outputs, ids, k) is Err,
    ensures
        calls_of(plan, outputs, ids, n) == calls_of(plan, outputs, ids, k),
    decreases n,
{
    if k < n {
        lemma_calls_error(plan, outputs, ids, k, n - 1);
    }
}

/// The adapter is not registered.
pub open spec fn unregistered(adapter: Seq<char>) -> RuntimeErrorV {
    RuntimeErrorV::MissingAdapter { adapter }
}

/// The calls of the first `k` batch dispatches.
pub open spec fn batch_calls(
    plan: PlanV,
    adapters: Set<Seq<char>>,
    outputs: Map<Seq<char>, Json>,
    groups: Seq<BatchV>,
    k: int,
) -> Result<Seq<Seq<CallV>>, RuntimeErrorV>
    decreases k,
{
    if k <= 0 {
        Ok(Seq::empty())
    } else {
        let g = groups[k - 1];
        match batch_calls(plan, adapters, outputs, groups, k - 1) {
            Err(e) => Err(e),
            Ok(before) => if !adapters.contains(g.adapter) {
                Err(unregistered(g.adapter))
            } else {
                match calls_of(plan, outputs, g.nodes, g.nodes.len() as int) {
                    Ok(calls) => Ok(before.push(calls)),
                    Err(e) => Err(e),
                }
            },
        }
    }
}

proof fn lemma_batch_error(
    plan: PlanV,
    adapters: Set<Seq<char>>,
    outputs: Map<Seq<char>, Json>,
    groups: Seq<BatchV>,
    k: int,
    n: int,
)
    requires
        0 <= k <= n,
        batch_calls(plan, adapters, outputs, groups, k) is Err,
    ensures
        batch_calls(plan, adapters, outputs, groups, n) == batch_calls(
            plan,
            adapters,
            outputs,
            groups,
            k,
        ),
    decreases n,
{
    if k < n {
        lemma_batch_error(plan, adapters, outputs, groups, k, n - 1);
    }
}

/// The node goes out in one of the dispatches.
pub open spec fn claimed(groups: Seq<BatchV>, id: Seq<char>) -> bool {
    exists|g: int| 0 <= g < groups.len() && (#[trigger] groups[g]).nodes.contains(id)
}

/// The adapter of a node's tool.
pub open spec fn adapter_of(plan: PlanV, id: Seq<char>) -> Seq<char> {
    lookup(plan.tools, node_named(plan.nodes, id).tool)->0.adapter
}

/// The calls of those of the first `k` nodes that no dispatch claims.
pub open spec fn single_calls(
    plan: PlanV,
    adapters: Set<Seq<char>>,
    outputs: Map<Seq<char>, Json>,
    groups: Seq<BatchV>,
    layer: Seq<Seq<char>>,
    k: int,
) -> Result<Seq<CallV>, RuntimeErrorV>
    decreases k,
{
    if k <= 0 {
        Ok(Seq::empty())
    } else {
        match single_calls(plan, adapters, outputs, groups, layer, k - 1) {
            Err(e) => Err(e),
            Ok(before) => if claimed(groups, layer[k - 1]) {
                Ok(before)
            } else {
                match call_of(plan, outputs, layer[k - 1]) {
                    Err(e) => Err(e),
                    Ok(c) => if adapters.contains(adapter_of(plan, layer[k - 1])) {
                        Ok(before.push(c))
                    } else {
                        Err(unregistered(adapter_of(plan, layer[k - 1])))
                    },
                }
            },
        }
    }
}

proof fn lemma_single_error(
    plan: PlanV,
    adapters: Set<Seq<char>>,
    outputs: Map<Seq<char>, Json>,
    groups: Seq<BatchV>,
    layer: Seq<Seq<char>>,
    k: int,
    n: int,
)
    requires
        0 <= k <= n,
        single_calls(plan, adapters, outputs, groups, layer, k) is Err,
    ensures
        single_calls(plan, adapters, outputs, groups, layer, n) == single_calls(
            plan,
            adapters,
            outputs,
            groups,
            layer,
            k,
        ),
    decreases n,
{
    if k < n {
        lemma_single_error(plan, adapters, outputs, groups, layer, k, n - 1);
    }
}

/// The nodes of a layer are nodes of the plan, and their tools are declared.
pub open spec fn layer_known(plan: PlanV, layer: Seq<Seq<char>>) -> bool {
    forall|i: int|
        0 <= i < layer.len() ==> has_node(plan.nodes, #[trigger] layer[i]) && has_key(
            plan.tools,
            node_named(plan.nodes, layer[i]).tool,
        )
}

fn prepare_call(plan: &Plan, node: &Node, outputs: &StrMap<Value>) -> (r: Result<
    PreparedCall,
    RuntimeError,
>)
    ensures
        match (r, resolved(node@.input, map_view(*outputs))) {
            (Ok(c), Ok(input)) => c@ == (CallV {
                node: node@,
                input,
                cache_key: call_key(plan@, node@, input),
            }),
            (Err(e), Err(m)) => e@ == m,
            _ => false,
        },
{
    let input = match resolve_input(&node.input, outputs) {
        Ok(input) => input,
        Err(e) => {
            return Err(e);
        },
    };
    plan.tools.prove_sorted();
    proof {
        pairs_view_lookup(plan.tools, node@.tool);
    }
    let cache_key = match plan.tools.get(node.tool.as_str()) {
        Some(spec) => match &spec.effects {
            Some(effects) => if effects.pure || effects.cacheable {
                Some(
                    CacheKey {
                        adapter: spec.adapter.clone(),
                        tool: node.tool.clone(),
                        version: None,
                        input: canonical_json_string(&input),
                    },
                )
            } else {
                None
            },
            None => None,
        },
        None => None,
    };
    Ok(PreparedCall { node: node.clone(), input, cache_key })
}

/// The calls of the nodes, or why an input cannot be resolved.
pub fn prepare_calls(
    plan: &Plan,
    index: &StrMap<usize>,
    outputs: &StrMap<Value>,
    ids: &Vec<String>,
) -> (r: Result<Vec<PreparedCall>, RuntimeError>)
    requires
        indexes(*index, plan.nodes@),
        forall|i: int| 0 <= i < ids@.len() ==> has_node(plan@.nodes, (#[trigger] ids@[i])@),
    ensures
        match (r, calls_of(plan@, map_view(*outputs), texts_view(ids@), ids@.len() as int)) {
            (Ok(v), Ok(m)) => views(v@) == m,
            (Err(e), Err(m)) => e@ == m,
            _ => false,
        },
{
    let ghost names = texts_view(ids@);
    let ghost ov = map_view(*outputs);
    let mut out: Vec<PreparedCall> = Vec::new();
    let mut i: usize = 0;
    assert(views(out@) =~= Seq::empty());
    while i < ids.len()
        invariant
            i <= ids@.len(),
            names == texts_view(ids@),
            ov == map_view(*outputs),
            indexes(*index, plan.nodes@),
            forall|i: int| 0 <= i < ids@.len() ==> has_node(plan@.nodes, (#[trigger] ids@[i])@),
            calls_of(plan@, ov, names, i as int) == Ok::<Seq<CallV>, RuntimeErrorV>(views(out@)),
        decreases ids.len() - i,
    {
        assert(names[i as int] == ids@[i as int]@);
        if let Some(node) = find_node(plan, index, ids[i].as_str()) {
            match prepare_call(plan, node, outputs) {
                Ok(call) => {
                    let ghost before = views(out@);
                    out.push(call);
                    assert(views(out@) =~= before.push(call@));
                },
                Err(e) => {
                    proof {
                        assert(calls_of(plan@, ov, names, i + 1) == Err::<Seq<CallV>, RuntimeErrorV>(e@));
                        lemma_calls_error(plan@, ov, names, i + 1, names.len() as int);
                    }
                    return Err(e);
                },
            }
        }
        i = i + 1;
    }
    Ok(out)
}

/// What a layer runs: batch dispatches, single calls, and how many of them
/// run beside each other.
pub struct LayerWork {
    pub permits: usize,
    pub groups: Vec<BatchGroup>,
    pub batches: Vec<Vec<PreparedCall>>,
    pub singles: Vec<PreparedCall>,
}

/// The views of lists of calls.
pub open spec fn call_lists(v: Seq<Vec<PreparedCall>>) -> Seq<Seq<CallV>> {
    Seq::new(v.len(), |i: int| views(v[i]@))
}

fn is_claimed(groups: &Vec<BatchGroup>, id: &str) -> (r: bool)
    ensures
        r == claimed(views(groups@), id@),
{
    let mut g: usize = 0;
    while g < groups.len()
        invariant
            g <= groups@.len(),
            forall|h: int| 0 <= h < g ==> !(#[trigger] views(groups@)[h]).nodes.contains(id@),
        decreases groups.len() - g,
    {
        let nodes = &groups[g].nodes;
        let ghost names = views(groups@)[g as int].nodes;
        assert(names == texts_view(nodes@));
        let mut i: usize = 0;
        while i < nodes.len()
            invariant
                i <= nodes@.len(),
                g < groups@.len(),
                names == views(groups@)[g as int].nodes,
                names == texts_view(nodes@),
                forall|j: int| 0 <= j < i ==> names[j] != id@,
            decreases nodes.len() - i,
        {
            assert(names[i as int] == nodes@[i as int]@);
            if same_text(nodes[i].as_str(), id) {
                assert(names.contains(id@));
                return true;
            }
            i = i + 1;
        }
        g = g + 1;
    }
    false
}

/// Prepares a layer against the outputs of the layers before it. Batch
/// dispatches are looked at first, then the other nodes in layer order; the
/// first that cannot run is the error.
pub fn prepare_layer(
    plan: &Plan,
    index: &StrMap<usize>,
    groups: &Vec<BatchGroup>,
    registry: &ToolRegistry,
    outputs: &StrMap<Value>,
    layer: &Vec<String>,
) -> (r: Result<LayerWork, RuntimeError>)
    requires
        indexes(*index, plan.nodes@),
        layer_known(plan@, texts_view(layer@)),
    ensures
        ({
            let ids = texts_view(layer@);
            let gs = groups_in(plan@, views(groups@), ids, groups@.len() as int);
            let ov = map_view(*outputs);
            let adapters = registry@.adapters;
            match batch_calls(plan@, adapters, ov, gs, gs.len() as int) {
                Err(m) => r is Err && r->Err_0@ == m,
                Ok(batches) => match single_calls(
                    plan@,
                    adapters,
                    ov,
                    gs,
                    ids,
                    ids.len() as int,
                ) {
                    Err(m) => r is Err && r->Err_0@ == m,
                    Ok(singles) => {
                        &&& r is Ok
                        &&& r->Ok_0.permits == layer_permits(plan@, ids)
                        &&& views(r->Ok_0.groups@) == gs
                        &&& call_lists(r->Ok_0.batches@) == batches
                        &&& views(r->Ok_0.singles@) == singles
                    },
                },
            }
        }),
{
    let ghost ids = texts_view(layer@);
    let ghost ov = map_view(*outputs);
    let ghost adapters = registry@.adapters;
    let dispatches = layer_batch_groups(plan, groups, layer);
    let ghost gs = views(dispatches@);
    proof {
        lemma_groups_in(plan@, views(groups@), ids, groups@.len() as int);
    }
    let mut batches: Vec<Vec<PreparedCall>> = Vec::new();
    let mut k: usize = 0;
    assert(call_lists(batches@) =~= Seq::empty());
    while k < dispatches.len()
        invariant
            k <= dispatches@.len(),
            gs == views(dispatches@),
            ids == texts_view(layer@),
            gs == groups_in(plan@, views(groups@), ids, groups@.len() as int),
            ov == map_view(*outputs),
            adapters == registry@.adapters,
            indexes(*index, plan.nodes@),
            layer_known(plan@, ids),
            forall|g: int| 0 <= g < gs.len() ==> within_layer(#[trigger] gs[g], ids),
            batch_calls(plan@, adapters, ov, gs, k as int) == Ok::<
                Seq<Seq<CallV>>,
                RuntimeErrorV,
            >(call_lists(batches@)),
        decreases dispatches.len() - k,
    {
        let group = &dispatches[k];
        assert(gs[k as int] == group@);
        assert(within_layer(gs[k as int], ids));
        if !registry.has_adapter(group.adapter.as_str()) {
            proof {
                assert(batch_calls(plan@, adapters, ov, gs, k + 1) is Err);
                lemma_batch_error(plan@, adapters, ov, gs, k + 1, gs.len() as int);
            }
            return Err(RuntimeError::MissingAdapter { adapter: group.adapter.clone() });
        }
        proof {
            assert forall|i: int| 0 <= i < group.nodes@.len() implies has_node(
                plan@.nodes,
                (#[trigger] group.nodes@[i])@,
            ) by {
                assert(gs[k as int].nodes[i] == group.nodes@[i]@);
                assert(ids.contains(gs[k as int].nodes[i]));
                let x = choose|x: int| 0 <= x < ids.len() && ids[x] == gs[k as int].nodes[i];
                assert(has_node(plan@.nodes, ids[x]));
            }
        }
        match prepare_calls(plan, index, outputs, &group.nodes) {
            Ok(calls) => {
                let ghost before = call_lists(batches@);
                batches.push(calls);
                assert(call_lists(batches@) =~= before.push(views(calls@)));
            },
            Err(e) => {
                proof {
                    assert(batch_calls(plan@, adapters, ov, gs, k + 1) is Err);
                    lemma_batch_error(plan@, adapters, ov, gs, k + 1, gs.len() as int);
                }
                return Err(e);
            },
        }
        k = k + 1;
    }
    let ghost done = call_lists(batches@);
    let mut singles: Vec<PreparedCall> = Vec::new();
    let mut i: usize = 0;
    assert(views(singles@) =~= Seq::empty());
    while i < layer.len()
        invariant
            i <= layer@.len(),
            ids == texts_view(layer@),
            gs == views(dispatches@),
            gs == groups_in(plan@, views(groups@), ids, groups@.len() as int),
            ov == map_view(*outputs),
            adapters == registry@.adapters,
            indexes(*index, plan.nodes@),
            layer_known(plan@, ids),
            batch_calls(plan@, adapters, ov, gs, gs.len() as int) == Ok::<
                Seq<Seq<CallV>>,
                RuntimeErrorV,
            >(done),
            single_calls(plan@, adapters, ov, gs, ids, i as int) == Ok::<
                Seq<CallV>,
                RuntimeErrorV,
            >(views(singles@)),
        decreases layer.len() - i,
    {
        let id = layer[i].as_str();
        assert(ids[i as int] == id@);
        if !is_claimed(&dispatches, id) {
            assert(has_node(plan@.nodes, ids[i as int]));
            if let Some(node) = find_node(plan, index, id) {
                let call = match prepare_call(plan, node, outputs) {
                    Ok(call) => call,
                    Err(e) => {
                        proof {
                            assert(single_calls(plan@, adapters, ov, gs, ids, i + 1) is Err);
                            lemma_single_error(plan@, adapters, ov, gs, ids, i + 1, ids.len() as int);
                        }
                        return Err(e);
                    },
                };
                plan.tools.prove_sorted();
                proof {
                    pairs_view_lookup(plan.tools, node@.tool);
                }
                if let Some(spec) = plan.tools.get(node.tool.as_str()) {
                    if !registry.has_adapter(spec.adapter.as_str()) {
                        proof {
                            assert(single_calls(plan@, adapters, ov, gs, ids, i + 1) is Err);
                            lemma_single_error(plan@, adapters, ov, gs, ids, i + 1, ids.len() as int);
                        }
                        return Err(RuntimeError::MissingAdapter { adapter: spec.adapter.clone() });
                    }
                }
                let ghost before = views(singles@);
                singles.push(call);
                assert(views(singles@) =~= before.push(call@));
            }
        }
        i = i + 1;
    }
    let permits: usize = match layer_max_concurrency(plan, index, layer) {
        Some(n) => n,
        None => layer.len(),
    };
    let permits: usize = if permits < 1 {
        1
    } else {
        permits
    };
    Ok(LayerWork { permits, groups: dispatches, batches, singles })
}

/// Every dispatch of a layer stays within the layer.
proof fn lemma_groups_in(plan: PlanV, groups: Seq<BatchV>, layer: Seq<Seq<char>>, k: int)
    requires
        0 <= k <= groups.len(),
    ensures
        forall|g: int|
            0 <= g < groups_in(plan, groups, layer, k).len() ==> within_layer(
                #[trigger] groups_in(plan, groups, layer, k)[g],
                layer,
            ),
    decreases k,
{
    if k > 0 {
        lemma_groups_in(plan, groups, layer, k - 1);
        let before = groups_in(plan, groups, layer, k - 1);
        let all = groups_in(plan, groups, layer, k);
        let own = groups[k - 1];
        if within_layer(own, layer) {
            let size = chunk_size(limits_of(plan.tools, own.tool), own.nodes.len());
            lemma_chunks_within(own.adapter, own.tool, own.nodes, size, layer);
            assert forall|g: int| 0 <= g < all.len() implies within_layer(#[trigger] all[g], layer) by {
                if g < before.len() {
                    assert(all[g] == before[g]);
                } else {
                    assert(all[g] == split_group(plan, own)[g - before.len()]);
                }
            }
        }
    }
}

proof fn lemma_chunks_within(
    adapter: Seq<char>,
    tool: Seq<char>,
    members: Seq<Seq<char>>,
    size: nat,
    layer: Seq<Seq<char>>,
)
    requires
        forall|i: int| 0 <= i < members.len() ==> layer.contains(#[trigger] members[i]),
    ensures
        forall|g: int|
            0 <= g < chunk_groups(adapter, tool, members, size).len() ==> within_layer(
                #[trigger] chunk_groups(adapter, tool, members, size)[g],
                layer,
            ),
    decreases members.len(),
{
    if members.len() > 0 && size > 0 {
        let n = if size < members.len() {
            size as int
        } else {
            members.len() as int
        };
        let tail = members.skip(n);
        assert forall|i: int| 0 <= i < tail.len() implies layer.contains(#[trigger] tail[i]) by {
            assert(tail[i] == members[i + n]);
        }
        lemma_chunks_within(adapter, tool, tail, size, layer);
        let rest = chunk_groups(adapter, tool, tail, size);
        let all = chunk_groups(adapter, tool, members, size);
        assert forall|g: int| 0 <= g < all.len() implies within_layer(#[trigger] all[g], layer) by {
            if n > 1 {
                if g == 0 {
                    assert forall|i: int| 0 <= i < all[0].nodes.len() implies layer.contains(
                        #[trigger] all[0].nodes[i],
                    ) by {
                        assert(all[0].nodes[i] == members[i]);
                    }
                } else {
                    assert(all[g] == rest[g - 1]);
                }
            } else {
                assert(all[g] == rest[g]);
            }
        }
    }
}

// ---------------------------------------------------------------------------
// Results of a layer
// ---------------------------------------------------------------------------

/// What became of one call.
pub struct NodeExecution {
    pub node: String,
    pub tool: String,
    /// Whether the cache answered.
    pub cached: bool,
    pub duration_ms: u64,
    pub result: Result<Value, ToolExecutionError>,
}

/// What became of one call, as a mathematical value.
#[verifier::ext_equal]
pub struct ExecutionV {
    pub node: Seq<char>,
    pub tool: Seq<char>,
    pub cached: bool,
    pub duration_ms: u64,
    pub result: Result<Json, ToolErrorV>,
}

impl View for NodeExecution {
    type V = ExecutionV;

    open spec fn view(&self) -> ExecutionV {
        ExecutionV {
            node: self.node@,
            tool: self.tool@,
            cached: self.cached,
            duration_ms: self.duration_ms,
            result: match self.result {
                Ok(v) => Ok(v@),
                Err(e) => Err(e@),
            },
        }
    }
}

/// The events of one call.
pub open spec fn execution_events(e: ExecutionV, now: u64) -> Seq<EventV> {
    let started = if e.cached {
        Seq::empty()
    } else {
        seq![event(e.node, e.tool, TraceStatus::Started, now)]
    };
    let status = match e.result {
        Ok(_) => if e.cached {
            TraceStatus::CacheHit
        } else {
            TraceStatus::Finished
        },
        Err(_) => TraceStatus::Failed,
    };
    started.push(
        EventV {
            duration_ms: Some(e.duration_ms),
            error: match e.result {
                Ok(_) => None,
                Err(error) => Some(error.message),
            },
            ..event(e.node, e.tool, status, now)
        },
    )
}

/// How many of the calls succeeded before the first, from `from`, that did
/// not.
pub open spec fn successes(events: Seq<ExecutionV>, from: int) -> int
    decreases events.len() - from,
{
    if 0 <= from < events.len() && events[from].result is Ok {
        successes(events, from + 1)
    } else {
        from
    }
}

/// The trace with the events of the first `k` calls.
pub open spec fn traced(trace: Seq<EventV>, events: Seq<ExecutionV>, now: u64, k: int) -> Seq<EventV>
    decreases k,
{
    if k <= 0 {
        trace
    } else {
        traced(trace, events, now, k - 1) + execution_events(events[k - 1], now)
    }
}

/// The outputs with those of the first `k` calls.
pub open spec fn gathered(outputs: Map<Seq<char>, Json>, events: Seq<ExecutionV>, k: int) -> Map<
    Seq<char>,
    Json,
>
    decreases k,
{
    if k <= 0 {
        outputs
    } else {
        gathered(outputs, events, k - 1).insert(events[k - 1].node, events[k - 1].result->Ok_0)
    }
}

/// Records what became of calls up to the first that failed. Returns that
/// one: it ends the run.
pub fn record_events(
    events: &Vec<NodeExecution>,
    trace: &mut Vec<TraceEvent>,
    outputs: &mut StrMap<Value>,
    now: u64,
) -> (r: Option<(String, ToolExecutionError)>)
    ensures
        ({
            let es = views(events@);
            let n = successes(es, 0);
            &&& map_view(*final(outputs)) == gathered(map_view(*old(outputs)), es, n)
            &&& views(final(trace)@) == traced(
                views(old(trace)@),
                es,
                now,
                if n < es.len() {
                    n + 1
                } else {
                    n
                },
            )
            &&& match r {
                Some((node, error)) => {
                    &&& n < es.len()
                    &&& node@ == es[n].node
                    &&& es[n].result == Err::<Json, ToolErrorV>(error@)
                },
                None => n == es.len(),
            }
        }),
{
    let ghost es = views(events@);
    let ghost t0 = views(trace@);
    let ghost o0 = map_view(*outputs);
    let mut i: usize = 0;
    while i < events.len()
        invariant
            i <= events@.len(),
            es == views(events@),
            t0 == views(old(trace)@),
            o0 == map_view(*old(outputs)),
            successes(es, 0) == successes(es, i as int),
            views(trace@) == traced(t0, es, now, i as int),
            map_view(*outputs) == gathered(o0, es, i as int),
        decreases events.len() - i,
    {
        let e = &events[i];
        let ghost before = views(trace@);
        assert(es[i as int] == e@);
        if !e.cached {
            trace.push(
                TraceEvent::new(e.node.as_str(), e.tool.as_str(), TraceStatus::Started, now),
            );
        }
        match &e.result {
            Ok(output) => {
                let status = if e.cached {
                    TraceStatus::CacheHit
                } else {
                    TraceStatus::Finished
                };
                trace.push(
                    TraceEvent::new(e.node.as_str(), e.tool.as_str(), status, now).with_duration(
                        e.duration_ms,
                    ),
                );
                assert(views(trace@) =~= before + execution_events(e@, now));
                let ghost was = *outputs;
                let value = output.clone();
                outputs.insert(e.node.clone(), value);
                proof {
                    map_view_insert(was, *outputs, e@.node, value);
                }
            },
            Err(error) => {
                trace.push(
                    TraceEvent::new(
                        e.node.as_str(),
                        e.tool.as_str(),
                        TraceStatus::Failed,
                        now,
                    ).with_duration(e.duration_ms).with_error(error),
                );
                assert(views(trace@) =~= before + execution_events(e@, now));
                return Some((e.node.clone(), error.clone()));
            },
        }
        i = i + 1;
    }
    None
}

/// The calls among the first `k` that the cache answers.
pub open spec fn hit_executions(calls: Seq<CallV>, cached: Seq<Option<Json>>, k: int) -> Seq<ExecutionV>
    decreases k,
{
    if k <= 0 {
        Seq::empty()
    } else {
        let before = hit_executions(calls, cached, k - 1);
        match cached[k - 1] {
            Some(output) => before.push(
                ExecutionV {
                    node: calls[k - 1].node.id,
                    tool: calls[k - 1].node.tool,
                    cached: true,
                    duration_ms: 0,
                    result: Ok(output),
                },
            ),
            None => before,
        }
    }
}

/// What is left of a reply after the first `k` calls that went out took
/// theirs.
pub open spec fn untaken(
    answers: Map<Seq<char>, Json>,
    calls: Seq<CallV>,
    cached: Seq<Option<Json>>,
    k: int,
) -> Map<Seq<char>, Json>
    decreases k,
{
    if k <= 0 {
        answers
    } else {
        let before = untaken(answers, calls, cached, k - 1);
        if cached[k - 1] is None {
            before.remove(calls[k - 1].node.id)
        } else {
            before
        }
    }
}

/// What became of those of the first `k` calls that went out, or the node
/// that the reply leaves out.
pub open spec fn sent_executions(
    calls: Seq<CallV>,
    cached: Seq<Option<Json>>,
    reply: Result<Seq<BatchOutputV>, ToolErrorV>,
    duration: u64,
    k: int,
) -> Result<Seq<ExecutionV>, Seq<char>>
    decreases k,
{
    if k <= 0 {
        Ok(Seq::empty())
    } else {
        match sent_executions(calls, cached, reply, duration, k - 1) {
            Err(node) => Err(node),
            Ok(before) => if cached[k - 1] is Some {
                Ok(before)
            } else {
                let node = calls[k - 1].node.id;
                let execution = ExecutionV {
                    node,
                    tool: calls[k - 1].node.tool,
                    cached: false,
                    duration_ms: duration,
                    result: Err(ToolErrorV { message: Seq::empty(), code: None, retryable: None }),
                };
                match reply {
                    Err(e) => Ok(before.push(ExecutionV { result: Err(e), ..execution })),
                    Ok(outputs) => {
                        let left = untaken(
                            by_node(outputs, outputs.len() as int),
                            calls,
                            cached,
                            k - 1,
                        );
                        if left.dom().contains(node) {
                            Ok(before.push(ExecutionV { result: Ok(left[node]), ..execution }))
                        } else {
                            Err(node)
                        }
                    },
                }
            },
        }
    }
}

proof fn lemma_sent_error(
    calls: Seq<CallV>,
    cached: Seq<Option<Json>>,
    reply: Result<Seq<BatchOutputV>, ToolErrorV>,
    duration: u64,
    k: int,
    n: int,
)
    requires
        0 <= k <= n,
        sent_executions(calls, cached, reply, duration, k) is Err,
    ensures
        sent_executions(calls, cached, reply, duration, n) == sent_executions(
            calls,
            cached,
            reply,
            duration,
            k,
        ),
    decreases n,
{
    if k < n {
        lemma_sent_error(calls, cached, reply, duration, k, n - 1);
    }
}

/// What became of the calls of a batch dispatch: those that the cache answers
/// first, then those that went out, in order. The error is the node that the
/// reply leaves out.
pub fn batch_executions(
    calls: &Vec<PreparedCall>,
    cached: &Vec<Option<Value>>,
    reply: Result<Vec<BatchOutput>, ToolExecutionError>,
    duration: u64,
) -> (r: Result<Vec<NodeExecution>, String>)
    requires
        cached@.len() == calls@.len(),
    ensures
        ({
            let cs = views(calls@);
            let found = opt_values(cached@);
            let n = calls@.len() as int;
            match (r, sent_executions(cs, found, batch_reply_view(reply), duration, n)) {
                (Ok(v), Ok(sent)) => views(v@) == hit_executions(cs, found, n) + sent,
                (Err(node), Err(m)) => node@ == m,
                _ => false,
            }
        }),
{
    let ghost cs = views(calls@);
    let ghost found = opt_values(cached@);
    let ghost rv = batch_reply_view(reply);
    let mut out: Vec<NodeExecution> = Vec::new();
    let mut i: usize = 0;
    assert(views(out@) =~= Seq::empty());
    while i < calls.len()
        invariant
            i <= calls@.len(),
            cached@.len() == calls@.len(),
            cs == views(calls@),
            found == opt_values(cached@),
            views(out@) == hit_executions(cs, found, i as int),
        decreases calls.len() - i,
    {
        assert(cs[i as int] == calls@[i as int]@);
        assert(found[i as int] == opt_view(cached@[i as int]));
        if let Some(output) = &cached[i] {
            let ghost before = views(out@);
            let hit = NodeExecution {
                node: calls[i].node.id.clone(),
                tool: calls[i].node.tool.clone(),
                cached: true,
                duration_ms: 0,
                result: Ok(output.clone()),
            };
            out.push(hit);
            assert(views(out@) =~= before.push(hit@));
        }
        i = i + 1;
    }
    let ghost hits = views(out@);
    let (mut answers, failure) = match reply {
        Ok(outputs) => (outputs_by_node(outputs), None),
        Err(e) => (StrMap::new(), Some(e)),
    };
    let ghost all = map_view(answers);
    let ghost mut sent: Seq<ExecutionV> = Seq::empty();
    let mut k: usize = 0;
    assert(views(out@) =~= hits + sent);
    while k < calls.len()
        invariant
            k <= calls@.len(),
            cached@.len() == calls@.len(),
            cs == views(calls@),
            found == opt_values(cached@),
            hits == hit_executions(cs, found, calls@.len() as int),
            rv == batch_reply_view(reply),
            match failure {
                Some(e) => rv == Err::<Seq<BatchOutputV>, ToolErrorV>(e@),
                None => rv is Ok && all == by_node(rv->Ok_0, rv->Ok_0.len() as int) && map_view(
                    answers,
                ) == untaken(all, cs, found, k as int),
            },
            sent_executions(cs, found, rv, duration, k as int) == Ok::<Seq<ExecutionV>, Seq<char>>(
                sent,
            ),
            views(out@) == hits + sent,
        decreases calls.len() - k,
    {
        let call = &calls[k];
        assert(cs[k as int] == call@);
        assert(found[k as int] == opt_view(cached@[k as int]));
        if cached[k].is_none() {
            let node = call.node.id.as_str();
            let result: Result<Value, ToolExecutionError> = match &failure {
                Some(e) => Err(e.clone()),
                None => {
                    let ghost before = answers;
                    let taken = answers.remove(node);
                    assert(map_view(answers) =~= map_view(before).remove(node@));
                    match taken {
                        Some(output) => {
                            assert(before@.dom().contains(node@));
                            Ok(output)
                        },
                        None => {
                            proof {
                                assert(!before@.dom().contains(node@));
                                assert(sent_executions(cs, found, rv, duration, k + 1) == Err::<
                                    Seq<ExecutionV>,
                                    Seq<char>,
                                >(node@));
                                lemma_sent_error(cs, found, rv, duration, k + 1, cs.len() as int);
                            }
                            return Err(node.to_owned());
                        },
                    }
                },
            };
            let ghost before = views(out@);
            let execution = NodeExecution {
                node: node.to_owned(),
                tool: call.node.tool.clone(),
                cached: false,
                duration_ms: duration,
                result,
            };
            out.push(execution);
            proof {
                let e = execution@;
                assert(views(out@) =~= before.push(e));
                assert((hits + sent).push(e) =~= hits + sent.push(e));
                sent = sent.push(e);
            }
        }
        k = k + 1;
    }
    Ok(out)
}

/// The values of the first `k` declared outputs, or the first that cannot be
/// resolved.
pub open spec fn final_outputs(
    outputs: Seq<(Seq<char>, RefV)>,
    values: Map<Seq<char>, Json>,
    k: int,
) -> Result<Map<Seq<char>, Json>, RuntimeErrorV>
    decreases k,
{
    if k <= 0 {
        Ok(Map::empty())
    } else {
        match final_outputs(outputs, values, k - 1) {
            Err(e) => Err(e),
            Ok(before) => match resolved_ref(outputs[k - 1].1, values) {
                Ok(v) => Ok(before.insert(outputs[k - 1].0, v)),
                Err(e) => Err(e),
            },
        }
    }
}

proof fn lemma_outputs_error(
    outputs: Seq<(Seq<char>, RefV)>,
    values: Map<Seq<char>, Json>,
    k: int,
    n: int,
)
    requires
        0 <= k <= n,
        final_outputs(outputs, values, k) is Err,
    ensures
        final_outputs(outputs, values, n) == final_outputs(outputs, values, k),
    decreases n,
{
    if k < n {
        lemma_outputs_error(outputs, values, k, n - 1);
    }
}

/// The declared outputs once every layer is over.
pub fn resolve_outputs(plan: &Plan, node_outputs: &StrMap<Value>) -> (r: Result<
    StrMap<Value>,
    RuntimeError,
>)
    ensures
        match (r, final_outputs(
            plan@.outputs,
            map_view(*node_outputs),
            plan@.outputs.len() as int,
        )) {
            (Ok(m), Ok(w)) => map_view(m) == w,
            (Err(e), Err(w)) => e@ == w,
            _ => false,
        },
{
    let ghost outs = plan@.outputs;
    let ghost values = map_view(*node_outputs);
    let mut out: StrMap<Value> = StrMap::new();
    let mut i: usize = 0;
    assert(map_view(out) =~= Map::empty());
    while i < plan.outputs.len()
        invariant
            i <= outs.len(),
            outs == pairs_view(plan.outputs),
            values == map_view(*node_outputs),
            final_outputs(outs, values, i as int) == Ok::<Map<Seq<char>, Json>, RuntimeErrorV>(
                map_view(out),
            ),
        decreases outs.len() - i,
    {
        let name = plan.outputs.key_at(i);
        let target = plan.outputs.value_at(i);
        assert(outs[i as int] == (name@, target@));
        match resolve_value_ref(target, node_outputs) {
            Ok(value) => {
                let ghost before = out;
                out.insert(name.to_owned(), value);
                proof {
                    map_view_insert(before, out, name@, value);
                }
            },
            Err(e) => {
                proof {
                    assert(final_outputs(outs, values, i + 1) is Err);
                    lemma_outputs_error(outs, values, i + 1, outs.len() as int);
                }
                return Err(e);
            },
        }
        i = i + 1;
    }
    Ok(out)
}

} // verus!
