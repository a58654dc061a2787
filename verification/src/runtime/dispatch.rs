//! Unit dispatch: what each dispatched node needs, and what it reports back.

use vstd::prelude::*;

use crate::adapters::api::{ToolErrorV, ToolExecutionError};
use crate::canonical::canonical_json_string;
use crate::json::{Json, Value};
use crate::ordered::StrSet;
use crate::plan::{Node, NodeV, Plan, ToolSpecV};
use crate::runtime::cache::{CacheKey, CacheKeyV};
use crate::runtime::policy::{CallPolicy, PolicyV};
use crate::runtime::result::{EventV, TraceEvent};

verus! {

use crate::canonical::canonical;
use crate::json::values_view;
use crate::ordered::{lookup, opt_view, pairs_view_lookup, views};
use crate::reading::{canonical_injective, json_valid};

/// Static description of the unit being dispatched.
#[derive(Debug)]
pub struct UnitSpec {
    pub tool: String,
    pub adapter: String,
    pub batch: bool,
}

/// A unit description as a mathematical value.
pub struct UnitSpecV {
    pub tool: Seq<char>,
    pub adapter: Seq<char>,
    pub batch: bool,
}

impl View for UnitSpec {
    type V = UnitSpecV;

    open spec fn view(&self) -> UnitSpecV {
        UnitSpecV { tool: self.tool@, adapter: self.adapter@, batch: self.batch }
    }
}

/// One node prepared for dispatch: resolved input, policy, cache metadata.
#[derive(Debug)]
pub struct PreparedMember {
    pub node: String,
    pub input: Value,
    /// Resolved fan-out items for `for_each` nodes.
    pub items: Option<Vec<Value>>,
    pub policy: CallPolicy,
    pub cacheable: bool,
    pub version: Option<String>,
    pub reads: StrSet,
    pub batchable: bool,
    pub batch_size: usize,
}

/// A prepared node as a mathematical value.
#[verifier::ext_equal]
pub struct PreparedV {
    pub node: Seq<char>,
    pub input: Json,
    pub items: Option<Seq<Json>>,
    pub policy: PolicyV,
    pub cacheable: bool,
    pub version: Option<Seq<char>>,
    pub reads: Set<Seq<char>>,
    pub batchable: bool,
    pub batch_size: usize,
}

impl View for PreparedMember {
    type V = PreparedV;

    open spec fn view(&self) -> PreparedV {
        PreparedV {
            node: self.node@,
            input: self.input@,
            items: match self.items {
                Some(items) => Some(values_view(items@)),
                None => None,
            },
            policy: self.policy@,
            cacheable: self.cacheable,
            version: opt_view(self.version),
            reads: self.reads@,
            batchable: self.batchable,
            batch_size: self.batch_size,
        }
    }
}

/// The cache key of a call, when its output may be cached.
pub open spec fn cache_key_of(m: PreparedV, spec: UnitSpecV, input: Json) -> Option<CacheKeyV> {
    if m.cacheable {
        Some(
            CacheKeyV {
                adapter: spec.adapter,
                tool: spec.tool,
                version: m.version,
                input: canonical(input),
            },
        )
    } else {
        None
    }
}

/// Calls with the same cache key are the same call: the same input to the
/// same version of the same tool. An answer is never taken for the answer to
/// another call.
pub proof fn equal_keys_are_equal_calls(
    a: PreparedV,
    sa: UnitSpecV,
    x: Json,
    b: PreparedV,
    sb: UnitSpecV,
    y: Json,
)
    requires
        json_valid(x),
        json_valid(y),
        cache_key_of(a, sa, x) is Some,
        cache_key_of(a, sa, x) == cache_key_of(b, sb, y),
    ensures
        sa.adapter == sb.adapter,
        sa.tool == sb.tool,
        a.version == b.version,
        x == y,
{
    canonical_injective(x, y);
}

impl PreparedMember {
    /// The cache key of a call, when its output may be cached.
    pub fn key(&self, spec: &UnitSpec, input: &Value) -> (r: Option<CacheKey>)
        ensures
            opt_view(r) == cache_key_of(self@, spec@, input@),
    {
        if self.cacheable {
            Some(
                CacheKey {
                    adapter: spec.adapter.clone(),
                    tool: spec.tool.clone(),
                    version: match &self.version {
                        Some(v) => Some(v.clone()),
                        None => None,
                    },
                    input: canonical_json_string(input),
                },
            )
        } else {
            None
        }
    }
}

/// The cache and batch metadata of a node.
pub open spec fn prepared_node(
    node: NodeV,
    tools: Seq<(Seq<char>, ToolSpecV)>,
    input: Json,
    items: Option<Seq<Json>>,
    policy: PolicyV,
    reads: Set<Seq<char>>,
) -> PreparedV {
    let spec = lookup(tools, node.tool);
    let effects = match spec {
        Some(s) => s.effects,
        None => None,
    };
    PreparedV {
        node: node.id,
        input,
        items,
        policy,
        cacheable: effects is Some && (effects->0.pure || effects->0.cacheable),
        version: match spec {
            Some(s) => s.version,
            None => None,
        },
        reads,
        batchable: effects is Some && effects->0.batchable,
        batch_size: match spec {
            Some(s) => match s.limits {
                Some(l) => match l.batch_size {
                    Some(b) => b,
                    None => usize::MAX,
                },
                None => usize::MAX,
            },
            None => usize::MAX,
        },
    }
}

/// Builds prepared members' cache/batch metadata from the plan.
pub fn member_from_plan(
    node: &Node,
    plan: &Plan,
    input: Value,
    items: Option<Vec<Value>>,
    policy: CallPolicy,
    reads: StrSet,
) -> (r: PreparedMember)
    ensures
        r@ == prepared_node(
            node@,
            plan@.tools,
            input@,
            match items {
                Some(v) => Some(values_view(v@)),
                None => None,
            },
            policy@,
            reads@,
        ),
{
    plan.tools.prove_sorted();
    proof {
        pairs_view_lookup(plan.tools, node@.tool);
    }
    let spec = plan.tools.get(node.tool.as_str());
    let mut cacheable = false;
    let mut batchable = false;
    let mut version: Option<String> = None;
    let mut batch_size: usize = usize::MAX;
    if let Some(spec) = spec {
        if let Some(effects) = &spec.effects {
            cacheable = effects.pure || effects.cacheable;
            batchable = effects.batchable;
        }
        if let Some(v) = &spec.version {
            version = Some(v.clone());
        }
        if let Some(limits) = &spec.limits {
            if let Some(size) = limits.batch_size {
                batch_size = size;
            }
        }
    }
    PreparedMember {
        node: node.id.clone(),
        input,
        items,
        policy,
        cacheable,
        version,
        reads,
        batchable,
        batch_size,
    }
}

/// What a dispatched unit reports back to the scheduler.
pub struct DispatchOutcome {
    pub results: Vec<NodeResult>,
    pub events: Vec<TraceEvent>,
    pub cache_hits: usize,
    pub retries: usize,
    pub batch_dispatches: usize,
}

/// What became of one dispatched node.
pub struct NodeResult {
    pub node: String,
    pub result: Result<Value, ToolExecutionError>,
}

/// What became of one dispatched node, as a mathematical value.
pub struct NodeResultV {
    pub node: Seq<char>,
    pub result: Result<Json, ToolErrorV>,
}

impl View for NodeResult {
    type V = NodeResultV;

    open spec fn view(&self) -> NodeResultV {
        NodeResultV {
            node: self.node@,
            result: match self.result {
                Ok(v) => Ok(v@),
                Err(e) => Err(e@),
            },
        }
    }
}

/// An outcome as a mathematical value.
#[verifier::ext_equal]
pub struct OutcomeV {
    pub results: Seq<NodeResultV>,
    pub events: Seq<EventV>,
    pub cache_hits: usize,
    pub retries: usize,
    pub batch_dispatches: usize,
}

impl View for DispatchOutcome {
    type V = OutcomeV;

    open spec fn view(&self) -> OutcomeV {
        OutcomeV {
            results: views(self.results@),
            events: views(self.events@),
            cache_hits: self.cache_hits,
            retries: self.retries,
            batch_dispatches: self.batch_dispatches,
        }
    }
}

/// An outcome in which nothing happened.
pub open spec fn no_outcome() -> OutcomeV {
    OutcomeV {
        results: Seq::empty(),
        events: Seq::empty(),
        cache_hits: 0,
        retries: 0,
        batch_dispatches: 0,
    }
}

/// The nodes that results speak of.
pub open spec fn result_nodes(results: Seq<NodeResultV>) -> Seq<Seq<char>> {
    Seq::new(results.len(), |i: int| results[i].node)
}

/// There is exactly one result for each of the nodes.
pub open spec fn covers(results: Seq<NodeResultV>, ids: Seq<Seq<char>>) -> bool {
    &&& result_nodes(results).no_duplicates()
    &&& forall|i: int| 0 <= i < results.len() ==> ids.contains((#[trigger] results[i]).node)
    &&& forall|i: int| 0 <= i < ids.len() ==> result_nodes(results).contains(#[trigger] ids[i])
}

/// The sum, or the largest number when it does not fit.
pub open spec fn capped_sum(a: usize, b: usize) -> usize {
    if a + b > usize::MAX {
        usize::MAX
    } else {
        (a + b) as usize
    }
}

impl DispatchOutcome {
    /// An outcome in which nothing happened.
    pub fn new() -> (r: Self)
        ensures
            r@ == no_outcome(),
    {
        let r = DispatchOutcome {
            results: Vec::new(),
            events: Vec::new(),
            cache_hits: 0,
            retries: 0,
            batch_dispatches: 0,
        };
        assert(r@ =~= no_outcome());
        r
    }
}

} // verus!
