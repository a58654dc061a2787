//! Adapter and capability registry.

use vstd::prelude::*;

use crate::effects::{Effects, EffectsV};
use crate::json::{Json, Value};
use crate::ordered::{StrMap, StrSet};
use crate::plan::{Plan, PlanV, ToolCost, ToolLimits, ToolSpec, ToolSpecV};
use crate::runtime::builtin::builtin_tools;

verus! {

use crate::effects::no_effects;
use crate::ordered::{lookup, opt_view, pairs_view, sorted_pairs};
use crate::runtime::builtin::builtin_names;
use crate::text::lex_less;

/// Adapter name automatically registered on every runtime for the built-in
/// pure data tools (`collect`, `pick`, `merge`, `template`).
pub const BUILTIN_ADAPTER: &'static str = "builtin";

/// Registry metadata for one tool: effects, limits, cost, version, schemas.
#[derive(Debug, PartialEq)]
pub struct ToolCapabilities {
    /// Effects hydrated into plans that omit them.
    pub effects: Option<Effects>,
    /// Limits hydrated into plans that omit them.
    pub limits: Option<ToolLimits>,
    /// Cost hydrated into plans that omit them.
    pub cost: Option<ToolCost>,
    /// Tool behavior version hydrated into plans that omit it.
    pub version: Option<String>,
    /// JSON Schema each resolved input is validated against before dispatch.
    pub input_schema: Option<Value>,
    /// JSON Schema of the tool output (documentation; not enforced).
    pub output_schema: Option<Value>,
}

/// Capabilities as a mathematical value.
#[verifier::ext_equal]
pub struct CapabilitiesV {
    pub effects: Option<EffectsV>,
    pub limits: Option<ToolLimits>,
    pub cost: Option<ToolCost>,
    pub version: Option<Seq<char>>,
    pub input_schema: Option<Json>,
    pub output_schema: Option<Json>,
}

impl View for ToolCapabilities {
    type V = CapabilitiesV;

    open spec fn view(&self) -> CapabilitiesV {
        CapabilitiesV {
            effects: opt_view(self.effects),
            limits: self.limits,
            cost: self.cost,
            version: opt_view(self.version),
            input_schema: opt_view(self.input_schema),
            output_schema: opt_view(self.output_schema),
        }
    }
}

/// Capabilities that say nothing.
pub open spec fn no_capabilities() -> CapabilitiesV {
    CapabilitiesV {
        effects: None,
        limits: None,
        cost: None,
        version: None,
        input_schema: None,
        output_schema: None,
    }
}

impl ToolCapabilities {
    /// Creates empty capabilities.
    pub fn new() -> (r: Self)
        ensures
            r@ == no_capabilities(),
    {
        ToolCapabilities {
            effects: None,
            limits: None,
            cost: None,
            version: None,
            input_schema: None,
            output_schema: None,
        }
    }

    /// Attaches effects.
    pub fn with_effects(self, effects: Effects) -> (r: Self)
        ensures
            r@ == (CapabilitiesV { effects: Some(effects@), ..self@ }),
    {
        let mut out = self;
        out.effects = Some(effects);
        out
    }

    /// Attaches limits.
    pub fn with_limits(self, limits: ToolLimits) -> (r: Self)
        ensures
            r@ == (CapabilitiesV { limits: Some(limits), ..self@ }),
    {
        let mut out = self;
        out.limits = Some(limits);
        out
    }

    /// Attaches cost metadata.
    pub fn with_cost(self, cost: ToolCost) -> (r: Self)
        ensures
            r@ == (CapabilitiesV { cost: Some(cost), ..self@ }),
    {
        let mut out = self;
        out.cost = Some(cost);
        out
    }

    /// Attaches a tool behavior version.
    pub fn with_version(self, version: &str) -> (r: Self)
        ensures
            r@ == (CapabilitiesV { version: Some(version@), ..self@ }),
    {
        let mut out = self;
        out.version = Some(version.to_owned());
        out
    }

    /// Attaches an input schema enforced before dispatch.
    pub fn with_input_schema(self, schema: Value) -> (r: Self)
        ensures
            r@ == (CapabilitiesV { input_schema: Some(schema@), ..self@ }),
    {
        let mut out = self;
        out.input_schema = Some(schema);
        out
    }
}

impl Default for ToolCapabilities {
    fn default() -> (r: Self)
        ensures
            r@ == no_capabilities(),
    {
        ToolCapabilities::new()
    }
}

impl Clone for ToolCapabilities {
    fn clone(&self) -> (r: Self)
        ensures
            r@ == self@,
    {
        ToolCapabilities {
            effects: match &self.effects {
                Some(e) => Some(e.clone()),
                None => None,
            },
            limits: self.limits,
            cost: self.cost,
            version: match &self.version {
                Some(v) => Some(v.clone()),
                None => None,
            },
            input_schema: match &self.input_schema {
                Some(v) => Some(v.clone()),
                None => None,
            },
            output_schema: match &self.output_schema {
                Some(v) => Some(v.clone()),
                None => None,
            },
        }
    }
}

/// Which adapters there are and what their tools can do.
///
/// Capabilities can be registered globally by tool name or scoped to one
/// adapter; the adapter-scoped entry wins, so two adapters exposing a tool
/// with the same name do not share metadata by accident.
pub struct ToolRegistry {
    adapters: StrSet,
    capabilities: StrMap<ToolCapabilities>,
    /// Adapter-scoped capabilities, by adapter and then by tool.
    adapter_capabilities: StrMap<StrMap<ToolCapabilities>>,
    blocked_tools: StrSet,
}

/// A registry as a mathematical value.
#[verifier::ext_equal]
pub struct RegistryV {
    pub adapters: Set<Seq<char>>,
    pub global: Map<Seq<char>, CapabilitiesV>,
    pub scoped: Map<(Seq<char>, Seq<char>), CapabilitiesV>,
    pub blocked: Set<Seq<char>>,
}

spec fn scoped_entry(
    m: StrMap<StrMap<ToolCapabilities>>,
    adapter: Seq<char>,
    tool: Seq<char>,
) -> Option<ToolCapabilities> {
    match lookup(m.pairs(), adapter) {
        Some(tools) => lookup(tools.pairs(), tool),
        None => None,
    }
}

impl View for ToolRegistry {
    type V = RegistryV;

    closed spec fn view(&self) -> RegistryV {
        RegistryV {
            adapters: self.adapters@,
            global: Map::new(
                |t: Seq<char>| lookup(self.capabilities.pairs(), t) is Some,
                |t: Seq<char>| lookup(self.capabilities.pairs(), t)->0@,
            ),
            scoped: Map::new(
                |k: (Seq<char>, Seq<char>)| scoped_entry(self.adapter_capabilities, k.0, k.1) is Some,
                |k: (Seq<char>, Seq<char>)| scoped_entry(self.adapter_capabilities, k.0, k.1)->0@,
            ),
            blocked: self.blocked_tools@,
        }
    }
}

/// What a map holds under a key.
pub open spec fn entry<K, V>(m: Map<K, V>, k: K) -> Option<V> {
    if m.dom().contains(k) {
        Some(m[k])
    } else {
        None
    }
}

/// The capabilities of a tool under an adapter: the adapter-scoped entry
/// first.
pub open spec fn capabilities_in(
    r: RegistryV,
    adapter: Seq<char>,
    tool: Seq<char>,
) -> Option<CapabilitiesV> {
    match entry(r.scoped, (adapter, tool)) {
        Some(c) => Some(c),
        None => entry(r.global, tool),
    }
}

/// What a declaration says, or else what the capabilities say.
pub open spec fn filled<T>(declared: Option<T>, known: Option<T>) -> Option<T> {
    match declared {
        Some(v) => Some(v),
        None => known,
    }
}

/// A tool declaration with what it omits filled in.
pub open spec fn hydrated_spec(spec: ToolSpecV, c: CapabilitiesV) -> ToolSpecV {
    ToolSpecV {
        adapter: spec.adapter,
        effects: filled(spec.effects, c.effects),
        limits: filled(spec.limits, c.limits),
        cost: filled(spec.cost, c.cost),
        version: filled(spec.version, c.version),
    }
}

/// The declaration of a tool with what it omits filled in from the registry.
pub open spec fn hydrated_tool(r: RegistryV, tool: Seq<char>, spec: ToolSpecV) -> ToolSpecV {
    match capabilities_in(r, spec.adapter, tool) {
        Some(c) => hydrated_spec(spec, c),
        None => spec,
    }
}

/// The plan with what its tools omit filled in from the registry.
pub open spec fn hydrated(r: RegistryV, plan: PlanV) -> PlanV {
    PlanV {
        tools: Seq::new(
            plan.tools.len(),
            |i: int| (plan.tools[i].0, hydrated_tool(r, plan.tools[i].0, plan.tools[i].1)),
        ),
        ..plan
    }
}

/// What a plan declares wins over what the registry knows.
pub proof fn declarations_win(r: RegistryV, plan: PlanV, i: int)
    requires
        0 <= i < plan.tools.len(),
    ensures
        hydrated(r, plan).tools[i].0 == plan.tools[i].0,
        hydrated(r, plan).tools[i].1.adapter == plan.tools[i].1.adapter,
        plan.tools[i].1.effects is Some ==> hydrated(r, plan).tools[i].1.effects
            == plan.tools[i].1.effects,
        plan.tools[i].1.limits is Some ==> hydrated(r, plan).tools[i].1.limits
            == plan.tools[i].1.limits,
        plan.tools[i].1.cost is Some ==> hydrated(r, plan).tools[i].1.cost
            == plan.tools[i].1.cost,
        plan.tools[i].1.version is Some ==> hydrated(r, plan).tools[i].1.version
            == plan.tools[i].1.version,
{
}

/// Filling in a plan a second time changes nothing.
pub proof fn hydration_is_idempotent(r: RegistryV, plan: PlanV)
    ensures
        hydrated(r, hydrated(r, plan)) == hydrated(r, plan),
{
    assert(hydrated(r, hydrated(r, plan)).tools =~= hydrated(r, plan).tools);
}

/// A registry in which nothing is registered.
pub open spec fn bare_registry() -> RegistryV {
    RegistryV {
        adapters: Set::empty(),
        global: Map::empty(),
        scoped: Map::empty(),
        blocked: Set::empty(),
    }
}

/// The capabilities of the built-in tools: they are pure.
pub open spec fn builtin_capabilities() -> CapabilitiesV {
    CapabilitiesV {
        effects: Some(
            EffectsV {
                pure: true,
                idempotent: true,
                cacheable: true,
                commutative: true,
                ..no_effects()
            },
        ),
        ..no_capabilities()
    }
}

/// A registry with the first `n` built-in tools registered.
pub open spec fn with_builtins(r: RegistryV, n: nat) -> RegistryV
    decreases n,
{
    if n == 0 {
        r
    } else {
        let before = with_builtins(r, (n - 1) as nat);
        RegistryV {
            scoped: before.scoped.insert(
                (BUILTIN_ADAPTER@, builtin_names()[n - 1]),
                builtin_capabilities(),
            ),
            ..before
        }
    }
}

/// A fresh registry: the built-in adapter with its four tools.
pub open spec fn fresh_registry() -> RegistryV {
    with_builtins(
        RegistryV { adapters: set![BUILTIN_ADAPTER@], ..bare_registry() },
        builtin_names().len(),
    )
}

fn copy_option_version(v: &Option<String>) -> (r: Option<String>)
    ensures
        opt_view(r) == opt_view(*v),
{
    match v {
        Some(t) => Some(t.clone()),
        None => None,
    }
}

/// The declaration with what it omits filled in.
pub fn merge_capabilities(spec: &ToolSpec, capabilities: &ToolCapabilities) -> (r: ToolSpec)
    ensures
        r@ == hydrated_spec(spec@, capabilities@),
{
    ToolSpec {
        adapter: spec.adapter.clone(),
        effects: match &spec.effects {
            Some(e) => Some(e.clone()),
            None => match &capabilities.effects {
                Some(e) => Some(e.clone()),
                None => None,
            },
        },
        limits: match spec.limits {
            Some(l) => Some(l),
            None => capabilities.limits,
        },
        cost: match spec.cost {
            Some(c) => Some(c),
            None => capabilities.cost,
        },
        version: match &spec.version {
            Some(v) => Some(v.clone()),
            None => copy_option_version(&capabilities.version),
        },
    }
}

impl ToolRegistry {
    /// A registry in which nothing is registered.
    pub fn bare() -> (r: Self)
        ensures
            r@ == bare_registry(),
    {
        let r = ToolRegistry {
            adapters: StrSet::new(),
            capabilities: StrMap::new(),
            adapter_capabilities: StrMap::new(),
            blocked_tools: StrSet::new(),
        };
        proof {
            assert forall|k: (Seq<char>, Seq<char>)| scoped_entry(
                r.adapter_capabilities,
                k.0,
                k.1,
            ) is None by {
                assert(lookup(r.adapter_capabilities.pairs(), k.0) is None);
            }
            assert(r@ =~= bare_registry());
        }
        r
    }

    /// Creates a registry with the built-in pure data adapter registered.
    pub fn new() -> (r: Self)
        ensures
            r@ == fresh_registry(),
    {
        let mut registry = ToolRegistry::bare();
        registry.register_adapter(BUILTIN_ADAPTER);
        assert(registry@.adapters =~= set![BUILTIN_ADAPTER@]);
        register_builtin_capabilities(&mut registry);
        registry
    }

    /// Registers an adapter.
    pub fn with_adapter(self, adapter: &str) -> (r: Self)
        ensures
            r@ == (RegistryV { adapters: self@.adapters.insert(adapter@), ..self@ }),
    {
        let mut out = self;
        out.register_adapter(adapter);
        out
    }

    /// Registers an adapter in place.
    pub fn register_adapter(&mut self, adapter: &str)
        ensures
            final(self)@ == (RegistryV {
                adapters: old(self)@.adapters.insert(adapter@),
                ..old(self)@
            }),
    {
        self.adapters.insert(adapter.to_owned());
        assert(self@ =~= (RegistryV {
            adapters: old(self)@.adapters.insert(adapter@),
            ..old(self)@
        }));
    }

    /// Whether the adapter is registered.
    pub fn has_adapter(&self, adapter: &str) -> (r: bool)
        ensures
            r == self@.adapters.contains(adapter@),
    {
        self.adapters.contains(adapter)
    }

    /// Registers capabilities for a tool name across all adapters.
    pub fn with_tool_capabilities(self, tool: &str, capabilities: ToolCapabilities) -> (r: Self)
        ensures
            r@ == (RegistryV { global: self@.global.insert(tool@, capabilities@), ..self@ }),
    {
        let mut out = self;
        out.register_tool_capabilities(tool, capabilities);
        out
    }

    /// Registers capabilities for a tool name across all adapters, in place.
    pub fn register_tool_capabilities(&mut self, tool: &str, capabilities: ToolCapabilities)
        ensures
            final(self)@ == (RegistryV {
                global: old(self)@.global.insert(tool@, capabilities@),
                ..old(self)@
            }),
    {
        self.capabilities.insert(tool.to_owned(), capabilities);
        proof {
            let want = old(self)@.global.insert(tool@, capabilities@);
            assert forall|t: Seq<char>| #[trigger] self@.global.dom().contains(t) <==> want.dom().contains(
                t,
            ) by {
                assert(lookup(self.capabilities.pairs(), t) is Some <==> want.dom().contains(t));
            }
            assert forall|t: Seq<char>| want.dom().contains(t) implies #[trigger] self@.global[t]
                == want[t] by {
                assert(lookup(self.capabilities.pairs(), t)->0@ == want[t]);
            }
            assert(self@.global =~= want);
            assert(self@ =~= (RegistryV { global: want, ..old(self)@ }));
        }
    }

    /// Registers capabilities scoped to `(adapter, tool)`; wins over the
    /// unscoped entry.
    pub fn register_adapter_tool_capabilities(
        &mut self,
        adapter: &str,
        tool: &str,
        capabilities: ToolCapabilities,
    )
        ensures
            final(self)@ == (RegistryV {
                scoped: old(self)@.scoped.insert((adapter@, tool@), capabilities@),
                ..old(self)@
            }),
    {
        let ghost before = self.adapter_capabilities;
        let mut tools = match self.adapter_capabilities.remove(adapter) {
            Some(tools) => tools,
            None => StrMap::new(),
        };
        let ghost inner = tools;
        tools.insert(tool.to_owned(), capabilities);
        self.adapter_capabilities.insert(adapter.to_owned(), tools);
        proof {
            let after = self.adapter_capabilities;
            let want = old(self)@.scoped.insert((adapter@, tool@), capabilities@);
            assert forall|a: Seq<char>, t: Seq<char>| scoped_entry(after, a, t) == if a == adapter@ && t
                == tool@ {
                Some(capabilities)
            } else {
                scoped_entry(before, a, t)
            } by {
                if a == adapter@ {
                    assert(lookup(after.pairs(), a) == Some(tools));
                    assert(lookup(tools.pairs(), t) == if t == tool@ {
                        Some(capabilities)
                    } else {
                        lookup(inner.pairs(), t)
                    });
                    if lookup(before.pairs(), a) is None {
                        assert(lookup(inner.pairs(), t) is None);
                    }
                } else {
                    assert(lookup(after.pairs(), a) == lookup(before.pairs(), a));
                }
            }
            assert forall|k: (Seq<char>, Seq<char>)| #[trigger] self@.scoped.dom().contains(k)
                <==> want.dom().contains(k) by {
                assert(scoped_entry(after, k.0, k.1) == if k.0 == adapter@ && k.1 == tool@ {
                    Some(capabilities)
                } else {
                    scoped_entry(before, k.0, k.1)
                });
                assert(k == (k.0, k.1));
            }
            assert forall|k: (Seq<char>, Seq<char>)| want.dom().contains(k) implies #[trigger] self@.scoped[k]
                == want[k] by {
                assert(scoped_entry(after, k.0, k.1) == if k.0 == adapter@ && k.1 == tool@ {
                    Some(capabilities)
                } else {
                    scoped_entry(before, k.0, k.1)
                });
                assert(k == (k.0, k.1));
            }
            assert(self@.scoped =~= want);
            assert(self@ =~= (RegistryV { scoped: want, ..old(self)@ }));
        }
    }

    /// Blocks a tool name from executing (recursion / policy guard). Nodes
    /// calling a blocked tool fail with code `blocked_tool`.
    pub fn block_tool(&mut self, tool: &str)
        ensures
            final(self)@ == (RegistryV {
                blocked: old(self)@.blocked.insert(tool@),
                ..old(self)@
            }),
    {
        self.blocked_tools.insert(tool.to_owned());
        assert(self@ =~= (RegistryV { blocked: old(self)@.blocked.insert(tool@), ..old(self)@ }));
    }

    /// Blocked variant of [`Self::block_tool`] for builder chains.
    pub fn with_blocked_tool(self, tool: &str) -> (r: Self)
        ensures
            r@ == (RegistryV { blocked: self@.blocked.insert(tool@), ..self@ }),
    {
        let mut out = self;
        out.block_tool(tool);
        out
    }

    /// Whether `tool` is blocked.
    pub fn is_blocked(&self, tool: &str) -> (r: bool)
        ensures
            r == self@.blocked.contains(tool@),
    {
        self.blocked_tools.contains(tool)
    }

    /// Capabilities for `tool` under `adapter`, adapter-scoped entry first.
    pub fn capabilities_for(&self, adapter: &str, tool: &str) -> (r: Option<&ToolCapabilities>)
        ensures
            match (r, capabilities_in(self@, adapter@, tool@)) {
                (Some(c), Some(m)) => c@ == m,
                (None, None) => true,
                _ => false,
            },
    {
        let ghost k = (adapter@, tool@);
        assert(self@.scoped.dom().contains(k) == (scoped_entry(
            self.adapter_capabilities,
            adapter@,
            tool@,
        ) is Some));
        if let Some(tools) = self.adapter_capabilities.get(adapter) {
            if let Some(capabilities) = tools.get(tool) {
                return Some(capabilities);
            }
        }
        self.capabilities.get(tool)
    }

    /// Unscoped capabilities for `tool`.
    pub fn capabilities(&self, tool: &str) -> (r: Option<&ToolCapabilities>)
        ensures
            match (r, entry(self@.global, tool@)) {
                (Some(c), Some(m)) => c@ == m,
                (None, None) => true,
                _ => false,
            },
    {
        self.capabilities.get(tool)
    }

    /// Fills missing effects/limits/cost/version on plan tools from the
    /// registered capabilities.
    pub fn apply_capabilities(&self, plan: &mut Plan)
        ensures
            final(plan)@ == hydrated(self@, old(plan)@),
    {
        let ghost before = plan@;
        let mut tools: StrMap<ToolSpec> = StrMap::new();
        std::mem::swap(&mut tools, &mut plan.tools);
        let mut out: StrMap<ToolSpec> = StrMap::new();
        tools.prove_sorted();
        let mut i: usize = 0;
        while i < tools.len()
            invariant
                i <= tools.pairs().len(),
                sorted_pairs(tools.pairs()),
                before.tools == pairs_view(tools),
                out.pairs().len() == i,
                forall|j: int|
                    0 <= j < i ==> (#[trigger] out.pairs()[j]).0 == tools.pairs()[j].0
                        && out.pairs()[j].1@ == hydrated(self@, before).tools[j].1,
            decreases tools.pairs().len() - i,
        {
            let key = tools.key_at(i).to_owned();
            let spec = tools.value_at(i);
            assert(before.tools[i as int] == (key@, spec@));
            let next = match self.capabilities_for(spec.adapter.as_str(), key.as_str()) {
                Some(capabilities) => merge_capabilities(spec, capabilities),
                None => spec.clone(),
            };
            assert forall|j: int| 0 <= j < out.pairs().len() implies lex_less(
                #[trigger] out.pairs()[j].0,
                key@,
            ) by {
                assert(lex_less(tools.pairs()[j].0, tools.pairs()[i as int].0));
            }
            out.push(key, next);
            i = i + 1;
        }
        assert(pairs_view(out) =~= hydrated(self@, before).tools);
        plan.tools = out;
        assert(plan@ =~= hydrated(self@, before));
    }
}

impl Default for ToolRegistry {
    fn default() -> (r: Self)
        ensures
            r@ == bare_registry(),
    {
        ToolRegistry::bare()
    }
}

/// Registers the built-in tools: all of them are pure.
pub fn register_builtin_capabilities(registry: &mut ToolRegistry)
    ensures
        final(registry)@ == with_builtins(old(registry)@, builtin_names().len()),
{
    let names = builtin_tools();
    let ghost all = builtin_names();
    assert(Seq::new(4, |i: int| names@[i]@) == all);
    let mut i: usize = 0;
    while i < 4
        invariant
            i <= 4,
            all == builtin_names(),
            Seq::new(4, |i: int| names@[i]@) == all,
            registry@ == with_builtins(old(registry)@, i as nat),
        decreases 4 - i,
    {
        assert(Seq::new(4, |i: int| names@[i]@)[i as int] == all[i as int]);
        registry.register_adapter_tool_capabilities(
            BUILTIN_ADAPTER,
            names[i],
            ToolCapabilities::new().with_effects(Effects::pure()),
        );
        i = i + 1;
    }
}

} // verus!
