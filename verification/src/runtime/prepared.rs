//! Plans compiled once and runnable many times.

use vstd::prelude::*;

use crate::graph::validate::{validate, ExecutionGraph, GraphV};
use crate::optimizer::batch::BatchV;
use crate::optimizer::pipeline::{optimize, OptimizedV};
use crate::optimizer::report::{BatchGroup, OptimizationReport};
use crate::plan::{Plan, PlanV};
use crate::runtime::cache::{CacheV, MemoryCache};
use crate::runtime::config::RunConfig;
use crate::runtime::drive::Engine;
use crate::runtime::engine::Program;
use crate::runtime::error::RuntimeError;
use crate::runtime::registry::{RegistryV, ToolRegistry};

verus! {

use crate::optimizer::dce::valid_ids_distinct;
use crate::optimizer::dedup::is_deduplicated;
use crate::optimizer::pipeline::{is_optimized, is_plan_error, valid_graph};
use crate::ordered::{pairs_view_lookup, views};
use crate::runtime::cache::{empty_cache, DEFAULT_MAX_ENTRIES};
use crate::runtime::model::initial;
use crate::runtime::registry::{fresh_registry, hydrated};
use crate::runtime::wiring::{
    found_groups_fit, graph_fits, groups_fit, program_of, reports, start_error,
    starting_is_no_graph_error, valid_graphs_fit,
};

/// A plan compiled once and runnable many times (see [`Runtime::prepare`]).
pub struct PreparedPlan {
    plan: Plan,
    graph: ExecutionGraph,
    report: OptimizationReport,
}

impl View for PreparedPlan {
    type V = OptimizedV;

    closed spec fn view(&self) -> OptimizedV {
        OptimizedV { plan: self.plan@, graph: self.graph@, report: self.report@ }
    }
}

impl PreparedPlan {
    #[verifier::type_invariant]
    spec fn runnable(&self) -> bool {
        &&& graph_fits(self.plan@, self.graph@)
        &&& groups_fit(self.plan@, views(self.report.batch_groups@))
    }

    /// The optimized plan.
    pub fn plan(&self) -> (r: &Plan)
        ensures
            r@ == self@.plan,
    {
        &self.plan
    }

    /// The optimization report.
    pub fn report(&self) -> (r: &OptimizationReport)
        ensures
            r@ == self@.report,
    {
        &self.report
    }
}

/// What starting a run gives: the first state of the program, or why the
/// program cannot run on the registry.
pub open spec fn starts(
    r: Result<Engine, RuntimeError>,
    plan: PlanV,
    g: GraphV,
    groups: Seq<BatchV>,
    registry: RegistryV,
    config: RunConfig,
    serial: bool,
) -> bool {
    match (r, start_error(plan, registry)) {
        (Ok(e), None) => {
            &&& e.wf()
            &&& e.program@ == program_of(plan, g, groups, registry, config, serial)
            &&& e@ == initial(e.program@)
        },
        (Err(e), Some(m)) => reports(e@, m),
        _ => false,
    }
}

/// The executor of compiled tool graphs: what is registered, and what was
/// cached.
pub struct Runtime {
    pub registry: ToolRegistry,
    pub cache: MemoryCache,
}

impl Runtime {
    /// What is registered.
    pub open spec fn known(&self) -> RegistryV {
        self.registry@
    }

    /// Runtime with exactly one adapter registered under `adapter`.
    pub fn single_adapter(adapter: &str) -> (r: Self)
        ensures
            r.known() == (RegistryV {
                adapters: fresh_registry().adapters.insert(adapter@),
                ..fresh_registry()
            }),
            r.cache@ == empty_cache(DEFAULT_MAX_ENTRIES as nat, None),
    {
        Runtime::from_registry(ToolRegistry::new().with_adapter(adapter))
    }

    /// Runtime over a registry with the default in-memory cache.
    pub fn from_registry(registry: ToolRegistry) -> (r: Self)
        ensures
            r.known() == registry@,
            r.cache@ == empty_cache(DEFAULT_MAX_ENTRIES as nat, None),
    {
        Runtime::with_cache(registry, MemoryCache::new())
    }

    /// Runtime over a registry with a given cache.
    pub fn with_cache(registry: ToolRegistry, cache: MemoryCache) -> (r: Self)
        ensures
            r.known() == registry@,
            r.cache@ == cache@,
    {
        Runtime { registry, cache }
    }

    /// The adapter/capability registry.
    pub fn registry(&self) -> (r: &ToolRegistry)
        ensures
            r@ == self.known(),
    {
        &self.registry
    }

    /// Drops every cached tool output.
    pub fn clear_cache(&mut self)
        ensures
            final(self).known() == old(self).known(),
            final(self).cache@ == (CacheV { entries: Map::empty(), ..old(self).cache@ }),
    {
        self.cache.clear();
    }

    /// Hydrates and optimizes `plan` once; the result can be executed many
    /// times with [`Runtime::start_prepared`] without re-optimizing.
    pub fn prepare(&self, plan: Plan) -> (r: Result<PreparedPlan, RuntimeError>)
        requires
            plan.nodes@.len() < usize::MAX,
        ensures
            match r {
                Ok(p) => exists|d: PlanV, g: GraphV| #[trigger]
                    is_optimized(hydrated(self.known(), plan@), d, g, p@),
                Err(e) => e@ is Graph && exists|d: PlanV|
                    is_deduplicated(hydrated(self.known(), plan@), d) && #[trigger] is_plan_error(
                        d,
                        e@->Graph_0,
                    ),
            },
    {
        let mut plan = plan;
        let ghost before = plan@;
        self.registry.apply_capabilities(&mut plan);
        let ghost full = plan@;
        proof {
            assert(views(plan.nodes@) == before.nodes);
            assert(plan.nodes@.len() == before.nodes.len());
        }
        match optimize(plan) {
            Ok(optimized) => {
                let ghost o = optimized@;
                let (plan, graph, report) = optimized.into_parts();
                proof {
                    let (d, g) = choose|d: PlanV, g: GraphV| #[trigger] is_optimized(full, d, g, o);
                    assert(is_optimized(full, d, g, o));
                    valid_graphs_fit(o.plan, o.graph);
                    found_groups_fit(o.plan, o.graph);
                }
                let prepared = PreparedPlan { plan, graph, report };
                assert(prepared@ =~= o);
                Ok(prepared)
            },
            Err(e) => Err(RuntimeError::Graph(e)),
        }
    }

    /// Starts a run of an already prepared plan.
    pub fn start_prepared(&self, prepared: &PreparedPlan, config: RunConfig) -> (r: Result<
        Engine,
        RuntimeError,
    >)
        ensures
            starts(
                r,
                prepared@.plan,
                prepared@.graph,
                prepared@.report.batch_groups,
                self.known(),
                config,
                false,
            ),
    {
        proof {
            use_type_invariant(prepared);
        }
        match Program::assemble(
            prepared.plan.clone(),
            &prepared.graph,
            &prepared.report.batch_groups,
            &self.registry,
            config,
            false,
        ) {
            Ok(program) => Ok(Engine::start(program)),
            Err(e) => Err(e),
        }
    }

    /// Validates `plan` and starts a run of it without optimizer passes: no
    /// dedup, no elimination, no batching. A serial run takes one dispatch at
    /// a time in graph order.
    pub fn start_unoptimized(&self, plan: Plan, config: RunConfig, serial: bool) -> (r: Result<
        Engine,
        RuntimeError,
    >)
        requires
            plan.nodes@.len() < usize::MAX,
        ensures
            ({
                let full = hydrated(self.known(), plan@);
                match r {
                    Err(e) if e@ is Graph => is_plan_error(full, e@->Graph_0),
                    _ => exists|g: GraphV|
                        #[trigger] valid_graph(full, g) && starts(
                            r,
                            full,
                            g,
                            Seq::empty(),
                            self.known(),
                            config,
                            serial,
                        ),
                }
            }),
    {
        let mut plan = plan;
        let ghost before = plan@;
        self.registry.apply_capabilities(&mut plan);
        let ghost full = plan@;
        proof {
            assert(views(plan.nodes@) == before.nodes);
            assert(plan.nodes@.len() == before.nodes.len());
        }
        let graph = match validate(&plan) {
            Ok(graph) => graph,
            Err(e) => {
                assert(is_plan_error(full, e@));
                return Err(RuntimeError::Graph(e));
            },
        };
        plan.tools.prove_sorted();
        let ghost g = graph@;
        let none: Vec<BatchGroup> = Vec::new();
        proof {
            pairs_view_lookup(plan.tools, Seq::empty());
            assert(valid_graph(full, g));
            valid_ids_distinct(full.nodes);
            valid_graphs_fit(full, g);
            assert(views(none@) =~= Seq::empty());
        }
        match Program::assemble(plan, &graph, &none, &self.registry, config, serial) {
            Ok(program) => {
                let engine = Engine::start(program);
                assert(starts(Ok(engine), full, g, Seq::empty(), self.known(), config, serial));
                Ok(engine)
            },
            Err(e) => {
                proof {
                    starting_is_no_graph_error(e@, start_error(full, self.known())->0);
                    assert(starts(Err(e), full, g, Seq::empty(), self.known(), config, serial));
                }
                Err(e)
            },
        }
    }
}

} // verus!
