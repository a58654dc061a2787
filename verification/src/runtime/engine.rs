//! What a run executes: units, their dependencies, and the checks of a plan
//! before anything starts.

use vstd::prelude::*;

use crate::graph::resolved::ResolvedEffects;
use crate::json::Value;
use crate::ordered::{StrMap, StrSet};
use crate::plan::{Node, Plan};
use crate::runtime::config::RunConfig;
use crate::runtime::locks::LockRequest;
use crate::runtime::model::{ProgramV, UnitV};

verus! {

use crate::optimizer::batch::{has_node, node_named};
use crate::ordered::{map_view, views};
use crate::runtime::model::{data_deps, program_wf};
use crate::text::texts_view;

/// One schedulable unit: a single node or an optimizer batch group.
#[derive(Debug)]
pub struct Unit {
    /// Member node ids.
    pub members: Vec<String>,
    pub tool: String,
    pub adapter: String,
    pub batch: bool,
    pub lock: LockRequest,
    pub cost: u64,
}

impl View for Unit {
    type V = UnitV;

    open spec fn view(&self) -> UnitV {
        UnitV {
            members: texts_view(self.members@),
            tool: self.tool@,
            adapter: self.adapter@,
            batch: self.batch,
            lock: self.lock@,
            cost: self.cost,
        }
    }
}

/// What does not change during a run.
pub struct Program {
    pub plan: Plan,
    pub node_index: StrMap<usize>,
    pub data_deps: StrMap<StrSet>,
    pub effects: StrMap<ResolvedEffects>,
    pub units: Vec<Unit>,
    /// How many units each unit waits for.
    pub waits: Vec<usize>,
    /// The units that wait for each unit.
    pub dependents: Vec<Vec<usize>>,
    /// Scheduling priority per unit (higher goes first): declared cost, or
    /// inverted serial position when running serially.
    pub keys: Vec<u64>,
    pub blocked_tools: StrSet,
    pub schemas: StrMap<Value>,
    pub config: RunConfig,
    pub serial: bool,
    /// The units that each unit waits for.
    pub deps: Ghost<Seq<Set<int>>>,
}

impl View for Program {
    type V = ProgramV;

    open spec fn view(&self) -> ProgramV {
        ProgramV {
            plan: self.plan@,
            effects: map_view(self.effects),
            units: views(self.units@),
            deps: self.deps@,
            keys: self.keys@,
            blocked_tools: self.blocked_tools@,
            schemas: map_view(self.schemas),
            config: self.config,
            serial: self.serial,
        }
    }
}

impl Program {
    /// The tables agree with the plan and with one another.
    pub open spec fn wf(&self) -> bool {
        let nodes = self.plan@.nodes;
        &&& program_wf(self@)
        &&& forall|id: Seq<char>| #[trigger]
            self.node_index@.dom().contains(id) <==> has_node(nodes, id)
        &&& forall|id: Seq<char>| #[trigger]
            self.node_index@.dom().contains(id) ==> self.node_index@[id] < self.plan.nodes@.len()
                && self.plan.nodes@[self.node_index@[id] as int]@ == node_named(nodes, id)
        &&& forall|id: Seq<char>| #[trigger]
            has_node(nodes, id) ==> self.data_deps@.dom().contains(id) && self.data_deps@[id]@
                == data_deps(node_named(nodes, id))
        &&& self.waits@.len() == self.units@.len()
        &&& forall|u: int|
            0 <= u < self.units@.len() ==> (#[trigger] self.waits@[u]) == self.deps@[u].len()
        &&& self.dependents@.len() == self.units@.len()
        &&& forall|u: int|
            0 <= u < self.units@.len() ==> are_dependents(
                self.deps@,
                u,
                (#[trigger] self.dependents@[u])@,
            )
    }

    /// The node with the id.
    pub fn node(&self, id: &str) -> (r: &Node)
        requires
            self.wf(),
            has_node(self.plan@.nodes, id@),
        ensures
            r@ == node_named(self.plan@.nodes, id@),
            r@.id == id@,
    {
        assert(self.node_index@.dom().contains(id@));
        match self.node_index.get(id) {
            Some(at) => &self.plan.nodes[*at],
            None => &self.plan.nodes[0],
        }
    }
}

/// The list holds the units that wait for `u`, each once.
pub open spec fn are_dependents(deps: Seq<Set<int>>, u: int, list: Seq<usize>) -> bool {
    &&& list.no_duplicates()
    &&& forall|d: usize| #[trigger]
        list.contains(d) <==> 0 <= d < deps.len() && deps[d as int].contains(u)
}

} // verus!
