//! Per-node effects and when two nodes may run at the same time.

use vstd::prelude::*;

use crate::effects::{resolve_resource_template, Effects, EffectsV};
use crate::json::{Json, Value};
use crate::ordered::StrSet;
use crate::plan::{Node, NodeV};
use crate::text::same_text;

verus! {

use crate::effects::{declares, resolved_resource};

/// A node's effects after resolving `{placeholder}` resource templates
/// against its input.
#[derive(Debug, PartialEq, Eq)]
pub struct ResolvedEffects {
    /// Tool the node calls (commutativity only applies within one tool).
    pub tool: String,
    /// Whether the declaration says anything about side effects; vacuous or
    /// missing declarations leave this `false` and block parallelization.
    pub declared: bool,
    /// Declared purity.
    pub pure: bool,
    /// Resolved read resources.
    pub reads: StrSet,
    /// Resolved write resources.
    pub writes: StrSet,
    /// Declared commutativity.
    pub commutative: bool,
}

/// Resolved effects as a mathematical value.
#[verifier::ext_equal]
pub struct ResolvedV {
    pub tool: Seq<char>,
    pub declared: bool,
    pub pure: bool,
    pub reads: Set<Seq<char>>,
    pub writes: Set<Seq<char>>,
    pub commutative: bool,
}

impl View for ResolvedEffects {
    type V = ResolvedV;

    open spec fn view(&self) -> ResolvedV {
        ResolvedV {
            tool: self.tool@,
            declared: self.declared,
            pure: self.pure,
            reads: self.reads@,
            writes: self.writes@,
            commutative: self.commutative,
        }
    }
}

/// The resources that a set of templates names for an input.
pub open spec fn resolved_set(templates: Set<Seq<char>>, input: Json) -> Set<Seq<char>> {
    Set::new(
        |r: Seq<char>|
            exists|t: Seq<char>| #[trigger] templates.contains(t) && r == resolved_resource(t, input),
    )
}

/// The effects of one node.
pub open spec fn node_effects(node: NodeV, effects: Option<EffectsV>) -> ResolvedV {
    match effects {
        None => ResolvedV {
            tool: node.tool,
            declared: false,
            pure: false,
            reads: Set::empty(),
            writes: Set::empty(),
            commutative: false,
        },
        Some(e) => ResolvedV {
            tool: node.tool,
            declared: declares(e),
            pure: e.pure,
            reads: resolved_set(e.reads, node.input),
            writes: resolved_set(e.writes, node.input),
            commutative: e.commutative,
        },
    }
}

/// Two nodes may run at the same time: both declare their side effects, and
/// either both are pure, or neither writes what the other reads and their
/// writes are disjoint or commute within one tool.
pub open spec fn compatible(a: ResolvedV, b: ResolvedV) -> bool {
    &&& a.declared
    &&& b.declared
    &&& {
        ||| a.pure && b.pure
        ||| {
            &&& a.writes.disjoint(b.reads)
            &&& b.writes.disjoint(a.reads)
            &&& a.writes.disjoint(b.writes) || (a.tool == b.tool && a.commutative
                && b.commutative)
        }
    }
}

/// A pure node writes nothing.
pub open spec fn coherent(e: ResolvedV) -> bool {
    e.pure ==> e.writes == Set::<Seq<char>>::empty()
}

/// Whether two nodes may run at the same time does not depend on which of
/// them is asked.
pub proof fn compatible_symmetric(a: ResolvedV, b: ResolvedV)
    ensures
        compatible(a, b) == compatible(b, a),
{
    assert(a.writes.disjoint(b.writes) == b.writes.disjoint(a.writes));
}

/// A node whose declaration is missing or vacuous runs with no other node.
pub proof fn undeclared_runs_alone(node: NodeV, effects: Option<EffectsV>, other: ResolvedV)
    requires
        effects is None || !declares(effects->0),
    ensures
        !compatible(node_effects(node, effects), other),
        !compatible(other, node_effects(node, effects)),
{
}

fn resolve_set(templates: &StrSet, input: &Value) -> (r: StrSet)
    ensures
        r@ == resolved_set(templates@, input@),
{
    let mut out = StrSet::new();
    let mut i: usize = 0;
    let ghost items = templates.items();
    assert(out@ =~= resolved_set(items.take(0).to_set(), input@)) by {
        assert(items.take(0).to_set() =~= Set::empty());
    }
    while i < templates.len()
        invariant
            i <= items.len(),
            items == templates.items(),
            out@ == resolved_set(items.take(i as int).to_set(), input@),
        decreases items.len() - i,
    {
        let template = templates.item_at(i);
        let resource = resolve_resource_template(template, input);
        let ghost added = resource@;
        out.insert(resource);
        proof {
            let before = items.take(i as int);
            let next = items.take(i + 1);
            let x = items[i as int];
            assert(next =~= before.push(x));
            assert forall|r: Seq<char>| #[trigger] resolved_set(next.to_set(), input@).contains(r)
                <==> resolved_set(before.to_set(), input@).insert(added).contains(r) by {
                if resolved_set(next.to_set(), input@).contains(r) {
                    let t = choose|t: Seq<char>| #[trigger]
                        next.to_set().contains(t) && r == resolved_resource(t, input@);
                    let p = choose|p: int| 0 <= p < next.len() && next[p] == t;
                    if p < i {
                        assert(before[p] == t);
                        assert(before.to_set().contains(t));
                    }
                }
                if resolved_set(before.to_set(), input@).contains(r) {
                    let t = choose|t: Seq<char>| #[trigger]
                        before.to_set().contains(t) && r == resolved_resource(t, input@);
                    let p = choose|p: int| 0 <= p < before.len() && before[p] == t;
                    assert(next[p] == t);
                    assert(next.to_set().contains(t));
                }
                assert(next[i as int] == x);
                assert(next.to_set().contains(x));
            }
            assert(out@ =~= resolved_set(next.to_set(), input@));
        }
        i = i + 1;
    }
    assert(items.take(i as int) =~= items);
    out
}

impl ResolvedEffects {
    /// The effects of `node` when its tool declares `effects`.
    pub fn for_node(node: &Node, effects: Option<&Effects>) -> (r: Self)
        ensures
            r@ == node_effects(
                node@,
                match effects {
                    Some(e) => Some(e@),
                    None => None,
                },
            ),
    {
        match effects {
            None => ResolvedEffects {
                tool: node.tool.clone(),
                declared: false,
                pure: false,
                reads: StrSet::new(),
                writes: StrSet::new(),
                commutative: false,
            },
            Some(effects) => ResolvedEffects {
                tool: node.tool.clone(),
                declared: effects.declares_side_effects(),
                pure: effects.pure,
                reads: resolve_set(&effects.reads, &node.input),
                writes: resolve_set(&effects.writes, &node.input),
                commutative: effects.commutative,
            },
        }
    }

    /// Whether this node may share a layer (run concurrently) with `other`.
    ///
    /// Requires both sides to actually declare side-effect knowledge; then
    /// purity, disjoint read/write sets, or same-tool commutativity (for
    /// write/write overlap only) permit concurrency.
    pub fn can_run_with(&self, other: &Self) -> (r: bool)
        ensures
            r == compatible(self@, other@),
    {
        if !self.declared || !other.declared {
            return false;
        }
        if self.pure && other.pure {
            return true;
        }
        let write_read_race = !self.writes.is_disjoint(&other.reads) || !other.writes.is_disjoint(
            &self.reads,
        );
        if write_read_race {
            return false;
        }
        if self.writes.is_disjoint(&other.writes) {
            return true;
        }
        same_text(self.tool.as_str(), other.tool.as_str()) && self.commutative && other.commutative
    }
}

impl Clone for ResolvedEffects {
    fn clone(&self) -> (r: Self)
        ensures
            r@ == self@,
    {
        ResolvedEffects {
            tool: self.tool.clone(),
            declared: self.declared,
            pure: self.pure,
            reads: self.reads.clone(),
            writes: self.writes.clone(),
            commutative: self.commutative,
        }
    }
}

} // verus!
