//! Diagnostics explaining why safe parallelization was blocked.

use vstd::prelude::*;

use crate::graph::resolved::{ResolvedEffects, ResolvedV};
use crate::graph::validate::{ExecutionGraph, GraphV};
use crate::optimizer::rewrite::set_items;
use crate::ordered::{StrMap, StrSet};
use crate::plan::{Plan, PlanV};
use crate::text::wrapped;

verus! {

use crate::graph::validate::{flattened, text_lists};
use crate::optimizer::batch::has_node;
use crate::optimizer::dce::{closed_under_deps, deps_of};
use crate::ordered::{
    lookup, opt_view, pairs_view, pairs_view_lookup, sorted_pairs, sorted_texts, views,
};
use crate::text::{lex_less, texts_view};

/// Machine-readable category of a diagnostic.
#[derive(Clone, Copy, Debug, PartialEq, Eq, Structural)]
pub enum DiagnosticKind {
    /// Nodes could not be parallelized because their tools declare no usable
    /// side-effect knowledge (missing or vacuous effects).
    MissingEffects,
    /// Nodes could not be parallelized because their declared effects touch
    /// the same resource.
    ResourceConflict,
}

/// One optimizer diagnostic: which nodes were held back and why.
#[derive(Clone, Debug, PartialEq, Eq)]
pub struct Diagnostic {
    /// Diagnostic category.
    pub kind: DiagnosticKind,
    /// Nodes involved, sorted.
    pub nodes: Vec<String>,
    /// Conflicting resource, for [`DiagnosticKind::ResourceConflict`].
    pub resource: Option<String>,
    /// Human-readable explanation.
    pub message: String,
}

/// A diagnostic as a mathematical value.
#[verifier::ext_equal]
pub struct DiagnosticV {
    pub kind: DiagnosticKind,
    pub nodes: Seq<Seq<char>>,
    pub resource: Option<Seq<char>>,
    pub message: Seq<char>,
}

impl View for Diagnostic {
    type V = DiagnosticV;

    open spec fn view(&self) -> DiagnosticV {
        DiagnosticV {
            kind: self.kind,
            nodes: texts_view(self.nodes@),
            resource: opt_view(self.resource),
            message: self.message@,
        }
    }
}

// ---------------------------------------------------------------------------
// Model
// ---------------------------------------------------------------------------

/// The nodes that a node depends on, directly or through others.
pub open spec fn ancestors(g: GraphV, id: Seq<char>) -> Set<Seq<char>> {
    Set::new(
        |a: Seq<char>|
            forall|s: Set<Seq<char>>|
                deps_of(g, id).subset_of(s) && #[trigger] closed_under_deps(g, s) ==> s.contains(a),
    )
}

/// Some layer holds the node.
pub open spec fn in_layers(g: GraphV, id: Seq<char>) -> bool {
    exists|k: int| 0 <= k < g.layers.len() && (#[trigger] g.layers[k]).contains(id)
}

/// The layer that holds the node.
pub open spec fn layer_of(g: GraphV, id: Seq<char>) -> int {
    choose|k: int| 0 <= k < g.layers.len() && (#[trigger] g.layers[k]).contains(id)
}

/// The nodes stand in different layers, and neither depends on the other.
pub open spec fn unordered_apart(g: GraphV, a: Seq<char>, b: Seq<char>) -> bool {
    &&& layer_of(g, a) != layer_of(g, b)
    &&& !ancestors(g, a).contains(b)
    &&& !ancestors(g, b).contains(a)
}

/// Each node of the chain depends on the next.
pub open spec fn is_chain(g: GraphV, chain: Seq<Seq<char>>) -> bool {
    &&& chain.len() >= 2
    &&& forall|i: int|
        0 <= i < chain.len() - 1 ==> #[trigger] deps_of(g, chain[i]).contains(chain[i + 1])
}

/// A chain of dependencies leads from the one node to the other.
pub open spec fn leads_to(g: GraphV, a: Seq<char>, b: Seq<char>) -> bool {
    exists|chain: Seq<Seq<char>>| #[trigger]
        is_chain(g, chain) && chain[0] == a && chain.last() == b
}

proof fn lemma_chain_stays(g: GraphV, chain: Seq<Seq<char>>, s: Set<Seq<char>>, k: int)
    requires
        is_chain(g, chain),
        deps_of(g, chain[0]).subset_of(s),
        closed_under_deps(g, s),
        1 <= k < chain.len(),
    ensures
        s.contains(chain[k]),
    decreases k,
{
    assert(deps_of(g, chain[k - 1]).contains(chain[k - 1 + 1]));
    if k > 1 {
        reveal(closed_under_deps);
        lemma_chain_stays(g, chain, s, k - 1);
    }
}

proof fn lemma_ancestors_by_chains(g: GraphV, a: Seq<char>, b: Seq<char>)
    ensures
        ancestors(g, a).contains(b) == leads_to(g, a, b),
{
    if leads_to(g, a, b) {
        let chain = choose|chain: Seq<Seq<char>>| #[trigger]
            is_chain(g, chain) && chain[0] == a && chain.last() == b;
        assert forall|s: Set<Seq<char>>|
            deps_of(g, a).subset_of(s) && #[trigger] closed_under_deps(g, s) implies s.contains(
            b,
        ) by {
            lemma_chain_stays(g, chain, s, chain.len() - 1);
        }
    }
    if ancestors(g, a).contains(b) {
        let s = Set::new(|x: Seq<char>| leads_to(g, a, x));
        assert forall|x: Seq<char>| deps_of(g, a).contains(x) implies s.contains(x) by {
            assert(is_chain(g, seq![a, x]));
        }
        assert forall|x: Seq<char>, y: Seq<char>|
            s.contains(x) && #[trigger] deps_of(g, x).contains(y) implies s.contains(y) by {
            let chain = choose|chain: Seq<Seq<char>>| #[trigger]
                is_chain(g, chain) && chain[0] == a && chain.last() == x;
            let longer = chain.push(y);
            assert forall|i: int| 0 <= i < longer.len() - 1 implies #[trigger] deps_of(
                g,
                longer[i],
            ).contains(longer[i + 1]) by {
                if i < chain.len() - 1 {
                    assert(deps_of(g, chain[i]).contains(chain[i + 1]));
                }
            }
            assert(is_chain(g, longer));
        }
        assert(closed_under_deps(g, s)) by {
            reveal(closed_under_deps);
        }
    }
}

/// Two nodes count as unordered exactly when they stand in different layers
/// and no chain of dependencies leads from either to the other, whichever of
/// the two is named first.
pub proof fn unordered_nodes_have_no_chain(g: GraphV, a: Seq<char>, b: Seq<char>)
    ensures
        unordered_apart(g, a, b) <==> layer_of(g, a) != layer_of(g, b) && !leads_to(g, a, b)
            && !leads_to(g, b, a),
        unordered_apart(g, a, b) == unordered_apart(g, b, a),
{
    lemma_ancestors_by_chains(g, a, b);
    lemma_ancestors_by_chains(g, b, a);
}

/// Every node stands in one place, and what a node depends on stands in
/// earlier layers.
pub open spec fn layers_wf(g: GraphV) -> bool {
    &&& forall|k: int, x: int, l: int, y: int|
        0 <= k < g.layers.len() && 0 <= x < g.layers[k].len() && 0 <= l < g.layers.len() && 0 <= y
            < g.layers[l].len() && #[trigger] g.layers[k][x] == #[trigger] g.layers[l][y] ==> k == l
            && x == y
    &&& forall|k: int, x: int, d: Seq<char>|
        0 <= k < g.layers.len() && 0 <= x < g.layers[k].len() && #[trigger] deps_of(
            g,
            g.layers[k][x],
        ).contains(d) ==> held_before(g, k, d)
}

/// A layer before `k` holds the node.
pub open spec fn held_before(g: GraphV, k: int, d: Seq<char>) -> bool {
    exists|l: int| 0 <= l < k && (#[trigger] g.layers[l]).contains(d)
}

/// The effects of a node of both the plan and the graph.
pub open spec fn known_effects(plan: PlanV, g: GraphV, id: Seq<char>) -> Option<ResolvedV> {
    if has_node(plan.nodes, id) && in_layers(g, id) {
        lookup(g.resolved_effects, id)
    } else {
        None
    }
}

/// The nodes whose missing or vacuous effects keep them apart from a node
/// that they are not ordered with.
pub open spec fn missing_effects(plan: PlanV, g: GraphV) -> Set<Seq<char>> {
    Set::new(
        |id: Seq<char>|
            {
                &&& known_effects(plan, g, id) is Some
                &&& !known_effects(plan, g, id)->0.declared
                &&& exists|o: Seq<char>|
                    in_layers(g, o) && o != id && #[trigger] unordered_apart(g, id, o)
            },
    )
}

/// The node declares that it writes the resource.
pub open spec fn writes_to(plan: PlanV, g: GraphV, id: Seq<char>, r: Seq<char>) -> bool {
    match known_effects(plan, g, id) {
        Some(e) => e.declared && e.writes.contains(r),
        None => false,
    }
}

/// The node declares that it reads the resource.
pub open spec fn reads_from(plan: PlanV, g: GraphV, id: Seq<char>, r: Seq<char>) -> bool {
    match known_effects(plan, g, id) {
        Some(e) => e.declared && e.reads.contains(r),
        None => false,
    }
}

/// The nodes that a resource keeps apart: a writer and any other node that
/// touches the resource, when the two are not ordered.
pub open spec fn conflicting(plan: PlanV, g: GraphV, r: Seq<char>) -> Set<Seq<char>> {
    Set::new(
        |id: Seq<char>|
            {
                ||| writes_to(plan, g, id, r) && exists|o: Seq<char>|
                    o != id && (writes_to(plan, g, o, r) || reads_from(plan, g, o, r))
                        && #[trigger] unordered_apart(g, id, o)
                ||| reads_from(plan, g, id, r) && exists|o: Seq<char>|
                    o != id && writes_to(plan, g, o, r) && #[trigger] unordered_apart(g, id, o)
            },
    )
}

/// `d` reports the nodes with missing effects.
pub open spec fn is_missing_report(plan: PlanV, g: GraphV, d: DiagnosticV) -> bool {
    &&& d.kind == DiagnosticKind::MissingEffects
    &&& sorted_texts(d.nodes)
    &&& d.nodes.to_set() == missing_effects(plan, g)
    &&& d.resource is None
    &&& d.message == "missing or vacuous tool effects prevent safe parallelization"@
}

/// `d` reports the nodes that the resource keeps apart.
pub open spec fn is_conflict_report(plan: PlanV, g: GraphV, r: Seq<char>, d: DiagnosticV) -> bool {
    &&& d.kind == DiagnosticKind::ResourceConflict
    &&& sorted_texts(d.nodes)
    &&& d.nodes.to_set() == conflicting(plan, g, r)
    &&& d.resource == Some(r)
    &&& d.message == "effects touch the same resource '"@ + r + "'"@
}

/// `ds` holds one report for each resource that keeps nodes apart, in the
/// order of the resources.
pub open spec fn are_conflict_reports(plan: PlanV, g: GraphV, ds: Seq<DiagnosticV>) -> bool {
    exists|rs: Seq<Seq<char>>|
        {
            &&& #[trigger] sorted_texts(rs)
            &&& rs.len() == ds.len()
            &&& forall|i: int|
                0 <= i < rs.len() ==> is_conflict_report(plan, g, #[trigger] rs[i], ds[i])
            &&& forall|r: Seq<char>|
                rs.contains(r) <==> #[trigger] conflicting(plan, g, r) != Set::<Seq<char>>::empty()
        }
}

// ---------------------------------------------------------------------------
// Ancestors
// ---------------------------------------------------------------------------

proof fn lemma_ancestors_closed(g: GraphV, id: Seq<char>)
    ensures
        closed_under_deps(g, ancestors(g, id)),
        deps_of(g, id).subset_of(ancestors(g, id)),
{
    reveal(closed_under_deps);
    let n = ancestors(g, id);
    assert forall|x: Seq<char>| #[trigger] n.contains(x) implies deps_of(g, x).subset_of(n) by {
        assert forall|d: Seq<char>| deps_of(g, x).contains(d) implies n.contains(d) by {
            assert forall|s: Set<Seq<char>>|
                deps_of(g, id).subset_of(s) && #[trigger] closed_under_deps(g, s) implies s.contains(
                d,
            ) by {
                assert(s.contains(x));
            }
        }
    }
}

/// A node reaches another exactly through one of its direct dependencies.
pub proof fn ancestors_through_dependencies(g: GraphV, id: Seq<char>, a: Seq<char>)
    ensures
        ancestors(g, id).contains(a) <==> exists|d: Seq<char>| #[trigger]
            deps_of(g, id).contains(d) && (a == d || ancestors(g, d).contains(a)),
{
    let through = Set::new(
        |x: Seq<char>|
            exists|d: Seq<char>| #[trigger]
                deps_of(g, id).contains(d) && (x == d || ancestors(g, d).contains(x)),
    );
    lemma_ancestors_closed(g, id);
    assert(deps_of(g, id).subset_of(through));
    assert(closed_under_deps(g, through)) by {
        reveal(closed_under_deps);
        assert forall|x: Seq<char>| #[trigger] through.contains(x) implies deps_of(
            g,
            x,
        ).subset_of(through) by {
            let d = choose|d: Seq<char>| #[trigger]
                deps_of(g, id).contains(d) && (x == d || ancestors(g, d).contains(x));
            lemma_ancestors_closed(g, d);
            assert forall|y: Seq<char>| deps_of(g, x).contains(y) implies through.contains(y) by {
                assert(ancestors(g, d).contains(y));
                assert(deps_of(g, id).contains(d));
            }
        }
    }
    if ancestors(g, id).contains(a) {
        assert(through.contains(a));
    }
    if exists|d: Seq<char>| #[trigger]
        deps_of(g, id).contains(d) && (a == d || ancestors(g, d).contains(a)) {
        let d = choose|d: Seq<char>| #[trigger]
            deps_of(g, id).contains(d) && (a == d || ancestors(g, d).contains(a));
        assert(ancestors(g, id).contains(d));
        if a != d {
            reveal(closed_under_deps);
            assert(deps_of(g, d).subset_of(ancestors(g, id)));
            assert(ancestors(g, id).contains(a));
        }
    }
}

// ---------------------------------------------------------------------------
// Bit rows
// ---------------------------------------------------------------------------

/// The bit of `column` is set.
pub open spec fn row_has(row: Seq<u64>, column: int) -> bool {
    (row[column / 64] & (1u64 << ((column % 64) as u64))) != 0
}

proof fn lemma_bit_set(w: u64, b: u64, c: u64)
    by (bit_vector)
    requires
        b < 64,
        c < 64,
    ensures
        ((w | (1u64 << b)) & (1u64 << c)) != 0 <==> (w & (1u64 << c)) != 0 || b == c,
{
}

proof fn lemma_bit_or(w: u64, v: u64, c: u64)
    by (bit_vector)
    requires
        c < 64,
    ensures
        ((w | v) & (1u64 << c)) != 0 <==> (w & (1u64 << c)) != 0 || (v & (1u64 << c)) != 0,
{
}

proof fn lemma_bit_zero(c: u64)
    by (bit_vector)
    requires
        c < 64,
    ensures
        (0u64 & (1u64 << c)) == 0,
{
}

/// Sets the bit of `column`.
pub fn set_bit(row: &mut Vec<u64>, column: usize)
    requires
        column / 64 < old(row)@.len(),
    ensures
        final(row)@.len() == old(row)@.len(),
        forall|c: int|
            0 <= c < final(row)@.len() * 64 ==> (#[trigger] row_has(final(row)@, c) <==> row_has(
                old(row)@,
                c,
            ) || c == column as int),
{
    let ghost before = row@;
    let word: usize = column / 64;
    let bit: u64 = (column % 64) as u64;
    let value: u64 = row[word] | (1u64 << bit);
    row[word] = value;
    proof {
        assert forall|c: int| 0 <= c < row@.len() * 64 implies (#[trigger] row_has(row@, c)
            <==> row_has(before, c) || c == column as int) by {
            let cb = (c % 64) as u64;
            if c / 64 == word as int {
                lemma_bit_set(before[word as int], bit, cb);
            } else {
                assert(row@[c / 64] == before[c / 64]);
            }
        }
    }
}

/// Whether the bit of `column` is set.
pub fn get_bit(row: &Vec<u64>, column: usize) -> (r: bool)
    requires
        column / 64 < row@.len(),
    ensures
        r == row_has(row@, column as int),
{
    let bit: u64 = (column % 64) as u64;
    (row[column / 64] & (1u64 << bit)) != 0
}

/// The bits that either row has.
pub fn or_row(dst: &mut Vec<u64>, src: &Vec<u64>)
    requires
        old(dst)@.len() == src@.len(),
    ensures
        final(dst)@.len() == old(dst)@.len(),
        forall|c: int|
            0 <= c < final(dst)@.len() * 64 ==> (#[trigger] row_has(final(dst)@, c) <==> row_has(
                old(dst)@,
                c,
            ) || row_has(src@, c)),
{
    let ghost before = dst@;
    let mut i: usize = 0;
    while i < src.len()
        invariant
            i <= src@.len(),
            dst@.len() == src@.len(),
            before.len() == src@.len(),
            forall|j: int| 0 <= j < i ==> #[trigger] dst@[j] == before[j] | src@[j],
            forall|j: int| i <= j < src@.len() ==> #[trigger] dst@[j] == before[j],
        decreases src.len() - i,
    {
        let value: u64 = dst[i] | src[i];
        dst[i] = value;
        i = i + 1;
    }
    proof {
        assert forall|c: int| 0 <= c < dst@.len() * 64 implies (#[trigger] row_has(dst@, c)
            <==> row_has(before, c) || row_has(src@, c)) by {
            let cb = (c % 64) as u64;
            lemma_bit_or(before[c / 64], src@[c / 64], cb);
            assert(dst@[c / 64] == before[c / 64] | src@[c / 64]);
        }
    }
}

fn zero_row(words: usize) -> (r: Vec<u64>)
    ensures
        r@.len() == words,
        forall|c: int| 0 <= c < r@.len() * 64 ==> !#[trigger] row_has(r@, c),
{
    let mut row: Vec<u64> = Vec::new();
    let mut i: usize = 0;
    while i < words
        invariant
            i <= words,
            row@.len() == i,
            forall|j: int| 0 <= j < i ==> #[trigger] row@[j] == 0,
        decreases words - i,
    {
        row.push(0);
        i = i + 1;
    }
    proof {
        assert forall|c: int| 0 <= c < row@.len() * 64 implies !#[trigger] row_has(row@, c) by {
            lemma_bit_zero((c % 64) as u64);
            assert(row@[c / 64] == 0);
        }
    }
    row
}

// ---------------------------------------------------------------------------
// Order index
// ---------------------------------------------------------------------------

/// Node order relations: layer membership plus transitive ancestor sets as
/// bitsets (one row of `n/64` words per node).
pub struct OrderIndex {
    ids: Vec<String>,
    index: StrMap<usize>,
    layers: Vec<usize>,
    ancestors: Vec<Vec<u64>>,
    graph: Ghost<GraphV>,
}

/// The graph that the index describes.
impl View for OrderIndex {
    type V = GraphV;

    closed spec fn view(&self) -> GraphV {
        self.graph@
    }
}

impl OrderIndex {
    /// The index describes its graph.
    #[verifier::type_invariant]
    spec fn describes(&self) -> bool {
        let g = self.graph@;
        let ids = texts_view(self.ids@);
        &&& ids == flattened(g.layers, g.layers.len() as int)
        &&& self.layers@.len() == ids.len()
        &&& self.ancestors@.len() == ids.len()
        &&& ids.no_duplicates()
        &&& forall|id: Seq<char>| #[trigger] in_layers(g, id) <==> ids.contains(id)
        &&& forall|p: int|
            0 <= p < ids.len() ==> (#[trigger] self.layers@[p]) as int == layer_of(g, ids[p])
        &&& forall|id: Seq<char>| #[trigger]
            self.index@.dom().contains(id) <==> ids.contains(id)
        &&& forall|id: Seq<char>| #[trigger]
            self.index@.dom().contains(id) ==> self.index@[id] < ids.len()
                && ids[self.index@[id] as int] == id
        &&& forall|p: int|
            0 <= p < ids.len() ==> ids.len() <= (#[trigger] self.ancestors@[p])@.len() * 64
        &&& forall|p: int, q: int|
            0 <= p < ids.len() && 0 <= q < ids.len() ==> (#[trigger] row_has(
                self.ancestors@[p]@,
                q,
            ) <==> ancestors(g, ids[p]).contains(ids[q]))
    }

    /// The nodes in topological order.
    pub open spec fn nodes(&self) -> Seq<Seq<char>> {
        flattened(self@.layers, self@.layers.len() as int)
    }

    /// Every node of the graph is listed, once.
    pub fn prove_nodes(&self)
        ensures
            self.nodes().no_duplicates(),
            forall|id: Seq<char>| #[trigger] in_layers(self@, id) <==> self.nodes().contains(id),
    {
        proof {
            use_type_invariant(self);
        }
    }

    /// The number of nodes.
    pub fn total(&self) -> (r: usize)
        ensures
            r == self.nodes().len(),
    {
        proof {
            use_type_invariant(self);
        }
        self.ids.len()
    }

    /// The position of a node.
    pub fn index_of(&self, node: &str) -> (r: Option<usize>)
        ensures
            match r {
                Some(p) => p < self.nodes().len() && self.nodes()[p as int] == node@,
                None => !in_layers(self@, node@),
            },
    {
        proof {
            use_type_invariant(self);
        }
        match self.index.get(node) {
            Some(p) => {
                assert(self.index@.dom().contains(node@));
                Some(*p)
            },
            None => {
                assert(!self.index@.dom().contains(node@));
                None
            },
        }
    }

    /// The id of the node at a position.
    pub fn node_id(&self, p: usize) -> (r: &str)
        requires
            p < self.nodes().len(),
        ensures
            r@ == self.nodes()[p as int],
    {
        proof {
            use_type_invariant(self);
        }
        self.ids[p].as_str()
    }

    /// Whether two nodes stand in different layers and neither depends on the
    /// other, directly or through others.
    pub fn unordered_cross_layer(&self, left: usize, right: usize) -> (r: bool)
        requires
            left < self.nodes().len(),
            right < self.nodes().len(),
        ensures
            r == unordered_apart(self@, self.nodes()[left as int], self.nodes()[right as int]),
            r == ({
                let a = self.nodes()[left as int];
                let b = self.nodes()[right as int];
                layer_of(self@, a) != layer_of(self@, b) && !leads_to(self@, a, b) && !leads_to(
                    self@,
                    b,
                    a,
                )
            }),
    {
        let ghost g = self@;
        proof {
            use_type_invariant(self);
            unordered_nodes_have_no_chain(
                g,
                self.nodes()[left as int],
                self.nodes()[right as int],
            );
            assert(self.layers@[left as int] as int == layer_of(g, self.nodes()[left as int]));
            assert(self.layers@[right as int] as int == layer_of(g, self.nodes()[right as int]));
            assert(self.nodes().len() <= self.ancestors@[left as int]@.len() * 64);
            assert(self.nodes().len() <= self.ancestors@[right as int]@.len() * 64);
            assert(row_has(self.ancestors@[left as int]@, right as int) <==> ancestors(
                g,
                self.nodes()[left as int],
            ).contains(self.nodes()[right as int]));
            assert(row_has(self.ancestors@[right as int]@, left as int) <==> ancestors(
                g,
                self.nodes()[right as int],
            ).contains(self.nodes()[left as int]));
        }
        self.layers[left] != self.layers[right] && !get_bit(&self.ancestors[left], right)
            && !get_bit(&self.ancestors[right], left)
    }

    /// Builds the index of a graph.
    pub fn new(graph: &ExecutionGraph) -> (r: Self)
        requires
            layers_wf(graph@),
        ensures
            r@ == graph@,
    {
        let ghost g = graph@;
        let (ids, layers, index) = flatten(graph);
        let ghost names = texts_view(ids@);
        let dependencies = graph.dependencies();
        dependencies.prove_sorted();
        let total: usize = ids.len();
        let words: usize = total / 64 + 1;
        let mut rows: Vec<Vec<u64>> = Vec::new();
        let mut p: usize = 0;
        while p < total
            invariant
                p <= total,
                total == ids@.len(),
                words == total / 64 + 1,
                g == graph@,
                layers_wf(g),
                names == texts_view(ids@),
                flat_holds(g, names, layers@, g.layers.len() as int),
                names.no_duplicates(),
                g.dependencies == pairs_view(*dependencies),
                sorted_pairs(dependencies.pairs()),
                index_holds(index, names),
                rows@.len() == p,
                forall|q: int| 0 <= q < p ==> (#[trigger] rows@[q])@.len() == words,
                forall|q: int, c: int|
                    0 <= q < p && 0 <= c < total ==> (#[trigger] row_has(rows@[q]@, c)
                        <==> ancestors(g, names[q]).contains(names[c])),
            decreases total - p,
        {
            let mut row = zero_row(words);
            let id = ids[p].as_str();
            let ghost here = names[p as int];
            proof {
                pairs_view_lookup(*dependencies, here);
            }
            match dependencies.get(id) {
                Some(deps) => {
                    assert(deps_of(g, here) == deps@);
                    let mut i: usize = 0;
                    let ghost items = deps.items();
                    while i < deps.len()
                        invariant
                            i <= items.len(),
                            items == deps.items(),
                            p < total,
                            total == ids@.len(),
                            words == total / 64 + 1,
                            row@.len() == words,
                            layers_wf(g),
                            names == texts_view(ids@),
                            here == names[p as int],
                            deps@ == deps_of(g, here),
                            flat_holds(g, names, layers@, g.layers.len() as int),
                            names.no_duplicates(),
                            index_holds(index, names),
                            rows@.len() == p,
                            forall|q: int| 0 <= q < p ==> (#[trigger] rows@[q])@.len() == words,
                            forall|q: int, c: int|
                                0 <= q < p && 0 <= c < total ==> (#[trigger] row_has(rows@[q]@, c)
                                    <==> ancestors(g, names[q]).contains(names[c])),
                            forall|c: int|
                                0 <= c < total ==> (#[trigger] row_has(row@, c)
                                    <==> reached_through(g, items.take(i as int), names[c])),
                        decreases items.len() - i,
                    {
                        let dep = deps.item_at(i);
                        let ghost d = dep@;
                        proof {
                            assert(deps_of(g, here).contains(d));
                            lemma_dep_position(g, names, layers@, p as int, d);
                            assert(names.contains(d));
                            assert(index@.dom().contains(d));
                        }
                        let at: usize = *index.get(dep).unwrap();
                        let ghost row0 = row@;
                        proof {
                            let q = choose|q: int| 0 <= q < p && names[q] == d;
                            assert(names[at as int] == d);
                            assert(at == q);
                        }
                        or_row(&mut row, &rows[at]);
                        let ghost row1 = row@;
                        set_bit(&mut row, at);
                        proof {
                            let seen = items.take(i as int);
                            let next = items.take(i + 1);
                            assert(next =~= seen.push(d));
                            assert forall|c: int| 0 <= c < total implies (#[trigger] row_has(row@, c)
                                <==> reached_through(g, next, names[c])) by {
                                assert(row_has(row@, c) <==> row_has(row1, c) || c == at as int);
                                assert(row_has(row1, c) <==> row_has(row0, c) || row_has(
                                    rows@[at as int]@,
                                    c,
                                ));
                                assert(row_has(row0, c) <==> reached_through(g, seen, names[c]));
                                assert(row_has(rows@[at as int]@, c) <==> ancestors(g, d).contains(
                                    names[c],
                                ));
                                assert(c == at as int <==> names[c] == d);
                                lemma_reached_push(g, seen, d, names[c]);
                            }
                        }
                        i = i + 1;
                    }
                    proof {
                        assert(items.take(i as int) =~= items);
                        assert forall|c: int| 0 <= c < total implies (#[trigger] row_has(row@, c)
                            <==> ancestors(g, here).contains(names[c])) by {
                            ancestors_through_dependencies(g, here, names[c]);
                            assert(reached_through(g, items, names[c]) <==> exists|d: Seq<char>|
                                #[trigger]
                                deps_of(g, here).contains(d) && (names[c] == d || ancestors(
                                    g,
                                    d,
                                ).contains(names[c]))) by {
                                if reached_through(g, items, names[c]) {
                                    let k = choose|k: int|
                                        0 <= k < items.len() && reaches(
                                            g,
                                            #[trigger] items[k],
                                            names[c],
                                        );
                                    assert(items.contains(items[k]));
                                    assert(deps_of(g, here).contains(items[k]));
                                }
                                if exists|d: Seq<char>| #[trigger]
                                    deps_of(g, here).contains(d) && (names[c] == d || ancestors(
                                        g,
                                        d,
                                    ).contains(names[c])) {
                                    let d = choose|d: Seq<char>| #[trigger]
                                        deps_of(g, here).contains(d) && (names[c] == d
                                            || ancestors(g, d).contains(names[c]));
                                    let k = choose|k: int| 0 <= k < items.len() && items[k] == d;
                                    assert(reaches(g, items[k], names[c]));
                                }
                            }
                        }
                    }
                },
                None => {
                    proof {
                        assert(deps_of(g, here) == Set::<Seq<char>>::empty());
                        assert forall|c: int| 0 <= c < total implies (#[trigger] row_has(row@, c)
                            <==> ancestors(g, here).contains(names[c])) by {
                            ancestors_through_dependencies(g, here, names[c]);
                        }
                    }
                },
            }
            let ghost rows0 = rows@;
            rows.push(row);
            proof {
                assert forall|q: int, c: int| 0 <= q < p + 1 && 0 <= c < total implies (
                #[trigger] row_has(rows@[q]@, c) <==> ancestors(g, names[q]).contains(names[c])) by {
                    if q < p {
                        assert(rows@[q] == rows0[q]);
                    }
                }
            }
            p = p + 1;
        }
        proof {
            assert forall|q: int| 0 <= q < names.len() implies names.len() <= (
            #[trigger] rows@[q])@.len() * 64 by {
                assert(rows@[q]@.len() == words);
            }
            assert forall|q: int| 0 <= q < names.len() implies (#[trigger] layers@[q]) as int
                == layer_of(g, names[q]) by {
                assert(g.layers[layers@[q] as int].contains(names[q]));
                lemma_layer_of(g, layers@[q] as int, names[q]);
            }
            assert forall|id: Seq<char>| #[trigger] in_layers(g, id) <==> names.contains(id) by {
                if in_layers(g, id) {
                    let k = choose|k: int|
                        0 <= k < g.layers.len() && (#[trigger] g.layers[k]).contains(id);
                    assert(held_before(g, g.layers.len() as int, id));
                }
                if names.contains(id) {
                    let q = choose|q: int| 0 <= q < names.len() && names[q] == id;
                    assert(g.layers[layers@[q] as int].contains(names[q]));
                }
            }
        }
        OrderIndex { ids, index, layers, ancestors: rows, graph: Ghost(g) }
    }
}

/// `a` is `d` or one of its ancestors.
spec fn reaches(g: GraphV, d: Seq<char>, a: Seq<char>) -> bool {
    a == d || ancestors(g, d).contains(a)
}

/// One of the listed nodes reaches `a`.
spec fn reached_through(g: GraphV, items: Seq<Seq<char>>, a: Seq<char>) -> bool {
    exists|k: int| 0 <= k < items.len() && reaches(g, #[trigger] items[k], a)
}

proof fn lemma_reached_push(g: GraphV, items: Seq<Seq<char>>, d: Seq<char>, a: Seq<char>)
    ensures
        reached_through(g, items.push(d), a) <==> reached_through(g, items, a) || reaches(g, d, a),
{
    let next = items.push(d);
    if reached_through(g, items, a) {
        let k = choose|k: int| 0 <= k < items.len() && reaches(g, #[trigger] items[k], a);
        assert(reaches(g, next[k], a));
    }
    if reaches(g, d, a) {
        assert(reaches(g, next[items.len() as int], a));
    }
    if reached_through(g, next, a) {
        let k = choose|k: int| 0 <= k < next.len() && reaches(g, #[trigger] next[k], a);
        if k < items.len() {
            assert(reaches(g, items[k], a));
        }
    }
}

proof fn lemma_layer_of(g: GraphV, k: int, id: Seq<char>)
    requires
        layers_wf(g),
        0 <= k < g.layers.len(),
        g.layers[k].contains(id),
    ensures
        layer_of(g, id) == k,
{
    let l = layer_of(g, id);
    assert(g.layers[l].contains(id));
    let x = choose|x: int| 0 <= x < g.layers[k].len() && g.layers[k][x] == id;
    let y = choose|y: int| 0 <= y < g.layers[l].len() && g.layers[l][y] == id;
    assert(g.layers[k][x] == g.layers[l][y]);
}

/// The names of the first `k` layers, with the layer of each.
spec fn flat_holds(g: GraphV, names: Seq<Seq<char>>, layers: Seq<usize>, k: int) -> bool {
    &&& layers.len() == names.len()
    &&& forall|p: int|
        0 <= p < names.len() ==> (#[trigger] layers[p]) < k && g.layers[layers[p] as int].contains(
            names[p],
        )
    &&& forall|p: int, q: int| 0 <= p < q < names.len() ==> (#[trigger] layers[p]) <= (#[trigger] layers[q])
    &&& forall|d: Seq<char>| #[trigger] held_before(g, k, d) ==> names.contains(d)
}

/// The table gives the position of every name.
spec fn index_holds(index: StrMap<usize>, names: Seq<Seq<char>>) -> bool {
    &&& forall|id: Seq<char>| #[trigger] index@.dom().contains(id) <==> names.contains(id)
    &&& forall|id: Seq<char>| #[trigger]
        index@.dom().contains(id) ==> index@[id] < names.len() && names[index@[id] as int] == id
}

proof fn lemma_dep_position(g: GraphV, names: Seq<Seq<char>>, layers: Seq<usize>, p: int, d: Seq<char>)
    requires
        layers_wf(g),
        flat_holds(g, names, layers, g.layers.len() as int),
        0 <= p < names.len(),
        deps_of(g, names[p]).contains(d),
    ensures
        exists|q: int| 0 <= q < p && names[q] == d,
        names.contains(d),
{
    let k = layers[p] as int;
    assert(g.layers[k].contains(names[p]));
    let x = choose|x: int| 0 <= x < g.layers[k].len() && g.layers[k][x] == names[p];
    assert(deps_of(g, g.layers[k][x]).contains(d));
    assert(held_before(g, k, d));
    let l = choose|l: int| 0 <= l < k && (#[trigger] g.layers[l]).contains(d);
    assert(held_before(g, g.layers.len() as int, d)) by {
        assert(g.layers[l].contains(d));
    }
    assert(names.contains(d));
    let q = choose|q: int| 0 <= q < names.len() && names[q] == d;
    assert(g.layers[layers[q] as int].contains(names[q]));
    lemma_layer_of(g, layers[q] as int, d);
    lemma_layer_of(g, l, d);
    if q > p {
        assert(layers[p] <= layers[q]);
    }
    if q == p {
        assert(layers[q] == layers[p]);
    }
    assert(q < p);
}

fn flatten(graph: &ExecutionGraph) -> (r: (Vec<String>, Vec<usize>, StrMap<usize>))
    requires
        layers_wf(graph@),
    ensures
        flat_holds(graph@, texts_view(r.0@), r.1@, graph@.layers.len() as int),
        texts_view(r.0@) == flattened(graph@.layers, graph@.layers.len() as int),
        texts_view(r.0@).no_duplicates(),
        index_holds(r.2, texts_view(r.0@)),
{
    let ghost g = graph@;
    let layers = graph.layers();
    let mut ids: Vec<String> = Vec::new();
    let mut at: Vec<usize> = Vec::new();
    let mut index: StrMap<usize> = StrMap::new();
    let mut k: usize = 0;
    while k < layers.len()
        invariant
            k <= layers@.len(),
            g == graph@,
            layers_wf(g),
            g.layers == text_lists(layers@),
            flat_holds(g, texts_view(ids@), at@, k as int),
            texts_view(ids@) == flattened(g.layers, k as int),
            texts_view(ids@).no_duplicates(),
            index_holds(index, texts_view(ids@)),
        decreases layers.len() - k,
    {
        let layer = &layers[k];
        let ghost start = texts_view(ids@);
        let ghost here = g.layers[k as int];
        let mut x: usize = 0;
        while x < layer.len()
            invariant
                x <= layer@.len(),
                k < layers@.len(),
                g.layers == text_lists(layers@),
                here == g.layers[k as int],
                here == texts_view(layer@),
                layers_wf(g),
                at@.len() == ids@.len(),
                texts_view(ids@) == start + here.take(x as int),
                forall|p: int|
                    0 <= p < at@.len() ==> (#[trigger] at@[p]) <= k
                        && g.layers[at@[p] as int].contains(texts_view(ids@)[p]),
                forall|p: int, q: int|
                    0 <= p < q < at@.len() ==> (#[trigger] at@[p]) <= (#[trigger] at@[q]),
                forall|d: Seq<char>| #[trigger]
                    held_before(g, k as int, d) ==> texts_view(ids@).contains(d),
                forall|y: int| 0 <= y < x ==> texts_view(ids@).contains(#[trigger] here[y]),
                forall|p: int|
                    0 <= p < ids@.len() && at@[p] == k ==> exists|y: int|
                        0 <= y < x && #[trigger] here[y] == #[trigger] texts_view(ids@)[p],
                texts_view(ids@).no_duplicates(),
                index_holds(index, texts_view(ids@)),
            decreases layer.len() - x,
        {
            let ghost names = texts_view(ids@);
            let ghost id = here[x as int];
            proof {
                assert(!names.contains(id)) by {
                    if names.contains(id) {
                        let p = choose|p: int| 0 <= p < names.len() && names[p] == id;
                        assert(g.layers[at@[p] as int].contains(names[p]));
                        assert(here.contains(id));
                        lemma_layer_of(g, at@[p] as int, id);
                        lemma_layer_of(g, k as int, id);
                        let y = choose|y: int|
                            0 <= y < x && #[trigger] here[y] == #[trigger] texts_view(ids@)[p];
                        assert(g.layers[k as int][y] == g.layers[k as int][x as int]);
                    }
                }
            }
            let ghost index0 = index@;
            let ghost at0 = at@;
            index.insert(layer[x].clone(), ids.len());
            ids.push(layer[x].clone());
            at.push(k);
            proof {
                let now = texts_view(ids@);
                assert(now =~= names.push(id));
                assert(now =~= start + here.take(x + 1));
                assert forall|d: Seq<char>| #[trigger] now.contains(d) <==> names.contains(d) || d
                    == id by {
                    if names.contains(d) {
                        let p = choose|p: int| 0 <= p < names.len() && names[p] == d;
                        assert(now[p] == d);
                    }
                    assert(now[names.len() as int] == id);
                }
                assert forall|p: int| 0 <= p < at@.len() implies (#[trigger] at@[p]) <= k
                    && g.layers[at@[p] as int].contains(now[p]) by {
                    if p < at0.len() {
                        assert(at@[p] == at0[p]);
                        assert(now[p] == names[p]);
                    } else {
                        assert(here.contains(id));
                    }
                }
                assert forall|p: int| 0 <= p < ids@.len() && at@[p] == k implies exists|y: int|
                    0 <= y < x + 1 && #[trigger] here[y] == #[trigger] now[p] by {
                    if p < names.len() {
                        assert(at0[p] == k);
                        let y = choose|y: int|
                            0 <= y < x && #[trigger] here[y] == #[trigger] names[p];
                        assert(here[y] == now[p]);
                    } else {
                        assert(here[x as int] == now[p]);
                    }
                }
                assert forall|d: Seq<char>| #[trigger] index@.dom().contains(d) implies index@[d]
                    < now.len() && now[index@[d] as int] == d by {
                    if d != id {
                        assert(index0.dom().contains(d));
                        assert(now[index0[d] as int] == names[index0[d] as int]);
                    }
                }
                assert forall|d: Seq<char>| #[trigger] index@.dom().contains(d) <==> now.contains(
                    d,
                ) by {
                    assert(index0.dom().contains(d) <==> names.contains(d));
                }
            }
            x = x + 1;
        }
        proof {
            let names = texts_view(ids@);
            assert(here.take(here.len() as int) =~= here);
            assert forall|d: Seq<char>| #[trigger] held_before(g, k + 1, d) implies names.contains(d) by {
                let l = choose|l: int| 0 <= l < k + 1 && (#[trigger] g.layers[l]).contains(d);
                if l < k {
                    assert(held_before(g, k as int, d));
                } else {
                    let y = choose|y: int| 0 <= y < here.len() && here[y] == d;
                    assert(names.contains(here[y]));
                }
            }
        }
        k = k + 1;
    }
    (ids, at, index)
}

// ---------------------------------------------------------------------------
// Diagnostics
// ---------------------------------------------------------------------------

/// A node of both the plan and the graph: its position and its effects.
struct Known<'a> {
    position: usize,
    effects: &'a ResolvedEffects,
}

/// The list holds every node of both the plan and the graph that has effects.
spec fn known_holds(plan: PlanV, g: GraphV, order: OrderIndex, known: Seq<Known>) -> bool {
    &&& forall|i: int|
        0 <= i < known.len() ==> (#[trigger] known[i]).position < order.nodes().len()
            && known_effects(plan, g, order.nodes()[known[i].position as int]) == Some(
            known[i].effects@,
        )
    &&& forall|id: Seq<char>|
        (#[trigger] known_effects(plan, g, id)) is Some ==> exists|i: int|
            0 <= i < known.len() && order.nodes()[(#[trigger] known[i]).position as int] == id
}

fn known_nodes<'a>(plan: &Plan, graph: &'a ExecutionGraph, order: &OrderIndex) -> (r: Vec<Known<'a>>)
    requires
        order@ == graph@,
    ensures
        known_holds(plan@, graph@, *order, r@),
{
    let ghost g = graph@;
    let ghost ns = plan@.nodes;
    let effects = graph.resolved_effects();
    effects.prove_sorted();
    let mut out: Vec<Known> = Vec::new();
    let mut i: usize = 0;
    while i < plan.nodes.len()
        invariant
            i <= plan.nodes@.len(),
            ns == views(plan.nodes@),
            plan@.nodes == ns,
            g == graph@,
            order@ == g,
            g.resolved_effects == pairs_view(*effects),
            sorted_pairs(effects.pairs()),
            forall|x: int|
                0 <= x < out@.len() ==> (#[trigger] out@[x]).position < order.nodes().len()
                    && known_effects(plan@, g, order.nodes()[out@[x].position as int]) == Some(
                    out@[x].effects@,
                ),
            forall|j: int|
                0 <= j < i && known_effects(plan@, g, (#[trigger] ns[j]).id) is Some ==> exists|x: int|
                    0 <= x < out@.len() && order.nodes()[(#[trigger] out@[x]).position as int]
                        == ns[j].id,
        decreases plan.nodes.len() - i,
    {
        let node = &plan.nodes[i];
        let ghost id = node.id@;
        let ghost out0 = out@;
        proof {
            assert(ns[i as int].id == id);
            pairs_view_lookup(*effects, id);
        }
        order.prove_nodes();
        let at = order.index_of(node.id.as_str());
        let found = effects.get(node.id.as_str());
        match (found, at) {
            (Some(fx), Some(position)) => {
                proof {
                    assert(order.nodes().contains(order.nodes()[position as int]));
                    assert(in_layers(g, id));
                    assert(has_node(ns, id));
                }
                out.push(Known { position, effects: fx });
                assert(order.nodes()[out@[out0.len() as int].position as int] == id);
            },
            _ => {},
        }
        proof {
            assert forall|j: int|
                0 <= j < i + 1 && known_effects(plan@, g, (#[trigger] ns[j]).id) is Some implies exists|
                x: int,
            |
                0 <= x < out@.len() && order.nodes()[(#[trigger] out@[x]).position as int]
                    == ns[j].id by {
                if j < i {
                    let x = choose|x: int|
                        0 <= x < out0.len() && order.nodes()[(#[trigger] out0[x]).position as int]
                            == ns[j].id;
                    assert(out@[x] == out0[x]);
                }
            }
        }
        i = i + 1;
    }
    proof {
        assert forall|id: Seq<char>| (#[trigger] known_effects(plan@, g, id)) is Some implies exists|
            x: int,
        |
            0 <= x < out@.len() && order.nodes()[(#[trigger] out@[x]).position as int] == id by {
            let j = choose|j: int| 0 <= j < ns.len() && (#[trigger] ns[j]).id == id;
            assert(known_effects(plan@, g, ns[j].id) is Some);
        }
    }
    out
}

/// Whether some node is apart from the one at `position`.
fn has_unordered_partner(order: &OrderIndex, position: usize, Ghost(g): Ghost<GraphV>) -> (r: bool)
    requires
        order@ == g,
        position < order.nodes().len(),
    ensures
        r == exists|o: Seq<char>|
            in_layers(g, o) && o != order.nodes()[position as int] && #[trigger] unordered_apart(
                g,
                order.nodes()[position as int],
                o,
            ),
{
    let ghost names = order.nodes();
    let ghost id = names[position as int];
    order.prove_nodes();
    let mut q: usize = 0;
    while q < order.total()
        invariant
            q <= names.len(),
            names == order.nodes(),
            id == names[position as int],
            position < names.len(),
            names.no_duplicates(),
            order@ == g,
            forall|c: int| 0 <= c < q && c != position ==> !unordered_apart(g, id, #[trigger] names[c]),
        decreases names.len() - q,
    {
        if q != position && order.unordered_cross_layer(position, q) {
            order.prove_nodes();
            proof {
                assert(names.contains(names[q as int]));
                assert(in_layers(g, names[q as int]));
                assert(unordered_apart(g, id, names[q as int]));
            }
            return true;
        }
        q = q + 1;
    }
    proof {
        assert forall|o: Seq<char>| in_layers(g, o) && o != id implies !#[trigger] unordered_apart(
            g,
            id,
            o,
        ) by {
            assert(names.contains(o));
            let c = choose|c: int| 0 <= c < names.len() && names[c] == o;
            assert(!unordered_apart(g, id, names[c]));
        }
    }
    false
}

fn find_missing(
    plan: &Plan,
    known: &Vec<Known>,
    order: &OrderIndex,
    Ghost(g): Ghost<GraphV>,
) -> (r: StrSet)
    requires
        order@ == g,
        known_holds(plan@, g, *order, known@),
    ensures
        r@ == missing_effects(plan@, g),
{
    let ghost p = plan@;
    let ghost names = order.nodes();
    let mut out = StrSet::new();
    let mut i: usize = 0;
    while i < known.len()
        invariant
            i <= known@.len(),
            p == plan@,
            names == order.nodes(),
            order@ == g,
            known_holds(p, g, *order, known@),
            forall|id: Seq<char>| #[trigger]
                out@.contains(id) <==> missing_effects(p, g).contains(id) && exists|x: int|
                    0 <= x < i && names[(#[trigger] known@[x]).position as int] == id,
        decreases known.len() - i,
    {
        let node = &known[i];
        let ghost id = names[node.position as int];
        let ghost out0 = out@;
        assert(known_effects(p, g, id) == Some(node.effects@));
        if !node.effects.declared && has_unordered_partner(order, node.position, Ghost(g)) {
            out.insert(order.node_id(node.position).to_owned());
        }
        proof {
            assert forall|d: Seq<char>| #[trigger] out@.contains(d) <==> missing_effects(
                p,
                g,
            ).contains(d) && exists|x: int|
                0 <= x < i + 1 && names[(#[trigger] known@[x]).position as int] == d by {
                assert(out0.contains(d) <==> missing_effects(p, g).contains(d) && exists|x: int|
                    0 <= x < i && names[(#[trigger] known@[x]).position as int] == d);
                if exists|x: int|
                    0 <= x < i && names[(#[trigger] known@[x]).position as int] == d {
                    let x = choose|x: int|
                        0 <= x < i && names[(#[trigger] known@[x]).position as int] == d;
                    assert(names[known@[x].position as int] == d);
                }
                assert(names[known@[i as int].position as int] == id);
            }
        }
        i = i + 1;
    }
    proof {
        assert forall|id: Seq<char>| out@.contains(id) <==> missing_effects(p, g).contains(id) by {
            if missing_effects(p, g).contains(id) {
                assert(known_effects(p, g, id) is Some);
                let x = choose|x: int|
                    0 <= x < known@.len() && names[(#[trigger] known@[x]).position as int] == id;
                assert(names[known@[x].position as int] == id);
            }
        }
        assert(out@ =~= missing_effects(p, g));
    }
    out
}

/// Whether the node at `at` is kept apart by `resource` from a partner.
fn in_conflict(
    plan: &Plan,
    known: &Vec<Known>,
    order: &OrderIndex,
    at: usize,
    resource: &str,
    Ghost(g): Ghost<GraphV>,
) -> (r: bool)
    requires
        order@ == g,
        known_holds(plan@, g, *order, known@),
        at < known@.len(),
    ensures
        r == conflicting(plan@, g, resource@).contains(order.nodes()[known@[at as int].position as int]),
{
    let ghost p = plan@;
    let ghost names = order.nodes();
    let ghost res = resource@;
    let node = &known[at];
    let ghost id = names[node.position as int];
    assert(known_effects(p, g, id) == Some(node.effects@));
    if !node.effects.declared {
        return false;
    }
    let writes = node.effects.writes.contains(resource);
    let reads = node.effects.reads.contains(resource);
    if !writes && !reads {
        return false;
    }
    let mut i: usize = 0;
    while i < known.len()
        invariant
            i <= known@.len(),
            at < known@.len(),
            p == plan@,
            names == order.nodes(),
            res == resource@,
            order@ == g,
            known_holds(p, g, *order, known@),
            *node == known@[at as int],
            id == names[node.position as int],
            writes == writes_to(p, g, id, res),
            reads == reads_from(p, g, id, res),
            writes || reads,
            forall|x: int|
                0 <= x < i ==> !is_partner(
                    p,
                    g,
                    res,
                    id,
                    names[(#[trigger] known@[x]).position as int],
                ),
        decreases known.len() - i,
    {
        let other = &known[i];
        let ghost o = names[other.position as int];
        assert(known_effects(p, g, o) == Some(other.effects@));
        let touches = other.effects.declared && (other.effects.writes.contains(resource) || (writes
            && other.effects.reads.contains(resource)));
        order.prove_nodes();
        if touches && other.position != node.position && order.unordered_cross_layer(
            node.position,
            other.position,
        ) {
            assert(o != id);
            assert(unordered_apart(g, id, o));
            return true;
        }
        assert(!is_partner(p, g, res, id, o));
        i = i + 1;
    }
    proof {
        assert forall|o: Seq<char>| !#[trigger] is_partner(p, g, res, id, o) by {
            if is_partner(p, g, res, id, o) {
                assert(known_effects(p, g, o) is Some);
                let x = choose|x: int|
                    0 <= x < known@.len() && names[(#[trigger] known@[x]).position as int] == o;
                assert(!is_partner(p, g, res, id, names[known@[x].position as int]));
            }
        }
        if conflicting(p, g, res).contains(id) {
            let o = choose|o: Seq<char>|
                o != id && (writes_to(p, g, o, res) || (writes && reads_from(p, g, o, res)))
                    && #[trigger] unordered_apart(g, id, o);
            assert(is_partner(p, g, res, id, o));
        }
    }
    false
}

/// The resource keeps the two nodes apart.
spec fn is_partner(plan: PlanV, g: GraphV, r: Seq<char>, id: Seq<char>, o: Seq<char>) -> bool {
    &&& o != id
    &&& writes_to(plan, g, o, r) || (writes_to(plan, g, id, r) && reads_from(plan, g, o, r))
    &&& unordered_apart(g, id, o)
}

fn find_conflicting(
    plan: &Plan,
    known: &Vec<Known>,
    order: &OrderIndex,
    resource: &str,
    Ghost(g): Ghost<GraphV>,
) -> (r: StrSet)
    requires
        order@ == g,
        known_holds(plan@, g, *order, known@),
    ensures
        r@ == conflicting(plan@, g, resource@),
{
    let ghost p = plan@;
    let ghost names = order.nodes();
    let ghost res = resource@;
    let mut out = StrSet::new();
    let mut i: usize = 0;
    while i < known.len()
        invariant
            i <= known@.len(),
            p == plan@,
            res == resource@,
            names == order.nodes(),
            order@ == g,
            known_holds(p, g, *order, known@),
            forall|id: Seq<char>| #[trigger]
                out@.contains(id) <==> conflicting(p, g, res).contains(id) && exists|x: int|
                    0 <= x < i && names[(#[trigger] known@[x]).position as int] == id,
        decreases known.len() - i,
    {
        let ghost out0 = out@;
        let ghost id = names[known@[i as int].position as int];
        if in_conflict(plan, known, order, i, resource, Ghost(g)) {
            assert(known@[i as int].position < names.len());
            out.insert(order.node_id(known[i].position).to_owned());
        }
        proof {
            assert forall|d: Seq<char>| #[trigger] out@.contains(d) <==> conflicting(
                p,
                g,
                res,
            ).contains(d) && exists|x: int|
                0 <= x < i + 1 && names[(#[trigger] known@[x]).position as int] == d by {
                assert(out0.contains(d) <==> conflicting(p, g, res).contains(d) && exists|x: int|
                    0 <= x < i && names[(#[trigger] known@[x]).position as int] == d);
                if exists|x: int|
                    0 <= x < i && names[(#[trigger] known@[x]).position as int] == d {
                    let x = choose|x: int|
                        0 <= x < i && names[(#[trigger] known@[x]).position as int] == d;
                    assert(names[known@[x].position as int] == d);
                }
                assert(names[known@[i as int].position as int] == id);
            }
        }
        i = i + 1;
    }
    proof {
        assert forall|id: Seq<char>| out@.contains(id) <==> conflicting(p, g, res).contains(id) by {
            if conflicting(p, g, res).contains(id) {
                assert(known_effects(p, g, id) is Some);
                let x = choose|x: int|
                    0 <= x < known@.len() && names[(#[trigger] known@[x]).position as int] == id;
                assert(names[known@[x].position as int] == id);
            }
        }
        assert(out@ =~= conflicting(p, g, res));
    }
    out
}

/// The resources that some declared node writes.
fn written_resources(
    plan: &Plan,
    known: &Vec<Known>,
    order: &OrderIndex,
    Ghost(g): Ghost<GraphV>,
) -> (r: StrSet)
    requires
        known_holds(plan@, g, *order, known@),
    ensures
        forall|res: Seq<char>|
            (#[trigger] conflicting(plan@, g, res)) != Set::<Seq<char>>::empty() ==> r@.contains(
                res,
            ),
{
    let ghost p = plan@;
    let ghost names = order.nodes();
    let mut out = StrSet::new();
    let mut i: usize = 0;
    while i < known.len()
        invariant
            i <= known@.len(),
            forall|x: int, res: Seq<char>|
                0 <= x < i && (#[trigger] known@[x]).effects@.declared
                    && #[trigger] known@[x].effects@.writes.contains(res) ==> out@.contains(res),
        decreases known.len() - i,
    {
        let ghost out0 = out@;
        if known[i].effects.declared {
            out.extend(&known[i].effects.writes);
        }
        i = i + 1;
    }
    proof {
        assert forall|res: Seq<char>|
            (#[trigger] conflicting(p, g, res)) != Set::<Seq<char>>::empty() implies out@.contains(
            res,
        ) by {
            assert(exists|id: Seq<char>| conflicting(p, g, res).contains(id)) by {
                if forall|id: Seq<char>| !conflicting(p, g, res).contains(id) {
                    assert(conflicting(p, g, res) =~= Set::empty());
                }
            }
            let id = choose|id: Seq<char>| conflicting(p, g, res).contains(id);
            let w = if writes_to(p, g, id, res) {
                id
            } else {
                choose|o: Seq<char>|
                    o != id && writes_to(p, g, o, res) && #[trigger] unordered_apart(g, id, o)
            };
            assert(writes_to(p, g, w, res));
            assert(known_effects(p, g, w) is Some);
            let x = choose|x: int|
                0 <= x < known@.len() && names[(#[trigger] known@[x]).position as int] == w;
            assert(known@[x].effects@.writes.contains(res));
        }
    }
    out
}

/// Reports why node pairs that are not ordered by (transitive) dependencies
/// still ended up in different layers.
///
/// Pairs that are transitively ordered are never reported: their layering is
/// a consequence of the dependency graph, not of effect conservatism.
/// Findings are grouped: one diagnostic per conflicting resource, and one
/// for the whole set of nodes with missing/vacuous effects, instead of one
/// entry per node pair.
pub fn explain_parallel_boundaries(plan: &Plan, graph: &ExecutionGraph) -> (r: Vec<Diagnostic>)
    requires
        layers_wf(graph@),
    ensures
        missing_effects(plan@, graph@) == Set::<Seq<char>>::empty() ==> are_conflict_reports(
            plan@,
            graph@,
            views(r@),
        ),
        missing_effects(plan@, graph@) != Set::<Seq<char>>::empty() ==> r@.len() > 0
            && is_missing_report(plan@, graph@, views(r@)[0]) && are_conflict_reports(
            plan@,
            graph@,
            views(r@).drop_first(),
        ),
{
    let ghost g = graph@;
    let ghost p = plan@;
    let order = OrderIndex::new(graph);
    let known = known_nodes(plan, graph, &order);
    let mut diagnostics: Vec<Diagnostic> = Vec::new();
    let undeclared = find_missing(plan, &known, &order, Ghost(g));
    let ghost first: int = if undeclared@ == Set::<Seq<char>>::empty() {
        0
    } else {
        1
    };
    if !undeclared.is_empty() {
        diagnostics.push(
            Diagnostic {
                kind: DiagnosticKind::MissingEffects,
                nodes: set_items(&undeclared),
                resource: None,
                message: "missing or vacuous tool effects prevent safe parallelization".to_owned(),
            },
        );
        assert(is_missing_report(p, g, diagnostics@[0]@));
    }
    let resources = written_resources(plan, &known, &order, Ghost(g));
    resources.prove_sorted();
    let ghost mut rs: Seq<Seq<char>> = Seq::empty();
    let mut i: usize = 0;
    while i < resources.len()
        invariant
            i <= resources.items().len(),
            p == plan@,
            g == graph@,
            order@ == g,
            known_holds(p, g, order, known@),
            sorted_texts(resources.items()),
            0 <= first <= 1,
            first == 1 ==> diagnostics@.len() > 0 && is_missing_report(p, g, diagnostics@[0]@),
            diagnostics@.len() == first + rs.len(),
            sorted_texts(rs),
            forall|k: int|
                0 <= k < rs.len() ==> is_conflict_report(
                    p,
                    g,
                    #[trigger] rs[k],
                    diagnostics@[k + first]@,
                ),
            forall|r: Seq<char>| #[trigger]
                rs.contains(r) <==> resources.items().take(i as int).contains(r) && conflicting(
                    p,
                    g,
                    r,
                ) != Set::<Seq<char>>::empty(),
        decreases resources.items().len() - i,
    {
        let resource = resources.item_at(i);
        let ghost res = resource@;
        let ghost taken = resources.items().take(i as int);
        let ghost next = resources.items().take(i + 1);
        let ghost rs0 = rs;
        let ghost diagnostics0 = diagnostics@;
        proof {
            assert(next =~= taken.push(res));
            assert forall|r: Seq<char>| #[trigger] next.contains(r) <==> taken.contains(r) || r
                == res by {
                if taken.contains(r) {
                    let q = choose|q: int| 0 <= q < taken.len() && taken[q] == r;
                    assert(next[q] == r);
                }
                assert(next[i as int] == res);
            }
        }
        let nodes = find_conflicting(plan, &known, &order, resource, Ghost(g));
        if !nodes.is_empty() {
            let d = Diagnostic {
                kind: DiagnosticKind::ResourceConflict,
                nodes: set_items(&nodes),
                resource: Some(resource.to_owned()),
                message: wrapped("effects touch the same resource '", resource, "'"),
            };
            let ghost dv = d@;
            diagnostics.push(d);
            proof {
                rs = rs.push(res);
                assert(is_conflict_report(p, g, res, dv));
                assert forall|a: int, b: int| 0 <= a < b < rs.len() implies lex_less(
                    #[trigger] rs[a],
                    #[trigger] rs[b],
                ) by {
                    if b < rs0.len() {
                        assert(rs[a] == rs0[a] && rs[b] == rs0[b]);
                    } else {
                        assert(rs0.contains(rs0[a]));
                        assert(taken.contains(rs0[a]));
                        let q = choose|q: int| 0 <= q < taken.len() && taken[q] == rs0[a];
                        assert(lex_less(resources.items()[q], resources.items()[i as int]));
                    }
                }
                assert forall|k: int| 0 <= k < rs.len() implies is_conflict_report(
                    p,
                    g,
                    #[trigger] rs[k],
                    diagnostics@[k + first]@,
                ) by {
                    if k < rs0.len() {
                        assert(rs[k] == rs0[k]);
                        assert(diagnostics@[k + first] == diagnostics0[k + first]);
                    }
                }
                assert forall|r: Seq<char>| #[trigger] rs.contains(r) <==> next.contains(r)
                    && conflicting(p, g, r) != Set::<Seq<char>>::empty() by {
                    if rs0.contains(r) {
                        let q = choose|q: int| 0 <= q < rs0.len() && rs0[q] == r;
                        assert(rs[q] == r);
                    }
                    assert(rs[rs0.len() as int] == res);
                    if rs.contains(r) && r != res {
                        let q = choose|q: int| 0 <= q < rs.len() && rs[q] == r;
                        assert(rs0[q] == r);
                    }
                    assert(rs0.contains(r) <==> taken.contains(r) && conflicting(p, g, r)
                        != Set::<Seq<char>>::empty());
                }
            }
        } else {
            proof {
                assert forall|r: Seq<char>| #[trigger] rs.contains(r) <==> next.contains(r)
                    && conflicting(p, g, r) != Set::<Seq<char>>::empty() by {
                    assert(rs0.contains(r) <==> taken.contains(r) && conflicting(p, g, r)
                        != Set::<Seq<char>>::empty());
                }
            }
        }
        i = i + 1;
    }
    proof {
        let all = resources.items();
        assert(all.take(i as int) =~= all);
        let ds = if first == 0 {
            views(diagnostics@)
        } else {
            views(diagnostics@).drop_first()
        };
        assert forall|k: int| 0 <= k < rs.len() implies is_conflict_report(
            p,
            g,
            #[trigger] rs[k],
            ds[k],
        ) by {
            assert(ds[k] == diagnostics@[k + first]@);
        }
        assert forall|r: Seq<char>| rs.contains(r) <==> #[trigger] conflicting(p, g, r)
            != Set::<Seq<char>>::empty() by {
            if conflicting(p, g, r) != Set::<Seq<char>>::empty() {
                assert(resources@.contains(r));
                assert(all.contains(r));
            }
            assert(rs.contains(r) <==> all.contains(r) && conflicting(p, g, r)
                != Set::<Seq<char>>::empty());
        }
        assert(sorted_texts(rs));
        assert(are_conflict_reports(p, g, ds));
    }
    diagnostics
}

} // verus!
