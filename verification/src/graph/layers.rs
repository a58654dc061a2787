//! Layer construction: conservative parallel layers.
//!
//! Effect conflicts are decided through per-layer aggregates instead of
//! pairwise comparisons, so building a layer of `k` nodes does not compare
//! every pair. The decisions are exactly those of the pairwise formulation.

use vstd::prelude::*;

use crate::graph::resolved::{ResolvedEffects, ResolvedV};
use crate::ordered::{StrMap, StrSet};
use crate::text::same_text;

verus! {

use crate::graph::resolved::{coherent, compatible, compatible_symmetric};
use crate::ordered::lookup;

// ---------------------------------------------------------------------------
// Model
// ---------------------------------------------------------------------------

/// A graph over the ranks `0..n`: what each node depends on and what effects
/// it has.
pub struct LayerModel {
    pub deps: Seq<Set<int>>,
    pub effects: Seq<ResolvedV>,
}

impl LayerModel {
    /// The number of nodes.
    pub open spec fn n(self) -> int {
        self.deps.len() as int
    }

    /// Dependencies name nodes, and there are effects for every node.
    pub open spec fn wf(self) -> bool {
        &&& self.effects.len() == self.deps.len()
        &&& forall|i: int, j: int|
            0 <= i < self.n() && #[trigger] self.deps[i].contains(j) ==> 0 <= j < self.n()
    }

    /// The node is not done and everything that it depends on is.
    pub open spec fn is_ready(self, done: Set<int>, i: int) -> bool {
        0 <= i < self.n() && !done.contains(i) && self.deps[i].subset_of(done)
    }

    /// `s` lists the ready nodes in increasing order.
    pub open spec fn is_ready_list(self, done: Set<int>, s: Seq<int>) -> bool {
        &&& forall|a: int, b: int| 0 <= a < b < s.len() ==> #[trigger] s[a] < #[trigger] s[b]
        &&& forall|i: int| s.contains(i) <==> #[trigger] self.is_ready(done, i)
    }

    /// No set of nodes keeps each of its members waiting for another one.
    pub open spec fn acyclic(self) -> bool {
        forall|s: Set<int>|
            #![trigger self.stuck(s)]
            self.within(s) && !s.is_empty() ==> !self.stuck(s)
    }

    /// Every element of `s` is a node.
    pub open spec fn within(self, s: Set<int>) -> bool {
        forall|i: int| #[trigger] s.contains(i) ==> 0 <= i < self.n()
    }

    /// Every member of `s` depends on a member of `s`.
    #[verifier::opaque]
    pub open spec fn stuck(self, s: Set<int>) -> bool {
        forall|i: int| #[trigger] s.contains(i) ==> !self.deps[i].disjoint(s)
    }

    /// A member of a stuck set depends on a member.
    pub proof fn stuck_step(self, s: Set<int>, i: int) -> (j: int)
        requires
            self.stuck(s),
            s.contains(i),
        ensures
            self.deps[i].contains(j),
            s.contains(j),
    {
        reveal(LayerModel::stuck);
        assert(!self.deps[i].disjoint(s));
        choose|j: int| self.deps[i].contains(j) && s.contains(j)
    }

    /// A set is stuck when every member depends on a member.
    pub proof fn stuck_intro(self, s: Set<int>)
        requires
            forall|i: int| #[trigger] s.contains(i) ==> !self.deps[i].disjoint(s),
        ensures
            self.stuck(s),
    {
        reveal(LayerModel::stuck);
    }
}

/// The candidate may join every node of the layer.
pub open spec fn joins(effects: Seq<ResolvedV>, layer: Seq<int>, candidate: int) -> bool {
    forall|k: int|
        0 <= k < layer.len() ==> compatible(effects[#[trigger] layer[k]], effects[candidate])
}

/// The layer that takes each candidate in turn when it may join those taken
/// before it.
pub open spec fn admitted(effects: Seq<ResolvedV>, candidates: Seq<int>) -> Seq<int>
    decreases candidates.len(),
{
    if candidates.len() == 0 {
        Seq::empty()
    } else {
        let layer = admitted(effects, candidates.drop_last());
        if joins(effects, layer, candidates.last()) {
            layer.push(candidates.last())
        } else {
            layer
        }
    }
}

/// The nodes of the first `k` layers.
pub open spec fn done_before(layers: Seq<Seq<int>>, k: int) -> Set<int> {
    Set::new(|i: int| exists|a: int| 0 <= a < k && (#[trigger] layers[a]).contains(i))
}

/// Appending a layer does not change what the layers before it hold.
pub proof fn lemma_done_prefix(layers: Seq<Seq<int>>, layer: Seq<int>, k: int)
    requires
        0 <= k <= layers.len(),
    ensures
        done_before(layers.push(layer), k) == done_before(layers, k),
{
    let more = layers.push(layer);
    assert(done_before(more, k) =~= done_before(layers, k)) by {
        assert forall|i: int| done_before(more, k).contains(i) <==> done_before(layers, k).contains(i) by {
            if done_before(more, k).contains(i) {
                let a = choose|a: int| 0 <= a < k && (#[trigger] more[a]).contains(i);
                assert(layers[a].contains(i));
            }
            if done_before(layers, k).contains(i) {
                let a = choose|a: int| 0 <= a < k && (#[trigger] layers[a]).contains(i);
                assert(more[a].contains(i));
            }
        }
    }
}

/// `layers` are the layers of the graph, up to the point where no node is
/// ready: each one takes from the ready nodes, in increasing order, those that
/// may join the ones taken before.
pub open spec fn is_layering(m: LayerModel, layers: Seq<Seq<int>>) -> bool {
    &&& forall|k: int| 0 <= k < layers.len() ==> #[trigger] is_layer(m, layers, k)
    &&& forall|i: int| !#[trigger] m.is_ready(done_before(layers, layers.len() as int), i)
}

/// Layer `k` is what the ready nodes give after the layers before it.
pub open spec fn is_layer(m: LayerModel, layers: Seq<Seq<int>>, k: int) -> bool {
    exists|ready: Seq<int>|
        {
            &&& #[trigger] m.is_ready_list(done_before(layers, k), ready)
            &&& ready.len() > 0
            &&& layers[k] == admitted(m.effects, ready)
        }
}

// ---------------------------------------------------------------------------
// Laws
// ---------------------------------------------------------------------------

proof fn lemma_admitted_subset(effects: Seq<ResolvedV>, candidates: Seq<int>)
    ensures
        forall|k: int|
            0 <= k < admitted(effects, candidates).len() ==> candidates.contains(
                #[trigger] admitted(effects, candidates)[k],
            ),
        candidates.len() > 0 ==> admitted(effects, candidates).len() > 0,
    decreases candidates.len(),
{
    if candidates.len() > 0 {
        let front = candidates.drop_last();
        let layer = admitted(effects, front);
        lemma_admitted_subset(effects, front);
        let all = admitted(effects, candidates);
        assert forall|k: int| 0 <= k < all.len() implies candidates.contains(#[trigger] all[k]) by {
            if k < layer.len() {
                assert(all[k] == layer[k]);
                assert(front.contains(layer[k]));
                let p = choose|p: int| 0 <= p < front.len() && front[p] == layer[k];
                assert(candidates[p] == layer[k]);
            } else {
                assert(candidates[candidates.len() - 1] == all[k]);
            }
        }
        if front.len() == 0 {
            assert(layer.len() == 0);
            assert(joins(effects, layer, candidates.last()));
        }
    }
}

proof fn lemma_admitted_increasing(effects: Seq<ResolvedV>, candidates: Seq<int>)
    requires
        forall|a: int, b: int|
            0 <= a < b < candidates.len() ==> #[trigger] candidates[a] < #[trigger] candidates[b],
    ensures
        forall|a: int, b: int|
            0 <= a < b < admitted(effects, candidates).len() ==> #[trigger] admitted(
                effects,
                candidates,
            )[a] < #[trigger] admitted(effects, candidates)[b],
    decreases candidates.len(),
{
    if candidates.len() > 0 {
        let front = candidates.drop_last();
        let layer = admitted(effects, front);
        let all = admitted(effects, candidates);
        lemma_admitted_increasing(effects, front);
        lemma_admitted_subset(effects, front);
        assert forall|a: int, b: int| 0 <= a < b < all.len() implies #[trigger] all[a]
            < #[trigger] all[b] by {
            assert(all[a] == layer[a]);
            if b < layer.len() {
                assert(all[b] == layer[b]);
            } else {
                assert(front.contains(layer[a]));
                let p = choose|p: int| 0 <= p < front.len() && front[p] == layer[a];
                assert(candidates[p] < candidates[candidates.len() - 1]);
            }
        }
    }
}

proof fn lemma_admitted_compatible(effects: Seq<ResolvedV>, candidates: Seq<int>)
    ensures
        forall|a: int, b: int|
            0 <= a < b < admitted(effects, candidates).len() ==> compatible(
                effects[#[trigger] admitted(effects, candidates)[a]],
                effects[#[trigger] admitted(effects, candidates)[b]],
            ),
    decreases candidates.len(),
{
    if candidates.len() > 0 {
        let front = candidates.drop_last();
        let layer = admitted(effects, front);
        let all = admitted(effects, candidates);
        lemma_admitted_compatible(effects, front);
        assert forall|a: int, b: int| 0 <= a < b < all.len() implies compatible(
            effects[#[trigger] all[a]],
            effects[#[trigger] all[b]],
        ) by {
            assert(all[a] == layer[a]);
            if b < layer.len() {
                assert(all[b] == layer[b]);
            }
        }
    }
}

/// Every node of a layer was ready when the layer was built: it stands in no
/// earlier layer, and everything that it depends on stands in an earlier one.
pub proof fn layers_respect_dependencies(m: LayerModel, layers: Seq<Seq<int>>, k: int, x: int)
    requires
        is_layering(m, layers),
        0 <= k < layers.len(),
        0 <= x < layers[k].len(),
    ensures
        0 <= layers[k][x] < m.n(),
        !done_before(layers, k).contains(layers[k][x]),
        m.deps[layers[k][x]].subset_of(done_before(layers, k)),
{
    assert(is_layer(m, layers, k));
    let ready = choose|ready: Seq<int>|
        {
            &&& #[trigger] m.is_ready_list(done_before(layers, k), ready)
            &&& ready.len() > 0
            &&& layers[k] == admitted(m.effects, ready)
        };
    lemma_admitted_subset(m.effects, ready);
    assert(ready.contains(admitted(m.effects, ready)[x]));
    assert(m.is_ready(done_before(layers, k), layers[k][x]));
}

/// Any two nodes of one layer may run at the same time.
pub proof fn layers_hold_no_conflict(
    m: LayerModel,
    layers: Seq<Seq<int>>,
    k: int,
    x: int,
    y: int,
)
    requires
        is_layering(m, layers),
        0 <= k < layers.len(),
        0 <= x < layers[k].len(),
        0 <= y < layers[k].len(),
        x != y,
    ensures
        compatible(m.effects[layers[k][x]], m.effects[layers[k][y]]),
{
    assert(is_layer(m, layers, k));
    let ready = choose|ready: Seq<int>|
        {
            &&& #[trigger] m.is_ready_list(done_before(layers, k), ready)
            &&& ready.len() > 0
            &&& layers[k] == admitted(m.effects, ready)
        };
    lemma_admitted_compatible(m.effects, ready);
    if x < y {
        assert(compatible(
            m.effects[admitted(m.effects, ready)[x]],
            m.effects[admitted(m.effects, ready)[y]],
        ));
    } else {
        assert(compatible(
            m.effects[admitted(m.effects, ready)[y]],
            m.effects[admitted(m.effects, ready)[x]],
        ));
        compatible_symmetric(m.effects[layers[k][y]], m.effects[layers[k][x]]);
    }
}

/// Layers list their nodes in increasing order.
pub proof fn layers_are_increasing(m: LayerModel, layers: Seq<Seq<int>>, k: int)
    requires
        is_layering(m, layers),
        0 <= k < layers.len(),
    ensures
        layers[k].len() > 0,
        forall|a: int, b: int|
            0 <= a < b < layers[k].len() ==> #[trigger] layers[k][a] < #[trigger] layers[k][b],
{
    assert(is_layer(m, layers, k));
    let ready = choose|ready: Seq<int>|
        {
            &&& #[trigger] m.is_ready_list(done_before(layers, k), ready)
            &&& ready.len() > 0
            &&& layers[k] == admitted(m.effects, ready)
        };
    lemma_admitted_increasing(m.effects, ready);
    lemma_admitted_subset(m.effects, ready);
}

/// The layers hold every node exactly when the graph has no cycle.
pub proof fn layers_complete_iff_acyclic(m: LayerModel, layers: Seq<Seq<int>>)
    requires
        m.wf(),
        is_layering(m, layers),
    ensures
        (forall|i: int|
            0 <= i < m.n() ==> #[trigger] done_before(layers, layers.len() as int).contains(i))
            <==> m.acyclic(),
{
    reveal(LayerModel::stuck);
    let done = done_before(layers, layers.len() as int);
    if forall|i: int| 0 <= i < m.n() ==> #[trigger] done.contains(i) {
        assert forall|s: Set<int>|
            #![trigger m.stuck(s)]
            m.within(s) && !s.is_empty() implies !m.stuck(s) by {
            let i0 = choose|i: int| s.contains(i);
            assert(s.contains(i0));
            assert(done.contains(i0));
            let k0 = choose|a: int| 0 <= a < layers.len() && (#[trigger] layers[a]).contains(i0);
            lemma_first_layer_not_stuck(m, layers, s, k0);
        }
    } else {
        let s = Set::new(|i: int| 0 <= i < m.n() && !done.contains(i));
        let i0 = choose|i: int| 0 <= i < m.n() && !#[trigger] done.contains(i);
        assert(s.contains(i0));
        assert(m.within(s));
        assert(m.stuck(s)) by {
            assert forall|i: int| #[trigger] s.contains(i) implies !m.deps[i].disjoint(s) by {
                assert(!m.is_ready(done, i));
                assert(!m.deps[i].subset_of(done));
                let j = choose|j: int| m.deps[i].contains(j) && !done.contains(j);
                assert(s.contains(j));
            }
        }
        assert(!m.acyclic());
    }
}

proof fn lemma_first_layer_not_stuck(m: LayerModel, layers: Seq<Seq<int>>, s: Set<int>, k: int)
    requires
        m.wf(),
        is_layering(m, layers),
        0 <= k < layers.len(),
        exists|i: int| s.contains(i) && #[trigger] layers[k].contains(i),
    ensures
        !m.stuck(s),
    decreases k,
{
    reveal(LayerModel::stuck);
    if exists|a: int, i: int| 0 <= a < k && s.contains(i) && #[trigger] layers[a].contains(i) {
        let (a, i) = choose|a: int, i: int|
            0 <= a < k && s.contains(i) && #[trigger] layers[a].contains(i);
        assert(s.contains(i) && layers[a].contains(i));
        lemma_first_layer_not_stuck(m, layers, s, a);
    } else {
        let i = choose|i: int| s.contains(i) && #[trigger] layers[k].contains(i);
        let x = choose|x: int| 0 <= x < layers[k].len() && layers[k][x] == i;
        layers_respect_dependencies(m, layers, k, x);
        if m.stuck(s) {
            assert(s.contains(i));
            assert(!m.deps[i].disjoint(s));
            let j = choose|j: int| m.deps[i].contains(j) && s.contains(j);
            assert(done_before(layers, k).contains(j));
            let a = choose|a: int| 0 <= a < k && (#[trigger] layers[a]).contains(j);
            assert(layers[a].contains(j));
            assert(false);
        }
    }
}

/// The layers of a graph are determined by the graph.
pub proof fn layering_unique(m: LayerModel, a: Seq<Seq<int>>, b: Seq<Seq<int>>)
    requires
        is_layering(m, a),
        is_layering(m, b),
    ensures
        a == b,
{
    let k = lemma_common_prefix(m, a, b, if a.len() <= b.len() {
        a.len() as int
    } else {
        b.len() as int
    });
    if a.len() < b.len() {
        assert(is_layer(m, b, a.len() as int));
        lemma_done_agrees(a, b, a.len() as int);
        lemma_layer_needs_ready(m, b, a.len() as int);
    } else if b.len() < a.len() {
        assert(is_layer(m, a, b.len() as int));
        lemma_done_agrees(a, b, b.len() as int);
        lemma_layer_needs_ready(m, a, b.len() as int);
    }
    assert(a =~= b);
}

proof fn lemma_layer_needs_ready(m: LayerModel, layers: Seq<Seq<int>>, k: int)
    requires
        0 <= k < layers.len(),
        is_layer(m, layers, k),
    ensures
        exists|i: int| #[trigger] m.is_ready(done_before(layers, k), i),
{
    let ready = choose|ready: Seq<int>|
        {
            &&& #[trigger] m.is_ready_list(done_before(layers, k), ready)
            &&& ready.len() > 0
            &&& layers[k] == admitted(m.effects, ready)
        };
    assert(ready.contains(ready[0]));
    assert(m.is_ready(done_before(layers, k), ready[0]));
}

proof fn lemma_done_agrees(a: Seq<Seq<int>>, b: Seq<Seq<int>>, k: int)
    requires
        0 <= k <= a.len(),
        k <= b.len(),
        forall|i: int| 0 <= i < k ==> a[i] == b[i],
    ensures
        done_before(a, k) == done_before(b, k),
{
    assert(done_before(a, k) =~= done_before(b, k)) by {
        assert forall|i: int| done_before(a, k).contains(i) <==> done_before(b, k).contains(i) by {
            if done_before(a, k).contains(i) {
                let x = choose|x: int| 0 <= x < k && (#[trigger] a[x]).contains(i);
                assert(b[x].contains(i));
            }
            if done_before(b, k).contains(i) {
                let x = choose|x: int| 0 <= x < k && (#[trigger] b[x]).contains(i);
                assert(a[x].contains(i));
            }
        }
    }
}

proof fn lemma_common_prefix(m: LayerModel, a: Seq<Seq<int>>, b: Seq<Seq<int>>, k: int) -> (r: int)
    requires
        is_layering(m, a),
        is_layering(m, b),
        0 <= k <= a.len(),
        k <= b.len(),
    ensures
        r == k,
        forall|i: int| 0 <= i < k ==> a[i] == b[i],
    decreases k,
{
    if k > 0 {
        lemma_common_prefix(m, a, b, k - 1);
        lemma_done_agrees(a, b, k - 1);
        assert(is_layer(m, a, k - 1));
        assert(is_layer(m, b, k - 1));
        let done = done_before(a, k - 1);
        let ra = choose|ready: Seq<int>|
            {
                &&& #[trigger] m.is_ready_list(done_before(a, k - 1), ready)
                &&& ready.len() > 0
                &&& a[k - 1] == admitted(m.effects, ready)
            };
        let rb = choose|ready: Seq<int>|
            {
                &&& #[trigger] m.is_ready_list(done_before(b, k - 1), ready)
                &&& ready.len() > 0
                &&& b[k - 1] == admitted(m.effects, ready)
            };
        assert forall|i: int| ra.contains(i) <==> rb.contains(i) by {
            assert(ra.contains(i) <==> m.is_ready(done, i));
            assert(rb.contains(i) <==> m.is_ready(done, i));
        }
        lemma_increasing_unique(ra, rb);
    }
    k
}

/// Two increasing sequences of the same numbers are the same.
pub proof fn lemma_increasing_unique(a: Seq<int>, b: Seq<int>)
    requires
        forall|x: int, y: int| 0 <= x < y < a.len() ==> #[trigger] a[x] < #[trigger] a[y],
        forall|x: int, y: int| 0 <= x < y < b.len() ==> #[trigger] b[x] < #[trigger] b[y],
        forall|i: int| a.contains(i) <==> b.contains(i),
    ensures
        a == b,
    decreases a.len(),
{
    if a.len() == 0 {
        if b.len() > 0 {
            assert(b.contains(b[0]));
        }
        assert(a =~= b);
    } else if b.len() == 0 {
        assert(a.contains(a[0]));
    } else {
        let x = a.last();
        let y = b.last();
        assert(a.contains(x) && b.contains(y));
        assert(b.contains(x) && a.contains(y));
        let p = choose|p: int| 0 <= p < b.len() && b[p] == x;
        let q = choose|q: int| 0 <= q < a.len() && a[q] == y;
        assert(x <= y) by {
            if p < b.len() - 1 {
                assert(b[p] < b[b.len() - 1]);
            }
        }
        assert(y <= x) by {
            if q < a.len() - 1 {
                assert(a[q] < a[a.len() - 1]);
            }
        }
        let af = a.drop_last();
        let bf = b.drop_last();
        assert forall|i: int| af.contains(i) <==> bf.contains(i) by {
            if af.contains(i) {
                let u = choose|u: int| 0 <= u < af.len() && af[u] == i;
                assert(a[u] < a[a.len() - 1]);
                assert(a.contains(i));
                let w = choose|w: int| 0 <= w < b.len() && b[w] == i;
                assert(w < b.len() - 1);
                assert(bf[w] == i);
            }
            if bf.contains(i) {
                let u = choose|u: int| 0 <= u < bf.len() && bf[u] == i;
                assert(b[u] < b[b.len() - 1]);
                assert(b.contains(i));
                let w = choose|w: int| 0 <= w < a.len() && a[w] == i;
                assert(w < a.len() - 1);
                assert(af[w] == i);
            }
        }
        lemma_increasing_unique(af, bf);
        assert(a =~= af.push(x));
        assert(b =~= bf.push(y));
    }
}

// ---------------------------------------------------------------------------
// Aggregated admission
// ---------------------------------------------------------------------------

/// The write claim on one resource within the layer being built.
///
/// Write/write overlap is only admissible within a single commutative tool,
/// so every member writing a resource necessarily shares one tool and
/// commutativity: one claim per resource captures them all.
pub struct WriteClaim {
    pub tool: String,
    pub commutative: bool,
}

/// Aggregated effect state of the layer being built.
///
/// [`LayerState::admits`] evaluates the same conditions as
/// [`ResolvedEffects::can_run_with`] against every member at once: the
/// pairwise checks decompose into membership tests against the union of
/// member reads and the per-resource write claims.
pub struct LayerState {
    members: usize,
    undeclared: bool,
    reads: StrSet,
    writes: StrMap<WriteClaim>,
    taken: Ghost<Seq<ResolvedV>>,
}

impl View for LayerState {
    type V = Seq<ResolvedV>;

    /// The effects of the members, in the order in which they joined.
    closed spec fn view(&self) -> Seq<ResolvedV> {
        self.taken@
    }
}

impl LayerState {
    /// The aggregates describe the members.
    pub closed spec fn wf(&self) -> bool {
        let taken = self.taken@;
        &&& self.members == taken.len()
        &&& forall|k: int| 0 <= k < taken.len() ==> coherent(#[trigger] taken[k])
        &&& forall|a: int, b: int|
            0 <= a < b < taken.len() ==> compatible(#[trigger] taken[a], #[trigger] taken[b])
        &&& self.undeclared <==> exists|k: int| 0 <= k < taken.len() && !(#[trigger] taken[k]).declared
        &&& !self.undeclared ==> {
            &&& forall|r: Seq<char>| #[trigger] self.reads@.contains(r) <==> read_by(taken, r)
            &&& forall|r: Seq<char>|
                #![trigger lookup(self.writes.pairs(), r)]
                match lookup(self.writes.pairs(), r) {
                    None => !written_by(taken, r),
                    Some(claim) => claimed_by(taken, r, claim),
                }
        }
    }

    /// The state of an empty layer.
    pub fn new() -> (r: Self)
        ensures
            r.wf(),
            r@ == Seq::<ResolvedV>::empty(),
    {
        LayerState {
            members: 0,
            undeclared: false,
            reads: StrSet::new(),
            writes: StrMap::new(),
            taken: Ghost(Seq::empty()),
        }
    }

    /// Whether `candidate` may join the layer.
    pub fn admits(&self, candidate: &ResolvedEffects) -> (r: bool)
        requires
            self.wf(),
            coherent(candidate@),
        ensures
            r == forall|k: int|
                0 <= k < self@.len() ==> compatible(#[trigger] self@[k], candidate@),
    {
        let ghost taken = self.taken@;
        let ghost c = candidate@;
        if self.members == 0 {
            return true;
        }
        if self.undeclared || !candidate.declared {
            proof {
                if self.undeclared {
                    let k = choose|k: int| 0 <= k < taken.len() && !(#[trigger] taken[k]).declared;
                    assert(!compatible(self@[k], c));
                } else {
                    assert(!compatible(self@[0], c));
                }
            }
            return false;
        }
        let mut i: usize = 0;
        while i < candidate.reads.len()
            invariant
                i <= candidate.reads.items().len(),
                self.wf(),
                !self.undeclared,
                taken == self.taken@,
                c == candidate@,
                coherent(c),
                c.declared,
                forall|j: int|
                    0 <= j < i ==> !written_by(taken, #[trigger] candidate.reads.items()[j]),
            decreases candidate.reads.items().len() - i,
        {
            let resource = candidate.reads.item_at(i);
            if self.writes.contains_key(resource) {
                proof {
                    assert(lookup(self.writes.pairs(), resource@) is Some);
                    let claim = lookup(self.writes.pairs(), resource@)->0;
                    assert(claimed_by(taken, resource@, claim));
                    let k = choose|k: int|
                        0 <= k < taken.len() && (#[trigger] taken[k]).writes.contains(resource@)
                            && taken[k].tool == claim.tool@ && taken[k].commutative
                            == claim.commutative;
                    assert(c.reads.contains(resource@));
                    assert(!taken[k].writes.disjoint(c.reads));
                    assert(coherent(taken[k]));
                    assert(!compatible(self@[k], c));
                }
                return false;
            }
            assert(lookup(self.writes.pairs(), resource@) is None);
            i = i + 1;
        }
        proof {
            assert forall|k: int| 0 <= k < taken.len() implies (#[trigger] taken[k]).writes.disjoint(
                c.reads,
            ) by {
                assert forall|r: Seq<char>| !(taken[k].writes.contains(r) && c.reads.contains(r)) by {
                    if taken[k].writes.contains(r) && c.reads.contains(r) {
                        let j = choose|j: int|
                            0 <= j < candidate.reads.items().len() && candidate.reads.items()[j]
                                == r;
                        assert(written_by(taken, r));
                    }
                }
            }
            assert forall|k: int| 0 <= k < taken.len() implies (#[trigger] taken[k]).declared by {}
        }
        if candidate.pure {
            proof {
                assert forall|k: int| 0 <= k < taken.len() implies compatible(
                    #[trigger] taken[k],
                    c,
                ) by {
                    assert(c.writes =~= Set::empty());
                }
            }
            return true;
        }
        let mut i: usize = 0;
        while i < candidate.writes.len()
            invariant
                i <= candidate.writes.items().len(),
                self.wf(),
                !self.undeclared,
                taken == self.taken@,
                c == candidate@,
                c.declared,
                !c.pure,
                forall|j: int|
                    0 <= j < i ==> may_write(taken, c, #[trigger] candidate.writes.items()[j]),
            decreases candidate.writes.items().len() - i,
        {
            let resource = candidate.writes.item_at(i);
            assert(c.writes.contains(resource@));
            if self.reads.contains(resource) {
                proof {
                    assert(read_by(taken, resource@));
                    let k = choose|k: int|
                        0 <= k < taken.len() && (#[trigger] taken[k]).reads.contains(resource@);
                    assert(!c.writes.disjoint(taken[k].reads));
                    assert(!compatible(self@[k], c));
                }
                return false;
            }
            match self.writes.get(resource) {
                None => {
                    assert(!written_by(taken, resource@));
                },
                Some(claim) => {
                    let ok = claim.commutative && candidate.commutative && same_text(
                        claim.tool.as_str(),
                        candidate.tool.as_str(),
                    );
                    proof {
                        assert(claimed_by(taken, resource@, *claim));
                        let k = choose|k: int|
                            0 <= k < taken.len() && (#[trigger] taken[k]).writes.contains(resource@)
                                && taken[k].tool == claim.tool@ && taken[k].commutative
                                == claim.commutative;
                        if !ok {
                            assert(!taken[k].writes.disjoint(c.writes));
                            assert(coherent(taken[k]));
                            assert(!compatible(self@[k], c));
                        } else {
                            assert forall|b: int|
                                0 <= b < taken.len() && (#[trigger] taken[b]).writes.contains(
                                    resource@,
                                ) implies taken[b].tool == c.tool && taken[b].commutative by {
                                if b != k {
                                    let (x, y) = if b < k {
                                        (b, k)
                                    } else {
                                        (k, b)
                                    };
                                    assert(compatible(taken[x], taken[y]));
                                    assert(coherent(taken[x]));
                                    assert(coherent(taken[y]));
                                    assert(!taken[x].writes.disjoint(taken[y].writes));
                                }
                            }
                        }
                    }
                    if !ok {
                        return false;
                    }
                },
            }
            assert(may_write(taken, c, resource@));
            i = i + 1;
        }
        proof {
            assert forall|k: int| 0 <= k < taken.len() implies compatible(#[trigger] taken[k], c) by {
                assert(c.writes.disjoint(taken[k].reads)) by {
                    assert forall|r: Seq<char>| !(c.writes.contains(r) && taken[k].reads.contains(r)) by {
                        if c.writes.contains(r) && taken[k].reads.contains(r) {
                            let j = choose|j: int|
                                0 <= j < candidate.writes.items().len()
                                    && candidate.writes.items()[j] == r;
                            assert(may_write(taken, c, candidate.writes.items()[j]));
                            assert(read_by(taken, r));
                        }
                    }
                }
                if !taken[k].writes.disjoint(c.writes) {
                    let r = choose|r: Seq<char>|
                        taken[k].writes.contains(r) && c.writes.contains(r);
                    let j = choose|j: int|
                        0 <= j < candidate.writes.items().len() && candidate.writes.items()[j] == r;
                    assert(may_write(taken, c, candidate.writes.items()[j]));
                }
            }
        }
        true
    }

    /// Adds `candidate` to the layer.
    pub fn absorb(&mut self, candidate: &ResolvedEffects)
        requires
            old(self).wf(),
            coherent(candidate@),
            old(self)@.len() < usize::MAX,
            forall|k: int|
                0 <= k < old(self)@.len() ==> compatible(#[trigger] old(self)@[k], candidate@),
        ensures
            final(self).wf(),
            final(self)@ == old(self)@.push(candidate@),
    {
        let ghost before = self.taken@;
        let ghost c = candidate@;
        let ghost after = before.push(c);
        self.members = self.members + 1;
        self.taken = Ghost(after);
        proof {
            assert forall|a: int, b: int| 0 <= a < b < after.len() implies compatible(
                #[trigger] after[a],
                #[trigger] after[b],
            ) by {
                assert(after[a] == before[a]);
                if b < before.len() {
                    assert(after[b] == before[b]);
                }
            }
        }
        if !candidate.declared {
            self.undeclared = true;
            assert(!after[before.len() as int].declared);
            return ;
        }
        proof {
            if self.undeclared {
                let k = choose|k: int| 0 <= k < before.len() && !(#[trigger] before[k]).declared;
                assert(compatible(before[k], c));
            }
            assert forall|k: int| 0 <= k < after.len() implies (#[trigger] after[k]).declared by {
                if k < before.len() {
                    assert(after[k] == before[k]);
                }
            }
        }
        self.reads.extend(&candidate.reads);
        proof {
            assert forall|r: Seq<char>| #[trigger] self.reads@.contains(r) <==> read_by(after, r) by {
                if read_by(before, r) {
                    let k = choose|k: int|
                        0 <= k < before.len() && (#[trigger] before[k]).reads.contains(r);
                    assert(after[k].reads.contains(r));
                }
                if c.reads.contains(r) {
                    assert(after[before.len() as int].reads.contains(r));
                }
                if read_by(after, r) {
                    let k = choose|k: int|
                        0 <= k < after.len() && (#[trigger] after[k]).reads.contains(r);
                    if k < before.len() {
                        assert(before[k].reads.contains(r));
                    }
                }
            }
        }
        if !candidate.pure {
            let mut i: usize = 0;
            proof {
                assert forall|r: Seq<char>|
                    #![trigger lookup(self.writes.pairs(), r)]
                    claims_hold(before, after, candidate.writes.items().take(0), self.writes, r) by {
                    lemma_claims_start(before, c, self.writes, r);
                    assert(candidate.writes.items().take(0) =~= Seq::empty());
                }
            }
            while i < candidate.writes.len()
                invariant
                    i <= candidate.writes.items().len(),
                    c == candidate@,
                    after == before.push(c),
                    forall|r: Seq<char>|
                        #![trigger lookup(self.writes.pairs(), r)]
                        claims_hold(
                            before,
                            after,
                            candidate.writes.items().take(i as int),
                            self.writes,
                            r,
                        ),
                    self.members == after.len(),
                    self.taken@ == after,
                    !self.undeclared,
                    forall|r: Seq<char>| #[trigger] self.reads@.contains(r) <==> read_by(after, r),
                decreases candidate.writes.items().len() - i,
            {
                let resource = candidate.writes.item_at(i);
                let ghost old_writes = self.writes;
                let ghost res = resource@;
                let ghost seen = candidate.writes.items().take(i as int);
                let ghost next = candidate.writes.items().take(i + 1);
                if !self.writes.contains_key(resource) {
                    let claim = WriteClaim {
                        tool: candidate.tool.clone(),
                        commutative: candidate.commutative,
                    };
                    self.writes.insert(resource.to_owned(), claim);
                    proof {
                        let last = after.len() - 1;
                        assert(after[last].writes.contains(res));
                        assert(claimed_by(after, res, claim));
                    }
                } else {
                    proof {
                        assert(lookup(self.writes.pairs(), res) is Some);
                    }
                }
                proof {
                    assert(next =~= seen.push(res));
                    assert forall|r: Seq<char>|
                        #![trigger lookup(self.writes.pairs(), r)]
                        claims_hold(before, after, next, self.writes, r) by {
                        assert(claims_hold(before, after, seen, old_writes, r));
                        if seen.contains(r) {
                            let p = choose|p: int| 0 <= p < seen.len() && seen[p] == r;
                            assert(next[p] == r);
                        }
                        if next.contains(r) && r != res {
                            let p = choose|p: int| 0 <= p < next.len() && next[p] == r;
                            assert(seen[p] == r);
                        }
                        assert(next[i as int] == res);
                    }
                }
                i = i + 1;
            }
            proof {
                let all = candidate.writes.items();
                assert(all.take(i as int) =~= all);
                assert forall|r: Seq<char>|
                    #![trigger lookup(self.writes.pairs(), r)]
                    match lookup(self.writes.pairs(), r) {
                        None => !written_by(after, r),
                        Some(claim) => claimed_by(after, r, claim),
                    } by {
                    assert(claims_hold(before, after, all, self.writes, r));
                    if written_by(after, r) {
                        let k = choose|k: int|
                            0 <= k < after.len() && (#[trigger] after[k]).writes.contains(r);
                        if k < before.len() {
                            assert(before[k].writes.contains(r));
                            assert(written_by(before, r));
                        } else {
                            assert(candidate.writes@.contains(r));
                            assert(all.contains(r));
                        }
                    }
                }
            }
        } else {
            proof {
                assert(c.writes =~= Set::empty());
                assert forall|r: Seq<char>|
                    #![trigger lookup(self.writes.pairs(), r)]
                    match lookup(self.writes.pairs(), r) {
                        None => !written_by(after, r),
                        Some(claim) => claimed_by(after, r, claim),
                    } by {
                    lemma_claims_start(before, c, self.writes, r);
                    if written_by(after, r) {
                        let k = choose|k: int|
                            0 <= k < after.len() && (#[trigger] after[k]).writes.contains(r);
                        assert(k < before.len());
                        assert(before[k].writes.contains(r));
                        assert(written_by(before, r));
                    }
                }
            }
        }
    }
}

/// Some member reads the resource.
pub open spec fn read_by(taken: Seq<ResolvedV>, r: Seq<char>) -> bool {
    exists|k: int| 0 <= k < taken.len() && (#[trigger] taken[k]).reads.contains(r)
}

/// Some member writes the resource.
pub open spec fn written_by(taken: Seq<ResolvedV>, r: Seq<char>) -> bool {
    exists|k: int| 0 <= k < taken.len() && (#[trigger] taken[k]).writes.contains(r)
}

/// The claim is that of a member that writes the resource.
pub open spec fn claimed_by(taken: Seq<ResolvedV>, r: Seq<char>, claim: WriteClaim) -> bool {
    exists|k: int|
        0 <= k < taken.len() && (#[trigger] taken[k]).writes.contains(r) && taken[k].tool
            == claim.tool@ && taken[k].commutative == claim.commutative
}

/// Writing the resource puts the candidate in conflict with no member.
spec fn may_write(taken: Seq<ResolvedV>, c: ResolvedV, r: Seq<char>) -> bool {
    &&& !read_by(taken, r)
    &&& forall|b: int|
        0 <= b < taken.len() && (#[trigger] taken[b]).writes.contains(r) ==> taken[b].tool == c.tool
            && taken[b].commutative && c.commutative
}

/// The claims cover the members before and the resources `seen` of the newest.
spec fn claims_hold(
    before: Seq<ResolvedV>,
    after: Seq<ResolvedV>,
    seen: Seq<Seq<char>>,
    writes: StrMap<WriteClaim>,
    r: Seq<char>,
) -> bool {
    match lookup(writes.pairs(), r) {
        None => !written_by(before, r) && !seen.contains(r),
        Some(claim) => claimed_by(after, r, claim),
    }
}

proof fn lemma_claims_start(
    before: Seq<ResolvedV>,
    c: ResolvedV,
    writes: StrMap<WriteClaim>,
    r: Seq<char>,
)
    requires
        match lookup(writes.pairs(), r) {
            None => !written_by(before, r),
            Some(claim) => claimed_by(before, r, claim),
        },
    ensures
        claims_hold(before, before.push(c), Seq::empty(), writes, r),
{
    match lookup(writes.pairs(), r) {
        None => {},
        Some(claim) => {
            let k = choose|k: int|
                0 <= k < before.len() && (#[trigger] before[k]).writes.contains(r)
                    && before[k].tool == claim.tool@ && before[k].commutative == claim.commutative;
            assert(before.push(c)[k] == before[k]);
        },
    }
}

} // verus!
