//! The nodes of a plan in the order of their ids.

use vstd::hash_map::StringHashMap;
use vstd::prelude::*;

use crate::graph::validate::GraphError;
use crate::ordered::{StrMap, StrSet};
use crate::plan::{Node, NodeV};
use crate::refs::validate_node_id;
use crate::text::text_less;

verus! {

use crate::graph::rounds::ints;
use crate::graph::validate::index_error;
use crate::ordered::{has_key, key_position, sorted_pairs, sorted_position, views};
use crate::refs::node_id_error;
use crate::text::{lex_less, lex_less_asymmetric, lex_less_irreflexive, lex_less_total, lex_less_transitive};

/// The ids of a list of nodes.
pub open spec fn node_ids(nodes: Seq<NodeV>) -> Set<Seq<char>> {
    Set::new(|id: Seq<char>| exists|i: int| 0 <= i < nodes.len() && (#[trigger] nodes[i]).id == id)
}

/// No two nodes share an id.
pub open spec fn distinct_ids(nodes: Seq<NodeV>) -> bool {
    forall|i: int, j: int|
        0 <= i < j < nodes.len() ==> (#[trigger] nodes[i]).id != (#[trigger] nodes[j]).id
}

/// Every id can be written in a reference.
pub open spec fn valid_ids(nodes: Seq<NodeV>) -> bool {
    forall|i: int| 0 <= i < nodes.len() ==> node_id_error((#[trigger] nodes[i]).id) is None
}

/// `s` holds the same nodes, in the order of their ids.
pub open spec fn is_sorted_nodes(nodes: Seq<NodeV>, s: Seq<NodeV>) -> bool {
    &&& s.len() == nodes.len()
    &&& forall|a: int, b: int|
        0 <= a < b < s.len() ==> lex_less((#[trigger] s[a]).id, (#[trigger] s[b]).id)
    &&& forall|x: NodeV| #[trigger] s.contains(x) <==> nodes.contains(x)
}

/// The nodes in the order of their ids.
pub open spec fn sorted_nodes(nodes: Seq<NodeV>) -> Seq<NodeV> {
    choose|s: Seq<NodeV>| is_sorted_nodes(nodes, s)
}

/// There is one way to put nodes in the order of their ids.
pub proof fn sorted_nodes_unique(nodes: Seq<NodeV>, s: Seq<NodeV>)
    requires
        is_sorted_nodes(nodes, s),
    ensures
        sorted_nodes(nodes) == s,
{
    let t = sorted_nodes(nodes);
    assert(is_sorted_nodes(nodes, t));
    lemma_sorted_same(s, t);
}

/// Nodes with distinct ids can be put in the order of their ids.
pub proof fn distinct_nodes_sort(nodes: Seq<NodeV>)
    requires
        distinct_ids(nodes),
    ensures
        is_sorted_nodes(nodes, sorted_nodes(nodes)),
{
    let s = lemma_sorting(nodes);
}

proof fn lemma_sorting(nodes: Seq<NodeV>) -> (s: Seq<NodeV>)
    requires
        distinct_ids(nodes),
    ensures
        is_sorted_nodes(nodes, s),
    decreases nodes.len(),
{
    if nodes.len() == 0 {
        nodes
    } else {
        let front = nodes.drop_last();
        let x = nodes.last();
        let t = lemma_sorting(front);
        assert forall|i: int| 0 <= i < t.len() implies (#[trigger] t[i]).id != x.id by {
            assert(t.contains(t[i]));
            let p = choose|p: int| 0 <= p < front.len() && front[p] == t[i];
            assert(nodes[p].id != nodes[nodes.len() - 1].id);
        }
        let s = lemma_inserting(t, x);
        assert forall|y: NodeV| #[trigger] s.contains(y) <==> nodes.contains(y) by {
            assert(nodes =~= front.push(x));
            lemma_pushed(front, x, y);
            assert(t.contains(y) <==> front.contains(y));
        }
        s
    }
}

proof fn lemma_inserting(t: Seq<NodeV>, x: NodeV) -> (s: Seq<NodeV>)
    requires
        forall|a: int, b: int|
            0 <= a < b < t.len() ==> lex_less((#[trigger] t[a]).id, (#[trigger] t[b]).id),
        forall|i: int| 0 <= i < t.len() ==> (#[trigger] t[i]).id != x.id,
    ensures
        s.len() == t.len() + 1,
        forall|a: int, b: int|
            0 <= a < b < s.len() ==> lex_less((#[trigger] s[a]).id, (#[trigger] s[b]).id),
        forall|y: NodeV| #[trigger] s.contains(y) <==> t.contains(y) || y == x,
    decreases t.len(),
{
    if t.len() == 0 {
        let s = seq![x];
        assert(s[0] == x);
        s
    } else if lex_less(t.last().id, x.id) {
        let s = t.push(x);
        assert forall|a: int, b: int| 0 <= a < b < s.len() implies lex_less(
            (#[trigger] s[a]).id,
            (#[trigger] s[b]).id,
        ) by {
            if b == t.len() && a < t.len() - 1 {
                lex_less_transitive(t[a].id, t.last().id, x.id);
            }
        }
        assert forall|y: NodeV| #[trigger] s.contains(y) <==> t.contains(y) || y == x by {
            lemma_pushed(t, x, y);
        }
        s
    } else {
        let front = t.drop_last();
        let last = t.last();
        let r = lemma_inserting(front, x);
        let s = r.push(last);
        assert(t[t.len() - 1].id != x.id);
        lex_less_total(last.id, x.id);
        assert forall|a: int, b: int| 0 <= a < b < s.len() implies lex_less(
            (#[trigger] s[a]).id,
            (#[trigger] s[b]).id,
        ) by {
            if b == r.len() {
                assert(r.contains(r[a]));
                if r[a] != x {
                    assert(front.contains(r[a]));
                    let p = choose|p: int| 0 <= p < front.len() && front[p] == r[a];
                    assert(lex_less(t[p].id, t[t.len() - 1].id));
                }
            } else {
                assert(s[a] == r[a] && s[b] == r[b]);
            }
        }
        assert forall|y: NodeV| #[trigger] s.contains(y) <==> t.contains(y) || y == x by {
            lemma_pushed(r, last, y);
            assert(t =~= front.push(last));
            lemma_pushed(front, last, y);
            assert(r.contains(y) <==> front.contains(y) || y == x);
        }
        s
    }
}

proof fn lemma_pushed(s: Seq<NodeV>, x: NodeV, y: NodeV)
    ensures
        s.push(x).contains(y) <==> s.contains(y) || y == x,
{
    if s.contains(y) {
        let p = choose|p: int| 0 <= p < s.len() && s[p] == y;
        assert(s.push(x)[p] == y);
    }
    assert(s.push(x)[s.len() as int] == x);
}

proof fn lemma_sorted_same(s: Seq<NodeV>, t: Seq<NodeV>)
    requires
        forall|a: int, b: int|
            0 <= a < b < s.len() ==> lex_less((#[trigger] s[a]).id, (#[trigger] s[b]).id),
        forall|a: int, b: int|
            0 <= a < b < t.len() ==> lex_less((#[trigger] t[a]).id, (#[trigger] t[b]).id),
        forall|x: NodeV| #[trigger] s.contains(x) <==> t.contains(x),
    ensures
        s == t,
    decreases s.len(),
{
    if s.len() == 0 {
        if t.len() > 0 {
            assert(t.contains(t[0]));
            assert(s.contains(t[0]));
        }
        assert(s =~= t);
    } else if t.len() == 0 {
        assert(s.contains(s[0]));
    } else {
        let x = s.last();
        let y = t.last();
        assert(s.contains(x));
        assert(t.contains(y));
        assert(s.contains(y));
        let p = choose|p: int| 0 <= p < t.len() && t[p] == x;
        let q = choose|q: int| 0 <= q < s.len() && s[q] == y;
        if p < t.len() - 1 {
            assert(lex_less(t[p].id, t[t.len() - 1].id));
            if q < s.len() - 1 {
                assert(lex_less(s[q].id, s[s.len() - 1].id));
                lex_less_asymmetric(x.id, y.id);
            } else {
                lex_less_irreflexive(x.id);
            }
        }
        assert(x == y);
        let sf = s.drop_last();
        let tf = t.drop_last();
        assert forall|z: NodeV| #[trigger] sf.contains(z) <==> tf.contains(z) by {
            if sf.contains(z) {
                let u = choose|u: int| 0 <= u < sf.len() && sf[u] == z;
                assert(s[u] == z);
                assert(lex_less(s[u].id, s[s.len() - 1].id));
                assert(s.contains(z));
                let w = choose|w: int| 0 <= w < t.len() && t[w] == z;
                if w == t.len() - 1 {
                    lex_less_irreflexive(x.id);
                }
                assert(tf[w] == z);
            }
            if tf.contains(z) {
                let u = choose|u: int| 0 <= u < tf.len() && tf[u] == z;
                assert(t[u] == z);
                assert(lex_less(t[u].id, t[t.len() - 1].id));
                assert(t.contains(z));
                assert(s.contains(z));
                let w = choose|w: int| 0 <= w < s.len() && s[w] == z;
                if w == s.len() - 1 {
                    lex_less_irreflexive(x.id);
                }
                assert(sf[w] == z);
            }
        }
        lemma_sorted_same(sf, tf);
        assert(s =~= sf.push(x));
        assert(t =~= tf.push(y));
    }
}

// ---------------------------------------------------------------------------
// Sorting
// ---------------------------------------------------------------------------

/// The nodes at the listed positions stand in the order of their ids.
spec fn picks_sorted(nodes: Seq<NodeV>, picks: Seq<usize>) -> bool {
    forall|a: int, b: int|
        0 <= a < b < picks.len() ==> lex_less(
            nodes[#[trigger] picks[a] as int].id,
            nodes[#[trigger] picks[b] as int].id,
        )
}

/// The list holds the positions from `low` to `high`, each at least once.
spec fn picks_range(picks: Seq<usize>, low: int, high: int) -> bool {
    &&& picks.len() == high - low
    &&& forall|i: int| #[trigger] ints(picks).contains(i) <==> low <= i < high
}

fn merge_picks(
    nodes: &Vec<Node>,
    left: &Vec<usize>,
    right: &Vec<usize>,
    Ghost(low): Ghost<int>,
    Ghost(mid): Ghost<int>,
    Ghost(high): Ghost<int>,
) -> (r: Vec<usize>)
    requires
        distinct_ids(views(nodes@)),
        0 <= low <= mid <= high <= nodes@.len(),
        picks_sorted(views(nodes@), left@),
        picks_sorted(views(nodes@), right@),
        picks_range(left@, low, mid),
        picks_range(right@, mid, high),
    ensures
        picks_sorted(views(nodes@), r@),
        picks_range(r@, low, high),
{
    let ghost ns = views(nodes@);
    let mut out: Vec<usize> = Vec::new();
    let mut a: usize = 0;
    let mut b: usize = 0;
    while a < left.len() || b < right.len()
        invariant
            ns == views(nodes@),
            distinct_ids(ns),
            0 <= low <= mid <= high <= nodes@.len(),
            picks_sorted(ns, left@),
            picks_sorted(ns, right@),
            picks_range(left@, low, mid),
            picks_range(right@, mid, high),
            a <= left@.len(),
            b <= right@.len(),
            out@.len() == a + b,
            picks_sorted(ns, out@),
            forall|i: int|
                #[trigger] ints(out@).contains(i) <==> ints(left@.take(a as int)).contains(i)
                    || ints(right@.take(b as int)).contains(i),
            forall|k: int, x: int|
                0 <= k < out@.len() && a <= x < left@.len() ==> lex_less(
                    ns[#[trigger] out@[k] as int].id,
                    ns[#[trigger] left@[x] as int].id,
                ),
            forall|k: int, x: int|
                0 <= k < out@.len() && b <= x < right@.len() ==> lex_less(
                    ns[#[trigger] out@[k] as int].id,
                    ns[#[trigger] right@[x] as int].id,
                ),
        decreases left@.len() - a + right@.len() - b,
    {
        let ghost out0 = out@;
        proof {
            if a < left.len() {
                assert(ints(left@)[a as int] == left@[a as int] as int);
                assert(ints(left@).contains(left@[a as int] as int));
            }
            if b < right.len() {
                assert(ints(right@)[b as int] == right@[b as int] as int);
                assert(ints(right@).contains(right@[b as int] as int));
            }
        }
        let from_left: bool = if b >= right.len() {
            true
        } else if a >= left.len() {
            false
        } else {
            text_less(nodes[left[a]].id.as_str(), nodes[right[b]].id.as_str())
        };
        if from_left {
            let pick: usize = left[a];
            out.push(pick);
            proof {
                let taken = ints(left@.take(a as int));
                let next = ints(left@.take(a + 1));
                assert(next =~= taken.push(pick as int));
                lemma_push_contains(taken, pick as int);
                assert(ints(out@) =~= ints(out0).push(pick as int));
                lemma_push_contains(ints(out0), pick as int);
                assert forall|k: int, x: int| 0 <= k < out@.len() && a + 1 <= x < left@.len() implies lex_less(
                    ns[#[trigger] out@[k] as int].id,
                    ns[#[trigger] left@[x] as int].id,
                ) by {
                    if k < out0.len() {
                        assert(out@[k] == out0[k]);
                    } else {
                        assert(lex_less(ns[left@[a as int] as int].id, ns[left@[x] as int].id));
                    }
                }
                assert forall|k: int, x: int| 0 <= k < out@.len() && b <= x < right@.len() implies lex_less(
                    ns[#[trigger] out@[k] as int].id,
                    ns[#[trigger] right@[x] as int].id,
                ) by {
                    if k < out0.len() {
                        assert(out@[k] == out0[k]);
                    } else {
                        assert(lex_less(ns[pick as int].id, ns[right@[b as int] as int].id));
                        if x > b {
                            assert(lex_less(ns[right@[b as int] as int].id, ns[right@[x] as int].id));
                            lex_less_transitive(
                                ns[pick as int].id,
                                ns[right@[b as int] as int].id,
                                ns[right@[x] as int].id,
                            );
                        }
                    }
                }
                assert forall|k: int, x: int| 0 <= k < x < out@.len() implies lex_less(
                    ns[#[trigger] out@[k] as int].id,
                    ns[#[trigger] out@[x] as int].id,
                ) by {
                    assert(out@[k] == out0[k]);
                    if x < out0.len() {
                        assert(out@[x] == out0[x]);
                    } else {
                        assert(lex_less(ns[out0[k] as int].id, ns[left@[a as int] as int].id));
                    }
                }
            }
            a = a + 1;
        } else {
            let pick: usize = right[b];
            out.push(pick);
            proof {
                let taken = ints(right@.take(b as int));
                let next = ints(right@.take(b + 1));
                assert(next =~= taken.push(pick as int));
                lemma_push_contains(taken, pick as int);
                assert(ints(out@) =~= ints(out0).push(pick as int));
                lemma_push_contains(ints(out0), pick as int);
                assert forall|k: int, x: int| 0 <= k < out@.len() && b + 1 <= x < right@.len() implies lex_less(
                    ns[#[trigger] out@[k] as int].id,
                    ns[#[trigger] right@[x] as int].id,
                ) by {
                    if k < out0.len() {
                        assert(out@[k] == out0[k]);
                    } else {
                        assert(lex_less(ns[right@[b as int] as int].id, ns[right@[x] as int].id));
                    }
                }
                assert forall|k: int, x: int| 0 <= k < out@.len() && a <= x < left@.len() implies lex_less(
                    ns[#[trigger] out@[k] as int].id,
                    ns[#[trigger] left@[x] as int].id,
                ) by {
                    if k < out0.len() {
                        assert(out@[k] == out0[k]);
                    } else {
                        // The two ids differ, so the one that is not less is greater.
                        let l = left@[a as int] as int;
                        let g = pick as int;
                        assert(l < mid <= g);
                        assert(ns[l].id != ns[g].id);
                        lex_less_total(ns[l].id, ns[g].id);
                        assert(lex_less(ns[g].id, ns[l].id));
                        if x > a {
                            assert(lex_less(ns[left@[a as int] as int].id, ns[left@[x] as int].id));
                            lex_less_transitive(ns[g].id, ns[l].id, ns[left@[x] as int].id);
                        }
                    }
                }
                assert forall|k: int, x: int| 0 <= k < x < out@.len() implies lex_less(
                    ns[#[trigger] out@[k] as int].id,
                    ns[#[trigger] out@[x] as int].id,
                ) by {
                    assert(out@[k] == out0[k]);
                    if x < out0.len() {
                        assert(out@[x] == out0[x]);
                    } else {
                        assert(lex_less(ns[out0[k] as int].id, ns[right@[b as int] as int].id));
                    }
                }
            }
            b = b + 1;
        }
    }
    proof {
        assert(left@.take(a as int) =~= left@);
        assert(right@.take(b as int) =~= right@);
    }
    out
}

proof fn lemma_push_contains(s: Seq<int>, x: int)
    ensures
        forall|i: int| #[trigger] s.push(x).contains(i) <==> s.contains(i) || i == x,
{
    assert forall|i: int| #[trigger] s.push(x).contains(i) <==> s.contains(i) || i == x by {
        if s.contains(i) {
            let p = choose|p: int| 0 <= p < s.len() && s[p] == i;
            assert(s.push(x)[p] == i);
        }
        assert(s.push(x)[s.len() as int] == x);
    }
}

fn sort_picks(nodes: &Vec<Node>, low: usize, high: usize) -> (r: Vec<usize>)
    requires
        distinct_ids(views(nodes@)),
        low <= high <= nodes@.len(),
    ensures
        picks_sorted(views(nodes@), r@),
        picks_range(r@, low as int, high as int),
    decreases high - low,
{
    if high - low <= 1 {
        let mut out: Vec<usize> = Vec::new();
        if low < high {
            out.push(low);
            assert(ints(out@)[0] == low as int);
        }
        return out;
    }
    let mid: usize = low + (high - low) / 2;
    let left = sort_picks(nodes, low, mid);
    let right = sort_picks(nodes, mid, high);
    merge_picks(
        nodes,
        &left,
        &right,
        Ghost(low as int),
        Ghost(mid as int),
        Ghost(high as int),
    )
}

// ---------------------------------------------------------------------------
// Index
// ---------------------------------------------------------------------------

/// The nodes of a plan by id: where each one stands in the plan, in the order
/// of the ids.
pub struct NodeIndex {
    positions: StrMap<usize>,
}

impl NodeIndex {
    /// The number of nodes.
    pub closed spec fn size(&self) -> nat {
        self.positions.pairs().len()
    }

    /// The ids of the nodes.
    pub closed spec fn ids(&self) -> Set<Seq<char>> {
        self.positions@.dom()
    }

    /// The node of rank `i` has the `i`-th id.
    pub closed spec fn ranks(&self, nodes: Seq<NodeV>) -> bool {
        &&& sorted_pairs(self.positions.pairs())
        &&& self.positions.pairs().len() == nodes.len()
        &&& forall|i: int|
            0 <= i < nodes.len() ==> (#[trigger] self.positions.pairs()[i]).0 == nodes[i].id
    }

    /// The index describes the list of nodes.
    pub closed spec fn indexes(&self, nodes: Seq<Node>) -> bool {
        &&& self.ranks(sorted_nodes(views(nodes)))
        &&& is_sorted_nodes(views(nodes), sorted_nodes(views(nodes)))
        &&& self.ids() == node_ids(views(nodes))
        &&& forall|i: int|
            0 <= i < self.positions.pairs().len() ==> {
                &&& (#[trigger] self.positions.pairs()[i]).1 < nodes.len()
                &&& nodes[self.positions.pairs()[i].1 as int]@ == sorted_nodes(views(nodes))[i]
            }
    }

    /// What an index says of the list of nodes that it describes.
    pub proof fn lemma_sorted(&self, nodes: Seq<Node>)
        requires
            self.indexes(nodes),
        ensures
            is_sorted_nodes(views(nodes), sorted_nodes(views(nodes))),
            self.size() == nodes.len(),
            self.size() == sorted_nodes(views(nodes)).len(),
            self.ids() == node_ids(views(nodes)),
            self.ranks(sorted_nodes(views(nodes))),
    {
    }

    /// The index ranks the nodes in the order of their ids.
    pub proof fn lemma_ranks(&self, nodes: Seq<Node>)
        requires
            self.indexes(nodes),
        ensures
            self.ranks(sorted_nodes(views(nodes))),
            sorted_nodes(views(nodes)).len() == nodes.len(),
    {
    }

    /// The number of nodes.
    pub fn len(&self) -> (r: usize)
        ensures
            r == self.size(),
    {
        self.positions.len()
    }

    /// Whether a node has this id.
    pub fn contains(&self, id: &str) -> (r: bool)
        ensures
            r == self.ids().contains(id@),
    {
        self.positions.contains_key(id)
    }

    /// The node of rank `i`.
    pub fn node_at<'a>(&self, nodes: &'a Vec<Node>, i: usize) -> (r: &'a Node)
        requires
            self.indexes(nodes@),
            i < self.size(),
        ensures
            r@ == sorted_nodes(views(nodes@))[i as int],
    {
        assert(self.positions.pairs()[i as int].1 < nodes@.len());
        &nodes[*self.positions.value_at(i)]
    }

    /// The ranks of the nodes with the given ids.
    pub fn ranks_of(&self, ids: &StrSet, Ghost(nodes): Ghost<Seq<NodeV>>) -> (r: Vec<usize>)
        requires
            self.ranks(nodes),
            ids@.subset_of(self.ids()),
        ensures
            r@.no_duplicates(),
            forall|x: int| 0 <= x < r@.len() ==> r@[x] < nodes.len(),
            ints(r@).to_set() == Set::new(
                |j: int| 0 <= j < nodes.len() && ids@.contains(nodes[j].id),
            ),
    {
        let ghost pairs = self.positions.pairs();
        let ghost items = ids.items();
        ids.prove_sorted();
        let mut out: Vec<usize> = Vec::new();
        let mut i: usize = 0;
        while i < ids.len()
            invariant
                i <= items.len(),
                items == ids.items(),
                items.no_duplicates(),
                pairs == self.positions.pairs(),
                self.ranks(nodes),
                ids@.subset_of(self.ids()),
                out@.len() == i,
                forall|x: int|
                    0 <= x < i ==> (#[trigger] out@[x]) < nodes.len() && nodes[out@[x] as int].id
                        == items[x],
            decreases items.len() - i,
        {
            let id = ids.item_at(i);
            assert(self.ids().contains(id@));
            let (found, at) = self.positions.search(id);
            assert(found);
            assert(pairs[at as int].0 == nodes[at as int].id);
            out.push(at);
            i = i + 1;
        }
        proof {
            assert forall|x: int, y: int|
                0 <= x < out@.len() && 0 <= y < out@.len() && x != y implies out@[x] != out@[y] by {
                assert(items[x] != items[y]);
                assert(nodes[out@[x] as int].id == items[x]);
                assert(nodes[out@[y] as int].id == items[y]);
            }
            let want = Set::new(|j: int| 0 <= j < nodes.len() && ids@.contains(nodes[j].id));
            assert forall|j: int| ints(out@).to_set().contains(j) <==> want.contains(j) by {
                if ints(out@).contains(j) {
                    let x = choose|x: int| 0 <= x < ints(out@).len() && ints(out@)[x] == j;
                    assert(nodes[out@[x] as int].id == items[x]);
                    assert(items.contains(items[x]));
                }
                if want.contains(j) {
                    let x = choose|x: int| 0 <= x < items.len() && items[x] == nodes[j].id;
                    assert(nodes[out@[x] as int].id == items[x]);
                    let k = out@[x] as int;
                    assert(pairs[k].0 == nodes[k].id);
                    assert(pairs[j].0 == nodes[j].id);
                    sorted_position(pairs, k);
                    sorted_position(pairs, j);
                    assert(k == j);
                    assert(ints(out@)[x] == j);
                }
            }
            assert(ints(out@).to_set() =~= want);
        }
        out
    }
}

fn check_ids(nodes: &Vec<Node>) -> (r: Result<(), GraphError>)
    ensures
        match r {
            Ok(_) => index_error(views(nodes@), 0) is None && distinct_ids(views(nodes@)),
            Err(e) => index_error(views(nodes@), 0) == Some(e@),
        },
{
    let ghost ns = views(nodes@);
    let mut seen: StringHashMap<usize> = StringHashMap::new();
    let mut i: usize = 0;
    while i < nodes.len()
        invariant
            i <= nodes@.len(),
            ns == views(nodes@),
            index_error(ns, 0) == index_error(ns, i as int),
            forall|id: Seq<char>|
                #[trigger] seen@.dom().contains(id) <==> exists|j: int|
                    0 <= j < i && (#[trigger] ns[j]).id == id,
            forall|a: int, b: int|
                0 <= a < b < i ==> (#[trigger] ns[a]).id != (#[trigger] ns[b]).id,
        decreases nodes.len() - i,
    {
        let node = &nodes[i];
        assert(ns[i as int] == node@);
        match validate_node_id(node.id.as_str()) {
            Ok(_) => {},
            Err(e) => {
                return Err(GraphError::InvalidNodeId(e.message()));
            },
        }
        if seen.contains_key(node.id.as_str()) {
            return Err(GraphError::DuplicateNode(node.id.clone()));
        }
        let ghost seen0 = seen@;
        let ghost here = node.id@;
        proof {
            assert(!seen0.dom().contains(here));
        }
        seen.insert(node.id.clone(), i);
        proof {
            assert forall|id: Seq<char>| #[trigger] seen@.dom().contains(id) <==> exists|j: int|
                0 <= j < i + 1 && (#[trigger] ns[j]).id == id by {
                if seen0.dom().contains(id) {
                    let j = choose|j: int| 0 <= j < i && (#[trigger] ns[j]).id == id;
                    assert(ns[j].id == id);
                }
                if exists|j: int| 0 <= j < i + 1 && (#[trigger] ns[j]).id == id {
                    let j = choose|j: int| 0 <= j < i + 1 && (#[trigger] ns[j]).id == id;
                    if j < i {
                        assert(seen0.dom().contains(id));
                    }
                }
                assert(ns[i as int].id == here);
            }
        }
        i = i + 1;
    }
    Ok(())
}

/// Checks the ids of the nodes and puts the nodes in the order of their ids.
pub fn node_order(nodes: &Vec<Node>) -> (r: Result<NodeIndex, GraphError>)
    ensures
        match r {
            Ok(index) => index_error(views(nodes@), 0) is None && index.indexes(nodes@),
            Err(e) => index_error(views(nodes@), 0) == Some(e@),
        },
{
    match check_ids(nodes) {
        Ok(_) => {},
        Err(e) => {
            return Err(e);
        },
    }
    let ghost ns = views(nodes@);
    let picks = sort_picks(nodes, 0, nodes.len());
    let mut positions: StrMap<usize> = StrMap::new();
    let mut i: usize = 0;
    while i < picks.len()
        invariant
            i <= picks@.len(),
            ns == views(nodes@),
            picks_sorted(ns, picks@),
            picks_range(picks@, 0, nodes@.len() as int),
            positions.pairs().len() == i,
            forall|j: int|
                0 <= j < i ==> (#[trigger] positions.pairs()[j]).0 == ns[picks@[j] as int].id
                    && positions.pairs()[j].1 == picks@[j],
        decreases picks.len() - i,
    {
        let pick: usize = picks[i];
        proof {
            assert(ints(picks@)[i as int] == pick as int);
            assert(ints(picks@).contains(pick as int));
        }
        let key = nodes[pick].id.clone();
        assert forall|j: int| 0 <= j < positions.pairs().len() implies lex_less(
            #[trigger] positions.pairs()[j].0,
            key@,
        ) by {
            assert(lex_less(ns[picks@[j] as int].id, ns[picks@[i as int] as int].id));
        }
        positions.push(key, pick);
        i = i + 1;
    }
    positions.prove_sorted();
    let index = NodeIndex { positions };
    proof {
        let sorted = Seq::new(ns.len(), |k: int| ns[picks@[k] as int]);
        assert forall|x: NodeV| #[trigger] sorted.contains(x) <==> ns.contains(x) by {
            if sorted.contains(x) {
                let k = choose|k: int| 0 <= k < sorted.len() && sorted[k] == x;
                assert(ints(picks@)[k] == picks@[k] as int);
                assert(ints(picks@).contains(picks@[k] as int));
                assert(ns[picks@[k] as int] == x);
            }
            if ns.contains(x) {
                let k = choose|k: int| 0 <= k < ns.len() && ns[k] == x;
                assert(ints(picks@).contains(k));
                let p = choose|p: int| 0 <= p < ints(picks@).len() && ints(picks@)[p] == k;
                assert(sorted[p] == x);
            }
        }
        assert(is_sorted_nodes(ns, sorted));
        sorted_nodes_unique(ns, sorted);
        assert forall|j: int| 0 <= j < positions.pairs().len() implies {
            &&& (#[trigger] positions.pairs()[j]).1 < nodes@.len()
            &&& nodes@[positions.pairs()[j].1 as int]@ == sorted[j]
        } by {
            assert(ints(picks@)[j] == picks@[j] as int);
            assert(ints(picks@).contains(picks@[j] as int));
        }
        assert(index.ids() =~= node_ids(ns)) by {
            assert forall|id: Seq<char>| index.ids().contains(id) <==> node_ids(ns).contains(id) by {
                if index.ids().contains(id) {
                    let p = key_position(positions.pairs(), id);
                    assert(positions.pairs()[p].0 == id);
                    assert(ints(picks@)[p] == picks@[p] as int);
                    assert(ints(picks@).contains(picks@[p] as int));
                    assert(ns[picks@[p] as int].id == id);
                }
                if node_ids(ns).contains(id) {
                    let k = choose|k: int| 0 <= k < ns.len() && (#[trigger] ns[k]).id == id;
                    assert(ints(picks@).contains(k));
                    let p = choose|p: int| 0 <= p < ints(picks@).len() && ints(picks@)[p] == k;
                    assert(positions.pairs()[p].0 == id);
                    assert(has_key(positions.pairs(), id));
                }
            }
        }
    }
    Ok(index)
}

} // verus!
