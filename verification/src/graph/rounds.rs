//! The rounds that emit layers: which nodes are ready, and what a finished
//! node makes ready.

use vstd::prelude::*;

use crate::graph::layers::{LayerModel, LayerState};
use crate::graph::resolved::{ResolvedEffects, ResolvedV};
use crate::ordered::StrMap;

verus! {

use crate::graph::layers::{admitted, done_before, is_layer, is_layering, joins};
use crate::graph::resolved::{coherent, compatible};

/// A list of ranks as mathematical integers.
pub open spec fn ints(s: Seq<usize>) -> Seq<int> {
    Seq::new(s.len(), |k: int| s[k] as int)
}

/// Lists of ranks as mathematical integers.
pub open spec fn int_lists(s: Seq<Vec<usize>>) -> Seq<Seq<int>> {
    Seq::new(s.len(), |k: int| ints(s[k]@))
}

/// The dependency lists as sets.
pub open spec fn dep_sets(deps: Seq<Vec<usize>>) -> Seq<Set<int>> {
    Seq::new(deps.len(), |i: int| ints(deps[i]@).to_set())
}

/// The effects stored in a map, by position.
pub open spec fn effect_list(effects: StrMap<ResolvedEffects>) -> Seq<ResolvedV> {
    Seq::new(effects.pairs().len(), |i: int| effects.pairs()[i].1@)
}

/// Ranks that stand in increasing order.
pub open spec fn increasing(s: Seq<int>) -> bool {
    forall|a: int, b: int| 0 <= a < b < s.len() ==> #[trigger] s[a] < #[trigger] s[b]
}

/// Every list names nodes, each at most once.
pub open spec fn deps_wf(deps: Seq<Vec<usize>>) -> bool {
    forall|i: int|
        0 <= i < deps.len() ==> {
            &&& (#[trigger] deps[i])@.no_duplicates()
            &&& forall|k: int| 0 <= k < deps[i]@.len() ==> deps[i]@[k] < deps.len()
        }
}

/// How many of the listed nodes are not done.
pub open spec fn open_count(d: Seq<usize>, done: Set<int>) -> nat
    decreases d.len(),
{
    if d.len() == 0 {
        0
    } else {
        open_count(d.drop_last(), done) + if done.contains(d.last() as int) {
            0nat
        } else {
            1nat
        }
    }
}

proof fn lemma_open_zero(d: Seq<usize>, done: Set<int>)
    ensures
        open_count(d, done) <= d.len(),
        open_count(d, done) == 0 <==> ints(d).to_set().subset_of(done),
    decreases d.len(),
{
    if d.len() > 0 {
        let front = d.drop_last();
        lemma_open_zero(front, done);
        let a = ints(front).to_set();
        let b = ints(d).to_set();
        assert forall|i: int| b.contains(i) <==> a.contains(i) || i == d.last() as int by {
            if ints(d).contains(i) {
                let p = choose|p: int| 0 <= p < ints(d).len() && ints(d)[p] == i;
                if p < front.len() {
                    assert(ints(front)[p] == i);
                }
            }
            if ints(front).contains(i) {
                let p = choose|p: int| 0 <= p < ints(front).len() && ints(front)[p] == i;
                assert(ints(d)[p] == i);
            }
            assert(ints(d)[d.len() - 1] == d.last() as int);
        }
        if b.subset_of(done) {
            assert(a.subset_of(done));
            assert(b.contains(d.last() as int));
        }
        if a.subset_of(done) && done.contains(d.last() as int) {
            assert(b.subset_of(done));
        }
    } else {
        assert(ints(d).to_set() =~= Set::empty());
    }
}

proof fn lemma_open_insert(d: Seq<usize>, done: Set<int>, v: usize)
    requires
        d.no_duplicates(),
        !done.contains(v as int),
    ensures
        d.contains(v) ==> open_count(d, done) == open_count(d, done.insert(v as int)) + 1,
        !d.contains(v) ==> open_count(d, done) == open_count(d, done.insert(v as int)),
    decreases d.len(),
{
    if d.len() > 0 {
        let front = d.drop_last();
        assert(front.no_duplicates());
        lemma_open_insert(front, done, v);
        if d.last() == v {
            if front.contains(v) {
                let p = choose|p: int| 0 <= p < front.len() && front[p] == v;
                assert(d[p] == d[d.len() - 1]);
            }
            assert(d[d.len() - 1] == v);
        } else {
            if d.contains(v) {
                let p = choose|p: int| 0 <= p < d.len() && d[p] == v;
                assert(front[p] == v);
            }
            if front.contains(v) {
                let p = choose|p: int| 0 <= p < front.len() && front[p] == v;
                assert(d[p] == v);
            }
        }
    }
}

/// Adds `x` to an increasing list.
fn insert_sorted(v: &mut Vec<usize>, x: usize)
    requires
        increasing(ints(old(v)@)),
        !ints(old(v)@).contains(x as int),
    ensures
        increasing(ints(final(v)@)),
        forall|i: int|
            #[trigger] ints(final(v)@).contains(i) <==> ints(old(v)@).contains(i) || i == x as int,
{
    let ghost before = ints(v@);
    let mut low: usize = 0;
    let mut high: usize = v.len();
    while low < high
        invariant
            before == ints(v@),
            increasing(before),
            !before.contains(x as int),
            low <= high <= v@.len(),
            forall|j: int| 0 <= j < low ==> #[trigger] before[j] < x,
            forall|j: int| high <= j < before.len() ==> x < #[trigger] before[j],
        decreases high - low,
    {
        let mid: usize = low + (high - low) / 2;
        assert(before[mid as int] == v@[mid as int] as int);
        assert(before.contains(before[mid as int]));
        if v[mid] < x {
            low = mid + 1;
        } else {
            high = mid;
        }
    }
    v.insert(low, x);
    proof {
        let after = ints(v@);
        assert(after =~= before.insert(low as int, x as int));
        assert forall|a: int, b: int| 0 <= a < b < after.len() implies #[trigger] after[a]
            < #[trigger] after[b] by {
            if a < low {
                assert(after[a] == before[a]);
            } else if a > low {
                assert(after[a] == before[a - 1]);
            }
            if b < low {
                assert(after[b] == before[b]);
            } else if b > low {
                assert(after[b] == before[b - 1]);
            }
        }
        assert forall|i: int| #[trigger] after.contains(i) <==> before.contains(i) || i
            == x as int by {
            if before.contains(i) {
                let p = choose|p: int| 0 <= p < before.len() && before[p] == i;
                if p < low {
                    assert(after[p] == i);
                } else {
                    assert(after[p + 1] == i);
                }
            }
            if after.contains(i) && i != x as int {
                let p = choose|p: int| 0 <= p < after.len() && after[p] == i;
                if p < low {
                    assert(before[p] == i);
                } else {
                    assert(before[p - 1] == i);
                }
            }
            assert(after[low as int] == x as int);
        }
    }
}

/// `lists[j]` holds, in increasing order, the nodes below `upto` that depend
/// on `j`.
pub open spec fn reversed(deps: Seq<Vec<usize>>, lists: Seq<Vec<usize>>, upto: int) -> bool {
    &&& lists.len() == deps.len()
    &&& forall|j: int| 0 <= j < lists.len() ==> increasing(ints((#[trigger] lists[j])@))
    &&& forall|j: int, i: int|
        0 <= j < lists.len() ==> (#[trigger] ints(lists[j]@).contains(i) <==> 0 <= i < upto
            && ints(deps[i]@).contains(j))
}

/// For every node, the nodes that depend on it.
pub fn reverse_dependencies(deps: &Vec<Vec<usize>>) -> (r: Vec<Vec<usize>>)
    requires
        deps_wf(deps@),
    ensures
        reversed(deps@, r@, deps@.len() as int),
{
    let n: usize = deps.len();
    let mut lists: Vec<Vec<usize>> = Vec::new();
    let mut i: usize = 0;
    while i < n
        invariant
            i <= n,
            lists@.len() == i,
            forall|j: int| 0 <= j < i ==> (#[trigger] lists@[j])@.len() == 0,
        decreases n - i,
    {
        lists.push(Vec::new());
        i = i + 1;
    }
    let mut i: usize = 0;
    assert(reversed(deps@, lists@, 0));
    while i < n
        invariant
            i <= n,
            n == deps@.len(),
            deps_wf(deps@),
            reversed(deps@, lists@, i as int),
        decreases n - i,
    {
        let mut y: usize = 0;
        let ghost here = deps@[i as int]@;
        while y < deps[i].len()
            invariant
                i < n,
                n == deps@.len(),
                y <= here.len(),
                here == deps@[i as int]@,
                deps_wf(deps@),
                lists@.len() == n,
                forall|j: int| 0 <= j < n ==> increasing(ints((#[trigger] lists@[j])@)),
                forall|j: int, k: int|
                    0 <= j < n ==> (#[trigger] ints(lists@[j]@).contains(k) <==> (0 <= k < i
                        && ints(deps@[k]@).contains(j)) || (k == i && ints(here.take(y as int)).contains(
                        j,
                    ))),
            decreases here.len() - y,
        {
            let dep: usize = deps[i][y];
            let ghost before = lists@;
            assert(deps@[i as int]@[y as int] < n);
            proof {
                assert(!ints(here.take(y as int)).contains(dep as int)) by {
                    if ints(here.take(y as int)).contains(dep as int) {
                        let p = choose|p: int|
                            0 <= p < ints(here.take(y as int)).len() && ints(here.take(y as int))[p]
                                == dep as int;
                        assert(here[p] == here[y as int]);
                    }
                }
            }
            lists[dep].push(i);
            proof {
                let old_list = ints(before[dep as int]@);
                let new_list = ints(lists@[dep as int]@);
                assert(new_list =~= old_list.push(i as int));
                assert forall|a: int, b: int| 0 <= a < b < new_list.len() implies #[trigger] new_list[a]
                    < #[trigger] new_list[b] by {
                    assert(new_list[a] == old_list[a]);
                    assert(old_list.contains(old_list[a]));
                    if b < old_list.len() {
                        assert(new_list[b] == old_list[b]);
                    }
                }
                assert forall|j: int| 0 <= j < n implies increasing(ints((#[trigger] lists@[j])@)) by {
                    if j != dep as int {
                        assert(lists@[j] == before[j]);
                    }
                }
                let seen = ints(here.take(y as int));
                let next = ints(here.take(y + 1));
                assert(next =~= seen.push(dep as int));
                assert forall|j: int| #[trigger] next.contains(j) <==> seen.contains(j) || j
                    == dep as int by {
                    if seen.contains(j) {
                        let p = choose|p: int| 0 <= p < seen.len() && seen[p] == j;
                        assert(next[p] == j);
                    }
                    assert(next[y as int] == dep as int);
                }
                assert forall|j: int, k: int|
                    0 <= j < n implies (#[trigger] ints(lists@[j]@).contains(k) <==> (0 <= k < i
                    && ints(deps@[k]@).contains(j)) || (k == i && next.contains(j))) by {
                    assert(ints(before[j]@).contains(k) <==> (0 <= k < i && ints(
                        deps@[k]@,
                    ).contains(j)) || (k == i && seen.contains(j)));
                    if j == dep as int {
                        if old_list.contains(k) {
                            let p = choose|p: int| 0 <= p < old_list.len() && old_list[p] == k;
                            assert(new_list[p] == k);
                        }
                        assert(new_list[old_list.len() as int] == i as int);
                    } else {
                        assert(lists@[j] == before[j]);
                    }
                }
            }
            y = y + 1;
        }
        proof {
            assert(here.take(y as int) =~= here);
            assert forall|j: int, k: int|
                0 <= j < lists@.len() implies (#[trigger] ints(lists@[j]@).contains(k) <==> 0 <= k < i
                + 1 && ints(deps@[k]@).contains(j)) by {
                assert(ints(here.take(y as int)) == ints(deps@[i as int]@));
            }
        }
        i = i + 1;
    }
    lists
}

/// The nodes without dependencies, in increasing order.
pub fn initial_ready(deps: &Vec<Vec<usize>>) -> (r: Vec<usize>)
    ensures
        increasing(ints(r@)),
        forall|i: int|
            #[trigger] ints(r@).contains(i) <==> 0 <= i < deps@.len() && deps@[i]@.len() == 0,
{
    let mut out: Vec<usize> = Vec::new();
    let mut i: usize = 0;
    while i < deps.len()
        invariant
            i <= deps@.len(),
            increasing(ints(out@)),
            forall|k: int|
                #[trigger] ints(out@).contains(k) <==> 0 <= k < i && deps@[k]@.len() == 0,
        decreases deps.len() - i,
    {
        if deps[i].len() == 0 {
            let ghost before = ints(out@);
            out.push(i);
            proof {
                let after = ints(out@);
                assert(after =~= before.push(i as int));
                assert forall|a: int, b: int| 0 <= a < b < after.len() implies #[trigger] after[a]
                    < #[trigger] after[b] by {
                    assert(after[a] == before[a]);
                    assert(before.contains(before[a]));
                    if b < before.len() {
                        assert(after[b] == before[b]);
                    }
                }
                assert forall|k: int| #[trigger] after.contains(k) <==> 0 <= k < i + 1
                    && deps@[k]@.len() == 0 by {
                    if before.contains(k) {
                        let p = choose|p: int| 0 <= p < before.len() && before[p] == k;
                        assert(after[p] == k);
                    }
                    if after.contains(k) && k != i as int {
                        let p = choose|p: int| 0 <= p < after.len() && after[p] == k;
                        assert(before[p] == k);
                    }
                    assert(after[before.len() as int] == i as int);
                }
            }
        }
        i = i + 1;
    }
    out
}

/// The flags of the nodes that are done, as a set.
pub open spec fn flag_set(flags: Seq<bool>) -> Set<int> {
    Set::new(|i: int| 0 <= i < flags.len() && flags[i])
}

/// The state between two finished nodes: how many dependencies are open, and
/// which nodes wait to be taken.
spec fn counts_hold(deps: Seq<Vec<usize>>, pending: Seq<usize>, done: Set<int>) -> bool {
    &&& pending.len() == deps.len()
    &&& forall|i: int|
        0 <= i < deps.len() ==> #[trigger] pending[i] == open_count(deps[i]@, done)
}

/// Every dependency of a node that is done is done.
spec fn closed_below(deps: Seq<Vec<usize>>, done: Set<int>) -> bool {
    forall|i: int|
        0 <= i < deps.len() && done.contains(i) ==> (#[trigger] dep_sets(deps)[i]).subset_of(done)
}

/// Marks `node` as done for the nodes in `children`, which depend on it, and
/// adds those that become ready.
fn release_children(
    deps: &Vec<Vec<usize>>,
    node: usize,
    children: &Vec<usize>,
    pending: &mut Vec<usize>,
    ready: &mut Vec<usize>,
    Ghost(done): Ghost<Set<int>>,
)
    requires
        deps_wf(deps@),
        node < deps@.len(),
        !done.contains(node as int),
        closed_below(deps@, done),
        dep_sets(deps@)[node as int].subset_of(done),
        counts_hold(deps@, old(pending)@, done),
        increasing(ints(children@)),
        forall|i: int|
            #[trigger] ints(children@).contains(i) <==> 0 <= i < deps@.len() && ints(
                deps@[i]@,
            ).contains(node as int),
        increasing(ints(old(ready)@)),
        forall|i: int|
            #[trigger] ints(old(ready)@).contains(i) ==> 0 <= i < deps@.len() && dep_sets(
                deps@,
            )[i].subset_of(done) && i != node as int,
    ensures
        counts_hold(deps@, final(pending)@, done.insert(node as int)),
        closed_below(deps@, done.insert(node as int)),
        increasing(ints(final(ready)@)),
        forall|i: int|
            #[trigger] ints(final(ready)@).contains(i) <==> ints(old(ready)@).contains(i) || (0 <= i
                < deps@.len() && !dep_sets(deps@)[i].subset_of(done) && dep_sets(
                deps@,
            )[i].subset_of(done.insert(node as int))),
{
    let ghost after = done.insert(node as int);
    let ghost pending0 = pending@;
    let ghost ready0 = ints(ready@);
    let ghost kids = ints(children@);
    proof {
        assert forall|i: int| 0 <= i < deps@.len() implies {
            &&& kids.contains(i) ==> open_count(deps@[i]@, done) == #[trigger] open_count(
                deps@[i]@,
                after,
            ) + 1
            &&& !kids.contains(i) ==> open_count(deps@[i]@, done) == open_count(deps@[i]@, after)
        } by {
            lemma_open_insert(deps@[i]@, done, node);
            assert(deps@[i]@.contains(node) <==> ints(deps@[i]@).contains(node as int)) by {
                if deps@[i]@.contains(node) {
                    let p = choose|p: int| 0 <= p < deps@[i]@.len() && deps@[i]@[p] == node;
                    assert(ints(deps@[i]@)[p] == node as int);
                }
                if ints(deps@[i]@).contains(node as int) {
                    let p = choose|p: int|
                        0 <= p < ints(deps@[i]@).len() && ints(deps@[i]@)[p] == node as int;
                    assert(deps@[i]@[p] == node);
                }
            }
        }
        assert(ints(children@.take(0)) =~= Seq::empty());
    }
    let mut y: usize = 0;
    while y < children.len()
        invariant
            y <= children@.len(),
            kids == ints(children@),
            after == done.insert(node as int),
            deps_wf(deps@),
            node < deps@.len(),
            increasing(kids),
            pending@.len() == deps@.len(),
            pending0.len() == deps@.len(),
            counts_hold(deps@, pending0, done),
            forall|i: int|
                #[trigger] kids.contains(i) <==> 0 <= i < deps@.len() && ints(deps@[i]@).contains(
                    node as int,
                ),
            !done.contains(node as int),
            forall|i: int|
                0 <= i < deps@.len() ==> {
                    &&& kids.contains(i) ==> open_count(deps@[i]@, done) == #[trigger] open_count(
                        deps@[i]@,
                        after,
                    ) + 1
                    &&& !kids.contains(i) ==> open_count(deps@[i]@, done) == open_count(
                        deps@[i]@,
                        after,
                    )
                },
            forall|i: int|
                0 <= i < deps@.len() ==> #[trigger] pending@[i] == if ints(
                    children@.take(y as int),
                ).contains(i) {
                    open_count(deps@[i]@, after)
                } else {
                    open_count(deps@[i]@, done)
                },
            increasing(ints(ready@)),
            forall|i: int|
                #[trigger] ready0.contains(i) ==> 0 <= i < deps@.len() && dep_sets(
                    deps@,
                )[i].subset_of(done) && i != node as int,
            forall|i: int|
                #[trigger] ints(ready@).contains(i) <==> ready0.contains(i) || (ints(
                    children@.take(y as int),
                ).contains(i) && dep_sets(deps@)[i].subset_of(after)),
        decreases children.len() - y,
    {
        let child: usize = children[y];
        let ghost seen = ints(children@.take(y as int));
        let ghost next = ints(children@.take(y + 1));
        let ghost pending1 = pending@;
        let ghost ready1 = ints(ready@);
        proof {
            assert(kids[y as int] == child as int);
            assert(kids.contains(child as int));
            assert(next =~= seen.push(child as int));
            assert(!seen.contains(child as int)) by {
                if seen.contains(child as int) {
                    let p = choose|p: int| 0 <= p < seen.len() && seen[p] == child as int;
                    assert(kids[p] < kids[y as int]);
                }
            }
            assert forall|i: int| #[trigger] next.contains(i) <==> seen.contains(i) || i
                == child as int by {
                if seen.contains(i) {
                    let p = choose|p: int| 0 <= p < seen.len() && seen[p] == i;
                    assert(next[p] == i);
                }
                assert(next[y as int] == child as int);
            }
            let d = deps@[child as int]@;
            assert(pending@[child as int] == open_count(d, done));
            assert(open_count(d, done) == open_count(d, after) + 1);
        }
        let count: usize = pending[child] - 1;
        pending[child] = count;
        proof {
            lemma_open_zero(deps@[child as int]@, after);
            assert(dep_sets(deps@)[child as int] == ints(deps@[child as int]@).to_set());
            assert(!ready1.contains(child as int)) by {
                if ready0.contains(child as int) {
                    assert(dep_sets(deps@)[child as int].subset_of(done));
                    assert(ints(deps@[child as int]@).contains(node as int));
                    assert(dep_sets(deps@)[child as int].contains(node as int));
                    assert(done.contains(node as int));
                }
            }
        }
        if count == 0 {
            insert_sorted(ready, child);
        }
        proof {
            assert forall|i: int| 0 <= i < deps@.len() implies #[trigger] pending@[i] == if next.contains(i) {
                open_count(deps@[i]@, after)
            } else {
                open_count(deps@[i]@, done)
            } by {
                if i != child as int {
                    assert(pending@[i] == pending1[i]);
                }
            }
            assert forall|i: int| #[trigger] ints(ready@).contains(i) <==> ready0.contains(i) || (
            next.contains(i) && dep_sets(deps@)[i].subset_of(after)) by {
                assert(ready1.contains(i) <==> ready0.contains(i) || (seen.contains(i) && dep_sets(
                    deps@,
                )[i].subset_of(after)));
            }
        }
        y = y + 1;
    }
    proof {
        assert(children@.take(y as int) =~= children@);
        assert forall|i: int| #[trigger] ints(ready@).contains(i) <==> ready0.contains(i) || (0 <= i
            < deps@.len() && !dep_sets(deps@)[i].subset_of(done) && dep_sets(
            deps@,
        )[i].subset_of(after)) by {
            if 0 <= i < deps@.len() {
                assert(dep_sets(deps@)[i] == ints(deps@[i]@).to_set());
                if kids.contains(i) {
                    assert(dep_sets(deps@)[i].contains(node as int));
                } else {
                    if dep_sets(deps@)[i].subset_of(after) {
                        assert(dep_sets(deps@)[i].subset_of(done)) by {
                            assert forall|j: int| dep_sets(deps@)[i].contains(j) implies done.contains(
                                j,
                            ) by {
                                assert(after.contains(j));
                                if j == node as int {
                                    assert(ints(deps@[i]@).contains(node as int));
                                }
                            }
                        }
                    }
                }
            }
        }
        assert forall|i: int| 0 <= i < deps@.len() && after.contains(i) implies (
        #[trigger] dep_sets(deps@)[i]).subset_of(after) by {
            if i != node as int {
                assert(done.contains(i));
            }
        }
    }
}

/// The graph that dependency lists and effects describe.
pub open spec fn model_of(deps: Seq<Vec<usize>>, effects: StrMap<ResolvedEffects>) -> LayerModel {
    LayerModel { deps: dep_sets(deps), effects: effect_list(effects) }
}

/// Takes from `ready` the nodes of the next layer; gives the layer and the
/// nodes that stay.
fn take_layer(ready: &Vec<usize>, effects: &StrMap<ResolvedEffects>) -> (r: (Vec<usize>, Vec<usize>))
    requires
        increasing(ints(ready@)),
        ready@.len() < usize::MAX,
        forall|i: int| #[trigger] ints(ready@).contains(i) ==> 0 <= i < effects.pairs().len(),
        forall|i: int| 0 <= i < effects.pairs().len() ==> coherent(#[trigger] effect_list(*effects)[i]),
    ensures
        ints(r.0@) == admitted(effect_list(*effects), ints(ready@)),
        increasing(ints(r.1@)),
        forall|i: int|
            #[trigger] ints(r.1@).contains(i) <==> ints(ready@).contains(i) && !ints(
                r.0@,
            ).contains(i),
        forall|i: int| #[trigger] ints(r.0@).contains(i) ==> ints(ready@).contains(i),
        ready@.len() > 0 ==> r.0@.len() > 0,
        increasing(ints(r.0@)),
{
    let ghost all = ints(ready@);
    let ghost effs = effect_list(*effects);
    let mut layer: Vec<usize> = Vec::new();
    let mut rest: Vec<usize> = Vec::new();
    let mut state = LayerState::new();
    let mut i: usize = 0;
    assert(all.take(0) =~= Seq::empty());
    assert(ints(layer@) =~= Seq::empty());
    while i < ready.len()
        invariant
            i <= ready@.len(),
            ready@.len() < usize::MAX,
            all == ints(ready@),
            effs == effect_list(*effects),
            increasing(all),
            forall|k: int| #[trigger] all.contains(k) ==> 0 <= k < effects.pairs().len(),
            forall|k: int| 0 <= k < effects.pairs().len() ==> coherent(#[trigger] effs[k]),
            ints(layer@) == admitted(effs, all.take(i as int)),
            layer@.len() <= i,
            state.wf(),
            state@.len() == layer@.len(),
            forall|k: int| 0 <= k < layer@.len() ==> (#[trigger] state@[k]) == effs[layer@[k] as int],
            increasing(ints(rest@)),
            increasing(ints(layer@)),
            i > 0 ==> layer@.len() > 0,
            forall|k: int|
                #[trigger] ints(rest@).contains(k) <==> all.take(i as int).contains(k) && !ints(
                    layer@,
                ).contains(k),
            forall|k: int| #[trigger] ints(layer@).contains(k) ==> all.take(i as int).contains(k),
        decreases ready.len() - i,
    {
        let candidate: usize = ready[i];
        let ghost c = candidate as int;
        let ghost prefix = all.take(i as int);
        let ghost next = all.take(i + 1);
        let ghost layer0 = ints(layer@);
        let ghost rest0 = ints(rest@);
        proof {
            assert(all[i as int] == c);
            assert(all.contains(c));
            assert(next.drop_last() =~= prefix);
            assert(next.last() == c);
            assert(next =~= prefix.push(c));
            assert forall|k: int| #[trigger] next.contains(k) <==> prefix.contains(k) || k == c by {
                if prefix.contains(k) {
                    let p = choose|p: int| 0 <= p < prefix.len() && prefix[p] == k;
                    assert(next[p] == k);
                }
                assert(next[i as int] == c);
            }
            assert forall|k: int| #[trigger] prefix.contains(k) implies k < c by {
                let p = choose|p: int| 0 <= p < prefix.len() && prefix[p] == k;
                assert(all[p] < all[i as int]);
            }
            assert(effs[c] == effects.pairs()[c].1@);
        }
        let found = effects.value_at(candidate);
        let joins_all = state.admits(found);
        proof {
            assert(joins_all == joins(effs, layer0, c)) by {
                if joins_all {
                    assert forall|k: int| 0 <= k < layer0.len() implies compatible(
                        effs[#[trigger] layer0[k]],
                        effs[c],
                    ) by {
                        assert(compatible(state@[k], effs[c]));
                    }
                } else {
                    let k = choose|k: int|
                        0 <= k < state@.len() && !compatible(#[trigger] state@[k], effs[c]);
                    assert(layer0[k] == layer@[k] as int);
                }
            }
        }
        if joins_all {
            state.absorb(found);
            layer.push(candidate);
            proof {
                let layer1 = ints(layer@);
                assert(layer1 =~= layer0.push(c));
                assert forall|k: int| #[trigger] layer1.contains(k) <==> layer0.contains(k) || k
                    == c by {
                    if layer0.contains(k) {
                        let p = choose|p: int| 0 <= p < layer0.len() && layer0[p] == k;
                        assert(layer1[p] == k);
                    }
                    assert(layer1[layer0.len() as int] == c);
                }
                assert forall|a: int, b: int| 0 <= a < b < layer1.len() implies #[trigger] layer1[a]
                    < #[trigger] layer1[b] by {
                    assert(layer1[a] == layer0[a]);
                    assert(layer0.contains(layer0[a]));
                    if b < layer0.len() {
                        assert(layer1[b] == layer0[b]);
                    }
                }
                assert forall|k: int| #[trigger] ints(rest@).contains(k) <==> next.contains(k)
                    && !layer1.contains(k) by {
                    assert(rest0.contains(k) <==> prefix.contains(k) && !layer0.contains(k));
                }
            }
        } else {
            rest.push(candidate);
            proof {
                if i == 0 {
                    assert(layer0.len() == 0);
                    assert(joins(effs, layer0, c));
                }
                let rest1 = ints(rest@);
                assert(rest1 =~= rest0.push(c));
                assert forall|k: int| #[trigger] rest1.contains(k) <==> rest0.contains(k) || k
                    == c by {
                    if rest0.contains(k) {
                        let p = choose|p: int| 0 <= p < rest0.len() && rest0[p] == k;
                        assert(rest1[p] == k);
                    }
                    assert(rest1[rest0.len() as int] == c);
                }
                assert forall|a: int, b: int| 0 <= a < b < rest1.len() implies #[trigger] rest1[a]
                    < #[trigger] rest1[b] by {
                    assert(rest1[a] == rest0[a]);
                    assert(rest0.contains(rest0[a]));
                    if b < rest0.len() {
                        assert(rest1[b] == rest0[b]);
                    }
                }
                assert forall|k: int| #[trigger] rest1.contains(k) <==> next.contains(k)
                    && !layer0.contains(k) by {
                    assert(rest0.contains(k) <==> prefix.contains(k) && !layer0.contains(k));
                    if k == c {
                        assert(!layer0.contains(c)) by {
                            if layer0.contains(c) {
                                assert(prefix.contains(c));
                            }
                        }
                    }
                }
            }
        }
        i = i + 1;
    }
    assert(all.take(i as int) =~= all);
    (layer, rest)
}

/// The first node without the flag, when there is one.
pub fn first_unflagged(flags: &Vec<bool>) -> (r: Option<usize>)
    ensures
        match r {
            Some(i) => i < flags@.len() && !flags@[i as int] && forall|j: int|
                0 <= j < i ==> flags@[j],
            None => forall|j: int| 0 <= j < flags@.len() ==> flags@[j],
        },
{
    let mut i: usize = 0;
    while i < flags.len()
        invariant
            i <= flags@.len(),
            forall|j: int| 0 <= j < i ==> flags@[j],
        decreases flags.len() - i,
    {
        if !flags[i] {
            return Some(i);
        }
        i = i + 1;
    }
    None
}

/// Builds parallel layers round by round: each round takes the ready nodes
/// that may run together and makes their dependents ready. Nodes on a cycle,
/// or behind one, are never emitted.
pub fn safe_layers(deps: &Vec<Vec<usize>>, effects: &StrMap<ResolvedEffects>) -> (r: (
    Vec<Vec<usize>>,
    Vec<bool>,
))
    requires
        deps_wf(deps@),
        deps@.len() == effects.pairs().len(),
        deps@.len() < usize::MAX,
        forall|i: int| 0 <= i < effects.pairs().len() ==> coherent(#[trigger] effect_list(*effects)[i]),
    ensures
        is_layering(model_of(deps@, *effects), int_lists(r.0@)),
        r.1@.len() == deps@.len(),
        flag_set(r.1@) == done_before(int_lists(r.0@), r.0@.len() as int),
{
    let ghost m = model_of(deps@, *effects);
    let n: usize = deps.len();
    let dependents = reverse_dependencies(deps);
    let mut ready = initial_ready(deps);
    let mut pending: Vec<usize> = Vec::new();
    let mut done: Vec<bool> = Vec::new();
    let mut i: usize = 0;
    while i < n
        invariant
            i <= n,
            n == deps@.len(),
            pending@.len() == i,
            done@.len() == i,
            forall|j: int| 0 <= j < i ==> #[trigger] pending@[j] == deps@[j]@.len(),
            forall|j: int| 0 <= j < i ==> !#[trigger] done@[j],
        decreases n - i,
    {
        pending.push(deps[i].len());
        done.push(false);
        i = i + 1;
    }
    let mut layers: Vec<Vec<usize>> = Vec::new();
    proof {
        let none = Set::<int>::empty();
        assert(flag_set(done@) =~= none);
        assert(done_before(int_lists(layers@), 0) =~= none);
        assert forall|j: int| 0 <= j < deps@.len() implies #[trigger] pending@[j] == open_count(
            deps@[j]@,
            none,
        ) by {
            lemma_open_all(deps@[j]@);
        }
        assert forall|j: int| #[trigger] ints(ready@).contains(j) <==> m.is_ready(none, j) by {
            if 0 <= j < deps@.len() {
                lemma_open_zero(deps@[j]@, none);
                lemma_open_all(deps@[j]@);
                assert(dep_sets(deps@)[j] == ints(deps@[j]@).to_set());
            }
        }
    }
    while ready.len() > 0
        invariant
            n == deps@.len(),
            n < usize::MAX,
            m == model_of(deps@, *effects),
            deps_wf(deps@),
            deps@.len() == effects.pairs().len(),
            forall|i: int|
                0 <= i < effects.pairs().len() ==> coherent(#[trigger] effect_list(*effects)[i]),
            reversed(deps@, dependents@, n as int),
            done@.len() == n,
            flag_set(done@) == done_before(int_lists(layers@), layers@.len() as int),
            counts_hold(deps@, pending@, flag_set(done@)),
            closed_below(deps@, flag_set(done@)),
            increasing(ints(ready@)),
            forall|i: int| #[trigger] ints(ready@).contains(i) <==> m.is_ready(flag_set(done@), i),
            forall|k: int|
                0 <= k < layers@.len() ==> #[trigger] is_layer(m, int_lists(layers@), k),
        decreases n - flag_count(done@),
    {
        let ghost done0 = flag_set(done@);
        let ghost all = ints(ready@);
        let ghost layers0 = int_lists(layers@);
        proof {
            lemma_increasing_len(all, n as int);
        }
        let (layer, mut rest) = take_layer(&ready, effects);
        let ghost lay = ints(layer@);
        let ghost flags0 = done@;
        let mut x: usize = 0;
        assert(lay.take(0) =~= Seq::empty());
        assert(done_with(done0, lay.take(0)) =~= done0);
        while x < layer.len()
            invariant
                x <= layer@.len(),
                n == deps@.len(),
                m == model_of(deps@, *effects),
                lay == ints(layer@),
                increasing(lay),
                deps_wf(deps@),
                reversed(deps@, dependents@, n as int),
                done@.len() == n,
                flags0.len() == n,
                flag_set(flags0) == done0,
                flag_set(done@) == done_with(done0, lay.take(x as int)),
                flag_count(done@) == flag_count(flags0) + x,
                counts_hold(deps@, pending@, flag_set(done@)),
                closed_below(deps@, flag_set(done@)),
                closed_below(deps@, done0),
                forall|i: int| #[trigger] lay.contains(i) ==> m.is_ready(done0, i),
                increasing(ints(rest@)),
                forall|i: int|
                    #[trigger] ints(rest@).contains(i) <==> m.is_ready(flag_set(done@), i)
                        && !lay.contains(i),
            decreases layer.len() - x,
        {
            let node: usize = layer[x];
            let ghost v = node as int;
            let ghost before = flag_set(done@);
            let ghost flags1 = done@;
            let ghost rest0 = ints(rest@);
            proof {
                assert(lay[x as int] == v);
                assert(lay.contains(v));
                assert(m.is_ready(done0, v));
                assert(dep_sets(deps@)[v].subset_of(before)) by {
                    assert forall|j: int| dep_sets(deps@)[v].contains(j) implies before.contains(j) by {
                        assert(done0.contains(j));
                    }
                }
                assert(!before.contains(v)) by {
                    if lay.take(x as int).contains(v) {
                        let p = choose|p: int|
                            0 <= p < lay.take(x as int).len() && lay.take(x as int)[p] == v;
                        assert(lay[p] < lay[x as int]);
                    }
                }
                assert forall|i: int| #[trigger] ints(dependents@[v]@).contains(i) <==> 0 <= i
                    < deps@.len() && ints(deps@[i]@).contains(v) by {}
                assert forall|i: int| #[trigger] ints(rest@).contains(i) implies 0 <= i < deps@.len()
                    && dep_sets(deps@)[i].subset_of(before) && i != v by {
                    assert(m.is_ready(before, i));
                }
            }
            release_children(
                deps,
                node,
                &dependents[node],
                &mut pending,
                &mut rest,
                Ghost(before),
            );
            done[node] = true;
            proof {
                let now = flag_set(done@);
                assert(now =~= before.insert(v)) by {
                    assert(done@ =~= flags1.update(v, true));
                }
                lemma_flag_count_set(flags1, v);
                assert(done@ =~= flags1.update(v, true));
                let next = lay.take(x + 1);
                assert(next =~= lay.take(x as int).push(v));
                assert(now =~= done_with(done0, next)) by {
                    assert forall|i: int| now.contains(i) <==> done_with(done0, next).contains(i) by {
                        if lay.take(x as int).contains(i) {
                            let p = choose|p: int|
                                0 <= p < lay.take(x as int).len() && lay.take(x as int)[p] == i;
                            assert(next[p] == i);
                        }
                        if next.contains(i) && i != v {
                            let p = choose|p: int| 0 <= p < next.len() && next[p] == i;
                            assert(lay.take(x as int)[p] == i);
                        }
                        assert(next[x as int] == v);
                    }
                }
                assert forall|i: int| #[trigger] ints(rest@).contains(i) <==> m.is_ready(now, i)
                    && !lay.contains(i) by {
                    assert(rest0.contains(i) <==> m.is_ready(before, i) && !lay.contains(i));
                    if 0 <= i < n && !dep_sets(deps@)[i].subset_of(before) && dep_sets(
                        deps@,
                    )[i].subset_of(now) {
                        // A node that waited for `v` is neither done nor in the layer.
                        if before.contains(i) {
                            assert(dep_sets(deps@)[i].subset_of(before));
                        }
                        if lay.contains(i) {
                            assert(m.is_ready(done0, i));
                            assert forall|j: int| dep_sets(deps@)[i].contains(j) implies before.contains(
                                j,
                            ) by {
                                assert(done0.contains(j));
                            }
                            assert(dep_sets(deps@)[i].subset_of(before));
                        }
                        assert(i != v) by {
                            assert(lay.contains(v));
                        }
                    }
                    if m.is_ready(before, i) && i != v {
                        assert(dep_sets(deps@)[i].subset_of(now));
                    }
                    if m.is_ready(now, i) {
                        if dep_sets(deps@)[i].subset_of(before) {
                            assert(m.is_ready(before, i));
                        }
                    }
                }
            }
            x = x + 1;
        }
        proof {
            assert(lay.take(x as int) =~= lay);
            assert forall|i: int| #[trigger] ints(rest@).contains(i) <==> m.is_ready(
                flag_set(done@),
                i,
            ) by {
                if lay.contains(i) {
                    assert(flag_set(done@).contains(i));
                }
            }
        }
        layers.push(layer);
        proof {
            let layers1 = int_lists(layers@);
            assert(layers1 =~= layers0.push(lay));
            let k = layers0.len() as int;
            assert(done_before(layers1, k) =~= done0) by {
                crate::graph::layers::lemma_done_prefix(layers0, lay, k);
            }
            assert(m.is_ready_list(done_before(layers1, k), all));
            assert(is_layer(m, layers1, k));
            assert forall|j: int| 0 <= j < layers1.len() implies #[trigger] is_layer(m, layers1, j) by {
                if j < k {
                    assert(is_layer(m, layers0, j));
                    crate::graph::layers::lemma_done_prefix(layers0, lay, j);
                    assert(layers1[j] == layers0[j]);
                }
            }
            assert(flag_set(done@) =~= done_before(layers1, k + 1)) by {
                assert forall|i: int| flag_set(done@).contains(i) <==> done_before(
                    layers1,
                    k + 1,
                ).contains(i) by {
                    if done0.contains(i) {
                        let a = choose|a: int| 0 <= a < k && (#[trigger] layers1[a]).contains(i);
                        assert(layers1[a].contains(i));
                    }
                    if lay.contains(i) {
                        assert(layers1[k].contains(i));
                    }
                    if done_before(layers1, k + 1).contains(i) {
                        let a = choose|a: int| 0 <= a < k + 1 && (#[trigger] layers1[a]).contains(i);
                        if a < k {
                            assert(done_before(layers1, k).contains(i));
                        }
                    }
                }
            }
            lemma_flag_count_bound(done@);
        }
        ready = rest;
    }
    proof {
        assert forall|i: int| !#[trigger] m.is_ready(
            done_before(int_lists(layers@), int_lists(layers@).len() as int),
            i,
        ) by {
            assert(!ints(ready@).contains(i));
        }
    }
    (layers, done)
}

/// The nodes that were done and those of the list.
spec fn done_with(done: Set<int>, s: Seq<int>) -> Set<int> {
    Set::new(|i: int| done.contains(i) || s.contains(i))
}

/// How many flags are set.
spec fn flag_count(flags: Seq<bool>) -> nat
    decreases flags.len(),
{
    if flags.len() == 0 {
        0
    } else {
        flag_count(flags.drop_last()) + if flags.last() {
            1nat
        } else {
            0nat
        }
    }
}

proof fn lemma_flag_count_bound(flags: Seq<bool>)
    ensures
        flag_count(flags) <= flags.len(),
    decreases flags.len(),
{
    if flags.len() > 0 {
        lemma_flag_count_bound(flags.drop_last());
    }
}

proof fn lemma_flag_count_set(flags: Seq<bool>, v: int)
    requires
        0 <= v < flags.len(),
        !flags[v],
    ensures
        flag_count(flags.update(v, true)) == flag_count(flags) + 1,
    decreases flags.len(),
{
    let after = flags.update(v, true);
    if v == flags.len() - 1 {
        assert(after.drop_last() =~= flags.drop_last());
    } else {
        assert(after.drop_last() =~= flags.drop_last().update(v, true));
        lemma_flag_count_set(flags.drop_last(), v);
    }
}

proof fn lemma_open_all(d: Seq<usize>)
    ensures
        open_count(d, Set::empty()) == d.len(),
    decreases d.len(),
{
    if d.len() > 0 {
        lemma_open_all(d.drop_last());
    }
}

proof fn lemma_increasing_len(s: Seq<int>, n: int)
    requires
        increasing(s),
        forall|i: int| #[trigger] s.contains(i) ==> 0 <= i < n,
        n >= 0,
    ensures
        s.len() <= n,
    decreases s.len(),
{
    if s.len() > 0 {
        assert(s.contains(s.last()));
        let front = s.drop_last();
        assert forall|i: int| #[trigger] front.contains(i) implies 0 <= i < s.last() by {
            let p = choose|p: int| 0 <= p < front.len() && front[p] == i;
            assert(s[p] == i);
            assert(s.contains(i));
            assert(s[p] < s[s.len() - 1]);
        }
        lemma_increasing_len(front, s.last());
    }
}

} // verus!
