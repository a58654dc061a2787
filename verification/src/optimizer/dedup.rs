//! Deduplication of identical calls.

use vstd::prelude::*;

use crate::canonical::canonical_json_string;
use crate::optimizer::report::DeduplicatedNode;
use crate::optimizer::rewrite::{rewrite_node_aliases, rewrite_value_ref, Aliases};
use crate::ordered::StrMap;
use crate::plan::{Node, NodeV, Plan, PlanV, ToolSpec, ToolSpecV, WhenV};
use crate::refs::{RefV, ValueRef};
use crate::text::{copy_texts, same_opt_text, same_text, same_texts};

verus! {

use crate::canonical::canonical;
use crate::graph::order::distinct_ids;
use crate::optimizer::rewrite::{aliases_view, follow, follow_unaliased, is_rewritten_node, rewritten_ref};
use crate::ordered::{
    lookup, opt_view, pairs_view, pairs_view_lookup, sorted_pairs, sorted_texts_unique, views,
};
use crate::text::{lex_less, texts_view};

// ---------------------------------------------------------------------------
// Keys
// ---------------------------------------------------------------------------

/// What makes two calls the same call.
#[verifier::ext_equal]
pub struct KeyV {
    pub tool: Seq<char>,
    pub input: Seq<char>,
    pub for_each: Option<RefV>,
    pub when: Option<(RefV, Option<Seq<char>>, bool)>,
    pub ordering: Option<Seq<Seq<char>>>,
}

/// A condition as it enters a key.
pub open spec fn when_key(w: Option<WhenV>) -> Option<(RefV, Option<Seq<char>>, bool)> {
    match w {
        Some(w) => Some(
            (
                w.target,
                match w.equals {
                    Some(j) => Some(canonical(j)),
                    None => None,
                },
                w.not,
            ),
        ),
        None => None,
    }
}

/// The key of a node whose tool is pure or cacheable. Pure outputs do not
/// depend on execution order, so explicit ordering edges are left out of the
/// key; tools that are cacheable but not pure keep them.
pub open spec fn dedup_key_of(tools: Seq<(Seq<char>, ToolSpecV)>, node: NodeV) -> Option<KeyV> {
    match lookup(tools, node.tool) {
        Some(tool) => match tool.effects {
            Some(e) => if e.pure || e.cacheable {
                Some(
                    KeyV {
                        tool: node.tool,
                        input: canonical(node.input),
                        for_each: node.for_each,
                        when: when_key(node.when),
                        ordering: if e.pure {
                            None
                        } else {
                            Some(node.depends_on)
                        },
                    },
                )
            } else {
                None
            },
            None => None,
        },
        None => None,
    }
}

/// The first node at or after `from` with the key, or the number of nodes.
pub open spec fn find_key(
    tools: Seq<(Seq<char>, ToolSpecV)>,
    nodes: Seq<NodeV>,
    key: KeyV,
    from: int,
) -> int
    decreases nodes.len() - from,
{
    if from >= nodes.len() {
        nodes.len() as int
    } else if dedup_key_of(tools, nodes[from]) == Some(key) {
        from
    } else {
        find_key(tools, nodes, key, from + 1)
    }
}

/// The first node that makes the same call as node `i`.
pub open spec fn first_same(tools: Seq<(Seq<char>, ToolSpecV)>, nodes: Seq<NodeV>, i: int) -> int {
    find_key(tools, nodes, dedup_key_of(tools, nodes[i])->0, 0)
}

/// An earlier node makes the same call as node `i`.
pub open spec fn is_duplicate(tools: Seq<(Seq<char>, ToolSpecV)>, nodes: Seq<NodeV>, i: int) -> bool {
    dedup_key_of(tools, nodes[i]) is Some && first_same(tools, nodes, i) < i
}

/// The nodes among the first `k` that are no duplicates.
pub open spec fn kept_nodes(
    tools: Seq<(Seq<char>, ToolSpecV)>,
    nodes: Seq<NodeV>,
    k: int,
) -> Seq<NodeV>
    decreases k,
{
    if k <= 0 {
        Seq::empty()
    } else {
        let before = kept_nodes(tools, nodes, k - 1);
        if is_duplicate(tools, nodes, k - 1) {
            before
        } else {
            before.push(nodes[k - 1])
        }
    }
}

/// The duplicates among the first `k` nodes: the removed id and the id that
/// replaces it.
pub open spec fn removed_nodes(
    tools: Seq<(Seq<char>, ToolSpecV)>,
    nodes: Seq<NodeV>,
    k: int,
) -> Seq<(Seq<char>, Seq<char>)>
    decreases k,
{
    if k <= 0 {
        Seq::empty()
    } else {
        let before = removed_nodes(tools, nodes, k - 1);
        if is_duplicate(tools, nodes, k - 1) {
            before.push((nodes[k - 1].id, nodes[first_same(tools, nodes, k - 1)].id))
        } else {
            before
        }
    }
}

/// The aliases that a list of removals gives.
pub open spec fn alias_map(removed: Seq<(Seq<char>, Seq<char>)>) -> Aliases
    decreases removed.len(),
{
    if removed.len() == 0 {
        Map::empty()
    } else {
        alias_map(removed.drop_last()).insert(removed.last().0, removed.last().1)
    }
}

/// `out` is the plan without its duplicates: the nodes that stay and the
/// outputs refer to the nodes that replace the removed ones.
pub open spec fn is_deduplicated(plan: PlanV, out: PlanV) -> bool {
    let removed = removed_nodes(plan.tools, plan.nodes, plan.nodes.len() as int);
    let kept = kept_nodes(plan.tools, plan.nodes, plan.nodes.len() as int);
    let aliases = alias_map(removed);
    &&& out.version == plan.version
    &&& out.name == plan.name
    &&& out.description == plan.description
    &&& out.tools == plan.tools
    &&& removed.len() == 0 ==> out.nodes == plan.nodes && out.outputs == plan.outputs
    &&& removed.len() > 0 ==> {
        &&& out.nodes.len() == kept.len()
        &&& forall|i: int|
            0 <= i < kept.len() ==> is_rewritten_node(
                kept[i],
                #[trigger] out.nodes[i],
                aliases,
                removed.len(),
            )
        &&& out.outputs == Seq::new(
            plan.outputs.len(),
            |i: int|
                (plan.outputs[i].0, rewritten_ref(plan.outputs[i].1, aliases, removed.len())),
        )
    }
}

// ---------------------------------------------------------------------------
// Laws
// ---------------------------------------------------------------------------

/// A search for a key gives the first node that has it.
pub proof fn find_key_first(
    tools: Seq<(Seq<char>, ToolSpecV)>,
    nodes: Seq<NodeV>,
    key: KeyV,
    from: int,
)
    requires
        0 <= from <= nodes.len(),
    ensures
        from <= find_key(tools, nodes, key, from) <= nodes.len(),
        find_key(tools, nodes, key, from) < nodes.len() ==> dedup_key_of(
            tools,
            nodes[find_key(tools, nodes, key, from)],
        ) == Some(key),
        forall|j: int|
            from <= j < find_key(tools, nodes, key, from) ==> dedup_key_of(
                tools,
                #[trigger] nodes[j],
            ) != Some(key),
    decreases nodes.len() - from,
{
    if from < nodes.len() && dedup_key_of(tools, nodes[from]) != Some(key) {
        find_key_first(tools, nodes, key, from + 1);
    }
}

/// A node is removed only when its tool is pure or cacheable: a node with
/// effects of its own is never merged into another.
pub proof fn effectful_nodes_stay(
    tools: Seq<(Seq<char>, ToolSpecV)>,
    nodes: Seq<NodeV>,
    i: int,
)
    requires
        0 <= i < nodes.len(),
        match lookup(tools, nodes[i].tool) {
            Some(tool) => match tool.effects {
                Some(e) => !e.pure && !e.cacheable,
                None => true,
            },
            None => true,
        },
    ensures
        !is_duplicate(tools, nodes, i),
{
}

/// A removed node makes the same call as the node that replaces it, and the
/// node that replaces it is kept.
pub proof fn duplicates_are_the_same_call(
    tools: Seq<(Seq<char>, ToolSpecV)>,
    nodes: Seq<NodeV>,
    i: int,
)
    requires
        0 <= i < nodes.len(),
        is_duplicate(tools, nodes, i),
    ensures
        0 <= first_same(tools, nodes, i) < i,
        !is_duplicate(tools, nodes, first_same(tools, nodes, i)),
        nodes[first_same(tools, nodes, i)].tool == nodes[i].tool,
        canonical(nodes[first_same(tools, nodes, i)].input) == canonical(nodes[i].input),
        nodes[first_same(tools, nodes, i)].for_each == nodes[i].for_each,
        when_key(nodes[first_same(tools, nodes, i)].when) == when_key(nodes[i].when),
{
    let key = dedup_key_of(tools, nodes[i])->0;
    find_key_first(tools, nodes, key, 0);
}

/// Deduplication gives one plan.
pub proof fn deduplication_is_determined(plan: PlanV, a: PlanV, b: PlanV)
    requires
        is_deduplicated(plan, a),
        is_deduplicated(plan, b),
    ensures
        a == b,
{
    let removed = removed_nodes(plan.tools, plan.nodes, plan.nodes.len() as int);
    let kept = kept_nodes(plan.tools, plan.nodes, plan.nodes.len() as int);
    let aliases = alias_map(removed);
    if removed.len() > 0 {
        assert forall|i: int| 0 <= i < kept.len() implies a.nodes[i] == b.nodes[i] by {
            assert(is_rewritten_node(kept[i], a.nodes[i], aliases, removed.len()));
            assert(is_rewritten_node(kept[i], b.nodes[i], aliases, removed.len()));
            sorted_texts_unique(a.nodes[i].depends_on, b.nodes[i].depends_on);
        }
        assert(a.nodes =~= b.nodes);
    }
    assert(a =~= b);
}

proof fn lemma_removed(tools: Seq<(Seq<char>, ToolSpecV)>, nodes: Seq<NodeV>, k: int, x: int)
    requires
        0 <= k <= nodes.len(),
        0 <= x < removed_nodes(tools, nodes, k).len(),
    ensures
        exists|i: int|
            0 <= i < k && is_duplicate(tools, nodes, i) && removed_nodes(tools, nodes, k)[x] == (
                (#[trigger] nodes[i]).id,
                nodes[first_same(tools, nodes, i)].id,
            ),
    decreases k,
{
    let before = removed_nodes(tools, nodes, k - 1);
    if x < before.len() {
        lemma_removed(tools, nodes, k - 1, x);
        let i = choose|i: int|
            0 <= i < k - 1 && is_duplicate(tools, nodes, i) && before[x] == (
                (#[trigger] nodes[i]).id,
                nodes[first_same(tools, nodes, i)].id,
            );
        assert(nodes[i].id == nodes[i].id);
    } else {
        assert(is_duplicate(tools, nodes, k - 1));
        assert(nodes[k - 1].id == nodes[k - 1].id);
    }
}

proof fn lemma_alias_entry(removed: Seq<(Seq<char>, Seq<char>)>, id: Seq<char>)
    requires
        alias_map(removed).dom().contains(id),
    ensures
        exists|x: int|
            0 <= x < removed.len() && (#[trigger] removed[x]).0 == id && removed[x].1 == alias_map(
                removed,
            )[id],
    decreases removed.len(),
{
    if removed.len() > 0 {
        if removed.last().0 == id {
            assert(removed[removed.len() - 1].0 == id);
        } else {
            let front = removed.drop_last();
            lemma_alias_entry(front, id);
            let x = choose|x: int|
                0 <= x < front.len() && (#[trigger] front[x]).0 == id && front[x].1 == alias_map(
                    front,
                )[id];
            assert(removed[x] == front[x]);
        }
    }
}

/// When no two nodes share an id, redirecting a reference takes one step and
/// ends at a node that is not removed: nothing in the deduplicated plan
/// refers to a removed node.
pub proof fn no_reference_to_removed_nodes(
    tools: Seq<(Seq<char>, ToolSpecV)>,
    nodes: Seq<NodeV>,
    id: Seq<char>,
)
    requires
        distinct_ids(nodes),
    ensures
        ({
            let removed = removed_nodes(tools, nodes, nodes.len() as int);
            let aliases = alias_map(removed);
            !aliases.dom().contains(follow(aliases, id, removed.len()))
        }),
{
    let n = nodes.len() as int;
    let removed = removed_nodes(tools, nodes, n);
    let aliases = alias_map(removed);
    if aliases.dom().contains(id) {
        lemma_alias_entry(removed, id);
        let x = choose|x: int|
            0 <= x < removed.len() && (#[trigger] removed[x]).0 == id && removed[x].1
                == aliases[id];
        lemma_removed(tools, nodes, n, x);
        let i = choose|i: int|
            0 <= i < n && is_duplicate(tools, nodes, i) && removed[x] == (
                (#[trigger] nodes[i]).id,
                nodes[first_same(tools, nodes, i)].id,
            );
        duplicates_are_the_same_call(tools, nodes, i);
        let f = first_same(tools, nodes, i);
        let to = nodes[f].id;
        if aliases.dom().contains(to) {
            lemma_alias_entry(removed, to);
            let y = choose|y: int|
                0 <= y < removed.len() && (#[trigger] removed[y]).0 == to && removed[y].1
                    == aliases[to];
            lemma_removed(tools, nodes, n, y);
            let j = choose|j: int|
                0 <= j < n && is_duplicate(tools, nodes, j) && removed[y] == (
                    (#[trigger] nodes[j]).id,
                    nodes[first_same(tools, nodes, j)].id,
                );
            assert(nodes[j].id == nodes[f].id);
            if j < f {
                assert(nodes[j].id != nodes[f].id);
            } else if f < j {
                assert(nodes[f].id != nodes[j].id);
            }
        }
        follow_unaliased(aliases, to, (removed.len() - 1) as nat);
    }
}

proof fn lemma_duplicate_removed(
    tools: Seq<(Seq<char>, ToolSpecV)>,
    nodes: Seq<NodeV>,
    k: int,
    i: int,
) -> (x: int)
    requires
        0 <= i < k <= nodes.len(),
        is_duplicate(tools, nodes, i),
    ensures
        0 <= x < removed_nodes(tools, nodes, k).len(),
        removed_nodes(tools, nodes, k)[x].0 == nodes[i].id,
    decreases k,
{
    if i == k - 1 {
        removed_nodes(tools, nodes, k).len() - 1
    } else {
        lemma_duplicate_removed(tools, nodes, k - 1, i)
    }
}

proof fn lemma_removed_aliased(removed: Seq<(Seq<char>, Seq<char>)>, x: int)
    requires
        0 <= x < removed.len(),
    ensures
        alias_map(removed).dom().contains(removed[x].0),
    decreases removed.len(),
{
    if x < removed.len() - 1 {
        lemma_removed_aliased(removed.drop_last(), x);
    }
}

/// When no two nodes share an id, a duplicate is redirected to the first
/// node that makes the same call, and every other node to itself.
pub proof fn duplicates_are_redirected(
    tools: Seq<(Seq<char>, ToolSpecV)>,
    nodes: Seq<NodeV>,
    i: int,
)
    requires
        distinct_ids(nodes),
        0 <= i < nodes.len(),
    ensures
        ({
            let removed = removed_nodes(tools, nodes, nodes.len() as int);
            let to = if is_duplicate(tools, nodes, i) {
                first_same(tools, nodes, i)
            } else {
                i
            };
            follow(alias_map(removed), nodes[i].id, removed.len()) == nodes[to].id
        }),
{
    let n = nodes.len() as int;
    let removed = removed_nodes(tools, nodes, n);
    let aliases = alias_map(removed);
    let id = nodes[i].id;
    if is_duplicate(tools, nodes, i) {
        let x = lemma_duplicate_removed(tools, nodes, n, i);
        lemma_removed_aliased(removed, x);
    }
    if aliases.dom().contains(id) {
        lemma_alias_entry(removed, id);
        let x = choose|x: int|
            0 <= x < removed.len() && (#[trigger] removed[x]).0 == id && removed[x].1
                == aliases[id];
        lemma_removed(tools, nodes, n, x);
        let j = choose|j: int|
            0 <= j < n && is_duplicate(tools, nodes, j) && removed[x] == (
                (#[trigger] nodes[j]).id,
                nodes[first_same(tools, nodes, j)].id,
            );
        if i < j {
            assert(nodes[i].id != nodes[j].id);
        } else if j < i {
            assert(nodes[j].id != nodes[i].id);
        }
        let to = aliases[id];
        no_reference_to_removed_nodes(tools, nodes, id);
        assert(follow(aliases, id, removed.len()) == follow(aliases, to, (removed.len() - 1) as nat));
        if aliases.dom().contains(to) {
            duplicates_are_the_same_call(tools, nodes, i);
            let f = first_same(tools, nodes, i);
            lemma_alias_entry(removed, to);
            let y = choose|y: int|
                0 <= y < removed.len() && (#[trigger] removed[y]).0 == to && removed[y].1
                    == aliases[to];
            lemma_removed(tools, nodes, n, y);
            let k = choose|k: int|
                0 <= k < n && is_duplicate(tools, nodes, k) && removed[y] == (
                    (#[trigger] nodes[k]).id,
                    nodes[first_same(tools, nodes, k)].id,
                );
            if k < f {
                assert(nodes[k].id != nodes[f].id);
            } else if f < k {
                assert(nodes[f].id != nodes[k].id);
            }
        }
        follow_unaliased(aliases, to, (removed.len() - 1) as nat);
    }
}

/// The nodes that stay are nodes of the plan that are no duplicates.
pub proof fn kept_nodes_are_originals(
    tools: Seq<(Seq<char>, ToolSpecV)>,
    nodes: Seq<NodeV>,
    k: int,
    x: int,
) -> (i: int)
    requires
        0 <= k <= nodes.len(),
        0 <= x < kept_nodes(tools, nodes, k).len(),
    ensures
        0 <= i < k,
        !is_duplicate(tools, nodes, i),
        kept_nodes(tools, nodes, k)[x] == nodes[i],
    decreases k,
{
    let before = kept_nodes(tools, nodes, k - 1);
    if x < before.len() {
        kept_nodes_are_originals(tools, nodes, k - 1, x)
    } else {
        k - 1
    }
}

// ---------------------------------------------------------------------------
// The pass
// ---------------------------------------------------------------------------

struct DedupKey {
    tool: String,
    input: String,
    for_each: Option<ValueRef>,
    when: Option<(ValueRef, Option<String>, bool)>,
    ordering: Option<Vec<String>>,
}

impl View for DedupKey {
    type V = KeyV;

    closed spec fn view(&self) -> KeyV {
        KeyV {
            tool: self.tool@,
            input: self.input@,
            for_each: opt_view(self.for_each),
            when: match self.when {
                Some(w) => Some((w.0@, opt_view(w.1), w.2)),
                None => None,
            },
            ordering: match self.ordering {
                Some(ids) => Some(texts_view(ids@)),
                None => None,
            },
        }
    }
}

impl DedupKey {
    fn same(&self, other: &DedupKey) -> (r: bool)
        ensures
            r == (self@ == other@),
    {
        if !same_text(self.tool.as_str(), other.tool.as_str()) || !same_text(
            self.input.as_str(),
            other.input.as_str(),
        ) {
            return false;
        }
        let same_order = match (&self.ordering, &other.ordering) {
            (Some(a), Some(b)) => same_texts(a, b),
            (None, None) => true,
            _ => false,
        };
        if !same_order {
            return false;
        }
        let same_items = match (&self.for_each, &other.for_each) {
            (Some(a), Some(b)) => a.same(b),
            (None, None) => true,
            _ => false,
        };
        if !same_items {
            return false;
        }
        match (&self.when, &other.when) {
            (Some(a), Some(b)) => a.0.same(&b.0) && same_opt_text(&a.1, &b.1) && a.2 == b.2,
            (None, None) => true,
            _ => false,
        }
    }
}

fn dedup_key(tools: &StrMap<ToolSpec>, node: &Node) -> (r: Option<DedupKey>)
    ensures
        opt_view(r) == dedup_key_of(pairs_view(*tools), node@),
{
    tools.prove_sorted();
    proof {
        pairs_view_lookup(*tools, node@.tool);
    }
    let tool = match tools.get(node.tool.as_str()) {
        Some(tool) => tool,
        None => {
            return None;
        },
    };
    let effects = match &tool.effects {
        Some(effects) => effects,
        None => {
            return None;
        },
    };
    if !(effects.pure || effects.cacheable) {
        return None;
    }
    let ordering = if effects.pure {
        None
    } else {
        Some(copy_texts(&node.depends_on))
    };
    let when = match &node.when {
        Some(w) => Some(
            (
                w.target.clone(),
                match &w.equals {
                    Some(v) => Some(canonical_json_string(v)),
                    None => None,
                },
                w.not,
            ),
        ),
        None => None,
    };
    let key = DedupKey {
        tool: node.tool.clone(),
        input: canonical_json_string(&node.input),
        for_each: match &node.for_each {
            Some(r) => Some(r.clone()),
            None => None,
        },
        when,
        ordering,
    };
    Some(key)
}

/// The removals as pairs of ids.
pub open spec fn removals_view(v: Seq<DeduplicatedNode>) -> Seq<(Seq<char>, Seq<char>)> {
    Seq::new(v.len(), |i: int| (v[i].removed@, v[i].canonical@))
}

/// `seen` lists, for each key among the first `k` nodes, the first node that
/// has it.
spec fn seen_holds(
    tools: Seq<(Seq<char>, ToolSpecV)>,
    nodes: Seq<NodeV>,
    seen: Seq<(DedupKey, usize)>,
    k: int,
) -> bool {
    &&& forall|x: int|
        0 <= x < seen.len() ==> {
            &&& (#[trigger] seen[x]).1 < k
            &&& dedup_key_of(tools, nodes[seen[x].1 as int]) == Some(seen[x].0@)
            &&& find_key(tools, nodes, seen[x].0@, 0) == seen[x].1
        }
    &&& forall|j: int|
        0 <= j < k && dedup_key_of(tools, #[trigger] nodes[j]) is Some ==> exists|x: int|
            0 <= x < seen.len() && (#[trigger] seen[x]).0@ == dedup_key_of(tools, nodes[j])->0
}

fn find_seen(seen: &Vec<(DedupKey, usize)>, key: &DedupKey) -> (r: Option<usize>)
    ensures
        match r {
            Some(at) => exists|x: int|
                0 <= x < seen@.len() && (#[trigger] seen@[x]).0@ == key@ && seen@[x].1 == at,
            None => forall|x: int| 0 <= x < seen@.len() ==> (#[trigger] seen@[x]).0@ != key@,
        },
{
    let mut i: usize = 0;
    while i < seen.len()
        invariant
            i <= seen@.len(),
            forall|x: int| 0 <= x < i ==> (#[trigger] seen@[x]).0@ != key@,
        decreases seen.len() - i,
    {
        if seen[i].0.same(key) {
            return Some(seen[i].1);
        }
        i = i + 1;
    }
    None
}

fn scan_nodes(tools: &StrMap<ToolSpec>, nodes: &Vec<Node>) -> (r: (
    Vec<usize>,
    Vec<DeduplicatedNode>,
))
    ensures
        removals_view(r.1@) == removed_nodes(pairs_view(*tools), views(nodes@), nodes@.len() as int),
        r.0@.len() == kept_nodes(pairs_view(*tools), views(nodes@), nodes@.len() as int).len(),
        forall|x: int|
            0 <= x < r.0@.len() ==> (#[trigger] r.0@[x]) < nodes@.len() && nodes@[r.0@[x] as int]@
                == kept_nodes(pairs_view(*tools), views(nodes@), nodes@.len() as int)[x],
        r.1@.len() <= nodes@.len(),
{
    let ghost ts = pairs_view(*tools);
    let ghost ns = views(nodes@);
    let mut seen: Vec<(DedupKey, usize)> = Vec::new();
    let mut kept: Vec<usize> = Vec::new();
    let mut removed: Vec<DeduplicatedNode> = Vec::new();
    let mut i: usize = 0;
    assert(removals_view(removed@) =~= Seq::empty());
    while i < nodes.len()
        invariant
            i <= nodes@.len(),
            ts == pairs_view(*tools),
            ns == views(nodes@),
            seen_holds(ts, ns, seen@, i as int),
            removals_view(removed@) == removed_nodes(ts, ns, i as int),
            removed@.len() <= i,
            kept@.len() == kept_nodes(ts, ns, i as int).len(),
            forall|x: int|
                0 <= x < kept@.len() ==> (#[trigger] kept@[x]) < nodes@.len()
                    && nodes@[kept@[x] as int]@ == kept_nodes(ts, ns, i as int)[x],
        decreases nodes.len() - i,
    {
        let node = &nodes[i];
        assert(ns[i as int] == node@);
        let ghost seen0 = seen@;
        let mut duplicate_of: Option<usize> = None;
        match dedup_key(tools, node) {
            Some(key) => {
                let ghost k = key@;
                proof {
                    find_key_first(ts, ns, k, 0);
                }
                match find_seen(&seen, &key) {
                    Some(at) => {
                        duplicate_of = Some(at);
                        proof {
                            let x = choose|x: int|
                                0 <= x < seen@.len() && (#[trigger] seen@[x]).0@ == key@
                                    && seen@[x].1 == at;
                            assert(find_key(ts, ns, seen@[x].0@, 0) == seen@[x].1);
                            assert(first_same(ts, ns, i as int) == at);
                        }
                    },
                    None => {
                        proof {
                            let f = find_key(ts, ns, k, 0);
                            if f < i {
                                assert(dedup_key_of(ts, ns[f]) is Some);
                                let x = choose|x: int|
                                    0 <= x < seen@.len() && (#[trigger] seen@[x]).0@
                                        == dedup_key_of(ts, ns[f])->0;
                                assert(seen@[x].0@ == k);
                            }
                            assert(f == i) by {
                                if f > i {
                                    assert(dedup_key_of(ts, ns[i as int]) != Some(k));
                                }
                            }
                        }
                        seen.push((key, i));
                    },
                }
            },
            None => {},
        }
        proof {
            assert forall|x: int| 0 <= x < seen@.len() implies {
                &&& (#[trigger] seen@[x]).1 < i + 1
                &&& dedup_key_of(ts, ns[seen@[x].1 as int]) == Some(seen@[x].0@)
                &&& find_key(ts, ns, seen@[x].0@, 0) == seen@[x].1
            } by {
                if x < seen0.len() {
                    assert(seen@[x] == seen0[x]);
                }
            }
            assert forall|j: int|
                0 <= j < i + 1 && dedup_key_of(ts, #[trigger] ns[j]) is Some implies exists|x: int|
                0 <= x < seen@.len() && (#[trigger] seen@[x]).0@ == dedup_key_of(ts, ns[j])->0 by {
                if j < i {
                    let x = choose|x: int|
                        0 <= x < seen0.len() && (#[trigger] seen0[x]).0@ == dedup_key_of(
                            ts,
                            ns[j],
                        )->0;
                    assert(seen@[x] == seen0[x]);
                } else if duplicate_of is Some {
                    let x = choose|x: int|
                        0 <= x < seen@.len() && (#[trigger] seen@[x]).0@ == dedup_key_of(
                            ts,
                            ns[i as int],
                        )->0 && seen@[x].1 == duplicate_of->0;
                    assert(seen@[x].0@ == dedup_key_of(ts, ns[j])->0);
                } else {
                    assert(seen@[seen0.len() as int].0@ == dedup_key_of(ts, ns[j])->0);
                }
            }
        }
        match duplicate_of {
            Some(at) => {
                let ghost removed0 = removed@;
                removed.push(
                    DeduplicatedNode { removed: node.id.clone(), canonical: nodes[at].id.clone() },
                );
                assert(is_duplicate(ts, ns, i as int));
                assert(removals_view(removed@) =~= removals_view(removed0).push(
                    (ns[i as int].id, ns[at as int].id),
                ));
            },
            None => {
                kept.push(i);
                assert(!is_duplicate(ts, ns, i as int));
            },
        }
        i = i + 1;
    }
    (kept, removed)
}

fn alias_table(removed: &Vec<DeduplicatedNode>) -> (r: StrMap<String>)
    ensures
        aliases_view(r) == alias_map(removals_view(removed@)),
{
    let ghost all = removals_view(removed@);
    let mut out: StrMap<String> = StrMap::new();
    let mut i: usize = 0;
    assert(aliases_view(out) =~= alias_map(all.take(0)));
    while i < removed.len()
        invariant
            i <= removed@.len(),
            all == removals_view(removed@),
            aliases_view(out) == alias_map(all.take(i as int)),
        decreases removed.len() - i,
    {
        let ghost before = aliases_view(out);
        let key = removed[i].removed.clone();
        let value = removed[i].canonical.clone();
        let ghost k = key@;
        let ghost v = value@;
        out.insert(key, value);
        proof {
            let next = all.take(i + 1);
            assert(next.drop_last() =~= all.take(i as int));
            assert(next.last() == (k, v));
            assert(aliases_view(out) =~= before.insert(k, v));
        }
        i = i + 1;
    }
    assert(all.take(i as int) =~= all);
    out
}

fn rewrite_outputs(
    outputs: &StrMap<ValueRef>,
    aliases: &StrMap<String>,
    limit: usize,
) -> (r: StrMap<ValueRef>)
    ensures
        pairs_view(r) == Seq::new(
            pairs_view(*outputs).len(),
            |i: int|
                (
                    pairs_view(*outputs)[i].0,
                    rewritten_ref(pairs_view(*outputs)[i].1, aliases_view(*aliases), limit as nat),
                ),
        ),
{
    let ghost all = pairs_view(*outputs);
    let ghost m = aliases_view(*aliases);
    let mut out: StrMap<ValueRef> = StrMap::new();
    let mut i: usize = 0;
    outputs.prove_sorted();
    while i < outputs.len()
        invariant
            i <= outputs.pairs().len(),
            all == pairs_view(*outputs),
            m == aliases_view(*aliases),
            sorted_pairs(outputs.pairs()),
            out.pairs().len() == i,
            forall|j: int|
                0 <= j < i ==> (#[trigger] out.pairs()[j]).0 == all[j].0 && out.pairs()[j].1@
                    == rewritten_ref(all[j].1, m, limit as nat),
        decreases outputs.pairs().len() - i,
    {
        let key = outputs.key_at(i).to_owned();
        assert forall|j: int| 0 <= j < out.pairs().len() implies lex_less(
            #[trigger] out.pairs()[j].0,
            key@,
        ) by {
            assert(lex_less(outputs.pairs()[j].0, outputs.pairs()[i as int].0));
        }
        out.push(key, rewrite_value_ref(outputs.value_at(i), aliases, limit));
        i = i + 1;
    }
    assert(pairs_view(out) =~= Seq::new(
        all.len(),
        |i: int| (all[i].0, rewritten_ref(all[i].1, m, limit as nat)),
    ));
    out
}

/// Removes duplicate calls and redirects references to the survivors.
///
/// References are rewritten after the alias table is complete, so references
/// to duplicates that appear later in the node list are also redirected.
pub fn deduplicate_nodes(plan: Plan) -> (r: (Plan, Vec<DeduplicatedNode>))
    ensures
        is_deduplicated(plan@, r.0@),
        removals_view(r.1@) == removed_nodes(plan@.tools, plan@.nodes, plan@.nodes.len() as int),
        r.0.nodes@.len() <= plan.nodes@.len(),
{
    let (kept, removed) = scan_nodes(&plan.tools, &plan.nodes);
    let ghost ks = kept_nodes(plan@.tools, plan@.nodes, plan@.nodes.len() as int);
    proof {
        lemma_kept_bound(plan@.tools, plan@.nodes, plan@.nodes.len() as int);
    }
    if removed.len() == 0 {
        assert(removals_view(removed@).len() == 0);
        return (plan, removed);
    }
    let limit: usize = removed.len();
    let aliases = alias_table(&removed);
    let ghost m = aliases_view(aliases);
    assert(removals_view(removed@).len() == limit);
    let mut nodes: Vec<Node> = Vec::new();
    let mut i: usize = 0;
    while i < kept.len()
        invariant
            i <= kept@.len(),
            kept@.len() == ks.len(),
            m == aliases_view(aliases),
            forall|x: int|
                0 <= x < kept@.len() ==> (#[trigger] kept@[x]) < plan.nodes@.len()
                    && plan.nodes@[kept@[x] as int]@ == ks[x],
            nodes@.len() == i,
            forall|j: int|
                0 <= j < i ==> is_rewritten_node(ks[j], (#[trigger] nodes@[j])@, m, limit as nat),
        decreases kept.len() - i,
    {
        let at: usize = kept[i];
        nodes.push(rewrite_node_aliases(&plan.nodes[at], &aliases, limit));
        i = i + 1;
    }
    let outputs = rewrite_outputs(&plan.outputs, &aliases, limit);
    let out = Plan {
        version: plan.version,
        name: plan.name,
        description: plan.description,
        tools: plan.tools,
        nodes,
        outputs,
    };
    proof {
        assert forall|i: int| 0 <= i < ks.len() implies is_rewritten_node(
            ks[i],
            #[trigger] out@.nodes[i],
            m,
            limit as nat,
        ) by {
            assert(out@.nodes[i] == nodes@[i]@);
        }
    }
    (out, removed)
}

proof fn lemma_kept_bound(tools: Seq<(Seq<char>, ToolSpecV)>, nodes: Seq<NodeV>, k: int)
    requires
        0 <= k <= nodes.len(),
    ensures
        kept_nodes(tools, nodes, k).len() <= k,
    decreases k,
{
    if k > 0 {
        lemma_kept_bound(tools, nodes, k - 1);
    }
}

} // verus!
