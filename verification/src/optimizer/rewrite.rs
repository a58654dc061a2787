//! Redirecting references from removed nodes to the nodes that replace them.

use vstd::prelude::*;

use crate::json::{Json, Value};
use crate::ordered::{StrMap, StrSet};
use crate::plan::{Node, NodeV, When, WhenV};
use crate::refs::{RefV, ValueRef, LITERAL_KEY, REF_KEY};

verus! {

use crate::json::{array_smaller, entries_view, object_smaller, values_view};
use crate::ordered::{lookup, sorted_pairs, sorted_texts};
use crate::refs::{is_literal_object, parse_ref, ref_text};
use crate::text::{lex_less, texts_view};
use crate::value::entries_lookup;

broadcast use {crate::json::group_json_views, crate::ordered::pairs_decrease};

/// Which node replaces which.
pub type Aliases = Map<Seq<char>, Seq<char>>;

/// The aliases that a map of texts holds.
pub open spec fn aliases_view(m: StrMap<String>) -> Aliases {
    Map::new(|k: Seq<char>| m@.dom().contains(k), |k: Seq<char>| m@[k]@)
}

/// The node that stands for `id` after at most `steps` replacements.
pub open spec fn follow(aliases: Aliases, id: Seq<char>, steps: nat) -> Seq<char>
    decreases steps,
{
    if steps > 0 && aliases.dom().contains(id) {
        follow(aliases, aliases[id], (steps - 1) as nat)
    } else {
        id
    }
}

/// A node that is not replaced stands for itself.
pub proof fn follow_unaliased(aliases: Aliases, id: Seq<char>, steps: nat)
    requires
        !aliases.dom().contains(id),
    ensures
        follow(aliases, id, steps) == id,
{
}

/// Following the replacements from `id` never comes back to a node that was
/// replaced on the way.
pub open spec fn acyclic_from(aliases: Aliases, id: Seq<char>) -> bool {
    forall|i: nat, j: nat|
        #![trigger follow(aliases, id, i), follow(aliases, id, j)]
        i < j && aliases.dom().contains(follow(aliases, id, i)) ==> follow(aliases, id, i)
            != follow(aliases, id, j)
}

/// When a node reached by following is replaced, so are those before it.
proof fn lemma_follow_prefix(aliases: Aliases, id: Seq<char>, i: nat, steps: nat)
    requires
        i <= steps,
        aliases.dom().contains(follow(aliases, id, steps)),
    ensures
        aliases.dom().contains(follow(aliases, id, i)),
    decreases steps,
{
    if !aliases.dom().contains(id) {
        follow_unaliased(aliases, id, steps);
    }
    if i > 0 {
        lemma_follow_prefix(aliases, aliases[id], (i - 1) as nat, (steps - 1) as nat);
    }
}

/// Where the replacements run in no cycle and as many may be followed as
/// there are, the node that stands for `id` is itself not replaced. Following
/// them again, however far, changes nothing.
pub proof fn canonical_nodes_are_final(aliases: Aliases, id: Seq<char>, limit: nat)
    requires
        aliases.dom().finite(),
        acyclic_from(aliases, id),
        limit >= aliases.dom().len(),
    ensures
        !aliases.dom().contains(follow(aliases, id, limit)),
        forall|steps: nat| #[trigger]
            follow(aliases, follow(aliases, id, limit), steps) == follow(aliases, id, limit),
{
    if aliases.dom().contains(follow(aliases, id, limit)) {
        let visited = Seq::new((limit + 1) as nat, |i: int| follow(aliases, id, i as nat));
        assert forall|i: int, j: int|
            0 <= i < visited.len() && 0 <= j < visited.len() && i != j implies visited[i]
            != visited[j] by {
            lemma_follow_prefix(aliases, id, i as nat, limit);
            lemma_follow_prefix(aliases, id, j as nat, limit);
            assert(follow(aliases, id, i as nat) == visited[i]);
            assert(follow(aliases, id, j as nat) == visited[j]);
        }
        assert forall|x: Seq<char>| #[trigger] visited.to_set().contains(x) implies aliases.dom().contains(
            x,
        ) by {
            let i = choose|i: int| 0 <= i < visited.len() && visited[i] == x;
            lemma_follow_prefix(aliases, id, i as nat, limit);
        }
        visited.unique_seq_to_set();
        vstd::set_lib::lemma_len_subset(visited.to_set(), aliases.dom());
    }
    assert forall|steps: nat| #[trigger]
        follow(aliases, follow(aliases, id, limit), steps) == follow(aliases, id, limit) by {
        follow_unaliased(aliases, follow(aliases, id, limit), steps);
    }
}

/// A map holds no more aliases than entries.
proof fn lemma_few_aliases(m: StrMap<String>)
    ensures
        aliases_view(m).dom().finite(),
        aliases_view(m).dom().len() <= m.pairs().len(),
{
    let keys = Seq::new(m.pairs().len(), |i: int| m.pairs()[i].0);
    assert forall|k: Seq<char>| #[trigger] aliases_view(m).dom().contains(k) implies keys.to_set().contains(
        k,
    ) by {
        let i = choose|i: int| 0 <= i < m.pairs().len() && (#[trigger] m.pairs()[i]).0 == k;
        assert(keys[i] == k);
    }
    vstd::seq_lib::seq_to_set_is_finite(keys);
    keys.lemma_cardinality_of_set();
    vstd::set_lib::lemma_len_subset(aliases_view(m).dom(), keys.to_set());
}

/// A reference after the replacements.
pub open spec fn rewritten_ref(r: RefV, aliases: Aliases, steps: nat) -> RefV {
    RefV { node: follow(aliases, r.node, steps), path: r.path }
}

/// The reference that an object stands for, when it is one.
pub open spec fn object_ref(entries: Seq<(Seq<char>, Json)>) -> Option<RefV> {
    if entries.len() == 1 {
        match lookup(entries, REF_KEY@) {
            Some(Json::Text(t)) => match parse_ref(t) {
                Ok(r) => Some(r),
                Err(_) => None,
            },
            _ => None,
        }
    } else {
        None
    }
}

/// A document with every reference redirected. Literal data stays as it is.
pub open spec fn rewritten(j: Json, aliases: Aliases, steps: nat) -> Json
    decreases j,
{
    match j {
        Json::Object(entries) => if is_literal_object(entries) {
            j
        } else {
            match object_ref(entries) {
                Some(r) => Json::Object(
                    seq![(REF_KEY@, Json::Text(ref_text(rewritten_ref(r, aliases, steps))))],
                ),
                None => Json::Object(
                    Seq::new(
                        entries.len(),
                        |i: int|
                            (
                                entries[i].0,
                                if 0 <= i < entries.len() {
                                    rewritten(entries[i].1, aliases, steps)
                                } else {
                                    Json::Null
                                },
                            ),
                    ),
                ),
            }
        },
        Json::List(items) => Json::List(
            Seq::new(
                items.len(),
                |i: int|
                    if 0 <= i < items.len() {
                        rewritten(items[i], aliases, steps)
                    } else {
                        Json::Null
                    },
            ),
        ),
        _ => j,
    }
}

/// A condition after the replacements.
pub open spec fn rewritten_when(w: WhenV, aliases: Aliases, steps: nat) -> WhenV {
    WhenV { target: rewritten_ref(w.target, aliases, steps), ..w }
}

/// The replaced dependencies as a set.
pub open spec fn followed_set(ids: Seq<Seq<char>>, aliases: Aliases, steps: nat) -> Set<Seq<char>> {
    Set::new(
        |x: Seq<char>|
            exists|i: int| 0 <= i < ids.len() && x == follow(aliases, #[trigger] ids[i], steps),
    )
}

/// `n` is the node `node` after the replacements: its explicit dependencies
/// are listed in order, each once.
pub open spec fn is_rewritten_node(node: NodeV, n: NodeV, aliases: Aliases, steps: nat) -> bool {
    &&& n.id == node.id
    &&& n.tool == node.tool
    &&& n.input == rewritten(node.input, aliases, steps)
    &&& sorted_texts(n.depends_on)
    &&& n.depends_on.to_set() == followed_set(node.depends_on, aliases, steps)
    &&& n.for_each == match node.for_each {
        Some(r) => Some(rewritten_ref(r, aliases, steps)),
        None => None,
    }
    &&& n.when == match node.when {
        Some(w) => Some(rewritten_when(w, aliases, steps)),
        None => None,
    }
}

/// The node that stands for `node`: aliases are followed as long as they go.
///
/// At most `limit` aliases are followed, which is as far as a chain without a
/// cycle can go when there are `limit` of them: the node at its end has no
/// alias.
pub fn canonical_node(node: &str, aliases: &StrMap<String>, limit: usize) -> (r: String)
    ensures
        r@ == follow(aliases_view(*aliases), node@, limit as nat),
        limit >= aliases.pairs().len() && acyclic_from(aliases_view(*aliases), node@)
            ==> !aliases_view(*aliases).dom().contains(r@),
{
    let ghost m = aliases_view(*aliases);
    proof {
        lemma_few_aliases(*aliases);
        if limit >= aliases.pairs().len() && acyclic_from(m, node@) {
            canonical_nodes_are_final(m, node@, limit as nat);
        }
    }
    let mut current = node.to_owned();
    let mut steps: usize = limit;
    while steps > 0
        invariant
            m == aliases_view(*aliases),
            follow(m, node@, limit as nat) == follow(m, current@, steps as nat),
        decreases steps,
    {
        match aliases.get(current.as_str()) {
            Some(next) => {
                current = next.clone();
            },
            None => {
                return current;
            },
        }
        steps = steps - 1;
    }
    current
}

/// The reference after the replacements.
pub fn rewrite_value_ref(value_ref: &ValueRef, aliases: &StrMap<String>, limit: usize) -> (r: ValueRef)
    ensures
        r@ == rewritten_ref(value_ref@, aliases_view(*aliases), limit as nat),
{
    let node = canonical_node(value_ref.node(), aliases, limit);
    ValueRef::new(node.as_str(), crate::text::copy_texts(value_ref.path()))
}

fn reference_of(map: &StrMap<Value>) -> (r: Option<ValueRef>)
    ensures
        match (r, object_ref(entries_view(*map))) {
            (Some(v), Some(m)) => v@ == m,
            (None, None) => true,
            _ => false,
        },
{
    map.prove_sorted();
    proof {
        entries_lookup(*map, REF_KEY@);
    }
    if map.len() != 1 {
        return None;
    }
    match map.get(REF_KEY) {
        Some(Value::String(raw)) => match ValueRef::parse(raw.as_str()) {
            Ok(v) => Some(v),
            Err(_) => None,
        },
        _ => None,
    }
}

/// A copy of the value with every reference redirected.
pub fn rewrite_refs_in_value(value: &Value, aliases: &StrMap<String>, limit: usize) -> (r: Value)
    ensures
        r@ == rewritten(value@, aliases_view(*aliases), limit as nat),
    decreases value,
{
    let ghost m = aliases_view(*aliases);
    let ghost steps = limit as nat;
    match value {
        Value::Object(map) => {
            let ghost entries = entries_view(*map);
            map.prove_sorted();
            proof {
                entries_lookup(*map, LITERAL_KEY@);
            }
            if map.len() == 1 && map.contains_key(LITERAL_KEY) {
                return value.clone();
            }
            if let Some(value_ref) = reference_of(map) {
                let text = rewrite_value_ref(&value_ref, aliases, limit).render();
                let mut out: StrMap<Value> = StrMap::new();
                out.push(REF_KEY.to_owned(), Value::String(text));
                assert(entries_view(out) =~= seq![(REF_KEY@, Json::Text(text@))]);
                return Value::Object(out);
            }
            let mut out: StrMap<Value> = StrMap::new();
            let mut i: usize = 0;
            while i < map.len()
                invariant
                    i <= map.pairs().len(),
                    *value == Value::Object(*map),
                    entries == entries_view(*map),
                    m == aliases_view(*aliases),
                    steps == limit as nat,
                    sorted_pairs(map.pairs()),
                    out.pairs().len() == i,
                    forall|j: int|
                        0 <= j < i ==> (#[trigger] out.pairs()[j]).0 == map.pairs()[j].0
                            && out.pairs()[j].1@ == rewritten(entries[j].1, m, steps),
                decreases map.pairs().len() - i,
            {
                proof {
                    object_smaller(*value, i as int);
                }
                let item = rewrite_refs_in_value(map.value_at(i), aliases, limit);
                let key = map.key_at(i).to_owned();
                assert forall|j: int| 0 <= j < out.pairs().len() implies lex_less(
                    #[trigger] out.pairs()[j].0,
                    key@,
                ) by {
                    assert(lex_less(map.pairs()[j].0, map.pairs()[i as int].0));
                }
                out.push(key, item);
                i = i + 1;
            }
            proof {
                let want = rewritten(value@, m, steps);
                assert(want is Object);
                assert(entries_view(out) =~= want->Object_0);
            }
            Value::Object(out)
        },
        Value::Array(items) => {
            let ghost docs = values_view(items@);
            let mut out: Vec<Value> = Vec::new();
            let mut i: usize = 0;
            while i < items.len()
                invariant
                    i <= items@.len(),
                    *value == Value::Array(*items),
                    docs == values_view(items@),
                    m == aliases_view(*aliases),
                    steps == limit as nat,
                    out@.len() == i,
                    forall|j: int| 0 <= j < i ==> (#[trigger] out@[j])@ == rewritten(docs[j], m, steps),
                decreases items.len() - i,
            {
                proof {
                    array_smaller(*value, i as int);
                }
                out.push(rewrite_refs_in_value(&items[i], aliases, limit));
                i = i + 1;
            }
            proof {
                let want = rewritten(value@, m, steps);
                assert(want is List);
                assert(values_view(out@) =~= want->List_0);
            }
            Value::Array(out)
        },
        _ => value.clone(),
    }
}

fn rewrite_dependencies(ids: &Vec<String>, aliases: &StrMap<String>, limit: usize) -> (r: Vec<String>)
    ensures
        sorted_texts(texts_view(r@)),
        texts_view(r@).to_set() == followed_set(
            texts_view(ids@),
            aliases_view(*aliases),
            limit as nat,
        ),
{
    let ghost m = aliases_view(*aliases);
    let ghost steps = limit as nat;
    let ghost all = texts_view(ids@);
    let mut set = StrSet::new();
    let mut i: usize = 0;
    assert(set@ =~= followed_set(all.take(0), m, steps));
    while i < ids.len()
        invariant
            i <= ids@.len(),
            all == texts_view(ids@),
            m == aliases_view(*aliases),
            steps == limit as nat,
            set@ == followed_set(all.take(i as int), m, steps),
        decreases ids.len() - i,
    {
        let id = canonical_node(ids[i].as_str(), aliases, limit);
        let ghost x = id@;
        set.insert(id);
        proof {
            let seen = all.take(i as int);
            let next = all.take(i + 1);
            assert forall|k: Seq<char>| followed_set(next, m, steps).contains(k) <==> followed_set(
                seen,
                m,
                steps,
            ).insert(x).contains(k) by {
                if followed_set(seen, m, steps).contains(k) {
                    let p = choose|p: int|
                        0 <= p < seen.len() && k == follow(m, #[trigger] seen[p], steps);
                    assert(next[p] == seen[p]);
                }
                if followed_set(next, m, steps).contains(k) {
                    let p = choose|p: int|
                        0 <= p < next.len() && k == follow(m, #[trigger] next[p], steps);
                    if p < i {
                        assert(seen[p] == next[p]);
                    }
                }
                assert(next[i as int] == ids@[i as int]@);
            }
            assert(set@ =~= followed_set(next, m, steps));
        }
        i = i + 1;
    }
    assert(all.take(i as int) =~= all);
    set_items(&set)
}

/// The elements of a set in order.
pub fn set_items(set: &StrSet) -> (r: Vec<String>)
    ensures
        texts_view(r@) == set.items(),
        sorted_texts(texts_view(r@)),
        texts_view(r@).to_set() == set@,
{
    let mut out: Vec<String> = Vec::new();
    let mut i: usize = 0;
    set.prove_sorted();
    while i < set.len()
        invariant
            i <= set.items().len(),
            out@.len() == i,
            forall|j: int| 0 <= j < i ==> (#[trigger] out@[j])@ == set.items()[j],
        decreases set.items().len() - i,
    {
        out.push(set.item_at(i).to_owned());
        i = i + 1;
    }
    assert(texts_view(out@) =~= set.items());
    out
}

/// A copy of the node with every reference and dependency redirected.
pub fn rewrite_node_aliases(node: &Node, aliases: &StrMap<String>, limit: usize) -> (r: Node)
    ensures
        is_rewritten_node(node@, r@, aliases_view(*aliases), limit as nat),
{
    Node {
        id: node.id.clone(),
        tool: node.tool.clone(),
        input: rewrite_refs_in_value(&node.input, aliases, limit),
        depends_on: rewrite_dependencies(&node.depends_on, aliases, limit),
        for_each: match &node.for_each {
            Some(items) => Some(rewrite_value_ref(items, aliases, limit)),
            None => None,
        },
        when: match &node.when {
            Some(when) => Some(
                When {
                    target: rewrite_value_ref(&when.target, aliases, limit),
                    equals: match &when.equals {
                        Some(v) => Some(v.clone()),
                        None => None,
                    },
                    not: when.not,
                },
            ),
            None => None,
        },
    }
}

} // verus!
