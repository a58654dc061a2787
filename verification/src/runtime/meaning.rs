//! What a plan means, whatever the schedule: the value of a node as a
//! function of the values that it refers to.

use vstd::prelude::*;

use crate::json::Json;
use crate::plan::{NodeV, WhenV};
use crate::refs::{RefErrorV, RefV, LITERAL_KEY, REF_KEY};

verus! {

use crate::optimizer::rewrite::{follow, object_ref, rewritten, rewritten_ref, Aliases};
use crate::ordered::{has_key, lookup};
use crate::refs::{
    is_literal_object, node_id_error, parse_of_rendered, parse_ref, ref_text, refs_in,
    refs_in_entries, refs_in_entry, refs_in_items, unescaped_segment,
};
use crate::runtime::model::{data_deps, fan_out_items, when_verdict};
use crate::runtime::resolve::{
    filled, marker_text, resolved, resolved_entries, resolved_items, resolved_ref,
};
use crate::graph::validate::referenced_nodes;
use crate::text::split_on;

/// The outputs of nodes.
pub type Outputs = Map<Seq<char>, Json>;

/// What the tools answer: an output for every tool and input.
pub type ToolsV = spec_fn(Seq<char>, Json) -> Json;

/// Every output of `a` is an output of `b`.
pub open spec fn extends(b: Outputs, a: Outputs) -> bool {
    forall|id: Seq<char>| #[trigger]
        a.dom().contains(id) ==> b.dom().contains(id) && b[id] == a[id]
}

/// The outputs agree on the node.
pub open spec fn agree_on(a: Outputs, b: Outputs, id: Seq<char>) -> bool {
    &&& a.dom().contains(id) == b.dom().contains(id)
    &&& a.dom().contains(id) ==> a[id] == b[id]
}

/// The outputs under the names that nodes had before they were replaced.
pub open spec fn pulled(outputs: Outputs, aliases: Aliases, steps: nat) -> Outputs {
    Map::new(
        |id: Seq<char>| outputs.dom().contains(follow(aliases, id, steps)),
        |id: Seq<char>| outputs[follow(aliases, id, steps)],
    )
}

/// Both succeed with the same value, or both fail.
pub open spec fn same_ok<T, E>(a: Result<T, E>, b: Result<T, E>) -> bool {
    match (a, b) {
        (Ok(x), Ok(y)) => x == y,
        (Err(_), Err(_)) => true,
        _ => false,
    }
}

/// The document has valid references, and each satisfies the condition.
pub open spec fn refs_all(j: Json, good: spec_fn(RefV) -> bool) -> bool {
    match refs_in(j) {
        Ok(refs) => forall|r: RefV| #[trigger] refs.contains(r) ==> good(r),
        Err(_) => false,
    }
}

// ---------------------------------------------------------------------------
// References of parts
// ---------------------------------------------------------------------------

proof fn lemma_contains_sum(a: Seq<RefV>, b: Seq<RefV>, r: RefV)
    ensures
        (a + b).contains(r) <==> a.contains(r) || b.contains(r),
{
    if a.contains(r) {
        let i = choose|i: int| 0 <= i < a.len() && a[i] == r;
        assert((a + b)[i] == r);
    }
    if b.contains(r) {
        let i = choose|i: int| 0 <= i < b.len() && b[i] == r;
        assert((a + b)[a.len() + i] == r);
    }
}

proof fn lemma_item_refs(items: Seq<Json>, i: int, good: spec_fn(RefV) -> bool)
    requires
        0 <= i < items.len(),
        refs_all(Json::List(items), good),
    ensures
        refs_all(items[i], good),
    decreases items.len(),
{
    let n = items.len() as int;
    let front = items.subrange(0, n - 1);
    let a = refs_in_items(front);
    let b = refs_in(items[n - 1]);
    assert(a is Ok && b is Ok);
    let all = refs_in(Json::List(items))->Ok_0;
    assert(all == a->Ok_0 + b->Ok_0);
    assert forall|r: RefV| #[trigger] a->Ok_0.contains(r) implies good(r) by {
        lemma_contains_sum(a->Ok_0, b->Ok_0, r);
        assert(all.contains(r));
    }
    if i == n - 1 {
        assert forall|r: RefV| #[trigger] b->Ok_0.contains(r) implies good(r) by {
            lemma_contains_sum(a->Ok_0, b->Ok_0, r);
        assert(all.contains(r));
        }
    } else {
        assert(refs_in(Json::List(front)) == a);
        lemma_item_refs(front, i, good);
    }
}

proof fn lemma_entry_refs(entries: Seq<(Seq<char>, Json)>, i: int, good: spec_fn(RefV) -> bool)
    requires
        0 <= i < entries.len(),
        match refs_in_entries(entries) {
            Ok(refs) => forall|r: RefV| #[trigger] refs.contains(r) ==> good(r),
            Err(_) => false,
        },
    ensures
        refs_all(entries[i].1, good),
    decreases entries.len(),
{
    let n = entries.len() as int;
    let front = entries.subrange(0, n - 1);
    let a = refs_in_entries(front);
    let b = refs_in_entry(entries[n - 1]);
    assert(b == refs_in(entries[n - 1].1));
    assert(a is Ok && b is Ok);
    let all = refs_in_entries(entries)->Ok_0;
    assert(all == a->Ok_0 + b->Ok_0);
    assert forall|r: RefV| #[trigger] a->Ok_0.contains(r) implies good(r) by {
        lemma_contains_sum(a->Ok_0, b->Ok_0, r);
        assert(all.contains(r));
    }
    if i == n - 1 {
        assert forall|r: RefV| #[trigger] b->Ok_0.contains(r) implies good(r) by {
            lemma_contains_sum(a->Ok_0, b->Ok_0, r);
        assert(all.contains(r));
        }
    } else {
        lemma_entry_refs(front, i, good);
    }
}

// ---------------------------------------------------------------------------
// Resolution part by part
// ---------------------------------------------------------------------------

proof fn lemma_items(items: Seq<Json>, o: Outputs, from: int)
    requires
        0 <= from <= items.len(),
    ensures
        resolved_items(items, o, from) is Ok <==> forall|i: int|
            from <= i < items.len() ==> (#[trigger] resolved(items[i], o)) is Ok,
        resolved_items(items, o, from) matches Ok(out) ==> out == Seq::new(
            (items.len() - from) as nat,
            |k: int| resolved(items[from + k], o)->Ok_0,
        ),
    decreases items.len() - from,
{
    if from < items.len() {
        lemma_items(items, o, from + 1);
        let whole = resolved_items(items, o, from);
        let rest = resolved_items(items, o, from + 1);
        if whole is Ok {
            assert forall|i: int| from <= i < items.len() implies (#[trigger] resolved(
                items[i],
                o,
            )) is Ok by {
                if i > from {
                    assert(rest is Ok);
                }
            }
            assert(whole->Ok_0 =~= Seq::new(
                (items.len() - from) as nat,
                |k: int| resolved(items[from + k], o)->Ok_0,
            ));
        } else {
            if forall|i: int| from <= i < items.len() ==> (#[trigger] resolved(items[i], o)) is Ok {
                assert(resolved(items[from], o) is Ok);
                assert(rest is Ok);
            }
        }
    } else {
        assert(resolved_items(items, o, from) is Ok);
        assert(resolved_items(items, o, from)->Ok_0 =~= Seq::new(
            0,
            |k: int| resolved(items[from + k], o)->Ok_0,
        ));
    }
}

proof fn lemma_entries(entries: Seq<(Seq<char>, Json)>, o: Outputs, from: int)
    requires
        0 <= from <= entries.len(),
    ensures
        resolved_entries(entries, o, from) is Ok <==> forall|i: int|
            from <= i < entries.len() ==> (#[trigger] resolved(entries[i].1, o)) is Ok,
        resolved_entries(entries, o, from) matches Ok(out) ==> out == Seq::new(
            (entries.len() - from) as nat,
            |k: int| (entries[from + k].0, resolved(entries[from + k].1, o)->Ok_0),
        ),
    decreases entries.len() - from,
{
    if from < entries.len() {
        lemma_entries(entries, o, from + 1);
        let whole = resolved_entries(entries, o, from);
        let rest = resolved_entries(entries, o, from + 1);
        if whole is Ok {
            assert forall|i: int| from <= i < entries.len() implies (#[trigger] resolved(
                entries[i].1,
                o,
            )) is Ok by {
                if i > from {
                    assert(rest is Ok);
                }
            }
            assert(whole->Ok_0 =~= Seq::new(
                (entries.len() - from) as nat,
                |k: int| (entries[from + k].0, resolved(entries[from + k].1, o)->Ok_0),
            ));
        } else {
            if forall|i: int|
                from <= i < entries.len() ==> (#[trigger] resolved(entries[i].1, o)) is Ok {
                assert(resolved(entries[from].1, o) is Ok);
                assert(rest is Ok);
            }
        }
    } else {
        assert(resolved_entries(entries, o, from) is Ok);
        assert(resolved_entries(entries, o, from)->Ok_0 =~= Seq::new(
            0,
            |k: int| (entries[from + k].0, resolved(entries[from + k].1, o)->Ok_0),
        ));
    }
}

/// Resolving the parts in the same way resolves the list in the same way.
proof fn lemma_list_same(p: Seq<Json>, a: Outputs, q: Seq<Json>, b: Outputs)
    requires
        p.len() == q.len(),
        forall|i: int|
            0 <= i < p.len() ==> same_ok(#[trigger] resolved(p[i], a), resolved(q[i], b)),
    ensures
        same_ok(resolved(Json::List(p), a), resolved(Json::List(q), b)),
{
    lemma_items(p, a, 0);
    lemma_items(q, b, 0);
    let x = resolved_items(p, a, 0);
    let y = resolved_items(q, b, 0);
    if x is Ok {
        assert forall|i: int| 0 <= i < q.len() implies (#[trigger] resolved(q[i], b)) is Ok by {
            assert(same_ok(resolved(p[i], a), resolved(q[i], b)));
        }
    }
    if y is Ok {
        assert forall|i: int| 0 <= i < p.len() implies (#[trigger] resolved(p[i], a)) is Ok by {
            assert(same_ok(resolved(p[i], a), resolved(q[i], b)));
        }
    }
    if x is Ok {
        assert forall|i: int| 0 <= i < p.len() implies x->Ok_0[i] == y->Ok_0[i] by {
            assert(same_ok(resolved(p[i], a), resolved(q[i], b)));
        }
        assert(x->Ok_0 =~= y->Ok_0);
    }
}

/// Resolving the parts in the same way resolves the object in the same way.
proof fn lemma_entries_same(
    p: Seq<(Seq<char>, Json)>,
    a: Outputs,
    q: Seq<(Seq<char>, Json)>,
    b: Outputs,
)
    requires
        p.len() == q.len(),
        forall|i: int| 0 <= i < p.len() ==> (#[trigger] p[i]).0 == q[i].0,
        forall|i: int|
            0 <= i < p.len() ==> same_ok(#[trigger] resolved(p[i].1, a), resolved(q[i].1, b)),
    ensures
        same_ok(resolved_entries(p, a, 0), resolved_entries(q, b, 0)),
{
    lemma_entries(p, a, 0);
    lemma_entries(q, b, 0);
    let x = resolved_entries(p, a, 0);
    let y = resolved_entries(q, b, 0);
    if x is Ok {
        assert forall|i: int| 0 <= i < q.len() implies (#[trigger] resolved(q[i].1, b)) is Ok by {
            assert(same_ok(resolved(p[i].1, a), resolved(q[i].1, b)));
        }
    }
    if y is Ok {
        assert forall|i: int| 0 <= i < p.len() implies (#[trigger] resolved(p[i].1, a)) is Ok by {
            assert(same_ok(resolved(p[i].1, a), resolved(q[i].1, b)));
        }
    }
    if x is Ok {
        assert forall|i: int| 0 <= i < p.len() implies x->Ok_0[i] == y->Ok_0[i] by {
            assert(same_ok(resolved(p[i].1, a), resolved(q[i].1, b)));
            assert(p[i].0 == q[i].0);
        }
        assert(x->Ok_0 =~= y->Ok_0);
    }
}

// ---------------------------------------------------------------------------
// What resolution depends on
// ---------------------------------------------------------------------------

/// Resolving a document reads nothing but the outputs of the nodes that it
/// refers to.
pub proof fn resolution_reads_referenced_nodes(j: Json, a: Outputs, b: Outputs)
    requires
        refs_all(j, |r: RefV| agree_on(a, b, r.node)),
    ensures
        same_ok(resolved(j, a), resolved(j, b)),
    decreases j,
{
    let good = |r: RefV| agree_on(a, b, r.node);
    match j {
        Json::Object(entries) => {
            if is_literal_object(entries) {
            } else if has_key(entries, REF_KEY@) {
                let r = refs_in(j)->Ok_0[0];
                assert(refs_in(j)->Ok_0.contains(r));
                assert(good(r));
            } else {
                assert forall|i: int| 0 <= i < entries.len() implies same_ok(
                    #[trigger] resolved(entries[i].1, a),
                    resolved(entries[i].1, b),
                ) by {
                    lemma_entry_refs(entries, i, good);
                    assert(decreases_to!(entries => entries[i]));
                    resolution_reads_referenced_nodes(entries[i].1, a, b);
                }
                lemma_entries_same(entries, a, entries, b);
            }
        },
        Json::List(items) => {
            assert forall|i: int| 0 <= i < items.len() implies same_ok(
                #[trigger] resolved(items[i], a),
                resolved(items[i], b),
            ) by {
                lemma_item_refs(items, i, good);
                resolution_reads_referenced_nodes(items[i], a, b);
            }
            lemma_list_same(items, a, items, b);
        },
        _ => {},
    }
}

/// What resolves keeps its value when more outputs are known.
pub proof fn resolution_is_stable(j: Json, a: Outputs, b: Outputs)
    requires
        extends(b, a),
        resolved(j, a) is Ok,
    ensures
        resolved(j, b) == resolved(j, a),
    decreases j,
{
    match j {
        Json::Object(entries) => {
            if !is_literal_object(entries) && marker_text(entries, REF_KEY@) is None {
                lemma_entries(entries, a, 0);
                lemma_entries(entries, b, 0);
                assert forall|i: int| 0 <= i < entries.len() implies same_ok(
                    #[trigger] resolved(entries[i].1, a),
                    resolved(entries[i].1, b),
                ) by {
                    assert(decreases_to!(entries => entries[i]));
                    resolution_is_stable(entries[i].1, a, b);
                }
                lemma_entries_same(entries, a, entries, b);
            }
        },
        Json::List(items) => {
            lemma_items(items, a, 0);
            assert forall|i: int| 0 <= i < items.len() implies same_ok(
                #[trigger] resolved(items[i], a),
                resolved(items[i], b),
            ) by {
                resolution_is_stable(items[i], a, b);
            }
            lemma_list_same(items, a, items, b);
        },
        _ => {},
    }
}

/// What resolves refers to nodes with outputs only.
pub proof fn resolution_needs_referenced_nodes(j: Json, o: Outputs)
    requires
        resolved(j, o) is Ok,
        refs_in(j) is Ok,
    ensures
        forall|r: RefV| #[trigger] refs_in(j)->Ok_0.contains(r) ==> o.dom().contains(r.node),
    decreases j,
{
    match j {
        Json::Object(entries) => {
            if is_literal_object(entries) {
            } else if has_key(entries, REF_KEY@) {
            } else {
                lemma_entries(entries, o, 0);
                assert forall|i: int| 0 <= i < entries.len() implies refs_all(
                    (#[trigger] entries[i]).1,
                    |r: RefV| o.dom().contains(r.node),
                ) by {
                    lemma_entry_refs(entries, i, |r: RefV| true);
                    assert(resolved(entries[i].1, o) is Ok);
                    assert(decreases_to!(entries => entries[i]));
                    resolution_needs_referenced_nodes(entries[i].1, o);
                }
                lemma_entries_all(entries, |r: RefV| o.dom().contains(r.node));
            }
        },
        Json::List(items) => {
            lemma_items(items, o, 0);
            assert forall|i: int| 0 <= i < items.len() implies refs_all(
                #[trigger] items[i],
                |r: RefV| o.dom().contains(r.node),
            ) by {
                lemma_item_refs(items, i, |r: RefV| true);
                assert(resolved(items[i], o) is Ok);
                resolution_needs_referenced_nodes(items[i], o);
            }
            lemma_items_all(items, |r: RefV| o.dom().contains(r.node));
        },
        _ => {},
    }
}

proof fn lemma_items_all(items: Seq<Json>, good: spec_fn(RefV) -> bool)
    requires
        forall|i: int| 0 <= i < items.len() ==> refs_all(#[trigger] items[i], good),
    ensures
        refs_all(Json::List(items), good),
    decreases items.len(),
{
    if items.len() > 0 {
        let n = items.len() as int;
        let front = items.subrange(0, n - 1);
        assert forall|i: int| 0 <= i < front.len() implies refs_all(#[trigger] front[i], good) by {
            assert(front[i] == items[i]);
        }
        lemma_items_all(front, good);
        assert(refs_all(items[n - 1], good));
        let a = refs_in_items(front)->Ok_0;
        let b = refs_in(items[n - 1])->Ok_0;
        assert forall|r: RefV| #[trigger] (a + b).contains(r) implies good(r) by {
            lemma_contains_sum(a, b, r);
        }
    }
}

proof fn lemma_entries_all(entries: Seq<(Seq<char>, Json)>, good: spec_fn(RefV) -> bool)
    requires
        forall|i: int| 0 <= i < entries.len() ==> refs_all((#[trigger] entries[i]).1, good),
    ensures
        match refs_in_entries(entries) {
            Ok(refs) => forall|r: RefV| #[trigger] refs.contains(r) ==> good(r),
            Err(_) => false,
        },
    decreases entries.len(),
{
    if entries.len() > 0 {
        let n = entries.len() as int;
        let front = entries.subrange(0, n - 1);
        assert forall|i: int| 0 <= i < front.len() implies refs_all(
            (#[trigger] front[i]).1,
            good,
        ) by {
            assert(front[i] == entries[i]);
        }
        lemma_entries_all(front, good);
        assert(refs_all(entries[n - 1].1, good));
        let a = refs_in_entries(front)->Ok_0;
        let b = refs_in_entry(entries[n - 1])->Ok_0;
        assert forall|r: RefV| #[trigger] (a + b).contains(r) implies good(r) by {
            lemma_contains_sum(a, b, r);
        }
    }
}

// ---------------------------------------------------------------------------
// Redirected references
// ---------------------------------------------------------------------------

proof fn lemma_parsed(t: Seq<char>)
    requires
        parse_ref(t) is Ok,
    ensures
        forall|i: int|
            0 <= i < parse_ref(t)->Ok_0.path.len() ==> (#[trigger] parse_ref(t)->Ok_0.path[i]).len()
                > 0,
{
    let parts = split_on(t, '.');
    let r = parse_ref(t)->Ok_0;
    assert forall|i: int| 0 <= i < r.path.len() implies (#[trigger] r.path[i]).len() > 0 by {
        assert(parts[i + 2].len() != 0);
        assert(r.path[i] == unescaped_segment(parts[i + 2]));
    }
}

/// A redirected reference gives what the reference gave under the old names.
pub proof fn redirected_refs_agree(r: RefV, o: Outputs, aliases: Aliases, steps: nat)
    ensures
        same_ok(
            resolved_ref(rewritten_ref(r, aliases, steps), o),
            resolved_ref(r, pulled(o, aliases, steps)),
        ),
{
}

/// A document with redirected references resolves to what it resolved to
/// under the old names.
pub proof fn redirected_documents_agree(j: Json, o: Outputs, aliases: Aliases, steps: nat)
    requires
        refs_all(j, |r: RefV| node_id_error(follow(aliases, r.node, steps)) is None),
    ensures
        same_ok(
            resolved(rewritten(j, aliases, steps), o),
            resolved(j, pulled(o, aliases, steps)),
        ),
    decreases j,
{
    let good = |r: RefV| node_id_error(follow(aliases, r.node, steps)) is None;
    let before = pulled(o, aliases, steps);
    match j {
        Json::Object(entries) => {
            if is_literal_object(entries) {
            } else if has_key(entries, REF_KEY@) {
                let t = lookup(entries, REF_KEY@)->0->Text_0;
                let r = parse_ref(t)->Ok_0;
                assert(refs_in(j)->Ok_0[0] == r);
                assert(refs_in(j)->Ok_0.contains(r));
                assert(good(r));
                lemma_parsed(t);
                let n = rewritten_ref(r, aliases, steps);
                parse_of_rendered(n);
                let text = Json::Text(ref_text(n));
                let one: Seq<(Seq<char>, Json)> = seq![(REF_KEY@, text)];
                assert(object_ref(entries) == Some(r));
                assert(rewritten(j, aliases, steps) == Json::Object(one));
                assert(one[0].0 == REF_KEY@);
                assert(lookup(one, REF_KEY@) == Some(text));
                lemma_keys_differ();
                assert(!is_literal_object(one)) by {
                    if has_key(one, LITERAL_KEY@) {
                        let i = choose|i: int| 0 <= i < one.len() && (#[trigger] one[i]).0
                            == LITERAL_KEY@;
                        assert(i == 0);
                    }
                }
                assert(marker_text(one, REF_KEY@) == Some(ref_text(n)));
                redirected_refs_agree(r, o, aliases, steps);
            } else {
                let out = rewritten(j, aliases, steps)->Object_0;
                assert(object_ref(entries) is None);
                assert(out.len() == entries.len());
                assert forall|i: int| 0 <= i < entries.len() implies (#[trigger] out[i]).0
                    == entries[i].0 && out[i].1 == rewritten(entries[i].1, aliases, steps) by {}
                assert forall|k: Seq<char>| has_key(out, k) implies has_key(entries, k) by {
                    let i = choose|i: int| 0 <= i < out.len() && (#[trigger] out[i]).0 == k;
                    assert(entries[i].0 == k);
                }
                assert(!has_key(out, REF_KEY@));
                assert(!is_literal_object(out)) by {
                    if out.len() == 1 && has_key(out, LITERAL_KEY@) {
                        assert(has_key(entries, LITERAL_KEY@));
                    }
                }
                assert forall|i: int| 0 <= i < out.len() implies same_ok(
                    #[trigger] resolved(out[i].1, o),
                    resolved(entries[i].1, before),
                ) by {
                    lemma_entry_refs(entries, i, good);
                    assert(decreases_to!(entries => entries[i]));
                    redirected_documents_agree(entries[i].1, o, aliases, steps);
                }
                lemma_entries_same(out, o, entries, before);
            }
        },
        Json::List(items) => {
            let out = rewritten(j, aliases, steps)->List_0;
            assert(out.len() == items.len());
            assert forall|i: int| 0 <= i < out.len() implies same_ok(
                #[trigger] resolved(out[i], o),
                resolved(items[i], before),
            ) by {
                lemma_item_refs(items, i, good);
                assert(out[i] == rewritten(items[i], aliases, steps));
                redirected_documents_agree(items[i], o, aliases, steps);
            }
            lemma_list_same(out, o, items, before);
        },
        _ => {},
    }
}

/// References with the replacements made.
pub open spec fn rewritten_refs(refs: Seq<RefV>, aliases: Aliases, steps: nat) -> Seq<RefV> {
    Seq::new(refs.len(), |i: int| rewritten_ref(refs[i], aliases, steps))
}

proof fn lemma_item_references(items: Seq<Json>, out: Seq<Json>, aliases: Aliases, steps: nat)
    requires
        out.len() == items.len(),
        refs_in_items(items) is Ok,
        forall|i: int|
            0 <= i < items.len() ==> refs_in(#[trigger] out[i]) == Ok::<Seq<RefV>, RefErrorV>(
                rewritten_refs(refs_in(items[i])->Ok_0, aliases, steps),
            ),
    ensures
        refs_in_items(out) == Ok::<Seq<RefV>, RefErrorV>(
            rewritten_refs(refs_in_items(items)->Ok_0, aliases, steps),
        ),
    decreases items.len(),
{
    let n = items.len() as int;
    if n == 0 {
        assert(rewritten_refs(Seq::empty(), aliases, steps) =~= Seq::empty());
    } else {
        let front = items.subrange(0, n - 1);
        let out_front = out.subrange(0, n - 1);
        assert(refs_in_items(front) is Ok && refs_in(items[n - 1]) is Ok);
        assert forall|i: int| 0 <= i < front.len() implies refs_in(#[trigger] out_front[i]) == Ok::<
            Seq<RefV>,
            RefErrorV,
        >(rewritten_refs(refs_in(front[i])->Ok_0, aliases, steps)) by {
            assert(out_front[i] == out[i]);
        }
        lemma_item_references(front, out_front, aliases, steps);
        let a = refs_in_items(front)->Ok_0;
        let b = refs_in(items[n - 1])->Ok_0;
        assert(refs_in(out[n - 1]) is Ok);
        assert(rewritten_refs(a, aliases, steps) + rewritten_refs(b, aliases, steps)
            =~= rewritten_refs(a + b, aliases, steps));
    }
}

proof fn lemma_entry_references(
    entries: Seq<(Seq<char>, Json)>,
    out: Seq<(Seq<char>, Json)>,
    aliases: Aliases,
    steps: nat,
)
    requires
        out.len() == entries.len(),
        refs_in_entries(entries) is Ok,
        forall|i: int|
            0 <= i < entries.len() ==> refs_in((#[trigger] out[i]).1) == Ok::<Seq<RefV>, RefErrorV>(
                rewritten_refs(refs_in(entries[i].1)->Ok_0, aliases, steps),
            ),
    ensures
        refs_in_entries(out) == Ok::<Seq<RefV>, RefErrorV>(
            rewritten_refs(refs_in_entries(entries)->Ok_0, aliases, steps),
        ),
    decreases entries.len(),
{
    let n = entries.len() as int;
    if n == 0 {
        assert(rewritten_refs(Seq::empty(), aliases, steps) =~= Seq::empty());
    } else {
        let front = entries.subrange(0, n - 1);
        let out_front = out.subrange(0, n - 1);
        assert(refs_in_entry(entries[n - 1]) == refs_in(entries[n - 1].1));
        assert(refs_in_entry(out[n - 1]) == refs_in(out[n - 1].1));
        assert(refs_in_entries(front) is Ok && refs_in(entries[n - 1].1) is Ok);
        assert forall|i: int| 0 <= i < front.len() implies refs_in((#[trigger] out_front[i]).1)
            == Ok::<Seq<RefV>, RefErrorV>(
            rewritten_refs(refs_in(front[i].1)->Ok_0, aliases, steps),
        ) by {
            assert(out_front[i] == out[i]);
        }
        lemma_entry_references(front, out_front, aliases, steps);
        let a = refs_in_entries(front)->Ok_0;
        let b = refs_in(entries[n - 1].1)->Ok_0;
        assert(rewritten_refs(a, aliases, steps) + rewritten_refs(b, aliases, steps)
            =~= rewritten_refs(a + b, aliases, steps));
    }
}

/// Redirecting the references of a document redirects its references and
/// adds none.
pub proof fn redirected_references(j: Json, aliases: Aliases, steps: nat)
    requires
        refs_all(j, |r: RefV| node_id_error(follow(aliases, r.node, steps)) is None),
    ensures
        refs_in(rewritten(j, aliases, steps)) == Ok::<Seq<RefV>, RefErrorV>(
            rewritten_refs(refs_in(j)->Ok_0, aliases, steps),
        ),
    decreases j,
{
    let good = |r: RefV| node_id_error(follow(aliases, r.node, steps)) is None;
    match j {
        Json::Object(entries) => {
            if is_literal_object(entries) {
                assert(rewritten_refs(Seq::empty(), aliases, steps) =~= Seq::empty());
            } else if has_key(entries, REF_KEY@) {
                let t = lookup(entries, REF_KEY@)->0->Text_0;
                let r = parse_ref(t)->Ok_0;
                assert(refs_in(j)->Ok_0[0] == r);
                assert(refs_in(j)->Ok_0.contains(r));
                assert(good(r));
                lemma_parsed(t);
                let n = rewritten_ref(r, aliases, steps);
                parse_of_rendered(n);
                let text = Json::Text(ref_text(n));
                let one: Seq<(Seq<char>, Json)> = seq![(REF_KEY@, text)];
                assert(object_ref(entries) == Some(r));
                assert(rewritten(j, aliases, steps) == Json::Object(one));
                assert(one[0].0 == REF_KEY@);
                assert(has_key(one, REF_KEY@));
                assert(lookup(one, REF_KEY@) == Some(text));
                lemma_keys_differ();
                assert(!is_literal_object(one)) by {
                    if has_key(one, LITERAL_KEY@) {
                        let i = choose|i: int| 0 <= i < one.len() && (#[trigger] one[i]).0
                            == LITERAL_KEY@;
                        assert(i == 0);
                    }
                }
                assert(rewritten_refs(seq![r], aliases, steps) =~= seq![n]);
            } else {
                let out = rewritten(j, aliases, steps)->Object_0;
                assert(object_ref(entries) is None);
                assert(out.len() == entries.len());
                assert forall|i: int| 0 <= i < entries.len() implies (#[trigger] out[i]).0
                    == entries[i].0 && out[i].1 == rewritten(entries[i].1, aliases, steps) by {}
                assert forall|k: Seq<char>| has_key(out, k) implies has_key(entries, k) by {
                    let i = choose|i: int| 0 <= i < out.len() && (#[trigger] out[i]).0 == k;
                    assert(entries[i].0 == k);
                }
                assert(!has_key(out, REF_KEY@));
                assert(!is_literal_object(out)) by {
                    if out.len() == 1 && has_key(out, LITERAL_KEY@) {
                        assert(has_key(entries, LITERAL_KEY@));
                    }
                }
                assert forall|i: int| 0 <= i < entries.len() implies refs_in(
                    (#[trigger] out[i]).1,
                ) == Ok::<Seq<RefV>, RefErrorV>(
                    rewritten_refs(refs_in(entries[i].1)->Ok_0, aliases, steps),
                ) by {
                    lemma_entry_refs(entries, i, good);
                    assert(decreases_to!(entries => entries[i]));
                    redirected_references(entries[i].1, aliases, steps);
                }
                lemma_entry_references(entries, out, aliases, steps);
            }
        },
        Json::List(items) => {
            let out = rewritten(j, aliases, steps)->List_0;
            assert(out.len() == items.len());
            assert forall|i: int| 0 <= i < items.len() implies refs_in(#[trigger] out[i]) == Ok::<
                Seq<RefV>,
                RefErrorV,
            >(rewritten_refs(refs_in(items[i])->Ok_0, aliases, steps)) by {
                lemma_item_refs(items, i, good);
                assert(out[i] == rewritten(items[i], aliases, steps));
                redirected_references(items[i], aliases, steps);
            }
            lemma_item_references(items, out, aliases, steps);
        },
        _ => {
            assert(rewritten_refs(Seq::empty(), aliases, steps) =~= Seq::empty());
        },
    }
}

proof fn lemma_keys_differ()
    ensures
        REF_KEY@ != LITERAL_KEY@,
{
    reveal_strlit("$ref");
    reveal_strlit("$literal");
    assert("$ref"@.len() != "$literal"@.len());
}

// ---------------------------------------------------------------------------
// Nodes
// ---------------------------------------------------------------------------

/// The node can be called: what it refers to has outputs, its condition
/// holds, and its input and items resolve.
pub open spec fn callable(node: NodeV, o: Outputs) -> bool {
    &&& data_deps(node).subset_of(o.dom())
    &&& node.when matches Some(w) ==> when_verdict(w, o)
        == Ok::<bool, crate::adapters::api::ToolErrorV>(true)
    &&& resolved(node.input, o) is Ok
    &&& fan_out_items(node, o) is Ok
}

/// What the tools answer the node. A fan-out node collects the answers for
/// its items.
pub open spec fn value_of(tools: ToolsV, node: NodeV, o: Outputs) -> Json {
    let input = resolved(node.input, o)->Ok_0;
    match fan_out_items(node, o)->Ok_0 {
        None => tools(node.tool, input),
        Some(items) => Json::List(
            Seq::new(items.len(), |i: int| tools(node.tool, filled(input, items[i])->Ok_0)),
        ),
    }
}

/// Verdicts and fan-outs are stable when more outputs are known.
pub proof fn callable_is_stable(tools: ToolsV, node: NodeV, a: Outputs, b: Outputs)
    requires
        extends(b, a),
        callable(node, a),
    ensures
        callable(node, b),
        value_of(tools, node, b) == value_of(tools, node, a),
{
    resolution_is_stable(node.input, a, b);
}

/// A verdict is stable when more outputs are known.
pub proof fn verdict_is_stable(w: WhenV, a: Outputs, b: Outputs)
    requires
        extends(b, a),
        when_verdict(w, a) is Ok,
    ensures
        when_verdict(w, b) == when_verdict(w, a),
{
}

/// A node that is prepared can be called.
pub proof fn prepared_nodes_are_callable(node: NodeV, o: Outputs)
    requires
        resolved(node.input, o) is Ok,
        fan_out_items(node, o) is Ok,
        node.when matches Some(w) ==> when_verdict(w, o)
            == Ok::<bool, crate::adapters::api::ToolErrorV>(true),
    ensures
        callable(node, o),
{
    let refs = match refs_in(node.input) {
        Ok(refs) => refs,
        Err(_) => Seq::empty(),
    };
    if refs_in(node.input) is Ok {
        resolution_needs_referenced_nodes(node.input, o);
    }
    let names = referenced_nodes(node, refs);
    assert forall|d: Seq<char>| data_deps(node).contains(d) implies o.dom().contains(d) by {
        let i = choose|i: int| 0 <= i < names.len() && names[i] == d;
        if i < refs.len() {
            assert(refs.contains(refs[i]));
        }
    }
}

} // verus!
