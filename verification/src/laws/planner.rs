//! Intents and suggestions: what a planner's input compiles to.

use vstd::prelude::*;

use crate::plan::{NodeV, PlanV, ToolSpecV, CURRENT_VERSION};
use crate::planner::intent::{IntentV, PlannerErrorV, StepV};
use crate::planner::mining::CallV;

verus! {

use crate::fields::{put, put_stores};
use crate::ordered::{has_key, in_order, lookup, sorted_pairs, sorted_texts};
use crate::planner::intent::{
    compiled_intent, compiled_step, first_step_failure, ref_nodes, step_error, steps_error,
};
use crate::planner::mining::{is_run, suggestion};
use crate::planner::recipes::recipe_nodes;
use crate::refs::refs_in;

// ---------------------------------------------------------------------------
// Order
// ---------------------------------------------------------------------------

spec fn keyed(s: Seq<Seq<char>>) -> Seq<(Seq<char>, ())>
    decreases s.len(),
{
    if s.len() == 0 {
        Seq::empty()
    } else {
        put(keyed(s.drop_last()), s.last(), ())
    }
}

proof fn lemma_keyed(s: Seq<Seq<char>>)
    ensures
        sorted_pairs(keyed(s)),
        forall|x: Seq<char>| #[trigger] has_key(keyed(s), x) <==> s.contains(x),
    decreases s.len(),
{
    if s.len() > 0 {
        let front = s.drop_last();
        lemma_keyed(front);
        put_stores(keyed(front), s.last(), ());
        assert forall|x: Seq<char>| #[trigger] has_key(keyed(s), x) <==> s.contains(x) by {
            assert(lookup(keyed(s), x) == if x == s.last() {
                Some(())
            } else {
                lookup(keyed(front), x)
            });
            if s.contains(x) && x != s.last() {
                let i = choose|i: int| 0 <= i < s.len() && s[i] == x;
                assert(front[i] == x);
            }
            if front.contains(x) {
                let i = choose|i: int| 0 <= i < front.len() && front[i] == x;
                assert(s[i] == x);
            }
            assert(s[s.len() - 1] == s.last());
        }
    }
}

/// The elements of a list in order are the same elements, each once.
pub proof fn ordering_keeps_elements(s: Seq<Seq<char>>, x: Seq<char>)
    ensures
        sorted_texts(in_order(s.to_set())),
        in_order(s.to_set()).contains(x) <==> s.contains(x),
{
    lemma_keyed(s);
    let pairs = keyed(s);
    let q = Seq::new(pairs.len(), |i: int| pairs[i].0);
    assert(sorted_texts(q)) by {
        assert forall|i: int, j: int| 0 <= i < j < q.len() implies crate::text::lex_less(
            #[trigger] q[i],
            #[trigger] q[j],
        ) by {
            assert(crate::text::lex_less(pairs[i].0, pairs[j].0));
        }
    }
    assert forall|y: Seq<char>| q.contains(y) <==> s.contains(y) by {
        assert(has_key(pairs, y) <==> s.contains(y));
        if q.contains(y) {
            let i = choose|i: int| 0 <= i < q.len() && q[i] == y;
            assert(pairs[i].0 == y);
        }
        if has_key(pairs, y) {
            let i = choose|i: int| 0 <= i < pairs.len() && (#[trigger] pairs[i]).0 == y;
            assert(q[i] == y);
        }
    }
    assert(q.to_set() =~= s.to_set());
    let chosen = in_order(s.to_set());
    assert(sorted_texts(chosen) && chosen.to_set() == s.to_set());
    assert(chosen.contains(x) <==> chosen.to_set().contains(x));
}

// ---------------------------------------------------------------------------
// Intents
// ---------------------------------------------------------------------------

/// A step compiles to one call of its tool with its own input. The node waits
/// for the steps that it names and for those that its input refers to, and for
/// no other.
pub proof fn steps_wait_for_what_they_mention(step: StepV, node: NodeV, d: Seq<char>)
    requires
        compiled_step(step) == Ok::<NodeV, PlannerErrorV>(node),
    ensures
        node.id == step.id,
        node.tool == step.tool,
        node.input == step.input,
        node.for_each is None,
        node.when is None,
        refs_in(step.input) is Ok,
        node.depends_on.contains(d) <==> step.after.contains(d) || exists|i: int|
            0 <= i < refs_in(step.input)->Ok_0.len() && (#[trigger] refs_in(
                step.input,
            )->Ok_0[i]).node == d,
        !node.depends_on.contains(step.id),
{
    let refs = refs_in(step.input)->Ok_0;
    let names = ref_nodes(refs);
    let all = step.after + names;
    assert(all.to_set() =~= step.after.to_set().union(names.to_set())) by {
        assert forall|x: Seq<char>| all.contains(x) <==> step.after.contains(x) || names.contains(
            x,
        ) by {
            if all.contains(x) {
                let i = choose|i: int| 0 <= i < all.len() && all[i] == x;
                if i < step.after.len() {
                    assert(step.after[i] == x);
                } else {
                    assert(names[i - step.after.len()] == x);
                }
            }
            if step.after.contains(x) {
                let i = choose|i: int| 0 <= i < step.after.len() && step.after[i] == x;
                assert(all[i] == x);
            }
            if names.contains(x) {
                let i = choose|i: int| 0 <= i < names.len() && names[i] == x;
                assert(all[step.after.len() + i] == x);
            }
        }
    }
    ordering_keeps_elements(all, d);
    ordering_keeps_elements(all, step.id);
    assert forall|x: Seq<char>| all.contains(x) <==> step.after.contains(x) || names.contains(x) by {
        assert(all.to_set().contains(x) <==> step.after.to_set().union(names.to_set()).contains(x));
    }
    if names.contains(d) {
        let i = choose|i: int| 0 <= i < names.len() && names[i] == d;
        assert(refs[i].node == d);
    }
    if exists|i: int| 0 <= i < refs.len() && (#[trigger] refs[i]).node == d {
        let i = choose|i: int| 0 <= i < refs.len() && (#[trigger] refs[i]).node == d;
        assert(names[i] == d);
    }
}

/// A step that waits for itself is refused.
pub proof fn steps_never_wait_for_themselves(step: StepV)
    ensures
        step.after.contains(step.id) ==> compiled_step(step) == Err::<NodeV, PlannerErrorV>(
            PlannerErrorV::SelfReference(step.id),
        ),
        refs_in(step.input) is Ok && (exists|i: int|
            0 <= i < refs_in(step.input)->Ok_0.len() && (#[trigger] refs_in(
                step.input,
            )->Ok_0[i]).node == step.id) ==> compiled_step(step) == Err::<NodeV, PlannerErrorV>(
            PlannerErrorV::SelfReference(step.id),
        ),
        refs_in(step.input) is Err ==> compiled_step(step) is Err,
{
    if refs_in(step.input) is Ok {
        let refs = refs_in(step.input)->Ok_0;
        if exists|i: int| 0 <= i < refs.len() && (#[trigger] refs[i]).node == step.id {
            let i = choose|i: int| 0 <= i < refs.len() && (#[trigger] refs[i]).node == step.id;
            assert(ref_nodes(refs)[i] == step.id);
        }
    }
}

proof fn lemma_steps(tools: Seq<(Seq<char>, ToolSpecV)>, steps: Seq<StepV>, from: int)
    requires
        0 <= from <= steps.len(),
    ensures
        steps_error(tools, steps, from) is None <==> forall|i: int|
            from <= i < steps.len() ==> #[trigger] step_error(tools, steps, i) is None,
    decreases steps.len() - from,
{
    if from < steps.len() {
        lemma_steps(tools, steps, from + 1);
        if steps_error(tools, steps, from) is Some {
            if step_error(tools, steps, from) is None {
                let i = choose|i: int|
                    from + 1 <= i < steps.len() && #[trigger] step_error(tools, steps, i) is Some;
                assert(step_error(tools, steps, i) is Some);
            } else {
                assert(step_error(tools, steps, from) is Some);
            }
        }
    }
}

proof fn lemma_failures(steps: Seq<StepV>, from: int)
    requires
        0 <= from <= steps.len(),
    ensures
        first_step_failure(steps, from) is None <==> forall|i: int|
            from <= i < steps.len() ==> compiled_step(#[trigger] steps[i]) is Ok,
    decreases steps.len() - from,
{
    if from < steps.len() {
        lemma_failures(steps, from + 1);
        if first_step_failure(steps, from) is Some {
            if compiled_step(steps[from]) is Ok {
                let i = choose|i: int|
                    from + 1 <= i < steps.len() && compiled_step(#[trigger] steps[i]) is Err;
                assert(compiled_step(steps[i]) is Err);
            } else {
                assert(compiled_step(steps[from]) is Err);
            }
        }
    }
}

/// An intent compiles to one node per step, in order, with the tools and
/// outputs of the intent. It compiles exactly when its version is the current
/// one, its step ids are valid and distinct, its tools are known and every
/// step compiles.
pub proof fn intents_compile_step_by_step(intent: IntentV, i: int)
    ensures
        compiled_intent(intent) is Ok <==> {
            &&& intent.version == CURRENT_VERSION@
            &&& forall|k: int|
                0 <= k < intent.steps.len() ==> (#[trigger] intent.steps[k]).id.len() > 0
                    && !intent.steps[k].id.contains('.')
            &&& forall|j: int, k: int|
                0 <= j < k < intent.steps.len() ==> (#[trigger] intent.steps[j]).id != (
                #[trigger] intent.steps[k]).id
            &&& forall|k: int|
                0 <= k < intent.steps.len() ==> has_key(
                    intent.tools,
                    (#[trigger] intent.steps[k]).tool,
                )
            &&& forall|k: int|
                0 <= k < intent.steps.len() ==> compiled_step(#[trigger] intent.steps[k]) is Ok
        },
        compiled_intent(intent) matches Ok(plan) ==> {
            &&& plan.nodes.len() == intent.steps.len()
            &&& 0 <= i < intent.steps.len() ==> compiled_step(intent.steps[i]) == Ok::<
                NodeV,
                PlannerErrorV,
            >(plan.nodes[i])
            &&& plan.tools == intent.tools
            &&& plan.outputs == intent.outputs
            &&& plan.name == intent.name
            &&& plan.version == CURRENT_VERSION@
        },
        intent.version != CURRENT_VERSION@ ==> compiled_intent(intent) == Err::<
            PlanV,
            PlannerErrorV,
        >(PlannerErrorV::UnsupportedVersion(intent.version)),
{
    let steps = intent.steps;
    lemma_steps(intent.tools, steps, 0);
    lemma_failures(steps, 0);
    if steps_error(intent.tools, steps, 0) is None {
        assert forall|k: int| 0 <= k < steps.len() implies (#[trigger] steps[k]).id.len() > 0
            && !steps[k].id.contains('.') && has_key(intent.tools, steps[k].tool) by {
            assert(step_error(intent.tools, steps, k) is None);
        }
        assert forall|j: int, k: int| 0 <= j < k < steps.len() implies (#[trigger] steps[j]).id != (
        #[trigger] steps[k]).id by {
            assert(step_error(intent.tools, steps, k) is None);
        }
    }
    if (forall|k: int|
        0 <= k < steps.len() ==> (#[trigger] steps[k]).id.len() > 0 && !steps[k].id.contains('.'))
        && (forall|j: int, k: int|
        0 <= j < k < steps.len() ==> (#[trigger] steps[j]).id != (#[trigger] steps[k]).id) && (
    forall|k: int| 0 <= k < steps.len() ==> has_key(intent.tools, (#[trigger] steps[k]).tool)) {
        assert forall|k: int| 0 <= k < steps.len() implies #[trigger] step_error(
            intent.tools,
            steps,
            k,
        ) is None by {
            assert(steps[k].id.len() > 0);
            assert forall|j: int| 0 <= j < k implies (#[trigger] steps[j]).id != steps[k].id by {}
        }
    }
}

// ---------------------------------------------------------------------------
// Suggestions
// ---------------------------------------------------------------------------

/// The recipe that is suggested for a run of calls makes the same calls: the
/// same tool, once per call, with the inputs in their order.
pub proof fn suggested_recipes_repeat_the_calls(calls: Seq<CallV>, start: int, end: int, i: int)
    requires
        is_run(calls, start, end),
        0 <= i < end - start,
    ensures
        ({
            let s = suggestion(calls, start, end);
            let nodes = recipe_nodes(s.recipe.recipe);
            &&& s.occurrences == end - start
            &&& s.start_index == start
            &&& s.tool == calls[start].tool
            &&& nodes is Ok
            &&& nodes->Ok_0.len() == end - start
            &&& nodes->Ok_0[i].tool == calls[start + i].tool
            &&& nodes->Ok_0[i].input == calls[start + i].input
        }),
{
    assert(calls[start + i].tool == calls[start].tool);
}

} // verus!
