//! Conditions decide which nodes run.

use vstd::prelude::*;

use crate::json::Json;
use crate::plan::WhenV;
use crate::runtime::meaning::ToolsV;
use crate::runtime::model::{MemberV, ProgramV, RunV};
use crate::runtime::result::SkipReason;
use crate::runtime::history::StepV;

verus! {

use crate::runtime::history::{after_steps, all_honest, all_legal, runs_are_faithful};
use crate::runtime::model::{member_verdict, node_of, poisoned, program_wf, settled, when_verdict};
use crate::runtime::resolve::resolved_ref;
use crate::value::{json_same, json_same_reflexive};

/// The document holds no number that is written with a fraction or an
/// exponent.
pub open spec fn exact(j: Json) -> bool
    decreases j,
{
    match j {
        Json::Number(n) => !(n is Float),
        Json::List(items) => forall|i: int| 0 <= i < items.len() ==> exact(#[trigger] items[i]),
        Json::Object(entries) => forall|i: int|
            0 <= i < entries.len() ==> exact((#[trigger] entries[i]).1),
        _ => true,
    }
}

/// Documents without fractions are equal as values only when they are the
/// same document.
pub proof fn equal_documents_are_the_same(a: Json, b: Json)
    requires
        exact(a),
        json_same(a, b),
    ensures
        a == b,
    decreases a,
{
    match (a, b) {
        (Json::List(x), Json::List(y)) => {
            assert forall|i: int| 0 <= i < x.len() implies x[i] == y[i] by {
                assert(json_same(x[i], y[i]));
                equal_documents_are_the_same(x[i], y[i]);
            }
            assert(x =~= y);
        },
        (Json::Object(x), Json::Object(y)) => {
            assert forall|i: int| 0 <= i < x.len() implies x[i] == y[i] by {
                assert(json_same(x[i].1, y[i].1));
                equal_documents_are_the_same(x[i].1, y[i].1);
            }
            assert(x =~= y);
        },
        _ => {},
    }
}

/// The document counts as set: it is neither `null` nor `false`.
pub open spec fn truthy(v: Json) -> bool {
    v != Json::Null && v != Json::Bool(false)
}

/// A condition with `equals` holds exactly of an equal value; one without
/// holds exactly of a value that is neither `null` nor `false`. `not` turns
/// either around.
pub proof fn conditions_compare_values(w: WhenV, outputs: Map<Seq<char>, Json>, v: Json)
    requires
        resolved_ref(w.target, outputs) == Ok::<Json, crate::runtime::error::RuntimeErrorV>(v),
    ensures
        when_verdict(w, outputs) is Ok,
        !w.not && w.equals == Some(v) ==> when_verdict(w, outputs)->Ok_0,
        w.not && w.equals == Some(v) ==> !when_verdict(w, outputs)->Ok_0,
        !w.not && w.equals is Some && when_verdict(w, outputs)->Ok_0 ==> json_same(v, w.equals->0),
        !w.not && w.equals is Some && json_same(v, w.equals->0) ==> when_verdict(w, outputs)->Ok_0,
        !w.not && w.equals is Some && exact(v) && v != w.equals->0 ==> !when_verdict(
            w,
            outputs,
        )->Ok_0,
        w.not && w.equals is Some && exact(v) && v != w.equals->0 ==> when_verdict(w, outputs)->Ok_0,
        !w.not && w.equals is None && truthy(v) ==> when_verdict(w, outputs)->Ok_0,
        !w.not && w.equals is None && !truthy(v) ==> !when_verdict(w, outputs)->Ok_0,
        w.not && w.equals is None && truthy(v) ==> !when_verdict(w, outputs)->Ok_0,
        w.not && w.equals is None && !truthy(v) ==> when_verdict(w, outputs)->Ok_0,
        when_verdict(WhenV { not: !w.not, ..w }, outputs) is Ok,
        when_verdict(WhenV { not: !w.not, ..w }, outputs)->Ok_0 != when_verdict(w, outputs)->Ok_0,
{
    json_same_reflexive(v);
    if w.equals is Some && exact(v) && json_same(v, w.equals->0) {
        equal_documents_are_the_same(v, w.equals->0);
    }
}

/// A condition whose target cannot be resolved is an error, never a verdict.
pub proof fn unresolved_conditions_are_errors(w: WhenV, outputs: Map<Seq<char>, Json>)
    requires
        resolved_ref(w.target, outputs) is Err,
    ensures
        when_verdict(w, outputs) is Err,
{
}

/// A node that is tried is skipped for its condition exactly when it has one
/// whose value is not the wanted one, and never without a condition.
pub proof fn conditions_decide_what_is_tried(
    p: ProgramV,
    s: RunV,
    id: Seq<char>,
    reason: Seq<char>,
    v: Json,
)
    requires
        !settled(s, id),
        !poisoned(p, s, id),
        node_of(p, id).when matches Some(w) ==> resolved_ref(w.target, s.outputs) == Ok::<
            Json,
            crate::runtime::error::RuntimeErrorV,
        >(v),
    ensures
        node_of(p, id).when is None ==> !(member_verdict(p, s, id, reason) is Skip),
        node_of(p, id).when matches Some(w) ==> {
            &&& !w.not && w.equals == Some(v) ==> !(member_verdict(p, s, id, reason) is Skip)
            &&& w.not && w.equals == Some(v) ==> member_verdict(p, s, id, reason) == MemberV::Skip(
                SkipReason::Condition,
            )
            &&& !w.not && w.equals is Some && exact(v) && w.equals->0 != v ==> member_verdict(
                p,
                s,
                id,
                reason,
            ) == MemberV::Skip(SkipReason::Condition)
            &&& w.equals is None && truthy(v) == w.not ==> member_verdict(p, s, id, reason)
                == MemberV::Skip(SkipReason::Condition)
            &&& w.equals is None && truthy(v) != w.not ==> !(member_verdict(p, s, id, reason) is Skip)
        },
{
    if node_of(p, id).when is Some {
        conditions_compare_values(node_of(p, id).when->0, s.outputs, v);
    }
}

/// In every state of every run: a node has an output only where its
/// condition held, and is skipped for its condition only where it did not.
pub proof fn runs_follow_conditions(
    p: ProgramV,
    tools: ToolsV,
    steps: Seq<StepV>,
    id: Seq<char>,
    v: Json,
)
    requires
        program_wf(p),
        all_legal(p, steps, steps.len() as int),
        all_honest(p, tools, steps, steps.len() as int),
        node_of(p, id).when is Some,
        resolved_ref(
            node_of(p, id).when->0.target,
            after_steps(p, steps, steps.len() as int).outputs,
        ) == Ok::<Json, crate::runtime::error::RuntimeErrorV>(v),
    ensures
        ({
            let s = after_steps(p, steps, steps.len() as int);
            let w = node_of(p, id).when->0;
            &&& s.outputs.dom().contains(id) ==> {
                &&& w.equals is None ==> truthy(v) != w.not
                &&& w.equals is Some && !w.not ==> json_same(v, w.equals->0)
                &&& w.not ==> w.equals != Some(v)
            }
            &&& s.skipped.dom().contains(id) && s.skipped[id] == SkipReason::Condition ==> {
                &&& w.equals is None ==> truthy(v) == w.not
                &&& !w.not ==> w.equals != Some(v)
                &&& w.equals is Some && w.not ==> json_same(v, w.equals->0)
            }
        }),
{
    let s = after_steps(p, steps, steps.len() as int);
    let w = node_of(p, id).when->0;
    runs_are_faithful(p, tools, steps, steps.len() as int);
    conditions_compare_values(w, s.outputs, v);
    conditions_compare_values(WhenV { not: !w.not, ..w }, s.outputs, v);
}

} // verus!
