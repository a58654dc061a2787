//! Intents: steps that lower to a plan.

use vstd::prelude::*;

use crate::json::{Json, Value};
use crate::optimizer::rewrite::set_items;
use crate::ordered::{StrMap, StrSet};
use crate::plan::{Node, NodeV, Plan, PlanV, ToolSpec, ToolSpecV, CURRENT_VERSION};
use crate::refs::{collect_refs, validate_node_id, RefV, ValueRef};
use crate::text::{concat2, same_text, wrapped};

verus! {

use crate::ordered::{has_key, in_order, in_order_unique, opt_view, pairs_view, pairs_view_lookup, sorted_pairs, views};
use crate::refs::{node_id_error, ref_error_text, refs_in, refs_view};
use crate::text::texts_view;

/// One intent step.
#[derive(Debug, PartialEq)]
pub struct IntentStep {
    /// Step id (becomes the node id).
    pub id: String,
    /// Tool the step calls.
    pub tool: String,
    /// JSON input; may contain `$ref`s.
    pub input: Value,
    /// Explicit ordering dependencies in addition to derived refs.
    pub after: Vec<String>,
}

/// A step as a mathematical value.
#[verifier::ext_equal]
pub struct StepV {
    pub id: Seq<char>,
    pub tool: Seq<char>,
    pub input: Json,
    pub after: Seq<Seq<char>>,
}

impl View for IntentStep {
    type V = StepV;

    open spec fn view(&self) -> StepV {
        StepV {
            id: self.id@,
            tool: self.tool@,
            input: self.input@,
            after: texts_view(self.after@),
        }
    }
}

impl IntentStep {
    /// Creates a step calling `tool` with an empty object input.
    pub fn new(id: &str, tool: &str) -> (r: Self)
        ensures
            r@ == (StepV {
                id: id@,
                tool: tool@,
                input: Json::Object(Seq::empty()),
                after: Seq::empty(),
            }),
    {
        let r = IntentStep {
            id: id.to_owned(),
            tool: tool.to_owned(),
            input: Value::empty_object(),
            after: Vec::new(),
        };
        assert(r@.after =~= Seq::empty());
        r
    }

    /// Sets the step input.
    pub fn with_input(self, input: Value) -> (r: Self)
        ensures
            r@ == (StepV { input: input@, ..self@ }),
    {
        IntentStep { id: self.id, tool: self.tool, input, after: self.after }
    }

    /// Sets the explicit ordering dependencies.
    pub fn after(self, dependencies: Vec<String>) -> (r: Self)
        ensures
            r@ == (StepV { after: texts_view(dependencies@), ..self@ }),
    {
        IntentStep { id: self.id, tool: self.tool, input: self.input, after: dependencies }
    }
}

/// A higher-level agent-authored description of desired steps.
#[derive(Debug, PartialEq)]
pub struct IntentPlan {
    /// Intent version; must equal [`CURRENT_VERSION`].
    pub version: String,
    /// Optional human label carried into the compiled plan.
    pub name: Option<String>,
    /// Tools referenced by steps.
    pub tools: StrMap<ToolSpec>,
    /// Ordered steps; dependencies derive from refs plus `after`.
    pub steps: Vec<IntentStep>,
    /// Named outputs of the compiled plan.
    pub outputs: StrMap<ValueRef>,
}

/// An intent as a mathematical value.
#[verifier::ext_equal]
pub struct IntentV {
    pub version: Seq<char>,
    pub name: Option<Seq<char>>,
    pub tools: Seq<(Seq<char>, ToolSpecV)>,
    pub steps: Seq<StepV>,
    pub outputs: Seq<(Seq<char>, RefV)>,
}

impl View for IntentPlan {
    type V = IntentV;

    open spec fn view(&self) -> IntentV {
        IntentV {
            version: self.version@,
            name: opt_view(self.name),
            tools: pairs_view(self.tools),
            steps: views(self.steps@),
            outputs: pairs_view(self.outputs),
        }
    }
}

/// An intent without steps.
pub open spec fn empty_intent() -> IntentV {
    IntentV {
        version: CURRENT_VERSION@,
        name: None,
        tools: Seq::empty(),
        steps: Seq::empty(),
        outputs: Seq::empty(),
    }
}

impl IntentPlan {
    /// Creates an empty intent at [`CURRENT_VERSION`].
    pub fn new() -> (r: Self)
        ensures
            r@ == empty_intent(),
    {
        let r = IntentPlan {
            version: CURRENT_VERSION.to_owned(),
            name: None,
            tools: StrMap::new(),
            steps: Vec::new(),
            outputs: StrMap::new(),
        };
        assert(r@ =~= empty_intent());
        r
    }

    /// Sets the human-readable name.
    pub fn with_name(self, name: &str) -> (r: Self)
        ensures
            r@ == (IntentV { name: Some(name@), ..self@ }),
    {
        IntentPlan {
            version: self.version,
            name: Some(name.to_owned()),
            tools: self.tools,
            steps: self.steps,
            outputs: self.outputs,
        }
    }
}

impl Default for IntentPlan {
    fn default() -> (r: Self)
        ensures
            r@ == empty_intent(),
    {
        IntentPlan::new()
    }
}

/// Errors produced while lowering intents and recipes.
#[derive(Debug, PartialEq, Eq)]
pub enum PlannerError {
    /// Unsupported version.
    UnsupportedVersion(String),
    /// Two steps share an id.
    DuplicateStep(String),
    /// A step id fails node-id validation.
    InvalidStepId {
        /// Offending step id.
        step: String,
        /// Validation failure detail.
        message: String,
    },
    /// A step names a tool the intent does not declare.
    UnknownTool {
        /// Offending step id.
        step: String,
        /// Missing tool name.
        tool: String,
    },
    /// A step references itself.
    SelfReference(String),
    /// A step input carries a malformed reference.
    InvalidRef {
        /// Offending step id.
        step: String,
        /// Parse failure detail.
        message: String,
    },
    /// A fan-out recipe has neither items nor an items_ref.
    EmptyFanOut,
    /// A pipeline recipe has no steps.
    EmptyPipeline,
    /// A `$param` placeholder names an undeclared parameter.
    UnknownParam(String),
    /// A required parameter (declared with a null default) was not supplied.
    MissingParam(String),
}

/// A planner error as a mathematical value.
pub enum PlannerErrorV {
    UnsupportedVersion(Seq<char>),
    DuplicateStep(Seq<char>),
    InvalidStepId { step: Seq<char>, message: Seq<char> },
    UnknownTool { step: Seq<char>, tool: Seq<char> },
    SelfReference(Seq<char>),
    InvalidRef { step: Seq<char>, message: Seq<char> },
    EmptyFanOut,
    EmptyPipeline,
    UnknownParam(Seq<char>),
    MissingParam(Seq<char>),
}

impl View for PlannerError {
    type V = PlannerErrorV;

    open spec fn view(&self) -> PlannerErrorV {
        match self {
            PlannerError::UnsupportedVersion(v) => PlannerErrorV::UnsupportedVersion(v@),
            PlannerError::DuplicateStep(v) => PlannerErrorV::DuplicateStep(v@),
            PlannerError::InvalidStepId { step, message } => PlannerErrorV::InvalidStepId {
                step: step@,
                message: message@,
            },
            PlannerError::UnknownTool { step, tool } => PlannerErrorV::UnknownTool {
                step: step@,
                tool: tool@,
            },
            PlannerError::SelfReference(v) => PlannerErrorV::SelfReference(v@),
            PlannerError::InvalidRef { step, message } => PlannerErrorV::InvalidRef {
                step: step@,
                message: message@,
            },
            PlannerError::EmptyFanOut => PlannerErrorV::EmptyFanOut,
            PlannerError::EmptyPipeline => PlannerErrorV::EmptyPipeline,
            PlannerError::UnknownParam(v) => PlannerErrorV::UnknownParam(v@),
            PlannerError::MissingParam(v) => PlannerErrorV::MissingParam(v@),
        }
    }
}

/// The message of a planner error.
pub open spec fn planner_error_text(e: PlannerErrorV) -> Seq<char> {
    match e {
        PlannerErrorV::UnsupportedVersion(v) => "unsupported intent version '"@ + v + "'"@,
        PlannerErrorV::DuplicateStep(v) => "duplicate step id '"@ + v + "'"@,
        PlannerErrorV::InvalidStepId { step, message } => "step '"@ + step
            + "' has an invalid id: "@ + message,
        PlannerErrorV::UnknownTool { step, tool } => "step '"@ + step + "' uses unknown tool '"@ + (
        tool + "'"@),
        PlannerErrorV::SelfReference(v) => "step '"@ + v + "' references itself"@,
        PlannerErrorV::InvalidRef { step, message } => "invalid reference in step '"@ + step
            + "': "@ + message,
        PlannerErrorV::EmptyFanOut =>
            "fan_out recipe needs a non-empty 'items' array or an 'items_ref'"@,
        PlannerErrorV::EmptyPipeline => "pipeline recipe needs at least one step"@,
        PlannerErrorV::UnknownParam(v) => "recipe references undeclared parameter '"@ + v + "'"@,
        PlannerErrorV::MissingParam(v) => "recipe parameter '"@ + v
            + "' is required but was not supplied"@,
    }
}

impl PlannerError {
    /// The message of the error.
    pub fn message(&self) -> (r: String)
        ensures
            r@ == planner_error_text(self@),
    {
        match self {
            PlannerError::UnsupportedVersion(v) => wrapped(
                "unsupported intent version '",
                v.as_str(),
                "'",
            ),
            PlannerError::DuplicateStep(v) => wrapped("duplicate step id '", v.as_str(), "'"),
            PlannerError::InvalidStepId { step, message } => {
                let mut out = wrapped("step '", step.as_str(), "' has an invalid id: ");
                out.push_str(message.as_str());
                out
            },
            PlannerError::UnknownTool { step, tool } => {
                let mut out = wrapped("step '", step.as_str(), "' uses unknown tool '");
                out.push_str(concat2(tool.as_str(), "'").as_str());
                out
            },
            PlannerError::SelfReference(v) => wrapped("step '", v.as_str(), "' references itself"),
            PlannerError::InvalidRef { step, message } => {
                let mut out = wrapped("invalid reference in step '", step.as_str(), "': ");
                out.push_str(message.as_str());
                out
            },
            PlannerError::EmptyFanOut =>
                "fan_out recipe needs a non-empty 'items' array or an 'items_ref'".to_owned(),
            PlannerError::EmptyPipeline => "pipeline recipe needs at least one step".to_owned(),
            PlannerError::UnknownParam(v) => wrapped(
                "recipe references undeclared parameter '",
                v.as_str(),
                "'",
            ),
            PlannerError::MissingParam(v) => wrapped(
                "recipe parameter '",
                v.as_str(),
                "' is required but was not supplied",
            ),
        }
    }
}

// ---------------------------------------------------------------------------
// Model
// ---------------------------------------------------------------------------

/// What is wrong with step `i` before it is compiled.
pub open spec fn step_error(
    tools: Seq<(Seq<char>, ToolSpecV)>,
    steps: Seq<StepV>,
    i: int,
) -> Option<PlannerErrorV> {
    match node_id_error(steps[i].id) {
        Some(e) => Some(
            PlannerErrorV::InvalidStepId { step: steps[i].id, message: ref_error_text(e) },
        ),
        None => if exists|j: int| 0 <= j < i && (#[trigger] steps[j]).id == steps[i].id {
            Some(PlannerErrorV::DuplicateStep(steps[i].id))
        } else if !has_key(tools, steps[i].tool) {
            Some(PlannerErrorV::UnknownTool { step: steps[i].id, tool: steps[i].tool })
        } else {
            None
        },
    }
}

/// The first step at or after `from` that is wrong.
pub open spec fn steps_error(
    tools: Seq<(Seq<char>, ToolSpecV)>,
    steps: Seq<StepV>,
    from: int,
) -> Option<PlannerErrorV>
    decreases steps.len() - from,
{
    if from >= steps.len() {
        None
    } else {
        match step_error(tools, steps, from) {
            Some(e) => Some(e),
            None => steps_error(tools, steps, from + 1),
        }
    }
}

/// The nodes that references name.
pub open spec fn ref_nodes(refs: Seq<RefV>) -> Seq<Seq<char>> {
    Seq::new(refs.len(), |i: int| refs[i].node)
}

/// The node that a step compiles to: it depends on the steps that it names
/// explicitly and on those that its references name, in order, each once.
pub open spec fn compiled_step(step: StepV) -> Result<NodeV, PlannerErrorV> {
    if step.after.contains(step.id) {
        Err(PlannerErrorV::SelfReference(step.id))
    } else {
        match refs_in(step.input) {
            Err(e) => Err(
                PlannerErrorV::InvalidRef { step: step.id, message: ref_error_text(e) },
            ),
            Ok(refs) => if ref_nodes(refs).contains(step.id) {
                Err(PlannerErrorV::SelfReference(step.id))
            } else {
                Ok(
                    NodeV {
                        id: step.id,
                        tool: step.tool,
                        input: step.input,
                        depends_on: in_order(step.after.to_set().union(ref_nodes(refs).to_set())),
                        for_each: None,
                        when: None,
                    },
                )
            },
        }
    }
}

/// The first step at or after `from` that does not compile.
pub open spec fn first_step_failure(steps: Seq<StepV>, from: int) -> Option<PlannerErrorV>
    decreases steps.len() - from,
{
    if from >= steps.len() {
        None
    } else {
        match compiled_step(steps[from]) {
            Err(e) => Some(e),
            Ok(_) => first_step_failure(steps, from + 1),
        }
    }
}

/// The plan that an intent compiles to.
pub open spec fn compiled_intent(intent: IntentV) -> Result<PlanV, PlannerErrorV> {
    if intent.version != CURRENT_VERSION@ {
        Err(PlannerErrorV::UnsupportedVersion(intent.version))
    } else if steps_error(intent.tools, intent.steps, 0) is Some {
        Err(steps_error(intent.tools, intent.steps, 0)->0)
    } else if first_step_failure(intent.steps, 0) is Some {
        Err(first_step_failure(intent.steps, 0)->0)
    } else {
        Ok(
            PlanV {
                version: CURRENT_VERSION@,
                name: intent.name,
                description: None,
                tools: intent.tools,
                nodes: Seq::new(
                    intent.steps.len(),
                    |i: int| compiled_step(intent.steps[i])->Ok_0,
                ),
                outputs: intent.outputs,
            },
        )
    }
}

// ---------------------------------------------------------------------------
// Compilation
// ---------------------------------------------------------------------------

fn check_steps(tools: &StrMap<ToolSpec>, steps: &Vec<IntentStep>) -> (r: Result<(), PlannerError>)
    ensures
        match r {
            Ok(_) => steps_error(pairs_view(*tools), views(steps@), 0) is None,
            Err(e) => steps_error(pairs_view(*tools), views(steps@), 0) == Some(e@),
        },
{
    let ghost ts = pairs_view(*tools);
    let ghost ss = views(steps@);
    tools.prove_sorted();
    let mut seen = StrSet::new();
    let mut i: usize = 0;
    while i < steps.len()
        invariant
            i <= steps@.len(),
            ts == pairs_view(*tools),
            ss == views(steps@),
            sorted_pairs(tools.pairs()),
            steps_error(ts, ss, 0) == steps_error(ts, ss, i as int),
            forall|id: Seq<char>| #[trigger]
                seen@.contains(id) <==> exists|j: int| 0 <= j < i && (#[trigger] ss[j]).id == id,
        decreases steps.len() - i,
    {
        let step = &steps[i];
        assert(ss[i as int] == step@);
        let ghost seen0 = seen@;
        proof {
            pairs_view_lookup(*tools, step@.tool);
        }
        match validate_node_id(step.id.as_str()) {
            Ok(_) => {},
            Err(e) => {
                return Err(
                    PlannerError::InvalidStepId { step: step.id.clone(), message: e.message() },
                );
            },
        }
        if !seen.insert(step.id.clone()) {
            return Err(PlannerError::DuplicateStep(step.id.clone()));
        }
        if !tools.contains_key(step.tool.as_str()) {
            return Err(
                PlannerError::UnknownTool { step: step.id.clone(), tool: step.tool.clone() },
            );
        }
        proof {
            assert forall|id: Seq<char>| #[trigger] seen@.contains(id) <==> exists|j: int|
                0 <= j < i + 1 && (#[trigger] ss[j]).id == id by {
                if seen0.contains(id) {
                    let j = choose|j: int| 0 <= j < i && (#[trigger] ss[j]).id == id;
                    assert(ss[j].id == id);
                }
                if exists|j: int| 0 <= j < i + 1 && (#[trigger] ss[j]).id == id {
                    let j = choose|j: int| 0 <= j < i + 1 && (#[trigger] ss[j]).id == id;
                    if j < i {
                        assert(seen0.contains(id));
                    }
                }
                assert(ss[i as int].id == step@.id);
            }
        }
        i = i + 1;
    }
    Ok(())
}

/// Adds the names to the set, unless one of them is `own`.
fn add_names(own: &str, names: &Vec<String>, set: &mut StrSet) -> (r: bool)
    ensures
        r == !texts_view(names@).contains(own@),
        r ==> final(set)@ == old(set)@.union(texts_view(names@).to_set()),
{
    let ghost all = texts_view(names@);
    let ghost before = set@;
    let mut i: usize = 0;
    assert(all.take(0).to_set() =~= Set::empty());
    assert(set@ =~= before.union(all.take(0).to_set()));
    while i < names.len()
        invariant
            i <= names@.len(),
            all == texts_view(names@),
            set@ == before.union(all.take(i as int).to_set()),
            forall|j: int| 0 <= j < i ==> all[j] != own@,
        decreases names.len() - i,
    {
        if same_text(names[i].as_str(), own) {
            assert(all[i as int] == own@);
            return false;
        }
        set.insert(names[i].clone());
        proof {
            let taken = all.take(i as int);
            let next = all.take(i + 1);
            let x = all[i as int];
            assert(next =~= taken.push(x));
            assert forall|k: Seq<char>| #[trigger] next.contains(k) <==> taken.contains(k) || k == x by {
                if taken.contains(k) {
                    let p = choose|p: int| 0 <= p < taken.len() && taken[p] == k;
                    assert(next[p] == k);
                }
                assert(next[i as int] == x);
            }
            assert(set@ =~= before.union(next.to_set()));
        }
        i = i + 1;
    }
    assert(all.take(i as int) =~= all);
    true
}

fn names_of(refs: &Vec<ValueRef>) -> (r: Vec<String>)
    ensures
        texts_view(r@) == ref_nodes(refs_view(refs@)),
{
    let mut out: Vec<String> = Vec::new();
    let mut i: usize = 0;
    while i < refs.len()
        invariant
            i <= refs@.len(),
            out@.len() == i,
            forall|j: int| 0 <= j < i ==> (#[trigger] out@[j])@ == refs@[j]@.node,
        decreases refs.len() - i,
    {
        out.push(refs[i].node().to_owned());
        i = i + 1;
    }
    assert(texts_view(out@) =~= ref_nodes(refs_view(refs@)));
    out
}

fn compile_step(step: &IntentStep) -> (r: Result<Node, PlannerError>)
    ensures
        match (r, compiled_step(step@)) {
            (Ok(n), Ok(m)) => n@ == m,
            (Err(e), Err(m)) => e@ == m,
            _ => false,
        },
{
    let mut set = StrSet::new();
    if !add_names(step.id.as_str(), &step.after, &mut set) {
        return Err(PlannerError::SelfReference(step.id.clone()));
    }
    let refs = match collect_refs(&step.input) {
        Ok(refs) => refs,
        Err(e) => {
            return Err(PlannerError::InvalidRef { step: step.id.clone(), message: e.message() });
        },
    };
    let names = names_of(&refs);
    if !add_names(step.id.as_str(), &names, &mut set) {
        return Err(PlannerError::SelfReference(step.id.clone()));
    }
    let depends_on = set_items(&set);
    let node = Node {
        id: step.id.clone(),
        tool: step.tool.clone(),
        input: step.input.clone(),
        depends_on,
        for_each: None,
        when: None,
    };
    proof {
        in_order_unique(texts_view(depends_on@));
        assert(set@ =~= step@.after.to_set().union(ref_nodes(refs_view(refs@)).to_set()));
    }
    Ok(node)
}

/// Compiles an intent into an executable plan.
pub fn compile_intent(intent: IntentPlan) -> (r: Result<Plan, PlannerError>)
    ensures
        match (r, compiled_intent(intent@)) {
            (Ok(p), Ok(m)) => p@ == m,
            (Err(e), Err(m)) => e@ == m,
            _ => false,
        },
{
    let ghost it = intent@;
    if !same_text(intent.version.as_str(), CURRENT_VERSION) {
        return Err(PlannerError::UnsupportedVersion(intent.version));
    }
    match check_steps(&intent.tools, &intent.steps) {
        Ok(_) => {},
        Err(e) => {
            return Err(e);
        },
    }
    let mut nodes: Vec<Node> = Vec::new();
    let mut i: usize = 0;
    while i < intent.steps.len()
        invariant
            i <= intent.steps@.len(),
            it == intent@,
            it.version == CURRENT_VERSION@,
            steps_error(it.tools, it.steps, 0) is None,
            first_step_failure(it.steps, 0) == first_step_failure(it.steps, i as int),
            nodes@.len() == i,
            forall|j: int|
                0 <= j < i ==> compiled_step(it.steps[j]) == Ok::<NodeV, PlannerErrorV>(
                    (#[trigger] nodes@[j])@,
                ),
        decreases intent.steps.len() - i,
    {
        assert(it.steps[i as int] == intent.steps@[i as int]@);
        match compile_step(&intent.steps[i]) {
            Ok(node) => {
                nodes.push(node);
            },
            Err(e) => {
                return Err(e);
            },
        }
        i = i + 1;
    }
    let plan = Plan {
        version: CURRENT_VERSION.to_owned(),
        name: intent.name,
        description: None,
        tools: intent.tools,
        nodes,
        outputs: intent.outputs,
    };
    proof {
        let want = Seq::new(it.steps.len(), |i: int| compiled_step(it.steps[i])->Ok_0);
        assert(plan@.nodes =~= want);
    }
    Ok(plan)
}

} // verus!
