//! Optimization and explanation of plans.

use tool_compiler::effects::{set_of, Effects};
use tool_compiler::graph::validate::validate;
use tool_compiler::json::{Number, Value};
use tool_compiler::optimizer::dedup::deduplicate_nodes;
use tool_compiler::optimizer::explain::{DiagnosticKind, OrderIndex};
use tool_compiler::optimizer::pipeline::{explain, optimize};
use tool_compiler::optimizer::report::DeduplicatedNode;
use tool_compiler::optimizer::rewrite::canonical_node;
use tool_compiler::ordered::StrMap;
use tool_compiler::plan::{Node, Plan, ToolCost, ToolLimits, ToolSpec};
use tool_compiler::refs::ValueRef;

fn convert(value: serde_json::Value) -> Value {
    match value {
        serde_json::Value::Null => Value::Null,
        serde_json::Value::Bool(flag) => Value::Bool(flag),
        serde_json::Value::Number(number) => Value::Number(match (number.as_u64(), number.as_i64()) {
            (Some(n), _) => Number::PosInt(n),
            (None, Some(n)) => Number::NegInt(n),
            (None, None) => Number::Float(number.to_string()),
        }),
        serde_json::Value::String(text) => Value::String(text),
        serde_json::Value::Array(items) => Value::Array(items.into_iter().map(convert).collect()),
        serde_json::Value::Object(members) => {
            let mut map = StrMap::new();
            for (key, member) in members {
                map.insert(key, convert(member));
            }
            Value::Object(map)
        }
    }
}

fn json(text: &str) -> Value {
    convert(serde_json::from_str(text).unwrap())
}

fn plan() -> Plan {
    let mut plan = Plan::new();
    plan.tools.insert(
        "lookup".into(),
        ToolSpec::new("test").with_effects(Effects::pure()),
    );
    plan.tools.insert(
        "write".into(),
        ToolSpec::new("test").with_effects(Effects {
            writes: set_of(&["db:item"]),
            ..Effects::default()
        }),
    );
    plan
}

fn lookup(id: &str, input: &str) -> Node {
    Node::new(id, "lookup").with_input(json(input))
}

#[test]
fn deduplicates_identical_pure_nodes_and_rewrites_refs() {
    let mut plan = plan();
    plan.nodes.push(lookup("a", r#"{ "q": "x" }"#));
    plan.nodes.push(lookup("b", r#"{ "q": "x" }"#));
    plan.nodes.push(lookup("c", r#"{ "source": { "$ref": "b.output.id" } }"#));
    plan.outputs
        .insert("result".into(), ValueRef::new("b", vec!["id".into()]));
    plan.outputs.insert("chain".into(), ValueRef::output("c"));

    let optimized = optimize(plan).unwrap();

    assert_eq!(
        optimized.report().deduplicated,
        vec![DeduplicatedNode {
            removed: "b".into(),
            canonical: "a".into(),
        }]
    );
    assert_eq!(optimized.plan().nodes.len(), 2);
    assert_eq!(
        optimized.plan().outputs.get("result").unwrap(),
        &ValueRef::new("a", vec!["id".into()])
    );
    assert_eq!(
        optimized.plan().nodes[1].input,
        json(r#"{ "source": { "$ref": "a.output.id" } }"#)
    );
}

#[test]
fn rewrites_forward_references_to_deduplicated_nodes() {
    let mut plan = plan();
    // "x" references "item2", which appears LATER and deduplicates into
    // "item1". The rewrite must still redirect x's reference.
    plan.nodes.push(lookup("x", r#"{ "source": { "$ref": "item2.output" } }"#));
    plan.nodes.push(lookup("item1", r#"{ "q": "same" }"#));
    plan.nodes.push(lookup("item2", r#"{ "q": "same" }"#));
    plan.outputs.insert("x".into(), ValueRef::output("x"));

    let optimized = optimize(plan).unwrap();

    assert_eq!(optimized.report().deduplicated.len(), 1);
    assert_eq!(
        optimized.plan().nodes[0].input,
        json(r#"{ "source": { "$ref": "item1.output" } }"#)
    );
}

#[test]
fn pure_nodes_merge_across_ordering_edges() {
    let mut plan = plan();
    plan.nodes.push(lookup("first", r#"{ "q": "x" }"#));
    let mut later = lookup("later", r#"{ "q": "x" }"#);
    later.depends_on = vec!["gate".into()];
    plan.nodes.push(Node::new("gate", "lookup"));
    plan.nodes.push(later);
    plan.outputs.insert("value".into(), ValueRef::output("later"));

    let optimized = optimize(plan).unwrap();

    assert_eq!(optimized.report().deduplicated.len(), 1);
    assert_eq!(
        optimized.plan().outputs.get("value").unwrap(),
        &ValueRef::output("first")
    );
}

#[test]
fn cacheable_impure_nodes_keep_ordering_in_the_key() {
    let mut plan = Plan::new();
    plan.tools.insert(
        "read".into(),
        ToolSpec::new("test").with_effects(Effects::read_only(&["db:x"])),
    );
    plan.tools.insert(
        "write".into(),
        ToolSpec::new("test").with_effects(Effects {
            writes: set_of(&["db:x"]),
            ..Effects::default()
        }),
    );
    plan.nodes.push(Node::new("before", "read").with_input(json(r#"{ "q": 1 }"#)));
    plan.nodes.push(Node::new("mutate", "write"));
    let mut after = Node::new("after", "read").with_input(json(r#"{ "q": 1 }"#));
    after.depends_on = vec!["mutate".into()];
    plan.nodes.push(after);

    let optimized = optimize(plan).unwrap();

    assert!(optimized.report().deduplicated.is_empty());
    assert_eq!(optimized.plan().nodes.len(), 3);
}

#[test]
fn ordering_keys_tell_lists_apart() {
    let mut plan = Plan::new();
    plan.tools.insert(
        "read".into(),
        ToolSpec::new("test").with_effects(Effects::read_only(&["db:x"])),
    );
    let mut one = Node::new("one", "read");
    one.depends_on = vec!["a,b".into()];
    let mut two = Node::new("two", "read");
    two.depends_on = vec!["a".into(), "b".into()];
    let mut again = Node::new("again", "read");
    again.depends_on = vec!["a".into(), "b".into()];
    plan.nodes = vec![one, two, again];

    let (kept, removed) = deduplicate_nodes(plan);

    assert_eq!(kept.nodes.len(), 2);
    assert_eq!(removed.len(), 1);
    assert_eq!(
        (removed[0].removed.as_str(), removed[0].canonical.as_str()),
        ("again", "two")
    );
}

#[test]
fn does_not_deduplicate_effectful_nodes() {
    let mut plan = plan();
    plan.nodes.push(Node::new("a", "write").with_input(json(r#"{ "q": "x" }"#)));
    plan.nodes.push(Node::new("b", "write").with_input(json(r#"{ "q": "x" }"#)));

    let optimized = optimize(plan).unwrap();

    assert!(optimized.report().deduplicated.is_empty());
    assert_eq!(optimized.plan().nodes.len(), 2);
}

#[test]
fn eliminates_unused_pure_nodes_when_outputs_are_declared() {
    let mut plan = plan();
    plan.nodes.push(lookup("used", r#"{ "q": 1 }"#));
    plan.nodes.push(lookup("orphan", r#"{ "q": 2 }"#));
    plan.nodes.push(Node::new("effect", "write"));
    plan.outputs.insert("out".into(), ValueRef::output("used"));

    let optimized = optimize(plan).unwrap();

    assert_eq!(optimized.report().eliminated, vec!["orphan".to_owned()]);
    assert_eq!(optimized.plan().nodes.len(), 2);
}

#[test]
fn keeps_all_nodes_when_no_outputs_are_declared() {
    let mut plan = plan();
    plan.nodes.push(lookup("orphan", r#"{ "q": 2 }"#));

    let optimized = optimize(plan).unwrap();

    assert!(optimized.report().eliminated.is_empty());
    assert_eq!(optimized.plan().nodes.len(), 1);
}

#[test]
fn reports_batchable_groups_split_by_batch_size() {
    let mut plan = Plan::new();
    plan.tools.insert(
        "lookup".into(),
        ToolSpec::new("test")
            .with_effects(Effects {
                batchable: true,
                ..Effects::pure()
            })
            .with_limits(ToolLimits {
                batch_size: Some(2),
                max_concurrency: None,
            }),
    );
    for id in ["a", "b", "c", "d", "e"] {
        plan.nodes.push(lookup(id, &format!("{{ \"q\": \"{id}\" }}")));
    }

    let optimized = optimize(plan).unwrap();

    // Five nodes with batch_size 2: two pairs; the remainder runs alone.
    assert_eq!(optimized.report().batch_groups.len(), 2);
    assert_eq!(
        optimized.report().summary.estimated_tool_calls_after,
        3 // two batch dispatches + one single call
    );
    assert_eq!(optimized.report().summary.estimated_llm_turns_after, 1);
}

#[test]
fn summary_estimates_cost_from_declared_metadata() {
    let mut plan = Plan::new();
    plan.tools.insert(
        "lookup".into(),
        ToolSpec::new("test")
            .with_effects(Effects {
                batchable: true,
                ..Effects::pure()
            })
            .with_cost(ToolCost {
                fixed_ms: Some(10),
                per_call_ms: Some(5),
                tokens: Some(100),
            }),
    );
    plan.nodes.push(lookup("a", r#"{ "q": "a" }"#));
    plan.nodes.push(lookup("b", r#"{ "q": "b" }"#));

    let summary = optimize(plan).unwrap().report().summary.clone();

    // Serial: two dispatches of (10 + 5). Compiled: one batch of two.
    assert_eq!(summary.estimated_serial_ms, Some(30));
    assert_eq!(summary.estimated_compiled_ms, Some(20));
    assert_eq!(summary.estimated_tokens_before, Some(200));
    assert_eq!(summary.estimated_tokens_after, Some(200));
}

#[test]
fn summary_omits_costs_without_metadata() {
    let mut plan = plan();
    plan.nodes.push(Node::new("a", "lookup"));

    let summary = optimize(plan).unwrap().report().summary.clone();

    assert_eq!(summary.estimated_serial_ms, None);
    assert_eq!(summary.estimated_tokens_after, None);
}

#[test]
fn records_the_pass_pipeline() {
    let optimized = optimize(plan()).unwrap();

    assert_eq!(optimized.report().passes, vec!["dedup", "dce", "batch"]);
}

#[test]
fn does_not_rewrite_refs_inside_literals() {
    let mut plan = plan();
    plan.nodes.push(lookup("a", r#"{ "q": "x" }"#));
    plan.nodes.push(lookup("b", r#"{ "q": "x" }"#));
    plan.nodes
        .push(lookup("c", r#"{ "schema": { "$literal": { "$ref": "b.output" } } }"#));
    plan.outputs.insert("c".into(), ValueRef::output("c"));

    let optimized = optimize(plan).unwrap();

    let c = optimized
        .plan()
        .nodes
        .iter()
        .find(|node| node.id == "c")
        .unwrap();
    assert_eq!(
        c.input,
        json(r#"{ "schema": { "$literal": { "$ref": "b.output" } } }"#)
    );
}

#[test]
fn explains_missing_effects_as_one_grouped_diagnostic() {
    let mut plan = Plan::new();
    plan.tools.insert("unknown".into(), ToolSpec::new("test"));
    plan.nodes.push(Node::new("a", "unknown"));
    plan.nodes.push(Node::new("b", "unknown"));
    plan.nodes.push(Node::new("c", "unknown"));

    let report = explain(plan).unwrap();

    assert_eq!(report.layers.len(), 3);
    assert_eq!(report.diagnostics.len(), 1);
    assert_eq!(report.diagnostics[0].kind, DiagnosticKind::MissingEffects);
    assert_eq!(report.diagnostics[0].nodes, vec!["a", "b", "c"]);
}

#[test]
fn explains_resource_conflicts_grouped_by_resource() {
    let mut plan = plan();
    plan.nodes.push(Node::new("w1", "write"));
    plan.nodes.push(Node::new("w2", "write"));

    let report = explain(plan).unwrap();

    assert_eq!(report.diagnostics.len(), 1);
    assert_eq!(report.diagnostics[0].kind, DiagnosticKind::ResourceConflict);
    assert_eq!(report.diagnostics[0].resource.as_deref(), Some("db:item"));
    assert_eq!(report.diagnostics[0].nodes, vec!["w1", "w2"]);
}

#[test]
fn explains_read_write_conflicts() {
    let mut plan = Plan::new();
    plan.tools.insert(
        "read".into(),
        ToolSpec::new("test").with_effects(Effects::read_only(&["db:item"])),
    );
    plan.tools.insert(
        "write".into(),
        ToolSpec::new("test").with_effects(Effects {
            writes: set_of(&["db:item"]),
            ..Effects::default()
        }),
    );
    plan.nodes.push(Node::new("r", "read"));
    plan.nodes.push(Node::new("w", "write"));

    let report = explain(plan).unwrap();

    assert_eq!(report.diagnostics.len(), 1);
    assert_eq!(report.diagnostics[0].kind, DiagnosticKind::ResourceConflict);
    assert_eq!(report.diagnostics[0].nodes, vec!["r", "w"]);
}

#[test]
fn does_not_flag_transitively_ordered_pairs() {
    let mut plan = plan();
    // w1 -> gate -> w2: same-resource writers, but ordered through gate.
    plan.nodes.push(Node::new("w1", "write"));
    let mut gate = Node::new("gate", "lookup");
    gate.depends_on = vec!["w1".into()];
    plan.nodes.push(gate);
    let mut w2 = Node::new("w2", "write");
    w2.depends_on = vec!["gate".into()];
    plan.nodes.push(w2);

    let report = explain(plan).unwrap();

    assert!(report
        .diagnostics
        .iter()
        .all(|diagnostic| diagnostic.kind != DiagnosticKind::ResourceConflict));
}

#[test]
fn validates_before_optimizing() {
    let mut plan = Plan::new();
    plan.nodes.push(Node::new("a", "missing"));

    assert!(optimize(plan).is_err());
}

#[test]
fn dependencies_of_outputs_are_kept() {
    let mut plan = plan();
    plan.nodes.push(lookup("base", r#"{ "q": 1 }"#));
    plan.nodes.push(lookup("top", r#"{ "from": { "$ref": "base.output" } }"#));
    plan.nodes.push(lookup("spare", r#"{ "from": { "$ref": "base.output.x" } }"#));
    plan.outputs.insert("out".into(), ValueRef::output("top"));

    let optimized = optimize(plan).unwrap();

    assert_eq!(optimized.report().eliminated, vec!["spare".to_owned()]);
    assert_eq!(optimized.graph().layers().len(), 2);
}

#[test]
fn order_index_finds_unordered_nodes_of_other_layers() {
    let mut plan = plan();
    plan.nodes.push(Node::new("a", "write").with_input(json(r#"{ "n": 1 }"#)));
    plan.nodes.push(Node::new("b", "write").with_input(json(r#"{ "n": 2 }"#)));
    plan.nodes.push(lookup("c", r#"{ "v": { "$ref": "a.output" } }"#));
    plan.nodes.push(lookup("d", r#"{ "v": { "$ref": "c.output" } }"#));
    let graph = validate(&plan).ok().unwrap();
    assert_eq!(graph.layers(), &vec![vec!["a"], vec!["b", "c"], vec!["d"]]);

    let order = OrderIndex::new(&graph);
    assert_eq!(order.total(), 4);
    let at = |id: &str| order.index_of(id).unwrap();
    assert_eq!(order.node_id(at("c")), "c");
    assert_eq!(order.index_of("e"), None);
    for (left, right, unordered) in [
        ("a", "b", true),
        ("b", "d", true),
        ("a", "c", false),
        ("a", "d", false),
        ("b", "c", false),
        ("a", "a", false),
    ] {
        assert_eq!(order.unordered_cross_layer(at(left), at(right)), unordered);
        assert_eq!(order.unordered_cross_layer(at(right), at(left)), unordered);
    }
}

#[test]
fn aliases_are_followed_to_a_node_without_one() {
    let mut aliases: StrMap<String> = StrMap::new();
    aliases.insert("c".into(), "b".into());
    aliases.insert("b".into(), "a".into());

    assert_eq!(canonical_node("c", &aliases, 2), "a");
    assert_eq!(canonical_node("b", &aliases, 2), "a");
    assert_eq!(canonical_node("x", &aliases, 2), "x");
    let once = canonical_node("c", &aliases, 2);
    assert_eq!(canonical_node(&once, &aliases, 2), once);
    assert!(!aliases.contains_key(&once));
}
