//! Validation and layering of plans.

use tool_compiler::effects::{set_of, Effects};
use tool_compiler::graph::resolved::ResolvedEffects;
use tool_compiler::graph::validate::{validate, GraphError};
use tool_compiler::json::{Number, Value};
use tool_compiler::ordered::StrMap;
use tool_compiler::plan::{Node, Plan, ToolSpec, When};
use tool_compiler::refs::ValueRef;

fn convert(value: serde_json::Value) -> Value {
    match value {
        serde_json::Value::Null => Value::Null,
        serde_json::Value::Bool(flag) => Value::Bool(flag),
        serde_json::Value::Number(number) => Value::Number(match (number.as_u64(), number.as_i64()) {
            (Some(n), _) => Number::PosInt(n),
            (None, Some(n)) => Number::NegInt(n),
            (None, None) => Number::Float(number.to_string()),
        }),
        serde_json::Value::String(text) => Value::String(text),
        serde_json::Value::Array(items) => Value::Array(items.into_iter().map(convert).collect()),
        serde_json::Value::Object(members) => {
            let mut map = StrMap::new();
            for (key, member) in members {
                map.insert(key, convert(member));
            }
            Value::Object(map)
        }
    }
}

fn json(text: &str) -> Value {
    convert(serde_json::from_str(text).unwrap())
}

fn plan_with_tools() -> Plan {
    let mut plan = Plan::new();
    plan.tools.insert(
        "read_user".into(),
        ToolSpec::new("test").with_effects(Effects::read_only(&["api:user"])),
    );
    plan.tools.insert(
        "read_orders".into(),
        ToolSpec::new("test").with_effects(Effects::read_only(&["api:orders"])),
    );
    plan.tools.insert(
        "write_user".into(),
        ToolSpec::new("test").with_effects(Effects {
            writes: set_of(&["api:user"]),
            idempotent: true,
            ..Effects::default()
        }),
    );
    plan
}

#[test]
fn builds_dependencies_from_refs() {
    let mut plan = plan_with_tools();
    plan.nodes.push(Node::new("user", "read_user"));
    plan.nodes.push(
        Node::new("orders", "read_orders")
            .with_input(json(r#"{ "user_id": { "$ref": "user.output.id" } }"#)),
    );

    let graph = validate(&plan).unwrap();

    assert_eq!(graph.dependencies().get("orders").unwrap(), &set_of(&["user"]));
    assert_eq!(
        graph.layers(),
        &[vec!["user".to_owned()], vec!["orders".to_owned()]]
    );
}

#[test]
fn independent_read_only_nodes_share_a_layer() {
    let mut plan = plan_with_tools();
    plan.nodes.push(Node::new("user", "read_user"));
    plan.nodes.push(Node::new("orders", "read_orders"));

    let graph = validate(&plan).unwrap();

    assert_eq!(
        graph.layers(),
        &[vec!["orders".to_owned(), "user".to_owned()]]
    );
}

#[test]
fn conflicting_writes_do_not_share_a_layer() {
    let mut plan = plan_with_tools();
    plan.nodes.push(Node::new("read", "read_user"));
    plan.nodes.push(Node::new("write", "write_user"));

    let graph = validate(&plan).unwrap();

    assert_eq!(
        graph.layers(),
        &[vec!["read".to_owned()], vec!["write".to_owned()]]
    );
}

#[test]
fn unknown_effects_are_not_parallelized() {
    let mut plan = Plan::new();
    plan.tools.insert("a".into(), ToolSpec::new("test"));
    plan.nodes.push(Node::new("one", "a"));
    plan.nodes.push(Node::new("two", "a"));

    let graph = validate(&plan).unwrap();

    assert_eq!(
        graph.layers(),
        &[vec!["one".to_owned()], vec!["two".to_owned()]]
    );
}

#[test]
fn vacuous_effects_are_not_parallelized() {
    let mut plan = Plan::new();
    plan.tools.insert(
        "a".into(),
        ToolSpec::new("test").with_effects(Effects {
            idempotent: true,
            ..Effects::default()
        }),
    );
    plan.nodes.push(Node::new("one", "a"));
    plan.nodes.push(Node::new("two", "a"));

    let graph = validate(&plan).unwrap();

    assert_eq!(graph.layers().len(), 2);
}

#[test]
fn commutative_same_tool_writes_share_a_layer() {
    let mut plan = Plan::new();
    plan.tools.insert(
        "increment".into(),
        ToolSpec::new("test").with_effects(Effects {
            writes: set_of(&["db:counter"]),
            commutative: true,
            idempotent: false,
            ..Effects::default()
        }),
    );
    plan.nodes.push(Node::new("one", "increment"));
    plan.nodes.push(Node::new("two", "increment"));

    let graph = validate(&plan).unwrap();

    assert_eq!(graph.layers().len(), 1);
}

#[test]
fn resource_templates_resolve_per_node() {
    let mut plan = Plan::new();
    plan.tools.insert(
        "write_file".into(),
        ToolSpec::new("fs").with_effects(Effects {
            writes: set_of(&["file:{path}"]),
            idempotent: true,
            ..Effects::default()
        }),
    );
    plan.nodes
        .push(Node::new("a", "write_file").with_input(json(r#"{ "path": "a.txt" }"#)));
    plan.nodes
        .push(Node::new("b", "write_file").with_input(json(r#"{ "path": "b.txt" }"#)));
    plan.nodes
        .push(Node::new("c", "write_file").with_input(json(r#"{ "path": "a.txt" }"#)));

    let graph = validate(&plan).unwrap();

    assert!(graph.resolved_effects().get("a").unwrap().writes.contains("file:a.txt"));
    // a and b write different files and may share a layer; c conflicts with a.
    assert_eq!(graph.layers()[0], vec!["a".to_owned(), "b".to_owned()]);
    assert_eq!(graph.layers()[1], vec!["c".to_owned()]);
}

#[test]
fn rejects_pure_tools_that_write() {
    let mut plan = Plan::new();
    plan.tools.insert(
        "broken".into(),
        ToolSpec::new("test").with_effects(Effects {
            writes: set_of(&["db:x"]),
            ..Effects::pure()
        }),
    );
    plan.nodes.push(Node::new("a", "broken"));

    assert!(matches!(validate(&plan), Err(GraphError::InvalidEffects { .. })));
}

#[test]
fn rejects_self_references() {
    let mut plan = plan_with_tools();
    plan.nodes.push(
        Node::new("loop", "read_user").with_input(json(r#"{ "value": { "$ref": "loop.output" } }"#)),
    );

    assert_eq!(validate(&plan), Err(GraphError::SelfReference("loop".into())));
}

#[test]
fn rejects_self_dependencies() {
    let mut plan = plan_with_tools();
    let mut node = Node::new("loop", "read_user");
    node.depends_on = vec!["loop".into()];
    plan.nodes.push(node);

    assert_eq!(validate(&plan), Err(GraphError::SelfReference("loop".into())));
}

#[test]
fn rejects_invalid_node_ids() {
    let mut plan = plan_with_tools();
    plan.nodes.push(Node::new("a.b", "read_user"));

    assert!(matches!(validate(&plan), Err(GraphError::InvalidNodeId(_))));
}

#[test]
fn when_and_for_each_create_dependencies() {
    let mut plan = plan_with_tools();
    plan.nodes.push(Node::new("gate", "read_user"));
    plan.nodes.push(Node::new("items", "read_orders"));
    plan.nodes.push(
        Node::new("send", "read_orders")
            .with_for_each(ValueRef::new("items", vec!["list".into()]))
            .with_when(When::truthy(ValueRef::output("gate"))),
    );

    let graph = validate(&plan).unwrap();

    assert_eq!(
        graph.dependencies().get("send").unwrap(),
        &set_of(&["gate", "items"])
    );
}

#[test]
fn rejects_unknown_output_ref() {
    let mut plan = plan_with_tools();
    plan.outputs.insert("result".into(), ValueRef::output("missing"));

    assert!(matches!(
        validate(&plan),
        Err(GraphError::UnknownOutputReference { .. })
    ));
}

#[test]
fn rejects_cycles() {
    let mut plan = plan_with_tools();
    let mut a = Node::new("a", "read_user");
    a.depends_on = vec!["b".into()];
    let mut b = Node::new("b", "read_user");
    b.depends_on = vec!["a".into()];
    plan.nodes.push(a);
    plan.nodes.push(b);

    assert!(matches!(validate(&plan), Err(GraphError::Cycle(_))));
}

#[test]
fn deep_chains_do_not_overflow_the_stack() {
    let mut plan = Plan::new();
    plan.tools.insert(
        "echo".into(),
        ToolSpec::new("test").with_effects(Effects::pure()),
    );
    for index in 0..50_000 {
        let mut node = Node::new(&format!("n{index}"), "echo");
        if index > 0 {
            node.depends_on = vec![format!("n{}", index - 1)];
        }
        plan.nodes.push(node);
    }

    let graph = validate(&plan).unwrap();

    assert_eq!(graph.layers().len(), 50_000);
}

#[test]
fn rejects_unsupported_versions() {
    let mut plan = plan_with_tools();
    plan.version = "999".into();

    assert!(matches!(
        validate(&plan),
        Err(GraphError::UnsupportedVersion(version)) if version == "999"
    ));
}

#[test]
fn rejects_duplicate_nodes() {
    let mut plan = plan_with_tools();
    plan.nodes.push(Node::new("same", "read_user"));
    plan.nodes.push(Node::new("same", "read_user"));

    assert!(matches!(validate(&plan), Err(GraphError::DuplicateNode(id)) if id == "same"));
}

#[test]
fn rejects_unknown_tools() {
    let mut plan = plan_with_tools();
    plan.nodes.push(Node::new("bad", "missing"));

    assert!(matches!(validate(&plan), Err(GraphError::UnknownTool { .. })));
}

#[test]
fn rejects_unknown_explicit_dependencies() {
    let mut plan = plan_with_tools();
    let mut node = Node::new("bad", "read_user");
    node.depends_on = vec!["missing".into()];
    plan.nodes.push(node);

    assert!(matches!(validate(&plan), Err(GraphError::UnknownDependency { .. })));
}

#[test]
fn rejects_invalid_refs_in_inputs() {
    let mut plan = plan_with_tools();
    plan.nodes.push(
        Node::new("bad", "read_user").with_input(json(r#"{ "value": { "$ref": "bad-ref" } }"#)),
    );

    assert!(matches!(
        validate(&plan),
        Err(GraphError::InvalidNodeReference { .. })
    ));
}

#[test]
fn graph_errors_have_texts() {
    let error = GraphError::UnknownTool {
        node: "n".into(),
        tool: "t".into(),
    };
    assert!(error.message().contains("'n'") && error.message().contains("'t'"));
    assert!(GraphError::Cycle("x".into()).message().contains("cycle"));
}

#[test]
fn layers_follow_dependencies_and_keep_conflicts_apart() {
    let mut plan = plan_with_tools();
    plan.nodes.push(Node::new("w", "write_user"));
    let mut r = Node::new("r", "read_user");
    r.depends_on = vec!["o".into()];
    plan.nodes.push(r);
    plan.nodes.push(Node::new("o", "read_orders"));

    let graph = validate(&plan).unwrap();

    assert_eq!(
        graph.layers(),
        &[vec!["o".to_owned(), "w".to_owned()], vec!["r".to_owned()]]
    );
    let w = graph.resolved_effects().get("w").unwrap();
    let r = graph.resolved_effects().get("r").unwrap();
    assert!(!w.can_run_with(r));
    assert!(!r.can_run_with(w));
    let unknown = ResolvedEffects::for_node(&Node::new("u", "x"), None);
    assert!(!unknown.can_run_with(r));
}
