//! References, effects, canonical text and documents.

use tool_compiler::canonical::canonical_json_string;
use tool_compiler::effects::{resolve_resource_template, scalar_as_text, set_of, Effects};
use tool_compiler::json::{Number, Value};
use tool_compiler::ordered::{StrMap, StrSet};
use tool_compiler::refs::{
    collect_refs, escape_segment, unescape_segment, validate_node_id, RefParseError, ValueRef,
};

fn convert(value: serde_json::Value) -> Value {
    match value {
        serde_json::Value::Null => Value::Null,
        serde_json::Value::Bool(flag) => Value::Bool(flag),
        serde_json::Value::Number(number) => Value::Number(match (number.as_u64(), number.as_i64()) {
            (Some(n), _) => Number::PosInt(n),
            (None, Some(n)) => Number::NegInt(n),
            (None, None) => Number::Float(number.to_string()),
        }),
        serde_json::Value::String(text) => Value::String(text),
        serde_json::Value::Array(items) => Value::Array(items.into_iter().map(convert).collect()),
        serde_json::Value::Object(members) => {
            let mut map = StrMap::new();
            for (key, member) in members {
                map.insert(key, convert(member));
            }
            Value::Object(map)
        }
    }
}

fn json(text: &str) -> Value {
    convert(serde_json::from_str(text).unwrap())
}

fn path(segments: &[&str]) -> Vec<String> {
    segments.iter().map(|s| s.to_string()).collect()
}

#[test]
fn parses_value_refs() {
    let value_ref: ValueRef = "user.output.profile.name".parse().unwrap();

    assert_eq!(value_ref.node(), "user");
    assert_eq!(value_ref.path(), &["profile", "name"]);
    assert_eq!(value_ref.render(), "user.output.profile.name");
}

#[test]
fn rejects_invalid_refs() {
    assert!("user.profile.name".parse::<ValueRef>().is_err());
    assert!(".output".parse::<ValueRef>().is_err());
}

#[test]
fn rejects_empty_path_segments() {
    assert_eq!(
        "a.output.".parse::<ValueRef>().unwrap_err(),
        RefParseError::EmptySegment("a.output.".into())
    );
    assert!("a.output.x..y".parse::<ValueRef>().is_err());
}

#[test]
fn escapes_dotted_path_segments() {
    let value_ref = ValueRef::new("node", path(&["a.b", "c~d"]));
    let rendered = value_ref.render();

    assert_eq!(rendered, "node.output.a~1b.c~0d");
    assert_eq!(rendered.parse::<ValueRef>().unwrap(), value_ref);
}

#[test]
fn validates_node_ids() {
    assert!(validate_node_id("fine_id-1").is_ok());
    assert_eq!(validate_node_id("").unwrap_err(), RefParseError::EmptyNodeId);
    assert_eq!(
        validate_node_id("a.b").unwrap_err(),
        RefParseError::NodeIdContainsDot("a.b".into())
    );
}

#[test]
fn collects_nested_refs() {
    let value = json(
        r#"{ "user": { "$ref": "user.output" }, "items": [ { "id": { "$ref": "order.output.id" } } ] }"#,
    );

    let mut refs = collect_refs(&value).unwrap();
    refs.sort();

    assert_eq!(
        refs,
        vec![ValueRef::new("order", path(&["id"])), ValueRef::output("user")]
    );
}

#[test]
fn rejects_invalid_nested_refs() {
    let value = json(r#"{ "bad": { "$ref": "missing-output" } }"#);

    assert!(collect_refs(&value).is_err());
}

#[test]
fn rejects_non_string_ref_values() {
    let error = collect_refs(&json(r#"{ "bad": { "$ref": 123 } }"#)).unwrap_err();

    assert!(matches!(error, RefParseError::NonStringRef(_)));
}

#[test]
fn rejects_refs_mixed_with_other_keys() {
    let error =
        collect_refs(&json(r#"{ "bad": { "$ref": "a.output", "extra": 1 } }"#)).unwrap_err();

    assert!(matches!(error, RefParseError::RefWithExtraKeys(keys) if keys == "extra"));
}

#[test]
fn literal_objects_shield_ref_shaped_data() {
    let value =
        json(r##"{ "schema": { "$literal": { "$ref": "#/definitions/user", "extra": 1 } } }"##);

    assert_eq!(collect_refs(&value).unwrap(), Vec::<ValueRef>::new());
}

#[test]
fn reference_errors_have_texts() {
    assert_eq!(
        "x".parse::<ValueRef>().unwrap_err(),
        RefParseError::Invalid("x".into())
    );
    for error in [
        RefParseError::Invalid("x".into()),
        RefParseError::EmptySegment("x".into()),
        RefParseError::NonStringRef("x".into()),
        RefParseError::RefWithExtraKeys("x".into()),
        RefParseError::NodeIdContainsDot("x".into()),
    ] {
        assert!(error.message().contains('x'), "{}", error.message());
    }
}

#[test]
fn rendered_references_parse_back() {
    for segments in [vec![], vec!["a.b"], vec!["~", "~1", "."], vec!["0", "x~0y"]] {
        let value_ref = ValueRef::new("node~x", path(&segments));
        let parsed: ValueRef = value_ref.render().parse().unwrap();
        assert_eq!(parsed.node(), "node~x");
        assert_eq!(parsed.path(), &path(&segments));
    }
    assert_eq!(escape_segment("a.b~c"), "a~1b~0c");
    assert_eq!(unescape_segment("a~1b~0c"), "a.b~c");
}

#[test]
fn pure_with_writes_is_contradictory() {
    let effects = Effects {
        writes: set_of(&["db:x"]),
        ..Effects::pure()
    };

    assert!(effects.is_contradictory());
    assert!(!Effects::pure().is_contradictory());
}

#[test]
fn vacuous_effects_declare_nothing() {
    assert!(!Effects::default().declares_side_effects());
    assert!(!Effects {
        idempotent: true,
        batchable: true,
        ..Effects::default()
    }
    .declares_side_effects());
    assert!(Effects::pure().declares_side_effects());
    assert!(Effects::read_only(&["api:x"]).declares_side_effects());
}

#[test]
fn resolves_templates_from_scalar_inputs() {
    let input = json(r#"{ "path": "src/lib.rs", "user": { "id": 7 } }"#);

    assert_eq!(resolve_resource_template("file:{path}", &input), "file:src/lib.rs");
    assert_eq!(
        resolve_resource_template("user:{user.id}:profile", &input),
        "user:7:profile"
    );
    assert_eq!(resolve_resource_template("static", &input), "static");
}

#[test]
fn unresolvable_templates_stay_conservative() {
    let input = json(r#"{ "path": { "$ref": "other.output" }, "list": [1] }"#);

    assert_eq!(resolve_resource_template("file:{path}", &input), "file:{path}");
    assert_eq!(resolve_resource_template("x:{missing}", &input), "x:{missing}");
    assert_eq!(resolve_resource_template("x:{list}", &input), "x:{list}");
}

#[test]
fn scalars_have_texts() {
    assert_eq!(scalar_as_text(&json("7")), Some("7".to_owned()));
    assert_eq!(scalar_as_text(&json("-7")), Some("-7".to_owned()));
    assert_eq!(scalar_as_text(&json("true")), Some("true".to_owned()));
    assert_eq!(scalar_as_text(&json("\"x\"")), Some("x".to_owned()));
    assert_eq!(scalar_as_text(&json("[]")), None);
}

#[test]
fn sorts_keys_recursively() {
    let value = json(r#"{ "b": { "d": 1, "c": [2, { "z": 1, "a": 2 }] }, "a": null }"#);

    assert_eq!(
        canonical_json_string(&value),
        r#"{"a":null,"b":{"c":[2,{"a":2,"z":1}],"d":1}}"#
    );
}

#[test]
fn escapes_strings_like_json() {
    let value = json(r#"{ "quote\"key": "line\nbreak" }"#);

    assert_eq!(
        canonical_json_string(&value),
        r#"{"quote\"key":"line\nbreak"}"#
    );
}

#[test]
fn identical_values_share_a_canonical_form() {
    let left = json(r#"{"x":1,"y":2}"#);
    let right = json(r#"{"y":2,"x":1}"#);

    assert_eq!(canonical_json_string(&left), canonical_json_string(&right));
}

#[test]
fn canonical_text_is_what_serde_json_writes() {
    let text = "{\"a\":[-1,1.5,true,null,\"\\u0001\\t\\\\ \u{e9}\u{1f600}\"],\"b\":{}}";
    let parsed: serde_json::Value = serde_json::from_str(text).unwrap();

    assert_eq!(canonical_json_string(&json(text)), serde_json::to_string(&parsed).unwrap());
}

#[test]
fn distinct_documents_have_distinct_canonical_text() {
    let texts = [
        "null",
        "true",
        "0",
        "1",
        "-1",
        "1.5",
        "\"1\"",
        "\"null\"",
        "[]",
        "[1]",
        "[\"1\"]",
        "[1,1]",
        "[[1],1]",
        "{}",
        "{\"a\":1}",
        "{\"a\":\"1\"}",
        "{\"a\":{\"b\":1}}",
        "{\"a\":{},\"b\":1}",
    ];
    for (i, left) in texts.iter().enumerate() {
        for (j, right) in texts.iter().enumerate() {
            let same = canonical_json_string(&json(left)) == canonical_json_string(&json(right));
            assert_eq!(same, i == j);
        }
    }
}

#[test]
fn maps_keep_their_keys_in_order() {
    let mut map: StrMap<u32> = StrMap::new();
    assert!(map.insert("b".to_owned(), 2).is_none());
    assert!(map.insert("a".to_owned(), 1).is_none());
    assert_eq!(map.insert("b".to_owned(), 3), Some(2));

    assert_eq!(map.len(), 2);
    assert_eq!(map.key_at(0), "a");
    assert_eq!(map.get("b"), Some(&3));
    assert_eq!(map.remove("a"), Some(1));
    assert!(!map.contains_key("a"));
}

#[test]
fn sets_tell_overlap() {
    let a = set_of(&["x", "y"]);
    let mut b = StrSet::new();
    assert!(a.is_disjoint(&b));
    assert!(b.insert("y".to_owned()));
    assert!(!b.insert("y".to_owned()));
    assert!(!a.is_disjoint(&b));
    b.extend(&a);
    assert_eq!(b.len(), 2);
    assert_eq!(b.item_at(0), "x");
}

#[test]
fn fields_give_back_what_was_set() {
    let value = Value::empty_object()
        .with("b", Value::integer(-3))
        .with("a", Value::text("t"))
        .with("b", Value::number(4));

    assert_eq!(value, json(r#"{"a":"t","b":4}"#));
    assert_eq!(value.text_at("a"), Some("t"));
    assert_eq!(value.number_at("b"), Some(4));
    assert_eq!(Value::integer(-3).as_i64(), Some(-3));
    assert!(value.get("c").is_none());
}

#[test]
fn references_parse_through_the_standard_trait() {
    let parsed: ValueRef = "a.output.b".parse().unwrap();
    assert_eq!(parsed, ValueRef::parse("a.output.b").unwrap());
    assert_eq!("a.b".parse::<ValueRef>(), ValueRef::parse("a.b"));
    assert!("a.b".parse::<ValueRef>().is_err());
}
