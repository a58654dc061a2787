//! Quality gates.

use tool_compiler::json::{Number, Value};
use tool_compiler::ordered::StrMap;
use tool_compiler::quality::examples::{check_example, check_schema, defect_complaint, example_complaint, is_example, DocumentKind};
use tool_compiler::quality::loc::{check_file, is_counted_file, is_skipped_dir, production_line_count};
use tool_compiler::quality::release::{release_check, sdk_version, workspace_version};
use tool_compiler::quality::{display, min_line_coverage, verdict};
use tool_compiler::serve::Schemas;

fn convert(value: serde_json::Value) -> Value {
    match value {
        serde_json::Value::Null => Value::Null,
        serde_json::Value::Bool(flag) => Value::Bool(flag),
        serde_json::Value::Number(number) => Value::Number(match (number.as_u64(), number.as_i64()) {
            (Some(n), _) => Number::PosInt(n),
            (None, Some(n)) => Number::NegInt(n),
            (None, None) => Number::Float(number.to_string()),
        }),
        serde_json::Value::String(text) => Value::String(text),
        serde_json::Value::Array(items) => Value::Array(items.into_iter().map(convert).collect()),
        serde_json::Value::Object(members) => {
            let mut map = StrMap::new();
            for (key, member) in members {
                map.insert(key, convert(member));
            }
            Value::Object(map)
        }
    }
}

fn json(text: &str) -> Value {
    convert(serde_json::from_str(text).unwrap())
}

#[test]
fn counts_production_lines_only() {
    let content = r#"fn real() {}

#[cfg(test)]
mod tests {
    #[test]
    fn t() { let brace = "}"; }
}
"#;
    assert_eq!(production_line_count(content), 2);
}

#[test]
fn semicolon_test_module_declarations_do_not_swallow_the_file() {
    let content = "fn a() {}\n#[cfg(test)]\nmod tests;\nfn b() {}\n";

    assert_eq!(production_line_count(content), 2);
}

#[test]
fn braces_in_strings_and_comments_do_not_confuse_the_skip() {
    let content = r##"fn real() {}
#[cfg(test)]
mod tests {
    // a comment with }
    const RAW: &str = r#"{"key": "}"}"#;
    fn t() { let c = '}'; }
}
fn also_real() {}
"##;
    assert_eq!(production_line_count(content), 2);
}

#[test]
fn block_comments_and_lifetimes_are_read() {
    let content = "#[cfg(test)]\nmod tests {\n/* } \n } */\nfn f<'a>(x: &'a str) { \"\\\"}\"; }\n}\nfn b() {}\n";

    assert_eq!(production_line_count(content), 1);
    assert_eq!(production_line_count("a\nb\nc"), 3);
    assert_eq!(production_line_count("#[cfg(test)]"), 0);
}

#[test]
fn long_files_are_reported() {
    let content = "x\n".repeat(501);

    assert_eq!(
        check_file("src/a.rs", &content),
        Some("src/a.rs has 501 production lines; max is 500".to_owned())
    );
    assert_eq!(check_file("src/a.rs", "x\n"), None);
    assert!(is_skipped_dir("target") && is_skipped_dir("tests") && !is_skipped_dir("src"));
    assert!(is_counted_file("lib.rs") && !is_counted_file("tests.rs") && !is_counted_file(".rs"));
}

#[test]
fn releases_are_consistent_or_refused() {
    let manifest = "[workspace.package]\n  version = \"1.2.3\"\nversion = \"9\"\n";
    let version = workspace_version(manifest).unwrap();
    assert_eq!(version, "1.2.3");
    assert_eq!(
        workspace_version("[package]\n").unwrap_err(),
        "workspace Cargo.toml has no version"
    );
    assert_eq!(sdk_version(&json(r#"{"version":"1.2.3"}"#)).unwrap(), "1.2.3");
    assert_eq!(
        sdk_version(&json(r#"{"version":1}"#)).unwrap_err(),
        "sdk/node/package.json has no version"
    );

    assert!(release_check("1.2.3", "1.2.3", "# Log\n## 1.2.3\n").is_ok());
    assert_eq!(
        release_check("1.2.3", "1.2.4", "## 1.0").unwrap_err(),
        "version drift: Cargo workspace is 1.2.3, sdk/node package.json is 1.2.4\n\
         CHANGELOG.md has no '## 1.2.3' section for the current version"
    );
}

#[test]
fn examples_are_held_to_their_schema() {
    let schemas = Schemas {
        plan: json(r#"{"type":"object","required":["nodes"]}"#),
        intent: json(r#"{"type":"object","required":["version"]}"#),
        recipe: json(r#"{"type":"array"}"#),
    };
    assert_eq!(check_example("a.json", &json(r#"{"nodes":[]}"#), &schemas), None);
    let complaint = check_example("b.json", &json(r#"{"steps":[]}"#), &schemas).unwrap();
    assert!(complaint.starts_with("b.json does not match the intent schema: "));
    let complaint = check_example("c.json", &json(r#"{"recipe":{}}"#), &schemas).unwrap();
    assert!(complaint.starts_with("c.json does not match the recipe schema: "));

    assert_eq!(check_schema("s", &json(r#"{"type":"object"}"#)), None);
    assert!(check_schema("s", &json(r#"{"type":"nonsense"}"#))
        .unwrap()
        .starts_with("s: schema does not compile: "));
    assert_eq!(
        example_complaint("p", DocumentKind::Plan, Some("why")).unwrap(),
        "p does not match the plan schema: why"
    );
    assert_eq!(defect_complaint("s", "why"), "s: schema does not compile: why");
    assert!(is_example("plan.json") && !is_example("runtime.config.example.json"));
    assert!(!is_example("plan.txt") && !is_example(".json"));
}

#[test]
fn gates_report_every_error() {
    assert!(verdict(&vec![]).is_ok());
    assert_eq!(
        verdict(&vec!["a".to_owned(), "b".to_owned()]).unwrap_err(),
        "a\nb"
    );
    assert_eq!(min_line_coverage(None), Ok(95));
    assert_eq!(min_line_coverage(Some("100")), Ok(100));
    assert!(min_line_coverage(Some("101")).is_err());
    assert!(min_line_coverage(Some("x")).is_err());
    assert_eq!(display("a\\b/c"), "a/b/c");
}

#[test]
fn strings_over_several_lines_do_not_confuse_the_skip() {
    let text = "fn a() {}\n#[cfg(test)]\nmod tests {\n    const T: &str = \"{\n{{\";\n    \
                const R: &str = r#\"}\n}\"}\n\"#;\n}\nfn b() {}\n";

    assert_eq!(production_line_count(text), 2);
}
