use nary_lib::manifest::{dependencies_from_entries, is_reserved_key};
use nary_lib::{
    json_to_dependencies, root_dependency, serde_json_value_to_dependencies, Dependency,
    ResolveError,
};

fn entry(key: &str, constraint: Option<&str>) -> (String, Option<String>) {
    (key.to_string(), constraint.map(|c| c.to_string()))
}

#[test]
fn entries_become_dependencies_in_their_order() {
    let entries = vec![
        entry("zeta", Some("^1.0.0")),
        entry("alpha", Some("~2.0.0")),
        entry("mid", Some("*")),
    ];
    assert_eq!(
        dependencies_from_entries(&entries).unwrap(),
        vec![
            Dependency::new("zeta", "^1.0.0"),
            Dependency::new("alpha", "~2.0.0"),
            Dependency::new("mid", "*"),
        ]
    );
}

#[test]
fn reserved_keys_are_passed_over() {
    let entries = vec![
        entry("_comment", Some("not a dependency")),
        entry("a", Some("1.0.0")),
        entry("_", None),
        entry("b_", Some("2.0.0")),
    ];
    assert_eq!(
        dependencies_from_entries(&entries).unwrap(),
        vec![Dependency::new("a", "1.0.0"), Dependency::new("b_", "2.0.0")]
    );
}

#[test]
fn no_entries_no_dependencies() {
    assert_eq!(dependencies_from_entries(&vec![]).unwrap(), vec![]);
}

#[test]
fn first_entry_that_is_no_string_is_reported() {
    let entries = vec![
        entry("a", Some("1.0.0")),
        entry("b", None),
        entry("c", None),
    ];
    match dependencies_from_entries(&entries) {
        Err(ResolveError::ManifestShape { entry }) => assert_eq!(entry, Some("b".to_string())),
        other => panic!("expected a shape error, got {:?}", other),
    }
}

#[test]
fn reserved_keys() {
    assert!(is_reserved_key("_"));
    assert!(is_reserved_key("_resolved"));
    assert!(!is_reserved_key(""));
    assert!(!is_reserved_key("a_"));
    assert!(!is_reserved_key("-_"));
}

#[test]
fn value_that_is_an_object_declares_its_members() {
    let value: serde_json::Value =
        serde_json::from_str(r#"{"b": "^2.0.0", "_x": 1, "a": "^1.0.0"}"#).unwrap();
    assert_eq!(
        serde_json_value_to_dependencies(&value).unwrap(),
        vec![Dependency::new("b", "^2.0.0"), Dependency::new("a", "^1.0.0")]
    );
}

#[test]
fn value_that_is_no_object_declares_nothing() {
    for text in ["null", "3", "\"text\"", "[1, 2]", "true"] {
        let value: serde_json::Value = serde_json::from_str(text).unwrap();
        assert_eq!(serde_json_value_to_dependencies(&value).unwrap(), vec![]);
    }
}

#[test]
fn value_with_a_member_that_is_no_string_is_malformed() {
    let value: serde_json::Value =
        serde_json::from_str(r#"{"a": "^1.0.0", "b": {"version": "1"}}"#).unwrap();
    match serde_json_value_to_dependencies(&value) {
        Err(ResolveError::ManifestShape { entry }) => assert_eq!(entry, Some("b".to_string())),
        other => panic!("expected a shape error, got {:?}", other),
    }
}

#[test]
fn manifest_declares_what_stands_under_dependencies() {
    let text = r#"{
        "name": "app",
        "version": "0.3.0",
        "dependencies": {"left-pad": "^1.0.0", "_id": "x", "chalk": "~2.4.0"},
        "devDependencies": {"mocha": "*"}
    }"#;
    assert_eq!(
        json_to_dependencies(text).unwrap(),
        vec![Dependency::new("left-pad", "^1.0.0"), Dependency::new("chalk", "~2.4.0")]
    );
}

#[test]
fn manifest_without_dependencies_declares_nothing() {
    let text = r#"{"name": "app", "version": "0.3.0"}"#;
    assert_eq!(json_to_dependencies(text).unwrap(), vec![]);
}

#[test]
fn manifest_that_is_no_json_is_malformed() {
    match json_to_dependencies("{\"name\": ") {
        Err(ResolveError::ManifestShape { entry }) => assert_eq!(entry, None),
        other => panic!("expected a shape error, got {:?}", other),
    }
    assert!(matches!(
        root_dependency("not json"),
        Err(ResolveError::ManifestShape { entry: None })
    ));
}

#[test]
fn root_is_the_name_and_the_version() {
    let text = r#"{"name": "app", "version": "0.3.0", "dependencies": {}}"#;
    assert_eq!(root_dependency(text).unwrap(), Dependency::new("app", "0.3.0"));
}

#[test]
fn root_without_name_or_version_is_malformed() {
    match root_dependency(r#"{"version": "0.3.0"}"#) {
        Err(ResolveError::ManifestShape { entry }) => assert_eq!(entry, Some("name".to_string())),
        other => panic!("expected a shape error, got {:?}", other),
    }
    match root_dependency(r#"{"name": "app", "version": 3}"#) {
        Err(ResolveError::ManifestShape { entry }) => {
            assert_eq!(entry, Some("version".to_string()))
        }
        other => panic!("expected a shape error, got {:?}", other),
    }
}
