use nary_lib::semver::{
    digits_limit, is_plain_text, is_valid_constraint, is_valid_version, satisfies,
};
use nary_lib::{match_version, Dependency, ResolveError};

fn versions(list: &[&str]) -> Vec<String> {
    list.iter().map(|v| v.to_string()).collect()
}

#[test]
fn caret_range_takes_the_last_version_it_admits() {
    let wanted = Dependency::new("pkg", "^1.2.0");
    let listed = versions(&["1.1.0", "1.2.5", "2.0.0"]);
    let at = match_version(&wanted, &listed).unwrap();
    assert_eq!(at, 1);
    assert_eq!(listed[at], "1.2.5");
}

#[test]
fn no_version_admitted_is_an_error() {
    let wanted = Dependency::new("pkg", "^3.0.0");
    let listed = versions(&["1.1.0", "1.2.5"]);
    match match_version(&wanted, &listed) {
        Err(ResolveError::NoMatchingVersion { dependency }) => {
            assert_eq!(dependency, Dependency::new("pkg", "^3.0.0"));
        }
        other => panic!("expected no match, got {:?}", other),
    }
}

#[test]
fn no_version_listed_is_an_error() {
    let wanted = Dependency::new("pkg", "^1.0.0");
    assert!(matches!(
        match_version(&wanted, &versions(&[])),
        Err(ResolveError::NoMatchingVersion { .. })
    ));
}

#[test]
fn the_order_of_the_registry_decides() {
    let wanted = Dependency::new("pkg", "^1.0.0");
    let listed = versions(&["1.5.0", "1.2.0", "1.9.0", "1.1.0"]);
    assert_eq!(match_version(&wanted, &listed).unwrap(), 3);
    let listed = versions(&["1.5.0", "1.2.0", "2.0.0"]);
    assert_eq!(match_version(&wanted, &listed).unwrap(), 1);
}

#[test]
fn constraint_that_is_no_range_is_an_error() {
    let wanted = Dependency::new("pkg", "nonsense");
    match match_version(&wanted, &versions(&["1.0.0"])) {
        Err(ResolveError::ConstraintParse { dependency }) => {
            assert_eq!(dependency, Dependency::new("pkg", "nonsense"));
        }
        other => panic!("expected a constraint error, got {:?}", other),
    }
}

#[test]
fn constraint_error_comes_before_any_version_is_read() {
    let wanted = Dependency::new("pkg", "nonsense");
    assert!(matches!(
        match_version(&wanted, &versions(&["99999999999999999999.0.0"])),
        Err(ResolveError::ConstraintParse { .. })
    ));
}

#[test]
fn version_that_is_none_is_an_error() {
    let wanted = Dependency::new("pkg", "^1.0.0");
    let listed = versions(&["1.0.0", "99999999999999999999.0.0"]);
    match match_version(&wanted, &listed) {
        Err(ResolveError::VersionParse { version }) => {
            assert_eq!(version, "99999999999999999999.0.0");
        }
        other => panic!("expected a version error, got {:?}", other),
    }
}

#[test]
fn version_that_is_none_is_not_reached_behind_a_match() {
    let wanted = Dependency::new("pkg", "^1.0.0");
    let listed = versions(&["99999999999999999999.0.0", "1.0.0"]);
    assert_eq!(match_version(&wanted, &listed).unwrap(), 1);
}

#[test]
fn plain_texts() {
    assert!(is_plain_text(""));
    assert!(is_plain_text("^1.2.3"));
    assert!(is_plain_text(">=1.2.7 <1.3.0 || 2.x"));
    assert!(is_plain_text("123456789012345678.0.0"));
    assert!(!is_plain_text("1234567890123456789.0.0"));
    assert!(!is_plain_text("1.0.1234567890123456789"));
    assert!(is_plain_text("123456789012345678.123456789012345678"));
    assert!(!is_plain_text("^1.2.3\u{e9}"));
    assert!(!is_plain_text("\u{663}.0.0"));
}

#[test]
fn number_too_long_is_no_constraint() {
    assert!(!is_valid_constraint("^1234567890123456789.0.0"));
    assert!(!is_valid_constraint(">99999999999999999999.x"));
    assert!(is_valid_constraint("^123456789012345678.0.0"));
    let wanted = Dependency::new("pkg", ">99999999999999999999.x");
    assert!(matches!(
        match_version(&wanted, &versions(&["1.0.0"])),
        Err(ResolveError::ConstraintParse { .. })
    ));
}

#[test]
fn constraints_and_versions() {
    assert!(is_valid_constraint("^1.2.0"));
    assert!(is_valid_constraint("~1.2"));
    assert!(is_valid_constraint("*"));
    assert!(is_valid_constraint(""));
    assert!(is_valid_constraint("1.0.0 - 2.0.0"));
    assert!(!is_valid_constraint("nonsense"));
    assert!(is_valid_version("1.2.3"));
    assert!(is_valid_version("1.2.3-beta.1"));
    assert!(!is_valid_version("99999999999999999999.0.0"));
    assert!(!is_valid_version("banana"));
    assert!(!is_valid_version(""));
    assert!(!is_valid_version("1.2"));
    assert!(!is_valid_version("^1.2.3"));
}

#[test]
fn a_text_that_is_no_version_is_an_error_where_it_is_reached() {
    let listed = versions(&["1.0.0", "banana"]);
    for constraint in ["^1.0.0", "*", "", "^2.0.0"] {
        match match_version(&Dependency::new("pkg", constraint), &listed) {
            Err(ResolveError::VersionParse { version }) => assert_eq!(version, "banana"),
            other => panic!("expected a version error, got {:?}", other),
        }
    }
    let listed = versions(&["banana", "1.0.0"]);
    assert_eq!(match_version(&Dependency::new("pkg", "*"), &listed).unwrap(), 1);
    match match_version(&Dependency::new("pkg", "^2.0.0"), &listed) {
        Err(ResolveError::VersionParse { version }) => assert_eq!(version, "banana"),
        other => panic!("expected a version error, got {:?}", other),
    }
}

#[test]
fn ranges_admit_versions() {
    assert!(satisfies("^1.2.0", "1.2.5"));
    assert!(!satisfies("^1.2.0", "2.0.0"));
    assert!(!satisfies("^1.2.0", "1.1.0"));
    assert!(satisfies("~1.2.0", "1.2.9"));
    assert!(!satisfies("~1.2.0", "1.3.0"));
    assert!(satisfies(">=1.2.7 <1.3.0", "1.2.8"));
    assert!(!satisfies(">=1.2.7 <1.3.0", "1.3.0"));
    assert!(satisfies("1.2.7 || >=1.2.9 <2.0.0", "1.4.6"));
    assert!(!satisfies("1.2.7 || >=1.2.9 <2.0.0", "1.2.8"));
    assert!(satisfies("*", "0.0.1"));
    assert!(!satisfies("*", "banana"));
    assert!(!satisfies("*", ""));
    assert!(!satisfies("nonsense", "1.0.0"));
    assert!(!satisfies("^1234567890123456789.0.0", "1.0.0"));
    assert!(!satisfies("^1.0.0", "99999999999999999999.0.0"));
}

#[test]
fn longest_numbers_are_computed_with() {
    let n = "9".repeat(digits_limit());
    let shapes = [
        "^{n}", "^{n}.{n}", "^{n}.{n}.{n}", "^0.{n}", "^0.0.{n}", "^0.{n}.{n}-a",
        "~{n}", "~{n}.{n}", "~{n}.{n}.{n}", "~0.{n}.{n}-a", "~>{n}.{n}",
        ">{n}", ">{n}.x", ">{n}.{n}.x", "<={n}", "<={n}.x", "<={n}.{n}.x", ">={n}.*", "<{n}.{n}",
        "{n}", "{n}.x", "{n}.{n}", "{n}.{n}.x", "={n}.{n}.{n}",
        "{n} - {n}", "{n}.{n} - {n}.{n}", "1.2.3 - {n}", "1.2.3 - {n}.{n}", "{n}.{n}.{n} - {n}.{n}.{n}",
        ">={n}.{n}.{n} <{n}.{n}.{n} || {n}.x || ^{n}",
    ];
    for shape in shapes {
        let constraint = shape.replace("{n}", &n);
        assert!(is_plain_text(&constraint));
        let valid = is_valid_constraint(&constraint);
        let admitted = satisfies(&constraint, "1.0.0");
        assert!(valid || !admitted, "{} admits a version and is no constraint", constraint);
    }
    assert!(is_valid_constraint(&format!("^{}.0.0", n)));
    assert!(satisfies(&format!("^{}.0.0", n), &format!("{}.1.0", n)));
    assert!(!satisfies(&format!("^{}.0.0", n), "1.0.0"));
    let too_long = format!("^{}9.0.0", n);
    assert!(!is_plain_text(&too_long));
    assert!(!is_valid_constraint(&too_long));
}

#[test]
fn limit_of_digits() {
    assert_eq!(digits_limit(), if usize::BITS >= 64 { 18 } else { 9 });
}
