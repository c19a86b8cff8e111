use docgraph::names::{
    eq_ignoring_case_dash_underscore, eq_ignoring_dash_underscore, CrateName, ProjectNames,
};

fn project(members: usize, default: Option<&str>) -> ProjectNames {
    ProjectNames {
        available: vec![
            "my-crate".to_string(),
            "serde_json".to_string(),
            "rustc_internal".to_string(),
            "std".to_string(),
        ],
        workspace_members: members,
        default_package: default.map(String::from),
    }
}

#[test]
fn dash_and_underscore_are_one() {
    assert!(eq_ignoring_dash_underscore("my-crate", "my_crate"));
    assert!(eq_ignoring_dash_underscore("my_crate", "my-crate"));
    assert!(eq_ignoring_dash_underscore("a-b_c", "a_b-c"));
    assert!(eq_ignoring_dash_underscore("", ""));
    assert!(!eq_ignoring_dash_underscore("my-crate", "my-crat"));
    assert!(!eq_ignoring_dash_underscore("my-crate", "my crate"));
    assert!(!eq_ignoring_dash_underscore("My-crate", "my-crate"));
    assert!(!eq_ignoring_dash_underscore("abc", "abcd"));
}

#[test]
fn canonical_names() {
    assert_eq!(CrateName::new("alloc_crate").unwrap().as_str(), "alloc");
    assert_eq!(CrateName::new("core_crate").unwrap().as_str(), "core");
    assert_eq!(CrateName::new("proc_macro_crate").unwrap().as_str(), "proc_macro");
    assert_eq!(CrateName::new("test_crate").unwrap().as_str(), "test");
    assert_eq!(CrateName::new("std_crate").unwrap().as_str(), "std");
    assert!(CrateName::new("std_detect").is_none());
    assert!(CrateName::new("rustc_literal_escaper").is_none());
    assert!(CrateName::new("rustc_hash").is_none());
    assert!(CrateName::new("rustc_").is_none());
    assert_eq!(CrateName::new("rustc").unwrap().as_str(), "rustc");
    assert_eq!(CrateName::new("serde").unwrap().as_str(), "serde");
    assert_eq!(CrateName::new("").unwrap().as_str(), "");
}

fn normal(p: &ProjectNames, name: &str) -> Option<String> {
    p.normalize_crate_name(name).map(|c| c.as_str().to_string())
}

#[test]
fn normalize_against_the_project() {
    let p = project(1, Some("my-crate"));
    assert_eq!(normal(&p, "crate"), Some("my-crate".to_string()));
    assert_eq!(normal(&p, "my_crate"), Some("my-crate".to_string()));
    assert_eq!(normal(&p, "serde-json"), Some("serde_json".to_string()));
    assert_eq!(normal(&p, "std"), Some("std".to_string()));
    assert_eq!(normal(&p, "core_crate"), Some("core".to_string()));
    assert_eq!(normal(&p, "alloc"), Some("alloc".to_string()));
    assert_eq!(normal(&p, "proc_macro"), Some("proc_macro".to_string()));
    assert_eq!(normal(&p, "test"), Some("test".to_string()));
    assert_eq!(normal(&p, "std_detect"), None);
    assert_eq!(normal(&p, "rustc_internal"), None);
    assert_eq!(normal(&p, "unknown"), None);
    // the case of letters is ignored where a package of the project is named
    assert_eq!(normal(&p, "Serde_json"), Some("serde_json".to_string()));
    assert_eq!(normal(&p, "MY_CRATE"), Some("my-crate".to_string()));
    assert_eq!(normal(&p, "Std"), Some("std".to_string()));
    // the fixed names are taken as they are written
    assert_eq!(normal(&p, "Crate"), None);
    assert_eq!(normal(&p, "Core"), None);
    assert_eq!(normal(&p, "test-crate"), None);
}

#[test]
fn names_alike_but_for_case() {
    assert!(eq_ignoring_case_dash_underscore("Serde-JSON", "serde_json"));
    assert!(eq_ignoring_case_dash_underscore("a-b_c", "A_B-C"));
    assert!(eq_ignoring_case_dash_underscore("", ""));
    assert!(!eq_ignoring_case_dash_underscore("serde", "serd"));
    assert!(!eq_ignoring_case_dash_underscore("serde", "serdé"));
    assert!(!eq_ignoring_case_dash_underscore("É", "é"));
    assert!(!eq_ignoring_case_dash_underscore("a@", "a`"));
    assert!(!eq_ignoring_case_dash_underscore("a[", "a{"));
}

#[test]
fn crate_alias_needs_one_member() {
    assert_eq!(normal(&project(2, Some("my-crate")), "crate"), None);
    assert_eq!(normal(&project(1, None), "crate"), None);
    assert_eq!(normal(&project(0, Some("my-crate")), "crate"), Some("my-crate".to_string()));
    assert_eq!(normal(&project(1, Some("rustc_driver")), "crate"), None);
    assert_eq!(
        project(1, Some("std_crate")).default_crate_name().map(|c| c.as_str().to_string()),
        Some("std".to_string())
    );
}
