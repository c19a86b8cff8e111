use docgraph::project::{
    dependency_usage, detect_subcrate_context, generate_crate_info, listing_lines, record_use,
    snapshot_file, CrateInfo, CrateType, Dependency, Member, PackageMeta, Usage,
};

fn dep(name: &str, is_path: bool, is_dev: bool) -> Dependency {
    Dependency { name: name.to_string(), is_path, is_dev }
}

fn member(name: &str, dependencies: Vec<Dependency>) -> Member {
    Member {
        name: name.to_string(),
        description: Some(format!("The {name} package")),
        version: "0.1.0".to_string(),
        dependencies,
    }
}

fn meta(name: &str, version: &str, description: Option<&str>) -> PackageMeta {
    PackageMeta {
        name: name.to_string(),
        version: version.to_string(),
        description: description.map(String::from),
    }
}

fn strings(names: &[&str]) -> Vec<String> {
    names.iter().map(|s| s.to_string()).collect()
}

fn shape(usage: &[Usage]) -> Vec<(String, Vec<String>, bool)> {
    usage.iter().map(|u| (u.name.clone(), u.used_by.clone(), u.dev_dep)).collect()
}

fn workspace() -> Vec<Member> {
    vec![
        member(
            "crate-a",
            vec![
                dep("serde", false, false),
                dep("regex", false, false),
                dep("tempfile", false, true),
                dep("crate-b", true, false),
            ],
        ),
        member(
            "crate-b",
            vec![
                dep("log", false, false),
                dep("anyhow", false, false),
                dep("serde", false, true),
                dep("env_logger", false, true),
                dep("crate-a", false, false),
            ],
        ),
    ]
}

#[test]
fn uses_are_recorded_by_name() {
    let mut usage = vec![];
    record_use(&mut usage, "serde", "crate-a", false, true);
    record_use(&mut usage, "anyhow", "crate-a", false, true);
    record_use(&mut usage, "tempfile", "crate-a", true, true);
    record_use(&mut usage, "log", "crate-b", false, true);
    record_use(&mut usage, "serde", "crate-b", true, true);
    record_use(&mut usage, "tempfile", "crate-b", false, true);
    assert_eq!(
        shape(&usage),
        vec![
            ("anyhow".to_string(), strings(&["crate-a"]), false),
            ("log".to_string(), strings(&["crate-b"]), false),
            ("serde".to_string(), strings(&["crate-a", "crate-b"]), true),
            ("tempfile".to_string(), strings(&["crate-a", "crate-b"]), true),
        ]
    );
    // in a single package the use recorded last decides
    record_use(&mut usage, "tempfile", "crate-b", false, false);
    assert!(!usage[3].dev_dep);
    assert_eq!(usage[3].used_by.len(), 3);
}

#[test]
fn usage_in_a_workspace() {
    let usage = dependency_usage(&workspace(), &strings(&["ignored"]), &vec![]);
    assert_eq!(
        shape(&usage),
        vec![
            ("anyhow".to_string(), strings(&["crate-b"]), false),
            ("env_logger".to_string(), strings(&["crate-b"]), true),
            ("log".to_string(), strings(&["crate-b"]), false),
            ("regex".to_string(), strings(&["crate-a"]), false),
            ("serde".to_string(), strings(&["crate-a", "crate-b"]), true),
            ("tempfile".to_string(), strings(&["crate-a"]), true),
        ]
    );
}

#[test]
fn usage_of_a_single_package() {
    let members = vec![member("solo", vec![dep("unused-here", false, false)])];
    let usage = dependency_usage(&members, &strings(&["serde", "anyhow"]), &strings(&["serde", "tempfile"]));
    assert_eq!(
        shape(&usage),
        vec![
            ("anyhow".to_string(), strings(&["solo"]), false),
            ("serde".to_string(), strings(&["solo", "solo"]), true),
            ("tempfile".to_string(), strings(&["solo"]), true),
        ]
    );
    let nobody = dependency_usage(&vec![], &strings(&["serde"]), &vec![]);
    assert_eq!(shape(&nobody), vec![("serde".to_string(), strings(&[""]), false)]);
}

fn names(infos: &[CrateInfo]) -> Vec<&str> {
    infos.iter().map(|c| c.name.as_str()).collect()
}

#[test]
fn listing_of_a_workspace() {
    let packages = vec![
        meta("serde", "1.0.219", Some("A serialization framework")),
        meta("env-logger", "0.11.8", None),
    ];
    let infos = generate_crate_info(&workspace(), &vec![], &vec![], &packages, Some("crate-a"), None);
    assert_eq!(
        names(&infos),
        vec!["crate-a", "crate-b", "anyhow", "env_logger", "log", "regex", "serde", "tempfile"]
    );
    assert!(infos[..2].iter().all(|c| c.crate_type == CrateType::Workspace));
    assert!(infos[2..].iter().all(|c| c.crate_type == CrateType::Library));
    // no member of a workspace of several stands for `crate`
    assert!(infos.iter().all(|c| !c.default_crate));
    assert_eq!(infos[0].version.as_deref(), Some("0.1.0"));
    assert_eq!(infos[0].description.as_deref(), Some("The crate-a package"));
    assert_eq!(infos[6].version.as_deref(), Some("1.0.219"));
    assert_eq!(infos[6].description.as_deref(), Some("A serialization framework"));
    assert!(infos[6].dev_dep);
    assert_eq!(infos[6].used_by, strings(&["crate-a", "crate-b"]));
    // the package is found though it spells its name with a dash
    assert_eq!(infos[3].version.as_deref(), Some("0.11.8"));
    assert_eq!(infos[3].description, None);
    assert_eq!(infos[2].version, None);
}

#[test]
fn listing_of_a_single_package_with_the_runtime() {
    let members = vec![member("my-crate", vec![])];
    let infos = generate_crate_info(
        &members,
        &strings(&["serde"]),
        &vec![],
        &vec![],
        Some("my_crate"),
        Some("1.90.0-nightly"),
    );
    assert_eq!(
        names(&infos),
        vec!["my-crate", "serde", "std", "alloc", "core", "proc_macro", "test"]
    );
    assert!(infos[0].default_crate);
    assert!(!infos[1].default_crate);
    for info in &infos[2..] {
        assert_eq!(info.crate_type, CrateType::Rust);
        assert_eq!(info.version.as_deref(), Some("1.90.0-nightly"));
        assert!(info.description.is_some());
        assert!(info.used_by.is_empty());
    }
    assert_eq!(infos[2].description.as_deref(), Some("The Rust Standard Library"));
    let other = generate_crate_info(&members, &vec![], &vec![], &vec![], Some("other"), None);
    assert!(!other[0].default_crate);
    let none = generate_crate_info(&members, &vec![], &vec![], &vec![], None, None);
    assert!(!none[0].default_crate);
}

fn info(crate_type: CrateType, version: Option<&str>, dev_dep: bool, used_by: &[&str]) -> CrateInfo {
    CrateInfo {
        crate_type,
        version: version.map(String::from),
        description: None,
        dev_dep,
        name: "serde".to_string(),
        default_crate: false,
        used_by: strings(used_by),
    }
}

#[test]
fn lines_of_a_listing() {
    let plain = info(CrateType::Library, Some("1.0.219"), false, &["crate-a", "crate-b"]);
    assert_eq!(listing_lines(&plain, false), "• serde 1.0.219 (crate-a, crate-b)\n");
    assert_eq!(listing_lines(&plain, true), "• serde 1.0.219\n");
    let dev = info(CrateType::Library, Some("3.8.0"), true, &["crate-a", "crate-b"]);
    assert_eq!(
        listing_lines(&dev, false),
        "• serde 3.8.0 (dev-dep) (crate-a dev, crate-b dev)\n"
    );
    assert_eq!(listing_lines(&dev, true), "• serde 3.8.0 (dev-dep)\n");
    let unused = info(CrateType::Library, Some("1.0.0"), false, &[]);
    assert_eq!(listing_lines(&unused, false), "• serde 1.0.0\n");
    let unknown = info(CrateType::Library, None, true, &["crate-a"]);
    assert_eq!(listing_lines(&unknown, false), "• serde\n");
    let member = info(CrateType::Workspace, Some("0.1.0"), false, &[]);
    assert_eq!(listing_lines(&member, false), "• serde (workspace-local)\n");
    let default = CrateInfo { default_crate: true, ..info(CrateType::Workspace, None, false, &[]) };
    assert_eq!(
        listing_lines(&default, false),
        "• serde (workspace-local, aliased as \"crate\")\n"
    );
    let described = CrateInfo {
        description: Some("A framework\nfor serializing\n".to_string()),
        ..info(CrateType::Rust, Some("1.90.0"), false, &[])
    };
    assert_eq!(
        listing_lines(&described, false),
        "• serde 1.90.0\n    A framework for serializing \n"
    );
}

#[test]
fn where_snapshots_are_kept() {
    let available = strings(&["my-crate", "serde_json", "std"]);
    let workspace = strings(&["my_crate"]);
    let found = |name: &str, runtime: bool| snapshot_file(name, runtime, &available, &workspace);
    assert_eq!(found("std", true), Some(("std".to_string(), CrateType::Rust)));
    assert_eq!(found("core", true), Some(("core".to_string(), CrateType::Rust)));
    // without the toolchain's documentation a runtime package is looked for
    // like any other
    assert_eq!(found("std", false), Some(("std".to_string(), CrateType::Library)));
    assert_eq!(found("core", false), None);
    assert_eq!(found("my-crate", true), Some(("my_crate".to_string(), CrateType::Workspace)));
    assert_eq!(found("serde-json", false), Some(("serde_json".to_string(), CrateType::Library)));
    assert_eq!(found("unknown", true), None);
}

#[test]
fn working_directory_in_a_member() {
    let several = strings(&["crate-a", "crate-b"]);
    assert_eq!(detect_subcrate_context(Some("crate-b"), &several), Some("crate-b"));
    assert_eq!(detect_subcrate_context(Some("other"), &several), None);
    assert_eq!(detect_subcrate_context(None, &several), None);
    assert_eq!(detect_subcrate_context(Some("crate-a"), &strings(&["crate-a"])), None);
    assert_eq!(detect_subcrate_context(Some("crate-a"), &vec![]), None);
}
