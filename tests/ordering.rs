use workspace_publish::graph::{dropped_packages, starts_with, CrateInfo, MetadataField, RawPackage};
use workspace_publish::metadata::order_crates_for_publishing;
use workspace_publish::order::{order_packages, sort_crates, OrderError};

fn pkg(name: &str, version: &str, deps: &[&str]) -> RawPackage {
    RawPackage {
        name: Some(name.to_string()),
        version: Some(version.to_string()),
        manifest_path: Some(format!("/ws/{}/Cargo.toml", name)),
        unpublishable: false,
        dependencies: Some(deps.iter().map(|d| Some(d.to_string())).collect()),
    }
}

fn names(plan: &[CrateInfo]) -> Vec<String> {
    plan.iter().map(|c| c.name.clone()).collect()
}

fn strings(v: &[&str]) -> Vec<String> {
    v.iter().map(|s| s.to_string()).collect()
}

#[test]
fn chain_is_ordered_dependencies_first() {
    let pkgs = vec![pkg("p-c", "1.0.0", &["p-b"]), pkg("p-b", "1.0.0", &["p-a"]), pkg("p-a", "1.0.0", &[])];
    let plan = order_packages(&pkgs, &vec![], "p-").unwrap();
    assert_eq!(names(&plan), strings(&["p-a", "p-b", "p-c"]));
}

#[test]
fn chain_in_declared_order() {
    let pkgs = vec![pkg("p-a", "1.0.0", &[]), pkg("p-b", "1.0.0", &["p-a"]), pkg("p-c", "1.0.0", &["p-b"])];
    let plan = order_packages(&pkgs, &vec![], "p-").unwrap();
    assert_eq!(names(&plan), strings(&["p-a", "p-b", "p-c"]));
}

#[test]
fn ready_packages_keep_graph_order_within_a_pass() {
    let pkgs = vec![
        pkg("p-d", "1.0.0", &["p-a", "p-b"]),
        pkg("p-b", "1.0.0", &[]),
        pkg("p-c", "1.0.0", &["p-a"]),
        pkg("p-a", "1.0.0", &[]),
    ];
    let plan = order_packages(&pkgs, &vec![], "p-").unwrap();
    assert_eq!(names(&plan), strings(&["p-b", "p-a", "p-d", "p-c"]));
}

#[test]
fn mutual_dependency_is_a_cycle_naming_both() {
    let pkgs = vec![pkg("p-a", "1.0.0", &["p-b"]), pkg("p-b", "1.0.0", &["p-a"])];
    match order_packages(&pkgs, &vec![], "p-") {
        Err(OrderError::CircularDependency(left)) => {
            assert!(left.contains(&"p-a".to_string()));
            assert!(left.contains(&"p-b".to_string()));
            assert_eq!(left.len(), 2);
        }
        other => panic!("expected a cycle, got {:?}", other),
    }
}

#[test]
fn cycle_error_lists_only_the_stuck_packages() {
    let pkgs = vec![
        pkg("p-x", "1.0.0", &[]),
        pkg("p-a", "1.0.0", &["p-b", "p-x"]),
        pkg("p-b", "1.0.0", &["p-a"]),
    ];
    match order_packages(&pkgs, &vec![], "p-") {
        Err(OrderError::CircularDependency(left)) => assert_eq!(left, strings(&["p-a", "p-b"])),
        other => panic!("expected a cycle, got {:?}", other),
    }
}

#[test]
fn unpublishable_and_excluded_packages_never_planned_nor_blocking() {
    let mut private = pkg("p-private", "1.0.0", &[]);
    private.unpublishable = true;
    let pkgs = vec![
        pkg("p-app", "1.0.0", &["p-private", "p-broken"]),
        private,
        pkg("p-broken", "1.0.0", &[]),
        pkg("p-lib", "1.0.0", &[]),
    ];
    let plan = order_packages(&pkgs, &strings(&["p-broken"]), "p-").unwrap();
    assert_eq!(names(&plan), strings(&["p-app", "p-lib"]));
}

#[test]
fn only_prefixed_dependencies_are_tracked() {
    let pkgs = vec![pkg("p-a", "1.0.0", &["serde", "p-b", "log"]), pkg("p-b", "1.0.0", &["anyhow"])];
    let plan = order_packages(&pkgs, &vec![], "p-").unwrap();
    assert_eq!(names(&plan), strings(&["p-b", "p-a"]));
    assert_eq!(plan[1].dependencies, strings(&["p-b"]));
    assert!(plan[0].dependencies.is_empty());
    assert_eq!(plan[1].manifest_path, "/ws/p-a/Cargo.toml");
}

#[test]
fn later_entry_with_same_name_replaces_earlier_in_place() {
    let pkgs = vec![pkg("p-a", "1.0.0", &[]), pkg("p-b", "1.0.0", &[]), pkg("p-a", "2.0.0", &[])];
    let plan = order_packages(&pkgs, &vec![], "p-").unwrap();
    assert_eq!(names(&plan), strings(&["p-a", "p-b"]));
    assert_eq!(plan[0].version, "2.0.0");
}

#[test]
fn empty_snapshot_gives_empty_plan() {
    let plan = order_packages(&vec![], &vec![], "p-").unwrap();
    assert!(plan.is_empty());
    assert!(sort_crates(&vec![]).unwrap().is_empty());
}

#[test]
fn missing_fields_are_reported_in_order() {
    let mut no_name = pkg("p-a", "1.0.0", &[]);
    no_name.name = None;
    no_name.version = None;
    let mut no_version = pkg("p-a", "1.0.0", &[]);
    no_version.version = None;
    no_version.manifest_path = None;
    let mut no_path = pkg("p-a", "1.0.0", &[]);
    no_path.manifest_path = None;
    let mut no_deps = pkg("p-a", "1.0.0", &[]);
    no_deps.dependencies = None;
    let mut bad_dep = pkg("p-a", "1.0.0", &[]);
    bad_dep.dependencies = Some(vec![None]);
    let cases = vec![
        (no_name, MetadataField::Name),
        (no_version, MetadataField::Version),
        (no_path, MetadataField::ManifestPath),
        (no_deps, MetadataField::Dependencies),
        (bad_dep, MetadataField::DependencyName),
    ];
    for (p, field) in cases {
        match order_packages(&vec![pkg("p-z", "1.0.0", &[]), p], &vec![], "p-") {
            Err(OrderError::MetadataParse(f)) => assert_eq!(f, field),
            other => panic!("expected a metadata error, got {:?}", other),
        }
    }
}

#[test]
fn unreadable_dependency_of_a_dropped_package_is_an_error() {
    let mut bad_dep = pkg("p-a", "1.0.0", &[]);
    bad_dep.dependencies = Some(vec![None]);
    bad_dep.unpublishable = true;
    match order_packages(&vec![bad_dep, pkg("p-b", "1.0.0", &[])], &vec![], "p-") {
        Err(OrderError::MetadataParse(f)) => assert_eq!(f, MetadataField::DependencyName),
        other => panic!("expected a metadata error, got {:?}", other),
    }
    let mut excluded = pkg("p-c", "1.0.0", &[]);
    excluded.dependencies = Some(vec![Some("p-b".to_string()), None]);
    match order_packages(&vec![pkg("p-b", "1.0.0", &[]), excluded], &strings(&["p-c"]), "p-") {
        Err(OrderError::MetadataParse(f)) => assert_eq!(f, MetadataField::DependencyName),
        other => panic!("expected a metadata error, got {:?}", other),
    }
}

fn workspace() -> Vec<RawPackage> {
    let mut bench = pkg("ws-bench", "1.2.0", &["ws-core"]);
    bench.unpublishable = true;
    vec![pkg("ws-cli", "1.2.0", &["ws-core", "clap"]), pkg("ws-core", "1.2.0", &["serde"]), bench]
}

#[test]
fn package_list_is_ordered() {
    let pkgs = workspace();
    let plan = order_crates_for_publishing(&vec![], "ws-", Some(&pkgs)).unwrap();
    assert_eq!(names(&plan), strings(&["ws-core", "ws-cli"]));
    assert_eq!(plan[1].dependencies, strings(&["ws-core"]));
    assert_eq!(plan[1].version, "1.2.0");
    assert_eq!(plan[0].manifest_path, "/ws/ws-core/Cargo.toml");
}

#[test]
fn package_list_exclusion_applies() {
    let pkgs = workspace();
    let plan = order_crates_for_publishing(&strings(&["ws-core"]), "ws-", Some(&pkgs)).unwrap();
    assert_eq!(names(&plan), strings(&["ws-cli"]));
}

#[test]
fn missing_package_list_is_rejected() {
    match order_crates_for_publishing(&vec![], "ws-", None) {
        Err(OrderError::MetadataParse(f)) => assert_eq!(f, MetadataField::Packages),
        other => panic!("expected a metadata error, got {:?}", other),
    }
}

#[test]
fn dropped_packages_are_listed_in_order() {
    let mut pkgs = workspace();
    let mut nameless = pkg("x", "1.0.0", &[]);
    nameless.name = None;
    nameless.unpublishable = true;
    pkgs.push(nameless);
    assert_eq!(dropped_packages(&pkgs, &strings(&["ws-cli", "other"])), strings(&["ws-cli", "ws-bench"]));
    assert_eq!(dropped_packages(&pkgs, &vec![]), strings(&["ws-bench"]));
}

#[test]
fn prefix_test_is_exact() {
    assert!(starts_with("ws-core", "ws-"));
    assert!(starts_with("ws-", "ws-"));
    assert!(!starts_with("ws", "ws-"));
    assert!(!starts_with("xws-core", "ws-"));
    assert!(starts_with("anything", ""));
}

#[test]
fn deleting_dependencies_on_dropped_packages_changes_nothing() {
    let mut private = pkg("p-private", "1.0.0", &[]);
    private.unpublishable = true;
    let with = vec![
        pkg("p-app", "1.0.0", &["p-private", "p-lib", "p-gone"]),
        private,
        pkg("p-lib", "1.0.0", &["p-gone"]),
        pkg("p-gone", "1.0.0", &[]),
    ];
    let mut private2 = pkg("p-private", "1.0.0", &[]);
    private2.unpublishable = true;
    let without = vec![
        pkg("p-app", "1.0.0", &["p-lib"]),
        private2,
        pkg("p-lib", "1.0.0", &[]),
        pkg("p-gone", "1.0.0", &[]),
    ];
    let exclude = strings(&["p-gone"]);
    let a = order_packages(&with, &exclude, "p-").unwrap();
    let b = order_packages(&without, &exclude, "p-").unwrap();
    assert_eq!(names(&a), names(&b));
    assert_eq!(names(&a), strings(&["p-lib", "p-app"]));
}
