use hackerman::cli::is_version;
use hackerman::cli::verbosity_level;
use hackerman::cli::Verbosity;
use hackerman::error::GraphError;
use hackerman::ident::Feature;
use hackerman::ident::Fid;
use hackerman::ident::Pid;
use hackerman::lookup::find_dep_by_name;
use hackerman::lookup::find_resolved_by_name;
use hackerman::lookup::split_requirement;
use hackerman::metadata::DepKindInfo;
use hackerman::metadata::Dependency;
use hackerman::metadata::DependencyKind;
use hackerman::metadata::Metadata;
use hackerman::metadata::NodeDep;
use hackerman::metadata::Package;
use hackerman::metadata::Target;
use hackerman::names::fold;
use hackerman::names::name_cmp;
use hackerman::names::str_eq;
use hackerman::platform::holds_on;
use hackerman::platform::keep_allowed;

fn dep(name: &str, rename: Option<&str>) -> Dependency {
    Dependency {
        name: name.to_string(),
        rename: rename.map(|r| r.to_string()),
        optional: false,
        features: vec![],
    }
}

fn bare(name: &str, id: &str) -> Package {
    Package {
        name: name.to_string(),
        version: "0.1.0".to_string(),
        id: id.to_string(),
        dependencies: vec![],
        features: vec![],
        targets: vec![],
    }
}

fn kind(target: Option<&str>) -> DepKindInfo {
    DepKindInfo { kind: DependencyKind::Normal, target: target.map(|t| t.to_string()) }
}

#[test]
fn dash_matches_underscore() {
    assert!(name_cmp("foo-bar", "foo_bar"));
    assert!(name_cmp("foo_bar", "foo-bar"));
}

#[test]
fn case_is_ignored() {
    assert!(name_cmp("Serde_JSON", "serde-json"));
    assert!(name_cmp("ABC", "abc"));
}

#[test]
fn different_names_do_not_match() {
    assert!(!name_cmp("serde", "serde_json"));
    assert!(!name_cmp("serde_json", "serde"));
    assert!(!name_cmp("foo", "bar"));
    assert!(!name_cmp("", "a"));
    assert!(name_cmp("", ""));
}

#[test]
fn only_ascii_letters_fold() {
    assert_eq!(fold('A'), 'a');
    assert_eq!(fold('Z'), 'z');
    assert_eq!(fold('-'), '_');
    assert_eq!(fold('_'), '_');
    assert_eq!(fold('é'), 'é');
    assert_eq!(fold('É'), 'É');
    assert_eq!(fold('@'), '@');
    assert_eq!(fold('['), '[');
    assert!(!name_cmp("É", "é"));
}

#[test]
fn strings_are_equal_when_their_characters_are() {
    assert!(str_eq("abc", "abc"));
    assert!(!str_eq("abc", "abd"));
    assert!(!str_eq("abc", "ab"));
    assert!(!str_eq("a-b", "a_b"));
    assert!(str_eq("", ""));
}

#[test]
fn declared_dependency_is_found_by_name_or_rename() {
    let deps = vec![dep("serde", None), dep("serde_json", Some("json")), dep("Foo-Bar", None)];
    assert_eq!(find_dep_by_name(&deps, "serde").unwrap().name, "serde");
    assert_eq!(find_dep_by_name(&deps, "json").unwrap().name, "serde_json");
    assert_eq!(find_dep_by_name(&deps, "foo_bar").unwrap().name, "Foo-Bar");
    assert_eq!(find_dep_by_name(&deps, "serde_json").err(), Some(GraphError::NameNotFound));
    assert_eq!(find_dep_by_name(&deps, "ser").err(), Some(GraphError::NameNotFound));
}

#[test]
fn first_matching_declaration_wins() {
    let mut second = dep("dup", None);
    second.optional = true;
    let deps = vec![dep("dup", None), second];
    assert!(!find_dep_by_name(&deps, "dup").unwrap().optional);
}

#[test]
fn resolved_dependency_is_found_by_name() {
    let deps = vec![
        NodeDep { name: "foo_bar".to_string(), pkg: "a".to_string(), dep_kinds: vec![] },
        NodeDep { name: "baz".to_string(), pkg: "b".to_string(), dep_kinds: vec![] },
    ];
    assert_eq!(find_resolved_by_name(&deps, "foo-bar").unwrap().pkg, "a");
    assert_eq!(find_resolved_by_name(&deps, "BAZ").unwrap().pkg, "b");
    assert!(find_resolved_by_name(&deps, "qux").is_none());
}

#[test]
fn requirement_is_split_at_its_first_slash() {
    assert_eq!(split_requirement("dep/feature"), Some(("dep", "feature")));
    assert_eq!(split_requirement("a/b/c"), Some(("a", "b/c")));
    assert_eq!(split_requirement("/x"), Some(("", "x")));
    assert_eq!(split_requirement("x/"), Some(("x", "")));
    assert_eq!(split_requirement("plain"), None);
    assert_eq!(split_requirement(""), None);
    assert_eq!(split_requirement("dé/ü"), Some(("dé", "ü")));
}

#[test]
fn package_is_looked_up_by_identifier() {
    let meta = Metadata {
        packages: vec![bare("a", "a 1"), bare("b", "b 1"), bare("c", "a 1")],
        workspace_members: vec![],
        resolve: None,
    };
    assert_eq!(meta.package_index("b 1"), Some(1));
    assert_eq!(meta.package_index("a 1"), Some(2));
    assert_eq!(meta.package_index("z 1"), None);
}

#[test]
fn library_target_is_one_of_kind_lib_alone() {
    let lib = Target { name: "x".to_string(), kind: vec!["lib".to_string()] };
    let both = Target { name: "x".to_string(), kind: vec!["lib".to_string(), "cdylib".to_string()] };
    let bin = Target { name: "x".to_string(), kind: vec!["bin".to_string()] };
    let none = Target { name: "x".to_string(), kind: vec![] };
    assert!(lib.is_lib());
    assert!(!both.is_lib());
    assert!(!bin.is_lib());
    assert!(!none.is_lib());
}

#[test]
fn library_rename_goes_by_the_first_library_target() {
    let mut package = bare("pkg", "pkg 1");
    assert!(!package.lib_renamed());
    package.targets = vec![
        Target { name: "tool".to_string(), kind: vec!["bin".to_string()] },
        Target { name: "other".to_string(), kind: vec!["lib".to_string()] },
        Target { name: "pkg".to_string(), kind: vec!["lib".to_string()] },
    ];
    assert!(package.lib_renamed());
    package.targets.swap(1, 2);
    assert!(!package.lib_renamed());
}

#[test]
fn feature_table_is_searched_by_exact_name() {
    let mut package = bare("pkg", "pkg 1");
    package.features = vec![hackerman::metadata::FeatureDecl {
        name: "default".to_string(),
        requires: vec![],
    }];
    assert!(package.has_feature("default"));
    assert!(!package.has_feature("Default"));
    assert!(!package.has_feature("std"));
}

#[test]
fn package_identity_is_its_position() {
    let meta = Metadata {
        packages: vec![bare("a", "a 1"), bare("b", "b 1")],
        workspace_members: vec![],
        resolve: None,
    };
    let a = Pid::new(0, &meta).unwrap();
    let b = Pid::new(1, &meta).unwrap();
    assert!(Pid::new(2, &meta).is_none());
    assert_eq!(a.package().name, "a");
    assert_eq!(b.package().name, "b");
    assert_eq!(b.position(), 1);
    assert!(a == Pid::new(0, &meta).unwrap());
    assert!(a != b);
    assert!(Fid(a, Some("x")) == Fid(a, Some("x")));
    assert!(Fid(a, Some("x")) != Fid(a, Some("y")));
    assert!(Fid(a, Some("x")) != Fid(a, None));
    assert!(Fid(a, None) != Fid(b, None));
    assert!(Fid(a, None).same(&Fid(a, None)));
}

#[test]
fn feature_node_knows_its_feature_and_package() {
    let meta = Metadata { packages: vec![bare("a", "a 1")], workspace_members: vec![], resolve: None };
    let a = Pid::new(0, &meta).unwrap();
    assert!(Feature::Root.fid().is_none());
    assert!(Feature::Root.pid().is_none());
    assert!(Feature::Workspace(Fid(a, Some("x"))).fid() == Some(Fid(a, Some("x"))));
    assert!(Feature::External(Fid(a, None)).fid() == Some(Fid(a, None)));
    assert!(Feature::External(Fid(a, None)).pid() == Some(a));
    assert_eq!(Feature::Workspace(Fid(a, Some("x"))).label(), "a 0.1.0\nx");
}

#[test]
fn versions_and_the_star_are_versions() {
    assert!(is_version("*"));
    assert!(is_version("1.2.3"));
    assert!(is_version("0.1.0-alpha.1"));
    assert!(!is_version("serde"));
    assert!(!is_version("1.2"));
    assert!(!is_version(""));
    assert!(!is_version("**"));
}

#[test]
fn verbosity_grows_with_the_flags() {
    assert_eq!(verbosity_level(0), Verbosity::Warn);
    assert_eq!(verbosity_level(1), Verbosity::Info);
    assert_eq!(verbosity_level(2), Verbosity::Debug);
    assert_eq!(verbosity_level(3), Verbosity::Trace);
    assert_eq!(verbosity_level(17), Verbosity::Trace);
}

#[test]
fn link_without_kinds_holds_everywhere() {
    assert_eq!(holds_on(&[], "x86_64-unknown-linux-gnu"), Some(true));
    assert_eq!(holds_on(&[], "no such platform"), Some(true));
}

#[test]
fn kinds_are_tried_in_order() {
    let linux = "x86_64-unknown-linux-gnu";
    assert_eq!(holds_on(&[kind(None)], linux), Some(true));
    assert_eq!(holds_on(&[kind(Some("cfg(unix)"))], linux), Some(true));
    assert_eq!(holds_on(&[kind(Some("cfg(windows)"))], linux), Some(false));
    assert_eq!(holds_on(&[kind(Some("cfg(windows)")), kind(Some("cfg(unix)"))], linux), Some(true));
    assert_eq!(holds_on(&[kind(Some("cfg(unix)")), kind(Some("cfg(broken"))], linux), Some(true));
    assert_eq!(holds_on(&[kind(Some("cfg(windows)")), kind(Some("cfg(broken"))], linux), None);
    assert_eq!(holds_on(&[kind(Some("x86_64-unknown-linux-gnu"))], linux), Some(true));
    assert_eq!(holds_on(&[kind(Some("x86_64-pc-windows-msvc"))], linux), Some(false));
}

#[test]
fn platforms_are_filtered_in_their_order() {
    let all = vec!["x86_64-pc-windows-msvc", "x86_64-unknown-linux-gnu", "aarch64-apple-darwin"];
    assert_eq!(
        keep_allowed(&[kind(Some("cfg(unix)"))], &all),
        Some(vec!["x86_64-unknown-linux-gnu", "aarch64-apple-darwin"])
    );
    assert_eq!(keep_allowed(&[], &all), Some(all.clone()));
    assert_eq!(keep_allowed(&[kind(Some("cfg(target_os = \"redox\")"))], &all), Some(vec![]));
    assert_eq!(keep_allowed(&[kind(Some("cfg(broken"))], &all), None);
    assert_eq!(keep_allowed(&[kind(Some("cfg(broken"))], &vec![]), Some(vec![]));
}

#[test]
fn errors_describe_themselves() {
    assert_eq!(GraphError::MissingResolveData.message(), "Couldn't resolve the dependencies");
    assert_eq!(GraphError::CyclicFeatureGraph.message(), "cyclic dependencies are not supported");
    assert_ne!(GraphError::NameNotFound.message(), GraphError::IdentityMismatch.message());
}
