use hackerman::error::GraphError;
use hackerman::feat_graph::FeatGraph2;
use hackerman::ident::Feature;
use hackerman::ident::Fid;
use hackerman::ident::Link;
use hackerman::ident::Pid;
use hackerman::metadata::DepKindInfo;
use hackerman::metadata::Dependency;
use hackerman::metadata::DependencyKind;
use hackerman::metadata::FeatureDecl;
use hackerman::metadata::Metadata;
use hackerman::metadata::Node;
use hackerman::metadata::NodeDep;
use hackerman::metadata::Package;
use hackerman::metadata::Target;

const LINUX: &str = "x86_64-unknown-linux-gnu";
const WINDOWS: &str = "x86_64-pc-windows-msvc";

fn lib_target(name: &str) -> Target {
    Target { name: name.to_string(), kind: vec!["lib".to_string()] }
}

fn package(name: &str, deps: Vec<Dependency>, features: Vec<(&str, Vec<&str>)>) -> Package {
    Package {
        name: name.to_string(),
        version: "1.0.0".to_string(),
        id: format!("{name} 1.0.0"),
        dependencies: deps,
        features: features
            .into_iter()
            .map(|(n, r)| FeatureDecl {
                name: n.to_string(),
                requires: r.into_iter().map(|s| s.to_string()).collect(),
            })
            .collect(),
        targets: vec![lib_target(name)],
    }
}

fn declared(name: &str, optional: bool, features: Vec<&str>) -> Dependency {
    Dependency {
        name: name.to_string(),
        rename: None,
        optional,
        features: features.into_iter().map(|s| s.to_string()).collect(),
    }
}

fn normal() -> DepKindInfo {
    DepKindInfo { kind: DependencyKind::Normal, target: None }
}

fn only_on(target: &str) -> DepKindInfo {
    DepKindInfo { kind: DependencyKind::Normal, target: Some(target.to_string()) }
}

fn resolved(name: &str, kinds: Vec<DepKindInfo>) -> NodeDep {
    NodeDep { name: name.replace('-', "_"), pkg: format!("{name} 1.0.0"), dep_kinds: kinds }
}

fn node(name: &str, deps: Vec<NodeDep>) -> Node {
    Node { id: format!("{name} 1.0.0"), deps }
}

fn snapshot(packages: Vec<Package>, members: Vec<&str>, nodes: Vec<Node>) -> Metadata {
    Metadata {
        packages,
        workspace_members: members.into_iter().map(|m| format!("{m} 1.0.0")).collect(),
        resolve: Some(nodes),
    }
}

fn label(graph: &FeatGraph2, id: usize) -> String {
    match graph.feature(id).unwrap() {
        Feature::Root => "root".to_string(),
        Feature::Workspace(fid) | Feature::External(fid) => match fid.1 {
            Some(name) => format!("{}/{}", fid.0.package().name, name),
            None => fid.0.package().name.clone(),
        },
    }
}

fn edge_labels(graph: &FeatGraph2) -> Vec<(String, String, bool)> {
    let mut edges: Vec<(String, String, bool)> = graph
        .edges()
        .into_iter()
        .map(|(s, t, l)| (label(graph, s), label(graph, t), graph.link(l).unwrap().optional))
        .collect();
    edges.sort();
    edges
}

fn node_labels(graph: &FeatGraph2) -> Vec<String> {
    let mut nodes: Vec<String> = graph.node_ids().into_iter().map(|id| label(graph, id)).collect();
    nodes.sort();
    nodes
}

fn edge(s: &str, t: &str, optional: bool) -> (String, String, bool) {
    (s.to_string(), t.to_string(), optional)
}

fn reaches(graph: &FeatGraph2, from: &str, to: &str) -> bool {
    let edges = edge_labels(graph);
    let mut seen = vec![from.to_string()];
    let mut at = 0;
    while at < seen.len() {
        let here = seen[at].clone();
        for (s, t, _) in edges.iter() {
            if *s == here && !seen.contains(t) {
                seen.push(t.clone());
            }
        }
        at += 1;
    }
    seen.iter().any(|n| n == to)
}

fn platforms_by_label(graph: &FeatGraph2, name: &str) -> Option<Vec<String>> {
    let id = graph.node_ids().into_iter().find(|id| label(graph, *id) == name)?;
    graph.platforms_of(id).map(|list| list.iter().map(|p| p.to_string()).collect())
}

#[test]
fn default_feature_is_activated_from_the_root() {
    let meta = snapshot(
        vec![package("p", vec![], vec![("a", vec![]), ("default", vec!["a"])])],
        vec!["p"],
        vec![node("p", vec![])],
    );
    let graph = FeatGraph2::init(&meta, vec![LINUX]).unwrap();
    assert_eq!(node_labels(&graph), vec!["p", "p/a", "p/default", "root"]);
    assert_eq!(
        edge_labels(&graph),
        vec![edge("p/a", "p", false), edge("p/default", "p/a", false), edge("root", "p/default", false)]
    );
    assert!(!edge_labels(&graph).contains(&edge("root", "p", false)));
}

#[test]
fn default_activation_before_reduction_has_every_feature_edge() {
    let meta = snapshot(
        vec![package("p", vec![], vec![("a", vec![]), ("default", vec!["a"])])],
        vec!["p"],
        vec![node("p", vec![])],
    );
    let mut graph = FeatGraph2::new(&meta);
    graph.add_package(0).unwrap();
    assert_eq!(
        edge_labels(&graph),
        vec![
            edge("p/a", "p", false),
            edge("p/default", "p", false),
            edge("p/default", "p/a", false),
            edge("root", "p/default", false),
        ]
    );
}

#[test]
fn member_without_default_is_activated_at_its_base() {
    let meta = snapshot(vec![package("p", vec![], vec![])], vec!["p"], vec![node("p", vec![])]);
    let graph = FeatGraph2::init(&meta, vec![LINUX]).unwrap();
    assert_eq!(node_labels(&graph), vec!["p", "root"]);
    assert_eq!(edge_labels(&graph), vec![edge("root", "p", false)]);
}

#[test]
fn optional_dependency_starts_at_its_implicit_feature() {
    let meta = snapshot(
        vec![package("p", vec![declared("d", true, vec![])], vec![]), package("d", vec![], vec![])],
        vec!["p"],
        vec![node("p", vec![resolved("d", vec![normal()])]), node("d", vec![])],
    );
    let mut graph = FeatGraph2::new(&meta);
    graph.add_package(0).unwrap();
    graph.add_package(1).unwrap();
    let edges = edge_labels(&graph);
    assert_eq!(edges, vec![edge("p/d", "d", true), edge("root", "p", false)]);
    let from_feature: Vec<_> = edges.iter().filter(|e| e.0 == "p/d").collect();
    assert_eq!(from_feature.len(), 1);
}

#[test]
fn requested_features_get_one_edge_each() {
    let meta = snapshot(
        vec![
            package("p", vec![declared("d", false, vec!["x", "y"])], vec![]),
            package("d", vec![], vec![("x", vec![]), ("y", vec![])]),
        ],
        vec!["p"],
        vec![node("p", vec![resolved("d", vec![normal()])]), node("d", vec![])],
    );
    let graph = FeatGraph2::init(&meta, vec![LINUX]).unwrap();
    assert_eq!(
        edge_labels(&graph),
        vec![
            edge("d/x", "d", false),
            edge("d/y", "d", false),
            edge("p", "d/x", false),
            edge("p", "d/y", false),
            edge("root", "p", false),
        ]
    );
}

#[test]
fn feature_requirement_on_a_dependency_feature() {
    let meta = snapshot(
        vec![
            package("p", vec![declared("d", true, vec![])], vec![("full", vec!["d/extra", "plain"]), ("plain", vec![])]),
            package("d", vec![], vec![("extra", vec![])]),
        ],
        vec!["p"],
        vec![node("p", vec![resolved("d", vec![normal()])]), node("d", vec![])],
    );
    let mut graph = FeatGraph2::new(&meta);
    graph.add_package(0).unwrap();
    graph.add_package(1).unwrap();
    assert_eq!(
        edge_labels(&graph),
        vec![
            edge("d/extra", "d", false),
            edge("p/d", "d", true),
            edge("p/full", "d/extra", true),
            edge("p/full", "p", false),
            edge("p/full", "p/plain", false),
            edge("p/plain", "p", false),
            edge("root", "p", false),
        ]
    );
}

#[test]
fn requirement_on_an_unresolved_dependency_is_skipped() {
    let meta = snapshot(
        vec![package("p", vec![declared("d", true, vec![])], vec![("full", vec!["d/extra"])])],
        vec!["p"],
        vec![node("p", vec![])],
    );
    let mut graph = FeatGraph2::new(&meta);
    assert_eq!(graph.add_package(0), Ok(()));
    assert_eq!(edge_labels(&graph), vec![edge("p/full", "p", false), edge("root", "p", false)]);
}

#[test]
fn requirement_on_an_undeclared_dependency_is_an_error() {
    let meta = snapshot(
        vec![package("p", vec![], vec![("full", vec!["d/extra"])])],
        vec!["p"],
        vec![node("p", vec![])],
    );
    assert_eq!(FeatGraph2::init(&meta, vec![LINUX]).err(), Some(GraphError::NameNotFound));
}

#[test]
fn missing_resolve_data_is_reported() {
    let meta = Metadata { packages: vec![], workspace_members: vec![], resolve: None };
    assert_eq!(FeatGraph2::init(&meta, vec![LINUX]).err(), Some(GraphError::MissingResolveData));
}

#[test]
fn lists_of_different_length_are_a_mismatch() {
    let meta = snapshot(vec![package("p", vec![], vec![])], vec!["p"], vec![]);
    assert_eq!(FeatGraph2::init(&meta, vec![LINUX]).err(), Some(GraphError::IdentityMismatch));
}

#[test]
fn entries_that_differ_in_identifier_are_a_mismatch() {
    let meta = snapshot(
        vec![package("p", vec![], vec![]), package("q", vec![], vec![])],
        vec!["p"],
        vec![node("q", vec![]), node("p", vec![])],
    );
    assert_eq!(FeatGraph2::init(&meta, vec![LINUX]).err(), Some(GraphError::IdentityMismatch));
}

#[test]
fn dependency_on_an_unlisted_package_is_a_mismatch() {
    let meta = snapshot(
        vec![package("p", vec![declared("d", false, vec![])], vec![])],
        vec!["p"],
        vec![node("p", vec![resolved("d", vec![normal()])])],
    );
    assert_eq!(FeatGraph2::init(&meta, vec![LINUX]).err(), Some(GraphError::IdentityMismatch));
}

#[test]
fn resolved_dependency_without_declaration_is_an_error() {
    let meta = snapshot(
        vec![package("p", vec![], vec![]), package("d", vec![], vec![])],
        vec!["p"],
        vec![node("p", vec![resolved("d", vec![normal()])]), node("d", vec![])],
    );
    assert_eq!(FeatGraph2::init(&meta, vec![LINUX]).err(), Some(GraphError::NameNotFound));
}

#[test]
fn feature_cycle_is_reported() {
    let meta = snapshot(
        vec![
            package("p", vec![declared("q", false, vec![])], vec![]),
            package("q", vec![declared("p", false, vec![])], vec![]),
        ],
        vec!["p"],
        vec![
            node("p", vec![resolved("q", vec![normal()])]),
            node("q", vec![resolved("p", vec![normal()])]),
        ],
    );
    assert_eq!(FeatGraph2::init(&meta, vec![LINUX]).err(), Some(GraphError::CyclicFeatureGraph));
}

#[test]
fn feature_that_requires_itself_is_a_cycle() {
    let meta = snapshot(
        vec![package("p", vec![], vec![("a", vec!["a"])])],
        vec!["p"],
        vec![node("p", vec![])],
    );
    assert_eq!(FeatGraph2::init(&meta, vec![LINUX]).err(), Some(GraphError::CyclicFeatureGraph));
}

#[test]
fn malformed_predicate_is_reported() {
    let meta = snapshot(
        vec![package("p", vec![declared("d", false, vec![])], vec![]), package("d", vec![], vec![])],
        vec!["p"],
        vec![node("p", vec![resolved("d", vec![only_on("cfg(unix")])]), node("d", vec![])],
    );
    assert_eq!(FeatGraph2::init(&meta, vec![LINUX]).err(), Some(GraphError::Unevaluated));
}

#[test]
fn platform_restricted_dependency_is_trimmed() {
    let meta = snapshot(
        vec![
            package("p", vec![declared("w", false, vec![]), declared("u", false, vec![])], vec![]),
            package("w", vec![], vec![]),
            package("u", vec![], vec![]),
        ],
        vec!["p"],
        vec![
            node(
                "p",
                vec![resolved("w", vec![only_on("cfg(windows)")]), resolved("u", vec![only_on("cfg(unix)")])],
            ),
            node("w", vec![]),
            node("u", vec![]),
        ],
    );
    let graph = FeatGraph2::init(&meta, vec![LINUX]).unwrap();
    assert_eq!(node_labels(&graph), vec!["p", "root", "u"]);
    assert_eq!(edge_labels(&graph), vec![edge("p", "u", false), edge("root", "p", false)]);
    let both = FeatGraph2::init(&meta, vec![LINUX, WINDOWS]).unwrap();
    assert_eq!(node_labels(&both), vec!["p", "root", "u", "w"]);
    assert_eq!(platforms_by_label(&both, "w"), Some(vec![WINDOWS.to_string()]));
    assert_eq!(platforms_by_label(&both, "u"), Some(vec![LINUX.to_string()]));
    assert_eq!(platforms_by_label(&both, "p"), Some(vec![LINUX.to_string(), WINDOWS.to_string()]));
    assert_eq!(platforms_by_label(&both, "root"), None);
}

#[test]
fn no_surviving_node_has_an_empty_platform_set() {
    let meta = snapshot(
        vec![
            package("p", vec![declared("w", false, vec!["x"])], vec![]),
            package("w", vec![declared("deep", false, vec![])], vec![("x", vec![])]),
            package("deep", vec![], vec![]),
        ],
        vec!["p"],
        vec![
            node("p", vec![resolved("w", vec![only_on("cfg(windows)")])]),
            node("w", vec![resolved("deep", vec![normal()])]),
            node("deep", vec![]),
        ],
    );
    let graph = FeatGraph2::init(&meta, vec![LINUX]).unwrap();
    for id in graph.node_ids() {
        if let Some(list) = graph.platforms_of(id) {
            assert!(!list.is_empty());
        }
    }
    assert_eq!(node_labels(&graph), vec!["p", "root"]);
}

#[test]
fn a_link_holds_where_any_of_its_kinds_applies() {
    let meta = snapshot(
        vec![package("p", vec![declared("d", false, vec![])], vec![]), package("d", vec![], vec![])],
        vec!["p"],
        vec![
            node("p", vec![resolved("d", vec![only_on("cfg(windows)"), only_on(LINUX)])]),
            node("d", vec![]),
        ],
    );
    let graph = FeatGraph2::init(&meta, vec![LINUX, WINDOWS, "aarch64-apple-darwin"]).unwrap();
    assert_eq!(platforms_by_label(&graph, "d"), Some(vec![LINUX.to_string(), WINDOWS.to_string()]));
}

#[test]
fn the_first_arrival_decides_the_platforms_of_a_node() {
    let meta = snapshot(
        vec![
            package("p", vec![declared("a", false, vec![]), declared("b", false, vec![])], vec![]),
            package("a", vec![declared("c", false, vec![])], vec![]),
            package("b", vec![declared("c", false, vec![])], vec![]),
            package("c", vec![], vec![]),
        ],
        vec!["p"],
        vec![
            node("p", vec![resolved("a", vec![only_on("cfg(unix)")]), resolved("b", vec![normal()])]),
            node("a", vec![resolved("c", vec![normal()])]),
            node("b", vec![resolved("c", vec![normal()])]),
            node("c", vec![]),
        ],
    );
    let graph = FeatGraph2::init(&meta, vec![LINUX, WINDOWS]).unwrap();
    assert_eq!(platforms_by_label(&graph, "a"), Some(vec![LINUX.to_string()]));
    assert_eq!(platforms_by_label(&graph, "b"), Some(vec![LINUX.to_string(), WINDOWS.to_string()]));
    assert_eq!(platforms_by_label(&graph, "c"), Some(vec![LINUX.to_string()]));
}

#[test]
fn edges_with_a_detour_are_dropped() {
    let meta = snapshot(
        vec![
            package("p", vec![declared("a", false, vec![]), declared("b", false, vec![])], vec![]),
            package("a", vec![declared("b", false, vec![])], vec![]),
            package("b", vec![], vec![]),
        ],
        vec!["p"],
        vec![
            node("p", vec![resolved("a", vec![normal()]), resolved("b", vec![normal()])]),
            node("a", vec![resolved("b", vec![normal()])]),
            node("b", vec![]),
        ],
    );
    let mut full = FeatGraph2::new(&meta);
    for ix in 0..3 {
        full.add_package(ix).unwrap();
    }
    assert!(edge_labels(&full).contains(&edge("p", "b", false)));
    let graph = FeatGraph2::init(&meta, vec![LINUX]).unwrap();
    assert_eq!(
        edge_labels(&graph),
        vec![edge("a", "b", false), edge("p", "a", false), edge("root", "p", false)]
    );
    let names = node_labels(&full);
    for from in names.iter() {
        for to in names.iter() {
            assert_eq!(reaches(&full, from, to), reaches(&graph, from, to));
        }
    }
}

#[test]
fn parallel_edges_stay_or_go_together() {
    let meta = snapshot(
        vec![
            package("p", vec![declared("d", false, vec![])], vec![("with", vec!["d/x"])]),
            package("d", vec![], vec![("x", vec![])]),
        ],
        vec!["p"],
        vec![node("p", vec![resolved("d", vec![normal()])]), node("d", vec![])],
    );
    let mut graph = FeatGraph2::new(&meta);
    graph.add_package(0).unwrap();
    graph.add_package(1).unwrap();
    let pid = Pid::new(0, &meta).unwrap();
    let base = graph.fid_index(Fid(pid, None)).unwrap();
    let with = graph.fid_index(Fid(pid, Some("with"))).unwrap();
    graph.add_edge(with, base, Link::unconditional()).unwrap();
    let before = edge_labels(&graph).iter().filter(|e| **e == edge("p/with", "p", false)).count();
    assert_eq!(before, 2);
    graph.transitive_reduction().unwrap();
    let after = edge_labels(&graph).iter().filter(|e| **e == edge("p/with", "p", false)).count();
    assert_eq!(after, 2);
}

#[test]
fn trimming_features_goes_on_until_nothing_changes() {
    let meta = snapshot(
        vec![
            package("p", vec![], vec![]),
            package("gate", vec![], vec![]),
            package("one", vec![], vec![]),
            package("two", vec![], vec![]),
            package("three", vec![], vec![]),
        ],
        vec!["p"],
        vec![
            node("p", vec![]),
            node("gate", vec![]),
            node("one", vec![]),
            node("two", vec![]),
            node("three", vec![]),
        ],
    );
    let mut graph = FeatGraph2::new(&meta);
    let fid = |ix: usize| Fid(Pid::new(ix, &meta).unwrap(), None);
    graph.from_root(fid(0)).unwrap();
    graph.connect(fid(0), fid(1), Link::unconditional()).unwrap();
    graph.connect(fid(1), fid(2), Link::unconditional()).unwrap();
    graph.connect(fid(2), fid(3), Link::unconditional()).unwrap();
    graph.connect(fid(3), fid(4), Link::unconditional()).unwrap();
    let gate = graph.find(fid(1)).unwrap();
    graph.platforms[gate] = Some(vec![]);
    graph.trim_unused_platforms();
    assert_eq!(node_labels(&graph), vec!["one", "p", "root", "three", "two"]);
    assert_eq!(
        edge_labels(&graph),
        vec![edge("one", "two", false), edge("root", "p", false), edge("two", "three", false)]
    );
    graph.trim_unused_features();
    assert_eq!(node_labels(&graph), vec!["p", "root"]);
    assert_eq!(edge_labels(&graph), vec![edge("root", "p", false)]);
    assert_eq!(graph.find(fid(2)), None);
    assert_eq!(graph.find(fid(4)), None);
    assert!(graph.find(fid(0)).is_some());
}

#[test]
fn workspace_features_stay_without_incoming_edges() {
    let meta = snapshot(
        vec![package("p", vec![], vec![("unused", vec![])])],
        vec!["p"],
        vec![node("p", vec![])],
    );
    let graph = FeatGraph2::init(&meta, vec![LINUX]).unwrap();
    assert_eq!(node_labels(&graph), vec!["p", "p/unused", "root"]);
    assert_eq!(platforms_by_label(&graph, "p/unused"), None);
}

#[test]
fn external_features_that_nothing_requires_go() {
    let meta = snapshot(
        vec![
            package("p", vec![declared("d", false, vec![])], vec![]),
            package("d", vec![], vec![("unused", vec![])]),
        ],
        vec!["p"],
        vec![node("p", vec![resolved("d", vec![normal()])]), node("d", vec![])],
    );
    let graph = FeatGraph2::init(&meta, vec![LINUX]).unwrap();
    assert_eq!(node_labels(&graph), vec!["d", "p", "root"]);
}

#[test]
fn building_twice_gives_the_same_graph() {
    let meta = snapshot(
        vec![
            package("p", vec![declared("a", false, vec!["x"]), declared("b", true, vec![])], vec![("default", vec!["b"])]),
            package("a", vec![declared("b", false, vec![])], vec![("x", vec![])]),
            package("b", vec![], vec![]),
        ],
        vec!["p"],
        vec![
            node("p", vec![resolved("a", vec![normal()]), resolved("b", vec![only_on("cfg(unix)")])]),
            node("a", vec![resolved("b", vec![normal()])]),
            node("b", vec![]),
        ],
    );
    let one = FeatGraph2::init(&meta, vec![LINUX, WINDOWS]).unwrap();
    let other = FeatGraph2::init(&meta, vec![LINUX, WINDOWS]).unwrap();
    assert_eq!(node_labels(&one), node_labels(&other));
    assert_eq!(edge_labels(&one), edge_labels(&other));
    assert_eq!(one.node_ids(), other.node_ids());
    assert_eq!(one.edges(), other.edges());
}

#[test]
fn declared_dash_matches_resolved_underscore() {
    let meta = snapshot(
        vec![
            package("p", vec![declared("foo-bar", false, vec![])], vec![]),
            package("foo-bar", vec![], vec![]),
        ],
        vec!["p"],
        vec![node("p", vec![resolved("foo-bar", vec![normal()])]), node("foo-bar", vec![])],
    );
    assert_eq!(meta.resolve.as_ref().unwrap()[0].deps[0].name, "foo_bar");
    let graph = FeatGraph2::init(&meta, vec![LINUX]).unwrap();
    assert_eq!(edge_labels(&graph), vec![edge("p", "foo-bar", false), edge("root", "p", false)]);
}

#[test]
fn renamed_library_is_matched_by_its_package_name() {
    let mut lib = package("redox_syscall", vec![], vec![]);
    lib.targets = vec![lib_target("syscall")];
    let meta = Metadata {
        packages: vec![package("p", vec![declared("redox_syscall", false, vec![])], vec![]), lib],
        workspace_members: vec!["p 1.0.0".to_string()],
        resolve: Some(vec![
            node(
                "p",
                vec![NodeDep {
                    name: "syscall".to_string(),
                    pkg: "redox_syscall 1.0.0".to_string(),
                    dep_kinds: vec![normal()],
                }],
            ),
            node("redox_syscall", vec![]),
        ]),
    };
    let graph = FeatGraph2::init(&meta, vec![LINUX]).unwrap();
    assert_eq!(edge_labels(&graph), vec![edge("p", "redox_syscall", false), edge("root", "p", false)]);
    assert_eq!(graph.library_renames, vec![false, true]);
}

#[test]
fn nodes_are_created_once() {
    let meta = snapshot(vec![package("p", vec![], vec![])], vec![], vec![node("p", vec![])]);
    let mut graph = FeatGraph2::new(&meta);
    let pid = Pid::new(0, &meta).unwrap();
    let first = graph.fid_index(Fid(pid, Some("a"))).unwrap();
    let second = graph.fid_index(Fid(pid, Some("a"))).unwrap();
    let other = graph.fid_index(Fid(pid, None)).unwrap();
    assert_eq!(first, second);
    assert_ne!(first, other);
    assert_eq!(graph.node_ids(), vec![0, first, other]);
    assert!(matches!(graph.feature(first), Some(Feature::External(_))));
    assert!(matches!(graph.feature(0), Some(Feature::Root)));
    assert_eq!(graph.feature(99).map(|_| ()), None);
    assert!(graph.contains(first));
    assert!(!graph.contains(99));
}

#[test]
fn members_are_workspace_nodes() {
    let meta = snapshot(
        vec![package("p", vec![declared("d", false, vec![])], vec![]), package("d", vec![], vec![])],
        vec!["p"],
        vec![node("p", vec![resolved("d", vec![normal()])]), node("d", vec![])],
    );
    let graph = FeatGraph2::init(&meta, vec![LINUX]).unwrap();
    assert_eq!(graph.workspace_members, vec![true, false]);
    let p = graph.find(Fid(Pid::new(0, &meta).unwrap(), None)).unwrap();
    let d = graph.find(Fid(Pid::new(1, &meta).unwrap(), None)).unwrap();
    assert!(matches!(graph.feature(p), Some(Feature::Workspace(_))));
    assert!(matches!(graph.feature(d), Some(Feature::External(_))));
    assert!(!graph.node_filled(p));
    assert!(graph.node_filled(d));
    assert!(!graph.node_filled(graph.root));
}

#[test]
fn labels_name_package_version_and_feature() {
    let meta = snapshot(
        vec![package("p", vec![], vec![("a", vec![])])],
        vec!["p"],
        vec![node("p", vec![])],
    );
    let graph = FeatGraph2::init(&meta, vec![LINUX]).unwrap();
    let pid = Pid::new(0, &meta).unwrap();
    let base = graph.find(Fid(pid, None)).unwrap();
    let feature = graph.find(Fid(pid, Some("a"))).unwrap();
    assert_eq!(graph.node_label(base), "p 1.0.0");
    assert_eq!(graph.node_label(feature), "p 1.0.0\na");
    assert_eq!(graph.node_label(graph.root), "root");
}

#[test]
fn optional_links_are_grey() {
    let meta = snapshot(
        vec![package("p", vec![declared("d", true, vec![])], vec![]), package("d", vec![], vec![])],
        vec!["p"],
        vec![node("p", vec![resolved("d", vec![normal()])]), node("d", vec![])],
    );
    let mut graph = FeatGraph2::new(&meta);
    graph.add_package(0).unwrap();
    let colours: Vec<&str> = graph.edges().iter().map(|e| graph.edge_color(e.2)).collect();
    assert_eq!(colours, vec!["black", "grey"]);
}

#[test]
fn edges_of_a_node_are_listed_in_both_directions() {
    let meta = snapshot(
        vec![
            package("p", vec![declared("a", false, vec![]), declared("b", false, vec![])], vec![]),
            package("a", vec![declared("b", false, vec!["x"])], vec![]),
            package("b", vec![], vec![("x", vec![])]),
        ],
        vec!["p"],
        vec![
            node("p", vec![resolved("a", vec![normal()]), resolved("b", vec![normal()])]),
            node("a", vec![resolved("b", vec![normal()])]),
            node("b", vec![]),
        ],
    );
    let graph = FeatGraph2::init(&meta, vec![LINUX]).unwrap();
    let find = |ix: usize, name: Option<&'static str>| {
        graph.find(Fid(Pid::new(ix, &meta).unwrap(), name)).unwrap()
    };
    let p = find(0, None);
    let a = find(1, None);
    let b = find(2, None);
    let bx = find(2, Some("x"));
    let out: Vec<usize> = graph.outgoing(p).into_iter().map(|e| e.0).collect();
    assert_eq!(out, vec![a]);
    let into: Vec<usize> = graph.incoming(b).into_iter().map(|e| e.0).collect();
    assert_eq!(into, vec![bx]);
    let into: Vec<usize> = graph.incoming(bx).into_iter().map(|e| e.0).collect();
    assert_eq!(into, vec![a]);
    let mut full = FeatGraph2::new(&meta);
    for ix in 0..3 {
        full.add_package(ix).unwrap();
    }
    let mut out: Vec<usize> = full.outgoing(p).into_iter().map(|e| e.0).collect();
    out.sort();
    let mut want = vec![a, b];
    want.sort();
    assert_eq!(out, want);
    let mut into: Vec<usize> = full.incoming(b).into_iter().map(|e| e.0).collect();
    into.sort();
    let mut want = vec![p, bx];
    want.sort();
    assert_eq!(into, want);
    assert_eq!(graph.incoming(graph.root), vec![]);
    assert_eq!(graph.outgoing(b), vec![]);
    assert_eq!(graph.outgoing(9999), vec![]);
}

#[test]
fn everything_below_a_node_is_reachable() {
    let meta = snapshot(
        vec![
            package("p", vec![declared("a", false, vec![])], vec![("unused", vec!["side"]), ("side", vec![])]),
            package("a", vec![declared("b", false, vec![])], vec![]),
            package("b", vec![], vec![]),
        ],
        vec!["p"],
        vec![
            node("p", vec![resolved("a", vec![normal()])]),
            node("a", vec![resolved("b", vec![normal()])]),
            node("b", vec![]),
        ],
    );
    let graph = FeatGraph2::init(&meta, vec![LINUX]).unwrap();
    let names = |ids: Vec<usize>| {
        let mut names: Vec<String> = ids.into_iter().map(|id| label(&graph, id)).collect();
        names.sort();
        names
    };
    assert_eq!(names(graph.reachable(graph.root)), vec!["a", "b", "p", "root"]);
    let a = graph.find(Fid(Pid::new(1, &meta).unwrap(), None)).unwrap();
    assert_eq!(names(graph.reachable(a)), vec!["a", "b"]);
    let unused = graph.find(Fid(Pid::new(0, &meta).unwrap(), Some("unused"))).unwrap();
    assert_eq!(names(graph.reachable(unused)), vec!["a", "b", "p", "p/side", "p/unused"]);
    assert_eq!(graph.reachable(9999), vec![]);
    for from in graph.node_ids() {
        for to in graph.node_ids() {
            let listed = graph.reachable(from).contains(&to);
            assert_eq!(listed, reaches(&graph, &label(&graph, from), &label(&graph, to)));
        }
    }
}

#[test]
fn removed_nodes_reach_nothing() {
    let meta = snapshot(
        vec![package("p", vec![declared("w", false, vec![])], vec![]), package("w", vec![], vec![])],
        vec!["p"],
        vec![node("p", vec![resolved("w", vec![only_on("cfg(windows)")])]), node("w", vec![])],
    );
    let graph = FeatGraph2::init(&meta, vec![LINUX]).unwrap();
    let w = Fid(Pid::new(1, &meta).unwrap(), None);
    assert_eq!(graph.find(w), None);
    let gone = (0..graph.nodes.len()).find(|id| !graph.contains(*id)).unwrap();
    assert_eq!(label(&graph, gone), "w");
    assert_eq!(graph.reachable(gone), vec![]);
    assert_eq!(graph.platforms_of(gone), None);
    assert_eq!(graph.platforms[gone], Some(vec![]));
}

#[test]
fn features_are_unified_over_the_workspace() {
    let meta = snapshot(
        vec![
            package("one", vec![declared("d", false, vec!["x"])], vec![]),
            package("two", vec![declared("d", false, vec!["y"]), declared("e", false, vec![])], vec![]),
            package("d", vec![], vec![("x", vec![]), ("y", vec![]), ("z", vec![])]),
            package("e", vec![], vec![]),
            package("f", vec![], vec![]),
        ],
        vec!["one", "two"],
        vec![
            node("one", vec![resolved("d", vec![normal()])]),
            node("two", vec![resolved("d", vec![normal()]), resolved("e", vec![normal()])]),
            node("d", vec![]),
            node("e", vec![]),
            node("f", vec![]),
        ],
    );
    let graph = FeatGraph2::init(&meta, vec![LINUX]).unwrap();
    let mut unified = graph.unified_features();
    for list in unified.iter_mut().flatten() {
        list.sort();
    }
    assert_eq!(unified, vec![None, None, Some(vec!["x", "y"]), Some(vec![]), None]);
}

#[test]
fn packages_are_found_by_identifier() {
    let meta = snapshot(
        vec![package("p", vec![], vec![]), package("q", vec![], vec![])],
        vec!["p"],
        vec![node("p", vec![]), node("q", vec![])],
    );
    let graph = FeatGraph2::init(&meta, vec![LINUX]).unwrap();
    let q = graph.package_identity("q 1.0.0").unwrap();
    assert_eq!(q.position(), 1);
    assert_eq!(q.package().name, "q");
    assert!(graph.package_identity("r 1.0.0").is_none());
    let p = graph.package_identity("p 1.0.0").unwrap();
    assert!(p < q);
    assert!(q > p);
    assert!(p <= p);
    assert_eq!(p.partial_cmp(&q), Some(std::cmp::Ordering::Less));
}
