use cargo_tree::args::Args;
use cargo_tree::args::Charset;
use cargo_tree::common::DepKind;
use cargo_tree::errors::TreeError;
use cargo_tree::format::Pattern;
use cargo_tree::graph::build;
use cargo_tree::graph::Graph;
use cargo_tree::ident::PackageId;
use cargo_tree::ident::Version;
use cargo_tree::metadata::Document;
use cargo_tree::metadata::Package;
use cargo_tree::metadata::ResolveDep;
use cargo_tree::metadata::ResolveNode;
use cargo_tree::tree::find_duplicates;
use cargo_tree::tree::find_package;
use cargo_tree::tree::print;
use cargo_tree::tree::print_tree;
use cargo_tree::tree::render;
use cargo_tree::tree::Direction;
use cargo_tree::tree::PrefixStyle;
use cargo_tree::tree::RenderConfig;
use cargo_tree::tree::RootSelector;

const CRATES_IO: &str = "registry+https://github.com/rust-lang/crates.io-index";

fn ver(major: u64, minor: u64, patch: u64) -> Version {
    Version::release(major, minor, patch)
}

fn pid(name: &str, major: u64, minor: u64, patch: u64) -> PackageId {
    PackageId {
        name: name.to_string(),
        version: ver(major, minor, patch),
        source: Some(CRATES_IO.to_string()),
    }
}

fn pkg(name: &str, major: u64, minor: u64, patch: u64) -> Package {
    Package {
        id: pid(name, major, minor, patch),
        license: None,
        repository: None,
        manifest_dir: format!("/src/{}", name),
    }
}

fn node(id: PackageId, deps: Vec<(PackageId, Vec<DepKind>)>) -> ResolveNode {
    ResolveNode {
        id,
        dependencies: deps.iter().map(|(p, _)| p.duplicate()).collect(),
        deps: deps
            .into_iter()
            .map(|(p, kinds)| ResolveDep {
                pkg: p,
                dep_kinds: kinds,
            })
            .collect(),
    }
}

/// root `a` depends on `b` and `c`; both depend on `d`.
fn diamond() -> Document {
    Document {
        packages: vec![
            pkg("a", 1, 0, 0),
            pkg("b", 1, 0, 0),
            pkg("c", 1, 0, 0),
            pkg("d", 1, 0, 0),
        ],
        root: Some(pid("a", 1, 0, 0)),
        nodes: vec![
            node(
                pid("a", 1, 0, 0),
                vec![
                    (pid("b", 1, 0, 0), vec![DepKind::Normal]),
                    (pid("c", 1, 0, 0), vec![DepKind::Normal]),
                ],
            ),
            node(pid("b", 1, 0, 0), vec![(pid("d", 1, 0, 0), vec![DepKind::Normal])]),
            node(pid("c", 1, 0, 0), vec![(pid("d", 1, 0, 0), vec![DepKind::Normal])]),
            node(pid("d", 1, 0, 0), vec![]),
        ],
    }
}

fn built(doc: &Document) -> Graph {
    build(&Args::default(), doc).expect("document should build")
}

fn ascii_cfg() -> RenderConfig {
    RenderConfig {
        direction: Direction::Outgoing,
        prefix: PrefixStyle::Indent,
        charset: Charset::Ascii,
        all: false,
        depth_limit: None,
    }
}

fn plain_pattern() -> Pattern {
    Pattern::new("{p}").expect("default pattern parses")
}

#[test]
fn revisit_prints_once_in_full_and_once_truncated() {
    let doc = diamond();
    let graph = built(&doc);
    let lines = print_tree(&graph, 0, &ascii_cfg(), &plain_pattern());
    assert_eq!(
        lines,
        vec![
            "a v1.0.0",
            "|-- b v1.0.0",
            "|   `-- d v1.0.0",
            "`-- c v1.0.0",
            "    `-- d v1.0.0 (*)",
        ]
    );
}

#[test]
fn show_all_expands_every_path() {
    let doc = diamond();
    let graph = built(&doc);
    let mut cfg = ascii_cfg();
    cfg.all = true;
    let lines = print_tree(&graph, 0, &cfg, &plain_pattern());
    assert_eq!(
        lines,
        vec![
            "a v1.0.0",
            "|-- b v1.0.0",
            "|   `-- d v1.0.0",
            "`-- c v1.0.0",
            "    `-- d v1.0.0",
        ]
    );
}

#[test]
fn rendering_twice_is_byte_identical() {
    let doc = diamond();
    let graph = built(&doc);
    let mut args = Args::default();
    args.charset = Charset::Ascii;
    let first = print(&args, &graph).expect("renders");
    let second = print(&args, &graph).expect("renders");
    assert_eq!(first, second);
}

#[test]
fn depth_limit_zero_prints_exactly_the_root() {
    let doc = diamond();
    let graph = built(&doc);
    let mut cfg = ascii_cfg();
    cfg.depth_limit = Some(0);
    let lines = print_tree(&graph, 0, &cfg, &plain_pattern());
    assert_eq!(lines, vec!["a v1.0.0"]);

    cfg.all = true;
    let lines_all = print_tree(&graph, 0, &cfg, &plain_pattern());
    assert_eq!(lines_all, vec!["a v1.0.0"]);
}

#[test]
fn depth_limit_one_prints_unexpanded_children() {
    let doc = diamond();
    let graph = built(&doc);
    let mut cfg = ascii_cfg();
    cfg.depth_limit = Some(1);
    let lines = print_tree(&graph, 0, &cfg, &plain_pattern());
    assert_eq!(lines, vec!["a v1.0.0", "|-- b v1.0.0", "`-- c v1.0.0"]);
}

#[test]
fn cycle_terminates_even_when_showing_all() {
    let doc = Document {
        packages: vec![pkg("a", 1, 0, 0), pkg("b", 1, 0, 0)],
        root: Some(pid("a", 1, 0, 0)),
        nodes: vec![
            node(pid("a", 1, 0, 0), vec![(pid("b", 1, 0, 0), vec![DepKind::Normal])]),
            node(pid("b", 1, 0, 0), vec![(pid("a", 1, 0, 0), vec![DepKind::Normal])]),
        ],
    };
    let graph = built(&doc);
    let mut cfg = ascii_cfg();
    cfg.all = true;
    let lines = print_tree(&graph, 0, &cfg, &plain_pattern());
    assert_eq!(
        lines,
        vec!["a v1.0.0", "`-- b v1.0.0", "    `-- a v1.0.0 (*)"]
    );
}

#[test]
fn duplicate_versions_are_reported_sorted_and_bar_is_omitted() {
    let doc = Document {
        packages: vec![
            pkg("bar", 1, 0, 0),
            pkg("foo", 2, 0, 0),
            pkg("foo", 1, 0, 0),
        ],
        root: None,
        nodes: vec![
            node(pid("bar", 1, 0, 0), vec![]),
            node(pid("foo", 2, 0, 0), vec![]),
            node(pid("foo", 1, 0, 0), vec![]),
        ],
    };
    let graph = built(&doc);
    let dups = find_duplicates(&graph);
    assert_eq!(dups.len(), 2);
    assert_eq!(dups[0].name, "foo");
    assert_eq!(dups[0].version.major, 1);
    assert_eq!(dups[1].name, "foo");
    assert_eq!(dups[1].version.major, 2);
}

#[test]
fn duplicates_mode_prints_one_inverted_tree_per_duplicate() {
    let doc = Document {
        packages: vec![pkg("app", 1, 0, 0), pkg("foo", 1, 0, 0), pkg("foo", 2, 0, 0)],
        root: Some(pid("app", 1, 0, 0)),
        nodes: vec![
            node(
                pid("app", 1, 0, 0),
                vec![
                    (pid("foo", 1, 0, 0), vec![DepKind::Normal]),
                    (pid("foo", 2, 0, 0), vec![DepKind::Normal]),
                ],
            ),
            node(pid("foo", 1, 0, 0), vec![]),
            node(pid("foo", 2, 0, 0), vec![]),
        ],
    };
    let graph = built(&doc);
    let mut args = Args::default();
    args.charset = Charset::Ascii;
    args.duplicates = true;
    let lines = print(&args, &graph).expect("renders");
    assert_eq!(
        lines,
        vec![
            "foo v1.0.0",
            "`-- app v1.0.0",
            "",
            "foo v2.0.0",
            "`-- app v1.0.0",
        ]
    );
}

#[test]
fn same_pair_with_two_kinds_keeps_two_edges_under_two_headers() {
    let doc = Document {
        packages: vec![pkg("a", 1, 0, 0), pkg("b", 1, 0, 0)],
        root: Some(pid("a", 1, 0, 0)),
        nodes: vec![
            node(
                pid("a", 1, 0, 0),
                vec![(
                    pid("b", 1, 0, 0),
                    vec![DepKind::Normal, DepKind::Build, DepKind::Normal],
                )],
            ),
            node(pid("b", 1, 0, 0), vec![]),
        ],
    };
    let graph = built(&doc);
    assert_eq!(graph.edges.len(), 2);
    let lines = print_tree(&graph, 0, &ascii_cfg(), &plain_pattern());
    assert_eq!(
        lines,
        vec![
            "a v1.0.0",
            "`-- b v1.0.0",
            "[build-dependencies]",
            "`-- b v1.0.0 (*)",
        ]
    );
}

#[test]
fn a_graph_without_duplicates_reports_none() {
    let doc = diamond();
    let graph = built(&doc);
    assert!(find_duplicates(&graph).is_empty());
    let mut args = Args::default();
    args.duplicates = true;
    let lines = print(&args, &graph).expect("renders");
    assert!(lines.is_empty());
}

#[test]
fn an_empty_document_builds_an_empty_graph() {
    let doc = Document {
        packages: vec![],
        root: None,
        nodes: vec![],
    };
    let graph = built(&doc);
    assert!(graph.nodes.is_empty());
    assert!(graph.edges.is_empty());
    assert!(find_duplicates(&graph).is_empty());
}

#[test]
fn inversion_swaps_which_endpoint_is_the_child() {
    let doc = Document {
        packages: vec![pkg("a", 1, 0, 0), pkg("b", 1, 0, 0)],
        root: Some(pid("a", 1, 0, 0)),
        nodes: vec![
            node(pid("a", 1, 0, 0), vec![(pid("b", 1, 0, 0), vec![DepKind::Normal])]),
            node(pid("b", 1, 0, 0), vec![]),
        ],
    };
    let graph = built(&doc);
    let mut cfg = ascii_cfg();
    cfg.direction = Direction::Incoming;
    let lines = render(
        &graph,
        &RootSelector::Query("b".to_string()),
        &cfg,
        &plain_pattern(),
    )
    .expect("renders");
    assert_eq!(lines, vec!["b v1.0.0", "`-- a v1.0.0"]);
}

#[test]
fn development_edges_can_be_excluded() {
    let doc = Document {
        packages: vec![pkg("a", 1, 0, 0), pkg("b", 1, 0, 0), pkg("t", 1, 0, 0)],
        root: Some(pid("a", 1, 0, 0)),
        nodes: vec![
            node(
                pid("a", 1, 0, 0),
                vec![
                    (pid("b", 1, 0, 0), vec![DepKind::Normal]),
                    (pid("t", 1, 0, 0), vec![DepKind::Development]),
                ],
            ),
            node(pid("b", 1, 0, 0), vec![]),
            node(pid("t", 1, 0, 0), vec![]),
        ],
    };
    let mut args = Args::default();
    args.no_dev_dependencies = true;
    let graph = build(&args, &doc).expect("builds");
    // t is no longer reachable from a, so pruning removes it
    assert_eq!(graph.nodes.len(), 2);
    let lines = print_tree(&graph, 0, &ascii_cfg(), &plain_pattern());
    assert_eq!(lines, vec!["a v1.0.0", "`-- b v1.0.0"]);
}

#[test]
fn unreachable_packages_are_pruned() {
    let doc = Document {
        packages: vec![pkg("a", 1, 0, 0), pkg("b", 1, 0, 0), pkg("z", 1, 0, 0)],
        root: Some(pid("a", 1, 0, 0)),
        nodes: vec![
            node(pid("a", 1, 0, 0), vec![(pid("b", 1, 0, 0), vec![DepKind::Normal])]),
            node(pid("b", 1, 0, 0), vec![]),
            node(pid("z", 1, 0, 0), vec![(pid("b", 1, 0, 0), vec![DepKind::Normal])]),
        ],
    };
    let graph = built(&doc);
    assert_eq!(graph.nodes.len(), 2);
    assert_eq!(graph.edges.len(), 1);
    assert_eq!(graph.root, Some(0));
}

#[test]
fn missing_kind_tags_are_rejected() {
    let doc = Document {
        packages: vec![pkg("a", 1, 0, 0), pkg("b", 1, 0, 0)],
        root: Some(pid("a", 1, 0, 0)),
        nodes: vec![
            node(pid("a", 1, 0, 0), vec![(pid("b", 1, 0, 0), vec![])]),
            node(pid("b", 1, 0, 0), vec![]),
        ],
    };
    let r = build(&Args::default(), &doc);
    assert!(matches!(r, Err(TreeError::MalformedInput)));
}

#[test]
fn inconsistent_dependency_counts_are_rejected() {
    let mut n = node(pid("a", 1, 0, 0), vec![(pid("b", 1, 0, 0), vec![DepKind::Normal])]);
    n.dependencies.clear();
    let doc = Document {
        packages: vec![pkg("a", 1, 0, 0), pkg("b", 1, 0, 0)],
        root: Some(pid("a", 1, 0, 0)),
        nodes: vec![n, node(pid("b", 1, 0, 0), vec![])],
    };
    let r = build(&Args::default(), &doc);
    assert!(matches!(r, Err(TreeError::MalformedInput)));
}

#[test]
fn unknown_identities_are_rejected() {
    let doc = Document {
        packages: vec![pkg("a", 1, 0, 0)],
        root: Some(pid("a", 1, 0, 0)),
        nodes: vec![node(
            pid("a", 1, 0, 0),
            vec![(pid("ghost", 1, 0, 0), vec![DepKind::Normal])],
        )],
    };
    let r = build(&Args::default(), &doc);
    assert!(matches!(r, Err(TreeError::MalformedInput)));
}

#[test]
fn missing_root_is_reported() {
    let doc = Document {
        packages: vec![pkg("a", 1, 0, 0)],
        root: None,
        nodes: vec![node(pid("a", 1, 0, 0), vec![])],
    };
    let graph = built(&doc);
    let r = print(&Args::default(), &graph);
    assert!(matches!(r, Err(TreeError::RootMissing)));
}

#[test]
fn query_resolves_name_and_version() {
    let doc = diamond();
    let graph = built(&doc);
    assert_eq!(find_package("b", &graph).expect("found"), 1);
    assert_eq!(find_package("b:1.0.0", &graph).expect("found"), 1);
}

#[test]
fn query_with_wrong_version_finds_nothing() {
    let doc = diamond();
    let graph = built(&doc);
    let r = find_package("b:9.9.9", &graph);
    match r {
        Err(TreeError::PackageNotFound { query }) => assert_eq!(query, "b:9.9.9"),
        other => panic!("expected PackageNotFound, got {:?}", other.is_ok()),
    }
}

#[test]
fn query_with_unparsable_version_is_rejected() {
    let doc = diamond();
    let graph = built(&doc);
    let r = find_package("b:not-a-version", &graph);
    assert!(matches!(r, Err(TreeError::InvalidVersion { .. })));
}

#[test]
fn ambiguous_query_lists_the_candidates() {
    let doc = Document {
        packages: vec![pkg("foo", 1, 0, 0), pkg("foo", 2, 0, 0)],
        root: None,
        nodes: vec![node(pid("foo", 1, 0, 0), vec![]), node(pid("foo", 2, 0, 0), vec![])],
    };
    let graph = built(&doc);
    match find_package("foo", &graph) {
        Err(TreeError::AmbiguousPackage { query, candidates }) => {
            assert_eq!(query, "foo");
            assert_eq!(candidates.len(), 2);
            assert_eq!(candidates[0].version.major, 1);
            assert_eq!(candidates[1].version.major, 2);
        }
        _ => panic!("expected AmbiguousPackage"),
    }
}

#[test]
fn depth_prefix_counts_from_zero() {
    let doc = diamond();
    let graph = built(&doc);
    let mut cfg = ascii_cfg();
    cfg.prefix = PrefixStyle::Depth;
    let lines = print_tree(&graph, 0, &cfg, &plain_pattern());
    assert_eq!(
        lines,
        vec![
            "0 a v1.0.0",
            "1 b v1.0.0",
            "2 d v1.0.0",
            "1 c v1.0.0",
            "2 d v1.0.0 (*)",
        ]
    );
}

#[test]
fn plain_prefix_is_a_flat_list_without_headers() {
    let doc = Document {
        packages: vec![pkg("a", 1, 0, 0), pkg("b", 1, 0, 0)],
        root: Some(pid("a", 1, 0, 0)),
        nodes: vec![
            node(pid("a", 1, 0, 0), vec![(pid("b", 1, 0, 0), vec![DepKind::Build])]),
            node(pid("b", 1, 0, 0), vec![]),
        ],
    };
    let graph = built(&doc);
    let mut cfg = ascii_cfg();
    cfg.prefix = PrefixStyle::Plain;
    let lines = print_tree(&graph, 0, &cfg, &plain_pattern());
    assert_eq!(lines, vec!["a v1.0.0", "b v1.0.0"]);
}

#[test]
fn children_sort_numerically_by_version() {
    let doc = Document {
        packages: vec![pkg("a", 1, 0, 0), pkg("foo", 1, 10, 0), pkg("foo", 1, 9, 0)],
        root: Some(pid("a", 1, 0, 0)),
        nodes: vec![
            node(
                pid("a", 1, 0, 0),
                vec![
                    (pid("foo", 1, 10, 0), vec![DepKind::Normal]),
                    (pid("foo", 1, 9, 0), vec![DepKind::Normal]),
                ],
            ),
            node(pid("foo", 1, 10, 0), vec![]),
            node(pid("foo", 1, 9, 0), vec![]),
        ],
    };
    let graph = built(&doc);
    let lines = print_tree(&graph, 0, &ascii_cfg(), &plain_pattern());
    assert_eq!(
        lines,
        vec!["a v1.0.0", "|-- foo v1.9.0", "`-- foo v1.10.0"]
    );
}

#[test]
fn diamond_join_is_flagged_as_a_duplicate_path() {
    let doc = diamond();
    let graph = built(&doc);
    // a, b, c, d sit at indices 0..4 in document order
    assert_eq!(graph.dup_path_flags(), vec![false, false, false, true]);
}

#[test]
fn discovery_depths_are_shortest_distances() {
    let doc = diamond();
    let graph = built(&doc);
    assert_eq!(
        graph.discovery_depths(),
        vec![Some(0), Some(1), Some(1), Some(2)]
    );
}

#[test]
fn discovery_depths_without_a_root_are_empty() {
    let doc = Document {
        packages: vec![pkg("a", 1, 0, 0)],
        root: None,
        nodes: vec![node(pid("a", 1, 0, 0), vec![])],
    };
    let graph = built(&doc);
    assert_eq!(graph.discovery_depths(), vec![None]);
}

#[test]
fn unicode_charset_uses_box_drawing_glyphs() {
    let doc = diamond();
    let graph = built(&doc);
    let mut cfg = ascii_cfg();
    cfg.charset = Charset::Utf8;
    let lines = print_tree(&graph, 0, &cfg, &plain_pattern());
    assert_eq!(lines[1], "├── b v1.0.0");
    assert_eq!(lines[2], "│   └── d v1.0.0");
    assert_eq!(lines[3], "└── c v1.0.0");
}
