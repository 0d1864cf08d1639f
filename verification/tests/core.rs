use a_piece_of_pisi::catalog::{select_bootstrap, Catalog};
use a_piece_of_pisi::converter::{convert, Error as ConvertError, HashedPackage};
use a_piece_of_pisi::eopkg::index::{
    Dependency, History, Package, RuntimeDependencies, Source, Update,
};
use a_piece_of_pisi::fetch::{plan_fetches, FetchCause, FetchPlan, HashAccumulator};
use a_piece_of_pisi::graph::{build, sequence, DependencyGraph, Error as BuildError};
use a_piece_of_pisi::grouping::group_by_source;
use sha2::Digest;

fn mk_pkg(name: &str, source: &str, uri: &str, deps: &[&str]) -> Package {
    let run_deps = if deps.is_empty() {
        None
    } else {
        Some(RuntimeDependencies {
            deps: deps
                .iter()
                .map(|d| Dependency { value: d.to_string() })
                .collect(),
        })
    };
    Package {
        name: name.to_string(),
        summary: format!("{name} summary"),
        description: format!("{name} description"),
        part_of: None,
        package_uri: uri.to_string(),
        package_size: 42,
        package_hash: String::new(),
        history: History {
            updates: vec![Update {
                release: 26,
                date: "2023-01-01".to_string(),
                version: "1.3".to_string(),
            }],
        },
        source: Source {
            name: source.to_string(),
            homepage: None,
        },
        licenses: vec!["Zlib".to_string()],
        run_deps,
    }
}

fn strings(v: &[&str]) -> Vec<String> {
    v.iter().map(|s| s.to_string()).collect()
}

#[test]
fn closure_basic() {
    let catalog = Catalog::from_packages(vec![
        mk_pkg("app", "app", "pool/app.eopkg", &["libfoo"]),
        mk_pkg("libfoo", "foo", "pool/libfoo.eopkg", &[]),
        mk_pkg("unrelated", "other", "pool/unrelated.eopkg", &[]),
    ]);
    let graph = build(&catalog, &strings(&["app"])).expect("closure");
    assert_eq!(graph.node_count(), 2);
    assert!(graph.contains_node(&"app".to_string()));
    assert!(graph.contains_node(&"libfoo".to_string()));
    assert!(!graph.contains_node(&"unrelated".to_string()));
    assert!(graph.contains_edge(&"app".to_string(), &"libfoo".to_string()));
    assert!(!graph.contains_edge(&"libfoo".to_string(), &"app".to_string()));
}

#[test]
fn closure_cycle_terminates() {
    let catalog = Catalog::from_packages(vec![
        mk_pkg("a", "a", "pool/a.eopkg", &["b"]),
        mk_pkg("b", "b", "pool/b.eopkg", &["a"]),
    ]);
    let graph = build(&catalog, &strings(&["a"])).expect("cycle tolerated");
    assert_eq!(graph.node_count(), 2);
    assert!(graph.contains_node(&"a".to_string()));
    assert!(graph.contains_node(&"b".to_string()));
    assert!(graph.contains_edge(&"a".to_string(), &"b".to_string()));
    assert!(graph.contains_edge(&"b".to_string(), &"a".to_string()));
}

#[test]
fn closure_self_loop() {
    let catalog = Catalog::from_packages(vec![mk_pkg("a", "a", "pool/a.eopkg", &["a"])]);
    let graph = build(&catalog, &strings(&["a"])).expect("self loop tolerated");
    assert_eq!(graph.node_count(), 1);
    assert!(graph.contains_edge(&"a".to_string(), &"a".to_string()));
}

#[test]
fn closure_unknown_package() {
    let catalog = Catalog::from_packages(vec![mk_pkg("a", "a", "pool/a.eopkg", &["missing"])]);
    match build(&catalog, &strings(&["a"])) {
        Err(BuildError::UnknownPackage(n)) => assert_eq!(n, "missing"),
        Ok(_) => panic!("expected UnknownPackage"),
    }
    match build(&catalog, &strings(&["ghost"])) {
        Err(BuildError::UnknownPackage(n)) => assert_eq!(n, "ghost"),
        Ok(_) => panic!("expected UnknownPackage"),
    }
}

#[test]
fn sequence_is_permutation() {
    let catalog = Catalog::from_packages(vec![
        mk_pkg("a", "a", "pool/a.eopkg", &["b"]),
        mk_pkg("b", "b", "pool/b.eopkg", &["a"]),
        mk_pkg("lone", "lone", "pool/lone.eopkg", &[]),
    ]);
    let graph = build(&catalog, &strings(&["a", "lone"])).expect("closure");
    let order = sequence(&graph);
    assert_eq!(order.len(), 3);
    for name in ["a", "b", "lone"] {
        assert_eq!(order.iter().filter(|s| s.as_str() == name).count(), 1);
    }
    let again = sequence(&graph);
    assert_eq!(order, again);
}

#[test]
fn bootstrap_selection() {
    let mut base = mk_pkg("glibc", "glibc", "pool/glibc.eopkg", &[]);
    base.part_of = Some("system.base".to_string());
    let mut devel = mk_pkg("gcc", "gcc", "pool/gcc.eopkg", &[]);
    devel.part_of = Some("system.devel".to_string());
    let mut other = mk_pkg("vim", "vim", "pool/vim.eopkg", &[]);
    other.part_of = Some("editors".to_string());
    let catalog = Catalog::from_packages(vec![base, devel, other]);
    let picked = select_bootstrap(
        &catalog,
        &strings(&["system.base", "system.devel"]),
        &strings(&["file", "tree"]),
    );
    assert_eq!(picked, strings(&["glibc", "gcc", "file", "tree"]));
}

#[test]
fn catalog_last_record_wins() {
    let mut first = mk_pkg("dup", "one", "pool/one.eopkg", &[]);
    first.summary = "old".to_string();
    let mut second = mk_pkg("dup", "two", "pool/two.eopkg", &[]);
    second.summary = "new".to_string();
    let catalog = Catalog::from_packages(vec![first, second]);
    let got = catalog.get(&"dup".to_string()).expect("present");
    assert_eq!(got.summary, "new");
    assert_eq!(got.source.name, "two");
    assert!(catalog.get(&"absent".to_string()).is_none());
}

#[test]
fn hash_accumulator_known_vector() {
    let mut acc = HashAccumulator::new();
    acc.update(b"a");
    acc.update(b"bc");
    let digest = acc.finalize();
    let expected =
        const_hex::decode("ba7816bf8f01cfea414140de5dae2223b00361a396177a9cb410ff61f20015ad")
            .expect("valid hex");
    assert_eq!(digest.as_slice(), expected.as_slice());
}

fn catalog_of(n: usize) -> (Catalog, Vec<String>) {
    let mut pkgs = Vec::new();
    let mut names = Vec::new();
    for i in 0..n {
        let name = format!("pkg{i}");
        pkgs.push(mk_pkg(&name, &name, &format!("pool/{name}.eopkg"), &[]));
        names.push(name);
    }
    (Catalog::from_packages(pkgs), names)
}

#[test]
fn concurrency_bound_is_respected() {
    for limit in [1usize, 4, 16] {
        let (catalog, names) = catalog_of(20);
        let (tasks, failures) = plan_fetches(&names, &catalog, "https://example.com/unstable/");
        assert!(failures.is_empty());
        let mut plan = FetchPlan::new(tasks, limit);
        let mut in_flight: Vec<usize> = Vec::new();
        let mut max_seen = 0;
        while !plan.is_done() {
            while let Some(i) = plan.start() {
                in_flight.push(i);
                assert!(plan.in_flight() <= limit);
                max_seen = max_seen.max(plan.in_flight());
            }
            let target = in_flight.remove(0);
            let mut acc = HashAccumulator::new();
            acc.update(b"bytes");
            plan.complete_fetched(target, &acc);
            assert!(plan.in_flight() <= limit);
        }
        assert_eq!(max_seen, limit.min(20));
        let (ok, failed) = plan.finish();
        assert_eq!(ok.len(), 20);
        assert!(failed.is_empty());
    }
}

#[test]
fn one_failure_does_not_block_the_rest() {
    let (catalog, names) = catalog_of(5);
    let (tasks, planned_failures) =
        plan_fetches(&names, &catalog, "https://example.com/unstable/");
    assert!(planned_failures.is_empty());
    let mut plan = FetchPlan::new(tasks, 2);
    let mut results: Vec<usize> = Vec::new();
    while !plan.is_done() {
        while let Some(i) = plan.start() {
            results.push(i);
        }
        let target = results.remove(0);
        if target == 1 {
            plan.complete_failed(target, "connection reset".to_string());
        } else {
            let mut acc = HashAccumulator::new();
            acc.update(b"payload");
            plan.complete_fetched(target, &acc);
        }
    }
    let (ok, failed) = plan.finish();
    assert_eq!(ok.len(), 4);
    assert_eq!(failed.len(), 1);
    assert_eq!(failed[0].index, 1);
    assert_eq!(failed[0].name, "pkg1");
    match &failed[0].cause {
        FetchCause::Transport(cause) => assert_eq!(cause, "connection reset"),
        _ => panic!("expected a transport cause"),
    }
    for hp in &ok {
        assert_ne!(hp.package.name, "pkg1");
    }
}

#[test]
fn grouping_buckets_by_source() {
    let mk = |source: &str, name: &str| HashedPackage {
        hash: [0u8; 32],
        package: mk_pkg(name, source, "pool/x.eopkg", &[]),
    };
    let groups = group_by_source(vec![
        mk("zlib", "zlib"),
        mk("zlib", "zlib-devel"),
        mk("nano", "nano"),
    ]);
    assert_eq!(groups.len(), 2);
    assert_eq!(groups[0].name, "zlib");
    assert_eq!(groups[0].members.len(), 2);
    assert_eq!(groups[0].members[0].package.name, "zlib");
    assert_eq!(groups[0].members[1].package.name, "zlib-devel");
    assert_eq!(groups[1].name, "nano");
    assert_eq!(groups[1].members.len(), 1);
}

#[test]
fn grouping_empty_input() {
    let groups = group_by_source(Vec::new());
    assert!(groups.is_empty());
}

#[test]
fn convert_assembles_recipe() {
    let mut pkg = mk_pkg("zlib", "zlib", "pool/z/zlib-1.3-26.eopkg", &[]);
    pkg.source.homepage = Some("https://zlib.net".to_string());
    let hp = HashedPackage {
        hash: [0xab; 32],
        package: pkg,
    };
    let recipe = convert(&vec![hp], "https://example.com/unstable/").expect("recipe");
    assert_eq!(recipe.name, "zlib");
    assert_eq!(recipe.version, "1.3");
    assert_eq!(recipe.release, 26);
    assert_eq!(recipe.homepage, "https://zlib.net");
    assert_eq!(recipe.summary, "zlib summary");
    assert_eq!(recipe.licenses, vec!["Zlib".to_string()]);
    assert_eq!(recipe.upstreams.len(), 1);
    assert_eq!(
        recipe.upstreams[0].uri,
        "https://example.com/unstable/pool/z/zlib-1.3-26.eopkg"
    );
    assert_eq!(recipe.upstreams[0].hash_hex, "ab".repeat(32));
    assert_eq!(recipe.install_files, vec!["zlib-1.3-26.eopkg".to_string()]);
}

#[test]
fn convert_default_homepage() {
    let hp = HashedPackage {
        hash: [0u8; 32],
        package: mk_pkg("nano", "nano", "pool/nano.eopkg", &[]),
    };
    let recipe = convert(&vec![hp], "https://example.com/unstable/").expect("recipe");
    assert_eq!(recipe.homepage, "no-homepage-set");
}

#[test]
fn convert_empty_group_fails() {
    match convert(&Vec::new(), "https://example.com/unstable/") {
        Err(ConvertError::NoPackage) => {}
        _ => panic!("expected NoPackage"),
    }
}

#[test]
fn convert_bad_origin_fails() {
    let hp = HashedPackage {
        hash: [0u8; 32],
        package: mk_pkg("nano", "nano", "pool/nano.eopkg", &[]),
    };
    match convert(&vec![hp], "not a url") {
        Err(ConvertError::Url) => {}
        _ => panic!("expected Url"),
    }
}

#[test]
fn convert_pathless_artifact_fails() {
    let hp = HashedPackage {
        hash: [0u8; 32],
        package: mk_pkg("odd", "odd", "data:text/plain,hi", &[]),
    };
    match convert(&vec![hp], "https://example.com/unstable/") {
        Err(ConvertError::Path) => {}
        _ => panic!("expected Path"),
    }
}

#[test]
fn plan_fetches_reports_unresolvable() {
    let catalog = Catalog::from_packages(vec![
        mk_pkg("good", "good", "pool/good.eopkg", &[]),
        mk_pkg("odd", "odd", "data:text/plain,hi", &[]),
    ]);
    let names = strings(&["good", "odd"]);
    let (tasks, failures) = plan_fetches(&names, &catalog, "https://example.com/unstable/");
    assert_eq!(tasks.len(), 1);
    assert_eq!(tasks[0].index, 0);
    assert_eq!(tasks[0].url, "https://example.com/unstable/pool/good.eopkg");
    assert_eq!(tasks[0].filename, "good.eopkg");
    assert_eq!(failures.len(), 1);
    assert_eq!(failures[0].index, 1);
    assert_eq!(failures[0].name, "odd");
    assert!(matches!(failures[0].cause, FetchCause::InvalidUri));
}

#[test]
fn end_to_end_mock_transport() {
    let catalog = Catalog::from_packages(vec![
        mk_pkg("app", "app", "pool/a/app-1.3-26.eopkg", &["libfoo"]),
        mk_pkg("libfoo", "app", "pool/l/libfoo-1.3-26.eopkg", &[]),
    ]);
    let origin = "https://example.com/unstable/";
    let graph = build(&catalog, &strings(&["app"])).expect("closure");
    let order = sequence(&graph);
    assert_eq!(order.len(), 2);
    let (tasks, failures) = plan_fetches(&order, &catalog, origin);
    assert!(failures.is_empty());
    assert_eq!(tasks.len(), 2);
    let mut plan = FetchPlan::new(tasks, 4);
    let mut started: Vec<usize> = Vec::new();
    while !plan.is_done() {
        while let Some(i) = plan.start() {
            started.push(i);
        }
        let target = started.remove(0);
        let mut acc = HashAccumulator::new();
        acc.update(b"fixed bytes");
        plan.complete_fetched(target, &acc);
    }
    let (fetched, failed) = plan.finish();
    assert!(failed.is_empty());
    assert_eq!(fetched.len(), 2);
    let expected_hash: [u8; 32] = sha2::Sha256::digest(b"fixed bytes").into();
    for hp in &fetched {
        assert_eq!(hp.hash, expected_hash);
    }
    let groups = group_by_source(fetched);
    assert_eq!(groups.len(), 1);
    assert_eq!(groups[0].name, "app");
    assert_eq!(groups[0].members.len(), 2);
    let recipe = convert(&groups[0].members, origin).expect("recipe");
    assert_eq!(recipe.name, "app");
    assert_eq!(recipe.version, "1.3");
    assert_eq!(recipe.upstreams.len(), 2);
    assert_eq!(
        recipe.upstreams[0].uri,
        "https://example.com/unstable/pool/a/app-1.3-26.eopkg"
    );
    assert_eq!(recipe.upstreams[0].hash_hex, const_hex::encode(expected_hash));
    assert_eq!(
        recipe.install_files,
        vec![
            "app-1.3-26.eopkg".to_string(),
            "libfoo-1.3-26.eopkg".to_string()
        ]
    );
}

#[test]
fn node_indices_are_stable() {
    let mut g = DependencyGraph::new();
    let a = g.add_node_or_get_index("a".to_string());
    let b = g.add_node_or_get_index("b".to_string());
    assert_ne!(a, b);
    assert_eq!(g.add_node_or_get_index("a".to_string()), a);
    assert_eq!(g.get_index(&"a".to_string()), Some(a));
    assert_eq!(g.get_index(&"c".to_string()), None);
    g.add_edge(a, b);
    assert_eq!(g.edge_count(), 1);
    assert_eq!(g.node_count(), 2);
    assert_eq!(g.node_name(a).as_str(), "a");
    assert_eq!(g.node_name(b).as_str(), "b");
}
