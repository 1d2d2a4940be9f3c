use agave_checkout_gen::closure::{collect_dependencies, resolve_closure, PackageNotFoundError};
use agave_checkout_gen::graph::{DepMap, DependencyGraph, PackageInfo};

fn map_of(pairs: &[(&str, &str)]) -> DepMap {
    let mut m = DepMap::new();
    for (k, v) in pairs {
        m.insert(k, v.to_string());
    }
    m
}

fn package(path: &str, deps: &[(&str, &str)], dev_deps: &[(&str, &str)]) -> PackageInfo {
    PackageInfo {
        path: path.to_string(),
        dependencies: map_of(deps),
        dev_dependencies: map_of(dev_deps),
    }
}

fn sorted(mut v: Vec<String>) -> Vec<String> {
    v.sort();
    v
}

#[test]
fn test_example_scenario() {
    // A depends on B; B's only dev-dependency path carries a dot marker, so C
    // is never reached.
    let mut g = DependencyGraph::new();
    g.insert("A", package("a", &[("B", "b")], &[]));
    g.insert("B", package("b", &[], &[("C", "c.local")]));
    g.insert("C", package("c", &[], &[]));

    let paths = resolve_closure("A", &g).unwrap();
    let got = sorted(paths);
    assert_eq!(got, vec!["A".to_string(), "B".to_string(), "a".to_string(), "b".to_string()]);
    assert!(!got.contains(&"c".to_string()));
    assert!(!got.contains(&"C".to_string()));
    assert!(!got.contains(&"c.local".to_string()));
}

#[test]
fn test_leaf_package() {
    // A package with no dependency entries resolves to exactly its own
    // short-form name and its own path; here the two coincide, and the
    // closure set holds the one string once.
    let mut g = DependencyGraph::new();
    g.insert("solana-svm", package("svm", &[], &[]));

    let paths = resolve_closure("solana-svm", &g).unwrap();
    assert_eq!(sorted(paths), vec!["svm".to_string()]);
}

#[test]
fn test_leaf_package_distinct_short_name() {
    let mut g = DependencyGraph::new();
    g.insert("solana-runtime", package("runtime-dir", &[], &[]));

    let paths = resolve_closure("solana-runtime", &g).unwrap();
    assert_eq!(sorted(paths), vec!["runtime".to_string(), "runtime-dir".to_string()]);
}

#[test]
fn test_idempotent_resolution() {
    let mut g = DependencyGraph::new();
    g.insert("solana-a", package("a", &[("solana-b", "b"), ("solana-c", "c")], &[]));
    g.insert("solana-b", package("b", &[("solana-c", "c")], &[]));
    g.insert("solana-c", package("c", &[], &[("solana-a", "a")]));

    let first = sorted(resolve_closure("solana-a", &g).unwrap());
    let second = sorted(resolve_closure("solana-a", &g).unwrap());
    assert_eq!(first, second);
}

#[test]
fn test_cyclic_graph_terminates() {
    let mut g = DependencyGraph::new();
    g.insert("x", package("px", &[("y", "py")], &[]));
    g.insert("y", package("py", &[("x", "px")], &[]));

    let paths = sorted(resolve_closure("x", &g).unwrap());
    assert_eq!(paths, vec!["px".to_string(), "py".to_string(), "x".to_string(), "y".to_string()]);
}

#[test]
fn test_dot_name_asymmetry() {
    // A regular dependency with a dot-marked name: its path is inserted, but
    // the name is never expanded, so nothing behind it is reached.
    let mut g = DependencyGraph::new();
    g.insert("root", package("r", &[("weird.", "pd")], &[]));
    g.insert("weird.", package("pd", &[("hidden", "ph")], &[]));
    g.insert("hidden", package("ph", &[], &[]));

    let paths = sorted(resolve_closure("root", &g).unwrap());
    assert!(paths.contains(&"pd".to_string()));
    assert!(!paths.contains(&"ph".to_string()));
    assert!(!paths.contains(&"weird.".to_string()));
    assert_eq!(paths, vec!["pd".to_string(), "r".to_string(), "root".to_string()]);
}

#[test]
fn test_dev_dependency_followed() {
    // A dev-dependency without a dot marker is walked like a regular one.
    let mut g = DependencyGraph::new();
    g.insert("root", package("r", &[], &[("solana-extra", "extra")]));
    g.insert("solana-extra", package("extra", &[], &[]));

    let paths = sorted(resolve_closure("root", &g).unwrap());
    assert_eq!(paths, vec!["extra".to_string(), "r".to_string(), "root".to_string()]);
}

#[test]
fn test_package_not_found() {
    let mut g = DependencyGraph::new();
    g.insert("present", package("p", &[], &[]));
    let r = resolve_closure("absent", &g);
    assert_eq!(r.unwrap_err(), PackageNotFoundError);
}

#[test]
fn test_collect_dependencies_unknown_module() {
    // Collecting for a name the graph lacks still records its short form.
    let g = DependencyGraph::new();
    let mut collected: Vec<String> = Vec::new();
    collect_dependencies("solana-ghost", &g, &mut collected);
    assert_eq!(collected, vec!["ghost".to_string()]);
}

#[test]
fn test_determinism_modulo_ordering() {
    // Two independently built copies of the same graph, with records
    // registered in different orders, resolve to the same set.
    let mut g1 = DependencyGraph::new();
    g1.insert("solana-a", package("a", &[("solana-b", "b")], &[("solana-c", "c")]));
    g1.insert("solana-b", package("b", &[], &[]));
    g1.insert("solana-c", package("c", &[], &[]));

    let mut g2 = DependencyGraph::new();
    g2.insert("solana-c", package("c", &[], &[]));
    g2.insert("solana-b", package("b", &[], &[]));
    g2.insert("solana-a", package("a", &[("solana-b", "b")], &[("solana-c", "c")]));

    assert_eq!(
        sorted(resolve_closure("solana-a", &g1).unwrap()),
        sorted(resolve_closure("solana-a", &g2).unwrap())
    );
}

#[test]
fn test_self_inclusion() {
    // The root's own path is in the closure even when nothing points at it.
    let mut g = DependencyGraph::new();
    g.insert("solana-root", package("root-dir", &[("solana-dep", "dep-dir")], &[]));
    g.insert("solana-dep", package("dep-dir", &[], &[]));
    let paths = resolve_closure("solana-root", &g).unwrap();
    assert!(paths.contains(&"root-dir".to_string()));
}

#[test]
fn test_dangling_dependency() {
    // A dependency name the graph lacks: its path is inserted, the expansion
    // finds nothing, and its short-form name is still recorded.
    let mut g = DependencyGraph::new();
    g.insert("solana-root", package("r", &[("solana-ghost", "ghost-dir")], &[]));
    let paths = sorted(resolve_closure("solana-root", &g).unwrap());
    assert_eq!(
        paths,
        vec!["ghost".to_string(), "ghost-dir".to_string(), "r".to_string(), "root".to_string()]
    );
}
