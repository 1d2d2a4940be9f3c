use agave_checkout_gen::filter::{collapse_reserved, filter_members, filter_patches};
use agave_checkout_gen::git_command::{create_git_command, render_sparse_checkout};
use agave_checkout_gen::graph::{DepMap, DependencyGraph, PackageInfo};

fn strings(v: &[&str]) -> Vec<String> {
    v.iter().map(|s| s.to_string()).collect()
}

#[test]
fn test_collapse_reserved_wildcard() {
    let entries = strings(&["curves/ed25519", "zk-curve-helper", "runtime", "curves/bn254"]);
    let out = collapse_reserved(&entries);
    assert_eq!(out, strings(&["zk-curve-helper", "runtime", "curves/*"]));
}

#[test]
fn test_collapse_reserved_no_curves() {
    let entries = strings(&["runtime", "svm"]);
    let out = collapse_reserved(&entries);
    assert_eq!(out, strings(&["runtime", "svm"]));
}

#[test]
fn test_collapse_reserved_empty() {
    let entries: Vec<String> = Vec::new();
    let out = collapse_reserved(&entries);
    assert!(out.is_empty());
}

#[test]
fn test_member_filtering() {
    let members = strings(&["alpha", "beta", "sdk", "gamma"]);
    let retained = strings(&["alpha", "sdk", "gamma", "other"]);
    let out = filter_members(&members, &retained);
    assert_eq!(out, strings(&["alpha", "gamma"]));
}

#[test]
fn test_member_exclusion_reserved_sentinel() {
    // The reserved sentinel is dropped even when it is trivially retained.
    let members = strings(&["sdk"]);
    let retained = strings(&["sdk"]);
    let out = filter_members(&members, &retained);
    assert!(out.is_empty());
    assert!(!out.contains(&"sdk".to_string()));
}

#[test]
fn test_patch_filtering_first_segment() {
    let patches: Vec<(String, Option<String>)> = vec![
        ("crate-a".to_string(), Some("curves/ed25519".to_string())),
        ("crate-b".to_string(), Some("zk/elgamal".to_string())),
        ("crate-c".to_string(), None),
        ("crate-d".to_string(), Some("runtime/core".to_string())),
    ];
    let retained = strings(&["curves/*", "zk", "svm"]);
    let out = filter_patches(&patches, &retained);
    assert_eq!(
        out,
        vec![
            ("crate-a".to_string(), Some("curves/ed25519".to_string())),
            ("crate-b".to_string(), Some("zk/elgamal".to_string())),
        ]
    );
}

#[test]
fn test_render_sparse_checkout() {
    let paths = strings(&["alpha", "sdk"]);
    let text = render_sparse_checkout(&paths);
    assert_eq!(text, "git sparse-checkout set \\\n    alpha \\\n    sdk \\\n");
}

#[test]
fn test_render_sparse_checkout_empty() {
    let paths: Vec<String> = Vec::new();
    let text = render_sparse_checkout(&paths);
    assert_eq!(text, "git sparse-checkout set \\\n");
}

#[test]
fn test_create_git_command() {
    let mut g = DependencyGraph::new();
    let mut deps = DepMap::new();
    deps.insert("solana-beta", "beta".to_string());
    g.insert(
        "solana-alpha",
        PackageInfo {
            path: "alpha".to_string(),
            dependencies: deps,
            dev_dependencies: DepMap::new(),
        },
    );
    g.insert(
        "solana-beta",
        PackageInfo {
            path: "beta".to_string(),
            dependencies: DepMap::new(),
            dev_dependencies: DepMap::new(),
        },
    );
    let (paths, text) = create_git_command("solana-alpha", &g).unwrap();
    let mut sorted_paths = paths.clone();
    sorted_paths.sort();
    assert_eq!(sorted_paths, strings(&["alpha", "beta"]));
    assert!(text.starts_with("git sparse-checkout set \\\n"));
    for p in paths.iter() {
        assert!(text.contains(&format!("    {} \\\n", p)));
    }
}

#[test]
fn test_create_git_command_missing_package() {
    let g = DependencyGraph::new();
    assert!(create_git_command("nope", &g).is_err());
}
