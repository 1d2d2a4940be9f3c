use agave_checkout_gen::builder::{
    build_graph, package_record, process_packages, read_workspace_table, ManifestReadError,
    WorkspaceTable,
};
use agave_checkout_gen::closure::resolve_closure;
use agave_checkout_gen::graph::{DepMap, DependencyGraph, PackageInfo};

fn table_of(entries: &[(&str, Option<&str>)]) -> WorkspaceTable {
    WorkspaceTable {
        entries: entries
            .iter()
            .map(|(n, p)| (n.to_string(), p.map(|s| s.to_string())))
            .collect(),
    }
}

#[test]
fn test_read_workspace_table() {
    let text = "\
[workspace]
members = [\"alpha\", \"beta\"]

[workspace.dependencies]
solana-alpha = { path = \"alpha\", version = \"1.0\" }
solana-beta = { path = \"beta\" }
serde = \"1.0\"
";
    let t = read_workspace_table(text).unwrap();
    let mut entries: Vec<(String, Option<String>)> = t.entries.clone();
    entries.sort();
    assert_eq!(
        entries,
        vec![
            ("serde".to_string(), None),
            ("solana-alpha".to_string(), Some("alpha".to_string())),
            ("solana-beta".to_string(), Some("beta".to_string())),
        ]
    );
}

#[test]
fn test_read_workspace_table_missing_section() {
    let r = read_workspace_table("[package]\nname = \"x\"\n");
    assert_eq!(r.unwrap_err(), ManifestReadError);
}

#[test]
fn test_read_workspace_table_unparsable() {
    let r = read_workspace_table("this is ][ not toml");
    assert_eq!(r.unwrap_err(), ManifestReadError);
}

#[test]
fn test_process_packages_workspace_flag() {
    // Only declarations marked workspace = true and resolving to a declared
    // path survive.
    let ws = table_of(&[
        ("solana-alpha", Some("alpha")),
        ("solana-beta", Some("beta")),
        ("solana-gamma", None),
    ]);
    let decls: Vec<(String, bool)> = vec![
        ("solana-alpha".to_string(), true),
        ("solana-beta".to_string(), false),
        ("solana-gamma".to_string(), true),
        ("unknown".to_string(), true),
    ];
    let m = process_packages(&decls, &ws);
    assert_eq!(m.len(), 1);
    assert_eq!(m.get("solana-alpha"), Some(&"alpha".to_string()));
    assert_eq!(m.get("solana-beta"), None);
    assert_eq!(m.get("solana-gamma"), None);
    assert_eq!(m.get("unknown"), None);
}

#[test]
fn test_reserved_segment_collapsing() {
    // Two different names resolving under the reserved tree collapse to the
    // one canonical alias.
    let ws = table_of(&[
        ("solana-sdk-macro", Some("sdk/macro")),
        ("solana-program", Some("sdk/program")),
        ("solana-vote", Some("vote")),
    ]);
    let decls: Vec<(String, bool)> = vec![
        ("solana-sdk-macro".to_string(), true),
        ("solana-program".to_string(), true),
        ("solana-vote".to_string(), true),
    ];
    let m = process_packages(&decls, &ws);
    assert_eq!(m.len(), 2);
    assert_eq!(m.get("solana-sdk"), Some(&"sdk".to_string()));
    assert_eq!(m.get("solana-vote"), Some(&"vote".to_string()));
    assert_eq!(m.get("solana-sdk-macro"), None);
    assert_eq!(m.get("solana-program"), None);
}

#[test]
fn test_package_record() {
    let ws = table_of(&[
        ("solana-alpha", Some("alpha")),
        ("solana-beta", Some("beta")),
        ("solana-program", Some("sdk/program")),
    ]);
    let text = "\
[package]
name = \"solana-alpha\"

[dependencies]
solana-beta = { workspace = true }
solana-program = { workspace = true }
serde = \"1.0\"

[dev-dependencies]
solana-beta = { workspace = true }
";
    let info = package_record("alpha", Some(text), &ws);
    assert_eq!(info.path, "alpha");
    assert_eq!(info.dependencies.len(), 2);
    assert_eq!(info.dependencies.get("solana-beta"), Some(&"beta".to_string()));
    assert_eq!(info.dependencies.get("solana-sdk"), Some(&"sdk".to_string()));
    assert_eq!(info.dependencies.get("serde"), None);
    assert_eq!(info.dev_dependencies.len(), 1);
    assert_eq!(info.dev_dependencies.get("solana-beta"), Some(&"beta".to_string()));
}

#[test]
fn test_package_record_unreadable_manifest() {
    let ws = table_of(&[("solana-alpha", Some("alpha"))]);
    let info = package_record("alpha", None, &ws);
    assert_eq!(info.path, "alpha");
    assert_eq!(info.dependencies.len(), 0);
    assert_eq!(info.dev_dependencies.len(), 0);
}

#[test]
fn test_package_record_unparsable_manifest() {
    let ws = table_of(&[("solana-alpha", Some("alpha"))]);
    let info = package_record("alpha", Some("][ nonsense"), &ws);
    assert_eq!(info.dependencies.len(), 0);
    assert_eq!(info.dev_dependencies.len(), 0);
}

#[test]
fn test_build_graph_end_to_end() {
    let root_text = "\
[workspace.dependencies]
solana-alpha = { path = \"alpha\" }
solana-beta = { path = \"beta\" }
serde = \"1.0\"
";
    let ws = read_workspace_table(root_text).unwrap();
    let mut texts: Vec<Option<String>> = Vec::new();
    for (name, path) in ws.entries.iter() {
        if path.is_none() {
            texts.push(None);
        } else if name == "solana-alpha" {
            texts.push(Some(
                "[dependencies]\nsolana-beta = { workspace = true }\n".to_string(),
            ));
        } else {
            texts.push(Some("[package]\nname = \"solana-beta\"\n".to_string()));
        }
    }
    let g = build_graph(&ws, &texts);
    let mut paths = resolve_closure("solana-alpha", &g).unwrap();
    paths.sort();
    assert_eq!(
        paths,
        vec!["alpha".to_string(), "beta".to_string()]
    );
}

#[test]
fn test_dep_map_last_write_wins() {
    let mut m = DepMap::new();
    m.insert("solana-a", "first".to_string());
    m.insert("solana-a", "second".to_string());
    assert_eq!(m.len(), 1);
    assert_eq!(m.get("solana-a"), Some(&"second".to_string()));
}

#[test]
fn test_graph_insert_overwrites() {
    let mut g = DependencyGraph::new();
    g.insert(
        "solana-a",
        PackageInfo {
            path: "old".to_string(),
            dependencies: DepMap::new(),
            dev_dependencies: DepMap::new(),
        },
    );
    g.insert(
        "solana-a",
        PackageInfo {
            path: "new".to_string(),
            dependencies: DepMap::new(),
            dev_dependencies: DepMap::new(),
        },
    );
    assert_eq!(g.len(), 1);
    assert_eq!(g.get("solana-a").unwrap().path, "new");
}
