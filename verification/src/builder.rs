//! The package graph builder: reads the root manifest's workspace-dependency
//! table and each package manifest's dependency sections, and assembles the
//! graph records.
//!
//! Parsing the manifest text is the structured-document parser's job (the
//! `toml` crate, behind trusted wrappers whose results are named); everything
//! that decides which entries become graph edges is verified here.

use crate::graph::{assoc_lookup, assoc_update, distinct_keys, lemma_assoc_update_properties, lemma_assoc_without_properties, assoc_without, DepMap, DependencyGraph, PackageInfo, PackageInfoView};
use crate::strutil::{first_segment, spec_first_segment, str_eq};
use vstd::prelude::*;

verus! {

/// The root manifest's workspace-dependency table: each declared package name
/// with its declared path, if any, in table order.
#[derive(Debug)]
pub struct WorkspaceTable {
    pub entries: Vec<(String, Option<String>)>,
}

impl View for WorkspaceTable {
    type V = Seq<(Seq<char>, Option<Seq<char>>)>;

    open spec fn view(&self) -> Seq<(Seq<char>, Option<Seq<char>>)> {
        self.entries.deep_view()
    }
}

impl WorkspaceTable {
    /// The declared path of the package named `k`: `None` when the table has
    /// no such package, `Some(None)` when it is declared without a path.
    pub fn get(&self, k: &str) -> (r: Option<&Option<String>>)
        ensures
            match r {
                Some(v) => assoc_lookup(self@, k@) == Some(v.deep_view()),
                None => assoc_lookup(self@, k@) is None,
            },
    {
        let n = self.entries.len();
        let mut i: usize = 0;
        while i < n
            invariant
                i <= n,
                n == self.entries.len(),
                forall|j: int| 0 <= j < i ==> self@[j].0 != k@,
            decreases n - i,
        {
            if str_eq(self.entries[i].0.as_str(), k) {
                proof {
                    crate::graph::lemma_assoc_lookup_skip(self@, k@, i as int);
                }
                return Some(&self.entries[i].1);
            }
            i += 1;
        }
        proof {
            crate::graph::lemma_assoc_lookup_skip(self@, k@, n as int);
            assert(self@.skip(n as int) =~= Seq::<(Seq<char>, Option<Seq<char>>)>::empty());
        }
        None
    }
}

/// What the structured-document parser reads out of a root manifest's
/// `[workspace.dependencies]` table, as a function of the text alone.
pub uninterp spec fn workspace_deps_of(text: Seq<char>) -> Option<
    Seq<(Seq<char>, Option<Seq<char>>)>,
>;

/// Relies on the `toml` crate (`str::parse::<toml::Value>` and the accessors
/// `Value::get`, `Value::as_table`, `Value::as_str`): reads the
/// `[workspace.dependencies]` table of a root manifest as (name, declared
/// path) pairs, in the table's iteration order (ascending by name); `None`
/// when the text does not parse or has no such table. Parse and iteration are
/// deterministic, so the result is a function of the text alone.
#[verifier::external_body]
fn read_workspace_deps(text: &str) -> (r: Option<Vec<(String, Option<String>)>>)
    ensures
        r.deep_view() == workspace_deps_of(text@),
{
    let val: toml::Value = match text.parse() { Ok(v) => v, Err(_) => { return None } };
    let deps = val.get("workspace").and_then(|w| w.get("dependencies"));
    let tbl = match deps.and_then(|d| d.as_table()) { Some(t) => t, None => { return None } };
    let mut out: Vec<(String, Option<String>)> = Vec::new();
    for (name, data) in tbl.iter() {
        let path = data.get("path").and_then(|p| p.as_str()).map(|s| s.to_string());
        out.push((name.clone(), path));
    }
    Some(out)
}

/// What the structured-document parser reads out of one dependency section of
/// a package manifest, as a function of the arguments alone.
pub uninterp spec fn section_decls_of(text: Seq<char>, dev: bool) -> Option<
    Seq<(Seq<char>, bool)>,
>;

/// Relies on the `toml` crate (`str::parse::<toml::Value>`, `Value::get`,
/// `Value::as_table`, `Value::as_bool`): reads the names declared in a
/// package manifest's `[dependencies]` (or, for `dev`, `[dev-dependencies]`)
/// table, each with its inherited-from-workspace flag, in the table's
/// iteration order (ascending by name); `None` when the text does not parse.
/// An absent table reads as an empty list. Parse and iteration are
/// deterministic, so the result is a function of the arguments alone.
#[verifier::external_body]
fn read_section_decls(text: &str, dev: bool) -> (r: Option<Vec<(String, bool)>>)
    ensures
        r.deep_view() == section_decls_of(text@, dev),
{
    let val: toml::Value = match text.parse() { Ok(v) => v, Err(_) => { return None } };
    let section = if dev { "dev-dependencies" } else { "dependencies" };
    let mut out: Vec<(String, bool)> = Vec::new();
    if let Some(tbl) = val.get(section).and_then(|d| d.as_table()) {
        for (name, data) in tbl.iter() {
            let flag = data.get("workspace").and_then(|w| w.as_bool()).unwrap_or(false);
            out.push((name.clone(), flag));
        }
    }
    Some(out)
}

/// The root manifest cannot be used: it does not parse, or it lacks the
/// workspace-dependencies table.
#[derive(Clone, Copy, Debug, PartialEq, Eq, Structural)]
pub struct ManifestReadError;

/// Reads the workspace-dependency table out of the root manifest text;
/// fails exactly when the text yields no `[workspace.dependencies]` table.
pub fn read_workspace_table(text: &str) -> (r: Result<WorkspaceTable, ManifestReadError>)
    ensures
        match r {
            Ok(t) => workspace_deps_of(text@) == Some(t@),
            Err(_) => workspace_deps_of(text@) is None,
        },
{
    match read_workspace_deps(text) {
        Some(entries) => Ok(WorkspaceTable { entries }),
        None => Err(ManifestReadError),
    }
}

/// Which dependency map one manifest section yields: declarations not marked
/// as workspace-inherited are external and dropped; a marked name must
/// resolve to a declared path in the root table; and a path under the
/// reserved `sdk` tree registers the canonical alias instead of the declared
/// name, later writes overwriting earlier ones.
pub open spec fn spec_process(
    decls: Seq<(Seq<char>, bool)>,
    ws: Seq<(Seq<char>, Option<Seq<char>>)>,
) -> Seq<(Seq<char>, Seq<char>)>
    decreases decls.len(),
{
    if decls.len() == 0 {
        Seq::empty()
    } else {
        let prev = spec_process(decls.drop_last(), ws);
        let d = decls.last();
        if !d.1 {
            prev
        } else {
            match assoc_lookup(ws, d.0) {
                Some(Some(path)) => {
                    if spec_first_segment(path) == "sdk"@ {
                        assoc_update(prev, "solana-sdk"@, "sdk"@)
                    } else {
                        assoc_update(prev, d.0, path)
                    }
                },
                _ => prev,
            }
        }
    }
}

/// Turns the declarations of one manifest section into the dependency map of
/// a graph record.
pub fn process_packages(decls: &Vec<(String, bool)>, ws: &WorkspaceTable) -> (r: DepMap)
    ensures
        r@ == spec_process(decls.deep_view(), ws@),
{
    let mut deps = DepMap::new();
    let n = decls.len();
    let mut i: usize = 0;
    proof {
        assert(decls.deep_view().take(0) =~= Seq::<(Seq<char>, bool)>::empty());
    }
    while i < n
        invariant
            i <= n,
            n == decls.len(),
            deps@ == spec_process(decls.deep_view().take(i as int), ws@),
        decreases n - i,
    {
        let ghost dv = decls.deep_view();
        proof {
            assert(dv.take(i as int + 1).drop_last() =~= dv.take(i as int));
            assert(dv.take(i as int + 1).last() == dv[i as int]);
            assert(dv[i as int] == (decls@[i as int].0@, decls@[i as int].1));
        }
        if decls[i].1 {
            match ws.get(decls[i].0.as_str()) {
                Some(popt) => {
                    match popt {
                        Some(path) => {
                            let seg = first_segment(path.as_str());
                            if str_eq(seg, "sdk") {
                                deps.insert("solana-sdk", "sdk".to_owned());
                            } else {
                                deps.insert(decls[i].0.as_str(), path.clone());
                            }
                        },
                        None => {},
                    }
                },
                None => {},
            }
        }
        i += 1;
    }
    proof {
        assert(decls.deep_view().take(n as int) =~= decls.deep_view());
    }
    deps
}

/// The declarations recorded for a package whose manifest is missing or does
/// not parse: none, so the package degrades to empty dependency maps.
pub open spec fn decls_of(text: Option<Seq<char>>, dev: bool) -> Seq<(Seq<char>, bool)> {
    match text {
        None => Seq::empty(),
        Some(t) => match section_decls_of(t, dev) {
            Some(d) => d,
            None => Seq::empty(),
        },
    }
}

/// The record one package gets: its declared path, and the processed entries
/// of its manifest's two dependency sections.
pub open spec fn spec_package_record(
    path: Seq<char>,
    text: Option<Seq<char>>,
    ws: Seq<(Seq<char>, Option<Seq<char>>)>,
) -> PackageInfoView {
    PackageInfoView {
        path: path,
        dependencies: spec_process(decls_of(text, false), ws),
        dev_dependencies: spec_process(decls_of(text, true), ws),
    }
}

/// Builds the record for one package from its declared path and the text of
/// its own manifest, `None` standing for a manifest that could not be read.
pub fn package_record(path: &str, manifest_text: Option<&str>, ws: &WorkspaceTable) -> (r:
    PackageInfo)
    ensures
        r@ == spec_package_record(path@, manifest_text.deep_view(), ws@),
{
    match manifest_text {
        Some(t) => {
            let d: Vec<(String, bool)> = match read_section_decls(t, false) {
                Some(v) => v,
                None => Vec::new(),
            };
            let v: Vec<(String, bool)> = match read_section_decls(t, true) {
                Some(v) => v,
                None => Vec::new(),
            };
            proof {
                if section_decls_of(t@, false) is None {
                    assert(d.deep_view() =~= Seq::<(Seq<char>, bool)>::empty());
                }
                if section_decls_of(t@, true) is None {
                    assert(v.deep_view() =~= Seq::<(Seq<char>, bool)>::empty());
                }
            }
            let deps = process_packages(&d, ws);
            let dev_deps = process_packages(&v, ws);
            PackageInfo { path: path.to_owned(), dependencies: deps, dev_dependencies: dev_deps }
        },
        None => {
            let deps = DepMap::new();
            let dev_deps = DepMap::new();
            PackageInfo { path: path.to_owned(), dependencies: deps, dev_dependencies: dev_deps }
        },
    }
}

/// The graph that the first `i` workspace-table entries yield: one record per
/// path-bearing entry, keyed by package name, later entries overwriting
/// earlier ones of the same name.
pub open spec fn spec_build_graph_upto(
    ws: Seq<(Seq<char>, Option<Seq<char>>)>,
    texts: Seq<Option<Seq<char>>>,
    i: int,
) -> Seq<(Seq<char>, PackageInfoView)>
    decreases i,
{
    if i <= 0 {
        Seq::empty()
    } else {
        let prev = spec_build_graph_upto(ws, texts, i - 1);
        match ws[i - 1].1 {
            None => prev,
            Some(p) => assoc_update(
                prev,
                ws[i - 1].0,
                spec_package_record(p, texts[i - 1], ws),
            ),
        }
    }
}

/// The whole graph read from a root table and the pre-read manifest text of
/// each entry.
pub open spec fn spec_build_graph(
    ws: Seq<(Seq<char>, Option<Seq<char>>)>,
    texts: Seq<Option<Seq<char>>>,
) -> Seq<(Seq<char>, PackageInfoView)> {
    spec_build_graph_upto(ws, texts, ws.len() as int)
}

/// Assembles the dependency graph: one record per workspace-table entry that
/// declares a path, built from that entry's manifest text (`None` for one
/// that could not be read, which degrades to empty maps).
pub fn build_graph(ws: &WorkspaceTable, texts: &Vec<Option<String>>) -> (r: DependencyGraph)
    requires
        texts@.len() == ws@.len(),
    ensures
        r@ == spec_build_graph(ws@, texts.deep_view()),
{
    let mut g = DependencyGraph::new();
    let n = ws.entries.len();
    let mut i: usize = 0;
    while i < n
        invariant
            i <= n,
            n == ws@.len(),
            texts@.len() == ws@.len(),
            g@ == spec_build_graph_upto(ws@, texts.deep_view(), i as int),
        decreases n - i,
    {
        proof {
            assert(ws@[i as int] == (ws.entries@[i as int].0@, ws.entries@[i as int].1.deep_view()));
            assert(texts.deep_view()[i as int] == texts@[i as int].deep_view());
        }
        let name = &ws.entries[i].0;
        match &ws.entries[i].1 {
            Some(path) => {
                let text: Option<&str> = match &texts[i] {
                    Some(t) => Some(t.as_str()),
                    None => None,
                };
                let info = package_record(path.as_str(), text, ws);
                g.insert(name.as_str(), info);
            },
            None => {},
        }
        i += 1;
    }
    g
}


/// What one entry of a processed dependency map may be: the canonical alias
/// bound to the reserved tree, or a declared name bound to its declared path
/// outside that tree.
pub open spec fn processed_entry_ok(
    e: (Seq<char>, Seq<char>),
    ws: Seq<(Seq<char>, Option<Seq<char>>)>,
) -> bool {
    (e.0 == "solana-sdk"@ && e.1 == "sdk"@) || (spec_first_segment(e.1) != "sdk"@ && assoc_lookup(
        ws,
        e.0,
    ) == Some(Some(e.1)))
}

/// Reserved-segment collapsing: a dependency whose declared path sits under
/// the reserved tree is recorded only under the canonical alias, keys stay
/// distinct, so two declared names collapsing to the alias cannot both
/// survive; every other entry is a declared name bound to its declared path.
pub proof fn lemma_process_shape(
    decls: Seq<(Seq<char>, bool)>,
    ws: Seq<(Seq<char>, Option<Seq<char>>)>,
)
    ensures
        distinct_keys(spec_process(decls, ws)),
        forall|i: int|
            0 <= i < spec_process(decls, ws).len() ==> processed_entry_ok(
                #[trigger] spec_process(decls, ws)[i],
                ws,
            ),
        forall|i: int|
            0 <= i < spec_process(decls, ws).len() && spec_first_segment(
                #[trigger] spec_process(decls, ws)[i].1,
            ) == "sdk"@ ==> spec_process(decls, ws)[i] == ("solana-sdk"@, "sdk"@),
    decreases decls.len(),
{
    if decls.len() == 0 {
    } else {
        lemma_process_shape(decls.drop_last(), ws);
        let prev = spec_process(decls.drop_last(), ws);
        let cur = spec_process(decls, ws);
        let d = decls.last();
        if d.1 && assoc_lookup(ws, d.0) is Some && assoc_lookup(ws, d.0).unwrap() is Some {
            let path = assoc_lookup(ws, d.0).unwrap().unwrap();
            let kv: (Seq<char>, Seq<char>) = if spec_first_segment(path) == "sdk"@ {
                ("solana-sdk"@, "sdk"@)
            } else {
                (d.0, path)
            };
            assert(cur == assoc_update(prev, kv.0, kv.1));
            lemma_assoc_update_properties(prev, kv.0, kv.1);
            lemma_assoc_without_properties(prev, kv.0);
            let w = assoc_without(prev, kv.0);
            assert forall|i: int| 0 <= i < cur.len() implies processed_entry_ok(
                #[trigger] cur[i],
                ws,
            ) by {
                if i < w.len() {
                    assert(cur[i] == w[i]);
                    assert(prev.contains(w[i]));
                    let idx = choose|n: int| 0 <= n < prev.len() && prev[n] == w[i];
                    assert(processed_entry_ok(prev[idx], ws));
                } else {
                    assert(cur[i] == kv);
                    if spec_first_segment(path) == "sdk"@ {
                        assert(processed_entry_ok(kv, ws));
                    } else {
                        assert(assoc_lookup(ws, d.0) == Some(Some(path)));
                        assert(processed_entry_ok(kv, ws));
                    }
                }
            }
            assert forall|i: int|
                0 <= i < cur.len() && spec_first_segment(#[trigger] cur[i].1) == "sdk"@ implies cur[i]
                == ("solana-sdk"@, "sdk"@) by {
                assert(processed_entry_ok(cur[i], ws));
                if !(cur[i].0 == "solana-sdk"@ && cur[i].1 == "sdk"@) {
                    assert(spec_first_segment(cur[i].1) != "sdk"@);
                }
            }
        } else {
            assert(cur == prev);
        }
    }
}


/// The assembled graph registers each package name once: later entries of
/// the table overwrite earlier ones instead of standing beside them.
pub proof fn lemma_build_graph_distinct(
    ws: Seq<(Seq<char>, Option<Seq<char>>)>,
    texts: Seq<Option<Seq<char>>>,
    i: int,
)
    ensures
        distinct_keys(spec_build_graph_upto(ws, texts, i)),
    decreases i,
{
    if i > 0 {
        lemma_build_graph_distinct(ws, texts, i - 1);
        let prev = spec_build_graph_upto(ws, texts, i - 1);
        match ws[i - 1].1 {
            None => {},
            Some(p) => {
                lemma_assoc_update_properties(
                    prev,
                    ws[i - 1].0,
                    spec_package_record(p, texts[i - 1], ws),
                );
            },
        }
    }
}

} // verus!
