//! The dependency-closure resolver: a depth-first walk over the package graph
//! that collects every path needed to build one package.
//!
//! The walk is specified as a recursive function over an explicit task stack,
//! so that the exec resolver's loop mirrors it step by step. Termination rests
//! on the fact that a package is only expanded after its path was freshly
//! added to the closure set, which is bounded by the finite set of paths that
//! occur in the graph and on the stack.

use crate::graph::{assoc_lookup, DependencyGraph, PackageInfoView};
use crate::strutil::is_prefix_of;
use vstd::prelude::*;
use vstd::set_lib::lemma_len_subset;

verus! {

broadcast use vstd::set_lib::group_set_lib_default, vstd::set::group_set_axioms;

/// One pending step of the walk: visit a dependency edge, or expand a package
/// by name.
pub enum Task {
    Visit { name: String, path: String, dev: bool },
    Expand { name: String },
}

/// The mathematical shape of a `Task`.
#[verifier::ext_equal]
pub enum TaskView {
    Visit { name: Seq<char>, path: Seq<char>, dev: bool },
    Expand { name: Seq<char> },
}

impl View for Task {
    type V = TaskView;

    open spec fn view(&self) -> TaskView {
        match self {
            Task::Visit { name, path, dev } => TaskView::Visit {
                name: name@,
                path: path@,
                dev: *dev,
            },
            Task::Expand { name } => TaskView::Expand { name: name@ },
        }
    }
}

impl DeepView for Task {
    type V = TaskView;

    open spec fn deep_view(&self) -> TaskView {
        self.view()
    }
}

/// A name that looks like a relative path marker rather than a package name.
pub open spec fn dot_marked(s: Seq<char>) -> bool {
    s.contains('.')
}

/// A package name with the organizational `solana-` prefix stripped.
pub open spec fn short_name_of(s: Seq<char>) -> Seq<char> {
    if is_prefix_of("solana-"@, s) {
        s.skip("solana-"@.len() as int)
    } else {
        s
    }
}

/// All path values of a dependency map.
pub open spec fn pair_paths(s: Seq<(Seq<char>, Seq<char>)>) -> Set<Seq<char>>
    decreases s.len(),
{
    if s.len() == 0 {
        Set::empty()
    } else {
        pair_paths(s.skip(1)).insert(s[0].1)
    }
}

/// All path values of one package record.
pub open spec fn record_paths(r: PackageInfoView) -> Set<Seq<char>> {
    pair_paths(r.dependencies).union(pair_paths(r.dev_dependencies))
}

/// All dependency path values that occur anywhere in the graph.
pub open spec fn graph_paths(g: Seq<(Seq<char>, PackageInfoView)>) -> Set<Seq<char>>
    decreases g.len(),
{
    if g.len() == 0 {
        Set::empty()
    } else {
        record_paths(g[0].1).union(graph_paths(g.skip(1)))
    }
}

/// All path values of pending visit tasks.
pub open spec fn stack_paths(st: Seq<TaskView>) -> Set<Seq<char>>
    decreases st.len(),
{
    if st.len() == 0 {
        Set::empty()
    } else {
        match st[0] {
            TaskView::Visit { path, .. } => stack_paths(st.skip(1)).insert(path),
            TaskView::Expand { .. } => stack_paths(st.skip(1)),
        }
    }
}

/// How much work one task can spawn: expanding a package pushes one visit per
/// dependency entry.
pub open spec fn task_weight(g: Seq<(Seq<char>, PackageInfoView)>, t: TaskView) -> nat {
    match t {
        TaskView::Visit { .. } => 1,
        TaskView::Expand { name } => {
            if dot_marked(name) {
                1
            } else {
                match assoc_lookup(g, name) {
                    Some(r) => 1 + r.dependencies.len() + r.dev_dependencies.len(),
                    None => 1,
                }
            }
        },
    }
}

pub open spec fn stack_weight(g: Seq<(Seq<char>, PackageInfoView)>, st: Seq<TaskView>) -> nat
    decreases st.len(),
{
    if st.len() == 0 {
        0
    } else {
        task_weight(g, st[0]) + stack_weight(g, st.skip(1))
    }
}

/// Every path value that the walk could still insert.
pub open spec fn universe(g: Seq<(Seq<char>, PackageInfoView)>, st: Seq<TaskView>) -> Set<
    Seq<char>,
> {
    graph_paths(g).union(stack_paths(st))
}

/// How many such paths the closure set does not hold yet.
pub open spec fn missing(
    g: Seq<(Seq<char>, PackageInfoView)>,
    st: Seq<TaskView>,
    acc: Set<Seq<char>>,
) -> nat {
    universe(g, st).difference(acc).len()
}

proof fn lemma_pair_paths_finite(s: Seq<(Seq<char>, Seq<char>)>)
    ensures
        pair_paths(s).finite(),
        forall|i: int| 0 <= i < s.len() ==> pair_paths(s).contains(#[trigger] s[i].1),
    decreases s.len(),
{
    if s.len() > 0 {
        lemma_pair_paths_finite(s.skip(1));
        assert forall|i: int| 0 <= i < s.len() implies pair_paths(s).contains(
            #[trigger] s[i].1,
        ) by {
            if i > 0 {
                assert(s.skip(1)[i - 1] == s[i]);
                assert(pair_paths(s.skip(1)).contains(s.skip(1)[i - 1].1));
            }
        }
    }
}

proof fn lemma_graph_paths_finite(g: Seq<(Seq<char>, PackageInfoView)>)
    ensures
        graph_paths(g).finite(),
    decreases g.len(),
{
    if g.len() > 0 {
        lemma_pair_paths_finite(g[0].1.dependencies);
        lemma_pair_paths_finite(g[0].1.dev_dependencies);
        lemma_graph_paths_finite(g.skip(1));
    }
}

proof fn lemma_stack_paths_finite(st: Seq<TaskView>)
    ensures
        stack_paths(st).finite(),
    decreases st.len(),
{
    if st.len() > 0 {
        lemma_stack_paths_finite(st.skip(1));
    }
}

proof fn lemma_universe_finite(g: Seq<(Seq<char>, PackageInfoView)>, st: Seq<TaskView>)
    ensures
        universe(g, st).finite(),
{
    lemma_graph_paths_finite(g);
    lemma_stack_paths_finite(st);
}

/// The record found under any graph index contributes only paths the graph
/// already accounts for.
proof fn lemma_record_paths_subset(g: Seq<(Seq<char>, PackageInfoView)>, i: int)
    requires
        0 <= i < g.len(),
    ensures
        record_paths(g[i].1).subset_of(graph_paths(g)),
    decreases i,
{
    if i > 0 {
        lemma_record_paths_subset(g.skip(1), i - 1);
        assert(g.skip(1)[i - 1] == g[i]);
    }
}

/// A successful lookup names a record that sits at some index.
proof fn lemma_assoc_lookup_some_index<V>(s: Seq<(Seq<char>, V)>, k: Seq<char>)
    requires
        assoc_lookup(s, k) is Some,
    ensures
        exists|i: int|
            0 <= i < s.len() && s[i].0 == k && #[trigger] s[i].1 == assoc_lookup(s, k).unwrap(),
    decreases s.len(),
{
    if s.len() > 0 {
        if s[0].0 == k {
            assert(s[0].1 == assoc_lookup(s, k).unwrap());
        } else {
            lemma_assoc_lookup_some_index(s.skip(1), k);
            let i = choose|i: int|
                0 <= i < s.skip(1).len() && s.skip(1)[i].0 == k && #[trigger] s.skip(1)[i].1
                    == assoc_lookup(s.skip(1), k).unwrap();
            assert(s[i + 1].1 == assoc_lookup(s, k).unwrap());
        }
    }
}

proof fn lemma_stack_paths_concat(a: Seq<TaskView>, b: Seq<TaskView>)
    ensures
        stack_paths(a + b) == stack_paths(a).union(stack_paths(b)),
    decreases a.len(),
{
    if a.len() == 0 {
        assert(a + b =~= b);
        assert(stack_paths(a).union(stack_paths(b)) =~= stack_paths(b));
    } else {
        lemma_stack_paths_concat(a.skip(1), b);
        assert((a + b).skip(1) =~= a.skip(1) + b);
        assert((a + b)[0] == a[0]);
        match a[0] {
            TaskView::Visit { path, .. } => {
                assert(stack_paths(a + b) == stack_paths(a.skip(1) + b).insert(path));
                assert(stack_paths(a.skip(1)).union(stack_paths(b)).insert(path) =~= stack_paths(
                    a,
                ).union(stack_paths(b)));
            },
            TaskView::Expand { .. } => {},
        }
    }
}

proof fn lemma_stack_weight_concat(
    g: Seq<(Seq<char>, PackageInfoView)>,
    a: Seq<TaskView>,
    b: Seq<TaskView>,
)
    ensures
        stack_weight(g, a + b) == stack_weight(g, a) + stack_weight(g, b),
    decreases a.len(),
{
    if a.len() == 0 {
        assert(a + b =~= b);
    } else {
        lemma_stack_weight_concat(g, a.skip(1), b);
        assert((a + b).skip(1) =~= a.skip(1) + b);
        assert((a + b)[0] == a[0]);
    }
}

/// The visit tasks for the entries of a dependency map.
pub open spec fn visits_of(deps: Seq<(Seq<char>, Seq<char>)>, dev: bool) -> Seq<TaskView> {
    deps.map_values(
        |e: (Seq<char>, Seq<char>)| TaskView::Visit { name: e.0, path: e.1, dev: dev },
    )
}

proof fn lemma_visits_of(g: Seq<(Seq<char>, PackageInfoView)>, deps: Seq<(Seq<char>, Seq<char>)>, dev: bool)
    ensures
        stack_paths(visits_of(deps, dev)) == pair_paths(deps),
        stack_weight(g, visits_of(deps, dev)) == deps.len(),
    decreases deps.len(),
{
    let v = visits_of(deps, dev);
    if deps.len() == 0 {
        assert(v.len() == 0);
        assert(stack_paths(v) =~= pair_paths(deps));
    } else {
        lemma_visits_of(g, deps.skip(1), dev);
        assert(v.skip(1) =~= visits_of(deps.skip(1), dev));
        assert(v[0] == (TaskView::Visit { name: deps[0].0, path: deps[0].1, dev: dev }));
        assert(stack_paths(v) == stack_paths(v.skip(1)).insert(deps[0].1));
        assert(pair_paths(deps) == pair_paths(deps.skip(1)).insert(deps[0].1));
    }
}


/// Dropping the head task never grows the measure's first component and
/// strictly shrinks its second, whatever was added to the closure set.
proof fn lemma_measure_pop(
    g: Seq<(Seq<char>, PackageInfoView)>,
    st: Seq<TaskView>,
    acc: Set<Seq<char>>,
    acc2: Set<Seq<char>>,
)
    requires
        st.len() > 0,
        acc.subset_of(acc2),
    ensures
        missing(g, st.skip(1), acc2) <= missing(g, st, acc),
        stack_weight(g, st.skip(1)) < stack_weight(g, st),
{
    lemma_universe_finite(g, st);
    assert(stack_paths(st.skip(1)).subset_of(stack_paths(st)));
    assert(universe(g, st.skip(1)).difference(acc2).subset_of(
        universe(g, st).difference(acc),
    ));
    lemma_len_subset(
        universe(g, st.skip(1)).difference(acc2),
        universe(g, st).difference(acc),
    );
}

/// Visiting a fresh path strictly shrinks the measure's first component.
proof fn lemma_measure_fresh(
    g: Seq<(Seq<char>, PackageInfoView)>,
    st: Seq<TaskView>,
    acc: Set<Seq<char>>,
    name: Seq<char>,
    path: Seq<char>,
    dev: bool,
)
    requires
        st.len() > 0,
        st[0] == (TaskView::Visit { name, path, dev }),
        !acc.contains(path),
    ensures
        missing(g, seq![TaskView::Expand { name }] + st.skip(1), acc.insert(path)) < missing(
            g,
            st,
            acc,
        ),
{
    lemma_universe_finite(g, st);
    let st2 = seq![TaskView::Expand { name }] + st.skip(1);
    assert(st2.skip(1) =~= st.skip(1));
    assert(st2[0] == (TaskView::Expand { name }));
    assert(stack_paths(st2) == stack_paths(st.skip(1)));
    assert(stack_paths(st).contains(path));
    let d0 = universe(g, st).difference(acc);
    let d1 = universe(g, st2).difference(acc.insert(path));
    assert(d1.subset_of(d0));
    assert(d0.contains(path));
    assert(!d1.contains(path));
    d1.lemma_subset_not_in_lt(d0, path);
}

/// Expanding a package found in the graph never grows the measure's first
/// component and strictly shrinks its second: the pushed visit tasks weigh
/// exactly what the expand task weighed, minus one.
proof fn lemma_measure_expand(
    g: Seq<(Seq<char>, PackageInfoView)>,
    st: Seq<TaskView>,
    acc: Set<Seq<char>>,
    acc2: Set<Seq<char>>,
    name: Seq<char>,
    r: PackageInfoView,
)
    requires
        st.len() > 0,
        st[0] == (TaskView::Expand { name }),
        !dot_marked(name),
        assoc_lookup(g, name) == Some(r),
        acc.subset_of(acc2),
    ensures
        missing(
            g,
            visits_of(r.dependencies, false) + visits_of(r.dev_dependencies, true) + st.skip(1),
            acc2,
        ) <= missing(g, st, acc),
        stack_weight(
            g,
            visits_of(r.dependencies, false) + visits_of(r.dev_dependencies, true) + st.skip(1),
        ) < stack_weight(g, st),
{
    lemma_universe_finite(g, st);
    let va = visits_of(r.dependencies, false);
    let vb = visits_of(r.dev_dependencies, true);
    let rest = st.skip(1);
    let st2 = va + vb + rest;
    lemma_visits_of(g, r.dependencies, false);
    lemma_visits_of(g, r.dev_dependencies, true);
    lemma_stack_paths_concat(va, vb);
    lemma_stack_paths_concat(va + vb, rest);
    lemma_stack_weight_concat(g, va, vb);
    lemma_stack_weight_concat(g, va + vb, rest);
    lemma_assoc_lookup_some_index(g, name);
    let i = choose|i: int|
        0 <= i < g.len() && g[i].0 == name && #[trigger] g[i].1 == assoc_lookup(
            g,
            name,
        ).unwrap();
    lemma_record_paths_subset(g, i);
    assert(stack_paths(st2) == pair_paths(r.dependencies).union(
        pair_paths(r.dev_dependencies),
    ).union(stack_paths(rest)));
    assert(universe(g, st2).subset_of(universe(g, st)));
    assert(universe(g, st2).difference(acc2).subset_of(universe(g, st).difference(acc)));
    lemma_len_subset(universe(g, st2).difference(acc2), universe(g, st).difference(acc));
    assert(task_weight(g, st[0]) == 1 + r.dependencies.len() + r.dev_dependencies.len());
    assert(stack_weight(g, st2) == r.dependencies.len() + r.dev_dependencies.len()
        + stack_weight(g, rest));
}

/// The depth-first traversal, as one step-by-step recursion over a task
/// stack.
///
/// A visit task carries one dependency edge: a dev-dependency whose path
/// holds a relative-path marker is skipped outright; otherwise the path is
/// added to the closure set, and only when it was not there yet is the
/// dependency expanded by name. An expand task stops on a dot-marked name,
/// else records the package's short-form name and pushes visit tasks for its
/// regular and dev dependency entries, in that order.
pub open spec fn walk(
    g: Seq<(Seq<char>, PackageInfoView)>,
    st: Seq<TaskView>,
    acc: Set<Seq<char>>,
) -> Set<Seq<char>>
    decreases missing(g, st, acc), stack_weight(g, st),
    via walk_decreases
{
    if st.len() == 0 {
        acc
    } else {
        let rest = st.skip(1);
        match st[0] {
            TaskView::Visit { name, path, dev } => {
                if dev && dot_marked(path) {
                    walk(g, rest, acc)
                } else if acc.contains(path) {
                    walk(g, rest, acc)
                } else {
                    walk(g, seq![TaskView::Expand { name }] + rest, acc.insert(path))
                }
            },
            TaskView::Expand { name } => {
                if dot_marked(name) {
                    walk(g, rest, acc)
                } else {
                    let acc1 = acc.insert(short_name_of(name));
                    match assoc_lookup(g, name) {
                        None => walk(g, rest, acc1),
                        Some(r) => walk(
                            g,
                            visits_of(r.dependencies, false) + visits_of(r.dev_dependencies, true)
                                + rest,
                            acc1,
                        ),
                    }
                }
            },
        }
    }
}

#[via_fn]
proof fn walk_decreases(
    g: Seq<(Seq<char>, PackageInfoView)>,
    st: Seq<TaskView>,
    acc: Set<Seq<char>>,
) {
    if st.len() > 0 {
        match st[0] {
            TaskView::Visit { name, path, dev } => {
                lemma_measure_pop(g, st, acc, acc);
                if !(dev && dot_marked(path)) && !acc.contains(path) {
                    lemma_measure_fresh(g, st, acc, name, path, dev);
                }
            },
            TaskView::Expand { name } => {
                lemma_measure_pop(g, st, acc, acc);
                lemma_measure_pop(g, st, acc, acc.insert(short_name_of(name)));
                if !dot_marked(name) {
                    match assoc_lookup(g, name) {
                        None => {},
                        Some(r) => {
                            lemma_measure_expand(
                                g,
                                st,
                                acc,
                                acc.insert(short_name_of(name)),
                                name,
                                r,
                            );
                        },
                    }
                }
            },
        }
    }
}


/// Appending a value to a sequence inserts it into the sequence's set.
proof fn lemma_to_set_push<A>(s: Seq<A>, x: A)
    ensures
        s.push(x).to_set() == s.to_set().insert(x),
{
    assert forall|y: A| s.push(x).to_set().contains(y) implies s.to_set().insert(x).contains(
        y,
    ) by {
        let i = choose|i: int| 0 <= i < s.push(x).len() && s.push(x)[i] == y;
        if i < s.len() {
            assert(s[i] == y);
        }
    }
    assert forall|y: A| s.to_set().insert(x).contains(y) implies s.push(x).to_set().contains(
        y,
    ) by {
        if s.to_set().contains(y) {
            let i = choose|i: int| 0 <= i < s.len() && s[i] == y;
            assert(s.push(x)[i] == y);
        } else {
            assert(s.push(x)[s.len() as int] == y);
        }
    }
    assert(s.push(x).to_set() =~= s.to_set().insert(x));
}

/// Appending a value a sequence does not hold keeps its entries distinct.
proof fn lemma_no_dup_push<A>(s: Seq<A>, x: A)
    requires
        s.no_duplicates(),
        !s.contains(x),
    ensures
        s.push(x).no_duplicates(),
{
    let t = s.push(x);
    assert forall|i: int, j: int|
        0 <= i < t.len() && 0 <= j < t.len() && i != j implies t[i] != t[j] by {
        if i < s.len() && j < s.len() {
            assert(s[i] == t[i] && s[j] == t[j]);
        } else if i < s.len() {
            assert(t[i] == s[i] && t[j] == x);
        } else {
            assert(t[i] == x && t[j] == s[j]);
        }
    }
}

/// The short-form identifier a package contributes to the closure set.
pub fn short_name(s: &str) -> (r: String)
    ensures
        r@ == short_name_of(s@),
{
    let stripped = crate::strutil::strip_prefix(s, "solana-");
    stripped.to_owned()
}

/// Walks the graph depth-first from `module`, adding to `collected` every
/// short-form name and dependency path the traversal reaches.
pub fn collect_dependencies(module: &str, graph: &DependencyGraph, collected: &mut Vec<String>)
    requires
        old(collected).deep_view().no_duplicates(),
    ensures
        final (collected).deep_view().no_duplicates(),
        final (collected).deep_view().to_set() == walk(
            graph@,
            seq![TaskView::Expand { name: module@ }],
            old(collected).deep_view().to_set(),
        ),
{
    let mut st: Vec<Task> = Vec::new();
    st.push(Task::Expand { name: module.to_owned() });
    proof {
        assert(st.deep_view() =~= seq![TaskView::Expand { name: module@ }]);
    }
    let ghost target = walk(graph@, st.deep_view(), collected.deep_view().to_set());
    while st.len() > 0
        invariant
            collected.deep_view().no_duplicates(),
            walk(graph@, st.deep_view(), collected.deep_view().to_set()) == target,
        decreases
            missing(graph@, st.deep_view(), collected.deep_view().to_set()),
            stack_weight(graph@, st.deep_view()),
    {
        let ghost st0 = st.deep_view();
        let ghost a0 = collected.deep_view().to_set();
        let task = st.remove(0);
        proof {
            assert(st.deep_view() =~= st0.skip(1));
            assert(task.deep_view() == st0[0]);
        }
        match task {
            Task::Visit { name, path, dev } => {
                let ghost namev = name@;
                let ghost pathv = path@;
                if dev && crate::strutil::contains_char(path.as_str(), '.') {
                    proof {
                        lemma_measure_pop(graph@, st0, a0, a0);
                        assert(walk(graph@, st0, a0) == walk(graph@, st0.skip(1), a0));
                    }
                } else if crate::strutil::contains_string(collected, path.as_str()) {
                    proof {
                        assert(a0.contains(pathv));
                        lemma_measure_pop(graph@, st0, a0, a0);
                        assert(walk(graph@, st0, a0) == walk(graph@, st0.skip(1), a0));
                    }
                } else {
                    let ghost pre = collected.deep_view();
                    collected.push(path);
                    st.insert(0, Task::Expand { name });
                    proof {
                        assert(collected.deep_view() =~= pre.push(pathv));
                        lemma_to_set_push(pre, pathv);
                        lemma_no_dup_push(pre, pathv);
                        assert(st.deep_view() =~= seq![TaskView::Expand { name: namev }]
                            + st0.skip(1));
                        assert(walk(graph@, st0, a0) == walk(
                            graph@,
                            seq![TaskView::Expand { name: namev }] + st0.skip(1),
                            a0.insert(pathv),
                        ));
                        lemma_measure_fresh(graph@, st0, a0, namev, pathv, dev);
                    }
                }
            },
            Task::Expand { name } => {
                let ghost namev = name@;
                if crate::strutil::contains_char(name.as_str(), '.') {
                    proof {
                        lemma_measure_pop(graph@, st0, a0, a0);
                        assert(walk(graph@, st0, a0) == walk(graph@, st0.skip(1), a0));
                    }
                } else {
                    let sn = short_name(name.as_str());
                    let ghost snv = sn@;
                    let ghost pre = collected.deep_view();
                    let ghost a1 = a0.insert(snv);
                    if !crate::strutil::contains_string(collected, sn.as_str()) {
                        collected.push(sn);
                        proof {
                            assert(collected.deep_view() =~= pre.push(snv));
                            lemma_to_set_push(pre, snv);
                            lemma_no_dup_push(pre, snv);
                        }
                    } else {
                        proof {
                            assert(a0.insert(snv) =~= a0);
                        }
                    }
                    proof {
                        assert(collected.deep_view().to_set() == a1);
                    }
                    match graph.get(name.as_str()) {
                        None => {
                            proof {
                                lemma_measure_pop(graph@, st0, a0, a1);
                                assert(walk(graph@, st0, a0) == walk(graph@, st0.skip(1), a1));
                            }
                        },
                        Some(info) => {
                            let ghost iv = info@;
                            let mut front: Vec<Task> = Vec::new();
                            let dn = info.dependencies.len();
                            let mut i: usize = 0;
                            proof {
                                assert(front.deep_view() =~= visits_of(
                                    iv.dependencies.take(0),
                                    false,
                                ));
                            }
                            while i < dn
                                invariant
                                    i <= dn,
                                    dn == iv.dependencies.len(),
                                    info@ == iv,
                                    front.deep_view() == visits_of(
                                        iv.dependencies.take(i as int),
                                        false,
                                    ),
                                decreases dn - i,
                            {
                                let e = info.dependencies.entry(i);
                                let ghost fpre = front.deep_view();
                                let en = e.0.clone();
                                let ep = e.1.clone();
                                let t = Task::Visit { name: en, path: ep, dev: false };
                                proof {
                                    assert(t.deep_view() == (TaskView::Visit {
                                        name: iv.dependencies[i as int].0,
                                        path: iv.dependencies[i as int].1,
                                        dev: false,
                                    }));
                                }
                                front.push(t);
                                proof {
                                    let post = front.deep_view();
                                    let tgt = visits_of(iv.dependencies.take(i as int + 1), false);
                                    assert(fpre == visits_of(iv.dependencies.take(i as int), false));
                                    assert(iv.dependencies.take(i as int).len() == i);
                                    assert(fpre.len() == i);
                                    assert(front@.len() == i + 1);
                                    assert(post.len() == i + 1);
                                    assert(tgt.len() == i + 1);
                                    assert forall|k: int| 0 <= k < i + 1 implies post[k] == tgt[k] by {
                                        if k < i {
                                            assert(post[k] == fpre[k]);
                                            assert(fpre[k] == visits_of(
                                                iv.dependencies.take(i as int),
                                                false,
                                            )[k]);
                                        } else {
                                            assert(post[k] == (TaskView::Visit {
                                                name: iv.dependencies[i as int].0,
                                                path: iv.dependencies[i as int].1,
                                                dev: false,
                                            }));
                                        }
                                    }
                                    assert(front.deep_view() =~= tgt);
                                }
                                i += 1;
                            }
                            proof {
                                assert(iv.dependencies.take(dn as int) =~= iv.dependencies);
                            }
                            let vn = info.dev_dependencies.len();
                            let mut j: usize = 0;
                            proof {
                                assert(front.deep_view() =~= visits_of(iv.dependencies, false)
                                    + visits_of(iv.dev_dependencies.take(0), true));
                            }
                            while j < vn
                                invariant
                                    j <= vn,
                                    vn == iv.dev_dependencies.len(),
                                    info@ == iv,
                                    front.deep_view() == visits_of(iv.dependencies, false)
                                        + visits_of(iv.dev_dependencies.take(j as int), true),
                                decreases vn - j,
                            {
                                let e = info.dev_dependencies.entry(j);
                                let ghost fpre = front.deep_view();
                                let en = e.0.clone();
                                let ep = e.1.clone();
                                let t = Task::Visit { name: en, path: ep, dev: true };
                                proof {
                                    assert(t.deep_view() == (TaskView::Visit {
                                        name: iv.dev_dependencies[j as int].0,
                                        path: iv.dev_dependencies[j as int].1,
                                        dev: true,
                                    }));
                                }
                                front.push(t);
                                proof {
                                    let post = front.deep_view();
                                    let va = visits_of(iv.dependencies, false);
                                    let tgt = va + visits_of(
                                        iv.dev_dependencies.take(j as int + 1),
                                        true,
                                    );
                                    assert(fpre == va + visits_of(
                                        iv.dev_dependencies.take(j as int),
                                        true,
                                    ));
                                    assert(fpre.len() == va.len() + j);
                                    assert(post.len() == tgt.len());
                                    assert forall|k: int| 0 <= k < post.len() implies post[k]
                                        == tgt[k] by {
                                        if k < fpre.len() {
                                            assert(post[k] == fpre[k]);
                                        } else {
                                            assert(post[k] == (TaskView::Visit {
                                                name: iv.dev_dependencies[j as int].0,
                                                path: iv.dev_dependencies[j as int].1,
                                                dev: true,
                                            }));
                                        }
                                    }
                                    assert(front.deep_view() =~= tgt);
                                }
                                j += 1;
                            }
                            proof {
                                assert(iv.dev_dependencies.take(vn as int) =~= iv.dev_dependencies);
                            }
                            front.append(&mut st);
                            st = front;
                            proof {
                                assert(st.deep_view() =~= visits_of(iv.dependencies, false)
                                    + visits_of(iv.dev_dependencies, true) + st0.skip(1));
                                assert(walk(graph@, st0, a0) == walk(
                                    graph@,
                                    visits_of(iv.dependencies, false) + visits_of(
                                        iv.dev_dependencies,
                                        true,
                                    ) + st0.skip(1),
                                    a1,
                                ));
                                lemma_measure_expand(graph@, st0, a0, a1, namev, iv);
                            }
                        },
                    }
                }
            },
        }
    }
    proof {
        assert(st.deep_view() =~= Seq::<TaskView>::empty());
    }
}



/// The requested root package is not registered in the graph.
#[derive(Clone, Copy, Debug, PartialEq, Eq, Structural)]
pub struct PackageNotFoundError;

/// The closure of `root`: everything the walk from `root` reaches, plus the
/// root package's own declared path.
pub open spec fn spec_closure(g: Seq<(Seq<char>, PackageInfoView)>, root: Seq<char>) -> Set<
    Seq<char>,
>
    recommends
        assoc_lookup(g, root) is Some,
{
    walk(g, seq![TaskView::Expand { name: root }], Set::empty()).insert(
        assoc_lookup(g, root).unwrap().path,
    )
}

/// Resolves the dependency closure of `root`: the set of short-form names and
/// dependency paths that must be retained for it to build, failing exactly
/// when the graph has no package named `root`.
pub fn resolve_closure(root: &str, graph: &DependencyGraph) -> (r: Result<
    Vec<String>,
    PackageNotFoundError,
>)
    ensures
        match r {
            Ok(paths) => assoc_lookup(graph@, root@) is Some
                && paths.deep_view().no_duplicates() && paths.deep_view().to_set() == spec_closure(
                graph@,
                root@,
            ),
            Err(_) => assoc_lookup(graph@, root@) is None,
        },
{
    let root_path: String = match graph.get(root) {
        Some(info) => info.path.clone(),
        None => {
            return Err(PackageNotFoundError);
        },
    };
    let mut collected: Vec<String> = Vec::new();
    proof {
        assert(collected.deep_view() =~= Seq::<Seq<char>>::empty());
        assert(collected.deep_view().to_set() =~= Set::<Seq<char>>::empty());
    }
    collect_dependencies(root, graph, &mut collected);
    let ghost walked = collected.deep_view();
    let ghost rootv = root_path@;
    if !crate::strutil::contains_string(&collected, root_path.as_str()) {
        collected.push(root_path);
        proof {
            assert(collected.deep_view() =~= walked.push(rootv));
            lemma_to_set_push(walked, rootv);
            lemma_no_dup_push(walked, rootv);
        }
    } else {
        proof {
            assert(walked.to_set().insert(root_path@) =~= walked.to_set());
        }
    }
    Ok(collected)
}


/// Everything already collected stays collected: the walk only ever adds.
pub proof fn lemma_walk_superset(
    g: Seq<(Seq<char>, PackageInfoView)>,
    st: Seq<TaskView>,
    acc: Set<Seq<char>>,
)
    ensures
        acc.subset_of(walk(g, st, acc)),
    decreases missing(g, st, acc), stack_weight(g, st),
{
    if st.len() == 0 {
    } else {
        let rest = st.skip(1);
        match st[0] {
            TaskView::Visit { name, path, dev } => {
                if dev && dot_marked(path) {
                    lemma_measure_pop(g, st, acc, acc);
                    lemma_walk_superset(g, rest, acc);
                } else if acc.contains(path) {
                    lemma_measure_pop(g, st, acc, acc);
                    lemma_walk_superset(g, rest, acc);
                } else {
                    lemma_measure_fresh(g, st, acc, name, path, dev);
                    lemma_walk_superset(g, seq![TaskView::Expand { name }] + rest, acc.insert(path));
                }
            },
            TaskView::Expand { name } => {
                if dot_marked(name) {
                    lemma_measure_pop(g, st, acc, acc);
                    lemma_walk_superset(g, rest, acc);
                } else {
                    let acc1 = acc.insert(short_name_of(name));
                    match assoc_lookup(g, name) {
                        None => {
                            lemma_measure_pop(g, st, acc, acc1);
                            lemma_walk_superset(g, rest, acc1);
                        },
                        Some(r) => {
                            lemma_measure_expand(g, st, acc, acc1, name, r);
                            lemma_walk_superset(
                                g,
                                visits_of(r.dependencies, false) + visits_of(
                                    r.dev_dependencies,
                                    true,
                                ) + rest,
                                acc1,
                            );
                        },
                    }
                }
            },
        }
    }
}

/// The closure set is a pure function of the graph and the root package:
/// resolving the same root against the same graph a second time yields the
/// same set, and repeated runs can differ only in the order of the rendered
/// entries.
pub proof fn lemma_resolution_deterministic(
    g: Seq<(Seq<char>, PackageInfoView)>,
    root: Seq<char>,
    s1: Set<Seq<char>>,
    s2: Set<Seq<char>>,
)
    requires
        s1 == spec_closure(g, root),
        s2 == spec_closure(g, root),
    ensures
        s1 == s2,
{
}

/// The root package's own declared path is always in its closure set,
/// whether or not the walk reached it.
pub proof fn lemma_self_inclusion(
    g: Seq<(Seq<char>, PackageInfoView)>,
    root: Seq<char>,
    r: PackageInfoView,
)
    requires
        assoc_lookup(g, root) == Some(r),
    ensures
        spec_closure(g, root).contains(r.path),
{
}

/// A dot-marked package name is never expanded: the task is dropped with
/// nothing inserted and nothing pushed.
pub proof fn lemma_dot_name_not_expanded(
    g: Seq<(Seq<char>, PackageInfoView)>,
    name: Seq<char>,
    rest: Seq<TaskView>,
    acc: Set<Seq<char>>,
)
    requires
        dot_marked(name),
    ensures
        walk(g, seq![TaskView::Expand { name }] + rest, acc) == walk(g, rest, acc),
{
    let st = seq![TaskView::Expand { name }] + rest;
    assert(st[0] == (TaskView::Expand { name }));
    assert(st.skip(1) =~= rest);
}

/// A dev-dependency edge whose path holds a dot marker is skipped before
/// insertion: it contributes nothing at all.
pub proof fn lemma_dot_dev_path_skipped(
    g: Seq<(Seq<char>, PackageInfoView)>,
    name: Seq<char>,
    path: Seq<char>,
    rest: Seq<TaskView>,
    acc: Set<Seq<char>>,
)
    requires
        dot_marked(path),
    ensures
        walk(g, seq![TaskView::Visit { name, path, dev: true }] + rest, acc) == walk(g, rest, acc),
{
    let st = seq![TaskView::Visit { name, path, dev: true }] + rest;
    assert(st[0] == (TaskView::Visit { name, path, dev: true }));
    assert(st.skip(1) =~= rest);
}

/// The asymmetry of the dot rule: a regular dependency edge has no such
/// pre-insertion filter, so a fresh dot-marked path is still inserted and
/// stays in the result; only the expansion of the dependency's name stops,
/// and only when the name itself is dot-marked.
pub proof fn lemma_dot_regular_path_inserted(
    g: Seq<(Seq<char>, PackageInfoView)>,
    name: Seq<char>,
    path: Seq<char>,
    rest: Seq<TaskView>,
    acc: Set<Seq<char>>,
)
    requires
        dot_marked(path),
        !acc.contains(path),
    ensures
        walk(g, seq![TaskView::Visit { name, path, dev: false }] + rest, acc) == walk(
            g,
            seq![TaskView::Expand { name }] + rest,
            acc.insert(path),
        ),
        walk(g, seq![TaskView::Visit { name, path, dev: false }] + rest, acc).contains(path),
        dot_marked(name) ==> walk(g, seq![TaskView::Visit { name, path, dev: false }] + rest, acc)
            == walk(g, rest, acc.insert(path)),
{
    let st = seq![TaskView::Visit { name, path, dev: false }] + rest;
    assert(st[0] == (TaskView::Visit { name, path, dev: false }));
    assert(st.skip(1) =~= rest);
    let st2 = seq![TaskView::Expand { name }] + rest;
    assert(walk(g, st, acc) == walk(g, st2, acc.insert(path)));
    if dot_marked(name) {
        lemma_dot_name_not_expanded(g, name, rest, acc.insert(path));
    }
    lemma_walk_superset(g, st2, acc.insert(path));
}

/// A package with no dependency entries at all resolves to exactly its own
/// short-form name and its own path.
pub proof fn lemma_leaf_closure(
    g: Seq<(Seq<char>, PackageInfoView)>,
    root: Seq<char>,
    r: PackageInfoView,
)
    requires
        assoc_lookup(g, root) == Some(r),
        r.dependencies.len() == 0,
        r.dev_dependencies.len() == 0,
        !dot_marked(root),
    ensures
        spec_closure(g, root) == set![short_name_of(root), r.path],
{
    let st0 = seq![TaskView::Expand { name: root }];
    assert(st0[0] == (TaskView::Expand { name: root }));
    assert(st0.skip(1) =~= Seq::<TaskView>::empty());
    assert(visits_of(r.dependencies, false) =~= Seq::<TaskView>::empty());
    assert(visits_of(r.dev_dependencies, true) =~= Seq::<TaskView>::empty());
    let a1 = Set::empty().insert(short_name_of(root));
    let st1 = visits_of(r.dependencies, false) + visits_of(r.dev_dependencies, true) + st0.skip(1);
    assert(st1 =~= Seq::<TaskView>::empty());
    assert(walk(g, st0, Set::empty()) == walk(g, st1, a1));
    assert(walk(g, st1, a1) == a1);
    assert(spec_closure(g, root) =~= set![short_name_of(root), r.path]);
}


/// The short-form names of the dependency names recorded in a map.
pub open spec fn pair_shorts(s: Seq<(Seq<char>, Seq<char>)>) -> Set<Seq<char>>
    decreases s.len(),
{
    if s.len() == 0 {
        Set::empty()
    } else {
        pair_shorts(s.skip(1)).insert(short_name_of(s[0].0))
    }
}

/// The short-form names one record can contribute.
pub open spec fn record_shorts(r: PackageInfoView) -> Set<Seq<char>> {
    pair_shorts(r.dependencies).union(pair_shorts(r.dev_dependencies))
}

/// The short-form names any record of the graph can contribute.
pub open spec fn graph_shorts(g: Seq<(Seq<char>, PackageInfoView)>) -> Set<Seq<char>>
    decreases g.len(),
{
    if g.len() == 0 {
        Set::empty()
    } else {
        record_shorts(g[0].1).union(graph_shorts(g.skip(1)))
    }
}

/// The short-form names the pending tasks can record directly.
pub open spec fn stack_shorts(st: Seq<TaskView>) -> Set<Seq<char>>
    decreases st.len(),
{
    if st.len() == 0 {
        Set::empty()
    } else {
        match st[0] {
            TaskView::Visit { name, .. } => stack_shorts(st.skip(1)).insert(short_name_of(name)),
            TaskView::Expand { name } => stack_shorts(st.skip(1)).insert(short_name_of(name)),
        }
    }
}

/// Everything the walk could ever insert beyond what it was given.
pub open spec fn walk_bound(g: Seq<(Seq<char>, PackageInfoView)>, st: Seq<TaskView>) -> Set<
    Seq<char>,
> {
    graph_paths(g).union(graph_shorts(g)).union(stack_paths(st)).union(stack_shorts(st))
}

proof fn lemma_stack_shorts_concat(a: Seq<TaskView>, b: Seq<TaskView>)
    ensures
        stack_shorts(a + b) == stack_shorts(a).union(stack_shorts(b)),
    decreases a.len(),
{
    if a.len() == 0 {
        assert(a + b =~= b);
        assert(stack_shorts(a).union(stack_shorts(b)) =~= stack_shorts(b));
    } else {
        lemma_stack_shorts_concat(a.skip(1), b);
        assert((a + b).skip(1) =~= a.skip(1) + b);
        assert((a + b)[0] == a[0]);
        match a[0] {
            TaskView::Visit { name, .. } => {
                assert(stack_shorts(a.skip(1)).union(stack_shorts(b)).insert(short_name_of(name))
                    =~= stack_shorts(a).union(stack_shorts(b)));
            },
            TaskView::Expand { name } => {
                assert(stack_shorts(a.skip(1)).union(stack_shorts(b)).insert(short_name_of(name))
                    =~= stack_shorts(a).union(stack_shorts(b)));
            },
        }
    }
}

proof fn lemma_visits_shorts(deps: Seq<(Seq<char>, Seq<char>)>, dev: bool)
    ensures
        stack_shorts(visits_of(deps, dev)) == pair_shorts(deps),
    decreases deps.len(),
{
    let v = visits_of(deps, dev);
    if deps.len() == 0 {
        assert(v.len() == 0);
        assert(stack_shorts(v) =~= pair_shorts(deps));
    } else {
        lemma_visits_shorts(deps.skip(1), dev);
        assert(v.skip(1) =~= visits_of(deps.skip(1), dev));
        assert(v[0] == (TaskView::Visit { name: deps[0].0, path: deps[0].1, dev: dev }));
    }
}

proof fn lemma_record_shorts_subset(g: Seq<(Seq<char>, PackageInfoView)>, i: int)
    requires
        0 <= i < g.len(),
    ensures
        record_shorts(g[i].1).subset_of(graph_shorts(g)),
    decreases i,
{
    if i > 0 {
        lemma_record_shorts_subset(g.skip(1), i - 1);
        assert(g.skip(1)[i - 1] == g[i]);
    }
}

/// The walk inserts nothing from outside its bound: every element of the
/// result was given in `acc`, or is a dependency path or short-form
/// dependency name of the graph, or a path or short-form name the initial
/// stack mentions.
pub proof fn lemma_walk_bounded(
    g: Seq<(Seq<char>, PackageInfoView)>,
    st: Seq<TaskView>,
    acc: Set<Seq<char>>,
)
    ensures
        walk(g, st, acc).subset_of(acc.union(walk_bound(g, st))),
    decreases missing(g, st, acc), stack_weight(g, st),
{
    if st.len() == 0 {
    } else {
        let rest = st.skip(1);
        match st[0] {
            TaskView::Visit { name, path, dev } => {
                if dev && dot_marked(path) {
                    lemma_measure_pop(g, st, acc, acc);
                    lemma_walk_bounded(g, rest, acc);
                } else if acc.contains(path) {
                    lemma_measure_pop(g, st, acc, acc);
                    lemma_walk_bounded(g, rest, acc);
                } else {
                    lemma_measure_fresh(g, st, acc, name, path, dev);
                    let st2 = seq![TaskView::Expand { name }] + rest;
                    lemma_walk_bounded(g, st2, acc.insert(path));
                    assert(st2.skip(1) =~= rest);
                    assert(st2[0] == (TaskView::Expand { name }));
                    assert(stack_paths(st).contains(path));
                    assert(stack_shorts(st2) == stack_shorts(rest).insert(short_name_of(name)));
                    assert(stack_shorts(st2).subset_of(stack_shorts(st)));
                    assert(acc.insert(path).union(walk_bound(g, st2)).subset_of(
                        acc.union(walk_bound(g, st)),
                    ));
                }
            },
            TaskView::Expand { name } => {
                if dot_marked(name) {
                    lemma_measure_pop(g, st, acc, acc);
                    lemma_walk_bounded(g, rest, acc);
                } else {
                    let sn = short_name_of(name);
                    let acc1 = acc.insert(sn);
                    assert(stack_shorts(st).contains(sn));
                    match assoc_lookup(g, name) {
                        None => {
                            lemma_measure_pop(g, st, acc, acc1);
                            lemma_walk_bounded(g, rest, acc1);
                            assert(acc1.union(walk_bound(g, rest)).subset_of(
                                acc.union(walk_bound(g, st)),
                            ));
                        },
                        Some(r) => {
                            lemma_measure_expand(g, st, acc, acc1, name, r);
                            let va = visits_of(r.dependencies, false);
                            let vb = visits_of(r.dev_dependencies, true);
                            let st2 = va + vb + rest;
                            lemma_walk_bounded(g, st2, acc1);
                            lemma_visits_of(g, r.dependencies, false);
                            lemma_visits_of(g, r.dev_dependencies, true);
                            lemma_visits_shorts(r.dependencies, false);
                            lemma_visits_shorts(r.dev_dependencies, true);
                            lemma_stack_paths_concat(va, vb);
                            lemma_stack_paths_concat(va + vb, rest);
                            lemma_stack_shorts_concat(va, vb);
                            lemma_stack_shorts_concat(va + vb, rest);
                            lemma_assoc_lookup_some_index(g, name);
                            let i = choose|i: int|
                                0 <= i < g.len() && g[i].0 == name && #[trigger] g[i].1
                                    == assoc_lookup(g, name).unwrap();
                            lemma_record_paths_subset(g, i);
                            lemma_record_shorts_subset(g, i);
                            assert(stack_paths(st2).subset_of(
                                graph_paths(g).union(stack_paths(st)),
                            ));
                            assert(stack_shorts(st2).subset_of(
                                graph_shorts(g).union(stack_shorts(st)),
                            ));
                            assert(acc1.union(walk_bound(g, st2)).subset_of(
                                acc.union(walk_bound(g, st)),
                            ));
                        },
                    }
                }
            },
        }
    }
}

/// No junk in a closure: it holds nothing but the root package's short-form
/// name and declared path, and dependency paths and short-form dependency
/// names that occur in the graph.
pub proof fn lemma_closure_bounded(
    g: Seq<(Seq<char>, PackageInfoView)>,
    root: Seq<char>,
    r: PackageInfoView,
)
    requires
        assoc_lookup(g, root) == Some(r),
    ensures
        spec_closure(g, root).subset_of(
            graph_paths(g).union(graph_shorts(g)).insert(short_name_of(root)).insert(r.path),
        ),
{
    let st = seq![TaskView::Expand { name: root }];
    lemma_walk_bounded(g, st, Set::empty());
    assert(st.len() == 1);
    assert(st[0] == (TaskView::Expand { name: root }));
    assert(st.skip(1) =~= Seq::<TaskView>::empty());
    assert(stack_paths(st.skip(1)) =~= Set::<Seq<char>>::empty());
    assert(stack_shorts(st.skip(1)) =~= Set::<Seq<char>>::empty());
    assert(stack_paths(st) =~= Set::<Seq<char>>::empty());
    assert(stack_shorts(st) =~= Set::<Seq<char>>::empty().insert(short_name_of(root)));
    assert(Set::empty().union(walk_bound(g, st)).subset_of(
        graph_paths(g).union(graph_shorts(g)).insert(short_name_of(root)),
    ));
}


/// Every pending visit leaves its path in the result, except a
/// dev-dependency edge with a dot-marked path, which is the one edge the
/// walk refuses.
pub proof fn lemma_visit_path_collected(
    g: Seq<(Seq<char>, PackageInfoView)>,
    st: Seq<TaskView>,
    acc: Set<Seq<char>>,
    j: int,
    name: Seq<char>,
    path: Seq<char>,
    dev: bool,
)
    requires
        0 <= j < st.len(),
        st[j] == (TaskView::Visit { name, path, dev }),
        !(dev && dot_marked(path)),
    ensures
        walk(g, st, acc).contains(path),
    decreases missing(g, st, acc), stack_weight(g, st),
{
    let rest = st.skip(1);
    match st[0] {
        TaskView::Visit { name: hn, path: hp, dev: hd } => {
            if hd && dot_marked(hp) {
                lemma_measure_pop(g, st, acc, acc);
                lemma_visit_path_collected(g, rest, acc, j - 1, name, path, dev);
            } else if acc.contains(hp) {
                lemma_measure_pop(g, st, acc, acc);
                if j == 0 {
                    lemma_walk_superset(g, rest, acc);
                } else {
                    lemma_visit_path_collected(g, rest, acc, j - 1, name, path, dev);
                }
            } else {
                let st2 = seq![TaskView::Expand { name: hn }] + rest;
                lemma_measure_fresh(g, st, acc, hn, hp, hd);
                if j == 0 {
                    lemma_walk_superset(g, st2, acc.insert(hp));
                } else {
                    assert(st2[j] == rest[j - 1]);
                    lemma_visit_path_collected(g, st2, acc.insert(hp), j, name, path, dev);
                }
            }
        },
        TaskView::Expand { name: hn } => {
            assert(j > 0);
            if dot_marked(hn) {
                lemma_measure_pop(g, st, acc, acc);
                lemma_visit_path_collected(g, rest, acc, j - 1, name, path, dev);
            } else {
                let acc1 = acc.insert(short_name_of(hn));
                match assoc_lookup(g, hn) {
                    None => {
                        lemma_measure_pop(g, st, acc, acc1);
                        lemma_visit_path_collected(g, rest, acc1, j - 1, name, path, dev);
                    },
                    Some(r) => {
                        lemma_measure_expand(g, st, acc, acc1, hn, r);
                        let va = visits_of(r.dependencies, false);
                        let vb = visits_of(r.dev_dependencies, true);
                        let st2 = va + vb + rest;
                        let idx = va.len() + vb.len() + j - 1;
                        assert(st2[idx] == rest[j - 1]);
                        lemma_visit_path_collected(g, st2, acc1, idx, name, path, dev);
                    },
                }
            }
        },
    }
}

/// Every direct dependency path of the root package is in its closure, and
/// so is every direct dev-dependency path free of dot markers.
pub proof fn lemma_direct_deps_included(
    g: Seq<(Seq<char>, PackageInfoView)>,
    root: Seq<char>,
    r: PackageInfoView,
)
    requires
        assoc_lookup(g, root) == Some(r),
        !dot_marked(root),
    ensures
        forall|j: int|
            0 <= j < r.dependencies.len() ==> spec_closure(g, root).contains(
                #[trigger] r.dependencies[j].1,
            ),
        forall|j: int|
            0 <= j < r.dev_dependencies.len() && !dot_marked(r.dev_dependencies[j].1)
                ==> spec_closure(g, root).contains(#[trigger] r.dev_dependencies[j].1),
{
    let st0 = seq![TaskView::Expand { name: root }];
    assert(st0[0] == (TaskView::Expand { name: root }));
    assert(st0.skip(1) =~= Seq::<TaskView>::empty());
    let a1 = Set::empty().insert(short_name_of(root));
    let va = visits_of(r.dependencies, false);
    let vb = visits_of(r.dev_dependencies, true);
    let st1 = va + vb + st0.skip(1);
    assert(walk(g, st0, Set::empty()) == walk(g, st1, a1));
    assert forall|j: int| 0 <= j < r.dependencies.len() implies spec_closure(g, root).contains(
        #[trigger] r.dependencies[j].1,
    ) by {
        assert(st1[j] == va[j]);
        assert(va[j] == (TaskView::Visit {
            name: r.dependencies[j].0,
            path: r.dependencies[j].1,
            dev: false,
        }));
        lemma_visit_path_collected(
            g,
            st1,
            a1,
            j,
            r.dependencies[j].0,
            r.dependencies[j].1,
            false,
        );
    }
    assert forall|j: int|
        0 <= j < r.dev_dependencies.len() && !dot_marked(
            r.dev_dependencies[j].1,
        ) implies spec_closure(g, root).contains(#[trigger] r.dev_dependencies[j].1) by {
        assert(st1[va.len() + j] == vb[j]);
        assert(vb[j] == (TaskView::Visit {
            name: r.dev_dependencies[j].0,
            path: r.dev_dependencies[j].1,
            dev: true,
        }));
        lemma_visit_path_collected(
            g,
            st1,
            a1,
            va.len() + j,
            r.dev_dependencies[j].0,
            r.dev_dependencies[j].1,
            true,
        );
    }
}

} // verus!
