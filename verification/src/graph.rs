//! The package graph: one record per workspace package, held in map-like
//! containers backed by vectors of key/value pairs with distinct keys.

use crate::strutil::str_eq;
use vstd::prelude::*;

verus! {

/// No two pairs of `s` share a key.
pub open spec fn distinct_keys<V>(s: Seq<(Seq<char>, V)>) -> bool {
    forall|i: int, j: int| 0 <= i < j < s.len() ==> s[i].0 != s[j].0
}

/// The value bound to `k` by the first pair of `s` whose key is `k`.
pub open spec fn assoc_lookup<V>(s: Seq<(Seq<char>, V)>, k: Seq<char>) -> Option<V>
    decreases s.len(),
{
    if s.len() == 0 {
        None
    } else if s[0].0 == k {
        Some(s[0].1)
    } else {
        assoc_lookup(s.skip(1), k)
    }
}

pub open spec fn assoc_has_key<V>(s: Seq<(Seq<char>, V)>, k: Seq<char>) -> bool {
    assoc_lookup(s, k) is Some
}

/// `s` with every pair whose key is `k` removed.
pub open spec fn assoc_without<V>(s: Seq<(Seq<char>, V)>, k: Seq<char>) -> Seq<(Seq<char>, V)>
    decreases s.len(),
{
    if s.len() == 0 {
        s
    } else if s[0].0 == k {
        assoc_without(s.skip(1), k)
    } else {
        seq![s[0]] + assoc_without(s.skip(1), k)
    }
}

/// Map-style insertion: any existing binding of `k` is dropped and the new
/// binding appended.
pub open spec fn assoc_update<V>(s: Seq<(Seq<char>, V)>, k: Seq<char>, v: V) -> Seq<
    (Seq<char>, V),
> {
    assoc_without(s, k).push((k, v))
}

/// Skipping pairs whose key is not `k` does not change what `k` is bound to.
pub proof fn lemma_assoc_lookup_skip<V>(s: Seq<(Seq<char>, V)>, k: Seq<char>, i: int)
    requires
        0 <= i <= s.len(),
        forall|j: int| 0 <= j < i ==> s[j].0 != k,
    ensures
        assoc_lookup(s, k) == assoc_lookup(s.skip(i), k),
    decreases i,
{
    if i > 0 {
        lemma_assoc_lookup_skip(s.skip(1), k, i - 1);
        assert(s.skip(1).skip(i - 1) =~= s.skip(i));
    } else {
        assert(s.skip(0) =~= s);
    }
}

/// What `assoc_without` keeps: every pair with another key, in order, and
/// nothing bound to `k`.
pub proof fn lemma_assoc_without_properties<V>(s: Seq<(Seq<char>, V)>, k: Seq<char>)
    ensures
        assoc_lookup(assoc_without(s, k), k) is None,
        forall|k2: Seq<char>|
            k2 != k ==> #[trigger] assoc_lookup(assoc_without(s, k), k2) == assoc_lookup(s, k2),
        forall|i: int|
            0 <= i < assoc_without(s, k).len() ==> #[trigger] assoc_without(s, k)[i].0 != k
                && s.contains(assoc_without(s, k)[i]),
        distinct_keys(s) ==> distinct_keys(assoc_without(s, k)),
    decreases s.len(),
{
    if s.len() == 0 {
    } else {
        let rest = s.skip(1);
        lemma_assoc_without_properties(rest, k);
        assert(forall|i: int| 0 <= i < rest.len() ==> rest[i] == s[i + 1]);
        if s[0].0 == k {
        } else {
            let w = assoc_without(s, k);
            let wrest = assoc_without(rest, k);
            assert(w == seq![s[0]] + wrest);
            assert(forall|i: int| 0 <= i < wrest.len() ==> w[i + 1] == wrest[i]);
            assert(w[0] == s[0]);
            assert(w.skip(1) =~= wrest);
            assert forall|i: int| 0 <= i < w.len() implies #[trigger] w[i].0 != k && s.contains(
                w[i],
            ) by {
                if i > 0 {
                    assert(w[i] == wrest[i - 1]);
                    assert(assoc_without(rest, k)[i - 1].0 != k);
                    assert(rest.contains(wrest[i - 1]));
                    let idx = choose|n: int| 0 <= n < rest.len() && rest[n] == wrest[i - 1];
                    assert(s[idx + 1] == wrest[i - 1]);
                } else {
                    assert(s[0] == w[0]);
                }
            }
            if distinct_keys(s) {
                assert forall|i: int, j: int| 0 <= i < j < w.len() implies w[i].0 != w[j].0 by {
                    if i == 0 {
                        let p = w[j];
                        assert(wrest[j - 1] == p);
                        assert(rest.contains(p));
                        let idx = choose|n: int| 0 <= n < rest.len() && rest[n] == p;
                        assert(s[idx + 1] == p);
                    } else {
                        assert(wrest[i - 1].0 != wrest[j - 1].0);
                    }
                }
            }
        }
    }
}

/// After a map-style insertion `k` is bound to `v`, other keys keep their
/// bindings, and keys stay distinct.
pub proof fn lemma_assoc_update_properties<V>(s: Seq<(Seq<char>, V)>, k: Seq<char>, v: V)
    ensures
        assoc_lookup(assoc_update(s, k, v), k) == Some(v),
        forall|k2: Seq<char>|
            k2 != k ==> #[trigger] assoc_lookup(assoc_update(s, k, v), k2) == assoc_lookup(s, k2),
        distinct_keys(s) ==> distinct_keys(assoc_update(s, k, v)),
{
    lemma_assoc_without_properties(s, k);
    let w = assoc_without(s, k);
    let u = assoc_update(s, k, v);
    assert(u == w.push((k, v)));
    lemma_assoc_lookup_push(w, k, v, k);
    assert forall|k2: Seq<char>| k2 != k implies #[trigger] assoc_lookup(u, k2) == assoc_lookup(
        s,
        k2,
    ) by {
        lemma_assoc_lookup_push(w, k, v, k2);
    }
    if distinct_keys(s) {
        assert forall|i: int, j: int| 0 <= i < j < u.len() implies u[i].0 != u[j].0 by {
            if j < w.len() {
            } else {
                assert(u[j] == (k, v));
                assert(w[i].0 != k);
            }
        }
    }
}

/// Looking a key up in `s.push(p)` falls back to `p` only when `s` lacks the
/// key.
pub proof fn lemma_assoc_lookup_push<V>(s: Seq<(Seq<char>, V)>, k: Seq<char>, v: V, k2: Seq<char>)
    ensures
        assoc_lookup(s.push((k, v)), k2) == (if assoc_lookup(s, k2) is Some {
            assoc_lookup(s, k2)
        } else if k2 == k {
            Some(v)
        } else {
            None
        }),
    decreases s.len(),
{
    if s.len() == 0 {
        assert(s.push((k, v)).skip(1) =~= s);
    } else {
        let t = s.push((k, v));
        assert(t[0] == s[0]);
        assert(t.skip(1) =~= s.skip(1).push((k, v)));
        lemma_assoc_lookup_push(s.skip(1), k, v, k2);
    }
}

/// A name-to-path map: which other workspace packages a package depends on,
/// and where each of them lives.
#[derive(Debug)]
pub struct DepMap {
    entries: Vec<(String, String)>,
}

impl View for DepMap {
    type V = Seq<(Seq<char>, Seq<char>)>;

    closed spec fn view(&self) -> Seq<(Seq<char>, Seq<char>)> {
        self.entries.deep_view()
    }
}

impl DeepView for DepMap {
    type V = Seq<(Seq<char>, Seq<char>)>;

    open spec fn deep_view(&self) -> Seq<(Seq<char>, Seq<char>)> {
        self.view()
    }
}

impl DepMap {
    pub fn new() -> (r: DepMap)
        ensures
            r@ == Seq::<(Seq<char>, Seq<char>)>::empty(),
    {
        let r = DepMap { entries: Vec::new() };
        proof {
            assert(r@ =~= Seq::<(Seq<char>, Seq<char>)>::empty());
        }
        r
    }

    pub fn len(&self) -> (r: usize)
        ensures
            r == self@.len(),
    {
        self.entries.len()
    }

    /// The pair at position `i`.
    pub fn entry(&self, i: usize) -> (r: &(String, String))
        requires
            i < self@.len(),
        ensures
            r.0@ == self@[i as int].0,
            r.1@ == self@[i as int].1,
    {
        &self.entries[i]
    }

    /// The path bound to the package name `k`, if any.
    pub fn get(&self, k: &str) -> (r: Option<&String>)
        ensures
            match r {
                Some(v) => assoc_lookup(self@, k@) == Some(v@),
                None => assoc_lookup(self@, k@) is None,
            },
    {
        let n = self.entries.len();
        let mut i: usize = 0;
        while i < n
            invariant
                i <= n,
                n == self.entries.len(),
                forall|j: int| 0 <= j < i ==> self@[j].0 != k@,
            decreases n - i,
        {
            if str_eq(self.entries[i].0.as_str(), k) {
                proof {
                    lemma_assoc_lookup_skip(self@, k@, i as int);
                }
                return Some(&self.entries[i].1);
            }
            i += 1;
        }
        proof {
            lemma_assoc_lookup_skip(self@, k@, n as int);
            assert(self@.skip(n as int) =~= Seq::<(Seq<char>, Seq<char>)>::empty());
        }
        None
    }

    /// Bind `k` to `v`, dropping any earlier binding of `k`.
    pub fn insert(&mut self, k: &str, v: String)
        ensures
            final (self)@ == assoc_update(old(self)@, k@, v@),
    {
        let ghost orig = self@;
        let mut out: Vec<(String, String)> = Vec::new();
        let n = self.entries.len();
        let mut i: usize = 0;
        proof {
            assert(orig.skip(0) =~= orig);
            assert(out.deep_view() + assoc_without(orig, k@) =~= assoc_without(orig, k@));
        }
        while i < n
            invariant
                i <= n,
                n == self.entries.len(),
                self@ == orig,
                out.deep_view() + assoc_without(orig.skip(i as int), k@) == assoc_without(
                    orig,
                    k@,
                ),
            decreases n - i,
        {
            let ghost pre = out.deep_view();
            let ghost tail = orig.skip(i as int);
            proof {
                assert(tail[0] == orig[i as int]);
                assert(tail.skip(1) =~= orig.skip(i as int + 1));
            }
            if str_eq(self.entries[i].0.as_str(), k) {
                proof {
                    assert(assoc_without(tail, k@) == assoc_without(orig.skip(i as int + 1), k@));
                }
            } else {
                let pair = (self.entries[i].0.clone(), self.entries[i].1.clone());
                out.push(pair);
                proof {
                    assert(out.deep_view() =~= pre.push(orig[i as int]));
                    assert(assoc_without(tail, k@) == seq![tail[0]] + assoc_without(
                        orig.skip(i as int + 1),
                        k@,
                    ));
                    assert(pre.push(orig[i as int]) + assoc_without(orig.skip(i as int + 1), k@)
                        =~= pre + assoc_without(tail, k@));
                }
            }
            i += 1;
        }
        proof {
            assert(orig.skip(n as int) =~= Seq::<(Seq<char>, Seq<char>)>::empty());
            assert(out.deep_view() + assoc_without(orig.skip(n as int), k@) =~= out.deep_view());
        }
        let ghost stripped = out.deep_view();
        out.push((k.to_owned(), v));
        self.entries = out;
        proof {
            assert(self@ =~= stripped.push((k@, v@)));
        }
    }
}

/// One workspace package: where it lives and which workspace-local packages
/// its manifest depends on.
#[derive(Debug)]
pub struct PackageInfo {
    pub path: String,
    pub dependencies: DepMap,
    pub dev_dependencies: DepMap,
}

/// The mathematical shape of a `PackageInfo`.
#[verifier::ext_equal]
pub struct PackageInfoView {
    pub path: Seq<char>,
    pub dependencies: Seq<(Seq<char>, Seq<char>)>,
    pub dev_dependencies: Seq<(Seq<char>, Seq<char>)>,
}

impl View for PackageInfo {
    type V = PackageInfoView;

    open spec fn view(&self) -> PackageInfoView {
        PackageInfoView {
            path: self.path@,
            dependencies: self.dependencies@,
            dev_dependencies: self.dev_dependencies@,
        }
    }
}

impl DeepView for PackageInfo {
    type V = PackageInfoView;

    open spec fn deep_view(&self) -> PackageInfoView {
        self.view()
    }
}

/// The whole workspace: package name to package record, built once and then
/// only read.
#[derive(Debug)]
pub struct DependencyGraph {
    entries: Vec<(String, PackageInfo)>,
}

impl View for DependencyGraph {
    type V = Seq<(Seq<char>, PackageInfoView)>;

    closed spec fn view(&self) -> Seq<(Seq<char>, PackageInfoView)> {
        self.entries.deep_view()
    }
}

impl DependencyGraph {
    pub fn new() -> (r: DependencyGraph)
        ensures
            r@ == Seq::<(Seq<char>, PackageInfoView)>::empty(),
    {
        let r = DependencyGraph { entries: Vec::new() };
        proof {
            assert(r@ =~= Seq::<(Seq<char>, PackageInfoView)>::empty());
        }
        r
    }

    pub fn len(&self) -> (r: usize)
        ensures
            r == self@.len(),
    {
        self.entries.len()
    }

    /// The pair at position `i`.
    pub fn entry(&self, i: usize) -> (r: &(String, PackageInfo))
        requires
            i < self@.len(),
        ensures
            r.0@ == self@[i as int].0,
            r.1@ == self@[i as int].1,
    {
        &self.entries[i]
    }

    /// The record registered under the package name `k`, if any.
    pub fn get(&self, k: &str) -> (r: Option<&PackageInfo>)
        ensures
            match r {
                Some(v) => assoc_lookup(self@, k@) == Some(v@),
                None => assoc_lookup(self@, k@) is None,
            },
    {
        let n = self.entries.len();
        let mut i: usize = 0;
        while i < n
            invariant
                i <= n,
                n == self.entries.len(),
                forall|j: int| 0 <= j < i ==> self@[j].0 != k@,
            decreases n - i,
        {
            if str_eq(self.entries[i].0.as_str(), k) {
                proof {
                    lemma_assoc_lookup_skip(self@, k@, i as int);
                }
                return Some(&self.entries[i].1);
            }
            i += 1;
        }
        proof {
            lemma_assoc_lookup_skip(self@, k@, n as int);
            assert(self@.skip(n as int) =~= Seq::<(Seq<char>, PackageInfoView)>::empty());
        }
        None
    }

    /// Register `info` under the package name `k`, dropping any earlier record
    /// with that name.
    pub fn insert(&mut self, k: &str, info: PackageInfo)
        ensures
            final (self)@ == assoc_update(old(self)@, k@, info@),
    {
        let ghost orig = self@;
        let ghost iv = info@;
        let n = self.entries.len();
        let mut keep: Vec<(String, PackageInfo)> = Vec::new();
        let mut rest: Vec<(String, PackageInfo)> = Vec::new();
        core::mem::swap(&mut self.entries, &mut rest);
        proof {
            assert(rest.deep_view() == orig);
            assert(keep.deep_view() + assoc_without(rest.deep_view(), k@) =~= assoc_without(
                orig,
                k@,
            ));
        }
        while rest.len() > 0
            invariant
                keep.deep_view() + assoc_without(rest.deep_view(), k@) == assoc_without(orig, k@),
            decreases rest.len(),
        {
            let ghost pre = keep.deep_view();
            let ghost tail = rest.deep_view();
            let pair = rest.remove(0);
            proof {
                assert(rest.deep_view() =~= tail.skip(1));
                assert(pair.0@ == tail[0].0);
            }
            if str_eq(pair.0.as_str(), k) {
                proof {
                    assert(assoc_without(tail, k@) == assoc_without(tail.skip(1), k@));
                }
            } else {
                keep.push(pair);
                proof {
                    assert(keep.deep_view() =~= pre.push(tail[0]));
                    assert(assoc_without(tail, k@) == seq![tail[0]] + assoc_without(
                        tail.skip(1),
                        k@,
                    ));
                    assert(pre.push(tail[0]) + assoc_without(tail.skip(1), k@) =~= pre
                        + assoc_without(tail, k@));
                }
            }
        }
        proof {
            assert(rest.deep_view() =~= Seq::<(Seq<char>, PackageInfoView)>::empty());
            assert(keep.deep_view() + assoc_without(rest.deep_view(), k@) =~= keep.deep_view());
        }
        let ghost stripped = keep.deep_view();
        keep.push((k.to_owned(), info));
        self.entries = keep;
        proof {
            assert(self@ =~= stripped.push((k@, iv)));
        }
    }
}

} // verus!
