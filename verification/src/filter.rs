//! The manifest filter: given the retained entries of a resolved closure,
//! decides which workspace members and which patch-table entries survive in
//! the filtered manifest, and collapses the reserved curve family into one
//! wildcard checkout entry.

use crate::strutil::{
    contains_string, contains_substring, first_segment, has_substring, is_prefix_of,
    spec_first_segment, starts_with, str_eq,
};
use vstd::prelude::*;

verus! {

/// The checkout entries kept verbatim: everything not under the reserved
/// curve directory, in order.
pub open spec fn spec_collapse_kept(entries: Seq<Seq<char>>) -> Seq<Seq<char>>
    decreases entries.len(),
{
    if entries.len() == 0 {
        Seq::empty()
    } else {
        let prev = spec_collapse_kept(entries.drop_last());
        if is_prefix_of("curves"@, entries.last()) {
            prev
        } else {
            prev.push(entries.last())
        }
    }
}

/// Whether any entry mentions the curve family at all.
pub open spec fn spec_any_curve(entries: Seq<Seq<char>>) -> bool {
    exists|i: int| 0 <= i < entries.len() && has_substring(#[trigger] entries[i], "curve"@)
}

/// The retained-entry list used for manifest filtering: entries under the
/// reserved curve directory are dropped and, when any entry mentions the
/// curve family, one wildcard entry stands for all of them.
pub open spec fn spec_collapse(entries: Seq<Seq<char>>) -> Seq<Seq<char>> {
    if spec_any_curve(entries) {
        spec_collapse_kept(entries).push("curves/*"@)
    } else {
        spec_collapse_kept(entries)
    }
}

/// Collapses the reserved curve family of a retained-entry list.
pub fn collapse_reserved(entries: &Vec<String>) -> (r: Vec<String>)
    ensures
        r.deep_view() == spec_collapse(entries.deep_view()),
{
    let ghost dv = entries.deep_view();
    let mut out: Vec<String> = Vec::new();
    let mut any_curve = false;
    let n = entries.len();
    let mut i: usize = 0;
    proof {
        assert(dv.take(0) =~= Seq::<Seq<char>>::empty());
        assert(!spec_any_curve(dv.take(0)));
        assert(out.deep_view() =~= spec_collapse_kept(dv.take(0)));
    }
    while i < n
        invariant
            i <= n,
            n == entries.len(),
            dv == entries.deep_view(),
            out.deep_view() == spec_collapse_kept(dv.take(i as int)),
            any_curve == spec_any_curve(dv.take(i as int)),
        decreases n - i,
    {
        let ghost pre = out.deep_view();
        proof {
            assert(dv.take(i as int + 1).drop_last() =~= dv.take(i as int));
            assert(dv.take(i as int + 1).last() == dv[i as int]);
            assert(dv[i as int] == entries@[i as int]@);
        }
        let e = &entries[i];
        if contains_substring(e.as_str(), "curve") {
            any_curve = true;
            proof {
                assert(dv.take(i as int + 1)[i as int] == dv[i as int]);
                assert(spec_any_curve(dv.take(i as int + 1)));
            }
        } else {
            proof {
                assert forall|j: int|
                    0 <= j < dv.take(i as int + 1).len() && has_substring(
                        #[trigger] dv.take(i as int + 1)[j],
                        "curve"@,
                    ) implies spec_any_curve(dv.take(i as int)) by {
                    assert(j != i);
                    assert(dv.take(i as int)[j] == dv.take(i as int + 1)[j]);
                }
                if spec_any_curve(dv.take(i as int)) {
                    let j = choose|j: int|
                        0 <= j < dv.take(i as int).len() && has_substring(
                            #[trigger] dv.take(i as int)[j],
                            "curve"@,
                        );
                    assert(dv.take(i as int + 1)[j] == dv.take(i as int)[j]);
                }
                assert(spec_any_curve(dv.take(i as int + 1)) == spec_any_curve(dv.take(i as int)));
            }
        }
        if !starts_with(e.as_str(), "curves") {
            out.push(e.clone());
            proof {
                assert(out.deep_view() =~= pre.push(dv[i as int]));
            }
        }
        i += 1;
    }
    proof {
        assert(dv.take(n as int) =~= dv);
    }
    if any_curve {
        let ghost pre = out.deep_view();
        out.push("curves/*".to_owned());
        proof {
            assert(out.deep_view() =~= pre.push("curves/*"@));
        }
    }
    out
}

/// The member entries that survive: those that are themselves retained
/// entries, except the reserved `sdk` sentinel, which is never a buildable
/// member.
pub open spec fn spec_filter_members(members: Seq<Seq<char>>, retained: Seq<Seq<char>>) -> Seq<
    Seq<char>,
>
    decreases members.len(),
{
    if members.len() == 0 {
        Seq::empty()
    } else {
        let prev = spec_filter_members(members.drop_last(), retained);
        let m = members.last();
        if retained.contains(m) && m != "sdk"@ {
            prev.push(m)
        } else {
            prev
        }
    }
}

/// The filtered member list never holds the reserved sentinel name.
pub proof fn lemma_filter_members_no_sdk(members: Seq<Seq<char>>, retained: Seq<Seq<char>>)
    ensures
        !spec_filter_members(members, retained).contains("sdk"@),
    decreases members.len(),
{
    if members.len() > 0 {
        lemma_filter_members_no_sdk(members.drop_last(), retained);
        let prev = spec_filter_members(members.drop_last(), retained);
        let m = members.last();
        if retained.contains(m) && m != "sdk"@ {
            assert forall|j: int|
                0 <= j < prev.push(m).len() implies prev.push(m)[j] != "sdk"@ by {
                if j < prev.len() {
                    assert(prev[j] != "sdk"@);
                }
            }
        }
    }
}

/// Filters the workspace member list against the retained entries.
pub fn filter_members(members: &Vec<String>, retained: &Vec<String>) -> (r: Vec<String>)
    ensures
        r.deep_view() == spec_filter_members(members.deep_view(), retained.deep_view()),
        !r.deep_view().contains("sdk"@),
{
    let ghost mv = members.deep_view();
    let ghost rv = retained.deep_view();
    let mut out: Vec<String> = Vec::new();
    let n = members.len();
    let mut i: usize = 0;
    proof {
        assert(mv.take(0) =~= Seq::<Seq<char>>::empty());
        assert(out.deep_view() =~= spec_filter_members(mv.take(0), rv));
    }
    while i < n
        invariant
            i <= n,
            n == members.len(),
            mv == members.deep_view(),
            rv == retained.deep_view(),
            out.deep_view() == spec_filter_members(mv.take(i as int), rv),
        decreases n - i,
    {
        let ghost pre = out.deep_view();
        proof {
            assert(mv.take(i as int + 1).drop_last() =~= mv.take(i as int));
            assert(mv.take(i as int + 1).last() == mv[i as int]);
            assert(mv[i as int] == members@[i as int]@);
        }
        let m = &members[i];
        if contains_string(retained, m.as_str()) && !str_eq(m.as_str(), "sdk") {
            out.push(m.clone());
            proof {
                assert(out.deep_view() =~= pre.push(mv[i as int]));
            }
        }
        i += 1;
    }
    proof {
        assert(mv.take(n as int) =~= mv);
        lemma_filter_members_no_sdk(mv, rv);
    }
    out
}

/// Whether a patch entry's declared override path justifies keeping it: the
/// first segment of that path must begin some retained entry.
pub open spec fn spec_keep_patch(path: Option<Seq<char>>, retained: Seq<Seq<char>>) -> bool {
    match path {
        Some(p) => exists|i: int|
            0 <= i < retained.len() && is_prefix_of(spec_first_segment(p), #[trigger] retained[i]),
        None => false,
    }
}

/// The patch entries that survive, in order.
pub open spec fn spec_filter_patches(
    patches: Seq<(Seq<char>, Option<Seq<char>>)>,
    retained: Seq<Seq<char>>,
) -> Seq<(Seq<char>, Option<Seq<char>>)>
    decreases patches.len(),
{
    if patches.len() == 0 {
        Seq::empty()
    } else {
        let prev = spec_filter_patches(patches.drop_last(), retained);
        if spec_keep_patch(patches.last().1, retained) {
            prev.push(patches.last())
        } else {
            prev
        }
    }
}

/// Whether some entry of `v` starts with `p`.
fn any_starts_with(v: &Vec<String>, p: &str) -> (r: bool)
    ensures
        r == exists|i: int|
            0 <= i < v.deep_view().len() && is_prefix_of(p@, #[trigger] v.deep_view()[i]),
{
    let n = v.len();
    let mut i: usize = 0;
    while i < n
        invariant
            i <= n,
            n == v.len(),
            forall|j: int| 0 <= j < i ==> !is_prefix_of(p@, #[trigger] v.deep_view()[j]),
        decreases n - i,
    {
        if starts_with(v[i].as_str(), p) {
            proof {
                assert(is_prefix_of(p@, v.deep_view()[i as int]));
            }
            return true;
        }
        i += 1;
    }
    false
}

/// Filters the patch table (each entry a crate name with its declared
/// override path, if any) against the retained entries.
pub fn filter_patches(patches: &Vec<(String, Option<String>)>, retained: &Vec<String>) -> (r: Vec<
    (String, Option<String>),
>)
    ensures
        r.deep_view() == spec_filter_patches(patches.deep_view(), retained.deep_view()),
{
    let ghost pv = patches.deep_view();
    let ghost rv = retained.deep_view();
    let mut out: Vec<(String, Option<String>)> = Vec::new();
    let n = patches.len();
    let mut i: usize = 0;
    proof {
        assert(pv.take(0) =~= Seq::<(Seq<char>, Option<Seq<char>>)>::empty());
        assert(out.deep_view() =~= spec_filter_patches(pv.take(0), rv));
    }
    while i < n
        invariant
            i <= n,
            n == patches.len(),
            pv == patches.deep_view(),
            rv == retained.deep_view(),
            out.deep_view() == spec_filter_patches(pv.take(i as int), rv),
        decreases n - i,
    {
        let ghost pre = out.deep_view();
        proof {
            assert(pv.take(i as int + 1).drop_last() =~= pv.take(i as int));
            assert(pv.take(i as int + 1).last() == pv[i as int]);
            assert(pv[i as int] == (patches@[i as int].0@, patches@[i as int].1.deep_view()));
        }
        let keep: bool = match &patches[i].1 {
            Some(path) => {
                let seg = first_segment(path.as_str());
                any_starts_with(retained, seg)
            },
            None => false,
        };
        proof {
            assert(keep == spec_keep_patch(pv[i as int].1, rv));
        }
        if keep {
            let pair = (patches[i].0.clone(), patches[i].1.clone());
            out.push(pair);
            proof {
                assert(out.deep_view() =~= pre.push(pv[i as int]));
            }
        }
        i += 1;
    }
    proof {
        assert(pv.take(n as int) =~= pv);
    }
    out
}

} // verus!
