//! Rendering of the sparse-checkout command for a resolved closure.

use crate::closure::{resolve_closure, spec_closure, PackageNotFoundError};
use crate::graph::{assoc_has_key, DependencyGraph};
use vstd::prelude::*;

verus! {

/// One rendered path line of the command.
pub open spec fn spec_render_line(p: Seq<char>) -> Seq<char> {
    "    "@ + p + " \\\n"@
}

/// The path lines of the command, in the order given.
pub open spec fn spec_render_lines(paths: Seq<Seq<char>>) -> Seq<char>
    decreases paths.len(),
{
    if paths.len() == 0 {
        Seq::empty()
    } else {
        spec_render_lines(paths.drop_last()) + spec_render_line(paths.last())
    }
}

/// The whole command: the fixed verb line, then one line per retained path.
pub open spec fn spec_render(paths: Seq<Seq<char>>) -> Seq<char> {
    "git sparse-checkout set \\\n"@ + spec_render_lines(paths)
}

/// Renders the sparse-checkout command for the given paths.
pub fn render_sparse_checkout(paths: &Vec<String>) -> (r: String)
    ensures
        r@ == spec_render(paths.deep_view()),
{
    let mut out = String::new();
    out.append("git sparse-checkout set \\\n");
    let n = paths.len();
    let mut i: usize = 0;
    proof {
        assert(paths.deep_view().take(0) =~= Seq::<Seq<char>>::empty());
        assert(out@ =~= "git sparse-checkout set \\\n"@ + spec_render_lines(
            paths.deep_view().take(0),
        ));
    }
    while i < n
        invariant
            i <= n,
            n == paths.len(),
            out@ == "git sparse-checkout set \\\n"@ + spec_render_lines(
                paths.deep_view().take(i as int),
            ),
        decreases n - i,
    {
        out.append("    ");
        out.append(paths[i].as_str());
        out.append(" \\\n");
        proof {
            let dv = paths.deep_view();
            assert(dv.take(i as int + 1).drop_last() =~= dv.take(i as int));
            assert(dv.take(i as int + 1).last() == dv[i as int]);
            assert(dv[i as int] == paths@[i as int]@);
            assert(out@ =~= "git sparse-checkout set \\\n"@ + spec_render_lines(
                dv.take(i as int + 1),
            ));
        }
        i += 1;
    }
    proof {
        assert(paths.deep_view().take(n as int) =~= paths.deep_view());
    }
    out
}

/// Resolves the closure of `package_name` and renders the sparse-checkout
/// command for it: the retained entries together with the command text, or an
/// error when the package is not in the graph.
pub fn create_git_command(package_name: &str, packages: &DependencyGraph) -> (r: Result<
    (Vec<String>, String),
    PackageNotFoundError,
>)
    ensures
        match r {
            Ok(out) => assoc_has_key(packages@, package_name@)
                && out.0.deep_view().no_duplicates() && out.0.deep_view().to_set() == spec_closure(
                packages@,
                package_name@,
            ) && out.1@ == spec_render(out.0.deep_view()),
            Err(_) => !assoc_has_key(packages@, package_name@),
        },
{
    match resolve_closure(package_name, packages) {
        Ok(paths) => {
            let text = render_sparse_checkout(&paths);
            Ok((paths, text))
        },
        Err(e) => Err(e),
    }
}

} // verus!
