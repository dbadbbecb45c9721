//! Which nested project roots each project must leave out of its inputs.
use vstd::prelude::*;

use crate::graph::ProjectRef;
use crate::paths::{is_prefix, ValidPath};

verus! {

/// `q` lies strictly below `p`, component-wise.
pub open spec fn strictly_below(q: Seq<Seq<char>>, p: Seq<Seq<char>>) -> bool {
    is_prefix(p, q) && q.len() > p.len()
}

/// `q` is a root of `paths` strictly below `p` with no other root of `paths`
/// between them.
pub open spec fn nearest_below(paths: Seq<ValidPath>, p: Seq<Seq<char>>, q: Seq<Seq<char>>) -> bool {
    &&& exists|j: int| 0 <= j < paths.len() && #[trigger] paths[j]@ == q
    &&& strictly_below(q, p)
    &&& !exists|k: int|
        0 <= k < paths.len() && strictly_below(#[trigger] paths[k]@, p) && strictly_below(
            q,
            paths[k]@,
        )
}

/// The views of a list of paths.
pub open spec fn path_views(v: Seq<ValidPath>) -> Seq<Seq<Seq<char>>> {
    v.map_values(|x: ValidPath| x@)
}

fn below(q: &ValidPath, p: &ValidPath) -> (r: bool)
    ensures
        r == strictly_below(q@, p@),
{
    q.starts_with(p) && q.components().len() > p.components().len()
}

fn holds_path(v: &Vec<ValidPath>, p: &ValidPath) -> (r: bool)
    ensures
        r == path_views(v@).contains(p@),
{
    let mut i: usize = 0;
    while i < v.len()
        invariant
            i <= v.len(),
            forall|k: int| 0 <= k < i ==> v@[k]@ != p@,
        decreases v.len() - i,
    {
        if v[i].same_as(p) {
            assert(path_views(v@)[i as int] == p@);
            return true;
        }
        i = i + 1;
    }
    proof {
        if path_views(v@).contains(p@) {
            let k = choose|k: int| 0 <= k < path_views(v@).len() && path_views(v@)[k] == p@;
            assert(v@[k]@ == p@);
        }
    }
    false
}

/// For each project, the roots of the projects nested in it, leaving out
/// those nested deeper still inside one of them.
pub fn calculate_exclusions(input: &Vec<(ProjectRef, ValidPath)>) -> (r: Vec<(ProjectRef, Vec<ValidPath>)>)
    ensures
        r.len() == input.len(),
        forall|i: int|
            0 <= i < r.len() ==> (#[trigger] r@[i]).0@ == input@[i].0@ && forall|q: Seq<Seq<char>>|
                path_views(r@[i].1@).contains(q) <==> nearest_below(
                    input@.map_values(|x: (ProjectRef, ValidPath)| x.1),
                    input@[i].1@,
                    q,
                ),
        forall|i: int| 0 <= i < r.len() ==> path_views((#[trigger] r@[i]).1@).no_duplicates(),
{
    let ghost paths = input@.map_values(|x: (ProjectRef, ValidPath)| x.1);
    let mut r: Vec<(ProjectRef, Vec<ValidPath>)> = Vec::new();
    let mut i: usize = 0;
    while i < input.len()
        invariant
            i <= input.len(),
            paths == input@.map_values(|x: (ProjectRef, ValidPath)| x.1),
            r.len() == i,
            forall|a: int|
                0 <= a < i ==> (#[trigger] r@[a]).0@ == input@[a].0@ && forall|q: Seq<Seq<char>>|
                    path_views(r@[a].1@).contains(q) <==> nearest_below(paths, input@[a].1@, q),
            forall|a: int| 0 <= a < i ==> path_views((#[trigger] r@[a]).1@).no_duplicates(),
        decreases input.len() - i,
    {
        let p = &input[i].1;
        let mut found: Vec<ValidPath> = Vec::new();
        let mut j: usize = 0;
        while j < input.len()
            invariant
                i < input.len(),
                p == input@[i as int].1,
                j <= input.len(),
                paths == input@.map_values(|x: (ProjectRef, ValidPath)| x.1),
                forall|q: Seq<Seq<char>>|
                    path_views(found@).contains(q) <==> (exists|b: int|
                        0 <= b < j && #[trigger] paths[b]@ == q) && nearest_below(paths, p@, q),
                path_views(found@).no_duplicates(),
            decreases input.len() - j,
        {
            let q = &input[j].1;
            let mut keep = below(q, p);
            let mut k: usize = 0;
            while k < input.len()
                invariant
                    i < input.len(),
                    j < input.len(),
                    p == input@[i as int].1,
                    q == input@[j as int].1,
                    k <= input.len(),
                    paths == input@.map_values(|x: (ProjectRef, ValidPath)| x.1),
                    keep == (strictly_below(q@, p@) && !exists|c: int|
                        0 <= c < k && strictly_below(#[trigger] paths[c]@, p@) && strictly_below(
                            q@,
                            paths[c]@,
                        )),
                decreases input.len() - k,
            {
                let m = &input[k].1;
                if keep && below(m, p) && below(q, m) {
                    keep = false;
                }
                proof {
                    assert(paths[k as int] == *m);
                }
                k = k + 1;
            }
            let ghost before = found@;
            proof {
                assert(paths[j as int] == *q);
            }
            let present = holds_path(&found, q);
            if keep && !present {
                found.push(q.duplicate());
                proof {
                    assert(path_views(found@) =~= path_views(before).push(q@));
                }
            }
            proof {
                assert forall|u: Seq<Seq<char>>|
                    path_views(found@).contains(u) <==> (exists|b: int|
                        0 <= b < j + 1 && #[trigger] paths[b]@ == u) && nearest_below(paths, p@, u) by {
                    if keep && !present && u == q@ {
                        assert(path_views(found@)[before.len() as int] == u);
                    }
                    if path_views(found@).contains(u) && !(keep && !present && u == q@) {
                        let m = choose|m: int| 0 <= m < path_views(found@).len() && path_views(found@)[m] == u;
                        assert(path_views(before)[m] == u);
                        assert(path_views(before).contains(u));
                        let b = choose|b: int| 0 <= b < j && #[trigger] paths[b]@ == u;
                        assert(0 <= b < j + 1 && paths[b]@ == u);
                    }
                    if (exists|b: int| 0 <= b < j + 1 && #[trigger] paths[b]@ == u) && nearest_below(
                        paths,
                        p@,
                        u,
                    ) {
                        let b = choose|b: int| 0 <= b < j + 1 && #[trigger] paths[b]@ == u;
                        if b < j {
                            assert(path_views(before).contains(u));
                            let m = choose|m: int| 0 <= m < path_views(before).len() && path_views(before)[m] == u;
                            assert(path_views(found@)[m] == u);
                        } else {
                            assert(u == q@);
                            assert(keep);
                            if !present {
                                assert(path_views(found@)[before.len() as int] == u);
                            }
                        }
                    }
                }
            }
            j = j + 1;
        }
        proof {
            assert forall|q: Seq<Seq<char>>|
                path_views(found@).contains(q) <==> nearest_below(paths, input@[i as int].1@, q) by {
                if nearest_below(paths, input@[i as int].1@, q) {
                    let b = choose|b: int| 0 <= b < paths.len() && #[trigger] paths[b]@ == q;
                    assert(0 <= b < input.len() && paths[b]@ == q);
                }
            }
        }
        r.push((input[i].0.duplicate(), found));
        i = i + 1;
    }
    r
}

} // verus!
