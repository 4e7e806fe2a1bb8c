//! Constraints become edges over the packages left after `requires`: the user's first, then every
//! live manifest's `after` and `before`. A manifest pair the user states the other way round is
//! dropped and reported; a pair that names a package nobody has is ignored.

use crate::alias::problem::{problem_views, Problem, ProblemKind, ProblemView};
use crate::package::edges::{
    distinct_pairs, edge_views, last_of_its_pair, pairs_of, ConstraintSource, Edge, EdgeView,
    OrderEdges, Pairs,
};
use crate::package::manifest::{Constraint, Package};
use crate::package::resolve::{any_enabled_with_id, id_of};
use crate::text::str_eq;
use vstd::prelude::*;

verus! {

/// `id` belongs to a package that `enabled` keeps.
pub open spec fn is_live(packages: Seq<Package>, enabled: Seq<bool>, id: Seq<char>) -> bool {
    exists|j: int| 0 <= j < packages.len() && id_of(packages, j) == id && #[trigger] enabled[j]
}

/// The pairs an `after` and a `before` list state for `id`: each `after` entry before `id`, then
/// `id` before each `before` entry, in list order.
pub open spec fn ordering_pairs(id: Seq<char>, after: Seq<String>, before: Seq<String>) -> Seq<
    (Seq<char>, Seq<char>),
> {
    Seq::new(after.len(), |k: int| (after[k]@, id)) + Seq::new(before.len(), |k: int| (id, before[k]@))
}

/// Every pair the user's load order states, constraint by constraint.
pub open spec fn user_candidates(constraints: Seq<Constraint>) -> Seq<(Seq<char>, Seq<char>)>
    decreases constraints.len(),
{
    if constraints.len() == 0 {
        Seq::empty()
    } else {
        let c = constraints.last();
        user_candidates(constraints.drop_last()) + ordering_pairs(c.package@, c.after@, c.before@)
    }
}

/// Those of the user's `pairs` whose two ends are both live, as edges the user is the source of.
pub open spec fn user_edges(
    packages: Seq<Package>,
    enabled: Seq<bool>,
    pairs: Seq<(Seq<char>, Seq<char>)>,
) -> Seq<EdgeView>
    decreases pairs.len(),
{
    if pairs.len() == 0 {
        Seq::empty()
    } else {
        let rest = user_edges(packages, enabled, pairs.drop_last());
        let p = pairs.last();
        if is_live(packages, enabled, p.0) && is_live(packages, enabled, p.1) {
            rest.push((p.0, p.1, ConstraintSource::User))
        } else {
            rest
        }
    }
}

/// A manifest pair, with the position of the package whose manifest states it.
pub type Candidate = (Seq<char>, Seq<char>, int);

/// `pairs`, each tagged with package `i`.
pub open spec fn tagged(pairs: Seq<(Seq<char>, Seq<char>)>, i: int) -> Seq<Candidate> {
    Seq::new(pairs.len(), |k: int| (pairs[k].0, pairs[k].1, i))
}

/// Every pair the manifests of the first `n` packages state, live packages only, package by
/// package.
pub open spec fn manifest_candidates(packages: Seq<Package>, enabled: Seq<bool>, n: nat) -> Seq<
    Candidate,
>
    decreases n,
{
    if n == 0 {
        Seq::empty()
    } else {
        let i = n - 1;
        let info = packages[i].manifest.package;
        manifest_candidates(packages, enabled, (n - 1) as nat) + (if enabled[i] {
            tagged(ordering_pairs(info.id@, info.after@, info.before@), i)
        } else {
            Seq::empty()
        })
    }
}

/// Both ends of the pair belong to live packages.
pub open spec fn relates_live(packages: Seq<Package>, enabled: Seq<bool>, c: Candidate) -> bool {
    is_live(packages, enabled, c.0) && is_live(packages, enabled, c.1)
}

/// The manifest pairs that become edges: both ends live, and not stated the other way round by
/// the user.
pub open spec fn kept_edges(
    packages: Seq<Package>,
    enabled: Seq<bool>,
    user: Pairs,
    cands: Seq<Candidate>,
) -> Seq<EdgeView>
    decreases cands.len(),
{
    if cands.len() == 0 {
        Seq::empty()
    } else {
        let rest = kept_edges(packages, enabled, user, cands.drop_last());
        let c = cands.last();
        if relates_live(packages, enabled, c) && !user.contains((c.1, c.0)) {
            rest.push((c.0, c.1, ConstraintSource::Manifest(packages[c.2].manifest.package.id)))
        } else {
            rest
        }
    }
}

/// What a report says of a manifest pair the user overruled.
pub open spec fn overruled_text(id: Seq<char>, earlier: Seq<char>, later: Seq<char>) -> Seq<char> {
    id + ": `"@ + earlier + "` before `"@ + later
        + "` was dropped; the user's load order says the opposite"@
}

/// One problem per manifest pair that the user states the other way round.
pub open spec fn overruled_problems(
    packages: Seq<Package>,
    enabled: Seq<bool>,
    user: Pairs,
    cands: Seq<Candidate>,
) -> Seq<ProblemView>
    decreases cands.len(),
{
    if cands.len() == 0 {
        Seq::empty()
    } else {
        let rest = overruled_problems(packages, enabled, user, cands.drop_last());
        let c = cands.last();
        if relates_live(packages, enabled, c) && user.contains((c.1, c.0)) {
            rest.push(
                (
                    packages[c.2].root@,
                    ProblemKind::OverruledConstraint,
                    overruled_text(id_of(packages, c.2), c.0, c.1),
                ),
            )
        } else {
            rest
        }
    }
}

/// The pairs the user states over live packages.
pub open spec fn user_pairs(packages: Seq<Package>, enabled: Seq<bool>, constraints: Seq<Constraint>) -> Pairs {
    pairs_of(user_edges(packages, enabled, user_candidates(constraints)))
}

/// Every edge asked for, in the order asked: the user's, then the kept manifest pairs. Where a
/// pair is asked for twice, the later source is the one recorded.
pub open spec fn constraint_edges(
    packages: Seq<Package>,
    enabled: Seq<bool>,
    constraints: Seq<Constraint>,
) -> Seq<EdgeView> {
    user_edges(packages, enabled, user_candidates(constraints)) + kept_edges(
        packages,
        enabled,
        user_pairs(packages, enabled, constraints),
        manifest_candidates(packages, enabled, packages.len()),
    )
}

/// The contract view of a list of id pairs.
pub open spec fn pair_views(pairs: Seq<(String, String)>) -> Seq<(Seq<char>, Seq<char>)> {
    Seq::new(pairs.len(), |i: int| (pairs[i].0@, pairs[i].1@))
}

/// The contract view of a list of tagged pairs.
pub open spec fn candidate_views(cands: Seq<(String, String, usize)>) -> Seq<Candidate> {
    Seq::new(cands.len(), |i: int| (cands[i].0@, cands[i].1@, cands[i].2 as int))
}

/// Appends the pairs `after` and `before` state for `id` to `out`, each tagged with `tag`.
fn push_ordering_pairs(
    out: &mut Vec<(String, String, usize)>,
    id: &String,
    after: &Vec<String>,
    before: &Vec<String>,
    tag: usize,
)
    ensures
        candidate_views(final(out)@) == candidate_views(old(out)@) + tagged(
            ordering_pairs(id@, after@, before@),
            tag as int,
        ),
{
    let ghost start = candidate_views(out@);
    let ghost all = tagged(ordering_pairs(id@, after@, before@), tag as int);
    let mut k: usize = 0;
    while k < after.len()
        invariant
            k <= after@.len(),
            start == candidate_views(old(out)@),
            all == tagged(ordering_pairs(id@, after@, before@), tag as int),
            candidate_views(out@) == start + all.take(k as int),
        decreases after@.len() - k,
    {
        let ghost prior = out@;
        out.push((after[k].clone(), id.clone(), tag));
        proof {
            assert(ordering_pairs(id@, after@, before@)[k as int] == (after@[k as int]@, id@));
            assert(candidate_views(out@) =~= candidate_views(prior).push(all[k as int]));
            assert(all.take(k + 1) =~= all.take(k as int).push(all[k as int]));
            assert(candidate_views(out@) =~= start + all.take(k + 1));
        }
        k = k + 1;
    }
    let mut m: usize = 0;
    while m < before.len()
        invariant
            m <= before@.len(),
            start == candidate_views(old(out)@),
            all == tagged(ordering_pairs(id@, after@, before@), tag as int),
            candidate_views(out@) == start + all.take(after@.len() + m as int),
        decreases before@.len() - m,
    {
        let ghost prior = out@;
        out.push((id.clone(), before[m].clone(), tag));
        proof {
            let t = after@.len() + m;
            assert(ordering_pairs(id@, after@, before@)[t] == (id@, before@[m as int]@));
            assert(candidate_views(out@) =~= candidate_views(prior).push(all[t]));
            assert(all.take(t + 1) =~= all.take(t).push(all[t]));
            assert(candidate_views(out@) =~= start + all.take(t + 1));
        }
        m = m + 1;
    }
    proof {
        assert(all.take((after@.len() + before@.len()) as int) =~= all);
    }
}

/// Every pair the user's load order states, in file order. A user pair has no package to blame,
/// so each carries the tag 0.
fn collect_user_candidates(constraints: &Vec<Constraint>) -> (out: Vec<(String, String, usize)>)
    ensures
        candidate_views(out@) == tagged(user_candidates(constraints@), 0),
{
    let mut out: Vec<(String, String, usize)> = Vec::new();
    let mut c: usize = 0;
    while c < constraints.len()
        invariant
            c <= constraints@.len(),
            candidate_views(out@) == tagged(user_candidates(constraints@.take(c as int)), 0),
        decreases constraints@.len() - c,
    {
        let constraint = &constraints[c];
        push_ordering_pairs(&mut out, &constraint.package, &constraint.after, &constraint.before, 0);
        proof {
            let t = constraints@.take(c + 1);
            assert(t.drop_last() =~= constraints@.take(c as int));
            assert(t.last() == constraints@[c as int]);
            assert(tagged(user_candidates(t), 0) =~= tagged(
                user_candidates(constraints@.take(c as int)),
                0,
            ) + tagged(
                ordering_pairs(constraint.package@, constraint.after@, constraint.before@),
                0,
            ));
        }
        c = c + 1;
    }
    proof {
        assert(constraints@.take(constraints@.len() as int) =~= constraints@);
    }
    out
}

/// Every pair the live manifests state, package by package, each tagged with its package.
fn collect_manifest_candidates(packages: &[Package], enabled: &Vec<bool>) -> (out: Vec<
    (String, String, usize),
>)
    requires
        enabled@.len() == packages@.len(),
    ensures
        candidate_views(out@) == manifest_candidates(packages@, enabled@, packages@.len()),
        forall|k: int| 0 <= k < out@.len() ==> (#[trigger] out@[k]).2 < packages@.len(),
{
    let mut out: Vec<(String, String, usize)> = Vec::new();
    let mut i: usize = 0;
    while i < packages.len()
        invariant
            i <= packages@.len(),
            enabled@.len() == packages@.len(),
            candidate_views(out@) == manifest_candidates(packages@, enabled@, i as nat),
            forall|k: int| 0 <= k < out@.len() ==> (#[trigger] out@[k]).2 < i,
        decreases packages@.len() - i,
    {
        let ghost before = out@;
        if enabled[i] {
            let info = &packages[i].manifest.package;
            push_ordering_pairs(&mut out, &info.id, &info.after, &info.before, i);
            proof {
                assert forall|k: int| 0 <= k < out@.len() implies (#[trigger] out@[k]).2 < i + 1 by {
                    if k < before.len() {
                        assert(candidate_views(out@)[k] == candidate_views(before)[k]);
                    } else {
                        let info = packages@[i as int].manifest.package;
                        let added = tagged(ordering_pairs(info.id@, info.after@, info.before@), i as int);
                        assert(candidate_views(out@) == candidate_views(before) + added);
                        assert(candidate_views(before).len() == before.len());
                        assert(candidate_views(out@).len() == out@.len());
                        assert(candidate_views(out@).len() == candidate_views(before).len() + added.len());
                        assert(k < candidate_views(before).len() + added.len());
                        assert((candidate_views(before) + added)[k] == added[k - before.len()]);
                        assert(candidate_views(out@)[k] == added[k - before.len()]);
                        assert(candidate_views(out@)[k].2 == out@[k].2 as int);
                    }
                }
            }
        } else {
            proof {
                assert(manifest_candidates(packages@, enabled@, (i + 1) as nat) =~= manifest_candidates(
                    packages@,
                    enabled@,
                    i as nat,
                ));
            }
        }
        i = i + 1;
    }
    out
}

/// Whether `edges[..upto]` relates `earlier` to `later`.
fn has_pair(edges: &Vec<Edge>, upto: usize, earlier: &String, later: &String) -> (out: bool)
    requires
        upto <= edges@.len(),
    ensures
        out == pairs_of(edge_views(edges@).take(upto as int)).contains((earlier@, later@)),
{
    let ghost s = edge_views(edges@).take(upto as int);
    let mut k: usize = 0;
    while k < upto
        invariant
            k <= upto,
            upto <= edges@.len(),
            s == edge_views(edges@).take(upto as int),
            forall|j: int| 0 <= j < k ==> !(#[trigger] s[j].0 == earlier@ && s[j].1 == later@),
        decreases upto - k,
    {
        if str_eq(edges[k].earlier.as_str(), earlier.as_str()) && str_eq(
            edges[k].later.as_str(),
            later.as_str(),
        ) {
            proof {
                assert(s[k as int].0 == earlier@ && s[k as int].1 == later@);
            }
            return true;
        }
        k = k + 1;
    }
    proof {
        if pairs_of(s).contains((earlier@, later@)) {
            let j = choose|j: int| 0 <= j < s.len() && #[trigger] s[j].0 == earlier@ && s[j].1 == later@;
            assert(s[j].0 == earlier@);
        }
    }
    false
}

/// Turns the user's constraints and every live manifest's into edges, and reports each manifest
/// pair the user contradicted. The edges come back unclosed.
pub(crate) fn collect_constraints(
    packages: &[Package],
    enabled: &Vec<bool>,
    constraints: &Vec<Constraint>,
) -> (out: (OrderEdges, Vec<Problem>))
    requires
        enabled@.len() == packages@.len(),
    ensures
        out.0.well_formed(),
        out.0@.ordered == Set::<(Seq<char>, Seq<char>)>::empty(),
        distinct_pairs(out.0@.edges),
        pairs_of(out.0@.edges) == pairs_of(constraint_edges(packages@, enabled@, constraints@)),
        forall|k: int|
            0 <= k < out.0@.edges.len() ==> last_of_its_pair(
                constraint_edges(packages@, enabled@, constraints@),
                constraint_edges(packages@, enabled@, constraints@).len() as int,
                #[trigger] out.0@.edges[k],
            ),
        problem_views(out.1@) == overruled_problems(
            packages@,
            enabled@,
            user_pairs(packages@, enabled@, constraints@),
            manifest_candidates(packages@, enabled@, packages@.len()),
        ),
{
    let stated = collect_user_candidates(constraints);
    let ghost user_all = user_candidates(constraints@);
    proof {
        assert(candidate_views(stated@).len() == stated@.len());
        assert forall|k: int| 0 <= k < stated@.len() implies (#[trigger] stated@[k]).0@ == user_all[k].0
            && stated@[k].1@ == user_all[k].1 by {
            assert(candidate_views(stated@)[k] == tagged(user_all, 0)[k]);
        }
    }
    let mut wanted: Vec<Edge> = Vec::new();
    let mut u: usize = 0;
    while u < stated.len()
        invariant
            u <= stated@.len(),
            enabled@.len() == packages@.len(),
            stated@.len() == user_all.len(),
            forall|k: int| 0 <= k < stated@.len() ==> (#[trigger] stated@[k]).0@ == user_all[k].0
                && stated@[k].1@ == user_all[k].1,
            edge_views(wanted@) == user_edges(packages@, enabled@, user_all.take(u as int)),
        decreases stated@.len() - u,
    {
        let (earlier, later) = (&stated[u].0, &stated[u].1);
        proof {
            assert(user_all.take(u + 1).drop_last() =~= user_all.take(u as int));
            assert(user_all.take(u + 1).last() == user_all[u as int]);
        }
        if any_enabled_with_id(packages, enabled, earlier) && any_enabled_with_id(
            packages,
            enabled,
            later,
        ) {
            wanted.push(
                Edge { earlier: earlier.clone(), later: later.clone(), source: ConstraintSource::User },
            );
            proof {
                assert(edge_views(wanted@) =~= user_edges(
                    packages@,
                    enabled@,
                    user_all.take(u as int),
                ).push((earlier@, later@, ConstraintSource::User)));
            }
        }
        u = u + 1;
    }
    proof {
        assert(user_all.take(user_all.len() as int) =~= user_all);
    }
    let user_count = wanted.len();
    let ghost user_list = edge_views(wanted@);
    let ghost user = user_pairs(packages@, enabled@, constraints@);
    let cands = collect_manifest_candidates(packages, enabled);
    let ghost all = manifest_candidates(packages@, enabled@, packages@.len());
    let mut problems: Vec<Problem> = Vec::new();
    let mut m: usize = 0;
    while m < cands.len()
        invariant
            m <= cands@.len(),
            enabled@.len() == packages@.len(),
            candidate_views(cands@) == all,
            forall|k: int| 0 <= k < cands@.len() ==> (#[trigger] cands@[k]).2 < packages@.len(),
            user_count <= wanted@.len(),
            user_list == user_edges(packages@, enabled@, user_candidates(constraints@)),
            user == pairs_of(user_list),
            edge_views(wanted@).take(user_count as int) == user_list,
            edge_views(wanted@) == user_list + kept_edges(packages@, enabled@, user, all.take(m as int)),
            problem_views(problems@) == overruled_problems(packages@, enabled@, user, all.take(m as int)),
        decreases cands@.len() - m,
    {
        let (earlier, later, i) = (&cands[m].0, &cands[m].1, cands[m].2);
        proof {
            assert(all.take(m + 1).drop_last() =~= all.take(m as int));
            assert(all.take(m + 1).last() == all[m as int]);
            assert(all[m as int] == (earlier@, later@, i as int));
        }
        if any_enabled_with_id(packages, enabled, earlier) && any_enabled_with_id(
            packages,
            enabled,
            later,
        ) {
            if has_pair(&wanted, user_count, later, earlier) {
                let info = &packages[i].manifest.package;
                let mut detail = info.id.clone();
                detail.append(": `");
                detail.append(earlier.as_str());
                detail.append("` before `");
                detail.append(later.as_str());
                detail.append("` was dropped; the user's load order says the opposite");
                problems.push(
                    Problem {
                        path: packages[i].root.clone(),
                        kind: ProblemKind::OverruledConstraint,
                        detail,
                    },
                );
                proof {
                    assert(problem_views(problems@) =~= overruled_problems(
                        packages@,
                        enabled@,
                        user,
                        all.take(m as int),
                    ).push(
                        (
                            packages@[i as int].root@,
                            ProblemKind::OverruledConstraint,
                            overruled_text(id_of(packages@, i as int), earlier@, later@),
                        ),
                    ));
                }
            } else {
                let ghost before = edge_views(wanted@);
                let source = ConstraintSource::Manifest(packages[i].manifest.package.id.clone());
                wanted.push(Edge { earlier: earlier.clone(), later: later.clone(), source });
                proof {
                    assert(edge_views(wanted@) =~= before.push(
                        (
                            earlier@,
                            later@,
                            ConstraintSource::Manifest(packages@[i as int].manifest.package.id),
                        ),
                    ));
                    assert(edge_views(wanted@).take(user_count as int) =~= before.take(
                        user_count as int,
                    ));
                }
            }
        }
        m = m + 1;
    }
    proof {
        assert(all.take(all.len() as int) =~= all);
        assert(edge_views(wanted@) == constraint_edges(packages@, enabled@, constraints@));
    }
    let mut edges = OrderEdges::new();
    edges.insert_all(&wanted);
    (edges, problems)
}

} // verus!
