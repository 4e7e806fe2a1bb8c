//! What the sort could not place. A package whose id is ordered before itself is on a loop, and
//! the loops are reported one by one, each with the constraints that close it; any other package
//! left out is stuck behind a loop, and says which members hold it back.

use crate::alias::problem::{problem_views, Problem, ProblemKind, ProblemView};
use crate::package::edges::{
    closure_of, lemma_ordered_transitive, loop_parts, pairs_of, OrderEdges, Pairs,
};
use crate::package::manifest::Package;
use crate::package::order::positions;
use crate::package::resolve::{id_of, DisableReason, Disabled};
use crate::text::{join, joined, views};
use vstd::prelude::*;

verus! {

/// Live, and left out of the load order.
pub open spec fn stuck(packages: Seq<Package>, enabled: Seq<bool>, order: Seq<int>, v: int) -> bool {
    0 <= v < packages.len() && enabled[v] && !order.contains(v)
}

/// Package `v`'s id is ordered before itself.
pub open spec fn on_loop(packages: Seq<Package>, ordered: Pairs, v: int) -> bool {
    ordered.contains((id_of(packages, v), id_of(packages, v)))
}

/// Each of `a` and `b` is ordered before the other: they are on one loop.
pub open spec fn mutual(packages: Seq<Package>, ordered: Pairs, a: int, b: int) -> bool {
    ordered.contains((id_of(packages, a), id_of(packages, b))) && ordered.contains(
        (id_of(packages, b), id_of(packages, a)),
    )
}

/// Left out of the load order for being on a loop.
pub open spec fn looping(
    packages: Seq<Package>,
    enabled: Seq<bool>,
    ordered: Pairs,
    order: Seq<int>,
    v: int,
) -> bool {
    stuck(packages, enabled, order, v) && on_loop(packages, ordered, v)
}

/// `loops` groups the packages left out for being on a loop by the loop they are on: each group
/// in position order, the groups in the order of their first members.
pub open spec fn groups_loops(
    packages: Seq<Package>,
    enabled: Seq<bool>,
    ordered: Pairs,
    order: Seq<int>,
    loops: Seq<Seq<int>>,
) -> bool {
    &&& forall|l: int| 0 <= l < loops.len() ==> (#[trigger] loops[l]).len() > 0
    &&& forall|l: int, p: int, q: int|
        0 <= l < loops.len() && 0 <= p < q < loops[l].len() ==> #[trigger] loops[l][p] < #[trigger] loops[l][q]
    &&& forall|l: int, p: int|
        0 <= l < loops.len() && 0 <= p < loops[l].len() ==> looping(
            packages,
            enabled,
            ordered,
            order,
            #[trigger] loops[l][p],
        ) && mutual(packages, ordered, loops[l][0], loops[l][p])
    &&& forall|l: int, v: int|
        0 <= l < loops.len() && looping(packages, enabled, ordered, order, v) && #[trigger] mutual(
            packages,
            ordered,
            loops[l][0],
            v,
        ) ==> loops[l].contains(v)
    &&& forall|v: int|
        #[trigger] looping(packages, enabled, ordered, order, v) ==> exists|l: int|
            0 <= l < loops.len() && #[trigger] loops[l].contains(v)
    &&& forall|l: int, m: int| 0 <= l < m < loops.len() ==> #[trigger] loops[l][0] < #[trigger] loops[m][0]
}

/// Left out of the load order without being on a loop.
pub open spec fn behind_loop(
    packages: Seq<Package>,
    enabled: Seq<bool>,
    ordered: Pairs,
    order: Seq<int>,
    v: int,
) -> bool {
    stuck(packages, enabled, order, v) && !on_loop(packages, ordered, v)
}

/// The ids of the packages at `members`.
pub open spec fn ids_at(packages: Seq<Package>, members: Seq<int>) -> Seq<Seq<char>> {
    Seq::new(members.len(), |p: int| id_of(packages, members[p]))
}

/// What a loop's problem says: the constraints that close it, then its members.
pub open spec fn loop_text(edges: Seq<(Seq<char>, Seq<char>, crate::package::edges::ConstraintSource)>, ids: Seq<Seq<char>>) -> Seq<char> {
    "these constraints form a loop: "@ + joined(loop_parts(edges, ids), ", "@)
        + "; none of these packages will load: "@ + joined(ids, ", "@)
}

/// Those of `members` whose ids are ordered before package `v`'s, as ids, in order.
pub open spec fn holding_back(packages: Seq<Package>, ordered: Pairs, members: Seq<Seq<char>>, v: int) -> Seq<
    Seq<char>,
>
    decreases members.len(),
{
    if members.len() == 0 {
        Seq::empty()
    } else {
        let rest = holding_back(packages, ordered, members.drop_last(), v);
        if ordered.contains((members.last(), id_of(packages, v))) {
            rest.push(members.last())
        } else {
            rest
        }
    }
}

/// The contract view of a list of groups of positions.
pub open spec fn groups_view(groups: Seq<Vec<usize>>) -> Seq<Seq<int>> {
    Seq::new(groups.len(), |l: int| positions(groups[l]@))
}

/// Strictly increasing.
pub open spec fn increasing(s: Seq<int>) -> bool {
    forall|p: int, q: int| 0 <= p < q < s.len() ==> #[trigger] s[p] < #[trigger] s[q]
}

/// `f` is on a loop, left out, and no earlier such package shares its loop: it comes first in it.
pub open spec fn leads(packages: Seq<Package>, enabled: Seq<bool>, ordered: Pairs, order: Seq<int>, f: int) -> bool {
    &&& looping(packages, enabled, ordered, order, f)
    &&& forall|u: int| 0 <= u < f && #[trigger] looping(packages, enabled, ordered, order, u) ==> !mutual(packages, ordered, u, f)
}

/// Whether package `a` and package `b` are each ordered before the other.
fn mutual_exec(packages: &[Package], edges: &OrderEdges, a: usize, b: usize) -> (out: bool)
    requires
        edges.well_formed(),
        a < packages@.len(),
        b < packages@.len(),
    ensures
        out == mutual(packages@, edges@.ordered, a as int, b as int),
{
    let x = &packages[a].manifest.package.id;
    let y = &packages[b].manifest.package.id;
    edges.ordered(x.as_str(), y.as_str()) && edges.ordered(y.as_str(), x.as_str())
}

/// Whether package `v` is left out for being on a loop.
fn looping_exec(packages: &[Package], enabled: &Vec<bool>, placed: &Vec<bool>, edges: &OrderEdges, v: usize, order: Ghost<Seq<int>>) -> (out: bool)
    requires
        edges.well_formed(),
        v < packages@.len(),
        enabled@.len() == packages@.len(),
        placed@.len() == packages@.len(),
        forall|x: int| 0 <= x < packages@.len() ==> (#[trigger] placed@[x] <==> order@.contains(x)),
    ensures
        out == looping(packages@, enabled@, edges@.ordered, order@, v as int),
{
    let id = &packages[v].manifest.package.id;
    enabled[v] && !placed[v] && edges.ordered(id.as_str(), id.as_str())
}

/// The first package of each loop, in position order.
fn loop_leaders(packages: &[Package], enabled: &Vec<bool>, placed: &Vec<bool>, edges: &OrderEdges, order: Ghost<Seq<int>>) -> (out: Vec<usize>)
    requires
        edges.well_formed(),
        edges.is_closed(),
        enabled@.len() == packages@.len(),
        placed@.len() == packages@.len(),
        forall|x: int| 0 <= x < packages@.len() ==> (#[trigger] placed@[x] <==> order@.contains(x)),
    ensures
        increasing(positions(out@)),
        forall|k: int| 0 <= k < out@.len() ==> leads(packages@, enabled@, edges@.ordered, order@, #[trigger] out@[k] as int),
        forall|f: int| #[trigger] leads(packages@, enabled@, edges@.ordered, order@, f) ==> positions(out@).contains(f),
        forall|v: int| #[trigger] looping(packages@, enabled@, edges@.ordered, order@, v) ==> exists|k: int|
            0 <= k < out@.len() && mutual(packages@, edges@.ordered, #[trigger] out@[k] as int, v),
{
    let ghost o = edges@.ordered;
    let n = packages.len();
    let mut leaders: Vec<usize> = Vec::new();
    let mut v: usize = 0;
    while v < n
        invariant
            v <= n,
            n == packages@.len(),
            o == edges@.ordered,
            edges.well_formed(),
            edges.is_closed(),
            enabled@.len() == n,
            placed@.len() == n,
            forall|x: int| 0 <= x < n ==> (#[trigger] placed@[x] <==> order@.contains(x)),
            increasing(positions(leaders@)),
            forall|k: int| 0 <= k < leaders@.len() ==> #[trigger] leaders@[k] < v,
            forall|k: int| 0 <= k < leaders@.len() ==> leads(packages@, enabled@, o, order@, #[trigger] leaders@[k] as int),
            forall|f: int| 0 <= f < v && #[trigger] leads(packages@, enabled@, o, order@, f) ==> positions(leaders@).contains(f),
            forall|x: int| 0 <= x < v && #[trigger] looping(packages@, enabled@, o, order@, x) ==> exists|k: int|
                0 <= k < leaders@.len() && mutual(packages@, o, #[trigger] leaders@[k] as int, x),
        decreases n - v,
    {
        if looping_exec(packages, enabled, placed, edges, v, order) {
            let mut u: usize = 0;
            let mut shared = false;
            while u < v
                invariant_except_break
                    u <= v,
                    v < n,
                    n == packages@.len(),
                    o == edges@.ordered,
                    edges.well_formed(),
                    enabled@.len() == n,
                    placed@.len() == n,
                    forall|x: int| 0 <= x < n ==> (#[trigger] placed@[x] <==> order@.contains(x)),
                    !shared,
                    forall|w: int| 0 <= w < u && #[trigger] looping(packages@, enabled@, o, order@, w) ==> !mutual(packages@, o, w, v as int),
                ensures
                    shared ==> u < v && looping(packages@, enabled@, o, order@, u as int) && mutual(packages@, o, u as int, v as int),
                    !shared ==> forall|w: int| 0 <= w < v && #[trigger] looping(packages@, enabled@, o, order@, w) ==> !mutual(packages@, o, w, v as int),
                decreases v - u,
            {
                if looping_exec(packages, enabled, placed, edges, u, order) && mutual_exec(packages, edges, u, v) {
                    shared = true;
                    break;
                }
                u = u + 1;
            }
            if shared {
                proof {
                    let k = choose|k: int| 0 <= k < leaders@.len() && mutual(packages@, o, #[trigger] leaders@[k] as int, u as int);
                    let f = leaders@[k] as int;
                    lemma_ordered_transitive(edges@, id_of(packages@, f), id_of(packages@, u as int), id_of(packages@, v as int));
                    lemma_ordered_transitive(edges@, id_of(packages@, v as int), id_of(packages@, u as int), id_of(packages@, f));
                    assert(mutual(packages@, o, leaders@[k] as int, v as int));
                }
            } else {
                let ghost before = leaders@;
                leaders.push(v);
                proof {
                    assert(leads(packages@, enabled@, o, order@, v as int));
                    assert(positions(leaders@) =~= positions(before).push(v as int));
                    assert forall|k: int| 0 <= k < leaders@.len() implies leads(packages@, enabled@, o, order@, #[trigger] leaders@[k] as int) by {
                        if k < before.len() {
                            assert(leaders@[k] == before[k]);
                        }
                    }
                    assert(mutual(packages@, o, leaders@[before.len() as int] as int, v as int));
                    assert forall|x: int| 0 <= x < v + 1 && #[trigger] looping(packages@, enabled@, o, order@, x) implies exists|k: int|
                        0 <= k < leaders@.len() && mutual(packages@, o, #[trigger] leaders@[k] as int, x) by {
                        if x < v {
                            let k = choose|k: int| 0 <= k < before.len() && mutual(packages@, o, #[trigger] before[k] as int, x);
                            assert(leaders@[k] == before[k]);
                        } else {
                            assert(leaders@[before.len() as int] == v);
                        }
                    }
                    assert forall|f: int| 0 <= f < v + 1 && #[trigger] leads(packages@, enabled@, o, order@, f) implies positions(leaders@).contains(f) by {
                        if f < v {
                            assert(positions(before).contains(f));
                            let k = choose|k: int| 0 <= k < positions(before).len() && positions(before)[k] == f;
                            assert(positions(leaders@)[k] == f);
                        } else {
                            assert(positions(leaders@)[before.len() as int] == f);
                        }
                    }
                }
            }
        } else {
            proof {
                assert(!leads(packages@, enabled@, o, order@, v as int));
            }
        }
        v = v + 1;
    }
    leaders
}

/// The loop `f` leads: every package left out on a loop it shares with `f`, in position order.
fn loop_of(packages: &[Package], enabled: &Vec<bool>, placed: &Vec<bool>, edges: &OrderEdges, f: usize, order: Ghost<Seq<int>>) -> (out: Vec<usize>)
    requires
        edges.well_formed(),
        enabled@.len() == packages@.len(),
        placed@.len() == packages@.len(),
        forall|x: int| 0 <= x < packages@.len() ==> (#[trigger] placed@[x] <==> order@.contains(x)),
        leads(packages@, enabled@, edges@.ordered, order@, f as int),
    ensures
        increasing(positions(out@)),
        out@.len() > 0,
        out@[0] == f,
        forall|v: int| positions(out@).contains(v) <==> looping(packages@, enabled@, edges@.ordered, order@, v) && mutual(
            packages@,
            edges@.ordered,
            f as int,
            v,
        ),
{
    let ghost o = edges@.ordered;
    let n = packages.len();
    let mut out: Vec<usize> = Vec::new();
    let mut v: usize = 0;
    while v < n
        invariant
            v <= n,
            n == packages@.len(),
            o == edges@.ordered,
            edges.well_formed(),
            enabled@.len() == n,
            placed@.len() == n,
            forall|x: int| 0 <= x < n ==> (#[trigger] placed@[x] <==> order@.contains(x)),
            leads(packages@, enabled@, o, order@, f as int),
            increasing(positions(out@)),
            forall|k: int| 0 <= k < out@.len() ==> f <= #[trigger] out@[k] < v,
            v > f ==> out@.len() > 0 && out@[0] == f,
            forall|x: int| positions(out@).contains(x) <==> 0 <= x < v && looping(packages@, enabled@, o, order@, x) && mutual(
                packages@,
                o,
                f as int,
                x,
            ),
        decreases n - v,
    {
        let ghost before = out@;
        if looping_exec(packages, enabled, placed, edges, v, order) && mutual_exec(packages, edges, f, v) {
            out.push(v);
            proof {
                assert(positions(out@) =~= positions(before).push(v as int));
                if v < f {
                    assert(mutual(packages@, o, v as int, f as int));
                    assert(false);
                }
            }
        } else {
            proof {
                if v == f {
                    assert(looping(packages@, enabled@, o, order@, f as int));
                    assert(mutual(packages@, o, f as int, f as int));
                }
            }
        }
        proof {
            assert forall|x: int| positions(out@).contains(x) <==> 0 <= x < v + 1 && looping(packages@, enabled@, o, order@, x) && mutual(
                packages@,
                o,
                f as int,
                x,
            ) by {
                if positions(out@).contains(x) && x != v {
                    let k = choose|k: int| 0 <= k < positions(out@).len() && positions(out@)[k] == x;
                    assert(positions(before)[k] == x);
                }
                if x < v && positions(before).contains(x) {
                    let k = choose|k: int| 0 <= k < positions(before).len() && positions(before)[k] == x;
                    assert(positions(out@)[k] == x);
                }
                if x == v && looping(packages@, enabled@, o, order@, x) && mutual(packages@, o, f as int, x) {
                    assert(positions(out@)[out@.len() - 1] == x);
                }
            }
        }
        v = v + 1;
    }
    proof {
        assert(looping(packages@, enabled@, o, order@, f as int));
        assert(mutual(packages@, o, f as int, f as int));
        assert(positions(out@).contains(f as int));
    }
    out
}

/// Every loop among the packages left out, each led by its first member.
fn build_loops(packages: &[Package], enabled: &Vec<bool>, placed: &Vec<bool>, edges: &OrderEdges, order: Ghost<Seq<int>>) -> (out: Vec<Vec<usize>>)
    requires
        edges.well_formed(),
        edges.is_closed(),
        enabled@.len() == packages@.len(),
        placed@.len() == packages@.len(),
        forall|x: int| 0 <= x < packages@.len() ==> (#[trigger] placed@[x] <==> order@.contains(x)),
    ensures
        groups_loops(packages@, enabled@, edges@.ordered, order@, groups_view(out@)),
        forall|l: int, p: int| 0 <= l < out@.len() && 0 <= p < out@[l]@.len() ==> #[trigger] out@[l]@[p] < packages@.len(),
{
    let ghost o = edges@.ordered;
    let leaders = loop_leaders(packages, enabled, placed, edges, order);
    let mut loops: Vec<Vec<usize>> = Vec::new();
    let mut l: usize = 0;
    while l < leaders.len()
        invariant
            l <= leaders@.len(),
            o == edges@.ordered,
            edges.well_formed(),
            enabled@.len() == packages@.len(),
            placed@.len() == packages@.len(),
            forall|x: int| 0 <= x < packages@.len() ==> (#[trigger] placed@[x] <==> order@.contains(x)),
            forall|k: int| 0 <= k < leaders@.len() ==> leads(packages@, enabled@, o, order@, #[trigger] leaders@[k] as int),
            loops@.len() == l,
            forall|k: int| 0 <= k < l ==> {
                &&& increasing(#[trigger] groups_view(loops@)[k])
                &&& groups_view(loops@)[k].len() > 0
                &&& groups_view(loops@)[k][0] == leaders@[k]
                &&& forall|v: int| groups_view(loops@)[k].contains(v) <==> looping(packages@, enabled@, o, order@, v) && mutual(
                    packages@,
                    o,
                    leaders@[k] as int,
                    v,
                )
            },
        decreases leaders@.len() - l,
    {
        let group = loop_of(packages, enabled, placed, edges, leaders[l], order);
        let ghost before = loops@;
        loops.push(group);
        proof {
            assert(groups_view(loops@) =~= groups_view(before).push(positions(group@)));
        }
        l = l + 1;
    }
    proof {
        let g = groups_view(loops@);
        assert forall|k: int| 0 <= k < g.len() implies g[k][0] == leaders@[k] && (#[trigger] g[k]).len() > 0 by {}
        assert forall|k: int, p: int| 0 <= k < g.len() && 0 <= p < g[k].len() implies looping(
            packages@,
            enabled@,
            o,
            order@,
            #[trigger] g[k][p],
        ) && mutual(packages@, o, g[k][0], g[k][p]) by {
            assert(g[k].contains(g[k][p]));
        }
        assert forall|v: int| #[trigger] looping(packages@, enabled@, o, order@, v) implies exists|k: int|
            0 <= k < g.len() && #[trigger] g[k].contains(v) by {
            let k = choose|k: int| 0 <= k < leaders@.len() && mutual(packages@, o, #[trigger] leaders@[k] as int, v);
            assert(g[k].contains(v));
        }
        assert forall|k: int, m: int| 0 <= k < m < g.len() implies #[trigger] g[k][0] < #[trigger] g[m][0] by {
            assert(positions(leaders@)[k] < positions(leaders@)[m]);
        }
        assert forall|k: int, p: int| 0 <= k < loops@.len() && 0 <= p < loops@[k]@.len() implies #[trigger] loops@[k]@[p] < packages@.len() by {
            assert(g[k][p] == loops@[k]@[p]);
            assert(g[k].contains(g[k][p]));
        }
    }
    loops
}

/// The report of what the sort left out, given how it splits into `loops` and `behind`: one
/// problem per loop; a record for every loop member, loop by loop, naming the loop; then a
/// record for every package stuck behind a loop, in position order, naming the loop members that
/// hold it back.
pub open spec fn stuck_reported(
    packages: Seq<Package>,
    enabled: Seq<bool>,
    edges: Seq<(Seq<char>, Seq<char>, crate::package::edges::ConstraintSource)>,
    ordered: Pairs,
    order: Seq<int>,
    loops: Seq<Seq<int>>,
    behind: Seq<int>,
    disabled: Seq<Disabled>,
    problems: Seq<Problem>,
) -> bool {
    &&& groups_loops(packages, enabled, ordered, order, loops)
    &&& increasing(behind)
    &&& forall|v: int| behind.contains(v) <==> behind_loop(packages, enabled, ordered, order, v)
    &&& problem_views(problems) == Seq::new(loops.len(), |l: int| loop_problem(packages, edges, loops[l]))
    &&& disabled.len() == loops.flatten().len() + behind.len()
    &&& forall|l: int, p: int|
        0 <= l < loops.len() && 0 <= p < loops[l].len() ==> cycle_record(
            packages,
            loops[l],
            #[trigger] loops[l][p],
            disabled[loops.take(l).flatten().len() + p],
        )
    &&& forall|b: int|
        0 <= b < behind.len() ==> behind_record(
            packages,
            ordered,
            ids_at(packages, loops.flatten()),
            #[trigger] behind[b],
            disabled[loops.flatten().len() + b],
        )
}

/// What the record of package `v`, disabled for being on the loop `members`, says.
pub open spec fn cycle_record(packages: Seq<Package>, members: Seq<int>, v: int, d: Disabled) -> bool {
    &&& d.id@ == id_of(packages, v)
    &&& d.root@ == packages[v].root@
    &&& (d.reason matches DisableReason::Cycle { members: m } && views(m@) == ids_at(packages, members))
}

/// What the record of package `v`, stuck behind a loop, says; `cycle_ids` are the ids of every
/// loop member, loop by loop.
pub open spec fn behind_record(
    packages: Seq<Package>,
    ordered: Pairs,
    cycle_ids: Seq<Seq<char>>,
    v: int,
    d: Disabled,
) -> bool {
    &&& d.id@ == id_of(packages, v)
    &&& d.root@ == packages[v].root@
    &&& (d.reason matches DisableReason::BehindCycle { cycle } && views(cycle@) == holding_back(
        packages,
        ordered,
        cycle_ids,
        v,
    ))
}

/// The problem a loop is reported with.
pub open spec fn loop_problem(packages: Seq<Package>, edges: Seq<(Seq<char>, Seq<char>, crate::package::edges::ConstraintSource)>, members: Seq<int>) -> ProblemView {
    (packages[members[0]].root@, ProblemKind::DependencyCycle, loop_text(edges, ids_at(packages, members)))
}

/// A copy of a list of strings.
fn copy_strings(list: &Vec<String>) -> (out: Vec<String>)
    ensures
        out@ == list@,
{
    let mut out: Vec<String> = Vec::new();
    let mut k: usize = 0;
    while k < list.len()
        invariant
            k <= list@.len(),
            out@ == list@.take(k as int),
        decreases list@.len() - k,
    {
        out.push(list[k].clone());
        proof {
            assert(list@.take(k + 1) =~= list@.take(k as int).push(list@[k as int]));
        }
        k = k + 1;
    }
    proof {
        assert(list@.take(list@.len() as int) =~= list@);
    }
    out
}

/// The ids of the packages at `group`.
fn ids_of_group(packages: &[Package], group: &Vec<usize>) -> (out: Vec<String>)
    requires
        forall|p: int| 0 <= p < group@.len() ==> #[trigger] group@[p] < packages@.len(),
    ensures
        views(out@) == ids_at(packages@, positions(group@)),
{
    let mut out: Vec<String> = Vec::new();
    let mut p: usize = 0;
    while p < group.len()
        invariant
            p <= group@.len(),
            forall|q: int| 0 <= q < group@.len() ==> #[trigger] group@[q] < packages@.len(),
            views(out@) == ids_at(packages@, positions(group@)).take(p as int),
        decreases group@.len() - p,
    {
        let ghost before = out@;
        out.push(packages[group[p]].manifest.package.id.clone());
        proof {
            assert(views(out@) =~= views(before).push(id_of(packages@, group@[p as int] as int)));
            assert(ids_at(packages@, positions(group@)).take(p + 1) =~= ids_at(packages@, positions(group@)).take(p as int).push(
                id_of(packages@, group@[p as int] as int),
            ));
        }
        p = p + 1;
    }
    proof {
        assert(ids_at(packages@, positions(group@)).take(group@.len() as int) =~= ids_at(packages@, positions(group@)));
    }
    out
}

/// Records every member of one loop as disabled, each naming the loop, and adds the members' ids
/// to `members_all`.
fn record_loop(
    packages: &[Package],
    group: &Vec<usize>,
    ids: &Vec<String>,
    disabled: &mut Vec<Disabled>,
    members_all: &mut Vec<String>,
)
    requires
        forall|p: int| 0 <= p < group@.len() ==> #[trigger] group@[p] < packages@.len(),
        views(ids@) == ids_at(packages@, positions(group@)),
    ensures
        final(disabled)@.len() == old(disabled)@.len() + group@.len(),
        forall|x: int| 0 <= x < old(disabled)@.len() ==> #[trigger] final(disabled)@[x] == old(disabled)@[x],
        forall|p: int|
            0 <= p < group@.len() ==> cycle_record(
                packages@,
                positions(group@),
                #[trigger] positions(group@)[p],
                final(disabled)@[old(disabled)@.len() + p],
            ),
        views(final(members_all)@) == views(old(members_all)@) + ids_at(packages@, positions(group@)),
{
    let ghost base = disabled@;
    let ghost names = views(members_all@);
    let mut p: usize = 0;
    while p < group.len()
        invariant
            p <= group@.len(),
            forall|q: int| 0 <= q < group@.len() ==> #[trigger] group@[q] < packages@.len(),
            views(ids@) == ids_at(packages@, positions(group@)),
            base == old(disabled)@,
            names == views(old(members_all)@),
            disabled@.len() == base.len() + p,
            forall|x: int| 0 <= x < base.len() ==> #[trigger] disabled@[x] == base[x],
            forall|q: int|
                0 <= q < p ==> cycle_record(
                    packages@,
                    positions(group@),
                    #[trigger] positions(group@)[q],
                    disabled@[base.len() + q],
                ),
            views(members_all@) == names + ids_at(packages@, positions(group@)).take(p as int),
        decreases group@.len() - p,
    {
        let v = group[p];
        let info = &packages[v].manifest.package;
        let members = copy_strings(ids);
        let ghost before = disabled@;
        disabled.push(
            Disabled {
                id: info.id.clone(),
                root: packages[v].root.clone(),
                reason: DisableReason::Cycle { members },
            },
        );
        let ghost names_before = members_all@;
        members_all.push(info.id.clone());
        proof {
            assert(disabled@[base.len() + p] == disabled@[before.len() as int]);
            assert forall|q: int|
                0 <= q < p + 1 implies cycle_record(
                    packages@,
                    positions(group@),
                    #[trigger] positions(group@)[q],
                    disabled@[base.len() + q],
                ) by {
                if q < p {
                    assert(disabled@[base.len() + q] == before[base.len() + q]);
                }
            }
            assert(views(members_all@) =~= views(names_before).push(id_of(packages@, v as int)));
            assert(ids_at(packages@, positions(group@)).take(p + 1) =~= ids_at(packages@, positions(group@)).take(p as int).push(
                id_of(packages@, v as int),
            ));
        }
        p = p + 1;
    }
    proof {
        assert(ids_at(packages@, positions(group@)).take(group@.len() as int) =~= ids_at(packages@, positions(group@)));
    }
}

/// One problem per loop, one record per member, and every member's id, loop by loop.
fn loop_records(packages: &[Package], edges: &OrderEdges, loops: &Vec<Vec<usize>>) -> (out: (Vec<Disabled>, Vec<Problem>, Vec<String>))
    requires
        forall|l: int, p: int| 0 <= l < loops@.len() && 0 <= p < loops@[l]@.len() ==> #[trigger] loops@[l]@[p] < packages@.len(),
        forall|l: int| 0 <= l < loops@.len() ==> (#[trigger] loops@[l])@.len() > 0,
    ensures
        problem_views(out.1@) == Seq::new(
            loops@.len(),
            |l: int| loop_problem(packages@, edges@.edges, groups_view(loops@)[l]),
        ),
        views(out.2@) == ids_at(packages@, groups_view(loops@).flatten()),
        out.0@.len() == groups_view(loops@).flatten().len(),
        forall|l: int, p: int|
            0 <= l < loops@.len() && 0 <= p < groups_view(loops@)[l].len() ==> cycle_record(
                packages@,
                groups_view(loops@)[l],
                #[trigger] groups_view(loops@)[l][p],
                out.0@[groups_view(loops@).take(l).flatten().len() + p],
            ),
{
    let ghost g = groups_view(loops@);
    let mut disabled: Vec<Disabled> = Vec::new();
    let mut problems: Vec<Problem> = Vec::new();
    let mut members_all: Vec<String> = Vec::new();
    let mut l: usize = 0;
    while l < loops.len()
        invariant
            l <= loops@.len(),
            g == groups_view(loops@),
            forall|k: int, p: int| 0 <= k < loops@.len() && 0 <= p < loops@[k]@.len() ==> #[trigger] loops@[k]@[p] < packages@.len(),
            forall|k: int| 0 <= k < loops@.len() ==> (#[trigger] loops@[k])@.len() > 0,
            problem_views(problems@) == Seq::new(l as nat, |k: int| loop_problem(packages@, edges@.edges, g[k])),
            views(members_all@) == ids_at(packages@, g.take(l as int).flatten()),
            disabled@.len() == g.take(l as int).flatten().len(),
            forall|k: int, p: int|
                0 <= k < l && 0 <= p < g[k].len() ==> cycle_record(
                    packages@,
                    g[k],
                    #[trigger] g[k][p],
                    disabled@[g.take(k).flatten().len() + p],
                ),
        decreases loops@.len() - l,
    {
        let group = &loops[l];
        proof {
            assert(g[l as int] == positions(group@));
            assert forall|p: int| 0 <= p < group@.len() implies #[trigger] group@[p] < packages@.len() by {
                assert(loops@[l as int]@[p] < packages@.len());
            }
            assert(g.take(l + 1) =~= g.take(l as int).push(g[l as int]));
            g.take(l as int).lemma_flatten_push(g[l as int]);
        }
        let ids = ids_of_group(packages, group);
        let mut detail = String::from_str("these constraints form a loop: ");
        let constraints = edges.describe_loop(&ids);
        detail.append(constraints.as_str());
        detail.append("; none of these packages will load: ");
        let names = join(&ids, ", ");
        detail.append(names.as_str());
        let ghost before_problems = problems@;
        problems.push(Problem { path: packages[group[0]].root.clone(), kind: ProblemKind::DependencyCycle, detail });
        let ghost before = disabled@;
        let ghost names_before = views(members_all@);
        record_loop(packages, group, &ids, &mut disabled, &mut members_all);
        proof {
            assert(problem_views(problems@) =~= problem_views(before_problems).push(loop_problem(packages@, edges@.edges, g[l as int])));
            assert(problem_views(problems@) =~= Seq::new((l + 1) as nat, |k: int| loop_problem(packages@, edges@.edges, g[k])));
            assert(ids_at(packages@, g.take(l + 1).flatten()) =~= ids_at(packages@, g.take(l as int).flatten()) + ids_at(packages@, g[l as int]));
            assert forall|k: int, p: int|
                0 <= k < l + 1 && 0 <= p < g[k].len() implies cycle_record(
                    packages@,
                    g[k],
                    #[trigger] g[k][p],
                    disabled@[g.take(k).flatten().len() + p],
                ) by {
                if k < l {
                    assert(g.take(k + 1) =~= g.take(k).push(g[k]));
                    g.take(k).lemma_flatten_push(g[k]);
                    lemma_prefix_flatten_len(g, k + 1, l as int);
                    assert(disabled@[g.take(k).flatten().len() + p] == before[g.take(k).flatten().len() + p]);
                } else {
                    assert(positions(group@)[p] == g[k][p]);
                }
            }
        }
        l = l + 1;
    }
    proof {
        assert(g.take(loops@.len() as int) =~= g);
        assert(problem_views(problems@) =~= Seq::new(loops@.len(), |k: int| loop_problem(packages@, edges@.edges, groups_view(loops@)[k])));
    }
    (disabled, problems, members_all)
}

/// Where position `x` of a flattened list of groups comes from: group `l`, place `p`.
pub(crate) proof fn lemma_flatten_at(g: Seq<Seq<int>>, x: int)
    requires
        0 <= x < g.flatten().len(),
    ensures
        exists|l: int, p: int|
            0 <= l < g.len() && 0 <= p < g[l].len() && x == g.take(l).flatten().len() + p && #[trigger] g.flatten()[x]
                == g[l][p],
    decreases g.len(),
{
    if g.len() == 0 {
        assert(g.flatten().len() == 0);
    } else {
        let h = g.drop_last();
        assert(g =~= h.push(g.last()));
        h.lemma_flatten_push(g.last());
        if x < h.flatten().len() {
            lemma_flatten_at(h, x);
            let (l, p) = choose|l: int, p: int|
                0 <= l < h.len() && 0 <= p < h[l].len() && x == h.take(l).flatten().len() + p && #[trigger] h.flatten()[x]
                    == h[l][p];
            assert(g.take(l) =~= h.take(l));
            assert(g[l] == h[l]);
            assert(g.flatten()[x] == h.flatten()[x]);
        } else {
            let l = g.len() - 1;
            let p = x - h.flatten().len();
            assert(g.take(l) =~= h);
            assert(g.flatten()[x] == g[l][p]);
        }
    }
}

/// Place `p` of group `l` lands at its group's offset plus `p` in the flattened list.
pub(crate) proof fn lemma_flatten_index(g: Seq<Seq<int>>, l: int, p: int)
    requires
        0 <= l < g.len(),
        0 <= p < g[l].len(),
    ensures
        g.take(l).flatten().len() + p < g.flatten().len(),
        g.flatten()[g.take(l).flatten().len() + p] == g[l][p],
{
    assert(g.take(l + 1) =~= g.take(l).push(g[l]));
    g.take(l).lemma_flatten_push(g[l]);
    lemma_prefix_flatten_len(g, l + 1, g.len() as int);
    assert(g.take(g.len() as int) =~= g);
    lemma_flatten_prefix(g, l + 1);
    let x = g.take(l).flatten().len() + p;
    assert(g.take(l + 1).flatten() == g.take(l).flatten() + g[l]);
    assert(g.take(l + 1).flatten()[x] == g[l][p]);
    assert(g.flatten().take(g.take(l + 1).flatten().len() as int)[x] == g.flatten()[x]);
}

/// A prefix of the groups flattens to a prefix of the flattened list.
proof fn lemma_flatten_prefix(g: Seq<Seq<int>>, n: int)
    requires
        0 <= n <= g.len(),
    ensures
        g.take(n).flatten() == g.flatten().take(g.take(n).flatten().len() as int),
    decreases g.len() - n,
{
    if n == g.len() {
        assert(g.take(n) =~= g);
        assert(g.flatten().take(g.flatten().len() as int) =~= g.flatten());
    } else {
        lemma_flatten_prefix(g, n + 1);
        assert(g.take(n + 1) =~= g.take(n).push(g[n]));
        g.take(n).lemma_flatten_push(g[n]);
        let a = g.take(n).flatten();
        let b = g.take(n + 1).flatten();
        assert(b == a + g[n]);
        assert(a =~= b.take(a.len() as int));
        assert(b == g.flatten().take(b.len() as int));
        lemma_prefix_flatten_len(g, n + 1, g.len() as int);
        assert(g.take(g.len() as int) =~= g);
        assert(a.len() <= b.len() <= g.flatten().len());
        assert(g.flatten().take(b.len() as int).take(a.len() as int) =~= g.flatten().take(a.len() as int));
    }
}

/// No package stands in two places of the loops: each group lists its members once, and two
/// groups share none, since ordering is transitive.
pub(crate) proof fn lemma_loops_are_disjoint(
    packages: Seq<Package>,
    enabled: Seq<bool>,
    e: crate::package::edges::OrderEdgesView,
    order: Seq<int>,
    loops: Seq<Seq<int>>,
)
    requires
        groups_loops(packages, enabled, e.ordered, order, loops),
        e.ordered == crate::package::edges::closure_of(crate::package::edges::pairs_of(e.edges)),
    ensures
        loops.flatten().no_duplicates(),
{
    assert forall|x: int, y: int| 0 <= x < loops.flatten().len() && 0 <= y < loops.flatten().len() && x != y implies loops.flatten()[x]
        != loops.flatten()[y] by {
        lemma_flatten_at(loops, x);
        lemma_flatten_at(loops, y);
        let (l, p) = choose|l: int, p: int|
            0 <= l < loops.len() && 0 <= p < loops[l].len() && x == loops.take(l).flatten().len() + p && #[trigger] loops.flatten()[x]
                == loops[l][p];
        let (m, q) = choose|m: int, q: int|
            0 <= m < loops.len() && 0 <= q < loops[m].len() && y == loops.take(m).flatten().len() + q && #[trigger] loops.flatten()[y]
                == loops[m][q];
        if loops.flatten()[x] == loops.flatten()[y] {
            let v = loops[l][p];
            if l == m {
                assert(p != q);
                if p < q {
                    assert(loops[l][p] < loops[l][q]);
                } else {
                    assert(loops[l][q] < loops[l][p]);
                }
            } else {
                let a = loops[l][0];
                let b = loops[m][0];
                assert(loops[l].len() > 0 && loops[m].len() > 0);
                assert(looping(packages, enabled, e.ordered, order, loops[l][p]) && mutual(packages, e.ordered, loops[l][0], loops[l][p]));
                assert(looping(packages, enabled, e.ordered, order, loops[m][q]) && mutual(packages, e.ordered, loops[m][0], loops[m][q]));
                assert(looping(packages, enabled, e.ordered, order, loops[m][0]) && mutual(packages, e.ordered, loops[m][0], loops[m][0]));
                assert(looping(packages, enabled, e.ordered, order, loops[l][0]) && mutual(packages, e.ordered, loops[l][0], loops[l][0]));
                crate::package::edges::lemma_ordered_transitive(e, id_of(packages, a), id_of(packages, v), id_of(packages, b));
                crate::package::edges::lemma_ordered_transitive(e, id_of(packages, b), id_of(packages, v), id_of(packages, a));
                assert(mutual(packages, e.ordered, a, b));
                assert(mutual(packages, e.ordered, b, a));
                assert(loops[l].contains(b));
                assert(loops[m].contains(a));
                let pb = choose|pb: int| 0 <= pb < loops[l].len() && loops[l][pb] == b;
                let pa = choose|pa: int| 0 <= pa < loops[m].len() && loops[m][pa] == a;
                if pb > 0 {
                    assert(loops[l][0] < loops[l][pb]);
                }
                if pa > 0 {
                    assert(loops[m][0] < loops[m][pa]);
                }
                if l < m {
                    assert(loops[l][0] < loops[m][0]);
                } else {
                    assert(loops[m][0] < loops[l][0]);
                }
            }
        }
    }
}

/// The packages left out of the load order that are ordered before package `v`.
pub open spec fn stuck_before(packages: Seq<Package>, enabled: Seq<bool>, ordered: Pairs, order: Seq<int>, v: int) -> Set<int> {
    Set::new(|u: int| stuck(packages, enabled, order, u) && ordered.contains((id_of(packages, u), id_of(packages, v))))
}

/// Whatever the load order leaves out has a package on a loop ordered before it, or is on one.
proof fn lemma_a_loop_is_ahead(
    packages: Seq<Package>,
    enabled: Seq<bool>,
    e: crate::package::edges::OrderEdgesView,
    order: Seq<int>,
    v: int,
)
    requires
        enabled.len() == packages.len(),
        crate::package::order::is_load_order(packages, enabled, e.edges, order),
        e.ordered == closure_of(pairs_of(e.edges)),
        stuck(packages, enabled, order, v),
    ensures
        exists|m: int| #[trigger] looping(packages, enabled, e.ordered, order, m) && e.ordered.contains((id_of(packages, m), id_of(packages, v))),
    decreases stuck_before(packages, enabled, e.ordered, order, v).len(),
{
    crate::package::order::lemma_left_out_waits_on_left_out(packages, enabled, e.edges, order, v);
    let u = choose|u: int|
        0 <= u < packages.len() && enabled[u] && !order.contains(u) && #[trigger] pairs_of(e.edges).contains(
            (id_of(packages, u), id_of(packages, v)),
        );
    crate::package::edges::lemma_edge_reaches(pairs_of(e.edges), id_of(packages, u), id_of(packages, v));
    assert(e.ordered.contains((id_of(packages, u), id_of(packages, v))));
    if on_loop(packages, e.ordered, u) {
        assert(looping(packages, enabled, e.ordered, order, u));
    } else {
        let rv = stuck_before(packages, enabled, e.ordered, order, v);
        let ru = stuck_before(packages, enabled, e.ordered, order, u);
        vstd::set_lib::lemma_int_range(0, packages.len() as int);
        assert(rv.subset_of(vstd::set_lib::set_int_range(0, packages.len() as int)));
        vstd::set_lib::lemma_len_subset(rv, vstd::set_lib::set_int_range(0, packages.len() as int));
        assert(rv.contains(u));
        assert forall|w: int| ru.contains(w) implies rv.remove(u).contains(w) by {
            lemma_ordered_transitive(e, id_of(packages, w), id_of(packages, u), id_of(packages, v));
        }
        assert(ru.subset_of(rv.remove(u)));
        vstd::set_lib::lemma_len_subset(ru, rv.remove(u));
        lemma_a_loop_is_ahead(packages, enabled, e, order, u);
        let m = choose|m: int| #[trigger] looping(packages, enabled, e.ordered, order, m) && e.ordered.contains((id_of(packages, m), id_of(packages, u)));
        lemma_ordered_transitive(e, id_of(packages, m), id_of(packages, u), id_of(packages, v));
    }
}

proof fn lemma_holding_back_finds(packages: Seq<Package>, ordered: Pairs, members: Seq<Seq<char>>, v: int, j: int)
    requires
        0 <= j < members.len(),
        ordered.contains((members[j], id_of(packages, v))),
    ensures
        holding_back(packages, ordered, members, v).len() > 0,
    decreases members.len(),
{
    if j < members.len() - 1 {
        lemma_holding_back_finds(packages, ordered, members.drop_last(), v, j);
    }
}

/// No package is stuck behind a loop without a loop member ahead of it: the members a
/// behind-a-loop record names are never none.
pub proof fn lemma_behind_a_loop_names_its_loop(
    packages: Seq<Package>,
    enabled: Seq<bool>,
    e: crate::package::edges::OrderEdgesView,
    order: Seq<int>,
    loops: Seq<Seq<int>>,
    behind: Seq<int>,
    disabled: Seq<Disabled>,
    problems: Seq<Problem>,
    b: int,
)
    requires
        enabled.len() == packages.len(),
        crate::package::order::is_load_order(packages, enabled, e.edges, order),
        e.ordered == closure_of(pairs_of(e.edges)),
        stuck_reported(packages, enabled, e.edges, e.ordered, order, loops, behind, disabled, problems),
        0 <= b < behind.len(),
    ensures
        holding_back(packages, e.ordered, ids_at(packages, loops.flatten()), behind[b]).len() > 0,
        disabled[loops.flatten().len() + b].reason matches DisableReason::BehindCycle { cycle } && cycle@.len() > 0,
{
    let v = behind[b];
    assert(behind.contains(v));
    assert(behind_loop(packages, enabled, e.ordered, order, v));
    lemma_a_loop_is_ahead(packages, enabled, e, order, v);
    let m = choose|m: int| #[trigger] looping(packages, enabled, e.ordered, order, m) && e.ordered.contains((id_of(packages, m), id_of(packages, v)));
    let l = choose|l: int| 0 <= l < loops.len() && #[trigger] loops[l].contains(m);
    let p = choose|p: int| 0 <= p < loops[l].len() && loops[l][p] == m;
    lemma_flatten_index(loops, l, p);
    let j = loops.take(l).flatten().len() + p;
    assert(ids_at(packages, loops.flatten())[j] == id_of(packages, m));
    lemma_holding_back_finds(packages, e.ordered, ids_at(packages, loops.flatten()), v, j);
    assert(behind_record(packages, e.ordered, ids_at(packages, loops.flatten()), behind[b], disabled[loops.flatten().len() + b]));
}

/// A longer prefix flattens to at least as much.
proof fn lemma_prefix_flatten_len(g: Seq<Seq<int>>, a: int, b: int)
    requires
        0 <= a <= b <= g.len(),
    ensures
        g.take(a).flatten().len() <= g.take(b).flatten().len(),
    decreases b - a,
{
    if a < b {
        lemma_prefix_flatten_len(g, a, b - 1);
        assert(g.take(b) =~= g.take(b - 1).push(g[b - 1]));
        g.take(b - 1).lemma_flatten_push(g[b - 1]);
    }
}

/// Those of `members` whose ids are ordered before package `v`'s.
fn holding_back_exec(packages: &[Package], edges: &OrderEdges, members: &Vec<String>, v: usize) -> (out: Vec<String>)
    requires
        edges.well_formed(),
        v < packages@.len(),
    ensures
        views(out@) == holding_back(packages@, edges@.ordered, views(members@), v as int),
{
    let id = &packages[v].manifest.package.id;
    let ghost all = views(members@);
    let mut out: Vec<String> = Vec::new();
    let mut k: usize = 0;
    while k < members.len()
        invariant
            k <= members@.len(),
            all == views(members@),
            edges.well_formed(),
            v < packages@.len(),
            id@ == id_of(packages@, v as int),
            views(out@) == holding_back(packages@, edges@.ordered, all.take(k as int), v as int),
        decreases members@.len() - k,
    {
        proof {
            assert(all.take(k + 1).drop_last() =~= all.take(k as int));
            assert(all.take(k + 1).last() == members@[k as int]@);
        }
        if edges.ordered(members[k].as_str(), id.as_str()) {
            let ghost before = out@;
            out.push(members[k].clone());
            proof {
                assert(views(out@) =~= views(before).push(members@[k as int]@));
            }
        }
        k = k + 1;
    }
    proof {
        assert(all.take(all.len() as int) =~= all);
    }
    out
}

/// One record per package stuck behind a loop, in position order, each naming the loop members
/// that hold it back.
fn behind_records(
    packages: &[Package],
    enabled: &Vec<bool>,
    placed: &Vec<bool>,
    edges: &OrderEdges,
    members_all: &Vec<String>,
    order: Ghost<Seq<int>>,
) -> (out: (Vec<Disabled>, Ghost<Seq<int>>))
    requires
        edges.well_formed(),
        enabled@.len() == packages@.len(),
        placed@.len() == packages@.len(),
        forall|x: int| 0 <= x < packages@.len() ==> (#[trigger] placed@[x] <==> order@.contains(x)),
    ensures
        increasing(out.1@),
        forall|v: int| out.1@.contains(v) <==> behind_loop(packages@, enabled@, edges@.ordered, order@, v),
        out.0@.len() == out.1@.len(),
        forall|b: int|
            0 <= b < out.1@.len() ==> behind_record(
                packages@,
                edges@.ordered,
                views(members_all@),
                #[trigger] out.1@[b],
                out.0@[b],
            ),
{
    let ghost o = edges@.ordered;
    let n = packages.len();
    let mut disabled: Vec<Disabled> = Vec::new();
    let ghost mut behind: Seq<int> = Seq::empty();
    let mut v: usize = 0;
    while v < n
        invariant
            v <= n,
            n == packages@.len(),
            o == edges@.ordered,
            edges.well_formed(),
            enabled@.len() == n,
            placed@.len() == n,
            forall|x: int| 0 <= x < n ==> (#[trigger] placed@[x] <==> order@.contains(x)),
            increasing(behind),
            forall|k: int| 0 <= k < behind.len() ==> #[trigger] behind[k] < v,
            forall|x: int| behind.contains(x) <==> 0 <= x < v && behind_loop(packages@, enabled@, o, order@, x),
            disabled@.len() == behind.len(),
            forall|b: int|
                0 <= b < behind.len() ==> behind_record(
                    packages@,
                    o,
                    views(members_all@),
                    #[trigger] behind[b],
                    disabled@[b],
                ),
        decreases n - v,
    {
        let id = &packages[v].manifest.package.id;
        let ghost before = behind;
        let ghost before_disabled = disabled@;
        if enabled[v] && !placed[v] && !edges.ordered(id.as_str(), id.as_str()) {
            let cycle = holding_back_exec(packages, edges, members_all, v);
            disabled.push(
                Disabled {
                    id: id.clone(),
                    root: packages[v].root.clone(),
                    reason: DisableReason::BehindCycle { cycle },
                },
            );
            proof {
                behind = behind.push(v as int);
                assert forall|b: int|
                    0 <= b < behind.len() implies behind_record(
                        packages@,
                        o,
                        views(members_all@),
                        #[trigger] behind[b],
                        disabled@[b],
                    ) by {
                    if b < before.len() {
                        assert(behind[b] == before[b]);
                        assert(disabled@[b] == before_disabled[b]);
                    }
                }
            }
        }
        proof {
            assert forall|x: int| behind.contains(x) <==> 0 <= x < v + 1 && behind_loop(packages@, enabled@, o, order@, x) by {
                if behind.contains(x) && x != v {
                    let k = choose|k: int| 0 <= k < behind.len() && behind[k] == x;
                    assert(before[k] == x);
                }
                if x < v && before.contains(x) {
                    let k = choose|k: int| 0 <= k < before.len() && before[k] == x;
                    assert(behind[k] == x);
                }
                if x == v && behind_loop(packages@, enabled@, o, order@, x) {
                    assert(behind[behind.len() - 1] == x);
                }
            }
        }
        v = v + 1;
    }
    (disabled, Ghost(behind))
}

/// Everything the sort left out, reported: one problem per loop, then a record for every loop
/// member, loop by loop, then one for every package stuck behind a loop, in position order.
///
/// `loops` and `behind` say how the packages left out split; the records are stated over them.
pub(crate) fn report_stuck(
    packages: &[Package],
    enabled: &Vec<bool>,
    placed: &Vec<bool>,
    edges: &OrderEdges,
    order: Ghost<Seq<int>>,
) -> (out: (Vec<Disabled>, Vec<Problem>, Ghost<Seq<Seq<int>>>, Ghost<Seq<int>>))
    requires
        edges.well_formed(),
        edges.is_closed(),
        enabled@.len() == packages@.len(),
        placed@.len() == packages@.len(),
        forall|x: int| 0 <= x < packages@.len() ==> (#[trigger] placed@[x] <==> order@.contains(x)),
    ensures
        stuck_reported(packages@, enabled@, edges@.edges, edges@.ordered, order@, out.2@, out.3@, out.0@, out.1@),
{
    let loops = build_loops(packages, enabled, placed, edges, order);
    proof {
        let g = groups_view(loops@);
        assert forall|l: int| 0 <= l < loops@.len() implies (#[trigger] loops@[l])@.len() > 0 by {
            assert(g[l].len() > 0);
        }
    }
    let (mut disabled, problems, members_all) = loop_records(packages, edges, &loops);
    let (mut tail, behind) = behind_records(packages, enabled, placed, edges, &members_all, order);
    let ghost head = disabled@;
    let ghost rest = tail@;
    disabled.append(&mut tail);
    proof {
        assert(disabled@ == head + rest);
        let g = groups_view(loops@);
        assert forall|l: int, p: int|
            0 <= l < g.len() && 0 <= p < g[l].len() implies cycle_record(
                packages@,
                g[l],
                #[trigger] g[l][p],
                disabled@[g.take(l).flatten().len() + p],
            ) by {
            assert(g.take(l + 1) =~= g.take(l).push(g[l]));
            g.take(l).lemma_flatten_push(g[l]);
            lemma_prefix_flatten_len(g, l + 1, g.len() as int);
            assert(g.take(g.len() as int) =~= g);
        }
        assert forall|b: int|
            0 <= b < behind@.len() implies behind_record(
                packages@,
                edges@.ordered,
                ids_at(packages@, g.flatten()),
                #[trigger] behind@[b],
                disabled@[g.flatten().len() + b],
            ) by {
            assert(disabled@[g.flatten().len() + b] == rest[b]);
        }
    }
    (disabled, problems, Ghost(groups_view(loops@)), behind)
}

} // verus!
