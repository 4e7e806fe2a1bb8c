//! The topological sort: again and again the earliest ready package in the incoming order goes
//! next, so an unconstrained set comes out exactly as it went in. Whatever is never ready is on a
//! loop or behind one.
//!
//! The earliest ready package is found by a scan over the positions rather than taken from a
//! priority queue: std's `BinaryHeap` carries an allocator parameter and cannot be given a
//! specification here, and the scan is what the contracts state.

use crate::package::edges::{count_true, lemma_count_true_bounded, lemma_count_true_set, EdgeView, OrderEdges};
use crate::package::manifest::Package;
use crate::package::resolve::id_of;
use crate::text::str_eq;
use vstd::prelude::*;

verus! {

/// The position of the last live package among the first `n` whose id is `id`, or -1.
pub open spec fn slot(packages: Seq<Package>, enabled: Seq<bool>, id: Seq<char>, n: nat) -> int
    decreases n,
{
    if n == 0 {
        -1
    } else if enabled[n - 1] && id_of(packages, n - 1) == id {
        n - 1
    } else {
        slot(packages, enabled, id, (n - 1) as nat)
    }
}

/// The package an id stands for in the sort: the last live one with that id.
pub open spec fn slot_of(packages: Seq<Package>, enabled: Seq<bool>, id: Seq<char>) -> int {
    slot(packages, enabled, id, packages.len())
}

/// Package `a` must load before package `b`: an edge relates the ids they stand for.
pub open spec fn arc(packages: Seq<Package>, enabled: Seq<bool>, edges: Seq<EdgeView>, a: int, b: int) -> bool {
    &&& 0 <= a
    &&& 0 <= b
    &&& exists|k: int|
        0 <= k < edges.len() && slot_of(packages, enabled, (#[trigger] edges[k]).0) == a
            && slot_of(packages, enabled, edges[k].1) == b
}

/// Package `v` may go next after `placed`: it is live, not yet placed, and everything that must
/// load before it is.
pub open spec fn is_ready(
    packages: Seq<Package>,
    enabled: Seq<bool>,
    edges: Seq<EdgeView>,
    placed: Seq<int>,
    v: int,
) -> bool {
    &&& 0 <= v < packages.len()
    &&& enabled[v]
    &&& !placed.contains(v)
    &&& forall|u: int| #[trigger] arc(packages, enabled, edges, u, v) ==> placed.contains(u)
}

/// `order` is what placing the earliest ready package, again and again until none is ready,
/// gives.
pub open spec fn is_load_order(
    packages: Seq<Package>,
    enabled: Seq<bool>,
    edges: Seq<EdgeView>,
    order: Seq<int>,
) -> bool {
    &&& forall|t: int|
        0 <= t < order.len() ==> is_ready(packages, enabled, edges, order.take(t), #[trigger] order[t])
    &&& forall|t: int, v: int|
        #![trigger is_ready(packages, enabled, edges, order.take(t), v)]
        0 <= t < order.len() && 0 <= v < order[t] ==> !is_ready(packages, enabled, edges, order.take(t), v)
    &&& forall|v: int| !#[trigger] is_ready(packages, enabled, edges, order, v)
}

/// Positions as integers.
pub open spec fn positions(s: Seq<usize>) -> Seq<int> {
    Seq::new(s.len(), |i: int| s[i] as int)
}

proof fn lemma_slot_bounds(packages: Seq<Package>, enabled: Seq<bool>, id: Seq<char>, n: nat)
    requires
        n <= packages.len(),
        n <= enabled.len(),
    ensures
        -1 <= slot(packages, enabled, id, n) < n,
        slot(packages, enabled, id, n) >= 0 ==> enabled[slot(packages, enabled, id, n)] && id_of(
            packages,
            slot(packages, enabled, id, n),
        ) == id,
    decreases n,
{
    if n > 0 {
        lemma_slot_bounds(packages, enabled, id, (n - 1) as nat);
    }
}

/// Where `id`'s last live package is, if it has one.
fn slot_exec(packages: &[Package], enabled: &Vec<bool>, id: &String) -> (out: Option<usize>)
    requires
        enabled@.len() == packages@.len(),
    ensures
        out matches Some(i) ==> i as int == slot_of(packages@, enabled@, id@) && i < packages@.len(),
        out is None ==> slot_of(packages@, enabled@, id@) == -1,
{
    let mut k: usize = packages.len();
    while k > 0
        invariant
            k <= packages@.len(),
            enabled@.len() == packages@.len(),
            slot_of(packages@, enabled@, id@) == slot(packages@, enabled@, id@, k as nat),
        decreases k,
    {
        if enabled[k - 1] && str_eq(packages[k - 1].manifest.package.id.as_str(), id.as_str()) {
            return Some(k - 1);
        }
        k = k - 1;
    }
    None
}

/// Each edge as the pair of packages it orders.
fn arcs_of(packages: &[Package], enabled: &Vec<bool>, edges: &OrderEdges) -> (out: Vec<(usize, usize)>)
    requires
        enabled@.len() == packages@.len(),
    ensures
        forall|m: int|
            0 <= m < out@.len() ==> arc(packages@, enabled@, edges@.edges, (#[trigger] out@[m]).0 as int, out@[m].1 as int)
                && out@[m].0 < packages@.len() && out@[m].1 < packages@.len(),
        forall|a: int, b: int|
            #[trigger] arc(packages@, enabled@, edges@.edges, a, b) ==> exists|m: int|
                0 <= m < out@.len() && (#[trigger] out@[m]).0 == a && out@[m].1 == b,
{
    let ghost e = edges@.edges;
    let mut out: Vec<(usize, usize)> = Vec::new();
    let mut k: usize = 0;
    while k < edges.edge_count()
        invariant
            k <= e.len(),
            e == edges@.edges,
            enabled@.len() == packages@.len(),
            forall|m: int|
                0 <= m < out@.len() ==> arc(packages@, enabled@, e, (#[trigger] out@[m]).0 as int, out@[m].1 as int)
                    && out@[m].0 < packages@.len() && out@[m].1 < packages@.len(),
            forall|j: int|
                0 <= j < k && slot_of(packages@, enabled@, (#[trigger] e[j]).0) >= 0 && slot_of(packages@, enabled@, e[j].1)
                    >= 0 ==> exists|m: int|
                    0 <= m < out@.len() && (#[trigger] out@[m]).0 == slot_of(packages@, enabled@, e[j].0)
                        && out@[m].1 == slot_of(packages@, enabled@, e[j].1),
        decreases e.len() - k,
    {
        let edge = edges.edge(k);
        let a = slot_exec(packages, enabled, &edge.earlier);
        let b = slot_exec(packages, enabled, &edge.later);
        match (a, b) {
            (Some(a), Some(b)) => {
                let ghost before = out@;
                out.push((a, b));
                proof {
                    assert(arc(packages@, enabled@, e, a as int, b as int)) by {
                        assert(slot_of(packages@, enabled@, e[k as int].0) == a);
                    }
                    assert forall|j: int|
                        0 <= j < k + 1 && slot_of(packages@, enabled@, (#[trigger] e[j]).0) >= 0 && slot_of(
                            packages@,
                            enabled@,
                            e[j].1,
                        ) >= 0 implies exists|m: int|
                        0 <= m < out@.len() && (#[trigger] out@[m]).0 == slot_of(packages@, enabled@, e[j].0)
                            && out@[m].1 == slot_of(packages@, enabled@, e[j].1) by {
                        if j < k {
                            let m = choose|m: int|
                                0 <= m < before.len() && (#[trigger] before[m]).0 == slot_of(packages@, enabled@, e[j].0)
                                    && before[m].1 == slot_of(packages@, enabled@, e[j].1);
                            assert(out@[m] == before[m]);
                        } else {
                            assert(out@[before.len() as int] == (a, b));
                        }
                    }
                    assert forall|m: int| 0 <= m < out@.len() implies arc(
                        packages@,
                        enabled@,
                        e,
                        (#[trigger] out@[m]).0 as int,
                        out@[m].1 as int,
                    ) && out@[m].0 < packages@.len() && out@[m].1 < packages@.len() by {
                        if m < before.len() {
                            assert(out@[m] == before[m]);
                        }
                    }
                }
            },
            _ => {
                proof {
                    assert forall|j: int|
                        0 <= j < k + 1 && slot_of(packages@, enabled@, (#[trigger] e[j]).0) >= 0 && slot_of(
                            packages@,
                            enabled@,
                            e[j].1,
                        ) >= 0 implies exists|m: int|
                        0 <= m < out@.len() && (#[trigger] out@[m]).0 == slot_of(packages@, enabled@, e[j].0)
                            && out@[m].1 == slot_of(packages@, enabled@, e[j].1) by {
                        if j == k {
                            assert(false);
                        }
                    }
                }
            },
        }
        k = k + 1;
    }
    proof {
        assert forall|a: int, b: int| #[trigger] arc(packages@, enabled@, e, a, b) implies exists|m: int|
            0 <= m < out@.len() && (#[trigger] out@[m]).0 == a && out@[m].1 == b by {
            let j = choose|j: int|
                0 <= j < e.len() && slot_of(packages@, enabled@, (#[trigger] e[j]).0) == a && slot_of(
                    packages@,
                    enabled@,
                    e[j].1,
                ) == b;
            assert(slot_of(packages@, enabled@, e[j].0) >= 0);
        }
    }
    out
}

/// Whether every package that must load before `v` is placed.
fn before_placed(arcs: &Vec<(usize, usize)>, placed: &Vec<bool>, v: usize) -> (out: bool)
    requires
        forall|m: int| 0 <= m < arcs@.len() ==> (#[trigger] arcs@[m]).0 < placed@.len(),
    ensures
        out == forall|m: int| 0 <= m < arcs@.len() && (#[trigger] arcs@[m]).1 == v ==> placed@[arcs@[m].0 as int],
{
    let mut m: usize = 0;
    while m < arcs.len()
        invariant
            m <= arcs@.len(),
            forall|q: int| 0 <= q < arcs@.len() ==> (#[trigger] arcs@[q]).0 < placed@.len(),
            forall|q: int| 0 <= q < m && (#[trigger] arcs@[q]).1 == v ==> placed@[arcs@[q].0 as int],
        decreases arcs@.len() - m,
    {
        let (a, b) = arcs[m];
        if b == v && !placed[a] {
            return false;
        }
        m = m + 1;
    }
    true
}

/// Puts the live packages in load order: the earliest ready package, again and again, until
/// none is ready. What is left out is on a loop or behind one.
pub(crate) fn place(packages: &[Package], enabled: &Vec<bool>, edges: &OrderEdges) -> (out: (Vec<usize>, Vec<bool>))
    requires
        enabled@.len() == packages@.len(),
    ensures
        is_load_order(packages@, enabled@, edges@.edges, positions(out.0@)),
        out.1@.len() == packages@.len(),
        forall|v: int| 0 <= v < packages@.len() ==> (#[trigger] out.1@[v] <==> positions(out.0@).contains(v)),
{
    let ghost e = edges@.edges;
    let n = packages.len();
    let arcs = arcs_of(packages, enabled, edges);
    let mut placed: Vec<bool> = Vec::new();
    let mut j: usize = 0;
    while j < n
        invariant
            j <= n,
            placed@.len() == j,
            forall|k: int| 0 <= k < j ==> !#[trigger] placed@[k],
        decreases n - j,
    {
        placed.push(false);
        j = j + 1;
    }
    let mut order: Vec<usize> = Vec::new();
    proof {
        assert(count_true(placed@) == 0) by {
            lemma_no_true(placed@);
        }
    }
    loop
        invariant_except_break
            n == packages@.len(),
            enabled@.len() == n,
            e == edges@.edges,
            placed@.len() == n,
            order@.len() == count_true(placed@),
            order@.len() <= n,
            forall|m: int|
                0 <= m < arcs@.len() ==> arc(packages@, enabled@, e, (#[trigger] arcs@[m]).0 as int, arcs@[m].1 as int)
                    && arcs@[m].0 < n && arcs@[m].1 < n,
            forall|a: int, b: int|
                #[trigger] arc(packages@, enabled@, e, a, b) ==> exists|m: int|
                    0 <= m < arcs@.len() && (#[trigger] arcs@[m]).0 == a && arcs@[m].1 == b,
            forall|v: int| 0 <= v < n ==> (#[trigger] placed@[v] <==> positions(order@).contains(v)),
            forall|t: int|
                0 <= t < order@.len() ==> is_ready(packages@, enabled@, e, positions(order@).take(t), #[trigger] positions(order@)[t]),
            forall|t: int, v: int|
                #![trigger is_ready(packages@, enabled@, e, positions(order@).take(t), v)]
                0 <= t < order@.len() && 0 <= v < positions(order@)[t] ==> !is_ready(
                    packages@,
                    enabled@,
                    e,
                    positions(order@).take(t),
                    v,
                ),
        ensures
            is_load_order(packages@, enabled@, e, positions(order@)),
            placed@.len() == n,
            forall|v: int| 0 <= v < n ==> (#[trigger] placed@[v] <==> positions(order@).contains(v)),
        decreases n - order@.len(),
    {
        let ghost done = positions(order@);
        let mut v: usize = 0;
        let mut found: Option<usize> = None;
        while v < n
            invariant_except_break
                v <= n,
                n == packages@.len(),
                enabled@.len() == n,
                placed@.len() == n,
                found is None,
                e == edges@.edges,
                forall|m: int|
                    0 <= m < arcs@.len() ==> arc(packages@, enabled@, e, (#[trigger] arcs@[m]).0 as int, arcs@[m].1 as int)
                        && arcs@[m].0 < n && arcs@[m].1 < n,
                forall|x: int| 0 <= x < n ==> (#[trigger] placed@[x] <==> done.contains(x)),
                forall|w: int| 0 <= w < v ==> !#[trigger] is_ready(packages@, enabled@, e, done, w),
            ensures
                found matches Some(w) ==> w < n && enabled@[w as int] && !placed@[w as int] && forall|m: int|
                    0 <= m < arcs@.len() && (#[trigger] arcs@[m]).1 == w ==> placed@[arcs@[m].0 as int],
                found matches Some(w) ==> forall|x: int| 0 <= x < w ==> !#[trigger] is_ready(packages@, enabled@, e, done, x),
                found is None ==> forall|x: int| 0 <= x < n ==> !#[trigger] is_ready(packages@, enabled@, e, done, x),
            decreases n - v,
        {
            if enabled[v] && !placed[v] && before_placed(&arcs, &placed, v) {
                found = Some(v);
                break;
            }
            proof {
                if is_ready(packages@, enabled@, e, done, v as int) {
                    assert(!placed@[v as int]);
                    let m = choose|m: int| 0 <= m < arcs@.len() && (#[trigger] arcs@[m]).1 == v && !placed@[arcs@[m].0 as int];
                    assert(arc(packages@, enabled@, e, arcs@[m].0 as int, v as int));
                    assert(done.contains(arcs@[m].0 as int));
                }
            }
            v = v + 1;
        }
        match found {
            None => {
                proof {
                    assert forall|x: int| !#[trigger] is_ready(packages@, enabled@, e, done, x) by {
                        if 0 <= x < n {
                        }
                    }
                }
                break;
            },
            Some(w) => {
                proof {
                    assert(is_ready(packages@, enabled@, e, done, w as int)) by {
                        assert(!done.contains(w as int));
                        assert forall|u: int| #[trigger] arc(packages@, enabled@, e, u, w as int) implies done.contains(u) by {
                            let m = choose|m: int| 0 <= m < arcs@.len() && (#[trigger] arcs@[m]).0 == u && arcs@[m].1 == w;
                            assert(placed@[arcs@[m].0 as int]);
                        }
                    }
                    lemma_count_true_set(placed@, w as int);
                    lemma_count_true_bounded(placed@.update(w as int, true));
                }
                placed.set(w, true);
                order.push(w);
                proof {
                    let now = positions(order@);
                    assert(now =~= done.push(w as int));
                    assert(now.take(done.len() as int) =~= done);
                    assert forall|t: int| 0 <= t < done.len() implies now.take(t) =~= done.take(t) by {}
                    assert forall|v2: int| 0 <= v2 < n implies (#[trigger] placed@[v2] <==> now.contains(v2)) by {
                        if v2 == w {
                            assert(now[done.len() as int] == w);
                        } else if now.contains(v2) {
                            let t = choose|t: int| 0 <= t < now.len() && now[t] == v2;
                            assert(done[t] == v2);
                        } else if done.contains(v2) {
                            let t = choose|t: int| 0 <= t < done.len() && done[t] == v2;
                            assert(now[t] == v2);
                        }
                    }
                    assert forall|t: int| 0 <= t < order@.len() implies is_ready(
                        packages@,
                        enabled@,
                        e,
                        now.take(t),
                        #[trigger] now[t],
                    ) by {
                        if t < done.len() {
                            assert(now.take(t) == done.take(t));
                            assert(now[t] == done[t]);
                        }
                    }
                    assert forall|t: int, x: int|
                        #![trigger is_ready(packages@, enabled@, e, now.take(t), x)]
                        0 <= t < order@.len() && 0 <= x < now[t] implies !is_ready(
                            packages@,
                            enabled@,
                            e,
                            now.take(t),
                            x,
                        ) by {
                        if t < done.len() {
                            assert(now.take(t) == done.take(t));
                            assert(now[t] == done[t]);
                            assert(!is_ready(packages@, enabled@, e, done.take(t), x));
                        } else {
                            assert(now.take(t) == done);
                            assert(!is_ready(packages@, enabled@, e, done, x));
                        }
                    }
                }
            },
        }
    }
    (order, placed)
}

/// A live package the load order leaves out waits on another it leaves out: something that must
/// load before it is never placed.
pub(crate) proof fn lemma_left_out_waits_on_left_out(
    packages: Seq<Package>,
    enabled: Seq<bool>,
    edges: Seq<EdgeView>,
    order: Seq<int>,
    v: int,
)
    requires
        is_load_order(packages, enabled, edges, order),
        enabled.len() == packages.len(),
        0 <= v < packages.len(),
        enabled[v],
        !order.contains(v),
    ensures
        exists|u: int|
            0 <= u < packages.len() && enabled[u] && !order.contains(u) && #[trigger] crate::package::edges::pairs_of(edges).contains(
                (id_of(packages, u), id_of(packages, v)),
            ),
{
    assert(!is_ready(packages, enabled, edges, order, v));
    let u = choose|u: int| #[trigger] arc(packages, enabled, edges, u, v) && !order.contains(u);
    let k = choose|k: int|
        0 <= k < edges.len() && slot_of(packages, enabled, (#[trigger] edges[k]).0) == u && slot_of(packages, enabled, edges[k].1) == v;
    lemma_slot_bounds(packages, enabled, edges[k].0, packages.len());
    lemma_slot_bounds(packages, enabled, edges[k].1, packages.len());
    assert(crate::package::edges::pairs_of(edges).contains((edges[k].0, edges[k].1)));
}

/// Every package the load order names is live, and named once.
pub proof fn lemma_load_order_places_live_packages_once(
    packages: Seq<Package>,
    enabled: Seq<bool>,
    edges: Seq<EdgeView>,
    order: Seq<int>,
)
    requires
        is_load_order(packages, enabled, edges, order),
    ensures
        forall|t: int| 0 <= t < order.len() ==> 0 <= #[trigger] order[t] < packages.len() && enabled[order[t]],
        order.no_duplicates(),
{
    assert forall|t: int| 0 <= t < order.len() implies 0 <= #[trigger] order[t] < packages.len() && enabled[order[t]] by {
        assert(is_ready(packages, enabled, edges, order.take(t), order[t]));
    }
    assert forall|s: int, t: int| 0 <= s < order.len() && 0 <= t < order.len() && s != t implies order[s] != order[t] by {
        if s < t {
            assert(is_ready(packages, enabled, edges, order.take(t), order[t]));
            assert(order.take(t)[s] == order[s]);
        } else {
            assert(is_ready(packages, enabled, edges, order.take(s), order[s]));
            assert(order.take(s)[t] == order[t]);
        }
    }
}

proof fn lemma_first_difference(a: Seq<int>, b: Seq<int>, n: int)
    requires
        0 <= n <= a.len(),
        a.len() == b.len(),
        a.take(n) != b.take(n),
    ensures
        exists|t: int| 0 <= t < n && #[trigger] a[t] != b[t] && a.take(t) == b.take(t),
    decreases n,
{
    if n == 0 {
        assert(a.take(0) =~= b.take(0));
    } else if a.take(n - 1) != b.take(n - 1) {
        lemma_first_difference(a, b, n - 1);
    } else {
        if a[n - 1] == b[n - 1] {
            assert(a.take(n) =~= a.take(n - 1).push(a[n - 1]));
            assert(b.take(n) =~= b.take(n - 1).push(b[n - 1]));
        }
        assert(a[n - 1] != b[n - 1]);
    }
}

/// The load order is the least of all the orders that list the same packages, each once, with
/// every arc between two of them respected: compared position by position, any other such order
/// first differs from it with a later package. Constraints decide what they decide, and the
/// incoming order breaks every tie they leave.
pub proof fn lemma_load_order_is_the_least(
    packages: Seq<Package>,
    enabled: Seq<bool>,
    edges: Seq<EdgeView>,
    order: Seq<int>,
    other: Seq<int>,
)
    requires
        is_load_order(packages, enabled, edges, order),
        other.len() == order.len(),
        other.no_duplicates(),
        forall|v: int| #[trigger] other.contains(v) <==> order.contains(v),
        forall|s: int, t: int|
            0 <= s < other.len() && 0 <= t < other.len() && arc(packages, enabled, edges, #[trigger] other[s], #[trigger] other[t])
                ==> s < t,
    ensures
        other == order || exists|t: int|
            0 <= t < order.len() && other.take(t) == order.take(t) && #[trigger] order[t] < other[t],
{
    if other != order {
        assert(other.take(other.len() as int) =~= other);
        assert(order.take(order.len() as int) =~= order);
        lemma_first_difference(other, order, other.len() as int);
        let t = choose|t: int| 0 <= t < other.len() && #[trigger] other[t] != order[t] && other.take(t) == order.take(t);
        let u = other[t];
        let v = order[t];
        lemma_load_order_places_live_packages_once(packages, enabled, edges, order);
        assert(other.contains(u));
        assert(order.contains(u));
        let p = choose|p: int| 0 <= p < order.len() && order[p] == u;
        assert(is_ready(packages, enabled, edges, order.take(p), order[p]));
        assert(!order.take(t).contains(u)) by {
            if order.take(t).contains(u) {
                let q = choose|q: int| 0 <= q < order.take(t).len() && order.take(t)[q] == u;
                assert(other.take(t)[q] == other[q]);
                assert(other[q] == other[t]);
            }
        }
        assert forall|w: int| #[trigger] arc(packages, enabled, edges, w, u) implies order.take(t).contains(w) by {
            assert(order.take(p).contains(w));
            let q = choose|q: int| 0 <= q < order.take(p).len() && order.take(p)[q] == w;
            assert(order[q] == w);
            assert(order.contains(w));
            assert(other.contains(w));
            let s = choose|s: int| 0 <= s < other.len() && other[s] == w;
            assert(arc(packages, enabled, edges, other[s], other[t]));
            assert(other.take(t)[s] == w);
        }
        assert(is_ready(packages, enabled, edges, order.take(t), u));
        assert(is_ready(packages, enabled, edges, order.take(t), order[t]));
        if u < v {
            assert(!is_ready(packages, enabled, edges, order.take(t), u));
        }
        assert(order[t] < other[t]);
    }
}

/// Every constraint between two loaded packages holds: the package that must load first does.
pub proof fn lemma_load_order_respects_constraints(
    packages: Seq<Package>,
    enabled: Seq<bool>,
    edges: Seq<EdgeView>,
    order: Seq<int>,
    a: int,
    b: int,
)
    requires
        is_load_order(packages, enabled, edges, order),
        arc(packages, enabled, edges, a, b),
        order.contains(b),
    ensures
        exists|s: int, t: int| 0 <= s < t < order.len() && order[s] == a && order[t] == b,
{
    let t = choose|t: int| 0 <= t < order.len() && order[t] == b;
    assert(is_ready(packages, enabled, edges, order.take(t), order[t]));
    assert(order.take(t).contains(a));
    let s = choose|s: int| 0 <= s < order.take(t).len() && order.take(t)[s] == a;
    assert(order[s] == a);
}

/// With no constraint between any two packages, the load order is every live package, in the
/// order they came in.
pub proof fn lemma_unconstrained_order_is_the_incoming_one(
    packages: Seq<Package>,
    enabled: Seq<bool>,
    edges: Seq<EdgeView>,
    order: Seq<int>,
)
    requires
        is_load_order(packages, enabled, edges, order),
        enabled.len() == packages.len(),
        forall|a: int, b: int| !#[trigger] arc(packages, enabled, edges, a, b),
    ensures
        forall|s: int, t: int| 0 <= s < t < order.len() ==> #[trigger] order[s] < #[trigger] order[t],
        forall|v: int| order.contains(v) <==> 0 <= v < packages.len() && enabled[v],
{
    lemma_load_order_places_live_packages_once(packages, enabled, edges, order);
    assert forall|s: int, t: int| 0 <= s < t < order.len() implies #[trigger] order[s] < #[trigger] order[t] by {
        let v = order[t];
        assert(!order.take(s).contains(v)) by {
            if order.take(s).contains(v) {
                let q = choose|q: int| 0 <= q < order.take(s).len() && order.take(s)[q] == v;
                assert(order[q] == v);
            }
        }
        assert(is_ready(packages, enabled, edges, order.take(s), v));
        if v < order[s] {
            assert(!is_ready(packages, enabled, edges, order.take(s), v));
        }
        assert(order[s] != order[t]);
    }
    assert forall|v: int| 0 <= v < packages.len() && enabled[v] implies order.contains(v) by {
        assert(!is_ready(packages, enabled, edges, order, v));
    }
}

proof fn lemma_no_true(s: Seq<bool>)
    requires
        forall|k: int| 0 <= k < s.len() ==> !#[trigger] s[k],
    ensures
        count_true(s) == 0,
    decreases s.len(),
{
    if s.len() > 0 {
        lemma_no_true(s.drop_last());
    }
}

} // verus!
