//! Which package must load before which, and everything that follows from it.
//!
//! The edge list is kept past the sort, because a contest report has to say whether a
//! constraint ordered two packages or only the baseline did.

use crate::text::{join, joined, str_eq, string_of, text_less, text_lt, views};
use vstd::prelude::*;

verus! {

/// Who asked for one package to load before another.
#[derive(Debug, Clone, PartialEq, Eq)]
pub enum ConstraintSource {
    /// The manifest of the named package, in its `after` or `before`.
    Manifest(String),
    /// The user's load order file, which beats any manifest that disagrees.
    User,
}

impl ConstraintSource {
    /// A copy of this source.
    pub fn duplicate(&self) -> (out: ConstraintSource)
        ensures
            out == *self,
    {
        match self {
            ConstraintSource::Manifest(id) => ConstraintSource::Manifest(id.clone()),
            ConstraintSource::User => ConstraintSource::User,
        }
    }

    /// The words a report names this source with.
    pub open spec fn text(self) -> Seq<char> {
        match self {
            ConstraintSource::Manifest(id) => id@ + "'s manifest"@,
            ConstraintSource::User => "the user's load order"@,
        }
    }

    /// Executable [`ConstraintSource::text`].
    pub fn describe(&self) -> (out: String)
        ensures
            out@ == self.text(),
    {
        match self {
            ConstraintSource::Manifest(id) => {
                let mut out = id.clone();
                out.append("'s manifest");
                out
            },
            ConstraintSource::User => String::from_str("the user's load order"),
        }
    }
}

/// One `earlier -> later` constraint and who wrote it.
#[derive(Debug, Clone)]
pub struct Edge {
    pub earlier: String,
    pub later: String,
    pub source: ConstraintSource,
}

/// A set of ordered pairs of package ids.
pub type Pairs = Set<(Seq<char>, Seq<char>)>;

/// Every set that holds `from`'s successors and is closed under `edges` holds `to`: `to` is
/// reached from `from` by a chain of one or more edges.
pub open spec fn reaches(edges: Pairs, from: Seq<char>, to: Seq<char>) -> bool {
    forall|s: Set<Seq<char>>| #[trigger] holds_successors(edges, from, s) && closed_under(edges, s)
        ==> s.contains(to)
}

/// `s` holds every id that `from` has an edge to.
pub open spec fn holds_successors(edges: Pairs, from: Seq<char>, s: Set<Seq<char>>) -> bool {
    forall|y: Seq<char>| #[trigger] edges.contains((from, y)) ==> s.contains(y)
}

/// `s` holds every id that one of its members has an edge to.
pub open spec fn closed_under(edges: Pairs, s: Set<Seq<char>>) -> bool {
    forall|x: Seq<char>, y: Seq<char>| #![trigger edges.contains((x, y)), s.contains(x)]
        s.contains(x) && edges.contains((x, y)) ==> s.contains(y)
}

/// One edge leads to what it points at.
pub proof fn lemma_edge_reaches(edges: Pairs, from: Seq<char>, to: Seq<char>)
    requires
        edges.contains((from, to)),
    ensures
        reaches(edges, from, to),
{
    assert forall|s: Set<Seq<char>>| #[trigger] holds_successors(edges, from, s) && closed_under(
        edges,
        s,
    ) implies s.contains(to) by {
        assert(edges.contains((from, to)));
    }
}

/// A chain extended by one edge is still a chain.
pub proof fn lemma_reaches_step(edges: Pairs, from: Seq<char>, mid: Seq<char>, to: Seq<char>)
    requires
        reaches(edges, from, mid),
        edges.contains((mid, to)),
    ensures
        reaches(edges, from, to),
{
    assert forall|s: Set<Seq<char>>| #[trigger] holds_successors(edges, from, s) && closed_under(
        edges,
        s,
    ) implies s.contains(to) by {
        assert(s.contains(mid));
        assert(edges.contains((mid, to)) && s.contains(mid));
    }
}

/// Two chains joined end to end are a chain: reaching is transitive.
pub proof fn lemma_reaches_transitive(
    edges: Pairs,
    a: Seq<char>,
    b: Seq<char>,
    c: Seq<char>,
)
    requires
        reaches(edges, a, b),
        reaches(edges, b, c),
    ensures
        reaches(edges, a, c),
{
    assert forall|s: Set<Seq<char>>| #[trigger] holds_successors(edges, a, s) && closed_under(
        edges,
        s,
    ) implies s.contains(c) by {
        assert(s.contains(b));
        assert forall|y: Seq<char>| #[trigger] edges.contains((b, y)) implies s.contains(y) by {
            assert(edges.contains((b, y)) && s.contains(b));
        }
        assert(holds_successors(edges, b, s));
    }
}

/// `c` is a chain of one or more edges: each id in it has an edge to the next.
pub open spec fn is_chain(edges: Pairs, c: Seq<Seq<char>>) -> bool {
    &&& c.len() >= 2
    &&& forall|t: int| 0 <= t < c.len() - 1 ==> edges.contains((#[trigger] c[t], c[t + 1]))
}

/// Some chain of one or more edges leads from `from` to `to`.
pub open spec fn chained(edges: Pairs, from: Seq<char>, to: Seq<char>) -> bool {
    exists|c: Seq<Seq<char>>| #[trigger] is_chain(edges, c) && c[0] == from && c.last() == to
}

proof fn lemma_chain_reaches(edges: Pairs, c: Seq<Seq<char>>)
    requires
        is_chain(edges, c),
    ensures
        reaches(edges, c[0], c.last()),
    decreases c.len(),
{
    if c.len() == 2 {
        assert(edges.contains((c[0], c[1])));
        lemma_edge_reaches(edges, c[0], c[1]);
    } else {
        let d = c.drop_last();
        assert forall|t: int| 0 <= t < d.len() - 1 implies edges.contains((#[trigger] d[t], d[t + 1])) by {
            assert(edges.contains((c[t], c[t + 1])));
        }
        lemma_chain_reaches(edges, d);
        assert(edges.contains((c[c.len() - 2], c[c.len() - 1])));
        lemma_reaches_step(edges, c[0], d.last(), c.last());
    }
}

/// The ids a chain leads to from `from`.
pub open spec fn chained_from(edges: Pairs, from: Seq<char>) -> Set<Seq<char>> {
    Set::new(|y: Seq<char>| chained(edges, from, y))
}

proof fn lemma_chained_holds_successors(edges: Pairs, from: Seq<char>)
    ensures
        holds_successors(edges, from, chained_from(edges, from)),
{
    assert forall|y: Seq<char>| #[trigger] edges.contains((from, y)) implies chained_from(edges, from).contains(y) by {
        let c = seq![from, y];
        assert(c[0] == from && c[1] == y);
        assert(is_chain(edges, c));
    }
}

proof fn lemma_chained_closed(edges: Pairs, from: Seq<char>)
    ensures
        closed_under(edges, chained_from(edges, from)),
{
    let s = chained_from(edges, from);
    assert forall|x: Seq<char>, y: Seq<char>| #![trigger edges.contains((x, y)), s.contains(x)]
        s.contains(x) && edges.contains((x, y)) implies s.contains(y) by {
        let c = choose|c: Seq<Seq<char>>| #[trigger] is_chain(edges, c) && c[0] == from && c.last() == x;
        let c2 = c.push(y);
        assert forall|t: int| 0 <= t < c2.len() - 1 implies edges.contains((#[trigger] c2[t], c2[t + 1])) by {
            if t < c.len() - 1 {
                assert(c2[t] == c[t] && c2[t + 1] == c[t + 1]);
            } else {
                assert(c2[t] == x && c2[t + 1] == y);
            }
        }
        assert(is_chain(edges, c2) && c2[0] == from && c2.last() == y);
    }
}

/// Reaching is following edges: `to` is reached from `from` exactly when a chain of one or more
/// edges leads there. So an id is ordered before itself exactly when it lies on a loop.
pub proof fn lemma_reaches_is_chained(edges: Pairs, from: Seq<char>, to: Seq<char>)
    ensures
        reaches(edges, from, to) <==> chained(edges, from, to),
{
    if chained(edges, from, to) {
        let c = choose|c: Seq<Seq<char>>| #[trigger] is_chain(edges, c) && c[0] == from && c.last() == to;
        lemma_chain_reaches(edges, c);
    }
    if reaches(edges, from, to) {
        lemma_chained_holds_successors(edges, from);
        lemma_chained_closed(edges, from);
        assert(chained_from(edges, from).contains(to));
    }
}

/// An id with no outgoing edge reaches nothing.
pub proof fn lemma_no_successor_reaches_nothing(edges: Pairs, from: Seq<char>, to: Seq<char>)
    requires
        forall|y: Seq<char>| !edges.contains((from, y)),
    ensures
        !reaches(edges, from, to),
{
    let s = Set::<Seq<char>>::empty();
    assert(holds_successors(edges, from, s));
    assert(closed_under(edges, s));
}

/// Only an id some edge points at can be reached.
pub proof fn lemma_only_targets_are_reached(edges: Pairs, from: Seq<char>, to: Seq<char>)
    requires
        forall|x: Seq<char>| !edges.contains((x, to)),
    ensures
        !reaches(edges, from, to),
{
    let s = Set::new(|y: Seq<char>| exists|x: Seq<char>| #[trigger] edges.contains((x, y)));
    assert forall|y: Seq<char>| #[trigger] edges.contains((from, y)) implies s.contains(y) by {
        assert(edges.contains((from, y)));
    }
    assert(holds_successors(edges, from, s));
    assert forall|x: Seq<char>, y: Seq<char>| s.contains(x) && #[trigger] edges.contains((x, y))
        implies s.contains(y) by {
        assert(edges.contains((x, y)));
    }
    assert(closed_under(edges, s));
    assert(!s.contains(to));
}


/// The contract view of a list of edges.
pub open spec fn edge_views(edges: Seq<Edge>) -> Seq<EdgeView> {
    Seq::new(edges.len(), |i: int| (edges[i].earlier@, edges[i].later@, edges[i].source))
}

/// The ids an edge list relates, as pairs.
pub open spec fn pairs_of(edges: Seq<EdgeView>) -> Pairs {
    Set::new(
        |p: (Seq<char>, Seq<char>)|
            exists|i: int| 0 <= i < edges.len() && #[trigger] edges[i].0 == p.0 && edges[i].1 == p.1,
    )
}

/// Every pair `(a, b)` such that `a` reaches `b` over `edges`.
pub open spec fn closure_of(edges: Pairs) -> Pairs {
    Set::new(|p: (Seq<char>, Seq<char>)| reaches(edges, p.0, p.1))
}

/// No pair appears twice in the list.
pub open spec fn distinct_pairs(edges: Seq<EdgeView>) -> bool {
    forall|i: int, j: int|
        0 <= i < edges.len() && 0 <= j < edges.len() && i != j && #[trigger] edges[i].0
            == #[trigger] edges[j].0 ==> edges[i].1 != edges[j].1
}

/// One edge, as the contracts see it: earlier, later, and who said so.
pub type EdgeView = (Seq<char>, Seq<char>, ConstraintSource);

/// What an [`OrderEdges`] holds: its edges, and the pairs it answers `ordered` for.
pub struct OrderEdgesView {
    pub edges: Seq<EdgeView>,
    pub ordered: Pairs,
}

/// The storage behind [`OrderEdges`]: the edges, and the closure over their ids.
///
/// The edges are a list kept sorted by earlier id, then later id, which is the order an ordered
/// map keyed by the pair would give them in; the closure is a matrix over the distinct ids. Std's
/// ordered maps and sets keyed by `String` carry no specification a contract could rest on.
#[derive(Debug, Clone)]
struct EdgeGraph {
    edges: Vec<Edge>,
    /// The ids the closure was computed over, each once.
    nodes: Vec<String>,
    /// `reach[i][j]`: `nodes[i]` reaches `nodes[j]`.
    reach: Vec<Vec<bool>>,
}

impl View for EdgeGraph {
    type V = OrderEdgesView;

    closed spec fn view(&self) -> OrderEdgesView {
        OrderEdgesView {
            edges: Seq::new(
                self.edges@.len(),
                |i: int|
                    (self.edges@[i].earlier@, self.edges@[i].later@, self.edges@[i].source),
            ),
            ordered: Set::new(
                |p: (Seq<char>, Seq<char>)|
                    exists|i: int, j: int|
                        0 <= i < self.nodes@.len() && 0 <= j < self.nodes@.len()
                            && #[trigger] self.nodes@[i]@ == p.0 && #[trigger] self.nodes@[j]@
                            == p.1 && i < self.reach@.len() && j < self.reach@[i]@.len()
                            && self.reach@[i]@[j],
            ),
        }
    }
}

impl EdgeGraph {
    /// Shape of the stored closure: one row per node, one column per node, each node once.
    closed spec fn well_formed(&self) -> bool {
        &&& self.reach@.len() == self.nodes@.len()
        &&& forall|i: int| 0 <= i < self.reach@.len() ==> #[trigger] self.reach@[i]@.len() == self.nodes@.len()
        &&& forall|i: int, j: int|
            0 <= i < self.nodes@.len() && 0 <= j < self.nodes@.len() && i != j
                ==> #[trigger] self.nodes@[i]@ != #[trigger] self.nodes@[j]@
    }

    /// The stored pairs are exactly the closure of the stored edges.
    spec fn is_closed(&self) -> bool {
        self@.ordered == closure_of(pairs_of(self@.edges))
    }

    /// No edges, nothing ordered.
    fn new() -> (out: EdgeGraph)
        ensures
            out@.edges == Seq::<EdgeView>::empty(),
            out@.ordered == Set::<(Seq<char>, Seq<char>)>::empty(),
            out.well_formed(),
    {
        let out = EdgeGraph { edges: Vec::new(), nodes: Vec::new(), reach: Vec::new() };
        proof {
            assert(out@.edges =~= Seq::<EdgeView>::empty());
            assert(out@.ordered =~= Set::<(Seq<char>, Seq<char>)>::empty());
        }
        out
    }

    /// The constraint that directly orders `earlier` before `later`, if one does.
    fn direct(&self, earlier: &str, later: &str) -> (out: Option<&ConstraintSource>)
        requires
            distinct_pairs(self@.edges),
        ensures
            out is None <==> !pairs_of(self@.edges).contains((earlier@, later@)),
            out matches Some(source) ==> exists|i: int|
                0 <= i < self@.edges.len() && #[trigger] self@.edges[i] == (earlier@, later@, *source),
    {
        let mut i: usize = 0;
        while i < self.edges.len()
            invariant
                i <= self.edges.len(),
                forall|k: int|
                    0 <= k < i ==> !(#[trigger] self@.edges[k].0 == earlier@ && self@.edges[k].1
                        == later@),
            decreases self.edges.len() - i,
        {
            let edge = &self.edges[i];
            if str_eq(edge.earlier.as_str(), earlier) && str_eq(edge.later.as_str(), later) {
                proof {
                    assert(self@.edges[i as int].0 == earlier@ && self@.edges[i as int].1 == later@);
                }
                return Some(&edge.source);
            }
            i = i + 1;
        }
        proof {
            if pairs_of(self@.edges).contains((earlier@, later@)) {
                let k = choose|k: int|
                    0 <= k < self@.edges.len() && #[trigger] self@.edges[k].0 == earlier@
                        && self@.edges[k].1 == later@;
                assert(self@.edges[k].0 == earlier@);
            }
        }
        None
    }

    /// Whether anything at all orders `earlier` before `later`, directly or through a chain.
    fn ordered(&self, earlier: &str, later: &str) -> (out: bool)
        requires
            self.well_formed(),
        ensures
            out == self@.ordered.contains((earlier@, later@)),
    {
        let from = index_of_node(&self.nodes, earlier);
        let to = index_of_node(&self.nodes, later);
        match (from, to) {
            (Some(i), Some(j)) => {
                let out = self.reach[i][j];
                proof {
                    if !out {
                        if self@.ordered.contains((earlier@, later@)) {
                            let (a, b) = choose|a: int, b: int|
                                0 <= a < self.nodes@.len() && 0 <= b < self.nodes@.len()
                                    && #[trigger] self.nodes@[a]@ == earlier@
                                    && #[trigger] self.nodes@[b]@ == later@ && a < self.reach@.len()
                                    && b < self.reach@[a]@.len() && self.reach@[a]@[b];
                            assert(a == i && b == j);
                        }
                    }
                }
                out
            },
            _ => {
                proof {
                    if self@.ordered.contains((earlier@, later@)) {
                        let (a, b) = choose|a: int, b: int|
                            0 <= a < self.nodes@.len() && 0 <= b < self.nodes@.len()
                                && #[trigger] self.nodes@[a]@ == earlier@ && #[trigger] self.nodes@[b]@
                                == later@ && a < self.reach@.len() && b < self.reach@[a]@.len()
                                && self.reach@[a]@[b];
                        assert(self.nodes@[a]@ == earlier@);
                        assert(self.nodes@[b]@ == later@);
                    }
                }
                false
            },
        }
    }
}

/// `e` is in `all[..n]`, and no later entry of `all[..n]` has `e`'s pair: the source `e`
/// carries is the last one given for it.
pub open spec fn last_of_its_pair(all: Seq<EdgeView>, n: int, e: EdgeView) -> bool {
    exists|w: int|
        0 <= w < n && #[trigger] all[w] == e && forall|v: int|
            w < v < n ==> !(#[trigger] all[v].0 == e.0 && all[v].1 == e.1)
}

impl EdgeGraph {
    /// How many edges are stored.
    fn edge_count(&self) -> (out: usize)
        ensures
            out == self@.edges.len(),
    {
        self.edges.len()
    }

    /// The stored edge at position `k`.
    fn edge(&self, k: usize) -> (out: &Edge)
        requires
            k < self@.edges.len(),
        ensures
            (out.earlier@, out.later@, out.source) == self@.edges[k as int],
    {
        &self.edges[k]
    }
}

/// The words a loop report gives one edge: `{later} after {earlier} [{source}]`.
pub open spec fn edge_text(e: EdgeView) -> Seq<char> {
    e.1 + " after "@ + e.0 + " ["@ + e.2.text() + "]"@
}

/// Whether edge `a` sorts before edge `b`: by the earlier package's id, then by the later one's.
pub open spec fn pair_before(a: EdgeView, b: EdgeView) -> bool {
    text_lt(a.0, b.0) || (a.0 == b.0 && text_lt(a.1, b.1))
}

/// `sorted` with `e` put before the first edge it sorts before.
pub open spec fn insert_edge(sorted: Seq<EdgeView>, e: EdgeView) -> Seq<EdgeView>
    decreases sorted.len(),
{
    if sorted.len() == 0 {
        seq![e]
    } else if pair_before(e, sorted[0]) {
        seq![e] + sorted
    } else {
        seq![sorted[0]] + insert_edge(sorted.drop_first(), e)
    }
}

/// The edges among `edges` that run between two of `members`, sorted by earlier id, then later.
pub open spec fn loop_edges(edges: Seq<EdgeView>, members: Seq<Seq<char>>) -> Seq<EdgeView>
    decreases edges.len(),
{
    if edges.len() == 0 {
        Seq::empty()
    } else {
        let rest = loop_edges(edges.drop_last(), members);
        let e = edges.last();
        if members.contains(e.0) && members.contains(e.1) {
            insert_edge(rest, e)
        } else {
            rest
        }
    }
}

/// The edges among `edges` that run between two of `members`, sorted by earlier id and then
/// later, as words.
pub open spec fn loop_parts(edges: Seq<EdgeView>, members: Seq<Seq<char>>) -> Seq<Seq<char>> {
    loop_edges(edges, members).map_values(|e: EdgeView| edge_text(e))
}

/// Inserting before the first edge that `e` sorts before is what [`insert_edge`] does.
proof fn lemma_insert_edge_at(sorted: Seq<EdgeView>, e: EdgeView, p: int)
    requires
        0 <= p <= sorted.len(),
        forall|j: int| 0 <= j < p ==> !pair_before(e, #[trigger] sorted[j]),
        p < sorted.len() ==> pair_before(e, sorted[p]),
    ensures
        insert_edge(sorted, e) == sorted.insert(p, e),
    decreases sorted.len(),
{
    if sorted.len() == 0 {
        assert(sorted.insert(p, e) =~= seq![e]);
    } else if p == 0 {
        assert(sorted.insert(0, e) =~= seq![e] + sorted);
    } else {
        assert(!pair_before(e, sorted[0]));
        let rest = sorted.drop_first();
        assert forall|j: int| 0 <= j < p - 1 implies !pair_before(e, #[trigger] rest[j]) by {
            assert(rest[j] == sorted[j + 1]);
        }
        lemma_insert_edge_at(rest, e, p - 1);
        assert(sorted.insert(p, e) =~= seq![sorted[0]] + rest.insert(p - 1, e));
    }
}

/// Whether the edge with ids `a0 -> a1` sorts before the one with ids `b0 -> b1`.
fn pair_less(a0: &str, a1: &str, b0: &str, b1: &str) -> (out: bool)
    ensures
        out == (text_lt(a0@, b0@) || (a0@ == b0@ && text_lt(a1@, b1@))),
{
    if text_less(a0, b0) {
        true
    } else if str_eq(a0, b0) {
        text_less(a1, b1)
    } else {
        false
    }
}

/// Whether `id` is one of `list`.
pub fn contains_id(list: &Vec<String>, id: &str) -> (out: bool)
    ensures
        out == views(list@).contains(id@),
{
    let mut k: usize = 0;
    while k < list.len()
        invariant
            k <= list@.len(),
            forall|j: int| 0 <= j < k ==> #[trigger] list@[j]@ != id@,
        decreases list@.len() - k,
    {
        if str_eq(list[k].as_str(), id) {
            proof {
                assert(views(list@)[k as int] == id@);
            }
            return true;
        }
        k = k + 1;
    }
    proof {
        if views(list@).contains(id@) {
            let j = choose|j: int| 0 <= j < views(list@).len() && views(list@)[j] == id@;
            assert(list@[j]@ == id@);
        }
    }
    false
}

impl EdgeGraph {
    /// The constraints running between the members of one loop, each with whoever wrote it,
    /// separated by `, `. The source is the half that points at the file to edit.
    fn describe_loop(&self, members: &Vec<String>) -> (out: String)
        ensures
            out@ == joined(loop_parts(self@.edges, views(members@)), ", "@),
    {
        let ghost all = self@.edges;
        let ghost ids = views(members@);
        let mut chosen: Vec<usize> = Vec::new();
        let mut k: usize = 0;
        while k < self.edges.len()
            invariant
                k <= all.len(),
                all == self@.edges,
                ids == views(members@),
                forall|j: int| 0 <= j < chosen@.len() ==> #[trigger] chosen@[j] < all.len(),
                chosen@.map_values(|c: usize| all[c as int]) == loop_edges(all.take(k as int), ids),
            decreases all.len() - k,
        {
            let edge = &self.edges[k];
            proof {
                assert(all.take(k + 1).drop_last() =~= all.take(k as int));
                assert(all.take(k + 1).last() == all[k as int]);
                assert(all[k as int] == (edge.earlier@, edge.later@, edge.source));
            }
            if contains_id(members, edge.earlier.as_str()) && contains_id(members, edge.later.as_str()) {
                let ghost sorted = chosen@.map_values(|c: usize| all[c as int]);
                let mut p: usize = 0;
                while p < chosen.len() && !pair_less(
                    edge.earlier.as_str(),
                    edge.later.as_str(),
                    self.edges[chosen[p]].earlier.as_str(),
                    self.edges[chosen[p]].later.as_str(),
                )
                    invariant
                        p <= chosen@.len(),
                        k < all.len(),
                        all == self@.edges,
                        edge == &self.edges@[k as int],
                        sorted == chosen@.map_values(|c: usize| all[c as int]),
                        forall|j: int| 0 <= j < chosen@.len() ==> #[trigger] chosen@[j] < all.len(),
                        forall|j: int| 0 <= j < p ==> !pair_before(all[k as int], #[trigger] sorted[j]),
                    decreases chosen@.len() - p,
                {
                    proof {
                        let c = chosen@[p as int];
                        assert(sorted[p as int] == all[c as int]);
                        assert(all[c as int] == (self.edges@[c as int].earlier@, self.edges@[c as int].later@, self.edges@[c as int].source));
                    }
                    p = p + 1;
                }
                proof {
                    if p < chosen@.len() {
                        let c = chosen@[p as int];
                        assert(sorted[p as int] == all[c as int]);
                        assert(all[c as int] == (self.edges@[c as int].earlier@, self.edges@[c as int].later@, self.edges@[c as int].source));
                    }
                    lemma_insert_edge_at(sorted, all[k as int], p as int);
                }
                chosen.insert(p, k);
                proof {
                    assert(chosen@.map_values(|c: usize| all[c as int]) =~= sorted.insert(p as int, all[k as int]));
                }
            }
            k = k + 1;
        }
        proof {
            assert(all.take(all.len() as int) =~= all);
        }
        let ghost picked = chosen@.map_values(|c: usize| all[c as int]);
        let mut parts: Vec<String> = Vec::new();
        let mut q: usize = 0;
        while q < chosen.len()
            invariant
                q <= chosen@.len(),
                all == self@.edges,
                picked == chosen@.map_values(|c: usize| all[c as int]),
                forall|j: int| 0 <= j < chosen@.len() ==> #[trigger] chosen@[j] < all.len(),
                views(parts@) == picked.take(q as int).map_values(|e: EdgeView| edge_text(e)),
            decreases chosen@.len() - q,
        {
            let edge = &self.edges[chosen[q]];
            let mut part = edge.later.clone();
            part.append(" after ");
            part.append(edge.earlier.as_str());
            part.append(" [");
            let source = edge.source.describe();
            part.append(source.as_str());
            part.append("]");
            let ghost before = parts@;
            parts.push(part);
            proof {
                let c = chosen@[q as int];
                assert(picked[q as int] == all[c as int]);
                assert(all[c as int] == (self.edges@[c as int].earlier@, self.edges@[c as int].later@, self.edges@[c as int].source));
                assert(views(parts@) =~= views(before).push(edge_text(picked[q as int])));
                assert(picked.take(q + 1).map_values(|e: EdgeView| edge_text(e)) =~= picked.take(q as int).map_values(
                    |e: EdgeView| edge_text(e),
                ).push(edge_text(picked[q as int])));
            }
            q = q + 1;
        }
        proof {
            assert(picked.take(chosen@.len() as int) =~= picked);
        }
        join(&parts, ", ")
    }
}

/// Where the ordered pairs are the closure of the edges, ordering is transitive: a chain of
/// two orderings is an ordering.
pub proof fn lemma_ordered_transitive(
    e: OrderEdgesView,
    a: Seq<char>,
    b: Seq<char>,
    c: Seq<char>,
)
    requires
        e.ordered == closure_of(pairs_of(e.edges)),
        e.ordered.contains((a, b)),
        e.ordered.contains((b, c)),
    ensures
        e.ordered.contains((a, c)),
{
    lemma_reaches_transitive(pairs_of(e.edges), a, b, c);
}

/// Which package must load before which, after the user has overruled whatever they disagreed
/// with, and (once closed) every pair a chain of such constraints orders.
#[derive(Debug)]
pub struct OrderEdges {
    graph: EdgeGraph,
}

impl View for OrderEdges {
    type V = OrderEdgesView;

    closed spec fn view(&self) -> OrderEdgesView {
        self.graph@
    }
}

impl OrderEdges {
    /// Each pair is stored once, and the closure's shape fits its ids.
    #[verifier::type_invariant]
    pub(crate) closed spec fn consistent(self) -> bool {
        self.graph.well_formed() && distinct_pairs(self.graph@.edges)
    }

    /// What the invariant says, as the contracts see it.
    pub(crate) proof fn lemma_consistent(e: OrderEdges)
        requires
            e.consistent(),
        ensures
            e.well_formed(),
            distinct_pairs(e@.edges),
    {
    }

    /// Shape of the stored closure: one row per id, one column per id, each id once.
    pub closed spec fn well_formed(&self) -> bool {
        self.graph.well_formed()
    }

    /// The stored pairs are exactly the closure of the stored edges.
    pub open spec fn is_closed(&self) -> bool {
        self@.ordered == closure_of(pairs_of(self@.edges))
    }

    /// Takes the storage out, leaving an empty one in its place.
    fn take(&mut self) -> (out: EdgeGraph)
        ensures
            out@ == old(self)@,
            out.well_formed(),
            distinct_pairs(out@.edges),
    {
        proof {
            use_type_invariant(&*self);
        }
        let mut graph = EdgeGraph::new();
        std::mem::swap(&mut graph, &mut self.graph);
        graph
    }

    /// No edges, nothing ordered.
    pub fn new() -> (out: OrderEdges)
        ensures
            out@.edges == Seq::<EdgeView>::empty(),
            out@.ordered == Set::<(Seq<char>, Seq<char>)>::empty(),
            out.well_formed(),
    {
        OrderEdges { graph: EdgeGraph::new() }
    }

    /// The constraint that directly orders `earlier` before `later`, if one does.
    pub fn direct(&self, earlier: &str, later: &str) -> (out: Option<&ConstraintSource>)
        ensures
            distinct_pairs(self@.edges),
            out is None <==> !pairs_of(self@.edges).contains((earlier@, later@)),
            out matches Some(source) ==> exists|i: int|
                0 <= i < self@.edges.len() && #[trigger] self@.edges[i] == (earlier@, later@, *source),
    {
        proof {
            use_type_invariant(self);
        }
        let out = self.graph.direct(earlier, later);
        proof {
            assert(self@ == self.graph@);
        }
        out
    }

    /// Whether anything at all orders `earlier` before `later`, directly or through a chain.
    pub fn ordered(&self, earlier: &str, later: &str) -> (out: bool)
        ensures
            self.well_formed(),
            out == self@.ordered.contains((earlier@, later@)),
    {
        proof {
            use_type_invariant(self);
        }
        self.graph.ordered(earlier, later)
    }

    /// How many edges are stored.
    pub fn edge_count(&self) -> (out: usize)
        ensures
            out == self@.edges.len(),
    {
        self.graph.edge_count()
    }

    /// The stored edge at position `k`.
    pub fn edge(&self, k: usize) -> (out: &Edge)
        requires
            k < self@.edges.len(),
        ensures
            (out.earlier@, out.later@, out.source) == self@.edges[k as int],
    {
        self.graph.edge(k)
    }

    /// The constraints running between the members of one loop, each with whoever wrote it,
    /// separated by `, `. The source is the half that points at the file to edit.
    pub fn describe_loop(&self, members: &Vec<String>) -> (out: String)
        ensures
            out@ == joined(loop_parts(self@.edges, views(members@)), ", "@),
    {
        self.graph.describe_loop(members)
    }

    /// Records that `earlier` loads before `later`, on `source`'s word. A second constraint on
    /// the same pair replaces the first one's source.
    pub fn insert(&mut self, earlier: &String, later: &String, source: ConstraintSource)
        ensures
            final(self)@.edges == OrderEdges::with_edge(old(self)@.edges, earlier@, later@, source),
            final(self)@.ordered == old(self)@.ordered,
            distinct_pairs(old(self)@.edges),
            distinct_pairs(final(self)@.edges),
            final(self).well_formed(),
    {
        let mut graph = self.take();
        graph.insert(earlier, later, source);
        self.graph = graph;
    }

    /// Records every edge of `wanted`, in order, into an empty edge list. A pair that occurs more
    /// than once keeps the source of its last occurrence.
    pub fn insert_all(&mut self, wanted: &Vec<Edge>)
        requires
            old(self)@.edges.len() == 0,
        ensures
            final(self)@.ordered == old(self)@.ordered,
            final(self).well_formed(),
            distinct_pairs(final(self)@.edges),
            pairs_of(final(self)@.edges) == pairs_of(edge_views(wanted@)),
            forall|k: int| 0 <= k < final(self)@.edges.len() ==> last_of_its_pair(
                edge_views(wanted@),
                wanted@.len() as int,
                #[trigger] final(self)@.edges[k],
            ),
    {
        let mut graph = self.take();
        graph.insert_all(wanted);
        self.graph = graph;
    }

    /// Computes, once, every pair a chain of edges orders. Run when the edge set is complete.
    pub fn close(&mut self)
        ensures
            final(self)@.edges == old(self)@.edges,
            final(self).well_formed(),
            final(self).is_closed(),
            forall|a: Seq<char>, b: Seq<char>|
                #[trigger] final(self)@.ordered.contains((a, b)) <==> chained(pairs_of(final(self)@.edges), a, b),
    {
        let mut graph = self.take();
        graph.close();
        self.graph = graph;
        proof {
            assert forall|a: Seq<char>, b: Seq<char>|
                #[trigger] self@.ordered.contains((a, b)) <==> chained(pairs_of(self@.edges), a, b) by {
                lemma_reaches_is_chained(pairs_of(self@.edges), a, b);
            }
        }
    }
}

impl OrderEdges {
    /// Where the pair `(earlier, later)` sits in `edges`, if it does.
    pub open spec fn position_of(edges: Seq<EdgeView>, earlier: Seq<char>, later: Seq<char>) -> int {
        choose|k: int| 0 <= k < edges.len() && #[trigger] edges[k].0 == earlier && edges[k].1 == later
    }

    /// `edges` with `earlier -> later` recorded as `source`: the pair's existing entry updated in
    /// place, or a new one at the end.
    pub open spec fn with_edge(edges: Seq<EdgeView>, earlier: Seq<char>, later: Seq<char>, source: ConstraintSource) -> Seq<EdgeView> {
        if pairs_of(edges).contains((earlier, later)) {
            edges.update(OrderEdges::position_of(edges, earlier, later), (earlier, later, source))
        } else {
            edges.push((earlier, later, source))
        }
    }
}

impl EdgeGraph {
    /// Records that `earlier` loads before `later`, on `source`'s word. A second constraint on
    /// the same pair replaces the first one's source.
    fn insert(&mut self, earlier: &String, later: &String, source: ConstraintSource)
        requires
            distinct_pairs(old(self)@.edges),
        ensures
            final(self)@.edges == OrderEdges::with_edge(old(self)@.edges, earlier@, later@, source),
            final(self)@.ordered == old(self)@.ordered,
            distinct_pairs(final(self)@.edges),
            old(self).well_formed() ==> final(self).well_formed(),
    {
        let ghost before = self@.edges;
        let mut i: usize = 0;
        while i < self.edges.len()
            invariant
                i <= self.edges.len(),
                self@.edges == before,
                before == old(self)@.edges,
                distinct_pairs(before),
                self.nodes@ == old(self).nodes@,
                self.reach@ == old(self).reach@,
                forall|k: int| 0 <= k < i ==> !(#[trigger] before[k].0 == earlier@ && before[k].1 == later@),
            decreases self.edges.len() - i,
        {
            if str_eq(self.edges[i].earlier.as_str(), earlier.as_str()) && str_eq(self.edges[i].later.as_str(), later.as_str()) {
                let ghost pos = OrderEdges::position_of(before, earlier@, later@);
                proof {
                    assert(before[i as int].0 == earlier@ && before[i as int].1 == later@);
                    assert(pairs_of(before).contains((earlier@, later@)));
                    assert(pos == i) by {
                        assert(before[pos].0 == earlier@ && before[pos].1 == later@);
                    }
                }
                let edge = Edge { earlier: earlier.clone(), later: later.clone(), source };
                self.edges.set(i, edge);
                proof {
                    assert(self@.edges =~= before.update(i as int, (earlier@, later@, source)));
                    let now = self@.edges;
                    assert forall|p: int, q: int|
                        0 <= p < now.len() && 0 <= q < now.len() && p != q && #[trigger] now[p].0 == #[trigger] now[q].0
                        implies now[p].1 != now[q].1 by {
                        assert(now[p].0 == before[p].0 && now[p].1 == before[p].1);
                        assert(now[q].0 == before[q].0 && now[q].1 == before[q].1);
                    }
                }
                return;
            }
            i = i + 1;
        }
        proof {
            assert(!pairs_of(before).contains((earlier@, later@))) by {
                if pairs_of(before).contains((earlier@, later@)) {
                    let k = choose|k: int| 0 <= k < before.len() && #[trigger] before[k].0 == earlier@ && before[k].1 == later@;
                    assert(before[k].0 == earlier@);
                }
            }
        }
        self.edges.push(Edge { earlier: earlier.clone(), later: later.clone(), source });
        proof {
            assert(self@.edges =~= before.push((earlier@, later@, source)));
            let now = self@.edges;
            assert forall|p: int, q: int|
                0 <= p < now.len() && 0 <= q < now.len() && p != q && #[trigger] now[p].0 == #[trigger] now[q].0
                implies now[p].1 != now[q].1 by {
                if p < before.len() && q < before.len() {
                    assert(now[p] == before[p] && now[q] == before[q]);
                } else if p == before.len() {
                    assert(now[q] == before[q]);
                    assert(!(before[q].0 == earlier@ && before[q].1 == later@));
                } else {
                    assert(now[p] == before[p]);
                    assert(!(before[p].0 == earlier@ && before[p].1 == later@));
                }
            }
        }
    }

    /// Records every edge of `wanted`, in order, into an empty edge list. A pair that occurs more
    /// than once keeps the source of its last occurrence.
    fn insert_all(&mut self, wanted: &Vec<Edge>)
        requires
            old(self)@.edges.len() == 0,
        ensures
            final(self)@.ordered == old(self)@.ordered,
            old(self).well_formed() ==> final(self).well_formed(),
            distinct_pairs(final(self)@.edges),
            pairs_of(final(self)@.edges) == pairs_of(edge_views(wanted@)),
            forall|k: int| 0 <= k < final(self)@.edges.len() ==> last_of_its_pair(
                edge_views(wanted@),
                wanted@.len() as int,
                #[trigger] final(self)@.edges[k],
            ),
    {
        let ghost all = edge_views(wanted@);
        let mut i: usize = 0;
        while i < wanted.len()
            invariant
                i <= wanted@.len(),
                all == edge_views(wanted@),
                self@.ordered == old(self)@.ordered,
                old(self).well_formed() ==> self.well_formed(),
                distinct_pairs(self@.edges),
                pairs_of(self@.edges) == pairs_of(all.take(i as int)),
                forall|k: int| 0 <= k < self@.edges.len() ==> last_of_its_pair(all, i as int, #[trigger] self@.edges[k]),
            decreases wanted@.len() - i,
        {
            let ghost before = self@.edges;
            let source = wanted[i].source.duplicate();
            self.insert(&wanted[i].earlier, &wanted[i].later, source);
            proof {
                let cur = all[i as int];
                assert(cur == (wanted@[i as int].earlier@, wanted@[i as int].later@, wanted@[i as int].source));
                let now = self@.edges;
                assert forall|p: (Seq<char>, Seq<char>)| pairs_of(now).contains(p) == pairs_of(all.take(i + 1)).contains(p) by {
                    let t = all.take(i + 1);
                    if pairs_of(now).contains(p) {
                        let k = choose|k: int| 0 <= k < now.len() && #[trigger] now[k].0 == p.0 && now[k].1 == p.1;
                        if p.0 == cur.0 && p.1 == cur.1 {
                            assert(t[i as int].0 == p.0 && t[i as int].1 == p.1);
                        } else if pairs_of(before).contains((cur.0, cur.1)) {
                            let pos = OrderEdges::position_of(before, cur.0, cur.1);
                            assert(k != pos);
                            assert(now[k] == before[k]);
                            assert(pairs_of(before).contains(p));
                            let w = choose|w: int| 0 <= w < i && #[trigger] all.take(i as int)[w].0 == p.0 && all.take(i as int)[w].1 == p.1;
                            assert(t[w] == all.take(i as int)[w]);
                        } else {
                            assert(k < before.len());
                            assert(now[k] == before[k]);
                            assert(pairs_of(before).contains(p));
                            let w = choose|w: int| 0 <= w < i && #[trigger] all.take(i as int)[w].0 == p.0 && all.take(i as int)[w].1 == p.1;
                            assert(t[w] == all.take(i as int)[w]);
                        }
                    }
                    if pairs_of(t).contains(p) {
                        let w = choose|w: int| 0 <= w < t.len() && #[trigger] t[w].0 == p.0 && t[w].1 == p.1;
                        if w == i {
                            if pairs_of(before).contains((cur.0, cur.1)) {
                                let pos = OrderEdges::position_of(before, cur.0, cur.1);
                                assert(now[pos].0 == p.0 && now[pos].1 == p.1);
                            } else {
                                assert(now[now.len() - 1].0 == p.0 && now[now.len() - 1].1 == p.1);
                            }
                        } else {
                            assert(all.take(i as int)[w] == t[w]);
                            assert(pairs_of(before).contains(p));
                            let k = choose|k: int| 0 <= k < before.len() && #[trigger] before[k].0 == p.0 && before[k].1 == p.1;
                            if pairs_of(before).contains((cur.0, cur.1)) {
                                let pos = OrderEdges::position_of(before, cur.0, cur.1);
                                if k == pos {
                                    assert(now[pos].0 == p.0 && now[pos].1 == p.1);
                                } else {
                                    assert(now[k] == before[k]);
                                }
                            } else {
                                assert(now[k] == before[k]);
                            }
                        }
                    }
                }
                assert(pairs_of(now) =~= pairs_of(all.take(i + 1)));
                assert forall|k: int| 0 <= k < now.len() implies last_of_its_pair(all, i + 1, #[trigger] now[k]) by {
                    if now[k].0 == cur.0 && now[k].1 == cur.1 {
                        if pairs_of(before).contains((cur.0, cur.1)) {
                            let pos = OrderEdges::position_of(before, cur.0, cur.1);
                            if k != pos {
                                assert(now[k] == before[k]);
                                assert(before[pos].0 == cur.0 && before[pos].1 == cur.1);
                                assert(false);
                            }
                        }
                        assert(now[k] == cur);
                        assert(all[i as int] == now[k]);
                        assert(forall|v: int| i < v < i + 1 ==> !(#[trigger] all[v].0 == now[k].0 && all[v].1 == now[k].1));
                    } else {
                        if pairs_of(before).contains((cur.0, cur.1)) {
                            let pos = OrderEdges::position_of(before, cur.0, cur.1);
                            assert(k != pos);
                        }
                        assert(k < before.len());
                        assert(now[k] == before[k]);
                        let w = choose|w: int|
                            0 <= w < i && #[trigger] all[w] == before[k]
                                && forall|v: int| w < v < i ==> !(#[trigger] all[v].0 == before[k].0 && all[v].1 == before[k].1);
                        assert(all[w] == now[k]);
                        assert(!(all[i as int].0 == now[k].0 && all[i as int].1 == now[k].1));
                    }
                }
            }
            i = i + 1;
        }
        proof {
            assert(all.take(wanted@.len() as int) =~= all);
        }
    }

    /// Computes, once, every pair a chain of edges orders. Run when the edge set is complete.
    fn close(&mut self)
        ensures
            final(self)@.edges == old(self)@.edges,
            final(self).well_formed(),
            final(self).is_closed(),
    {
        let ghost edges = self@.edges;
        let (nodes, idx) = collect_nodes(&self.edges, Ghost(edges));
        let ghost ids = ids_of(nodes@);
        let n = nodes.len();
        let mut reach: Vec<Vec<bool>> = Vec::new();
        let mut k: usize = 0;
        while k < n
            invariant
                k <= n,
                n == ids.len(),
                ids == ids_of(nodes@),
                distinct_ids(ids),
                indexes_edges(edges, ids, idx@),
                reach@.len() == k,
                forall|a: int| 0 <= a < k ==> (#[trigger] reach@[a])@.len() == n,
                forall|a: int, b: int| 0 <= a < k && 0 <= b < n ==> #[trigger] reach@[a]@[b] == reaches(pairs_of(edges), ids[a], ids[b]),
            decreases n - k,
        {
            let row = reach_from(&idx, n, k, Ghost(edges), Ghost(ids));
            reach.push(row);
            proof {
                assert forall|a: int, b: int| 0 <= a < k + 1 && 0 <= b < n implies #[trigger] reach@[a]@[b] == reaches(pairs_of(edges), ids[a], ids[b]) by {
                    if a == k {
                        assert(reach@[a] == row);
                    }
                }
            }
            k = k + 1;
        }
        self.nodes = nodes;
        self.reach = reach;
        proof {
            assert(self@.edges == edges);
            let e = pairs_of(edges);
            assert forall|a: int, b: int|
                0 <= a < self.nodes@.len() && 0 <= b < self.nodes@.len() && a != b
                    implies #[trigger] self.nodes@[a]@ != #[trigger] self.nodes@[b]@ by {
                assert(ids[a] == self.nodes@[a]@ && ids[b] == self.nodes@[b]@);
            }
            assert forall|p: (Seq<char>, Seq<char>)| self@.ordered.contains(p) == closure_of(e).contains(p) by {
                if self@.ordered.contains(p) {
                    let (a, b) = choose|a: int, b: int|
                        0 <= a < self.nodes@.len() && 0 <= b < self.nodes@.len()
                            && #[trigger] self.nodes@[a]@ == p.0 && #[trigger] self.nodes@[b]@ == p.1
                            && a < self.reach@.len() && b < self.reach@[a]@.len() && self.reach@[a]@[b];
                    assert(ids[a] == p.0 && ids[b] == p.1);
                }
                if closure_of(e).contains(p) {
                    assert(reaches(e, p.0, p.1));
                    if forall|y: Seq<char>| !e.contains((p.0, y)) {
                        lemma_no_successor_reaches_nothing(e, p.0, p.1);
                    }
                    if forall|x: Seq<char>| !e.contains((x, p.1)) {
                        lemma_only_targets_are_reached(e, p.0, p.1);
                    }
                    let y = choose|y: Seq<char>| e.contains((p.0, y));
                    let x = choose|x: Seq<char>| e.contains((x, p.1));
                    let q1 = choose|q: int| 0 <= q < edges.len() && #[trigger] edges[q].0 == p.0 && edges[q].1 == y;
                    let q2 = choose|q: int| 0 <= q < edges.len() && #[trigger] edges[q].0 == x && edges[q].1 == p.1;
                    let a = idx@[q1].0 as int;
                    let b = idx@[q2].1 as int;
                    assert(ids[a] == p.0);
                    assert(ids[b] == p.1);
                    assert(self.nodes@[a]@ == p.0 && self.nodes@[b]@ == p.1);
                    assert(self.reach@[a]@[b]);
                }
            }
            assert(self@.ordered =~= closure_of(e));
        }
    }
}

/// Where `id` sits in `nodes`, if it does.
fn index_of_node(nodes: &Vec<String>, id: &str) -> (out: Option<usize>)
    ensures
        out matches Some(i) ==> i < nodes@.len() && nodes@[i as int]@ == id@,
        out is None ==> forall|k: int| 0 <= k < nodes@.len() ==> #[trigger] nodes@[k]@ != id@,
{
    let mut i: usize = 0;
    while i < nodes.len()
        invariant
            i <= nodes.len(),
            forall|k: int| 0 <= k < i ==> #[trigger] nodes@[k]@ != id@,
        decreases nodes.len() - i,
    {
        if str_eq(nodes[i].as_str(), id) {
            return Some(i);
        }
        i = i + 1;
    }
    None
}


/// How many entries of `s` are `true`.
pub open spec fn count_true(s: Seq<bool>) -> nat
    decreases s.len(),
{
    if s.len() == 0 {
        0
    } else {
        count_true(s.drop_last()) + (if s.last() {
            1nat
        } else {
            0nat
        })
    }
}

/// Clearing a `true` entry lowers the count by one.
pub proof fn lemma_count_true_set_false(s: Seq<bool>, k: int)
    requires
        0 <= k < s.len(),
        s[k],
    ensures
        count_true(s.update(k, false)) + 1 == count_true(s),
    decreases s.len(),
{
    let t = s.update(k, false);
    if k == s.len() - 1 {
        assert(t.drop_last() =~= s.drop_last());
    } else {
        assert(t.drop_last() =~= s.drop_last().update(k, false));
        lemma_count_true_set_false(s.drop_last(), k);
    }
}

/// At most every entry is `true`.
pub proof fn lemma_count_true_bounded(s: Seq<bool>)
    ensures
        count_true(s) <= s.len(),
    decreases s.len(),
{
    if s.len() > 0 {
        lemma_count_true_bounded(s.drop_last());
    }
}

/// Setting a `false` entry raises the count by one.
pub proof fn lemma_count_true_set(s: Seq<bool>, k: int)
    requires
        0 <= k < s.len(),
        !s[k],
    ensures
        count_true(s.update(k, true)) == count_true(s) + 1,
    decreases s.len(),
{
    let t = s.update(k, true);
    if k == s.len() - 1 {
        assert(t.drop_last() =~= s.drop_last());
    } else {
        assert(t.drop_last() =~= s.drop_last().update(k, true));
        lemma_count_true_set(s.drop_last(), k);
    }
}

/// The edge list as node-index pairs: `idx[i]` is where edge `i`'s two ids sit in `nodes`.
pub open spec fn indexes_edges(edges: Seq<EdgeView>, nodes: Seq<Seq<char>>, idx: Seq<(usize, usize)>) -> bool {
    &&& idx.len() == edges.len()
    &&& forall|i: int| 0 <= i < idx.len() ==> {
        &&& (#[trigger] idx[i]).0 < nodes.len()
        &&& idx[i].1 < nodes.len()
        &&& nodes[idx[i].0 as int] == edges[i].0
        &&& nodes[idx[i].1 as int] == edges[i].1
    }
}

/// Each id once.
pub open spec fn distinct_ids(nodes: Seq<Seq<char>>) -> bool {
    forall|i: int, j: int|
        0 <= i < nodes.len() && 0 <= j < nodes.len() && i != j ==> #[trigger] nodes[i] != #[trigger] nodes[j]
}

/// The ids of `nodes`, as the contracts see them.
pub open spec fn ids_of(nodes: Seq<String>) -> Seq<Seq<char>> {
    Seq::new(nodes.len(), |i: int| nodes[i]@)
}

/// Every id the edges mention, each once, and each edge as a pair of positions among them.
fn collect_nodes(edges: &Vec<Edge>, ghost_edges: Ghost<Seq<EdgeView>>) -> (out: (Vec<String>, Vec<(usize, usize)>))
    requires
        ghost_edges@ == Seq::new(edges@.len(), |i: int| (edges@[i].earlier@, edges@[i].later@, edges@[i].source)),
    ensures
        distinct_ids(ids_of(out.0@)),
        indexes_edges(ghost_edges@, ids_of(out.0@), out.1@),
{
    let mut nodes: Vec<String> = Vec::new();
    let mut idx: Vec<(usize, usize)> = Vec::new();
    let mut i: usize = 0;
    while i < edges.len()
        invariant
            i <= edges.len(),
            ghost_edges@ == Seq::new(edges@.len(), |i: int| (edges@[i].earlier@, edges@[i].later@, edges@[i].source)),
            distinct_ids(ids_of(nodes@)),
            indexes_edges(ghost_edges@.take(i as int), ids_of(nodes@), idx@),
        decreases edges.len() - i,
    {
        let a = node_slot(&mut nodes, &edges[i].earlier);
        let b = node_slot(&mut nodes, &edges[i].later);
        idx.push((a, b));
        proof {
            assert forall|k: int| 0 <= k < idx@.len() implies {
                &&& (#[trigger] idx@[k]).0 < ids_of(nodes@).len()
                &&& idx@[k].1 < ids_of(nodes@).len()
                &&& ids_of(nodes@)[idx@[k].0 as int] == ghost_edges@.take(i + 1)[k].0
                &&& ids_of(nodes@)[idx@[k].1 as int] == ghost_edges@.take(i + 1)[k].1
            } by {
                if k < i {
                    assert(ghost_edges@.take(i + 1)[k] == ghost_edges@.take(i as int)[k]);
                }
            }
        }
        i = i + 1;
    }
    proof {
        assert(ghost_edges@.take(edges@.len() as int) =~= ghost_edges@);
    }
    (nodes, idx)
}

/// The position of `id` among `nodes`, adding it at the end when it is not there yet.
fn node_slot(nodes: &mut Vec<String>, id: &String) -> (out: usize)
    requires
        distinct_ids(ids_of(old(nodes)@)),
    ensures
        distinct_ids(ids_of(final(nodes)@)),
        out < final(nodes)@.len(),
        final(nodes)@[out as int]@ == id@,
        old(nodes)@.len() <= final(nodes)@.len(),
        forall|k: int| 0 <= k < old(nodes)@.len() ==> #[trigger] final(nodes)@[k]@ == old(nodes)@[k]@,
{
    match index_of_node(nodes, id.as_str()) {
        Some(k) => k,
        None => {
            nodes.push(id.clone());
            proof {
                let v = ids_of(nodes@);
                assert forall|a: int, b: int|
                    0 <= a < v.len() && 0 <= b < v.len() && a != b implies #[trigger] v[a] != #[trigger] v[b] by {
                    if a < old(nodes)@.len() && b < old(nodes)@.len() {
                        assert(ids_of(old(nodes)@)[a] == v[a]);
                        assert(ids_of(old(nodes)@)[b] == v[b]);
                    }
                }
            }
            nodes.len() - 1
        },
    }
}


/// Which of `nodes` the node at `start` reaches over the edges `idx` stands for.
fn reach_from(
    idx: &Vec<(usize, usize)>,
    n: usize,
    start: usize,
    edges: Ghost<Seq<EdgeView>>,
    ids: Ghost<Seq<Seq<char>>>,
) -> (row: Vec<bool>)
    requires
        ids@.len() == n,
        start < n,
        distinct_ids(ids@),
        indexes_edges(edges@, ids@, idx@),
    ensures
        row@.len() == n,
        forall|k: int| 0 <= k < n ==> #[trigger] row@[k] == reaches(pairs_of(edges@), ids@[start as int], ids@[k]),
{
    let ghost e = pairs_of(edges@);
    let ghost from = ids@[start as int];
    let mut visited: Vec<bool> = Vec::new();
    let mut j: usize = 0;
    while j < n
        invariant
            j <= n,
            visited@.len() == j,
            forall|k: int| 0 <= k < j ==> !#[trigger] visited@[k],
        decreases n - j,
    {
        visited.push(false);
        j = j + 1;
    }
    proof {
        assert(count_true(visited@) == 0) by {
            lemma_count_all_false(visited@);
        }
    }
    let mut stack: Vec<usize> = Vec::new();
    let mut i: usize = 0;
    while i < idx.len()
        invariant
            i <= idx.len(),
            visited@.len() == n,
            ids@.len() == n,
            start < n,
            distinct_ids(ids@),
            indexes_edges(edges@, ids@, idx@),
            e == pairs_of(edges@),
            from == ids@[start as int],
            stack@.no_duplicates(),
            forall|k: int| 0 <= k < stack@.len() ==> #[trigger] stack@[k] < n && visited@[stack@[k] as int],
            forall|k: int| 0 <= k < n && #[trigger] visited@[k] ==> reaches(e, from, ids@[k]),
            forall|k: int| 0 <= k < n && #[trigger] visited@[k] ==> stack@.contains(k as usize),
            forall|m: int| 0 <= m < i && #[trigger] idx@[m].0 == start ==> visited@[idx@[m].1 as int],
            count_true(visited@) == stack@.len(),
        decreases idx.len() - i,
    {
        let (a, b) = idx[i];
        if a == start && !visited[b] {
            proof {
                assert(edges@[i as int].0 == from && edges@[i as int].1 == ids@[b as int]);
                assert(e.contains((from, ids@[b as int])));
                lemma_edge_reaches(e, from, ids@[b as int]);
                lemma_count_true_set(visited@, b as int);
            }
            let ghost before = stack@;
            let ghost seen = visited@;
            assert(!before.contains(b)) by {
                if before.contains(b) {
                    let k = choose|k: int| 0 <= k < before.len() && before[k] == b;
                    assert(seen[before[k] as int]);
                }
            }
            visited.set(b, true);
            stack.push(b);
            proof {
                assert(stack@ == before.push(b));
                assert forall|k: int| 0 <= k < n && #[trigger] visited@[k] implies stack@.contains(k as usize) by {
                    if k != b {
                        assert(seen[k]);
                        assert(before.contains(k as usize));
                        let w = choose|w: int| 0 <= w < before.len() && before[w] == k as usize;
                        assert(stack@[w] == k as usize);
                    } else {
                        assert(stack@[stack@.len() - 1] == b);
                    }
                }
                assert(stack@.no_duplicates()) by {
                    assert forall|p: int, q: int| 0 <= p < stack@.len() && 0 <= q < stack@.len() && p != q
                        implies stack@[p] != stack@[q] by {
                        if p < before.len() && q < before.len() {
                        } else if p == before.len() {
                            assert(before[q] != b) by {
                                if before[q] == b { assert(before.contains(b)); }
                            }
                        } else {
                            assert(before[p] != b) by {
                                if before[p] == b { assert(before.contains(b)); }
                            }
                        }
                    }
                }
            }
        }
        i = i + 1;
    }
    proof { lemma_count_true_bounded(visited@); }
    while stack.len() > 0
        invariant
            visited@.len() == n,
            ids@.len() == n,
            start < n,
            distinct_ids(ids@),
            indexes_edges(edges@, ids@, idx@),
            e == pairs_of(edges@),
            from == ids@[start as int],
            stack@.no_duplicates(),
            forall|k: int| 0 <= k < stack@.len() ==> #[trigger] stack@[k] < n && visited@[stack@[k] as int],
            forall|k: int| 0 <= k < n && #[trigger] visited@[k] ==> reaches(e, from, ids@[k]),
            forall|m: int| 0 <= m < idx@.len() && #[trigger] idx@[m].0 == start ==> visited@[idx@[m].1 as int],
            forall|m: int|
                0 <= m < idx@.len() && visited@[(#[trigger] idx@[m]).0 as int] && !stack@.contains(idx@[m].0)
                    ==> visited@[idx@[m].1 as int],
            count_true(visited@) <= n,
        decreases 2 * (n - count_true(visited@)) + stack@.len(),
    {
        let ghost measure = 2 * (n - count_true(visited@)) + stack@.len();
        let ghost pre = stack@;
        let x = stack.pop().unwrap();
        proof {
            assert(pre == stack@.push(x));
            assert(!stack@.contains(x)) by {
                if stack@.contains(x) {
                    let w = choose|w: int| 0 <= w < stack@.len() && stack@[w] == x;
                    assert(pre[w] == pre[pre.len() - 1]);
                }
            }
            assert forall|q: int|
                0 <= q < idx@.len() && visited@[(#[trigger] idx@[q]).0 as int] && !stack@.contains(idx@[q].0)
                    && idx@[q].0 != x implies visited@[idx@[q].1 as int] by {
                if pre.contains(idx@[q].0) {
                    let w = choose|w: int| 0 <= w < pre.len() && pre[w] == idx@[q].0;
                    if w < stack@.len() {
                        assert(stack@[w] == idx@[q].0);
                    }
                }
            }
        }
        let mut m: usize = 0;
        while m < idx.len()
            invariant
                m <= idx.len(),
                visited@.len() == n,
                ids@.len() == n,
                start < n,
                x < n,
                visited@[x as int],
                distinct_ids(ids@),
                indexes_edges(edges@, ids@, idx@),
                e == pairs_of(edges@),
                from == ids@[start as int],
                !stack@.contains(x),
                stack@.no_duplicates(),
                forall|k: int| 0 <= k < stack@.len() ==> #[trigger] stack@[k] < n && visited@[stack@[k] as int],
                forall|k: int| 0 <= k < n && #[trigger] visited@[k] ==> reaches(e, from, ids@[k]),
                forall|q: int| 0 <= q < idx@.len() && #[trigger] idx@[q].0 == start ==> visited@[idx@[q].1 as int],
                forall|q: int|
                    0 <= q < idx@.len() && visited@[(#[trigger] idx@[q]).0 as int] && !stack@.contains(idx@[q].0)
                        && idx@[q].0 != x ==> visited@[idx@[q].1 as int],
                forall|q: int| 0 <= q < m && #[trigger] idx@[q].0 == x ==> visited@[idx@[q].1 as int],
                count_true(visited@) <= n,
                2 * (n - count_true(visited@)) + stack@.len() < measure,
            decreases idx.len() - m,
        {
            let (a, b) = idx[m];
            if a == x && !visited[b] {
                proof {
                    assert(edges@[m as int].0 == ids@[x as int] && edges@[m as int].1 == ids@[b as int]);
                    assert(e.contains((ids@[x as int], ids@[b as int])));
                    lemma_reaches_step(e, from, ids@[x as int], ids@[b as int]);
                    lemma_count_true_set(visited@, b as int);
                    lemma_count_true_bounded(visited@.update(b as int, true));
                }
                let ghost before = stack@;
                let ghost seen = visited@;
                assert(!before.contains(b)) by {
                    if before.contains(b) {
                        let k = choose|k: int| 0 <= k < before.len() && before[k] == b;
                        assert(seen[before[k] as int]);
                    }
                }
                visited.set(b, true);
                stack.push(b);
                proof {
                    assert(stack@ == before.push(b));
                    assert(!stack@.contains(x)) by {
                        if stack@.contains(x) {
                            let w = choose|w: int| 0 <= w < stack@.len() && stack@[w] == x;
                            if w < before.len() { assert(before[w] == x); }
                        }
                    }
                    assert forall|q: int|
                        0 <= q < idx@.len() && visited@[(#[trigger] idx@[q]).0 as int] && !stack@.contains(idx@[q].0)
                            && idx@[q].0 != x implies visited@[idx@[q].1 as int] by {
                        if idx@[q].0 != b {
                            assert(seen[idx@[q].0 as int]);
                            if before.contains(idx@[q].0) {
                                let w = choose|w: int| 0 <= w < before.len() && before[w] == idx@[q].0;
                                assert(stack@[w] == idx@[q].0);
                            }
                        } else {
                            assert(stack@[stack@.len() - 1] == b);
                        }
                    }
                    assert(stack@.no_duplicates()) by {
                        assert forall|p: int, q: int| 0 <= p < stack@.len() && 0 <= q < stack@.len() && p != q
                            implies stack@[p] != stack@[q] by {
                            if p < before.len() && q < before.len() {
                            } else if p == before.len() {
                                assert(before[q] != b) by {
                                    if before[q] == b { assert(before.contains(b)); }
                                }
                            } else {
                                assert(before[p] != b) by {
                                    if before[p] == b { assert(before.contains(b)); }
                                }
                            }
                        }
                    }
                    assert forall|k: int| 0 <= k < stack@.len() implies #[trigger] stack@[k] < n && visited@[stack@[k] as int] by {
                        if k < before.len() { assert(stack@[k] == before[k]); }
                    }
                }
            }
            m = m + 1;
        }
    }
    proof {
        let s = Set::new(|y: Seq<char>| exists|k: int| 0 <= k < n && visited@[k] && #[trigger] ids@[k] == y);
        assert forall|y: Seq<char>| #[trigger] e.contains((from, y)) implies s.contains(y) by {
            let q = choose|q: int| 0 <= q < edges@.len() && #[trigger] edges@[q].0 == from && edges@[q].1 == y;
            assert(ids@[idx@[q].0 as int] == from);
            assert(idx@[q].0 == start);
            assert(visited@[idx@[q].1 as int]);
            assert(ids@[idx@[q].1 as int] == y);
        }
        assert forall|x: Seq<char>, y: Seq<char>| #![trigger e.contains((x, y)), s.contains(x)]
            s.contains(x) && e.contains((x, y)) implies s.contains(y) by {
            let q = choose|q: int| 0 <= q < edges@.len() && #[trigger] edges@[q].0 == x && edges@[q].1 == y;
            let k = choose|k: int| 0 <= k < n && visited@[k] && #[trigger] ids@[k] == x;
            assert(ids@[idx@[q].0 as int] == x);
            assert(idx@[q].0 == k);
            assert(!stack@.contains(idx@[q].0));
            assert(visited@[idx@[q].1 as int]);
        }
        assert(holds_successors(e, from, s) && closed_under(e, s));
        assert forall|k: int| 0 <= k < n implies #[trigger] visited@[k] == reaches(e, from, ids@[k]) by {
            if reaches(e, from, ids@[k]) {
                assert(s.contains(ids@[k]));
                let k2 = choose|k2: int| 0 <= k2 < n && visited@[k2] && #[trigger] ids@[k2] == ids@[k];
                assert(k2 == k);
            }
        }
    }
    visited
}

proof fn lemma_count_all_false(s: Seq<bool>)
    requires
        forall|k: int| 0 <= k < s.len() ==> !#[trigger] s[k],
    ensures
        count_true(s) == 0,
    decreases s.len(),
{
    if s.len() > 0 {
        lemma_count_all_false(s.drop_last());
    }
}

} // verus!
