//! `game.entities.list`: the one call behind the agent's main discovery tool.
//!
//! The world is read elsewhere; what is decided here is which entities a query keeps and the
//! order they come back in. By default the entities the ECS uses for its own bookkeeping are
//! hidden and named entities come first: without that, the first call returns two hundred rows
//! of internal storage and not one thing in the scene.

use crate::alias::rules::{contains_text, has_text};
use crate::remote::logs::{lower, lowercase, opt_text};
use crate::text::{lemma_text_lt_asymmetric, lemma_text_lt_irreflexive, lemma_text_lt_total, lemma_text_lt_transitive, str_eq, text_less, text_lt, views};
use vstd::prelude::*;

verus! {

/// How many entities one call returns before it starts truncating.
pub const DEFAULT_LIMIT: usize = 100;

/// Components that mark an entity as ECS bookkeeping rather than scene content.
pub open spec fn internal_markers() -> Seq<Seq<char>> {
    seq![
        "bevy_ecs::resource::IsResource"@,
        "bevy_ecs::observer::distributed_storage::Observer"@,
        "bevy_ecs::system::system_registry::SystemIdMarker"@,
    ]
}

/// What a listing asks for.
#[derive(Debug, Clone, Default)]
pub struct ListParams {
    /// Case-insensitive substring of the entity's name. Entities without a name never match.
    pub name_contains: Option<String>,
    /// Case-insensitive substrings of component type paths. An entity must match all of them.
    pub with_components: Vec<String>,
    /// Restricts the result to descendants of this entity, by its bits.
    pub parent: Option<u64>,
    /// Include the entities the ECS uses for its own bookkeeping.
    pub include_internal: bool,
    pub limit: Option<usize>,
}

/// What the listing reads of one entity: the bits it is ordered by, its name, the type paths of
/// its components, and its ancestors from its parent up.
#[derive(Debug, Clone)]
pub struct EntityFacts {
    pub bits: u64,
    pub name: Option<String>,
    pub components: Vec<String>,
    pub ancestors: Vec<u64>,
}

/// An entity as the contracts see it.
pub struct FactView {
    pub bits: u64,
    pub name: Option<Seq<char>>,
    pub components: Seq<Seq<char>>,
    pub ancestors: Seq<u64>,
}

/// The contract view of a list of entities.
pub open spec fn fact_views(facts: Seq<EntityFacts>) -> Seq<FactView> {
    facts.map_values(
        |f: EntityFacts|
            FactView { bits: f.bits, name: opt_text(f.name), components: views(f.components@), ancestors: f.ancestors@ },
    )
}

/// Whether one of `components` is a bookkeeping marker.
pub open spec fn is_internal(components: Seq<Seq<char>>) -> bool {
    exists|k: int| 0 <= k < components.len() && internal_markers().contains(#[trigger] components[k])
}

/// Whether some component's path holds `needle`, both lower-cased.
pub open spec fn has_component_like(components: Seq<Seq<char>>, needle: Seq<char>) -> bool {
    exists|k: int| 0 <= k < components.len() && contains_text(lowercase(#[trigger] components[k]), lowercase(needle))
}

/// Whether an entity passes every filter of `params`.
pub open spec fn kept(f: FactView, params: ListParams) -> bool {
    &&& (opt_text(params.name_contains) matches Some(n) ==> (f.name matches Some(name) && contains_text(
        lowercase(name),
        lowercase(n),
    )))
    &&& (params.parent matches Some(p) ==> f.ancestors.contains(p))
    &&& (!params.include_internal ==> !is_internal(f.components))
    &&& forall|k: int|
        0 <= k < params.with_components@.len() ==> has_component_like(f.components, #[trigger] params.with_components@[k]@)
}

/// The parent filter keeps every descendant, however deep: with a parent set, an entity is kept
/// exactly when it passes the other filters and the parent stands anywhere among its ancestors,
/// a grandchild as much as a child.
pub proof fn lemma_the_parent_filter_keeps_every_descendant(f: FactView, params: ListParams, p: u64)
    requires
        params.parent == Some(p),
    ensures
        kept(f, params) <==> kept(f, ListParams { parent: None, ..params }) && exists|j: int|
            0 <= j < f.ancestors.len() && f.ancestors[j] == p,
{
    let q = ListParams { parent: None, ..params };
    assert(q.with_components == params.with_components);
    assert(q.name_contains == params.name_contains);
    assert(q.include_internal == params.include_internal);
    if f.ancestors.contains(p) {
        let j = choose|j: int| 0 <= j < f.ancestors.len() && f.ancestors[j] == p;
        assert(0 <= j < f.ancestors.len() && f.ancestors[j] == p);
    }
    if exists|j: int| 0 <= j < f.ancestors.len() && f.ancestors[j] == p {
        let j = choose|j: int| 0 <= j < f.ancestors.len() && f.ancestors[j] == p;
        assert(f.ancestors.contains(p));
    }
}

/// Whether entity `i` sorts before entity `j`: named before unnamed, then by name, then by bits,
/// then by where they came in.
pub open spec fn listed_before(facts: Seq<FactView>, i: int, j: int) -> bool {
    let a = facts[i];
    let b = facts[j];
    if a.name is Some && b.name is None {
        true
    } else if a.name is None && b.name is Some {
        false
    } else if a.name is Some && a.name->0 != b.name->0 {
        text_lt(a.name->0, b.name->0)
    } else if a.bits != b.bits {
        a.bits < b.bits
    } else {
        i < j
    }
}

/// Whether `order` lists entities in [`listed_before`] order.
pub open spec fn listed_in_order(facts: Seq<FactView>, order: Seq<usize>) -> bool {
    forall|p: int, q: int| 0 <= p < q < order.len() ==> listed_before(facts, #[trigger] order[p] as int, #[trigger] order[q] as int)
}

proof fn lemma_listed_before_transitive(facts: Seq<FactView>, i: int, j: int, k: int)
    requires
        listed_before(facts, i, j),
        listed_before(facts, j, k),
    ensures
        listed_before(facts, i, k),
{
    let (a, b, c) = (facts[i], facts[j], facts[k]);
    if a.name is Some && b.name is Some && c.name is Some {
        if a.name->0 != b.name->0 && b.name->0 != c.name->0 {
            lemma_text_lt_transitive(a.name->0, b.name->0, c.name->0);
            if a.name->0 == c.name->0 {
                lemma_text_lt_asymmetric(a.name->0, b.name->0);
            }
        }
    }
}

proof fn lemma_listed_before_total(facts: Seq<FactView>, i: int, j: int)
    requires
        i != j,
    ensures
        listed_before(facts, i, j) || listed_before(facts, j, i),
        !(listed_before(facts, i, j) && listed_before(facts, j, i)),
{
    let (a, b) = (facts[i], facts[j]);
    if a.name is Some && b.name is Some && a.name->0 != b.name->0 {
        lemma_text_lt_total(a.name->0, b.name->0);
        if text_lt(a.name->0, b.name->0) {
            lemma_text_lt_asymmetric(a.name->0, b.name->0);
        }
    }
}

/// What a listing answers: the positions of the kept entities in order, cut to the limit, and
/// how many were cut.
#[derive(Debug, Clone, PartialEq, Eq)]
pub struct Listing {
    pub entities: Vec<usize>,
    pub truncated: usize,
}

/// Whether `name` is one of the bookkeeping markers.
fn is_marker(path: &str) -> (out: bool)
    ensures
        out == internal_markers().contains(path@),
{
    proof {
        reveal_strlit("bevy_ecs::resource::IsResource");
        reveal_strlit("bevy_ecs::observer::distributed_storage::Observer");
        reveal_strlit("bevy_ecs::system::system_registry::SystemIdMarker");
        assert(internal_markers()[0] == "bevy_ecs::resource::IsResource"@);
        assert(internal_markers()[1] == "bevy_ecs::observer::distributed_storage::Observer"@);
        assert(internal_markers()[2] == "bevy_ecs::system::system_registry::SystemIdMarker"@);
    }
    str_eq(path, "bevy_ecs::resource::IsResource") || str_eq(path, "bevy_ecs::observer::distributed_storage::Observer")
        || str_eq(path, "bevy_ecs::system::system_registry::SystemIdMarker")
}

/// Whether entity `f` passes the filters, with the needles already lower-cased.
fn keeps(f: &EntityFacts, params: &ListParams, name_needle: &Option<String>, component_needles: &Vec<String>) -> (out: bool)
    requires
        name_needle matches Some(n) ==> opt_text(params.name_contains) matches Some(m) && n@ == lowercase(m),
        name_needle is None ==> params.name_contains is None,
        component_needles@.len() == params.with_components@.len(),
        forall|k: int| 0 <= k < component_needles@.len() ==> #[trigger] component_needles@[k]@ == lowercase(params.with_components@[k]@),
    ensures
        out == kept(fact_views(seq![*f])[0], *params),
{
    let ghost v = fact_views(seq![*f])[0];
    proof {
        assert(v.components == views(f.components@));
    }
    if let Some(needle) = name_needle {
        match &f.name {
            None => return false,
            Some(name) => {
                let lowered = lower(name.as_str());
                if !has_text(lowered.as_str(), needle.as_str()) {
                    return false;
                }
            },
        }
    }
    if let Some(parent) = params.parent {
        let mut found = false;
        let mut k: usize = 0;
        while k < f.ancestors.len()
            invariant
                k <= f.ancestors@.len(),
                found <==> exists|j: int| 0 <= j < k && f.ancestors@[j] == parent,
            decreases f.ancestors@.len() - k,
        {
            if f.ancestors[k] == parent {
                found = true;
            }
            k = k + 1;
        }
        if !found {
            proof {
                assert(!v.ancestors.contains(parent));
            }
            return false;
        }
        proof {
            let j = choose|j: int| 0 <= j < f.ancestors@.len() && f.ancestors@[j] == parent;
            assert(v.ancestors[j] == parent);
        }
    }
    if !params.include_internal {
        let mut k: usize = 0;
        while k < f.components.len()
            invariant
                k <= f.components@.len(),
                v == fact_views(seq![*f])[0],
                !params.include_internal,
                v.components == views(f.components@),
                forall|j: int| 0 <= j < k ==> !internal_markers().contains(#[trigger] v.components[j]),
            decreases f.components@.len() - k,
        {
            if is_marker(f.components[k].as_str()) {
                proof {
                    assert(v.components[k as int] == f.components@[k as int]@);
                    assert(internal_markers().contains(v.components[k as int]));
                    assert(is_internal(v.components));
                }
                return false;
            }
            k = k + 1;
        }
    }
    let mut n: usize = 0;
    while n < component_needles.len()
        invariant
            n <= component_needles@.len(),
            component_needles@.len() == params.with_components@.len(),
            forall|k: int| 0 <= k < component_needles@.len() ==> #[trigger] component_needles@[k]@ == lowercase(params.with_components@[k]@),
            v.components == views(f.components@),
            forall|j: int| 0 <= j < n ==> has_component_like(v.components, #[trigger] params.with_components@[j]@),
        decreases component_needles@.len() - n,
    {
        let mut any = false;
        let mut k: usize = 0;
        while k < f.components.len()
            invariant
                n < component_needles@.len(),
                k <= f.components@.len(),
                component_needles@[n as int]@ == lowercase(params.with_components@[n as int]@),
                v.components == views(f.components@),
                any ==> has_component_like(v.components, params.with_components@[n as int]@),
                !any ==> forall|j: int| 0 <= j < k ==> !contains_text(lowercase(#[trigger] v.components[j]), lowercase(params.with_components@[n as int]@)),
            decreases f.components@.len() - k,
        {
            let lowered = lower(f.components[k].as_str());
            if has_text(lowered.as_str(), component_needles[n].as_str()) {
                proof {
                    assert(v.components[k as int] == f.components@[k as int]@);
                }
                any = true;
            } else {
                proof {
                    assert(v.components[k as int] == f.components@[k as int]@);
                }
            }
            k = k + 1;
        }
        if !any {
            return false;
        }
        n = n + 1;
    }
    true
}

/// Whether entity `a` (at `i`) lists before entity `b` (at `j`).
fn before(facts: &Vec<EntityFacts>, i: usize, j: usize) -> (out: bool)
    requires
        i < facts@.len(),
        j < facts@.len(),
    ensures
        out == listed_before(fact_views(facts@), i as int, j as int),
{
    let a = &facts[i];
    let b = &facts[j];
    let ghost fv = fact_views(facts@);
    proof {
        assert(fv[i as int].name == opt_text(a.name));
        assert(fv[j as int].name == opt_text(b.name));
    }
    match (&a.name, &b.name) {
        (Some(_), None) => true,
        (None, Some(_)) => false,
        (Some(x), Some(y)) => {
            if !str_eq(x.as_str(), y.as_str()) {
                text_less(x.as_str(), y.as_str())
            } else if a.bits != b.bits {
                a.bits < b.bits
            } else {
                i < j
            }
        },
        (None, None) => {
            if a.bits != b.bits {
                a.bits < b.bits
            } else {
                i < j
            }
        },
    }
}

/// Whether `entities` and `truncated` answer a listing of `facts` under `params`: the positions
/// of the kept entities in [`listed_before`] order, cut to the limit, and how many were cut.
pub open spec fn listing_answered(facts: Seq<FactView>, params: ListParams, entities: Seq<usize>, truncated: nat) -> bool {
    exists|all: Seq<usize>|
        #![trigger listed_in_order(facts, all)]
        listed_in_order(facts, all) && (forall|i: usize|
            all.contains(i) <==> (i < facts.len() && kept(facts[i as int], params))) && {
            let limit: nat = match params.limit {
                Some(l) => l as nat,
                None => DEFAULT_LIMIT as nat,
            };
            let n: nat = if all.len() > limit { limit } else { all.len() };
            entities == all.take(n as int) && truncated == all.len() - n
        }
}

/// Whether entity `a` lists before entity `b`, going by what they are rather than where they
/// came in: named first, then by name, then by bits.
pub open spec fn fact_before(a: FactView, b: FactView) -> bool {
    if a.name is Some && b.name is None {
        true
    } else if a.name is None && b.name is Some {
        false
    } else if a.name is Some && a.name->0 != b.name->0 {
        text_lt(a.name->0, b.name->0)
    } else {
        a.bits < b.bits
    }
}

/// Whether no two entities share their bits, as no two entities of one world do.
pub open spec fn distinct_bits(facts: Seq<FactView>) -> bool {
    forall|p: int, q: int| 0 <= p < facts.len() && 0 <= q < facts.len() && p != q ==> #[trigger] facts[p].bits != #[trigger] facts[q].bits
}

/// Whether each entity of `s` lists before every later one.
pub open spec fn facts_in_order(s: Seq<FactView>) -> bool {
    forall|p: int, q: int| 0 <= p < q < s.len() ==> fact_before(#[trigger] s[p], #[trigger] s[q])
}

proof fn lemma_fact_before_irreflexive(a: FactView)
    ensures
        !fact_before(a, a),
{
}

proof fn lemma_fact_before_asymmetric(a: FactView, b: FactView)
    requires
        fact_before(a, b),
    ensures
        !fact_before(b, a),
{
    if a.name is Some && b.name is Some && a.name->0 != b.name->0 {
        lemma_text_lt_asymmetric(a.name->0, b.name->0);
    }
}

/// Two orderings of the same entities that both list each before every later one are one list.
proof fn lemma_facts_in_order_unique(a: Seq<FactView>, b: Seq<FactView>)
    requires
        facts_in_order(a),
        facts_in_order(b),
        a.to_set() == b.to_set(),
    ensures
        a == b,
    decreases a.len(),
{
    if a.len() == 0 {
        if b.len() > 0 {
            assert(b.to_set().contains(b[0]));
        }
        assert(a =~= b);
    } else {
        assert(a.to_set().contains(a[0]));
        assert(b.to_set().contains(a[0]));
        assert(b.len() > 0);
        assert(b.to_set().contains(b[0]));
        assert(a.to_set().contains(b[0]));
        let j = choose|j: int| 0 <= j < b.len() && b[j] == a[0];
        let k = choose|k: int| 0 <= k < a.len() && a[k] == b[0];
        if j > 0 {
            assert(fact_before(b[0], b[j]));
            if k > 0 {
                assert(fact_before(a[0], a[k]));
                lemma_fact_before_asymmetric(a[0], b[0]);
            } else {
                lemma_fact_before_irreflexive(a[0]);
            }
        }
        assert(a[0] == b[0]);
        let ra = a.drop_first();
        let rb = b.drop_first();
        assert forall|x: FactView| ra.to_set().contains(x) == rb.to_set().contains(x) by {
            if ra.to_set().contains(x) {
                let p = choose|p: int| 0 <= p < ra.len() && ra[p] == x;
                assert(a[p + 1] == x);
                assert(fact_before(a[0], a[p + 1]));
                assert(b.to_set().contains(x));
                let q = choose|q: int| 0 <= q < b.len() && b[q] == x;
                if q == 0 {
                    lemma_fact_before_irreflexive(x);
                }
                assert(rb[q - 1] == x);
            }
            if rb.to_set().contains(x) {
                let q = choose|q: int| 0 <= q < rb.len() && rb[q] == x;
                assert(b[q + 1] == x);
                assert(fact_before(b[0], b[q + 1]));
                assert(a.to_set().contains(x));
                let p = choose|p: int| 0 <= p < a.len() && a[p] == x;
                if p == 0 {
                    lemma_fact_before_irreflexive(x);
                }
                assert(ra[p - 1] == x);
            }
        }
        assert(ra.to_set() =~= rb.to_set());
        assert(facts_in_order(ra)) by {
            assert forall|p: int, q: int| 0 <= p < q < ra.len() implies fact_before(#[trigger] ra[p], #[trigger] ra[q]) by {
                assert(ra[p] == a[p + 1] && ra[q] == a[q + 1]);
            }
        }
        assert(facts_in_order(rb)) by {
            assert forall|p: int, q: int| 0 <= p < q < rb.len() implies fact_before(#[trigger] rb[p], #[trigger] rb[q]) by {
                assert(rb[p] == b[p + 1] && rb[q] == b[q + 1]);
            }
        }
        lemma_facts_in_order_unique(ra, rb);
        assert(a =~= seq![a[0]] + ra);
        assert(b =~= seq![b[0]] + rb);
    }
}

/// The entities a full listing holds, in order, as the entities themselves.
proof fn lemma_listed_entities(facts: Seq<FactView>, params: ListParams, all: Seq<usize>)
    requires
        facts.len() <= usize::MAX,
        distinct_bits(facts),
        listed_in_order(facts, all),
        forall|i: usize| all.contains(i) <==> (i < facts.len() && kept(facts[i as int], params)),
    ensures
        facts_in_order(all.map_values(|i: usize| facts[i as int])),
        all.map_values(|i: usize| facts[i as int]).to_set() == Set::new(
            |f: FactView| facts.contains(f) && kept(f, params),
        ),
{
    let listed = all.map_values(|i: usize| facts[i as int]);
    assert forall|p: int, q: int| 0 <= p < q < listed.len() implies fact_before(#[trigger] listed[p], #[trigger] listed[q]) by {
        let (i, j) = (all[p] as int, all[q] as int);
        assert(listed_before(facts, i, j));
        assert(all.contains(all[p]) && all.contains(all[q]));
        if i == j {
            assert(!listed_before(facts, i, j));
        }
        assert(facts[i].bits != facts[j].bits);
    }
    assert forall|f: FactView| listed.to_set().contains(f) <==> facts.contains(f) && kept(f, params) by {
        if listed.to_set().contains(f) {
            let p = choose|p: int| 0 <= p < listed.len() && listed[p] == f;
            assert(all.contains(all[p]));
            assert(facts[all[p] as int] == f);
        }
        if facts.contains(f) && kept(f, params) {
            let k = choose|k: int| 0 <= k < facts.len() && facts[k] == f;
            assert((k as usize) as int == k);
            assert(all.contains(k as usize));
            let p = choose|p: int| 0 <= p < all.len() && all[p] == k as usize;
            assert(listed[p] == f);
        }
    }
    assert(listed.to_set() =~= Set::new(|f: FactView| facts.contains(f) && kept(f, params)));
}

/// A listing does not depend on the order the world hands its entities over in: two readings of
/// the same entities list the same entities, by their bits, in the same order, and cut the same
/// number. It is why the listing is sorted at all: with the world's own order, the limit would cut
/// a different set every call.
pub proof fn lemma_the_listing_ignores_iteration_order(
    params: ListParams,
    a: Seq<FactView>,
    b: Seq<FactView>,
    listed_a: Seq<usize>,
    truncated_a: nat,
    listed_b: Seq<usize>,
    truncated_b: nat,
)
    requires
        a.to_set() == b.to_set(),
        a.len() <= usize::MAX,
        b.len() <= usize::MAX,
        distinct_bits(a),
        distinct_bits(b),
        listing_answered(a, params, listed_a, truncated_a),
        listing_answered(b, params, listed_b, truncated_b),
    ensures
        listed_a.map_values(|i: usize| a[i as int].bits) == listed_b.map_values(|i: usize| b[i as int].bits),
        truncated_a == truncated_b,
{
    let limit: nat = match params.limit {
        Some(l) => l as nat,
        None => DEFAULT_LIMIT as nat,
    };
    let all_a = choose|all: Seq<usize>|
        #![trigger listed_in_order(a, all)]
        listed_in_order(a, all) && (forall|i: usize| all.contains(i) <==> (i < a.len() && kept(a[i as int], params)))
            && {
            let n: nat = if all.len() > limit { limit } else { all.len() };
            listed_a == all.take(n as int) && truncated_a == all.len() - n
        };
    let all_b = choose|all: Seq<usize>|
        #![trigger listed_in_order(b, all)]
        listed_in_order(b, all) && (forall|i: usize| all.contains(i) <==> (i < b.len() && kept(b[i as int], params)))
            && {
            let n: nat = if all.len() > limit { limit } else { all.len() };
            listed_b == all.take(n as int) && truncated_b == all.len() - n
        };
    lemma_listed_entities(a, params, all_a);
    lemma_listed_entities(b, params, all_b);
    let ka = all_a.map_values(|i: usize| a[i as int]);
    let kb = all_b.map_values(|i: usize| b[i as int]);
    assert(Set::new(|f: FactView| a.contains(f) && kept(f, params)) =~= Set::new(
        |f: FactView| b.contains(f) && kept(f, params),
    )) by {
        assert forall|f: FactView| a.contains(f) <==> b.contains(f) by {
            assert(a.to_set().contains(f) == a.contains(f));
            assert(b.to_set().contains(f) == b.contains(f));
            assert(a.to_set().contains(f) == b.to_set().contains(f));
        }
    }
    lemma_facts_in_order_unique(ka, kb);
    assert(all_a.len() == all_b.len());
    let n: nat = if all_a.len() > limit { limit } else { all_a.len() };
    assert(listed_a.map_values(|i: usize| a[i as int].bits) =~= ka.take(n as int).map_values(|f: FactView| f.bits));
    assert(listed_b.map_values(|i: usize| b[i as int].bits) =~= kb.take(n as int).map_values(|f: FactView| f.bits));
}

/// Answers `game.entities.list` over the world's entities, as read.
pub fn list(facts: &Vec<EntityFacts>, params: &ListParams) -> (out: Listing)
    ensures
        listing_answered(fact_views(facts@), *params, out.entities@, out.truncated as nat),
{
    let ghost fv = fact_views(facts@);
    let name_needle = match &params.name_contains {
        Some(n) => Some(lower(n.as_str())),
        None => None,
    };
    let mut component_needles: Vec<String> = Vec::new();
    let mut c: usize = 0;
    while c < params.with_components.len()
        invariant
            c <= params.with_components@.len(),
            component_needles@.len() == c,
            forall|k: int| 0 <= k < c ==> #[trigger] component_needles@[k]@ == lowercase(params.with_components@[k]@),
        decreases params.with_components@.len() - c,
    {
        component_needles.push(lower(params.with_components[c].as_str()));
        c = c + 1;
    }
    let mut matched: Vec<usize> = Vec::new();
    let mut i: usize = 0;
    while i < facts.len()
        invariant
            i <= facts@.len(),
            fv == fact_views(facts@),
            name_needle matches Some(n) ==> opt_text(params.name_contains) matches Some(m) && n@ == lowercase(m),
            name_needle is None ==> params.name_contains is None,
            component_needles@.len() == params.with_components@.len(),
            forall|k: int| 0 <= k < component_needles@.len() ==> #[trigger] component_needles@[k]@ == lowercase(params.with_components@[k]@),
            listed_in_order(fv, matched@),
            forall|x: usize| matched@.contains(x) <==> (x < i && kept(fv[x as int], *params)),
        decreases facts@.len() - i,
    {
        let keep = keeps(&facts[i], params, &name_needle, &component_needles);
        proof {
            assert(fact_views(seq![facts@[i as int]])[0] == fv[i as int]);
        }
        if keep {
            proof {
                assert forall|q: int| 0 <= q < matched@.len() implies matched@[q] < i by {
                    assert(matched@.contains(matched@[q]));
                }
            }
            let mut p: usize = 0;
            while p < matched.len() && !before(facts, i, matched[p])
                invariant
                    p <= matched@.len(),
                    i < facts@.len(),
                    fv == fact_views(facts@),
                    forall|q: int| 0 <= q < matched@.len() ==> matched@[q] < i,
                    forall|q: int| 0 <= q < p ==> !listed_before(fv, i as int, #[trigger] matched@[q] as int),
                decreases matched@.len() - p,
            {
                p = p + 1;
            }
            let ghost old_matched = matched@;
            matched.insert(p, i);
            proof {
                let m = matched@;
                assert(m =~= old_matched.insert(p as int, i));
                assert forall|a: int, b: int| 0 <= a < b < m.len() implies listed_before(fv, #[trigger] m[a] as int, #[trigger] m[b] as int) by {
                    if a == p {
                        if b == p + 1 {
                        } else {
                            lemma_listed_before_transitive(fv, i as int, old_matched[p as int] as int, old_matched[b - 1] as int);
                        }
                    } else if b == p {
                        assert(old_matched.contains(old_matched[a]));
                        assert(old_matched[a] < i);
                        lemma_listed_before_total(fv, i as int, old_matched[a] as int);
                    } else if a < p && b > p {
                    } else if a > p {
                    }
                }
                assert forall|x: usize| m.contains(x) <==> (x < i + 1 && kept(fv[x as int], *params)) by {
                    if m.contains(x) && x != i {
                        let q = choose|q: int| 0 <= q < m.len() && m[q] == x;
                        if q < p {
                            assert(old_matched[q] == x);
                        } else {
                            assert(old_matched[q - 1] == x);
                        }
                        assert(old_matched.contains(x));
                    }
                    if x < i && kept(fv[x as int], *params) {
                        assert(old_matched.contains(x));
                        let q = choose|q: int| 0 <= q < old_matched.len() && old_matched[q] == x;
                        if q < p {
                            assert(m[q] == x);
                        } else {
                            assert(m[q + 1] == x);
                        }
                    }
                    if x == i {
                        assert(m[p as int] == i);
                    }
                }
            }
        }
        i = i + 1;
    }
    let limit = match params.limit {
        Some(l) => l,
        None => DEFAULT_LIMIT,
    };
    let ghost all = matched@;
    let n = if matched.len() > limit { limit } else { matched.len() };
    let truncated = matched.len() - n;
    matched.truncate(n);
    Listing { entities: matched, truncated }
}

} // verus!
