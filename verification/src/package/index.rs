//! Folding a resolved scan into one index, and saying what happened on the way.
//!
//! One pass over the packages in load order. Each package's `removes` run first, then its
//! claims: a later claim on an alias replaces an earlier one, which is what an override is, and
//! every replacement of another package's claim becomes a contested alias. Then the package's
//! intent is judged both ways round: an alias taken from a package its `overrides` never named,
//! and an `overrides` entry that took nothing.

use crate::alias::index::{refusal_text, refused_with, valid_alias, AliasError, ContentIndex};
use crate::alias::problem::{copy_problems, problem_views, DiscoveredAsset, Problem, ProblemKind, ProblemView};
use crate::alias::table::AliasTable;
use crate::package::edges::{distinct_pairs, pairs_of, ConstraintSource, OrderEdges};
use crate::package::manifest::{Package, Version};
use crate::package::resolve::{copy_disabled, id_of, same_disabled, same_version, Disabled};
use crate::package::edges::contains_id;
use crate::text::{insert_sorted, lemma_sorted_texts_unique, sorted_texts, views};
use vstd::prelude::*;

verus! {

/// A package as a contest names it.
#[derive(Debug, Clone, PartialEq, Eq)]
pub struct PackageRef {
    pub id: String,
    pub version: Version,
}

/// How two unordered packages were ordered anyway.
#[derive(Debug, Clone, PartialEq, Eq)]
pub enum Tiebreak {
    /// Both in one search path: the directory name sorted the winner later.
    DirectoryName { search_path: String },
    /// The winner's search path comes later in the target's list.
    SearchPath { winner: String, loser: String },
}

/// Why the winner of a contested alias won.
#[derive(Debug, Clone, PartialEq, Eq)]
pub enum ContestReason {
    /// A constraint ordered the two. `direct` when one edge did; otherwise a chain did, and
    /// `source` names the winner's own manifest as the closest place to look.
    Ordered { source: ConstraintSource, direct: bool },
    /// Nothing ordered them: the baseline did.
    Unordered { tiebreak: Tiebreak },
}

/// An alias more than one package claimed, and why the winner won.
#[derive(Debug, Clone, PartialEq, Eq)]
pub struct ContestedAlias {
    pub alias: String,
    pub winner: PackageRef,
    pub loser: PackageRef,
    pub reason: ContestReason,
}

/// One package that made it into the index.
#[derive(Debug, Clone, PartialEq, Eq)]
pub struct PackageSummary {
    pub id: String,
    pub version: Version,
    pub root: String,
    /// Aliases this package registered: its discovered assets minus whatever was rejected.
    pub aliases: usize,
}

/// Everything one content scan found, problems included.
pub struct ContentReport {
    /// In load order.
    pub packages: Vec<PackageSummary>,
    /// Found on disk and deliberately not loaded.
    pub disabled: Vec<Disabled>,
    /// Every alias more than one package claimed, and why the winner won.
    pub contests: Vec<ContestedAlias>,
    pub problems: Vec<Problem>,
}

/// What a package scan produced: the packages in load order, what was left out and why, and the
/// constraints that ordered the rest.
pub struct Scan {
    pub packages: Vec<Package>,
    pub disabled: Vec<Disabled>,
    pub problems: Vec<Problem>,
    pub edges: OrderEdges,
}

impl Scan {
    /// A scan that found nothing.
    pub fn new() -> (out: Scan)
        ensures
            out.packages@.len() == 0,
            out.disabled@.len() == 0,
            out.problems@.len() == 0,
            out.edges@.edges.len() == 0,
            out.edges.well_formed(),
    {
        Scan { packages: Vec::new(), disabled: Vec::new(), problems: Vec::new(), edges: OrderEdges::new() }
    }
}

/// The fold's bookkeeping, as the contracts see it.
pub struct FoldView {
    /// Which file each alias names.
    pub index: Map<Seq<char>, Seq<char>>,
    /// Which package holds each alias now.
    pub holders: Map<Seq<char>, usize>,
    /// Every package that has held each alias, a removal notwithstanding.
    pub claimants: Map<Seq<char>, Seq<usize>>,
    /// Each contest: the alias, the winner and the loser.
    pub contests: Seq<(Seq<char>, usize, usize)>,
    pub problems: Seq<ProblemView>,
    /// How many aliases each package registered.
    pub counts: Seq<nat>,
}

/// One package's claims so far: the fold, the packages it took an alias from without naming,
/// the packages it took any alias from, and how many aliases it registered.
pub struct ClaimView {
    pub fold: FoldView,
    pub undeclared: Set<Seq<char>>,
    pub overridden: Set<Seq<char>>,
    pub count: nat,
}

/// What a report says of a `removes` entry that matched nothing.
pub open spec fn dead_removal_text(id: Seq<char>, alias: Seq<char>) -> Seq<char> {
    id + " removes `"@ + alias + "`, which no package before it provides"@
}

/// What a report says of an alias taken from a package `overrides` never named.
pub open spec fn undeclared_text(id: Seq<char>, other: Seq<char>) -> Seq<char> {
    id + " overrides an alias of `"@ + other + "` without naming it in `overrides`"@
}

/// What a report says of an `overrides` entry that took nothing.
pub open spec fn dead_override_text(id: Seq<char>, other: Seq<char>) -> Seq<char> {
    id + " declares `overrides = [\""@ + other + "\"]` but claims none of its aliases"@
}

/// The packages that have held alias `a`.
pub open spec fn claimants_of(f: FoldView, a: Seq<char>) -> Seq<usize> {
    if f.claimants.contains_key(a) {
        f.claimants[a]
    } else {
        Seq::empty()
    }
}

/// The ids of the packages among `held` other than package `i`.
pub open spec fn earlier_holders(packages: Seq<Package>, held: Seq<usize>, i: usize) -> Set<Seq<char>> {
    Set::new(
        |id: Seq<char>|
            exists|t: int| 0 <= t < held.len() && held[t] != i && #[trigger] id_of(packages, held[t] as int) == id,
    )
}

/// Some package among `held` other than package `i` is named in `overrides`.
pub open spec fn declared(packages: Seq<Package>, held: Seq<usize>, i: usize, overrides: Seq<Seq<char>>) -> bool {
    exists|t: int| 0 <= t < held.len() && held[t] != i && overrides.contains(#[trigger] id_of(packages, held[t] as int))
}

/// The fold after the first `k` of package `i`'s `removes`.
pub open spec fn after_removes(packages: Seq<Package>, i: usize, start: FoldView, k: nat) -> FoldView
    decreases k,
{
    if k == 0 {
        start
    } else {
        let f = after_removes(packages, i, start, (k - 1) as nat);
        let info = packages[i as int].manifest.package;
        let a = info.removes@[k - 1]@;
        if f.index.contains_key(a) {
            FoldView {
                index: f.index.remove(a),
                holders: f.holders.remove(a),
                claimants: f.claimants,
                contests: f.contests,
                problems: f.problems,
                counts: f.counts,
            }
        } else {
            FoldView {
                index: f.index,
                holders: f.holders,
                claimants: f.claimants,
                contests: f.contests,
                problems: f.problems.push(
                    (packages[i as int].root@, ProblemKind::DeadRemoval, dead_removal_text(info.id@, a)),
                ),
                counts: f.counts,
            }
        }
    }
}

/// The fold after package `i` claims `asset`.
pub open spec fn claim_step(packages: Seq<Package>, i: usize, c: ClaimView, asset: DiscoveredAsset) -> ClaimView {
    let a = asset.alias@;
    let f = c.fold;
    if valid_alias(a) {
        let held = claimants_of(f, a);
        let previous = earlier_holders(packages, held, i);
        let named = declared(packages, held, i, views(packages[i as int].manifest.package.overrides@));
        ClaimView {
            fold: FoldView {
                index: f.index.insert(a, asset.path@),
                holders: f.holders.insert(a, i),
                claimants: f.claimants.insert(a, if held.contains(i) { held } else { held.push(i) }),
                contests: if f.holders.contains_key(a) && f.holders[a] != i {
                    f.contests.push((a, i, f.holders[a]))
                } else {
                    f.contests
                },
                problems: f.problems,
                counts: f.counts,
            },
            undeclared: if named { c.undeclared } else { c.undeclared.union(previous) },
            overridden: c.overridden.union(previous),
            count: c.count + 1,
        }
    } else {
        ClaimView {
            fold: FoldView {
                index: f.index,
                holders: f.holders,
                claimants: f.claimants,
                contests: f.contests,
                problems: f.problems.push((asset.path@, ProblemKind::InvalidAlias, refusal_text(a))),
                counts: f.counts,
            },
            undeclared: c.undeclared,
            overridden: c.overridden,
            count: c.count,
        }
    }
}

/// The fold after package `i` claims its first `k` assets.
pub open spec fn after_claims(packages: Seq<Package>, i: usize, start: FoldView, k: nat) -> ClaimView
    decreases k,
{
    if k == 0 {
        ClaimView { fold: start, undeclared: Set::empty(), overridden: Set::empty(), count: 0 }
    } else {
        claim_step(
            packages,
            i,
            after_claims(packages, i, start, (k - 1) as nat),
            packages[i as int].assets@[k - 1],
        )
    }
}

/// The texts of `s`, sorted.
pub open spec fn sorted_of(s: Set<Seq<char>>) -> Seq<Seq<char>> {
    choose|q: Seq<Seq<char>>| sorted_texts(q) && q.to_set() == s
}

/// One problem per `overrides` entry outside `overridden`, in list order.
pub open spec fn dead_overrides(
    root: Seq<char>,
    id: Seq<char>,
    overrides: Seq<Seq<char>>,
    overridden: Set<Seq<char>>,
) -> Seq<ProblemView>
    decreases overrides.len(),
{
    if overrides.len() == 0 {
        Seq::empty()
    } else {
        let rest = dead_overrides(root, id, overrides.drop_last(), overridden);
        if overridden.contains(overrides.last()) {
            rest
        } else {
            rest.push((root, ProblemKind::DeadOverride, dead_override_text(id, overrides.last())))
        }
    }
}

/// The fold after package `i`: its removes, its claims, then its intent judged.
pub open spec fn after_package(packages: Seq<Package>, start: FoldView, i: usize) -> FoldView {
    let info = packages[i as int].manifest.package;
    let root = packages[i as int].root@;
    let c = after_claims(packages, i, after_removes(packages, i, start, info.removes@.len()), packages[i as int].assets@.len());
    let undeclared = sorted_of(c.undeclared);
    FoldView {
        index: c.fold.index,
        holders: c.fold.holders,
        claimants: c.fold.claimants,
        contests: c.fold.contests,
        problems: c.fold.problems + Seq::new(
            undeclared.len(),
            |k: int| (root, ProblemKind::UndeclaredOverride, undeclared_text(info.id@, undeclared[k])),
        ) + dead_overrides(root, info.id@, views(info.overrides@), c.overridden),
        counts: c.fold.counts.push(c.count),
    }
}

/// The fold after the first `n` packages, starting from the scan's own problems.
pub open spec fn after_packages(packages: Seq<Package>, problems: Seq<ProblemView>, n: nat) -> FoldView
    decreases n,
{
    if n == 0 {
        FoldView {
            index: Map::empty(),
            holders: Map::empty(),
            claimants: Map::empty(),
            contests: Seq::empty(),
            problems,
            counts: Seq::empty(),
        }
    } else {
        after_package(packages, after_packages(packages, problems, (n - 1) as nat), (n - 1) as usize)
    }
}

/// `r` names package `i` of `packages`.
pub open spec fn names_package(packages: Seq<Package>, i: int, r: PackageRef) -> bool {
    r.id@ == id_of(packages, i) && same_version(r.version, packages[i].manifest.package.version)
}

/// What a contest over `alias`, won by package `w` and lost by package `l`, says.
pub open spec fn contest_ok(scan_packages: Seq<Package>, edges: crate::package::edges::OrderEdgesView, alias: Seq<char>, w: int, l: int, c: ContestedAlias) -> bool {
    let wid = id_of(scan_packages, w);
    let lid = id_of(scan_packages, l);
    let wp = scan_packages[w].search_path@;
    let lp = scan_packages[l].search_path@;
    &&& c.alias@ == alias
    &&& names_package(scan_packages, w, c.winner)
    &&& names_package(scan_packages, l, c.loser)
    &&& if pairs_of(edges.edges).contains((lid, wid)) {
        c.reason matches ContestReason::Ordered { source, direct } && direct && exists|k: int|
            0 <= k < edges.edges.len() && #[trigger] edges.edges[k] == (lid, wid, source)
    } else if edges.ordered.contains((lid, wid)) {
        c.reason == ContestReason::Ordered { source: ConstraintSource::Manifest(scan_packages[w].manifest.package.id), direct: false }
    } else if wp == lp {
        c.reason matches ContestReason::Unordered { tiebreak: Tiebreak::DirectoryName { search_path } } && search_path@ == wp
    } else {
        c.reason matches ContestReason::Unordered { tiebreak: Tiebreak::SearchPath { winner, loser } } && winner@ == wp && loser@ == lp
    }
}

/// Works out why package `winner` beat package `loser` for `alias`.
fn contest(scan: &Scan, alias: &String, winner: usize, loser: usize) -> (out: ContestedAlias)
    requires
        winner < scan.packages@.len(),
        loser < scan.packages@.len(),
        scan.edges.well_formed(),
        distinct_pairs(scan.edges@.edges),
    ensures
        contest_ok(scan.packages@, scan.edges@, alias@, winner as int, loser as int, out),
{
    let winner_pkg = &scan.packages[winner];
    let loser_pkg = &scan.packages[loser];
    let winner_id = &winner_pkg.manifest.package.id;
    let loser_id = &loser_pkg.manifest.package.id;
    let reason = match scan.edges.direct(loser_id.as_str(), winner_id.as_str()) {
        Some(source) => ContestReason::Ordered { source: source.duplicate(), direct: true },
        None => {
            if scan.edges.ordered(loser_id.as_str(), winner_id.as_str()) {
                ContestReason::Ordered { source: ConstraintSource::Manifest(winner_id.clone()), direct: false }
            } else if crate::text::str_eq(winner_pkg.search_path.as_str(), loser_pkg.search_path.as_str()) {
                ContestReason::Unordered {
                    tiebreak: Tiebreak::DirectoryName { search_path: winner_pkg.search_path.clone() },
                }
            } else {
                ContestReason::Unordered {
                    tiebreak: Tiebreak::SearchPath {
                        winner: winner_pkg.search_path.clone(),
                        loser: loser_pkg.search_path.clone(),
                    },
                }
            }
        },
    };
    ContestedAlias {
        alias: alias.clone(),
        winner: PackageRef { id: winner_id.clone(), version: winner_pkg.manifest.package.version.duplicate() },
        loser: PackageRef { id: loser_id.clone(), version: loser_pkg.manifest.package.version.duplicate() },
        reason,
    }
}

/// The fold's bookkeeping holds only positions of packages among the first `n`.
pub open spec fn fold_bounded(f: FoldView, n: int) -> bool {
    &&& forall|a: Seq<char>| #[trigger] f.holders.contains_key(a) ==> f.holders[a] < n
    &&& forall|a: Seq<char>, t: int|
        f.claimants.contains_key(a) && 0 <= t < f.claimants[a].len() ==> #[trigger] f.claimants[a][t] < n
    &&& forall|k: int| 0 <= k < f.contests.len() ==> (#[trigger] f.contests[k]).1 < n && f.contests[k].2 < n
}

/// What the summary of package `i`, which registered `count` aliases, says.
pub open spec fn summary_ok(packages: Seq<Package>, i: int, s: PackageSummary, count: nat) -> bool {
    &&& s.id@ == id_of(packages, i)
    &&& same_version(s.version, packages[i].manifest.package.version)
    &&& s.root@ == packages[i].root@
    &&& s.aliases == count
}

/// The fold's working state.
struct Fold {
    index: ContentIndex,
    holders: AliasTable<usize>,
    claimants: AliasTable<Vec<usize>>,
    contests: Vec<ContestedAlias>,
    problems: Vec<Problem>,
    summaries: Vec<PackageSummary>,
}

impl Fold {
    /// The working state is `v`, every contest record says what its entry in `v` says, and
    /// every summary names its package.
    spec fn matches(&self, packages: Seq<Package>, edges: crate::package::edges::OrderEdgesView, v: FoldView) -> bool {
        &&& self.index@ == v.index
        &&& self.holders@ == v.holders
        &&& self.claimants@.dom() == v.claimants.dom()
        &&& forall|a: Seq<char>| #[trigger] v.claimants.contains_key(a) ==> self.claimants@[a]@ == v.claimants[a]
        &&& self.contests@.len() == v.contests.len()
        &&& forall|k: int|
            0 <= k < v.contests.len() ==> contest_ok(
                packages,
                edges,
                v.contests[k].0,
                v.contests[k].1 as int,
                v.contests[k].2 as int,
                #[trigger] self.contests@[k],
            )
        &&& problem_views(self.problems@) == v.problems
        &&& self.summaries@.len() == v.counts.len()
        &&& forall|k: int| 0 <= k < v.counts.len() ==> summary_ok(packages, k, #[trigger] self.summaries@[k], v.counts[k])
    }
}

/// A copy of a list of positions.
fn copy_positions(list: &Vec<usize>) -> (out: Vec<usize>)
    ensures
        out@ == list@,
{
    let mut out: Vec<usize> = Vec::new();
    let mut k: usize = 0;
    while k < list.len()
        invariant
            k <= list@.len(),
            out@ == list@.take(k as int),
        decreases list@.len() - k,
    {
        out.push(list[k]);
        proof {
            assert(list@.take(k + 1) =~= list@.take(k as int).push(list@[k as int]));
        }
        k = k + 1;
    }
    proof {
        assert(list@.take(list@.len() as int) =~= list@);
    }
    out
}

/// Whether `list` holds `x`.
fn holds_position(list: &Vec<usize>, x: usize) -> (out: bool)
    ensures
        out == list@.contains(x),
{
    let mut k: usize = 0;
    while k < list.len()
        invariant
            k <= list@.len(),
            forall|j: int| 0 <= j < k ==> #[trigger] list@[j] != x,
        decreases list@.len() - k,
    {
        if list[k] == x {
            proof {
                assert(list@[k as int] == x);
            }
            return true;
        }
        k = k + 1;
    }
    false
}

proof fn lemma_push_to_set(s: Seq<Seq<char>>, x: Seq<char>)
    ensures
        s.push(x).to_set() == s.to_set().insert(x),
{
    assert forall|y: Seq<char>| s.push(x).to_set().contains(y) == s.to_set().insert(x).contains(y) by {
        if s.push(x).to_set().contains(y) && y != x {
            let k = choose|k: int| 0 <= k < s.push(x).len() && s.push(x)[k] == y;
            assert(s[k] == y);
        }
        if s.to_set().contains(y) {
            let k = choose|k: int| 0 <= k < s.len() && s[k] == y;
            assert(s.push(x)[k] == y);
        }
        if y == x {
            assert(s.push(x)[s.len() as int] == y);
        }
    }
    assert(s.push(x).to_set() =~= s.to_set().insert(x));
}

/// Package `i` claims `asset`: it lands in the index unless the alias breaks the rule, beating
/// whoever held it, and the packages it took the alias from are noted for the intent checks.
fn claim_one(
    scan: &Scan,
    i: usize,
    f: &mut Fold,
    undeclared: &mut Vec<String>,
    overridden: &mut Vec<String>,
    asset: &DiscoveredAsset,
    c: Ghost<ClaimView>,
)
    requires
        i < scan.packages@.len(),
        scan.edges.well_formed(),
        distinct_pairs(scan.edges@.edges),
        old(f).matches(scan.packages@, scan.edges@, c@.fold),
        fold_bounded(c@.fold, scan.packages@.len() as int),
        sorted_texts(views(old(undeclared)@)),
        views(old(undeclared)@).to_set() == c@.undeclared,
        views(old(overridden)@).to_set() == c@.overridden,
    ensures
        final(f).matches(scan.packages@, scan.edges@, claim_step(scan.packages@, i, c@, *asset).fold),
        fold_bounded(claim_step(scan.packages@, i, c@, *asset).fold, scan.packages@.len() as int),
        sorted_texts(views(final(undeclared)@)),
        views(final(undeclared)@).to_set() == claim_step(scan.packages@, i, c@, *asset).undeclared,
        views(final(overridden)@).to_set() == claim_step(scan.packages@, i, c@, *asset).overridden,
{
    let ghost packages = scan.packages@;
    let ghost n = packages.len() as int;
    let ghost next = claim_step(packages, i, c@, *asset);
    let ghost v = c@.fold;
    let alias = &asset.alias;
    match f.index.insert(alias.as_str(), asset.path.as_str()) {
        Err(e) => {
            let detail = e.describe();
            let ghost before = f.problems@;
            f.problems.push(Problem { path: asset.path.clone(), kind: ProblemKind::InvalidAlias, detail });
            proof {
                crate::alias::index::lemma_refusal_text(alias@, e);
                assert(problem_views(f.problems@) =~= problem_views(before).push(
                    (asset.path@, ProblemKind::InvalidAlias, refusal_text(alias@)),
                ));
            }
        },
        Ok(_) => {
            let ghost held_spec = claimants_of(v, alias@);
            match f.holders.get(alias.as_str()) {
                Some(h) => {
                    let h = *h;
                    if h != i {
                        let record = contest(scan, alias, i, h);
                        f.contests.push(record);
                    }
                },
                None => {},
            }
            let held: Vec<usize> = match f.claimants.get(alias.as_str()) {
                Some(list) => copy_positions(list),
                None => Vec::new(),
            };
            proof {
                assert(held@ == held_spec);
            }
            let overrides = &scan.packages[i].manifest.package.overrides;
            let mut previous: Vec<String> = Vec::new();
            let mut named = false;
            let mut t: usize = 0;
            while t < held.len()
                invariant
                    t <= held@.len(),
                    held@ == held_spec,
                    i < n,
                    n == packages.len(),
                    packages == scan.packages@,
                    *overrides == packages[i as int].manifest.package.overrides,
                    forall|q: int| 0 <= q < held@.len() ==> #[trigger] held@[q] < n,
                    views(previous@).to_set() == earlier_holders(packages, held@.take(t as int), i),
                    named == declared(packages, held@.take(t as int), i, views(overrides@)),
                decreases held@.len() - t,
            {
                let ghost before = previous@;
                proof {
                    assert(held@.take(t + 1) =~= held@.take(t as int).push(held@[t as int]));
                }
                if held[t] != i {
                    let id = &scan.packages[held[t]].manifest.package.id;
                    previous.push(id.clone());
                    if contains_id(overrides, id.as_str()) {
                        named = true;
                    }
                    proof {
                        lemma_push_to_set(views(before), id@);
                        assert(views(previous@) =~= views(before).push(id@));
                        let prev_set = earlier_holders(packages, held@.take(t as int), i);
                        let next_set = earlier_holders(packages, held@.take(t + 1), i);
                        assert forall|x: Seq<char>| next_set.contains(x) == prev_set.insert(id@).contains(x) by {
                            if next_set.contains(x) {
                                let q = choose|q: int| 0 <= q < held@.take(t + 1).len() && held@.take(t + 1)[q] != i && #[trigger] id_of(packages, held@.take(t + 1)[q] as int) == x;
                                if q < t {
                                    assert(held@.take(t as int)[q] == held@.take(t + 1)[q]);
                                }
                            }
                            if prev_set.contains(x) {
                                let q = choose|q: int| 0 <= q < held@.take(t as int).len() && held@.take(t as int)[q] != i && #[trigger] id_of(packages, held@.take(t as int)[q] as int) == x;
                                assert(held@.take(t + 1)[q] == held@.take(t as int)[q]);
                            }
                            if x == id@ {
                                assert(held@.take(t + 1)[t as int] == held@[t as int]);
                                assert(id_of(packages, held@.take(t + 1)[t as int] as int) == x);
                            }
                        }
                        assert(next_set =~= prev_set.insert(id@));
                        let o = views(overrides@);
                        if declared(packages, held@.take(t + 1), i, o) {
                            let q = choose|q: int| 0 <= q < held@.take(t + 1).len() && held@.take(t + 1)[q] != i && o.contains(#[trigger] id_of(packages, held@.take(t + 1)[q] as int));
                            if q < t {
                                assert(held@.take(t as int)[q] == held@.take(t + 1)[q]);
                            }
                        }
                        if declared(packages, held@.take(t as int), i, o) {
                            let q = choose|q: int| 0 <= q < held@.take(t as int).len() && held@.take(t as int)[q] != i && o.contains(#[trigger] id_of(packages, held@.take(t as int)[q] as int));
                            assert(held@.take(t + 1)[q] == held@.take(t as int)[q]);
                        }
                        if o.contains(id@) {
                            assert(held@.take(t + 1)[t as int] == held@[t as int]);
                            assert(o.contains(id_of(packages, held@.take(t + 1)[t as int] as int)));
                        }
                    }
                } else {
                    proof {
                        let prev_set = earlier_holders(packages, held@.take(t as int), i);
                        let next_set = earlier_holders(packages, held@.take(t + 1), i);
                        assert forall|x: Seq<char>| next_set.contains(x) == prev_set.contains(x) by {
                            if next_set.contains(x) {
                                let q = choose|q: int| 0 <= q < held@.take(t + 1).len() && held@.take(t + 1)[q] != i && #[trigger] id_of(packages, held@.take(t + 1)[q] as int) == x;
                                assert(q != t);
                                assert(held@.take(t as int)[q] == held@.take(t + 1)[q]);
                            }
                            if prev_set.contains(x) {
                                let q = choose|q: int| 0 <= q < held@.take(t as int).len() && held@.take(t as int)[q] != i && #[trigger] id_of(packages, held@.take(t as int)[q] as int) == x;
                                assert(held@.take(t + 1)[q] == held@.take(t as int)[q]);
                            }
                        }
                        assert(next_set =~= prev_set);
                        let o = views(overrides@);
                        if declared(packages, held@.take(t + 1), i, o) {
                            let q = choose|q: int| 0 <= q < held@.take(t + 1).len() && held@.take(t + 1)[q] != i && o.contains(#[trigger] id_of(packages, held@.take(t + 1)[q] as int));
                            assert(q != t);
                            assert(held@.take(t as int)[q] == held@.take(t + 1)[q]);
                        }
                        if declared(packages, held@.take(t as int), i, o) {
                            let q = choose|q: int| 0 <= q < held@.take(t as int).len() && held@.take(t as int)[q] != i && o.contains(#[trigger] id_of(packages, held@.take(t as int)[q] as int));
                            assert(held@.take(t + 1)[q] == held@.take(t as int)[q]);
                        }
                    }
                }
                t = t + 1;
            }
            proof {
                assert(held@.take(held@.len() as int) =~= held@);
            }
            let ghost prev = views(previous@);
            if !named {
                let ghost start = views(undeclared@).to_set();
                let mut p: usize = 0;
                while p < previous.len()
                    invariant
                        p <= previous@.len(),
                        prev == views(previous@),
                        sorted_texts(views(undeclared@)),
                        views(undeclared@).to_set() == start.union(prev.take(p as int).to_set()),
                    decreases previous@.len() - p,
                {
                    insert_sorted(undeclared, &previous[p]);
                    proof {
                        assert(prev.take(p + 1) =~= prev.take(p as int).push(prev[p as int]));
                        lemma_push_to_set(prev.take(p as int), prev[p as int]);
                        assert(views(undeclared@).to_set() =~= start.union(prev.take(p + 1).to_set()));
                    }
                    p = p + 1;
                }
                proof {
                    assert(prev.take(prev.len() as int) =~= prev);
                }
            }
            let ghost start_o = views(overridden@).to_set();
            let mut p: usize = 0;
            while p < previous.len()
                invariant
                    p <= previous@.len(),
                    prev == views(previous@),
                    views(overridden@).to_set() == start_o.union(prev.take(p as int).to_set()),
                decreases previous@.len() - p,
            {
                let ghost before = views(overridden@);
                overridden.push(previous[p].clone());
                proof {
                    assert(views(overridden@) =~= before.push(prev[p as int]));
                    lemma_push_to_set(before, prev[p as int]);
                    assert(prev.take(p + 1) =~= prev.take(p as int).push(prev[p as int]));
                    lemma_push_to_set(prev.take(p as int), prev[p as int]);
                    assert(views(overridden@).to_set() =~= start_o.union(prev.take(p + 1).to_set()));
                }
                p = p + 1;
            }
            proof {
                assert(prev.take(prev.len() as int) =~= prev);
            }
            let mut list = held;
            if !holds_position(&list, i) {
                list.push(i);
            }
            let ghost new_list = list@;
            f.claimants.insert(alias.as_str(), list);
            f.holders.insert(alias.as_str(), i);
            proof {
                let nf = next.fold;
                assert(f.claimants@.dom() =~= nf.claimants.dom());
                assert forall|a: Seq<char>| #[trigger] nf.claimants.contains_key(a) implies f.claimants@[a]@ == nf.claimants[a] by {
                    if a != alias@ {
                        assert(v.claimants.contains_key(a));
                    }
                }
                assert forall|k: int| 0 <= k < nf.contests.len() implies contest_ok(
                    packages,
                    scan.edges@,
                    nf.contests[k].0,
                    nf.contests[k].1 as int,
                    nf.contests[k].2 as int,
                    #[trigger] f.contests@[k],
                ) by {
                    if k < v.contests.len() {
                        assert(nf.contests[k] == v.contests[k]);
                    }
                }
                assert forall|a: Seq<char>, q: int|
                    nf.claimants.contains_key(a) && 0 <= q < nf.claimants[a].len() implies #[trigger] nf.claimants[a][q] < n by {
                    if a != alias@ {
                        assert(v.claimants.contains_key(a));
                        assert(v.claimants[a][q] < n);
                    } else if q < held_spec.len() {
                        assert(nf.claimants[a][q] == held_spec[q]);
                    }
                }
                assert forall|a: Seq<char>| #[trigger] nf.holders.contains_key(a) implies nf.holders[a] < n by {
                    if a != alias@ {
                        assert(v.holders.contains_key(a));
                    }
                }
                assert forall|k: int| 0 <= k < nf.contests.len() implies (#[trigger] nf.contests[k]).1 < n && nf.contests[k].2 < n by {
                    if k < v.contests.len() {
                        assert(nf.contests[k] == v.contests[k]);
                    }
                }
            }
        },
    }
}

/// Package `i`'s `removes`, in order: each takes its alias out of the index, or is reported when
/// no package before it provides the alias.
fn fold_removes(scan: &Scan, i: usize, f: &mut Fold, start: Ghost<FoldView>)
    requires
        i < scan.packages@.len(),
        old(f).matches(scan.packages@, scan.edges@, start@),
        fold_bounded(start@, scan.packages@.len() as int),
    ensures
        final(f).matches(
            scan.packages@,
            scan.edges@,
            after_removes(scan.packages@, i, start@, scan.packages@[i as int].manifest.package.removes@.len()),
        ),
        fold_bounded(
            after_removes(scan.packages@, i, start@, scan.packages@[i as int].manifest.package.removes@.len()),
            scan.packages@.len() as int,
        ),
{
    let ghost packages = scan.packages@;
    let info = &scan.packages[i].manifest.package;
    let mut k: usize = 0;
    while k < info.removes.len()
        invariant
            k <= info.removes@.len(),
            i < packages.len(),
            packages == scan.packages@,
            *info == packages[i as int].manifest.package,
            f.matches(packages, scan.edges@, after_removes(packages, i, start@, k as nat)),
            fold_bounded(after_removes(packages, i, start@, k as nat), packages.len() as int),
        decreases info.removes@.len() - k,
    {
        let ghost v = after_removes(packages, i, start@, k as nat);
        let alias = &info.removes[k];
        match f.index.remove(alias.as_str()) {
            Some(_) => {
                f.holders.remove(alias.as_str());
                proof {
                    let nv = after_removes(packages, i, start@, (k + 1) as nat);
                    assert(v.index.contains_key(alias@));
                    assert(nv.index == v.index.remove(alias@));
                    assert(nv.holders == v.holders.remove(alias@));
                    assert(nv.claimants == v.claimants);
                    assert(nv.contests == v.contests);
                    assert(nv.problems == v.problems);
                    assert(nv.counts == v.counts);
                    assert forall|a: Seq<char>| #[trigger] nv.holders.contains_key(a) implies nv.holders[a] < packages.len() by {
                        assert(v.holders.contains_key(a));
                    }
                }
            },
            None => {
                proof {
                    assert(v.index.remove(alias@) =~= v.index);
                }
                let mut detail = info.id.clone();
                detail.append(" removes `");
                detail.append(alias.as_str());
                detail.append("`, which no package before it provides");
                let ghost before = f.problems@;
                f.problems.push(Problem { path: scan.packages[i].root.clone(), kind: ProblemKind::DeadRemoval, detail });
                proof {
                    assert(problem_views(f.problems@) =~= problem_views(before).push(
                        (packages[i as int].root@, ProblemKind::DeadRemoval, dead_removal_text(info.id@, alias@)),
                    ));
                }
            },
        }
        k = k + 1;
    }
}

/// Package `i`'s claims, in order. Returns the packages it took an alias from without naming
/// them, sorted, the packages it took any alias from, and how many aliases it registered.
fn fold_claims(scan: &Scan, i: usize, f: &mut Fold, start: Ghost<FoldView>) -> (out: (Vec<String>, Vec<String>, usize))
    requires
        i < scan.packages@.len(),
        scan.edges.well_formed(),
        distinct_pairs(scan.edges@.edges),
        old(f).matches(scan.packages@, scan.edges@, start@),
        fold_bounded(start@, scan.packages@.len() as int),
    ensures
        final(f).matches(
            scan.packages@,
            scan.edges@,
            after_claims(scan.packages@, i, start@, scan.packages@[i as int].assets@.len()).fold,
        ),
        fold_bounded(
            after_claims(scan.packages@, i, start@, scan.packages@[i as int].assets@.len()).fold,
            scan.packages@.len() as int,
        ),
        sorted_texts(views(out.0@)),
        views(out.0@).to_set() == after_claims(scan.packages@, i, start@, scan.packages@[i as int].assets@.len()).undeclared,
        views(out.1@).to_set() == after_claims(scan.packages@, i, start@, scan.packages@[i as int].assets@.len()).overridden,
        out.2 == after_claims(scan.packages@, i, start@, scan.packages@[i as int].assets@.len()).count,
{
    let ghost packages = scan.packages@;
    let assets = &scan.packages[i].assets;
    let mut undeclared: Vec<String> = Vec::new();
    let mut overridden: Vec<String> = Vec::new();
    let mut count: usize = 0;
    proof {
        assert(views(undeclared@).to_set() =~= Set::<Seq<char>>::empty());
        assert(views(overridden@).to_set() =~= Set::<Seq<char>>::empty());
    }
    let mut k: usize = 0;
    while k < assets.len()
        invariant
            k <= assets@.len(),
            i < packages.len(),
            packages == scan.packages@,
            *assets == packages[i as int].assets,
            scan.edges.well_formed(),
            distinct_pairs(scan.edges@.edges),
            f.matches(packages, scan.edges@, after_claims(packages, i, start@, k as nat).fold),
            fold_bounded(after_claims(packages, i, start@, k as nat).fold, packages.len() as int),
            sorted_texts(views(undeclared@)),
            views(undeclared@).to_set() == after_claims(packages, i, start@, k as nat).undeclared,
            views(overridden@).to_set() == after_claims(packages, i, start@, k as nat).overridden,
            count == after_claims(packages, i, start@, k as nat).count,
            count <= k,
        decreases assets@.len() - k,
    {
        let ghost c = after_claims(packages, i, start@, k as nat);
        let registered = crate::alias::index::validate_alias(assets[k].alias.as_str()).is_ok();
        claim_one(scan, i, f, &mut undeclared, &mut overridden, &assets[k], Ghost(c));
        if registered {
            count = count + 1;
        }
        k = k + 1;
    }
    (undeclared, overridden, count)
}

/// Folds package `i` in: its removes, its claims, then its intent judged, then its summary.
fn fold_package(scan: &Scan, i: usize, f: &mut Fold, start: Ghost<FoldView>)
    requires
        i < scan.packages@.len(),
        scan.edges.well_formed(),
        distinct_pairs(scan.edges@.edges),
        old(f).matches(scan.packages@, scan.edges@, start@),
        fold_bounded(start@, scan.packages@.len() as int),
        start@.counts.len() == i,
    ensures
        final(f).matches(scan.packages@, scan.edges@, after_package(scan.packages@, start@, i)),
        fold_bounded(after_package(scan.packages@, start@, i), scan.packages@.len() as int),
{
    let ghost packages = scan.packages@;
    let package = &scan.packages[i];
    let info = &package.manifest.package;
    fold_removes(scan, i, f, start);
    let ghost removed = after_removes(packages, i, start@, info.removes@.len());
    let (undeclared, overridden, count) = fold_claims(scan, i, f, Ghost(removed));
    let ghost c = after_claims(packages, i, removed, package.assets@.len());
    let ghost claimed = *f;
    proof {
        assert(claimed.matches(packages, scan.edges@, c.fold));
        lemma_removes_keep_counts(packages, i, start@, info.removes@.len());
        lemma_claims_keep_counts(packages, i, removed, package.assets@.len());
        lemma_sorted_texts_unique(views(undeclared@), sorted_of(c.undeclared));
    }
    let ghost sorted = sorted_of(c.undeclared);
    let ghost base = f.problems@;
    let ghost snap_index = f.index@;
    let ghost snap_holders = f.holders@;
    let ghost snap_claimants = f.claimants@;
    let ghost snap_contests = f.contests@;
    let ghost snap_summaries = f.summaries@;
    let mut k: usize = 0;
    while k < undeclared.len()
        invariant
            k <= undeclared@.len(),
            f.index@ == snap_index,
            f.holders@ == snap_holders,
            f.claimants@ == snap_claimants,
            f.contests@ == snap_contests,
            f.summaries@ == snap_summaries,
            views(undeclared@) == sorted,
            problem_views(f.problems@) == problem_views(base) + Seq::new(
                k as nat,
                |q: int| (package.root@, ProblemKind::UndeclaredOverride, undeclared_text(info.id@, sorted[q])),
            ),
        decreases undeclared@.len() - k,
    {
        let mut detail = info.id.clone();
        detail.append(" overrides an alias of `");
        detail.append(undeclared[k].as_str());
        detail.append("` without naming it in `overrides`");
        let ghost before = f.problems@;
        f.problems.push(Problem { path: package.root.clone(), kind: ProblemKind::UndeclaredOverride, detail });
        proof {
            assert(sorted[k as int] == undeclared@[k as int]@);
            assert(problem_views(f.problems@) =~= problem_views(before).push(
                (package.root@, ProblemKind::UndeclaredOverride, undeclared_text(info.id@, sorted[k as int])),
            ));
            assert(problem_views(f.problems@) =~= problem_views(base) + Seq::new(
                (k + 1) as nat,
                |q: int| (package.root@, ProblemKind::UndeclaredOverride, undeclared_text(info.id@, sorted[q])),
            ));
        }
        k = k + 1;
    }
    let ghost middle = f.problems@;
    let ghost overrides = views(info.overrides@);
    let mut m: usize = 0;
    while m < info.overrides.len()
        invariant
            m <= info.overrides@.len(),
            f.index@ == snap_index,
            f.holders@ == snap_holders,
            f.claimants@ == snap_claimants,
            f.contests@ == snap_contests,
            f.summaries@ == snap_summaries,
            overrides == views(info.overrides@),
            views(overridden@).to_set() == c.overridden,
            problem_views(f.problems@) == problem_views(middle) + dead_overrides(
                package.root@,
                info.id@,
                overrides.take(m as int),
                c.overridden,
            ),
        decreases info.overrides@.len() - m,
    {
        let other = &info.overrides[m];
        proof {
            assert(overrides.take(m + 1).drop_last() =~= overrides.take(m as int));
            assert(overrides.take(m + 1).last() == other@);
        }
        if !contains_id(&overridden, other.as_str()) {
            let mut detail = info.id.clone();
            detail.append(" declares `overrides = [\"");
            detail.append(other.as_str());
            detail.append("\"]` but claims none of its aliases");
            let ghost before = f.problems@;
            f.problems.push(Problem { path: package.root.clone(), kind: ProblemKind::DeadOverride, detail });
            proof {
                assert(problem_views(f.problems@) =~= problem_views(before).push(
                    (package.root@, ProblemKind::DeadOverride, dead_override_text(info.id@, other@)),
                ));
            }
        }
        m = m + 1;
    }
    proof {
        assert(overrides.take(overrides.len() as int) =~= overrides);
    }
    let ghost before_summaries = f.summaries@;
    f.summaries.push(
        PackageSummary {
            id: info.id.clone(),
            version: info.version.duplicate(),
            root: package.root.clone(),
            aliases: count,
        },
    );
    proof {
        let nv = after_package(packages, start@, i);
        assert(nv.counts == c.fold.counts.push(c.count));
        assert(f.summaries@.len() == nv.counts.len());
        assert(problem_views(f.problems@) =~= nv.problems);
        assert forall|q: int| 0 <= q < nv.counts.len() implies summary_ok(packages, q, #[trigger] f.summaries@[q], nv.counts[q]) by {
            if q < before_summaries.len() {
                assert(f.summaries@[q] == before_summaries[q]);
                assert(before_summaries[q] == claimed.summaries@[q]);
                assert(nv.counts[q] == c.fold.counts[q]);
            } else {
                assert(q == before_summaries.len());
                assert(nv.counts[q] == c.count);
                assert(f.summaries@[q].aliases == count);
            }
        }
    }
}


proof fn lemma_removes_keep_counts(packages: Seq<Package>, i: usize, start: FoldView, k: nat)
    ensures
        after_removes(packages, i, start, k).counts == start.counts,
    decreases k,
{
    if k > 0 {
        lemma_removes_keep_counts(packages, i, start, (k - 1) as nat);
    }
}

proof fn lemma_claims_keep_counts(packages: Seq<Package>, i: usize, start: FoldView, k: nat)
    ensures
        after_claims(packages, i, start, k).fold.counts == start.counts,
    decreases k,
{
    if k > 0 {
        lemma_claims_keep_counts(packages, i, start, (k - 1) as nat);
    }
}

proof fn lemma_one_count_per_package(packages: Seq<Package>, problems: Seq<ProblemView>, n: nat)
    ensures
        after_packages(packages, problems, n).counts.len() == n,
    decreases n,
{
    if n > 0 {
        lemma_one_count_per_package(packages, problems, (n - 1) as nat);
        let start = after_packages(packages, problems, (n - 1) as nat);
        let i = (n - 1) as usize;
        let removed = after_removes(packages, i, start, packages[i as int].manifest.package.removes@.len());
        lemma_removes_keep_counts(packages, i, start, packages[i as int].manifest.package.removes@.len());
        lemma_claims_keep_counts(packages, i, removed, packages[i as int].assets@.len());
    }
}

proof fn lemma_claim_stays(packages: Seq<Package>, i: usize, start: FoldView, k: int, m: nat)
    requires
        i < packages.len(),
        0 <= k < m <= packages[i as int].assets@.len(),
        valid_alias(packages[i as int].assets@[k].alias@),
        forall|q: int|
            k < q < packages[i as int].assets@.len() ==> (#[trigger] packages[i as int].assets@[q]).alias@
                != packages[i as int].assets@[k].alias@,
    ensures
        after_claims(packages, i, start, m).fold.index.contains_key(packages[i as int].assets@[k].alias@),
        after_claims(packages, i, start, m).fold.index[packages[i as int].assets@[k].alias@]
            == packages[i as int].assets@[k].path@,
        after_claims(packages, i, start, m).fold.holders.contains_key(packages[i as int].assets@[k].alias@),
        after_claims(packages, i, start, m).fold.holders[packages[i as int].assets@[k].alias@] == i,
    decreases m,
{
    if m > k + 1 {
        lemma_claim_stays(packages, i, start, k, (m - 1) as nat);
    }
}

/// A package's claim on an alias is what the index holds once the package is folded in, unless
/// the same package claims the alias again later: within a package, as across packages, the
/// later claim wins, and the package holds the alias.
pub proof fn lemma_a_later_claim_wins(packages: Seq<Package>, start: FoldView, i: usize, k: int)
    requires
        i < packages.len(),
        0 <= k < packages[i as int].assets@.len(),
        valid_alias(packages[i as int].assets@[k].alias@),
        forall|q: int|
            k < q < packages[i as int].assets@.len() ==> (#[trigger] packages[i as int].assets@[q]).alias@
                != packages[i as int].assets@[k].alias@,
    ensures
        after_package(packages, start, i).index.contains_key(packages[i as int].assets@[k].alias@),
        after_package(packages, start, i).index[packages[i as int].assets@[k].alias@] == packages[i as int].assets@[k].path@,
        after_package(packages, start, i).holders[packages[i as int].assets@[k].alias@] == i,
{
    let removed = after_removes(packages, i, start, packages[i as int].manifest.package.removes@.len());
    lemma_claim_stays(packages, i, removed, k, packages[i as int].assets@.len());
}

proof fn lemma_removal_stays(packages: Seq<Package>, i: usize, start: FoldView, a: Seq<char>, r: int, m: nat)
    requires
        i < packages.len(),
        0 <= r < m <= packages[i as int].manifest.package.removes@.len(),
        packages[i as int].manifest.package.removes@[r]@ == a,
    ensures
        !after_removes(packages, i, start, m).index.contains_key(a),
    decreases m,
{
    if m > r + 1 {
        lemma_removal_stays(packages, i, start, a, r, (m - 1) as nat);
    }
}

proof fn lemma_unclaimed_stays_out(packages: Seq<Package>, i: usize, start: FoldView, a: Seq<char>, m: nat)
    requires
        i < packages.len(),
        m <= packages[i as int].assets@.len(),
        !start.index.contains_key(a),
        forall|q: int| 0 <= q < packages[i as int].assets@.len() ==> (#[trigger] packages[i as int].assets@[q]).alias@ != a,
    ensures
        !after_claims(packages, i, start, m).fold.index.contains_key(a),
    decreases m,
{
    if m > 0 {
        lemma_unclaimed_stays_out(packages, i, start, a, (m - 1) as nat);
    }
}

/// A `removes` entry takes its alias out of the index, and it stays out unless the same package
/// claims it back: removal runs before the package's own claims.
pub proof fn lemma_removes_takes_an_alias_out(packages: Seq<Package>, start: FoldView, i: usize, r: int)
    requires
        i < packages.len(),
        0 <= r < packages[i as int].manifest.package.removes@.len(),
        forall|q: int|
            0 <= q < packages[i as int].assets@.len() ==> (#[trigger] packages[i as int].assets@[q]).alias@
                != packages[i as int].manifest.package.removes@[r]@,
    ensures
        !after_package(packages, start, i).index.contains_key(packages[i as int].manifest.package.removes@[r]@),
{
    let a = packages[i as int].manifest.package.removes@[r]@;
    let n = packages[i as int].manifest.package.removes@.len();
    lemma_removal_stays(packages, i, start, a, r, n);
    lemma_unclaimed_stays_out(packages, i, after_removes(packages, i, start, n), a, packages[i as int].assets@.len());
}

/// `b` starts with `a`.
pub open spec fn starts_with(a: Seq<ProblemView>, b: Seq<ProblemView>) -> bool {
    a.len() <= b.len() && b.take(a.len() as int) == a
}

proof fn lemma_removes_keep_problems(packages: Seq<Package>, i: usize, start: FoldView, k: nat)
    ensures
        starts_with(start.problems, after_removes(packages, i, start, k).problems),
    decreases k,
{
    if k > 0 {
        lemma_removes_keep_problems(packages, i, start, (k - 1) as nat);
        assert(after_removes(packages, i, start, k).problems.len() >= after_removes(packages, i, start, (k - 1) as nat).problems.len());
        assert(after_removes(packages, i, start, k).problems.take(start.problems.len() as int) =~= start.problems);
    } else {
        assert(start.problems.take(start.problems.len() as int) =~= start.problems);
    }
}

proof fn lemma_claims_keep_problems(packages: Seq<Package>, i: usize, start: FoldView, k: nat)
    ensures
        starts_with(start.problems, after_claims(packages, i, start, k).fold.problems),
    decreases k,
{
    if k > 0 {
        lemma_claims_keep_problems(packages, i, start, (k - 1) as nat);
        assert(after_claims(packages, i, start, k).fold.problems.len() >= after_claims(packages, i, start, (k - 1) as nat).fold.problems.len());
        assert(after_claims(packages, i, start, k).fold.problems.take(start.problems.len() as int) =~= start.problems);
    } else {
        assert(start.problems.take(start.problems.len() as int) =~= start.problems);
    }
}

/// The scan's own problems come first in the report, untouched: a user gets one list.
pub proof fn lemma_scan_problems_come_first(packages: Seq<Package>, problems: Seq<ProblemView>, n: nat)
    requires
        n <= packages.len(),
        packages.len() <= usize::MAX,
    ensures
        starts_with(problems, after_packages(packages, problems, n).problems),
    decreases n,
{
    if n > 0 {
        lemma_scan_problems_come_first(packages, problems, (n - 1) as nat);
        let start = after_packages(packages, problems, (n - 1) as nat);
        let i = (n - 1) as usize;
        let removed = after_removes(packages, i, start, packages[i as int].manifest.package.removes@.len());
        lemma_removes_keep_problems(packages, i, start, packages[i as int].manifest.package.removes@.len());
        lemma_claims_keep_problems(packages, i, removed, packages[i as int].assets@.len());
        let c = after_claims(packages, i, removed, packages[i as int].assets@.len());
        let all = after_package(packages, start, i).problems;
        assert(all.len() >= c.fold.problems.len());
        assert(all.take(problems.len() as int) =~= problems);
    } else {
        assert(problems.take(problems.len() as int) =~= problems);
    }
}

/// The fold over every package of a scan, from the scan's own problems.
pub open spec fn folded(packages: Seq<Package>, problems: Seq<ProblemView>) -> FoldView {
    after_packages(packages, problems, packages.len())
}

/// How many of `assets` carry a valid alias.
pub open spec fn valid_count(assets: Seq<DiscoveredAsset>) -> nat
    decreases assets.len(),
{
    if assets.len() == 0 {
        0
    } else {
        valid_count(assets.drop_last()) + if valid_alias(assets.last().alias@) {
            1nat
        } else {
            0nat
        }
    }
}

proof fn lemma_removes_keep_the_counts(packages: Seq<Package>, i: usize, start: FoldView, k: nat)
    ensures
        after_removes(packages, i, start, k).counts == start.counts,
    decreases k,
{
    if k > 0 {
        lemma_removes_keep_the_counts(packages, i, start, (k - 1) as nat);
    }
}

proof fn lemma_claims_count_valid_aliases(packages: Seq<Package>, i: usize, start: FoldView, k: nat)
    requires
        k <= packages[i as int].assets@.len(),
    ensures
        after_claims(packages, i, start, k).fold.counts == start.counts,
        after_claims(packages, i, start, k).count == valid_count(packages[i as int].assets@.take(k as int)),
    decreases k,
{
    let assets = packages[i as int].assets@;
    if k == 0 {
        assert(assets.take(0) =~= Seq::<DiscoveredAsset>::empty());
    } else {
        lemma_claims_count_valid_aliases(packages, i, start, (k - 1) as nat);
        assert(assets.take(k as int).drop_last() =~= assets.take(k - 1));
    }
}

proof fn lemma_fold_counts(packages: Seq<Package>, problems: Seq<ProblemView>, n: nat)
    requires
        n <= packages.len(),
        packages.len() <= usize::MAX,
    ensures
        after_packages(packages, problems, n).counts.len() == n,
        forall|k: int| 0 <= k < n ==> #[trigger] after_packages(packages, problems, n).counts[k] == valid_count(packages[k].assets@),
    decreases n,
{
    if n > 0 {
        let i = (n - 1) as usize;
        let start = after_packages(packages, problems, (n - 1) as nat);
        lemma_fold_counts(packages, problems, (n - 1) as nat);
        let removed = after_removes(packages, i, start, packages[i as int].manifest.package.removes@.len());
        lemma_removes_keep_the_counts(packages, i, start, packages[i as int].manifest.package.removes@.len());
        lemma_claims_count_valid_aliases(packages, i, removed, packages[i as int].assets@.len());
        assert(packages[i as int].assets@.take(packages[i as int].assets@.len() as int) =~= packages[i as int].assets@);
        assert(i as int == n - 1);
    }
}

/// Each package's summary counts exactly its assets whose alias is valid: an alias a later
/// package takes over still counts for the package that registered it.
pub proof fn lemma_each_package_counts_its_valid_aliases(packages: Seq<Package>, problems: Seq<ProblemView>, k: int)
    requires
        0 <= k < packages.len(),
        packages.len() <= usize::MAX,
    ensures
        folded(packages, problems).counts[k] == valid_count(packages[k].assets@),
{
    lemma_fold_counts(packages, problems, packages.len());
}

/// A contest names its own packages: the winner and the loser are the packages that won and
/// lost; a search-path tiebreak names the winner's search path as the winner's and the loser's
/// as the loser's, and comes only between packages from different search paths; a
/// directory-name tiebreak names the search path both came from.
pub proof fn lemma_a_contest_names_its_own_packages(
    packages: Seq<Package>,
    edges: crate::package::edges::OrderEdgesView,
    alias: Seq<char>,
    w: int,
    l: int,
    c: ContestedAlias,
)
    requires
        contest_ok(packages, edges, alias, w, l, c),
    ensures
        c.alias@ == alias,
        c.winner.id@ == packages[w].manifest.package.id@,
        c.loser.id@ == packages[l].manifest.package.id@,
        c.reason matches ContestReason::Unordered { tiebreak: Tiebreak::SearchPath { winner, loser } } ==> winner@
            == packages[w].search_path@ && loser@ == packages[l].search_path@ && winner@ != loser@,
        c.reason matches ContestReason::Unordered { tiebreak: Tiebreak::DirectoryName { search_path } } ==> search_path@
            == packages[w].search_path@ && search_path@ == packages[l].search_path@,
{
}

/// One change to the index, made by a package: an alias put in, naming a path, or an alias
/// taken out.
pub type IndexChange = (bool, Seq<char>, Seq<char>, usize);

/// The index a list of changes leaves, starting from an empty one: each put maps its alias to its
/// path, each removal takes its alias out.
pub open spec fn replayed(changes: Seq<IndexChange>) -> Map<Seq<char>, Seq<char>>
    decreases changes.len(),
{
    if changes.len() == 0 {
        Map::empty()
    } else {
        let before = replayed(changes.drop_last());
        let c = changes.last();
        if c.0 {
            before.insert(c.1, c.2)
        } else {
            before.remove(c.1)
        }
    }
}

/// Which package holds each alias after a list of changes: the one that put it in last, unless
/// it was taken out since.
pub open spec fn replayed_holders(changes: Seq<IndexChange>) -> Map<Seq<char>, usize>
    decreases changes.len(),
{
    if changes.len() == 0 {
        Map::empty()
    } else {
        let before = replayed_holders(changes.drop_last());
        let c = changes.last();
        if c.0 {
            before.insert(c.1, c.3)
        } else {
            before.remove(c.1)
        }
    }
}

/// The contests a list of changes makes: one for each put of an alias that another package holds
/// at that moment, naming the alias, the package putting it and the package holding it.
pub open spec fn contests_of(changes: Seq<IndexChange>) -> Seq<(Seq<char>, usize, usize)>
    decreases changes.len(),
{
    if changes.len() == 0 {
        Seq::empty()
    } else {
        let rest = contests_of(changes.drop_last());
        let held = replayed_holders(changes.drop_last());
        let c = changes.last();
        if c.0 && held.contains_key(c.1) && held[c.1] != c.3 {
            rest.push((c.1, c.3, held[c.1]))
        } else {
            rest
        }
    }
}

/// The removals of the first `k` of package `i`'s `removes`.
pub open spec fn removal_changes(packages: Seq<Package>, i: usize, k: nat) -> Seq<IndexChange>
    decreases k,
{
    if k == 0 {
        Seq::empty()
    } else {
        removal_changes(packages, i, (k - 1) as nat).push(
            (false, packages[i as int].manifest.package.removes@[k - 1]@, Seq::empty(), i),
        )
    }
}

/// The puts of the first `k` of package `i`'s assets: one for each valid alias.
pub open spec fn claim_changes(packages: Seq<Package>, i: usize, k: nat) -> Seq<IndexChange>
    decreases k,
{
    if k == 0 {
        Seq::empty()
    } else {
        let rest = claim_changes(packages, i, (k - 1) as nat);
        let asset = packages[i as int].assets@[k - 1];
        if valid_alias(asset.alias@) {
            rest.push((true, asset.alias@, asset.path@, i))
        } else {
            rest
        }
    }
}

/// Every change the first `n` packages make, in load order: each package's removals, then its
/// valid claims.
pub open spec fn index_changes(packages: Seq<Package>, n: nat) -> Seq<IndexChange>
    decreases n,
{
    if n == 0 {
        Seq::empty()
    } else {
        let i = (n - 1) as usize;
        index_changes(packages, (n - 1) as nat) + removal_changes(
            packages,
            i,
            packages[i as int].manifest.package.removes@.len(),
        ) + claim_changes(packages, i, packages[i as int].assets@.len())
    }
}

/// The fold's index, holders and contests are the replay of `changes`.
pub open spec fn replays(f: FoldView, changes: Seq<IndexChange>) -> bool {
    &&& f.index == replayed(changes)
    &&& f.holders == replayed_holders(changes)
    &&& f.contests == contests_of(changes)
}

proof fn lemma_replay_domains(changes: Seq<IndexChange>)
    ensures
        replayed(changes).dom() == replayed_holders(changes).dom(),
    decreases changes.len(),
{
    if changes.len() > 0 {
        lemma_replay_domains(changes.drop_last());
        assert(replayed(changes).dom() =~= replayed_holders(changes).dom());
    }
}

proof fn lemma_removes_replay(packages: Seq<Package>, i: usize, start: FoldView, before: Seq<IndexChange>, k: nat)
    requires
        replays(start, before),
        k <= packages[i as int].manifest.package.removes@.len(),
    ensures
        replays(after_removes(packages, i, start, k), before + removal_changes(packages, i, k)),
    decreases k,
{
    if k == 0 {
        assert(before + removal_changes(packages, i, 0) =~= before);
    } else {
        lemma_removes_replay(packages, i, start, before, (k - 1) as nat);
        let prev = before + removal_changes(packages, i, (k - 1) as nat);
        let all = before + removal_changes(packages, i, k);
        assert(all.drop_last() =~= prev);
        lemma_replay_domains(prev);
        let f = after_removes(packages, i, start, (k - 1) as nat);
        let a = packages[i as int].manifest.package.removes@[k - 1]@;
        if !f.index.contains_key(a) {
            assert(f.index.remove(a) =~= f.index);
            assert(f.holders.remove(a) =~= f.holders);
        }
    }
}

proof fn lemma_claims_replay(packages: Seq<Package>, i: usize, start: FoldView, before: Seq<IndexChange>, k: nat)
    requires
        replays(start, before),
        k <= packages[i as int].assets@.len(),
    ensures
        replays(after_claims(packages, i, start, k).fold, before + claim_changes(packages, i, k)),
    decreases k,
{
    if k == 0 {
        assert(before + claim_changes(packages, i, 0) =~= before);
    } else {
        lemma_claims_replay(packages, i, start, before, (k - 1) as nat);
        let asset = packages[i as int].assets@[k - 1];
        if valid_alias(asset.alias@) {
            let all = before + claim_changes(packages, i, k);
            assert(all.drop_last() =~= before + claim_changes(packages, i, (k - 1) as nat));
        } else {
            assert(before + claim_changes(packages, i, k) =~= before + claim_changes(packages, i, (k - 1) as nat));
        }
    }
}

proof fn lemma_packages_replay(packages: Seq<Package>, problems: Seq<ProblemView>, n: nat)
    requires
        n <= packages.len(),
        packages.len() <= usize::MAX,
    ensures
        replays(after_packages(packages, problems, n), index_changes(packages, n)),
    decreases n,
{
    if n == 0 {
        assert(replayed(Seq::<IndexChange>::empty()) =~= Map::<Seq<char>, Seq<char>>::empty());
    } else {
        let i = (n - 1) as usize;
        assert(i as int == n - 1);
        lemma_packages_replay(packages, problems, (n - 1) as nat);
        let start = after_packages(packages, problems, (n - 1) as nat);
        let before = index_changes(packages, (n - 1) as nat);
        let removes = packages[i as int].manifest.package.removes@.len();
        lemma_removes_replay(packages, i, start, before, removes);
        let removed = after_removes(packages, i, start, removes);
        let mid = before + removal_changes(packages, i, removes);
        lemma_claims_replay(packages, i, removed, mid, packages[i as int].assets@.len());
    }
}

/// The packages of a list of changes come in load order.
pub open spec fn owners_in_order(changes: Seq<IndexChange>) -> bool {
    forall|j: int, k: int| 0 <= j < k < changes.len() ==> (#[trigger] changes[j]).3 <= (#[trigger] changes[k]).3
}

proof fn lemma_holders_made_the_changes(changes: Seq<IndexChange>)
    ensures
        forall|a: Seq<char>|
            #[trigger] replayed_holders(changes).contains_key(a) ==> exists|j: int|
                0 <= j < changes.len() && changes[j].3 == replayed_holders(changes)[a],
    decreases changes.len(),
{
    if changes.len() > 0 {
        let before = changes.drop_last();
        lemma_holders_made_the_changes(before);
        assert forall|a: Seq<char>| #[trigger] replayed_holders(changes).contains_key(a) implies exists|j: int|
            0 <= j < changes.len() && changes[j].3 == replayed_holders(changes)[a] by {
            let c = changes.last();
            if c.0 && a == c.1 {
                assert(changes[changes.len() - 1].3 == replayed_holders(changes)[a]);
            } else {
                assert(replayed_holders(before).contains_key(a));
                let j = choose|j: int| 0 <= j < before.len() && before[j].3 == replayed_holders(before)[a];
                assert(changes[j] == before[j]);
            }
        }
    }
}

proof fn lemma_contests_put_later_over_earlier(changes: Seq<IndexChange>)
    requires
        owners_in_order(changes),
    ensures
        forall|k: int| 0 <= k < contests_of(changes).len() ==> (#[trigger] contests_of(changes)[k]).2 < contests_of(changes)[k].1,
    decreases changes.len(),
{
    if changes.len() > 0 {
        let before = changes.drop_last();
        assert(owners_in_order(before)) by {
            assert forall|j: int, k: int| 0 <= j < k < before.len() implies (#[trigger] before[j]).3 <= (#[trigger] before[k]).3 by {
                assert(before[j] == changes[j] && before[k] == changes[k]);
            }
        }
        lemma_contests_put_later_over_earlier(before);
        lemma_holders_made_the_changes(before);
        let c = changes.last();
        let held = replayed_holders(before);
        if c.0 && held.contains_key(c.1) && held[c.1] != c.3 {
            let j = choose|j: int| 0 <= j < before.len() && before[j].3 == held[c.1];
            assert(changes[j] == before[j]);
            assert(changes[j].3 <= changes[changes.len() - 1].3);
        }
        assert forall|k: int| 0 <= k < contests_of(changes).len() implies (#[trigger] contests_of(changes)[k]).2 < contests_of(
            changes,
        )[k].1 by {
            if k < contests_of(before).len() {
                assert(contests_of(changes)[k] == contests_of(before)[k]);
            }
        }
    }
}

proof fn lemma_changes_in_load_order(packages: Seq<Package>, n: nat)
    requires
        n <= packages.len(),
        packages.len() <= usize::MAX,
    ensures
        owners_in_order(index_changes(packages, n)),
        forall|j: int| 0 <= j < index_changes(packages, n).len() ==> (#[trigger] index_changes(packages, n)[j]).3 < n,
    decreases n,
{
    if n > 0 {
        let i = (n - 1) as usize;
        assert(i as int == n - 1);
        lemma_changes_in_load_order(packages, (n - 1) as nat);
        let before = index_changes(packages, (n - 1) as nat);
        let removals = removal_changes(packages, i, packages[i as int].manifest.package.removes@.len());
        let claims = claim_changes(packages, i, packages[i as int].assets@.len());
        lemma_removals_are_the_packages(packages, i, packages[i as int].manifest.package.removes@.len());
        lemma_claims_are_the_packages(packages, i, packages[i as int].assets@.len());
        let all = before + removals + claims;
        assert(all == index_changes(packages, n));
        assert forall|j: int| 0 <= j < all.len() implies (#[trigger] all[j]).3 < n && (j >= before.len() ==> all[j].3
            == i) by {
            if j < before.len() {
                assert(all[j] == before[j]);
            } else if j < before.len() + removals.len() {
                assert(all[j] == removals[j - before.len()]);
            } else {
                assert(all[j] == claims[j - before.len() - removals.len()]);
            }
        }
        assert forall|j: int, k: int| 0 <= j < k < all.len() implies (#[trigger] all[j]).3 <= (#[trigger] all[k]).3 by {
            if k < before.len() {
                assert(all[j] == before[j] && all[k] == before[k]);
            } else if j < before.len() {
                assert(all[j] == before[j]);
            }
        }
    }
}

proof fn lemma_removals_are_the_packages(packages: Seq<Package>, i: usize, k: nat)
    ensures
        forall|j: int| 0 <= j < removal_changes(packages, i, k).len() ==> (#[trigger] removal_changes(packages, i, k)[j]).3 == i,
    decreases k,
{
    if k > 0 {
        lemma_removals_are_the_packages(packages, i, (k - 1) as nat);
        assert forall|j: int| 0 <= j < removal_changes(packages, i, k).len() implies (#[trigger] removal_changes(packages, i, k)[j]).3
            == i by {
            if j < removal_changes(packages, i, (k - 1) as nat).len() {
                assert(removal_changes(packages, i, k)[j] == removal_changes(packages, i, (k - 1) as nat)[j]);
            }
        }
    }
}

proof fn lemma_claims_are_the_packages(packages: Seq<Package>, i: usize, k: nat)
    ensures
        forall|j: int| 0 <= j < claim_changes(packages, i, k).len() ==> (#[trigger] claim_changes(packages, i, k)[j]).3 == i,
    decreases k,
{
    if k > 0 {
        lemma_claims_are_the_packages(packages, i, (k - 1) as nat);
        assert forall|j: int| 0 <= j < claim_changes(packages, i, k).len() implies (#[trigger] claim_changes(packages, i, k)[j]).3
            == i by {
            if j < claim_changes(packages, i, (k - 1) as nat).len() {
                assert(claim_changes(packages, i, k)[j] == claim_changes(packages, i, (k - 1) as nat)[j]);
            }
        }
    }
}

/// In every contest the later package in load order wins: the loser is always a package that
/// came before the winner, whose alias the winner took over.
pub proof fn lemma_a_later_package_wins_every_contest(packages: Seq<Package>, problems: Seq<ProblemView>)
    requires
        packages.len() <= usize::MAX,
    ensures
        forall|k: int|
            0 <= k < folded(packages, problems).contests.len() ==> (#[trigger] folded(packages, problems).contests[k]).2
                < folded(packages, problems).contests[k].1 && folded(packages, problems).contests[k].1 < packages.len(),
{
    lemma_packages_replay(packages, problems, packages.len());
    lemma_changes_in_load_order(packages, packages.len());
    let changes = index_changes(packages, packages.len());
    lemma_contests_put_later_over_earlier(changes);
    lemma_contests_by_later_changes(changes, packages.len());
}

proof fn lemma_contests_by_later_changes(changes: Seq<IndexChange>, n: nat)
    requires
        forall|j: int| 0 <= j < changes.len() ==> (#[trigger] changes[j]).3 < n,
    ensures
        forall|k: int| 0 <= k < contests_of(changes).len() ==> (#[trigger] contests_of(changes)[k]).1 < n,
    decreases changes.len(),
{
    if changes.len() > 0 {
        let before = changes.drop_last();
        assert forall|j: int| 0 <= j < before.len() implies (#[trigger] before[j]).3 < n by {
            assert(before[j] == changes[j]);
        }
        lemma_contests_by_later_changes(before, n);
        assert(changes[changes.len() - 1].3 < n);
        assert forall|k: int| 0 <= k < contests_of(changes).len() implies (#[trigger] contests_of(changes)[k]).1 < n by {
            if k < contests_of(before).len() {
                assert(contests_of(changes)[k] == contests_of(before)[k]);
            }
        }
    }
}

/// The index is the replay of every package's changes in load order, each package's removals
/// before its own claims: an alias names the path of the last valid claim on it, unless a removal
/// came after that claim, and an alias nobody validly claimed is not there. The contests are one
/// for each valid claim on an alias another package held at that moment, in claim order: a claim
/// after a removal of the alias, or a package claiming again what it holds, makes none.
pub proof fn lemma_the_index_replays_the_packages(packages: Seq<Package>, problems: Seq<ProblemView>)
    requires
        packages.len() <= usize::MAX,
    ensures
        folded(packages, problems).index == replayed(index_changes(packages, packages.len())),
        folded(packages, problems).contests == contests_of(index_changes(packages, packages.len())),
{
    lemma_packages_replay(packages, problems, packages.len());
}

/// The problems package `i`'s first `k` removals report, judged against the index `m` the package
/// found: a removal is dead when `m` does not hold its alias, or an earlier removal of the same
/// package already took it out.
pub open spec fn dead_removals(packages: Seq<Package>, i: usize, m: Map<Seq<char>, Seq<char>>, k: nat) -> Seq<ProblemView>
    decreases k,
{
    if k == 0 {
        Seq::empty()
    } else {
        let rest = dead_removals(packages, i, m, (k - 1) as nat);
        let info = packages[i as int].manifest.package;
        let removes = views(info.removes@);
        let a = removes[k - 1];
        if !m.contains_key(a) || removes.take(k - 1).contains(a) {
            rest.push((packages[i as int].root@, ProblemKind::DeadRemoval, dead_removal_text(info.id@, a)))
        } else {
            rest
        }
    }
}

proof fn lemma_removes_against_start(packages: Seq<Package>, i: usize, start: FoldView, k: nat)
    requires
        k <= packages[i as int].manifest.package.removes@.len(),
    ensures
        after_removes(packages, i, start, k).index == start.index.remove_keys(
            views(packages[i as int].manifest.package.removes@).take(k as int).to_set(),
        ),
        after_removes(packages, i, start, k).problems == start.problems + dead_removals(packages, i, start.index, k),
    decreases k,
{
    let removes = views(packages[i as int].manifest.package.removes@);
    if k == 0 {
        assert(removes.take(0).to_set() =~= Set::<Seq<char>>::empty());
        assert(start.index.remove_keys(Set::<Seq<char>>::empty()) =~= start.index);
        assert(start.problems + Seq::<ProblemView>::empty() =~= start.problems);
    } else {
        lemma_removes_against_start(packages, i, start, (k - 1) as nat);
        let a = removes[k - 1];
        assert(a == packages[i as int].manifest.package.removes@[k - 1]@);
        let before = removes.take(k - 1);
        assert(removes.take(k as int) =~= before.push(a));
        lemma_push_to_set(before, a);
        assert(removes.take(k as int).to_set() == before.to_set().insert(a));
        let f = after_removes(packages, i, start, (k - 1) as nat);
        assert(f.index.contains_key(a) <==> start.index.contains_key(a) && !before.to_set().contains(a));
        assert(before.to_set().contains(a) <==> before.contains(a));
        assert(start.index.remove_keys(before.to_set()).remove(a) =~= start.index.remove_keys(before.to_set().insert(a)));
        if !f.index.contains_key(a) {
            assert(start.index.remove_keys(before.to_set()) =~= start.index.remove_keys(before.to_set().insert(a)));
        }
        let d = dead_removals(packages, i, start.index, k);
        assert(after_removes(packages, i, start, k).problems =~= start.problems + d);
    }
}

/// A package's removals, taken together: they take every alias they name out of the index the
/// package found, and each one reports one dead removal exactly when that index did not hold its
/// alias or an earlier removal of the package already took it out.
pub proof fn lemma_removals_take_out_and_report_the_dead(packages: Seq<Package>, i: usize, start: FoldView)
    requires
        0 <= i < packages.len(),
    ensures
        ({
            let n = packages[i as int].manifest.package.removes@.len();
            &&& after_removes(packages, i, start, n).index == start.index.remove_keys(
                views(packages[i as int].manifest.package.removes@).to_set(),
            )
            &&& after_removes(packages, i, start, n).problems == start.problems + dead_removals(packages, i, start.index, n)
        }),
{
    let n = packages[i as int].manifest.package.removes@.len();
    lemma_removes_against_start(packages, i, start, n);
    assert(views(packages[i as int].manifest.package.removes@).take(n as int) =~= views(packages[i as int].manifest.package.removes@));
}

/// The ids of the packages other than `i` that had claimed an alias package `i` validly claims,
/// as they stood before package `i`: the packages whose aliases it takes over.
pub open spec fn taken_from(packages: Seq<Package>, i: usize, claimants: Map<Seq<char>, Seq<usize>>) -> Set<Seq<char>> {
    Set::new(
        |q: Seq<char>|
            exists|k: int|
                0 <= k < packages[i as int].assets@.len() && valid_alias(packages[i as int].assets@[k].alias@)
                    && #[trigger] earlier_holders(packages, claimants_or_none(claimants, packages[i as int].assets@[k].alias@), i).contains(q),
    )
}

/// Those of [`taken_from`] taken by a claim whose earlier claimants `overrides` names none of.
pub open spec fn taken_unnamed(packages: Seq<Package>, i: usize, claimants: Map<Seq<char>, Seq<usize>>) -> Set<Seq<char>> {
    Set::new(
        |q: Seq<char>|
            exists|k: int|
                0 <= k < packages[i as int].assets@.len() && valid_alias(packages[i as int].assets@[k].alias@) && !declared(
                    packages,
                    claimants_or_none(claimants, packages[i as int].assets@[k].alias@),
                    i,
                    views(packages[i as int].manifest.package.overrides@),
                ) && #[trigger] earlier_holders(packages, claimants_or_none(claimants, packages[i as int].assets@[k].alias@), i).contains(q),
    )
}

/// The packages that have claimed alias `a`, in a table of claimants.
pub open spec fn claimants_or_none(claimants: Map<Seq<char>, Seq<usize>>, a: Seq<char>) -> Seq<usize> {
    if claimants.contains_key(a) {
        claimants[a]
    } else {
        Seq::empty()
    }
}

proof fn lemma_removes_keep_claimants(packages: Seq<Package>, i: usize, start: FoldView, k: nat)
    ensures
        after_removes(packages, i, start, k).claimants == start.claimants,
    decreases k,
{
    if k > 0 {
        lemma_removes_keep_claimants(packages, i, start, (k - 1) as nat);
    }
}

/// Adding package `i` to an alias's claimants changes nothing it is judged by.
proof fn lemma_own_claim_is_invisible(packages: Seq<Package>, held: Seq<usize>, i: usize, overrides: Seq<Seq<char>>)
    ensures
        earlier_holders(packages, held.push(i), i) == earlier_holders(packages, held, i),
        declared(packages, held.push(i), i, overrides) == declared(packages, held, i, overrides),
{
    assert forall|q: Seq<char>| earlier_holders(packages, held.push(i), i).contains(q) implies earlier_holders(packages, held, i).contains(q) by {
        let t = choose|t: int| 0 <= t < held.push(i).len() && held.push(i)[t] != i && #[trigger] id_of(packages, held.push(i)[t] as int) == q;
        assert(held[t] == held.push(i)[t]);
    }
    assert forall|q: Seq<char>| earlier_holders(packages, held, i).contains(q) implies earlier_holders(packages, held.push(i), i).contains(q) by {
        let t = choose|t: int| 0 <= t < held.len() && held[t] != i && #[trigger] id_of(packages, held[t] as int) == q;
        assert(held.push(i)[t] == held[t]);
    }
    assert(earlier_holders(packages, held.push(i), i) =~= earlier_holders(packages, held, i));
    if declared(packages, held.push(i), i, overrides) {
        let t = choose|t: int| 0 <= t < held.push(i).len() && held.push(i)[t] != i && overrides.contains(#[trigger] id_of(packages, held.push(i)[t] as int));
        assert(held[t] == held.push(i)[t]);
    }
    if declared(packages, held, i, overrides) {
        let t = choose|t: int| 0 <= t < held.len() && held[t] != i && overrides.contains(#[trigger] id_of(packages, held[t] as int));
        assert(held.push(i)[t] == held[t]);
    }
}

/// The first `k` claims' takeovers, judged against the claimants `c0` the package found.
pub open spec fn taken_upto(packages: Seq<Package>, i: usize, c0: Map<Seq<char>, Seq<usize>>, k: nat, unnamed: bool) -> Set<Seq<char>> {
    Set::new(
        |q: Seq<char>|
            exists|j: int|
                0 <= j < k && valid_alias(packages[i as int].assets@[j].alias@) && (unnamed ==> !declared(
                    packages,
                    claimants_or_none(c0, packages[i as int].assets@[j].alias@),
                    i,
                    views(packages[i as int].manifest.package.overrides@),
                )) && #[trigger] earlier_holders(packages, claimants_or_none(c0, packages[i as int].assets@[j].alias@), i).contains(q),
    )
}

proof fn lemma_claims_judged_against_start(packages: Seq<Package>, i: usize, start: FoldView, k: nat)
    requires
        k <= packages[i as int].assets@.len(),
    ensures
        forall|a: Seq<char>|
            #![trigger claimants_of(after_claims(packages, i, start, k).fold, a)]
            earlier_holders(packages, claimants_of(after_claims(packages, i, start, k).fold, a), i) == earlier_holders(
                packages,
                claimants_or_none(start.claimants, a),
                i,
            ) && declared(
                packages,
                claimants_of(after_claims(packages, i, start, k).fold, a),
                i,
                views(packages[i as int].manifest.package.overrides@),
            ) == declared(packages, claimants_or_none(start.claimants, a), i, views(packages[i as int].manifest.package.overrides@)),
        after_claims(packages, i, start, k).overridden == taken_upto(packages, i, start.claimants, k, false),
        after_claims(packages, i, start, k).undeclared == taken_upto(packages, i, start.claimants, k, true),
    decreases k,
{
    let overrides = views(packages[i as int].manifest.package.overrides@);
    if k == 0 {
        assert(taken_upto(packages, i, start.claimants, 0, false) =~= Set::<Seq<char>>::empty());
        assert(taken_upto(packages, i, start.claimants, 0, true) =~= Set::<Seq<char>>::empty());
        assert forall|a: Seq<char>| #![trigger claimants_of(after_claims(packages, i, start, 0).fold, a)]
            claimants_of(after_claims(packages, i, start, 0).fold, a) == claimants_or_none(start.claimants, a) by {}
    } else {
        lemma_claims_judged_against_start(packages, i, start, (k - 1) as nat);
        let c = after_claims(packages, i, start, (k - 1) as nat);
        let asset = packages[i as int].assets@[k - 1];
        let a = asset.alias@;
        let next = after_claims(packages, i, start, k);
        assert(claimants_of(c.fold, a) == claimants_of(c.fold, a));
        if valid_alias(a) {
            let held = claimants_of(c.fold, a);
            lemma_own_claim_is_invisible(packages, held, i, overrides);
            assert forall|b: Seq<char>| #![trigger claimants_of(next.fold, b)]
                earlier_holders(packages, claimants_of(next.fold, b), i) == earlier_holders(packages, claimants_or_none(start.claimants, b), i)
                && declared(packages, claimants_of(next.fold, b), i, overrides) == declared(packages, claimants_or_none(start.claimants, b), i, overrides) by {
                assert(claimants_of(c.fold, b) == claimants_of(c.fold, b));
                if b == a {
                    if held.contains(i) {
                        assert(claimants_of(next.fold, b) == held);
                    } else {
                        assert(claimants_of(next.fold, b) == held.push(i));
                    }
                } else {
                    assert(claimants_of(next.fold, b) == claimants_of(c.fold, b));
                }
            }
            assert(next.overridden =~= taken_upto(packages, i, start.claimants, k, false)) by {
                assert forall|q: Seq<char>| taken_upto(packages, i, start.claimants, k, false).contains(q) implies next.overridden.contains(q) by {
                    let j = choose|j: int|
                        0 <= j < k && valid_alias(packages[i as int].assets@[j].alias@) && #[trigger] earlier_holders(
                            packages,
                            claimants_or_none(start.claimants, packages[i as int].assets@[j].alias@),
                            i,
                        ).contains(q);
                    if j < k - 1 {
                        assert(taken_upto(packages, i, start.claimants, (k - 1) as nat, false).contains(q));
                    }
                }
                assert forall|q: Seq<char>| next.overridden.contains(q) implies taken_upto(packages, i, start.claimants, k, false).contains(q) by {
                    if c.overridden.contains(q) {
                        let j = choose|j: int|
                            0 <= j < k - 1 && valid_alias(packages[i as int].assets@[j].alias@) && #[trigger] earlier_holders(
                                packages,
                                claimants_or_none(start.claimants, packages[i as int].assets@[j].alias@),
                                i,
                            ).contains(q);
                        assert(earlier_holders(packages, claimants_or_none(start.claimants, packages[i as int].assets@[j].alias@), i).contains(q));
                    } else {
                        assert(earlier_holders(packages, claimants_or_none(start.claimants, packages[i as int].assets@[k - 1].alias@), i).contains(q));
                    }
                }
            }
            assert(next.undeclared =~= taken_upto(packages, i, start.claimants, k, true)) by {
                assert forall|q: Seq<char>| taken_upto(packages, i, start.claimants, k, true).contains(q) implies next.undeclared.contains(q) by {
                    let j = choose|j: int|
                        0 <= j < k && valid_alias(packages[i as int].assets@[j].alias@) && !declared(
                            packages,
                            claimants_or_none(start.claimants, packages[i as int].assets@[j].alias@),
                            i,
                            overrides,
                        ) && #[trigger] earlier_holders(packages, claimants_or_none(start.claimants, packages[i as int].assets@[j].alias@), i).contains(q);
                    if j < k - 1 {
                        assert(taken_upto(packages, i, start.claimants, (k - 1) as nat, true).contains(q));
                    }
                }
                assert forall|q: Seq<char>| next.undeclared.contains(q) implies taken_upto(packages, i, start.claimants, k, true).contains(q) by {
                    if c.undeclared.contains(q) {
                        let j = choose|j: int|
                            0 <= j < k - 1 && valid_alias(packages[i as int].assets@[j].alias@) && !declared(
                                packages,
                                claimants_or_none(start.claimants, packages[i as int].assets@[j].alias@),
                                i,
                                overrides,
                            ) && #[trigger] earlier_holders(packages, claimants_or_none(start.claimants, packages[i as int].assets@[j].alias@), i).contains(q);
                        assert(earlier_holders(packages, claimants_or_none(start.claimants, packages[i as int].assets@[j].alias@), i).contains(q));
                    } else {
                        assert(earlier_holders(packages, claimants_or_none(start.claimants, packages[i as int].assets@[k - 1].alias@), i).contains(q));
                    }
                }
            }
        } else {
            assert forall|b: Seq<char>| #![trigger claimants_of(next.fold, b)]
                earlier_holders(packages, claimants_of(next.fold, b), i) == earlier_holders(packages, claimants_or_none(start.claimants, b), i)
                && declared(packages, claimants_of(next.fold, b), i, overrides) == declared(packages, claimants_or_none(start.claimants, b), i, overrides) by {
                assert(claimants_of(c.fold, b) == claimants_of(c.fold, b));
                assert(claimants_of(next.fold, b) == claimants_of(c.fold, b));
            }
            assert(next.overridden =~= taken_upto(packages, i, start.claimants, k, false)) by {
                assert forall|q: Seq<char>| taken_upto(packages, i, start.claimants, k, false).contains(q) implies next.overridden.contains(q) by {
                    let j = choose|j: int|
                        0 <= j < k && valid_alias(packages[i as int].assets@[j].alias@) && #[trigger] earlier_holders(
                            packages,
                            claimants_or_none(start.claimants, packages[i as int].assets@[j].alias@),
                            i,
                        ).contains(q);
                    assert(j < k - 1);
                    assert(taken_upto(packages, i, start.claimants, (k - 1) as nat, false).contains(q));
                }
            }
            assert(next.undeclared =~= taken_upto(packages, i, start.claimants, k, true)) by {
                assert forall|q: Seq<char>| taken_upto(packages, i, start.claimants, k, true).contains(q) implies next.undeclared.contains(q) by {
                    let j = choose|j: int|
                        0 <= j < k && valid_alias(packages[i as int].assets@[j].alias@) && !declared(
                            packages,
                            claimants_or_none(start.claimants, packages[i as int].assets@[j].alias@),
                            i,
                            overrides,
                        ) && #[trigger] earlier_holders(packages, claimants_or_none(start.claimants, packages[i as int].assets@[j].alias@), i).contains(q);
                    assert(j < k - 1);
                    assert(taken_upto(packages, i, start.claimants, (k - 1) as nat, true).contains(q));
                }
            }
        }
    }
}

/// What a package's overrides are judged by, taken together: it takes over from exactly the
/// packages other than itself that had claimed, before it, an alias it validly claims (its own
/// removals notwithstanding); one undeclared-override problem names each of those taken from by a
/// claim whose earlier claimants its `overrides` names none of, in sorted order; and each
/// `overrides` entry it took nothing from is one dead-override problem.
pub proof fn lemma_overrides_are_judged_by_what_was_taken(packages: Seq<Package>, start: FoldView, i: usize)
    requires
        0 <= i < packages.len(),
    ensures
        ({
            let info = packages[i as int].manifest.package;
            let removed = after_removes(packages, i, start, info.removes@.len());
            let c = after_claims(packages, i, removed, packages[i as int].assets@.len());
            let root = packages[i as int].root@;
            let undeclared = sorted_of(taken_unnamed(packages, i, start.claimants));
            &&& c.overridden == taken_from(packages, i, start.claimants)
            &&& c.undeclared == taken_unnamed(packages, i, start.claimants)
            &&& after_package(packages, start, i).problems == c.fold.problems + Seq::new(
                undeclared.len(),
                |k: int| (root, ProblemKind::UndeclaredOverride, undeclared_text(info.id@, undeclared[k])),
            ) + dead_overrides(root, info.id@, views(info.overrides@), taken_from(packages, i, start.claimants))
        }),
{
    let info = packages[i as int].manifest.package;
    let removed = after_removes(packages, i, start, info.removes@.len());
    lemma_removes_keep_claimants(packages, i, start, info.removes@.len());
    let n = packages[i as int].assets@.len();
    lemma_claims_judged_against_start(packages, i, removed, n);
    assert(taken_upto(packages, i, start.claimants, n, false) =~= taken_from(packages, i, start.claimants));
    assert(taken_upto(packages, i, start.claimants, n, true) =~= taken_unnamed(packages, i, start.claimants));
}

/// Folds a resolved scan into one index, and reports what happened.
///
/// The packages arrive in load order, so a later claim on an alias replaces an earlier one, and
/// every replacement of another package's claim becomes a [`ContestedAlias`]. A rejected alias
/// is reported and skipped: one malformed entry does not cost the rest of its package.
pub fn build_index(scan: &Scan) -> (out: (ContentIndex, ContentReport))
    ensures
        out.0@ == folded(scan.packages@, problem_views(scan.problems@)).index,
        problem_views(out.1.problems@) == folded(scan.packages@, problem_views(scan.problems@)).problems,
        out.1.contests@.len() == folded(scan.packages@, problem_views(scan.problems@)).contests.len(),
        forall|k: int|
            0 <= k < out.1.contests@.len() ==> {
                let c = folded(scan.packages@, problem_views(scan.problems@)).contests[k];
                contest_ok(scan.packages@, scan.edges@, c.0, c.1 as int, c.2 as int, #[trigger] out.1.contests@[k])
            },
        out.1.packages@.len() == scan.packages@.len(),
        forall|k: int|
            0 <= k < scan.packages@.len() ==> summary_ok(
                scan.packages@,
                k,
                #[trigger] out.1.packages@[k],
                folded(scan.packages@, problem_views(scan.problems@)).counts[k],
            ),
        out.1.disabled@.len() == scan.disabled@.len(),
        forall|k: int| 0 <= k < scan.disabled@.len() ==> same_disabled(#[trigger] out.1.disabled@[k], scan.disabled@[k]),
{
    proof {
        use_type_invariant(&scan.edges);
        OrderEdges::lemma_consistent(scan.edges);
    }
    let ghost packages = scan.packages@;
    let ghost start = problem_views(scan.problems@);
    let mut f = Fold {
        index: ContentIndex::new(),
        holders: AliasTable::new(),
        claimants: AliasTable::new(),
        contests: Vec::new(),
        problems: copy_problems(&scan.problems),
        summaries: Vec::new(),
    };
    proof {
        assert(f.claimants@.dom() =~= Set::<Seq<char>>::empty());
    }
    let mut i: usize = 0;
    while i < scan.packages.len()
        invariant
            i <= packages.len(),
            packages == scan.packages@,
            scan.edges.well_formed(),
            distinct_pairs(scan.edges@.edges),
            f.matches(packages, scan.edges@, after_packages(packages, start, i as nat)),
            fold_bounded(after_packages(packages, start, i as nat), packages.len() as int),
        decreases packages.len() - i,
    {
        proof {
            lemma_one_count_per_package(packages, start, i as nat);
        }
        fold_package(scan, i, &mut f, Ghost(after_packages(packages, start, i as nat)));
        i = i + 1;
    }
    proof {
        assert(folded(packages, start) == after_packages(packages, start, packages.len()));
        lemma_one_count_per_package(packages, start, packages.len());
    }
    let report = ContentReport {
        packages: f.summaries,
        disabled: copy_disabled(&scan.disabled),
        contests: f.contests,
        problems: f.problems,
    };
    (f.index, report)
}

} // verus!
