//! Turning constraints into a load order.
//!
//! Packages in baseline order and the user's constraints in; a load order out, with every
//! package it disabled and every reason recorded. Three things happen, in this order:
//!
//! 1. `requires` is checked, and a package whose requirement is absent or the wrong version is
//!    disabled, cascading to whatever required it, to a fixpoint.
//! 2. Constraints become edges over what is left. A user constraint that contradicts a manifest
//!    one wins and the manifest's edge is dropped, with a problem recording it.
//! 3. The edges are topologically sorted, with the incoming order breaking every tie. A cycle
//!    disables its members, and whatever is ordered behind one goes with them.

use crate::alias::problem::{problem_views, Problem, ProblemKind};
use crate::package::constraints::{
    collect_constraints, constraint_edges, manifest_candidates, overruled_problems, user_pairs,
};
use crate::package::cycles::{report_stuck, stuck_reported};
use crate::package::edges::{
    count_true, distinct_pairs, last_of_its_pair, lemma_count_true_bounded,
    lemma_count_true_set_false, pairs_of, OrderEdges,
};
use crate::package::manifest::{
    requirement_accepts, semver_accepts, version_text, Constraint, LoadOrder, Package,
    Requirement, Version,
};
use crate::package::constraints::{kept_edges, user_candidates, user_edges, Candidate};
use crate::package::edges::EdgeView;
use crate::package::order::{
    arc, is_load_order, lemma_unconstrained_order_is_the_incoming_one, place, positions,
};
use crate::text::{join, joined, str_eq, views};
use vstd::prelude::*;

verus! {

/// Why a package is not in the load order.
#[derive(Debug, Clone, PartialEq, Eq)]
pub enum DisableReason {
    /// `requires` named something absent, or present at a version it does not accept.
    Unsatisfied {
        requirement: Requirement,
        /// The version that was found, or `None` when the package is not installed at all.
        found: Option<Version>,
    },
    /// Required a package that was itself disabled.
    RequirementDisabled { id: String },
    /// Part of an `after`/`before` loop: the ids of this package's own loop.
    Cycle { members: Vec<String> },
    /// Ordered after a cycle without being in one: the cycle members that hold it back.
    BehindCycle { cycle: Vec<String> },
}

/// A package that was found on disk and will not be loaded.
#[derive(Debug, Clone, PartialEq, Eq)]
pub struct Disabled {
    pub id: String,
    pub root: String,
    pub reason: DisableReason,
}

/// The id of package `i`.
pub open spec fn id_of(packages: Seq<Package>, i: int) -> Seq<char> {
    packages[i].manifest.package.id@
}

/// Requirement `r` of package `i`.
pub open spec fn requirement_of(packages: Seq<Package>, i: int, r: int) -> Requirement {
    packages[i].manifest.package.requires@[r]
}

/// What semver says of every requirement against every package: `table[i][r][j]` is whether
/// requirement `r` of package `i` names package `j`'s id and accepts its version.
pub open spec fn semver_table(packages: Seq<Package>) -> Seq<Seq<Seq<bool>>> {
    Seq::new(
        packages.len(),
        |i: int|
            Seq::new(
                packages[i].manifest.package.requires@.len(),
                |r: int|
                    Seq::new(
                        packages.len(),
                        |j: int|
                            id_of(packages, j) == requirement_of(packages, i, r).id@
                                && semver_accepts(
                                requirement_of(packages, i, r).req@,
                                version_text(packages[j].manifest.package.version),
                            ),
                    ),
            ),
    )
}

/// A table shaped for `packages`: one row per package, one entry per requirement, one flag per
/// package.
pub open spec fn table_fits(packages: Seq<Package>, table: Seq<Seq<Seq<bool>>>) -> bool {
    &&& table.len() == packages.len()
    &&& forall|i: int|
        0 <= i < packages.len() ==> {
            &&& (#[trigger] table[i]).len() == packages[i].manifest.package.requires@.len()
            &&& forall|r: int| 0 <= r < table[i].len() ==> (#[trigger] table[i][r]).len() == packages.len()
        }
}

/// The plain view of an acceptance table.
pub open spec fn table_view(table: Vec<Vec<Vec<bool>>>) -> Seq<Seq<Seq<bool>>> {
    Seq::new(table@.len(), |i: int| Seq::new(table@[i]@.len(), |r: int| table@[i]@[r]@))
}

/// Requirement `r` of package `i` is met by some package `enabled` marks.
pub open spec fn met(table: Seq<Seq<Seq<bool>>>, enabled: Seq<bool>, i: int, r: int) -> bool {
    exists|j: int| 0 <= j < enabled.len() && #[trigger] enabled[j] && table[i][r][j]
}

/// Every requirement of package `i` is met by `enabled`.
pub open spec fn all_met(packages: Seq<Package>, table: Seq<Seq<Seq<bool>>>, enabled: Seq<bool>, i: int) -> bool {
    forall|r: int| 0 <= r < packages[i].manifest.package.requires@.len() ==> #[trigger] met(table, enabled, i, r)
}

/// Every package `enabled` marks has all its requirements met among them.
pub open spec fn self_sufficient(packages: Seq<Package>, table: Seq<Seq<Seq<bool>>>, enabled: Seq<bool>) -> bool {
    &&& enabled.len() == packages.len()
    &&& forall|i: int| 0 <= i < enabled.len() && #[trigger] enabled[i] ==> all_met(packages, table, enabled, i)
}

/// Every package `a` marks, `b` marks too.
pub open spec fn within(a: Seq<bool>, b: Seq<bool>) -> bool {
    &&& a.len() == b.len()
    &&& forall|i: int| 0 <= i < a.len() && #[trigger] a[i] ==> b[i]
}

/// The first requirement of package `i`, from the `r`th on, that `enabled` does not meet; -1
/// when every one is met.
pub open spec fn unmet_from(packages: Seq<Package>, table: Seq<Seq<Seq<bool>>>, enabled: Seq<bool>, i: int, r: int) -> int
    decreases packages[i].manifest.package.requires@.len() - r,
{
    if r < 0 || r >= packages[i].manifest.package.requires@.len() {
        -1
    } else if !met(table, enabled, i, r) {
        r
    } else {
        unmet_from(packages, table, enabled, i, r + 1)
    }
}

/// The first requirement of package `i` that `enabled` does not meet, or -1.
pub open spec fn first_unmet_at(packages: Seq<Package>, table: Seq<Seq<Seq<bool>>>, enabled: Seq<bool>, i: int) -> int {
    unmet_from(packages, table, enabled, i, 0)
}

/// One disabling: the package, the requirement that failed, and the enabled set it failed against.
pub type Disabling = (int, int, Seq<bool>);

/// One pass over the packages from position `i` on, starting from `enabled`: each package still
/// enabled whose requirements are not all met is disabled as it is reached, for its first unmet
/// requirement. The enabled set after the pass, and the disablings in the order they happened.
pub open spec fn sweep(packages: Seq<Package>, table: Seq<Seq<Seq<bool>>>, enabled: Seq<bool>, i: int) -> (Seq<bool>, Seq<Disabling>)
    decreases packages.len() - i,
{
    if i < 0 || i >= packages.len() {
        (enabled, Seq::empty())
    } else if enabled[i] && first_unmet_at(packages, table, enabled, i) >= 0 {
        let after = sweep(packages, table, enabled.update(i, false), i + 1);
        (after.0, seq![(i, first_unmet_at(packages, table, enabled, i), enabled)] + after.1)
    } else {
        sweep(packages, table, enabled, i + 1)
    }
}

/// Passes from `enabled` until one disables nothing, at most `fuel` of them: the enabled set
/// they leave, and every disabling in order.
pub open spec fn settle(packages: Seq<Package>, table: Seq<Seq<Seq<bool>>>, enabled: Seq<bool>, fuel: nat) -> (Seq<bool>, Seq<Disabling>)
    decreases fuel,
{
    let pass = sweep(packages, table, enabled, 0);
    if pass.1.len() == 0 || fuel == 0 {
        pass
    } else {
        let rest = settle(packages, table, pass.0, (fuel - 1) as nat);
        (rest.0, pass.1 + rest.1)
    }
}

/// What checking requirements does to `packages`: passes from all of them enabled.
pub open spec fn requirement_passes(packages: Seq<Package>, table: Seq<Seq<Seq<bool>>>) -> (Seq<bool>, Seq<Disabling>) {
    settle(packages, table, Seq::new(packages.len(), |k: int| true), packages.len() + 1)
}

/// Whether some package `enabled` marks has id `id`.
pub open spec fn enabled_with_id(packages: Seq<Package>, enabled: Seq<bool>, id: Seq<char>) -> bool {
    exists|j: int| 0 <= j < packages.len() && id_of(packages, j) == id && #[trigger] enabled[j]
}

/// The record and problem for disabling package `i` for its requirement `r` against `enabled`:
/// the dependency was installed but none of it is enabled, so it was disabled; or it is absent,
/// or present at a version the requirement does not accept, saying which version was found.
pub open spec fn record_for(
    packages: Seq<Package>,
    enabled: Seq<bool>,
    i: int,
    r: int,
    d: Disabled,
    p: Problem,
) -> bool {
    let req = requirement_of(packages, i, r);
    let last = last_with_id(packages, req.id@);
    &&& d.id@ == id_of(packages, i)
    &&& d.root@ == packages[i].root@
    &&& p.path@ == packages[i].root@
    &&& p.kind == ProblemKind::UnsatisfiedRequirement
    &&& p.detail@ == id_of(packages, i) + ": "@ + reason_text(d.reason)
    &&& if last >= 0 && !enabled_with_id(packages, enabled, req.id@) {
        d.reason matches DisableReason::RequirementDisabled { id } && id@ == req.id@
    } else {
        &&& d.reason matches DisableReason::Unsatisfied { requirement, found }
        &&& requirement.id@ == req.id@
        &&& requirement.req@ == req.req@
        &&& (last >= 0 ==> (found matches Some(v) && same_version(v, packages[last].manifest.package.version)))
        &&& (last < 0 ==> found is None)
    }
}

/// The position of the last package with id `id`, or -1.
pub open spec fn last_with_id(packages: Seq<Package>, id: Seq<char>) -> int
    decreases packages.len(),
{
    if packages.len() == 0 {
        -1
    } else if packages.last().manifest.package.id@ == id {
        packages.len() - 1
    } else {
        last_with_id(packages.drop_last(), id)
    }
}

/// The words a report gives a reason with.
pub open spec fn reason_text(reason: DisableReason) -> Seq<char> {
    match reason {
        DisableReason::Unsatisfied { requirement, found } => match found {
            Some(v) => "requires "@ + requirement.text() + ", found "@ + version_text(v),
            None => "requires "@ + requirement.text() + ", which is not installed"@,
        },
        DisableReason::RequirementDisabled { id } => "requires "@ + id@ + ", which is disabled"@,
        DisableReason::Cycle { members } => "in a load order cycle: "@ + joined(views(members@), " -> "@),
        DisableReason::BehindCycle { cycle } => "loads after a load order cycle: "@ + joined(views(cycle@), " -> "@),
    }
}

/// What a requirement-disabled record says of package `i`, given the final enabled set.
pub open spec fn requirement_record_ok(
    packages: Seq<Package>,
    table: Seq<Seq<Seq<bool>>>,
    enabled: Seq<bool>,
    i: int,
    d: Disabled,
    p: Problem,
) -> bool {
    &&& d.id@ == id_of(packages, i)
    &&& d.root@ == packages[i].root@
    &&& p.path@ == packages[i].root@
    &&& p.kind == ProblemKind::UnsatisfiedRequirement
    &&& p.detail@ == id_of(packages, i) + ": "@ + reason_text(d.reason)
    &&& match d.reason {
        DisableReason::Unsatisfied { requirement, found } => exists|r: int|
            0 <= r < packages[i].manifest.package.requires@.len()
                && requirement.id@ == requirement_of(packages, i, r).id@
                && requirement.req@ == requirement_of(packages, i, r).req@
                && !(#[trigger] met(table, enabled, i, r))
                && (found matches Some(v) ==> last_with_id(packages, requirement.id@) >= 0
                    && version_text(v) == version_text(packages[last_with_id(packages, requirement.id@)].manifest.package.version))
                && (found is None ==> last_with_id(packages, requirement.id@) < 0),
        DisableReason::RequirementDisabled { id } => exists|r: int|
            0 <= r < packages[i].manifest.package.requires@.len()
                && id@ == requirement_of(packages, i, r).id@
                && !(#[trigger] met(table, enabled, i, r))
                && last_with_id(packages, id@) >= 0
                && forall|j: int| 0 <= j < packages.len() && id_of(packages, j) == id@ ==> !#[trigger] enabled[j],
        _ => false,
    }
}

proof fn lemma_last_with_id_bounds(packages: Seq<Package>, id: Seq<char>)
    ensures
        -1 <= last_with_id(packages, id) < packages.len(),
        last_with_id(packages, id) >= 0 ==> id_of(packages, last_with_id(packages, id)) == id,
        last_with_id(packages, id) < 0 ==> forall|j: int| 0 <= j < packages.len() ==> #[trigger] id_of(packages, j) != id,
    decreases packages.len(),
{
    if packages.len() > 0 {
        lemma_last_with_id_bounds(packages.drop_last(), id);
        if packages.last().manifest.package.id@ != id {
            assert forall|j: int| 0 <= j < packages.len() - 1 implies id_of(packages, j) == id_of(packages.drop_last(), j) by {}
        }
    }
}

/// The last package with id `id`, by position.
fn find_last_with_id(packages: &[Package], id: &String) -> (out: Option<usize>)
    ensures
        out matches Some(j) ==> j == last_with_id(packages@, id@),
        out is None ==> last_with_id(packages@, id@) < 0,
{
    let mut k: usize = packages.len();
    proof {
        assert(packages@.take(packages@.len() as int) =~= packages@);
    }
    while k > 0
        invariant
            k <= packages@.len(),
            last_with_id(packages@, id@) == last_with_id(packages@.take(k as int), id@),
        decreases k,
    {
        proof {
            assert(packages@.take(k as int).drop_last() =~= packages@.take(k - 1));
        }
        if str_eq(packages[k - 1].manifest.package.id.as_str(), id.as_str()) {
            return Some(k - 1);
        }
        k = k - 1;
    }
    None
}

/// Whether requirement `r` of package `i` is met by a package `enabled` marks.
fn is_met(table: &Vec<Vec<Vec<bool>>>, enabled: &Vec<bool>, i: usize, r: usize) -> (out: bool)
    requires
        i < table_view(*table).len(),
        r < table_view(*table)[i as int].len(),
        table_view(*table)[i as int][r as int].len() == enabled@.len(),
    ensures
        out == met(table_view(*table), enabled@, i as int, r as int),
{
    let row = &table[i][r];
    let mut j: usize = 0;
    while j < enabled.len()
        invariant
            j <= enabled@.len(),
            row@ == table_view(*table)[i as int][r as int],
            row@.len() == enabled@.len(),
            forall|k: int| 0 <= k < j ==> !(#[trigger] enabled@[k] && row@[k]),
        decreases enabled@.len() - j,
    {
        if enabled[j] && row[j] {
            return true;
        }
        j = j + 1;
    }
    false
}

/// The first requirement of package `i` that `enabled` does not meet, if any.
fn first_unmet(packages: &[Package], table: &Vec<Vec<Vec<bool>>>, enabled: &Vec<bool>, i: usize) -> (out: Option<usize>)
    requires
        table_fits(packages@, table_view(*table)),
        i < packages@.len(),
        enabled@.len() == packages@.len(),
    ensures
        out matches Some(r) ==> r < packages@[i as int].manifest.package.requires@.len() && !met(table_view(*table), enabled@, i as int, r as int),
        out is None ==> all_met(packages@, table_view(*table), enabled@, i as int),
        out matches Some(r) ==> r as int == first_unmet_at(packages@, table_view(*table), enabled@, i as int),
        out is None ==> first_unmet_at(packages@, table_view(*table), enabled@, i as int) == -1,
{
    let count = packages[i].manifest.package.requires.len();
    let mut r: usize = 0;
    while r < count
        invariant
            r <= count,
            count == packages@[i as int].manifest.package.requires@.len(),
            table_fits(packages@, table_view(*table)),
            i < packages@.len(),
            enabled@.len() == packages@.len(),
            forall|q: int| 0 <= q < r ==> #[trigger] met(table_view(*table), enabled@, i as int, q),
            first_unmet_at(packages@, table_view(*table), enabled@, i as int) == unmet_from(
                packages@,
                table_view(*table),
                enabled@,
                i as int,
                r as int,
            ),
        decreases count - r,
    {
        if !is_met(table, enabled, i, r) {
            return Some(r);
        }
        r = r + 1;
    }
    None
}


impl DisableReason {
    /// Executable [`reason_text`].
    pub fn describe(&self) -> (out: String)
        ensures
            out@ == reason_text(*self),
    {
        match self {
            DisableReason::Unsatisfied { requirement, found } => {
                let mut out = String::from_str("requires ");
                let r = requirement.describe();
                out.append(r.as_str());
                match found {
                    Some(v) => {
                        out.append(", found ");
                        let t = v.to_text();
                        out.append(t.as_str());
                    },
                    None => {
                        out.append(", which is not installed");
                    },
                }
                out
            },
            DisableReason::RequirementDisabled { id } => {
                let mut out = String::from_str("requires ");
                out.append(id.as_str());
                out.append(", which is disabled");
                out
            },
            DisableReason::Cycle { members } => {
                let mut out = String::from_str("in a load order cycle: ");
                let j = join(members, " -> ");
                out.append(j.as_str());
                out
            },
            DisableReason::BehindCycle { cycle } => {
                let mut out = String::from_str("loads after a load order cycle: ");
                let j = join(cycle, " -> ");
                out.append(j.as_str());
                out
            },
        }
    }
}

proof fn lemma_met_monotone(table: Seq<Seq<Seq<bool>>>, small: Seq<bool>, big: Seq<bool>, i: int, r: int)
    requires
        within(small, big),
        met(table, small, i, r),
    ensures
        met(table, big, i, r),
{
    let j = choose|j: int| 0 <= j < small.len() && #[trigger] small[j] && table[i][r][j];
    assert(big[j]);
}

proof fn lemma_record_monotone(
    packages: Seq<Package>,
    table: Seq<Seq<Seq<bool>>>,
    old_enabled: Seq<bool>,
    new_enabled: Seq<bool>,
    i: int,
    d: Disabled,
    p: Problem,
)
    requires
        within(new_enabled, old_enabled),
        new_enabled.len() == packages.len(),
        requirement_record_ok(packages, table, old_enabled, i, d, p),
    ensures
        requirement_record_ok(packages, table, new_enabled, i, d, p),
{
    match d.reason {
        DisableReason::Unsatisfied { requirement, found } => {
            let r = choose|r: int|
                0 <= r < packages[i].manifest.package.requires@.len()
                    && requirement.id@ == requirement_of(packages, i, r).id@
                    && requirement.req@ == requirement_of(packages, i, r).req@
                    && !(#[trigger] met(table, old_enabled, i, r))
                    && (found matches Some(v) ==> last_with_id(packages, requirement.id@) >= 0
                        && version_text(v) == version_text(packages[last_with_id(packages, requirement.id@)].manifest.package.version))
                    && (found is None ==> last_with_id(packages, requirement.id@) < 0);
            if met(table, new_enabled, i, r) {
                lemma_met_monotone(table, new_enabled, old_enabled, i, r);
            }
        },
        DisableReason::RequirementDisabled { id } => {
            let r = choose|r: int|
                0 <= r < packages[i].manifest.package.requires@.len()
                    && id@ == requirement_of(packages, i, r).id@
                    && !(#[trigger] met(table, old_enabled, i, r))
                    && last_with_id(packages, id@) >= 0
                    && forall|j: int| 0 <= j < packages.len() && id_of(packages, j) == id@ ==> !#[trigger] old_enabled[j];
            if met(table, new_enabled, i, r) {
                lemma_met_monotone(table, new_enabled, old_enabled, i, r);
            }
            assert forall|j: int| 0 <= j < packages.len() && id_of(packages, j) == id@ implies !#[trigger] new_enabled[j] by {
                if new_enabled[j] {
                    assert(old_enabled[j]);
                }
            }
        },
        _ => {},
    }
}

/// Whether any package `enabled` marks has id `id`.
pub(crate) fn any_enabled_with_id(packages: &[Package], enabled: &Vec<bool>, id: &String) -> (out: bool)
    requires
        enabled@.len() == packages@.len(),
    ensures
        out == exists|j: int| 0 <= j < packages@.len() && id_of(packages@, j) == id@ && #[trigger] enabled@[j],
{
    let mut j: usize = 0;
    while j < packages.len()
        invariant
            j <= packages@.len(),
            enabled@.len() == packages@.len(),
            forall|k: int| 0 <= k < j && id_of(packages@, k) == id@ ==> !#[trigger] enabled@[k],
        decreases packages@.len() - j,
    {
        if enabled[j] && str_eq(packages[j].manifest.package.id.as_str(), id.as_str()) {
            return true;
        }
        j = j + 1;
    }
    false
}

/// Why requirement `r` of package `i` disables it, with `enabled` as it stands.
fn disable_reason(packages: &[Package], table: &Vec<Vec<Vec<bool>>>, enabled: &Vec<bool>, i: usize, r: usize) -> (out: (Disabled, Problem))
    requires
        table_fits(packages@, table_view(*table)),
        i < packages@.len(),
        r < packages@[i as int].manifest.package.requires@.len(),
        enabled@.len() == packages@.len(),
        !met(table_view(*table), enabled@, i as int, r as int),
    ensures
        requirement_record_ok(packages@, table_view(*table), enabled@, i as int, out.0, out.1),
        record_for(packages@, enabled@, i as int, r as int, out.0, out.1),
{
    let requirement = &packages[i].manifest.package.requires[r];
    let last = find_last_with_id(packages, &requirement.id);
    let any = any_enabled_with_id(packages, enabled, &requirement.id);
    proof {
        lemma_last_with_id_bounds(packages@, requirement.id@);
    }
    let reason = match last {
        Some(j) => {
            if !any {
                DisableReason::RequirementDisabled { id: requirement.id.clone() }
            } else {
                DisableReason::Unsatisfied {
                    requirement: requirement.duplicate(),
                    found: Some(packages[j].manifest.package.version.duplicate()),
                }
            }
        },
        None => DisableReason::Unsatisfied { requirement: requirement.duplicate(), found: None },
    };
    let info = &packages[i].manifest.package;
    let mut detail = info.id.clone();
    detail.append(": ");
    let text = reason.describe();
    detail.append(text.as_str());
    let problem = Problem {
        path: packages[i].root.clone(),
        kind: ProblemKind::UnsatisfiedRequirement,
        detail,
    };
    let disabled = Disabled { id: info.id.clone(), root: packages[i].root.clone(), reason };
    (disabled, problem)
}


proof fn lemma_disable_keeps_greatest(
    packages: Seq<Package>,
    table: Seq<Seq<Seq<bool>>>,
    enabled: Seq<bool>,
    i: int,
    r: int,
)
    requires
        0 <= i < enabled.len(),
        enabled.len() == packages.len(),
        0 <= r < packages[i].manifest.package.requires@.len(),
        !met(table, enabled, i, r),
        forall|t: Seq<bool>| #[trigger] self_sufficient(packages, table, t) ==> within(t, enabled),
    ensures
        forall|t: Seq<bool>| #[trigger] self_sufficient(packages, table, t) ==> within(t, enabled.update(i, false)),
{
    assert forall|t: Seq<bool>| #[trigger] self_sufficient(packages, table, t) implies within(t, enabled.update(i, false)) by {
        assert(within(t, enabled));
        if t[i] {
            assert(all_met(packages, table, t, i));
            assert(met(table, t, i, r));
            lemma_met_monotone(table, t, enabled, i, r);
        }
    }
}

/// All `n` entries true count to `n`.
proof fn lemma_count_all_true(n: nat)
    ensures
        count_true(Seq::new(n, |k: int| true)) == n,
    decreases n,
{
    if n > 0 {
        assert(Seq::new(n, |k: int| true).drop_last() =~= Seq::new((n - 1) as nat, |k: int| true));
        lemma_count_all_true((n - 1) as nat);
    }
}

/// Disables every package whose `requires` cannot be met, to a fixpoint. A package that
/// required something disabled in an earlier pass is itself disabled in a later one.
///
/// The packages left enabled are the largest set whose every requirement is met within it.
/// `gone` lists the disabled ones, by position, in the order their records come.
fn check_requirements(packages: &[Package], table: &Vec<Vec<Vec<bool>>>) -> (out: (Vec<bool>, Vec<Disabled>, Vec<Problem>, Ghost<Seq<int>>))
    requires
        table_fits(packages@, table_view(*table)),
    ensures
        self_sufficient(packages@, table_view(*table), out.0@),
        forall|t: Seq<bool>| #[trigger] self_sufficient(packages@, table_view(*table), t) ==> within(t, out.0@),
        out.3@.len() == out.1@.len(),
        out.3@.len() == out.2@.len(),
        out.3@.no_duplicates(),
        forall|k: int| 0 <= k < out.3@.len() ==> 0 <= #[trigger] out.3@[k] < packages@.len() && !out.0@[out.3@[k]],
        forall|i: int| 0 <= i < packages@.len() && !#[trigger] out.0@[i] ==> out.3@.contains(i),
        forall|k: int| 0 <= k < out.3@.len() ==> requirement_record_ok(packages@, table_view(*table), out.0@, #[trigger] out.3@[k], out.1@[k], out.2@[k]),
        out.0@ == requirement_passes(packages@, table_view(*table)).0,
        out.3@ == requirement_passes(packages@, table_view(*table)).1.map_values(|d: Disabling| d.0),
        forall|k: int|
            0 <= k < out.3@.len() ==> {
                let d = #[trigger] requirement_passes(packages@, table_view(*table)).1[k];
                record_for(packages@, d.2, d.0, d.1, out.1@[k], out.2@[k])
            },
{
    let ghost tv = table_view(*table);
    let n = packages.len();
    let mut enabled: Vec<bool> = Vec::new();
    let mut j: usize = 0;
    while j < n
        invariant
            j <= n,
            n == packages@.len(),
            enabled@.len() == j,
            forall|k: int| 0 <= k < j ==> #[trigger] enabled@[k],
        decreases n - j,
    {
        enabled.push(true);
        j = j + 1;
    }
    let mut disabled: Vec<Disabled> = Vec::new();
    let mut problems: Vec<Problem> = Vec::new();
    let ghost mut gone: Seq<int> = Seq::empty();
    let ghost mut done: Seq<Disabling> = Seq::empty();
    let ghost mut passes: nat = 0;
    let ghost whole = requirement_passes(packages@, tv);
    proof {
        assert forall|t: Seq<bool>| #[trigger] self_sufficient(packages@, tv, t) implies within(t, enabled@) by {}
        lemma_count_true_bounded(enabled@);
        assert(enabled@ =~= Seq::new(n as nat, |k: int| true));
        lemma_count_all_true(n as nat);
    }
    loop
        invariant_except_break
            whole == requirement_passes(packages@, tv),
            count_true(enabled@) + passes <= n,
            whole == (settle(packages@, tv, enabled@, (n + 1 - passes) as nat).0, done + settle(packages@, tv, enabled@, (n + 1 - passes) as nat).1),
            gone == done.map_values(|d: Disabling| d.0),
            forall|k: int| 0 <= k < done.len() ==> record_for(packages@, #[trigger] done[k].2, done[k].0, done[k].1, disabled@[k], problems@[k]),
            tv == table_view(*table),
            table_fits(packages@, tv),
            n == packages@.len(),
            enabled@.len() == n,
            forall|t: Seq<bool>| #[trigger] self_sufficient(packages@, tv, t) ==> within(t, enabled@),
            gone.len() == disabled@.len(),
            gone.len() == problems@.len(),
            gone.no_duplicates(),
            forall|k: int| 0 <= k < gone.len() ==> 0 <= #[trigger] gone[k] < n && !enabled@[gone[k]],
            forall|i: int| 0 <= i < n && !#[trigger] enabled@[i] ==> gone.contains(i),
            forall|k: int| 0 <= k < gone.len() ==> requirement_record_ok(packages@, tv, enabled@, #[trigger] gone[k], disabled@[k], problems@[k]),
        ensures
            enabled@ == whole.0,
            gone == whole.1.map_values(|d: Disabling| d.0),
            forall|k: int| 0 <= k < whole.1.len() ==> record_for(packages@, #[trigger] whole.1[k].2, whole.1[k].0, whole.1[k].1, disabled@[k], problems@[k]),
            self_sufficient(packages@, tv, enabled@),
            forall|t: Seq<bool>| #[trigger] self_sufficient(packages@, tv, t) ==> within(t, enabled@),
            gone.len() == disabled@.len(),
            gone.len() == problems@.len(),
            gone.no_duplicates(),
            forall|k: int| 0 <= k < gone.len() ==> 0 <= #[trigger] gone[k] < n && !enabled@[gone[k]],
            forall|i: int| 0 <= i < n && !#[trigger] enabled@[i] ==> gone.contains(i),
            forall|k: int| 0 <= k < gone.len() ==> requirement_record_ok(packages@, tv, enabled@, #[trigger] gone[k], disabled@[k], problems@[k]),
        decreases count_true(enabled@),
    {
        let ghost start = count_true(enabled@);
        let ghost pass_start = enabled@;
        let ghost mut pass_steps: Seq<Disabling> = Seq::empty();
        let ghost base = done;
        let mut changed = false;
        let mut i: usize = 0;
        while i < n
            invariant
                tv == table_view(*table),
                table_fits(packages@, tv),
                n == packages@.len(),
                i <= n,
                enabled@.len() == n,
                forall|t: Seq<bool>| #[trigger] self_sufficient(packages@, tv, t) ==> within(t, enabled@),
                gone.len() == disabled@.len(),
                gone.len() == problems@.len(),
                gone.no_duplicates(),
                forall|k: int| 0 <= k < gone.len() ==> 0 <= #[trigger] gone[k] < n && !enabled@[gone[k]],
                forall|q: int| 0 <= q < n && !#[trigger] enabled@[q] ==> gone.contains(q),
                forall|k: int| 0 <= k < gone.len() ==> requirement_record_ok(packages@, tv, enabled@, #[trigger] gone[k], disabled@[k], problems@[k]),
                changed ==> count_true(enabled@) < start,
                !changed ==> count_true(enabled@) == start,
                !changed ==> forall|q: int| 0 <= q < i && #[trigger] enabled@[q] ==> all_met(packages@, tv, enabled@, q),
                changed <==> pass_steps.len() > 0,
                sweep(packages@, tv, pass_start, 0) == (sweep(packages@, tv, enabled@, i as int).0, pass_steps + sweep(packages@, tv, enabled@, i as int).1),
                !changed ==> enabled@ == pass_start,
                done == base + pass_steps,
                gone == done.map_values(|d: Disabling| d.0),
                forall|k: int| 0 <= k < done.len() ==> record_for(packages@, #[trigger] done[k].2, done[k].0, done[k].1, disabled@[k], problems@[k]),
            decreases n - i,
        {
            if enabled[i] {
                match first_unmet(packages, table, &enabled, i) {
                    None => {
                        proof {
                            assert(sweep(packages@, tv, enabled@, i as int) == sweep(packages@, tv, enabled@, i + 1));
                        }
                    },
                    Some(r) => {
                        let (record, problem) = disable_reason(packages, table, &enabled, i, r);
                        let ghost before = enabled@;
                        proof {
                            lemma_disable_keeps_greatest(packages@, tv, before, i as int, r as int);
                            lemma_count_true_set_false(before, i as int);
                        }
                        enabled.set(i, false);
                        disabled.push(record);
                        problems.push(problem);
                        proof {
                            assert(!gone.contains(i as int)) by {
                                if gone.contains(i as int) {
                                    let k = choose|k: int| 0 <= k < gone.len() && gone[k] == i as int;
                                    assert(!before[gone[k]]);
                                }
                            }
                            let old_gone = gone;
                            gone = gone.push(i as int);
                            assert(within(enabled@, before));
                            assert forall|k: int| 0 <= k < gone.len() implies requirement_record_ok(packages@, tv, enabled@, #[trigger] gone[k], disabled@[k], problems@[k]) by {
                                if k < old_gone.len() {
                                    assert(gone[k] == old_gone[k]);
                                    lemma_record_monotone(packages@, tv, before, enabled@, old_gone[k], disabled@[k], problems@[k]);
                                } else {
                                    lemma_record_monotone(packages@, tv, before, enabled@, i as int, record, problem);
                                }
                            }
                            assert forall|q: int| 0 <= q < n && !#[trigger] enabled@[q] implies gone.contains(q) by {
                                if q == i {
                                    assert(gone[gone.len() - 1] == q);
                                } else {
                                    assert(!before[q]);
                                    assert(old_gone.contains(q));
                                    let k = choose|k: int| 0 <= k < old_gone.len() && old_gone[k] == q;
                                    assert(gone[k] == q);
                                }
                            }
                            assert forall|k: int| 0 <= k < gone.len() implies 0 <= #[trigger] gone[k] < n && !enabled@[gone[k]] by {
                                if k < old_gone.len() {
                                    assert(gone[k] == old_gone[k]);
                                }
                            }
                            assert(gone.no_duplicates()) by {
                                assert forall|a: int, b: int| 0 <= a < gone.len() && 0 <= b < gone.len() && a != b
                                    implies gone[a] != gone[b] by {
                                    if a < old_gone.len() && b < old_gone.len() {
                                        assert(gone[a] == old_gone[a] && gone[b] == old_gone[b]);
                                    } else if a == old_gone.len() {
                                        assert(gone[b] == old_gone[b]);
                                        assert(old_gone.contains(old_gone[b]));
                                    } else {
                                        assert(gone[a] == old_gone[a]);
                                        assert(old_gone.contains(old_gone[a]));
                                    }
                                }
                            }
                            let step: Disabling = (i as int, r as int, before);
                            let old_pass = pass_steps;
                            let old_done = done;
                            assert(enabled@ == before.update(i as int, false));
                            assert(sweep(packages@, tv, before, i as int) == (
                                sweep(packages@, tv, enabled@, i + 1).0,
                                seq![step] + sweep(packages@, tv, enabled@, i + 1).1,
                            ));
                            pass_steps = pass_steps.push(step);
                            done = done.push(step);
                            assert(old_pass + (seq![step] + sweep(packages@, tv, enabled@, i + 1).1) =~= pass_steps + sweep(
                                packages@,
                                tv,
                                enabled@,
                                i + 1,
                            ).1);
                            assert(done =~= base + pass_steps);
                            assert(gone =~= done.map_values(|d: Disabling| d.0));
                            assert forall|k: int| 0 <= k < done.len() implies record_for(packages@, #[trigger] done[k].2, done[k].0, done[k].1, disabled@[k], problems@[k]) by {
                                if k < old_done.len() {
                                    assert(done[k] == old_done[k]);
                                } else {
                                    assert(done[k] == step);
                                }
                            }
                        }
                        changed = true;
                    },
                }
            } else {
                proof {
                    assert(sweep(packages@, tv, enabled@, i as int) == sweep(packages@, tv, enabled@, i + 1));
                }
            }
            i = i + 1;
        }
        proof {
            assert(sweep(packages@, tv, enabled@, n as int) == (enabled@, Seq::<Disabling>::empty()));
            assert(pass_steps + Seq::<Disabling>::empty() =~= pass_steps);
            assert(sweep(packages@, tv, pass_start, 0) == (enabled@, pass_steps));
        }
        if !changed {
            proof {
                assert forall|q: int| 0 <= q < enabled@.len() && #[trigger] enabled@[q] implies all_met(packages@, tv, enabled@, q) by {}
                assert(done + Seq::<Disabling>::empty() =~= done);
            }
            break;
        }
        proof {
            let fuel = (n + 1 - passes) as nat;
            assert(fuel >= 1);
            assert(settle(packages@, tv, pass_start, fuel) == (
                settle(packages@, tv, enabled@, (fuel - 1) as nat).0,
                pass_steps + settle(packages@, tv, enabled@, (fuel - 1) as nat).1,
            ));
            assert(base + (pass_steps + settle(packages@, tv, enabled@, (fuel - 1) as nat).1) =~= done + settle(
                packages@,
                tv,
                enabled@,
                (fuel - 1) as nat,
            ).1);
            passes = passes + 1;
        }
    }
    (enabled, disabled, problems, Ghost(gone))
}

/// What the resolver decided.
pub struct Resolution {
    /// Indices into the input slice, in load order. Disabled packages are absent.
    pub order: Vec<usize>,
    pub disabled: Vec<Disabled>,
    pub problems: Vec<Problem>,
    pub edges: OrderEdges,
}

/// `r` is what resolving `packages` against `constraints` gives, with `table` as semver's answer
/// for every requirement against every package, where `enabled` marks the packages `requires`
/// leaves, `gone` lists the ones it disabled in the order of their records, and `loops` and
/// `behind` split what the sort left out.
pub open spec fn resolved_by(
    packages: Seq<Package>,
    constraints: Seq<Constraint>,
    table: Seq<Seq<Seq<bool>>>,
    r: Resolution,
    enabled: Seq<bool>,
    gone: Seq<int>,
    loops: Seq<Seq<int>>,
    behind: Seq<int>,
) -> bool {
    let overruled = overruled_problems(
        packages,
        enabled,
        user_pairs(packages, enabled, constraints),
        manifest_candidates(packages, enabled, packages.len()),
    );
    let wanted = constraint_edges(packages, enabled, constraints);
    let first = gone.len() as int;
    let second = first + overruled.len();
    &&& self_sufficient(packages, table, enabled)
    &&& forall|t: Seq<bool>| #[trigger] self_sufficient(packages, table, t) ==> within(t, enabled)
    &&& enabled == requirement_passes(packages, table).0
    &&& gone == requirement_passes(packages, table).1.map_values(|d: Disabling| d.0)
    &&& forall|k: int|
        0 <= k < gone.len() ==> {
            let d = #[trigger] requirement_passes(packages, table).1[k];
            record_for(packages, d.2, d.0, d.1, r.disabled@[k], r.problems@[k])
        }
    &&& gone.no_duplicates()
    &&& forall|i: int| 0 <= i < packages.len() && !#[trigger] enabled[i] ==> gone.contains(i)
    &&& first <= r.disabled@.len()
    &&& second <= r.problems@.len()
    &&& forall|k: int|
        0 <= k < gone.len() ==> 0 <= #[trigger] gone[k] < packages.len() && !enabled[gone[k]]
            && requirement_record_ok(packages, table, enabled, gone[k], r.disabled@[k], r.problems@[k])
    &&& problem_views(r.problems@.subrange(first, second)) == overruled
    &&& r.edges.well_formed()
    &&& r.edges.is_closed()
    &&& distinct_pairs(r.edges@.edges)
    &&& pairs_of(r.edges@.edges) == pairs_of(wanted)
    &&& forall|k: int|
        0 <= k < r.edges@.edges.len() ==> last_of_its_pair(wanted, wanted.len() as int, #[trigger] r.edges@.edges[k])
    &&& is_load_order(packages, enabled, r.edges@.edges, positions(r.order@))
    &&& stuck_reported(
        packages,
        enabled,
        r.edges@.edges,
        r.edges@.ordered,
        positions(r.order@),
        loops,
        behind,
        r.disabled@.skip(first),
        r.problems@.skip(second),
    )
}

/// `r` is what resolving `packages` against `constraints` gives, with `table` as semver's answer
/// for every requirement against every package.
///
/// Three steps, in this order: `requires` leaves the largest set of packages whose every
/// requirement is met among themselves, reached by passes over the packages in order until one
/// disables nothing, and each package a pass disabled has a record and a problem, in the order
/// they happened, naming its first requirement unmet at that moment; the user's constraints and the live manifests' become
/// edges, a manifest pair the user contradicts dropped with a problem; the live packages are
/// placed earliest ready first, and what cannot be placed is reported loop by loop, then package
/// by package behind the loops.
pub open spec fn resolved(
    packages: Seq<Package>,
    constraints: Seq<Constraint>,
    table: Seq<Seq<Seq<bool>>>,
    r: Resolution,
) -> bool {
    exists|enabled: Seq<bool>, gone: Seq<int>, loops: Seq<Seq<int>>, behind: Seq<int>|
        #[trigger] resolved_by(packages, constraints, table, r, enabled, gone, loops, behind)
}

/// Which package the `k`th record of a resolution is about: the requirement records come first,
/// then the loop members loop by loop, then the packages behind the loops.
pub open spec fn record_owner(gone: Seq<int>, loops: Seq<Seq<int>>, behind: Seq<int>, k: int) -> int {
    if k < gone.len() {
        gone[k]
    } else if k < gone.len() + loops.flatten().len() {
        loops.flatten()[k - gone.len()]
    } else {
        behind[k - gone.len() - loops.flatten().len()]
    }
}

proof fn lemma_records_by_owner(
    packages: Seq<Package>,
    constraints: Seq<Constraint>,
    table: Seq<Seq<Seq<bool>>>,
    r: Resolution,
    enabled: Seq<bool>,
    gone: Seq<int>,
    loops: Seq<Seq<int>>,
    behind: Seq<int>,
)
    requires
        resolved_by(packages, constraints, table, r, enabled, gone, loops, behind),
    ensures
        r.disabled@.len() == gone.len() + loops.flatten().len() + behind.len(),
        forall|k: int|
            0 <= k < r.disabled@.len() ==> {
                let o = #[trigger] record_owner(gone, loops, behind, k);
                &&& 0 <= o < packages.len()
                &&& !positions(r.order@).contains(o)
                &&& r.disabled@[k].id@ == id_of(packages, o)
            },
        forall|k1: int, k2: int|
            0 <= k1 < k2 < r.disabled@.len() ==> #[trigger] record_owner(gone, loops, behind, k1) != #[trigger] record_owner(
                gone,
                loops,
                behind,
                k2,
            ),
        forall|i: int|
            0 <= i < packages.len() && !positions(r.order@).contains(i) ==> exists|k: int|
                0 <= k < r.disabled@.len() && #[trigger] record_owner(gone, loops, behind, k) == i,
{
    let order = positions(r.order@);
    let e = r.edges@;
    let first = gone.len() as int;
    let big_f = loops.flatten().len() as int;
    let st = r.disabled@.skip(first);
    let passes = requirement_passes(packages, table);
    crate::package::order::lemma_load_order_places_live_packages_once(packages, enabled, e.edges, order);
    crate::package::cycles::lemma_loops_are_disjoint(packages, enabled, e, order, loops);
    assert(st.len() == big_f + behind.len());
    assert forall|k: int| 0 <= k < r.disabled@.len() implies {
        let o = #[trigger] record_owner(gone, loops, behind, k);
        &&& 0 <= o < packages.len()
        &&& !order.contains(o)
        &&& r.disabled@[k].id@ == id_of(packages, o)
        &&& (k < first ==> !enabled[o])
        &&& (k >= first ==> crate::package::cycles::stuck(packages, enabled, order, o))
        &&& (first <= k < first + big_f ==> crate::package::cycles::on_loop(packages, e.ordered, o))
        &&& (k >= first + big_f ==> !crate::package::cycles::on_loop(packages, e.ordered, o))
    } by {
        let o = record_owner(gone, loops, behind, k);
        if k < first {
            let d = passes.1[k];
            assert(record_for(packages, d.2, d.0, d.1, r.disabled@[k], r.problems@[k]));
            assert(gone[k] == d.0);
            assert(0 <= gone[k] < packages.len() && !enabled[gone[k]]);
            if order.contains(o) {
                let t = choose|t: int| 0 <= t < order.len() && order[t] == o;
                assert(enabled[order[t]]);
            }
        } else if k < first + big_f {
            let x = k - first;
            crate::package::cycles::lemma_flatten_at(loops, x);
            let (l, p) = choose|l: int, p: int|
                0 <= l < loops.len() && 0 <= p < loops[l].len() && x == loops.take(l).flatten().len() + p && #[trigger] loops.flatten()[x]
                    == loops[l][p];
            assert(crate::package::cycles::cycle_record(packages, loops[l], loops[l][p], st[loops.take(l).flatten().len() + p]));
            assert(st[x] == r.disabled@[k]);
            assert(crate::package::cycles::looping(packages, enabled, e.ordered, order, loops[l][p]));
        } else {
            let b = k - first - big_f;
            assert(crate::package::cycles::behind_record(
                packages,
                e.ordered,
                crate::package::cycles::ids_at(packages, loops.flatten()),
                behind[b],
                st[big_f + b],
            ));
            assert(st[big_f + b] == r.disabled@[k]);
            assert(behind.contains(behind[b]));
            assert(crate::package::cycles::behind_loop(packages, enabled, e.ordered, order, behind[b]));
        }
    }
    assert forall|k1: int, k2: int| 0 <= k1 < k2 < r.disabled@.len() implies #[trigger] record_owner(gone, loops, behind, k1)
        != #[trigger] record_owner(gone, loops, behind, k2) by {
        let o1 = record_owner(gone, loops, behind, k1);
        let o2 = record_owner(gone, loops, behind, k2);
        if k2 < first {
            assert(gone.no_duplicates());
        } else if k1 >= first && k2 < first + big_f {
            assert(loops.flatten().no_duplicates());
            assert(o1 == loops.flatten()[k1 - first]);
            assert(o2 == loops.flatten()[k2 - first]);
        } else if k1 >= first + big_f {
            let b1 = k1 - first - big_f;
            let b2 = k2 - first - big_f;
            assert(crate::package::cycles::increasing(behind));
            assert(behind[b1] < behind[b2]);
        }
    }
    assert forall|i: int| 0 <= i < packages.len() && !order.contains(i) implies exists|k: int|
        0 <= k < r.disabled@.len() && #[trigger] record_owner(gone, loops, behind, k) == i by {
        if !enabled[i] {
            assert(gone.contains(i));
            let k = choose|k: int| 0 <= k < gone.len() && gone[k] == i;
            assert(record_owner(gone, loops, behind, k) == i);
        } else if crate::package::cycles::on_loop(packages, e.ordered, i) {
            assert(crate::package::cycles::looping(packages, enabled, e.ordered, order, i));
            let l = choose|l: int| 0 <= l < loops.len() && #[trigger] loops[l].contains(i);
            let p = choose|p: int| 0 <= p < loops[l].len() && loops[l][p] == i;
            crate::package::cycles::lemma_flatten_index(loops, l, p);
            let k = first + loops.take(l).flatten().len() + p;
            assert(record_owner(gone, loops, behind, k) == i);
        } else {
            assert(crate::package::cycles::behind_loop(packages, enabled, e.ordered, order, i));
            assert(behind.contains(i));
            let b = choose|b: int| 0 <= b < behind.len() && behind[b] == i;
            let k = first + big_f + b;
            assert(record_owner(gone, loops, behind, k) == i);
        }
    }
}

/// Every package either loads or has exactly one record saying why not, never both, and every
/// record is some package's: the load order names live packages, each once; every other package
/// is disabled once. Records name packages by id, so ids are taken as distinct.
pub proof fn lemma_every_package_loads_or_is_disabled_once(
    packages: Seq<Package>,
    constraints: Seq<Constraint>,
    table: Seq<Seq<Seq<bool>>>,
    r: Resolution,
)
    requires
        resolved(packages, constraints, table, r),
        forall|i: int, j: int| 0 <= i < j < packages.len() ==> id_of(packages, i) != id_of(packages, j),
    ensures
        positions(r.order@).no_duplicates(),
        forall|t: int| 0 <= t < r.order@.len() ==> 0 <= #[trigger] r.order@[t] < packages.len(),
        forall|i: int|
            0 <= i < packages.len() ==> (positions(r.order@).contains(i) <==> !exists|k: int|
                0 <= k < r.disabled@.len() && #[trigger] r.disabled@[k].id@ == id_of(packages, i)),
        forall|i: int, k1: int, k2: int|
            #![trigger r.disabled@[k1], r.disabled@[k2], id_of(packages, i)]
            0 <= i < packages.len() && 0 <= k1 < r.disabled@.len() && 0 <= k2 < r.disabled@.len() && r.disabled@[k1].id@
                == id_of(packages, i) && r.disabled@[k2].id@ == id_of(packages, i) ==> k1 == k2,
        forall|k: int|
            0 <= k < r.disabled@.len() ==> exists|i: int| 0 <= i < packages.len() && #[trigger] r.disabled@[k].id@ == id_of(packages, i),
{
    let (enabled, gone, loops, behind) = choose|enabled: Seq<bool>, gone: Seq<int>, loops: Seq<Seq<int>>, behind: Seq<int>|
        #[trigger] resolved_by(packages, constraints, table, r, enabled, gone, loops, behind);
    let order = positions(r.order@);
    crate::package::order::lemma_load_order_places_live_packages_once(packages, enabled, r.edges@.edges, order);
    lemma_records_by_owner(packages, constraints, table, r, enabled, gone, loops, behind);
    assert forall|t: int| 0 <= t < r.order@.len() implies 0 <= #[trigger] r.order@[t] < packages.len() by {
        assert(order[t] == r.order@[t]);
    }
    assert forall|i: int| 0 <= i < packages.len() implies (order.contains(i) <==> !exists|k: int|
        0 <= k < r.disabled@.len() && #[trigger] r.disabled@[k].id@ == id_of(packages, i)) by {
        if order.contains(i) {
            if exists|k: int| 0 <= k < r.disabled@.len() && #[trigger] r.disabled@[k].id@ == id_of(packages, i) {
                let k = choose|k: int| 0 <= k < r.disabled@.len() && #[trigger] r.disabled@[k].id@ == id_of(packages, i);
                let o = record_owner(gone, loops, behind, k);
                if o != i {
                    if o < i {
                        assert(id_of(packages, o) != id_of(packages, i));
                    } else {
                        assert(id_of(packages, i) != id_of(packages, o));
                    }
                }
            }
        } else {
            let k = choose|k: int| 0 <= k < r.disabled@.len() && #[trigger] record_owner(gone, loops, behind, k) == i;
            assert(r.disabled@[k].id@ == id_of(packages, i));
        }
    }
    assert forall|i: int, k1: int, k2: int|
        #![trigger r.disabled@[k1], r.disabled@[k2], id_of(packages, i)]
        0 <= i < packages.len() && 0 <= k1 < r.disabled@.len() && 0 <= k2 < r.disabled@.len() && r.disabled@[k1].id@
            == id_of(packages, i) && r.disabled@[k2].id@ == id_of(packages, i) implies k1 == k2 by {
        let o1 = record_owner(gone, loops, behind, k1);
        let o2 = record_owner(gone, loops, behind, k2);
        assert(o1 == i) by {
            if o1 < i {
                assert(id_of(packages, o1) != id_of(packages, i));
            } else if o1 > i {
                assert(id_of(packages, i) != id_of(packages, o1));
            }
        }
        assert(o2 == i) by {
            if o2 < i {
                assert(id_of(packages, o2) != id_of(packages, i));
            } else if o2 > i {
                assert(id_of(packages, i) != id_of(packages, o2));
            }
        }
        if k1 < k2 {
            assert(record_owner(gone, loops, behind, k1) != record_owner(gone, loops, behind, k2));
        } else if k2 < k1 {
            assert(record_owner(gone, loops, behind, k2) != record_owner(gone, loops, behind, k1));
        }
    }
    assert forall|k: int| 0 <= k < r.disabled@.len() implies exists|i: int|
        0 <= i < packages.len() && #[trigger] r.disabled@[k].id@ == id_of(packages, i) by {
        let o = record_owner(gone, loops, behind, k);
        assert(r.disabled@[k].id@ == id_of(packages, o));
    }
}

/// Puts `packages` in load order, with `table` as semver's answer for every requirement against
/// every package, disabling whatever cannot load.
pub fn resolve_with(packages: &[Package], load_order: &LoadOrder, table: &Vec<Vec<Vec<bool>>>) -> (out: Resolution)
    requires
        table_fits(packages@, table_view(*table)),
    ensures
        resolved(packages@, load_order.constraints@, table_view(*table), out),
{
    let (enabled, mut disabled, mut problems, gone) = check_requirements(packages, table);
    let (mut edges, mut overruled) = collect_constraints(packages, &enabled, &load_order.constraints);
    let ghost edge_list = edges@.edges;
    edges.close();
    let (order, placed) = place(packages, &enabled, &edges);
    let (mut stuck_disabled, mut stuck_problems, loops, behind) = report_stuck(
        packages,
        &enabled,
        &placed,
        &edges,
        Ghost(positions(order@)),
    );
    let ghost p1 = problems@;
    let ghost p2 = overruled@;
    let ghost p3 = stuck_problems@;
    let ghost d1 = disabled@;
    let ghost d2 = stuck_disabled@;
    problems.append(&mut overruled);
    problems.append(&mut stuck_problems);
    disabled.append(&mut stuck_disabled);
    let out = Resolution { order, disabled, problems, edges };
    proof {
        assert(out.problems@ =~= p1 + p2 + p3);
        assert(out.disabled@ =~= d1 + d2);
        let first = gone@.len() as int;
        let second = first + p2.len();
        assert(out.problems@.subrange(first, second) =~= p2);
        assert(out.problems@.skip(second) =~= p3);
        assert(out.disabled@.skip(first) =~= d2);
        assert forall|k: int| 0 <= k < gone@.len() implies ({
            let d = #[trigger] requirement_passes(packages@, table_view(*table)).1[k];
            record_for(packages@, d.2, d.0, d.1, out.disabled@[k], out.problems@[k])
        }) by {
            assert(out.disabled@[k] == d1[k]);
            assert(out.problems@[k] == p1[k]);
        }
        assert forall|k: int| 0 <= k < gone@.len() implies 0 <= #[trigger] gone@[k] < packages@.len()
            && !enabled@[gone@[k]] && requirement_record_ok(
            packages@,
            table_view(*table),
            enabled@,
            gone@[k],
            out.disabled@[k],
            out.problems@[k],
        ) by {
            assert(out.disabled@[k] == d1[k]);
            assert(out.problems@[k] == p1[k]);
        }
        assert(resolved_by(packages@, load_order.constraints@, table_view(*table), out, enabled@, gone@, loops@, behind@));
    }
    out
}

/// semver's answer for every requirement against every package: `[i][r][j]` is whether
/// requirement `r` of package `i` names package `j`'s id and accepts its version.
fn semver_answers(packages: &[Package]) -> (out: Vec<Vec<Vec<bool>>>)
    ensures
        table_fits(packages@, table_view(out)),
        table_view(out) == semver_table(packages@),
{
    let n = packages.len();
    let mut texts: Vec<String> = Vec::new();
    let mut j: usize = 0;
    while j < n
        invariant
            j <= n,
            n == packages@.len(),
            texts@.len() == j,
            forall|k: int| 0 <= k < j ==> #[trigger] texts@[k]@ == version_text(packages@[k].manifest.package.version),
        decreases n - j,
    {
        texts.push(packages[j].manifest.package.version.to_text());
        j = j + 1;
    }
    let mut out: Vec<Vec<Vec<bool>>> = Vec::new();
    let mut i: usize = 0;
    while i < n
        invariant
            i <= n,
            n == packages@.len(),
            texts@.len() == n,
            forall|k: int| 0 <= k < n ==> #[trigger] texts@[k]@ == version_text(packages@[k].manifest.package.version),
            out@.len() == i,
            forall|a: int| 0 <= a < i ==> Seq::new((#[trigger] out@[a])@.len(), |b: int| out@[a]@[b]@) == semver_table(packages@)[a],
        decreases n - i,
    {
        let needs = &packages[i].manifest.package.requires;
        let mut row: Vec<Vec<bool>> = Vec::new();
        let mut r: usize = 0;
        while r < needs.len()
            invariant
                r <= needs@.len(),
                i < n,
                n == packages@.len(),
                texts@.len() == n,
                forall|k: int| 0 <= k < n ==> #[trigger] texts@[k]@ == version_text(packages@[k].manifest.package.version),
                needs@ == packages@[i as int].manifest.package.requires@,
                row@.len() == r,
                forall|b: int| 0 <= b < r ==> (#[trigger] row@[b])@ == semver_table(packages@)[i as int][b],
            decreases needs@.len() - r,
        {
            let requirement = &needs[r];
            let mut answers: Vec<bool> = Vec::new();
            let mut k: usize = 0;
            while k < n
                invariant
                    k <= n,
                    i < n,
                    r < needs@.len(),
                    n == packages@.len(),
                    texts@.len() == n,
                    forall|q: int| 0 <= q < n ==> #[trigger] texts@[q]@ == version_text(packages@[q].manifest.package.version),
                    needs@ == packages@[i as int].manifest.package.requires@,
                    *requirement == needs@[r as int],
                    answers@.len() == k,
                    forall|q: int| 0 <= q < k ==> #[trigger] answers@[q] == semver_table(packages@)[i as int][r as int][q],
                decreases n - k,
            {
                let same_id = str_eq(packages[k].manifest.package.id.as_str(), requirement.id.as_str());
                let accepted = requirement_accepts(requirement.req.as_str(), texts[k].as_str());
                answers.push(same_id && accepted);
                k = k + 1;
            }
            proof {
                assert(answers@ =~= semver_table(packages@)[i as int][r as int]);
            }
            row.push(answers);
            r = r + 1;
        }
        proof {
            assert(Seq::new(row@.len(), |b: int| row@[b]@) =~= semver_table(packages@)[i as int]);
        }
        let ghost before = out@;
        out.push(row);
        proof {
            assert forall|a: int| 0 <= a < i + 1 implies Seq::new((#[trigger] out@[a])@.len(), |b: int| out@[a]@[b]@) == semver_table(packages@)[a] by {
                if a < i {
                    assert(out@[a] == before[a]);
                }
            }
        }
        i = i + 1;
    }
    proof {
        assert(table_view(out) =~= semver_table(packages@));
    }
    out
}

/// Puts `packages` in load order, disabling whatever cannot load.
///
/// `packages` arrives in the baseline order, search path as listed then directory name, and
/// that order breaks every tie the constraints leave open. Whether a requirement accepts a
/// version is semver's answer.
pub fn resolve(packages: &[Package], load_order: &LoadOrder) -> (out: Resolution)
    ensures
        resolved(packages@, load_order.constraints@, semver_table(packages@), out),
{
    let table = semver_answers(packages);
    resolve_with(packages, load_order, &table)
}

/// Two versions with the same numbers and tags.
pub open spec fn same_version(a: Version, b: Version) -> bool {
    a.major == b.major && a.minor == b.minor && a.patch == b.patch && a.pre@ == b.pre@ && a.build@
        == b.build@
}

/// Two reasons that say the same thing.
pub open spec fn same_reason(a: DisableReason, b: DisableReason) -> bool {
    match (a, b) {
        (
            DisableReason::Unsatisfied { requirement: r1, found: f1 },
            DisableReason::Unsatisfied { requirement: r2, found: f2 },
        ) => r1.id@ == r2.id@ && r1.req@ == r2.req@ && match (f1, f2) {
            (Some(v1), Some(v2)) => same_version(v1, v2),
            (None, None) => true,
            _ => false,
        },
        (DisableReason::RequirementDisabled { id: a }, DisableReason::RequirementDisabled { id: b }) => a@ == b@,
        (DisableReason::Cycle { members: a }, DisableReason::Cycle { members: b }) => views(a@) == views(b@),
        (DisableReason::BehindCycle { cycle: a }, DisableReason::BehindCycle { cycle: b }) => views(a@) == views(b@),
        _ => false,
    }
}

/// Two records that say the same thing.
pub open spec fn same_disabled(a: Disabled, b: Disabled) -> bool {
    a.id@ == b.id@ && a.root@ == b.root@ && same_reason(a.reason, b.reason)
}

/// A copy of a list of strings.
fn copy_names(list: &Vec<String>) -> (out: Vec<String>)
    ensures
        views(out@) == views(list@),
{
    let mut out: Vec<String> = Vec::new();
    let mut k: usize = 0;
    while k < list.len()
        invariant
            k <= list@.len(),
            views(out@) == views(list@).take(k as int),
        decreases list@.len() - k,
    {
        let ghost before = out@;
        out.push(list[k].clone());
        proof {
            assert(views(out@) =~= views(before).push(list@[k as int]@));
            assert(views(list@).take(k + 1) =~= views(list@).take(k as int).push(list@[k as int]@));
        }
        k = k + 1;
    }
    proof {
        assert(views(list@).take(list@.len() as int) =~= views(list@));
    }
    out
}

impl Disabled {
    /// A copy of this record.
    pub fn duplicate(&self) -> (out: Disabled)
        ensures
            same_disabled(out, *self),
    {
        let reason = match &self.reason {
            DisableReason::Unsatisfied { requirement, found } => DisableReason::Unsatisfied {
                requirement: requirement.duplicate(),
                found: match found {
                    Some(v) => Some(v.duplicate()),
                    None => None,
                },
            },
            DisableReason::RequirementDisabled { id } => DisableReason::RequirementDisabled { id: id.clone() },
            DisableReason::Cycle { members } => DisableReason::Cycle { members: copy_names(members) },
            DisableReason::BehindCycle { cycle } => DisableReason::BehindCycle { cycle: copy_names(cycle) },
        };
        Disabled { id: self.id.clone(), root: self.root.clone(), reason }
    }
}

/// A copy of a list of records.
pub fn copy_disabled(list: &Vec<Disabled>) -> (out: Vec<Disabled>)
    ensures
        out@.len() == list@.len(),
        forall|k: int| 0 <= k < list@.len() ==> same_disabled(#[trigger] out@[k], list@[k]),
{
    let mut out: Vec<Disabled> = Vec::new();
    let mut k: usize = 0;
    while k < list.len()
        invariant
            k <= list@.len(),
            out@.len() == k,
            forall|j: int| 0 <= j < k ==> same_disabled(#[trigger] out@[j], list@[j]),
        decreases list@.len() - k,
    {
        out.push(list[k].duplicate());
        k = k + 1;
    }
    out
}

proof fn lemma_increasing_cover_at(order: Seq<int>, n: int, t: int)
    requires
        forall|s: int, u: int| 0 <= s < u < order.len() ==> #[trigger] order[s] < #[trigger] order[u],
        forall|v: int| order.contains(v) <==> 0 <= v < n,
        0 <= t < order.len(),
    ensures
        order[t] == t,
    decreases t,
{
    assert(order.contains(order[t]));
    if t > 0 {
        lemma_increasing_cover_at(order, n, t - 1);
    }
    if order[t] != t {
        assert(order.contains(t));
        let q = choose|q: int| 0 <= q < order.len() && order[q] == t;
        if q < t {
            if q < t - 1 {
                assert(order[q] < order[t - 1]);
            }
        } else if q > t {
            assert(order[t] < order[q]);
        }
    }
}

/// An increasing list of exactly the numbers below `n` is `0, 1, ..., n - 1`.
proof fn lemma_increasing_cover(order: Seq<int>, n: int)
    requires
        0 <= n,
        forall|s: int, u: int| 0 <= s < u < order.len() ==> #[trigger] order[s] < #[trigger] order[u],
        forall|v: int| order.contains(v) <==> 0 <= v < n,
    ensures
        order == Seq::new(n as nat, |i: int| i),
{
    assert forall|t: int| 0 <= t < order.len() implies order[t] == t by {
        lemma_increasing_cover_at(order, n, t);
    }
    if order.len() < n {
        assert(order.contains(n - 1));
        let q = choose|q: int| 0 <= q < order.len() && order[q] == n - 1;
    }
    if order.len() > n {
        assert(order.contains(order[n]));
    }
    assert(order =~= Seq::new(n as nat, |i: int| i));
}

proof fn lemma_no_manifest_pairs(packages: Seq<Package>, enabled: Seq<bool>, n: nat)
    requires
        n <= packages.len(),
        forall|i: int|
            0 <= i < packages.len() ==> (#[trigger] packages[i]).manifest.package.after@.len() == 0
                && packages[i].manifest.package.before@.len() == 0,
    ensures
        crate::package::constraints::manifest_candidates(packages, enabled, n).len() == 0,
    decreases n,
{
    if n > 0 {
        lemma_no_manifest_pairs(packages, enabled, (n - 1) as nat);
    }
}

/// Packages with no `requires`, `after` or `before`, and no user constraint, load in exactly the
/// order they came in: the baseline is what breaks every tie the constraints leave open.
pub proof fn lemma_unconstrained_packages_keep_their_order(
    packages: Seq<Package>,
    table: Seq<Seq<Seq<bool>>>,
    r: Resolution,
)
    requires
        resolved(packages, Seq::empty(), table, r),
        forall|i: int|
            0 <= i < packages.len() ==> (#[trigger] packages[i]).manifest.package.requires@.len() == 0
                && packages[i].manifest.package.after@.len() == 0
                && packages[i].manifest.package.before@.len() == 0,
    ensures
        positions(r.order@) == Seq::new(packages.len(), |i: int| i),
{
    let (enabled, gone, loops, behind) = choose|enabled: Seq<bool>, gone: Seq<int>, loops: Seq<Seq<int>>, behind: Seq<int>|
        #[trigger] resolved_by(packages, Seq::empty(), table, r, enabled, gone, loops, behind);
    let everyone = Seq::new(packages.len(), |i: int| true);
    assert(self_sufficient(packages, table, everyone));
    assert(within(everyone, enabled));
    lemma_no_manifest_pairs(packages, enabled, packages.len());
    let wanted = constraint_edges(packages, enabled, Seq::empty());
    assert(user_candidates(Seq::<Constraint>::empty()).len() == 0);
    assert(wanted =~= Seq::<EdgeView>::empty());
    let stored = r.edges@.edges;
    if stored.len() > 0 {
        assert(pairs_of(stored).contains((stored[0].0, stored[0].1)));
    }
    assert forall|a: int, b: int| !#[trigger] arc(packages, enabled, stored, a, b) by {}
    lemma_unconstrained_order_is_the_incoming_one(packages, enabled, stored, positions(r.order@));
    lemma_increasing_cover(positions(r.order@), packages.len() as int);
}

} // verus!
