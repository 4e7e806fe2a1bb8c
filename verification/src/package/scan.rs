//! Finding the packages under every search path, discovering the assets in each, and putting
//! them in load order.
//!
//! A search path holds one directory per package; package discovery does not recurse, asset
//! discovery inside a package does. Nothing here fails the scan: an unreadable directory or an
//! unparseable manifest is a problem, and one broken package costs that package alone. A missing
//! search path is not even a problem: a fresh install may not have created `mods` yet.

use crate::alias::discovery::{
    decoded_outcome, dir_paths, listing_outcome, read_outcome, scan_aliases, scan_walked, subdirectories, AliasScan, Decoder, DirEntry, Vfs,
    VfsError,
};
use crate::alias::problem::DiscoveredAsset;
use crate::text::views;
use crate::alias::index::valid_alias;
use crate::alias::problem::{problem_views, Problem, ProblemKind, ProblemView};
use crate::package::index::Scan;
use crate::package::manifest::{LoadOrder, Manifest, Package};
use crate::package::order::positions;
use crate::package::resolve::{resolve, resolved, semver_table, Resolution};
use vstd::prelude::*;

verus! {

/// The file that marks a directory as a package.
pub const MANIFEST_FILE: &'static str = "manifest.toml";

/// What the reader's answer for the manifest at `path` comes to: no manifest when the reader
/// found nothing there, its bytes when it read them, else an unparseable-manifest problem at
/// `path` in the reader's words.
pub fn manifest_read_outcome(path: &String, read: Result<Vec<u8>, VfsError>) -> (out: Result<Option<Vec<u8>>, Problem>)
    ensures
        read matches Ok(bytes) ==> out matches Ok(Some(b)) && b@ == bytes@,
        read matches Err(VfsError::NotFound(_)) ==> out matches Ok(None),
        read matches Err(VfsError::Io { .. }) ==> out matches Err(p) && p.path@ == path@ && p.kind
            == ProblemKind::UnparseableManifest && p.detail@ == read->Err_0.text(),
{
    match read {
        Err(VfsError::NotFound(_)) => Ok(None),
        other => match read_outcome(path, ProblemKind::UnparseableManifest, other) {
            Ok(bytes) => Ok(Some(bytes)),
            Err(problem) => Err(problem),
        },
    }
}

/// The manifest of the package in `dir`, if there is one: `Ok(None)` means the directory is not
/// a package, `Err` that it is one and its manifest is unusable. What the reader and the decoder
/// answer is theirs; [`manifest_read_outcome`] and [`decoded_outcome`] state what each answer
/// comes to.
fn read_manifest<V: Vfs, D: Decoder>(vfs: &V, decoder: &D, path: &String) -> (out: Result<Option<Manifest>, Problem>)
    ensures
        out matches Err(p) ==> p.path@ == path@ && p.kind == ProblemKind::UnparseableManifest,
{
    match manifest_read_outcome(path, vfs.read_file(path.as_str())) {
        Ok(Some(bytes)) => match decoded_outcome(path, ProblemKind::UnparseableManifest, decoder.manifest(bytes.as_slice())) {
            Ok(manifest) => Ok(Some(manifest)),
            Err(problem) => Err(problem),
        },
        Ok(None) => Ok(None),
        Err(problem) => Err(problem),
    }
}

/// `dir` joined with `name`.
fn join_path(dir: &String, name: &str) -> (out: String)
    ensures
        dir@.len() == 0 ==> out@ == name@,
        dir@.len() > 0 ==> out@ == dir@ + "/"@ + name@,
{
    if dir.as_str().unicode_len() == 0 {
        String::from_str(name)
    } else {
        let mut out = dir.clone();
        out.append("/");
        out.append(name);
        out
    }
}

/// Every asset of every package has a valid alias, and no package has two assets with one alias.
pub open spec fn assets_ok(packages: Seq<Package>) -> bool {
    &&& forall|i: int, k: int|
        0 <= i < packages.len() && 0 <= k < packages[i].assets@.len() ==> valid_alias(
            #[trigger] packages[i].assets@[k].alias@,
        )
    &&& forall|i: int, j: int, k: int|
        0 <= i < packages.len() && 0 <= j < k < packages[i].assets@.len() ==> #[trigger] packages[i].assets@[j].alias@
            != #[trigger] packages[i].assets@[k].alias@
}

/// What one directory under a search path came to: not a package; a package, with the walk of
/// its assets; or a problem with its manifest.
pub type PackageOutcome = Result<Option<(Manifest, AliasScan)>, Problem>;

/// Every asset a walk found has a valid alias, and no two share one.
pub open spec fn scan_ok(scan: AliasScan) -> bool {
    &&& forall|k: int| 0 <= k < scan.assets@.len() ==> valid_alias(#[trigger] scan.assets@[k].alias@)
    &&& forall|j: int, k: int|
        0 <= j < k < scan.assets@.len() ==> #[trigger] scan.assets@[j].alias@ != #[trigger] scan.assets@[k].alias@
}

/// The packages the first `n` directories make, as manifest, root and assets, and the problems
/// they add: each directory in listing order adds nothing when it is not a package; the package,
/// then its walk's problems, when it is one; its manifest problem when that is unusable.
pub open spec fn packages_taken(roots: Seq<Seq<char>>, outcomes: Seq<PackageOutcome>, n: nat) -> (
    Seq<(Manifest, Seq<char>, Vec<DiscoveredAsset>)>,
    Seq<ProblemView>,
)
    decreases n,
{
    if n == 0 {
        (Seq::empty(), Seq::empty())
    } else {
        let prev = packages_taken(roots, outcomes, (n - 1) as nat);
        match outcomes[n - 1] {
            Ok(Some((m, scan))) => (prev.0.push((m, roots[n - 1], scan.assets)), prev.1 + problem_views(scan.problems@)),
            Ok(None) => prev,
            Err(p) => (prev.0, prev.1.push((p.path@, p.kind, p.detail@))),
        }
    }
}

/// Adds the packages found under `search_path`, whose directories are `roots`, to `found`, and
/// their problems to `problems`, in listing order, as [`packages_taken`] states.
fn take_packages(
    found: &mut Vec<Package>,
    problems: &mut Vec<Problem>,
    search_path: &String,
    roots: &Vec<String>,
    outcomes: Vec<PackageOutcome>,
)
    requires
        assets_ok(old(found)@),
        roots@.len() == outcomes@.len(),
        forall|k: int| 0 <= k < outcomes@.len() ==> (#[trigger] outcomes@[k] matches Ok(Some(pair)) ==> scan_ok(pair.1)),
    ensures
        ({
            let taken = packages_taken(views(roots@), outcomes@, outcomes@.len() as nat);
            &&& final(found)@.len() == old(found)@.len() + taken.0.len()
            &&& forall|i: int| 0 <= i < old(found)@.len() ==> #[trigger] final(found)@[i] == old(found)@[i]
            &&& forall|j: int|
                0 <= j < taken.0.len() ==> {
                    let p = #[trigger] final(found)@[old(found)@.len() + j];
                    &&& p.manifest == taken.0[j].0
                    &&& p.root@ == taken.0[j].1
                    &&& p.search_path@ == search_path@
                    &&& p.assets == taken.0[j].2
                }
            &&& problem_views(final(problems)@) == problem_views(old(problems)@) + taken.1
        }),
        assets_ok(final(found)@),
        final(problems)@.len() >= old(problems)@.len(),
        forall|i: int| 0 <= i < old(problems)@.len() ==> #[trigger] final(problems)@[i] == old(problems)@[i],
{
    let ghost all = outcomes@;
    let ghost roots_v = views(roots@);
    let ghost start = found@;
    let ghost first = problems@;
    let mut rest = outcomes;
    let mut k: usize = 0;
    proof {
        assert(problem_views(first) + Seq::<ProblemView>::empty() =~= problem_views(first));
    }
    while k < roots.len()
        invariant
            k <= roots@.len(),
            roots@.len() == all.len(),
            roots_v == views(roots@),
            rest@ == all.skip(k as int),
            forall|q: int| 0 <= q < all.len() ==> (#[trigger] all[q] matches Ok(Some(pair)) ==> scan_ok(pair.1)),
            assets_ok(found@),
            found@.len() == start.len() + packages_taken(roots_v, all, k as nat).0.len(),
            forall|i: int| 0 <= i < start.len() ==> #[trigger] found@[i] == start[i],
            forall|j: int|
                0 <= j < packages_taken(roots_v, all, k as nat).0.len() ==> {
                    let p = #[trigger] found@[start.len() + j];
                    &&& p.manifest == packages_taken(roots_v, all, k as nat).0[j].0
                    &&& p.root@ == packages_taken(roots_v, all, k as nat).0[j].1
                    &&& p.search_path@ == search_path@
                    &&& p.assets == packages_taken(roots_v, all, k as nat).0[j].2
                },
            problem_views(problems@) == problem_views(first) + packages_taken(roots_v, all, k as nat).1,
            problems@.len() >= first.len(),
            forall|i: int| 0 <= i < first.len() ==> #[trigger] problems@[i] == first[i],
        decreases roots@.len() - k,
    {
        let ghost prev = packages_taken(roots_v, all, k as nat);
        let ghost before_found = found@;
        let ghost before_problems = problems@;
        let outcome = rest.remove(0);
        proof {
            assert(outcome == all[k as int]);
            assert(rest@ =~= all.skip(k + 1));
        }
        match outcome {
            Ok(Some((manifest, scan))) => {
                let AliasScan { assets, problems: walk_problems } = scan;
                let mut walk_problems = walk_problems;
                let ghost walk_views = problem_views(walk_problems@);
                problems.append(&mut walk_problems);
                found.push(Package { manifest, root: roots[k].clone(), search_path: search_path.clone(), assets });
                proof {
                    assert(problem_views(problems@) =~= problem_views(before_problems) + walk_views);
                    assert(problem_views(problems@) =~= problem_views(first) + packages_taken(roots_v, all, (k + 1) as nat).1);
                    assert(roots_v[k as int] == roots@[k as int]@);
                    assert forall|j: int| 0 <= j < packages_taken(roots_v, all, (k + 1) as nat).0.len() implies {
                        let p = #[trigger] found@[start.len() + j];
                        &&& p.manifest == packages_taken(roots_v, all, (k + 1) as nat).0[j].0
                        &&& p.root@ == packages_taken(roots_v, all, (k + 1) as nat).0[j].1
                        &&& p.search_path@ == search_path@
                        &&& p.assets == packages_taken(roots_v, all, (k + 1) as nat).0[j].2
                    } by {
                        if j < prev.0.len() {
                            assert(found@[start.len() + j] == before_found[start.len() + j]);
                        }
                    }
                    assert forall|i: int, a: int|
                        0 <= i < found@.len() && 0 <= a < found@[i].assets@.len() implies valid_alias(
                            #[trigger] found@[i].assets@[a].alias@,
                        ) by {
                        if i < before_found.len() {
                            assert(found@[i] == before_found[i]);
                        }
                    }
                    assert forall|i: int, j: int, a: int|
                        0 <= i < found@.len() && 0 <= j < a < found@[i].assets@.len() implies #[trigger] found@[i].assets@[j].alias@
                            != #[trigger] found@[i].assets@[a].alias@ by {
                        if i < before_found.len() {
                            assert(found@[i] == before_found[i]);
                        }
                    }
                }
            },
            Ok(None) => {},
            Err(problem) => {
                problems.push(problem);
                proof {
                    assert(problem_views(problems@) =~= problem_views(before_problems).push(
                        (problem.path@, problem.kind, problem.detail@),
                    ));
                }
            },
        }
        k = k + 1;
    }
}

/// `dir` joined with `name`, as [`join_path`] joins them.
pub open spec fn joined_path(dir: Seq<char>, name: Seq<char>) -> Seq<char> {
    if dir.len() == 0 {
        name
    } else {
        dir + "/"@ + name
    }
}

/// What one directory `root` under a search path can come to: a package whose assets are what
/// walking `root` finds, the manifest file among the files it skips; not a package; or a problem
/// with its manifest, at the manifest.
pub open spec fn outcome_fits(root: Seq<char>, o: PackageOutcome) -> bool {
    match o {
        Ok(Some((m, scan))) => scan_walked(scan, root, seq![MANIFEST_FILE@]),
        Ok(None) => true,
        Err(p) => p.path@ == joined_path(root, MANIFEST_FILE@) && p.kind == ProblemKind::UnparseableManifest,
    }
}

/// A search path listed as `entries`, its directories coming to `outcomes`, in listing order,
/// took `found0` and `problems0` to `found1` and `problems1` as [`packages_taken`] states.
pub open spec fn packages_listed(
    search_path: Seq<char>,
    entries: Seq<DirEntry>,
    outcomes: Seq<PackageOutcome>,
    found0: Seq<Package>,
    found1: Seq<Package>,
    problems0: Seq<Problem>,
    problems1: Seq<Problem>,
) -> bool {
    let roots = dir_paths(entries);
    let taken = packages_taken(roots, outcomes, outcomes.len() as nat);
    &&& outcomes.len() == roots.len()
    &&& forall|k: int| 0 <= k < outcomes.len() ==> outcome_fits(roots[k], #[trigger] outcomes[k])
    &&& found1.len() == found0.len() + taken.0.len()
    &&& forall|i: int| 0 <= i < found0.len() ==> #[trigger] found1[i] == found0[i]
    &&& forall|j: int|
        0 <= j < taken.0.len() ==> {
            let p = #[trigger] found1[found0.len() + j];
            &&& p.manifest == taken.0[j].0
            &&& p.root@ == taken.0[j].1
            &&& p.search_path@ == search_path
            &&& p.assets == taken.0[j].2
        }
    &&& problem_views(problems1) == problem_views(problems0) + taken.1
}

/// What reading the search path `search_path` did to `found0` and `problems0`, for some answers of
/// the reader: nothing when there is no such directory; one unreadable-directory problem when it
/// cannot be listed; else each directory in it taken in, in listing order, as
/// [`packages_listed`] states.
pub open spec fn packages_read(
    search_path: Seq<char>,
    found0: Seq<Package>,
    found1: Seq<Package>,
    problems0: Seq<Problem>,
    problems1: Seq<Problem>,
) -> bool {
    ||| found1 == found0 && problems1 == problems0
    ||| found1 == found0 && exists|text: Seq<char>|
        problem_views(problems1) == #[trigger] problem_views(problems0).push((search_path, ProblemKind::UnreadableDirectory, text))
    ||| exists|entries: Seq<DirEntry>, outcomes: Seq<PackageOutcome>|
        #[trigger] packages_listed(search_path, entries, outcomes, found0, found1, problems0, problems1)
}

/// The packages found and the problems met reading `search_paths` in order from nothing, for some
/// answers of the reader, each search path as [`packages_read`] states.
pub open spec fn read_from(search_paths: Seq<Seq<char>>, found: Seq<Package>, walk_problems: Seq<ProblemView>) -> bool {
    exists|fs: Seq<Seq<Package>>, ps: Seq<Seq<Problem>>|
        #[trigger] stages_read(search_paths, fs, ps) && found == fs.last() && walk_problems == problem_views(ps.last())
}

/// `fs` and `ps` are what the packages and problems were before each search path was read, and
/// after the last.
pub open spec fn stages_read(search_paths: Seq<Seq<char>>, fs: Seq<Seq<Package>>, ps: Seq<Seq<Problem>>) -> bool {
    &&& fs.len() == search_paths.len() + 1
    &&& ps.len() == fs.len()
    &&& fs[0] == Seq::<Package>::empty()
    &&& ps[0] == Seq::<Problem>::empty()
    &&& forall|k: int| 0 <= k < search_paths.len() ==> #[trigger] packages_read(search_paths[k], fs[k], fs[k + 1], ps[k], ps[k + 1])
}

/// Reads every package directly inside `search_path`, in listing order, into `found`. What the
/// reader answers is its own; what each answer comes to is stated where it is taken in: the
/// listing by [`listing_outcome`], the directories by [`subdirectories`], each manifest by
/// [`manifest_read_outcome`] and [`decoded_outcome`], and which directories become packages, with
/// which problems, by [`take_packages`].
fn read_packages_in<V: Vfs, D: Decoder>(
    vfs: &V,
    decoder: &D,
    search_path: &String,
    found: &mut Vec<Package>,
    problems: &mut Vec<Problem>,
)
    requires
        assets_ok(old(found)@),
    ensures
        assets_ok(final(found)@),
        final(found)@.len() >= old(found)@.len(),
        forall|i: int| 0 <= i < old(found)@.len() ==> #[trigger] final(found)@[i] == old(found)@[i],
        forall|i: int| old(found)@.len() <= i < final(found)@.len() ==> (#[trigger] final(found)@[i]).search_path@ == search_path@,
        final(problems)@.len() >= old(problems)@.len(),
        forall|i: int| 0 <= i < old(problems)@.len() ==> #[trigger] final(problems)@[i] == old(problems)@[i],
        packages_read(search_path@, old(found)@, final(found)@, old(problems)@, final(problems)@),
{
    let ghost found0 = found@;
    let ghost problems0 = problems@;
    let entries = match listing_outcome(search_path, vfs.read_dir(search_path.as_str())) {
        Ok(Some(entries)) => entries,
        Ok(None) => return,
        Err(problem) => {
            let ghost text = problem.detail@;
            problems.push(problem);
            proof {
                assert(problem_views(problems@) =~= problem_views(problems0).push(
                    (search_path@, ProblemKind::UnreadableDirectory, text),
                ));
            }
            return;
        },
    };
    let roots = subdirectories(&entries);
    let mut ignored: Vec<String> = Vec::new();
    ignored.push(String::from_str(MANIFEST_FILE));
    proof {
        assert(views(ignored@) =~= seq![MANIFEST_FILE@]);
    }
    let mut outcomes: Vec<PackageOutcome> = Vec::new();
    let mut k: usize = 0;
    while k < roots.len()
        invariant
            k <= roots@.len(),
            outcomes@.len() == k,
            forall|q: int| 0 <= q < outcomes@.len() ==> (#[trigger] outcomes@[q] matches Ok(Some(pair)) ==> scan_ok(pair.1)),
            forall|q: int| 0 <= q < outcomes@.len() ==> outcome_fits(views(roots@)[q], #[trigger] outcomes@[q]),
            views(ignored@) == seq![MANIFEST_FILE@],
        decreases roots@.len() - k,
    {
        let root = &roots[k];
        let manifest_path = join_path(root, MANIFEST_FILE);
        let outcome: PackageOutcome = match read_manifest(vfs, decoder, &manifest_path) {
            Ok(Some(manifest)) => {
                let scan = scan_aliases(vfs, decoder, root.as_str(), &ignored);
                Ok(Some((manifest, scan)))
            },
            Ok(None) => Ok(None),
            Err(problem) => Err(problem),
        };
        proof {
            assert(views(roots@)[k as int] == root@);
            assert(outcome_fits(root@, outcome));
        }
        outcomes.push(outcome);
        k = k + 1;
    }
    let ghost before = found@;
    let ghost all = outcomes@;
    take_packages(found, problems, search_path, &roots, outcomes);
    proof {
        assert(views(roots@) == dir_paths(entries@));
        assert(packages_listed(search_path@, entries@, all, found0, found@, problems0, problems@));
        assert forall|i: int| before.len() <= i < found@.len() implies (#[trigger] found@[i]).search_path@ == search_path@ by {
            let j = i - before.len();
            assert(found@[before.len() + j].search_path@ == search_path@);
        }
    }
}

/// `packages` taken in the order `order` gives.
pub open spec fn arranged(packages: Seq<Package>, order: Seq<int>) -> Seq<Package> {
    Seq::new(order.len(), |k: int| packages[order[k]])
}

/// Moves the packages at `order`, in that order, out of `found`.
fn arrange(found: Vec<Package>, order: &Vec<usize>) -> (out: Vec<Package>)
    requires
        order@.no_duplicates(),
        forall|k: int| 0 <= k < order@.len() ==> #[trigger] order@[k] < found@.len(),
    ensures
        out@ == arranged(found@, positions(order@)),
{
    let ghost all = found@;
    let n = found.len();
    let m = order.len();
    let mut rank: Vec<Option<usize>> = Vec::new();
    let mut j: usize = 0;
    while j < n
        invariant
            j <= n,
            rank@.len() == j,
            forall|i: int| 0 <= i < j ==> #[trigger] rank@[i] is None,
        decreases n - j,
    {
        rank.push(None);
        j = j + 1;
    }
    let mut k: usize = 0;
    while k < m
        invariant
            k <= m,
            m == order@.len(),
            rank@.len() == n,
            n == all.len(),
            order@.no_duplicates(),
            forall|q: int| 0 <= q < m ==> #[trigger] order@[q] < n,
            forall|i: int| 0 <= i < n ==> (#[trigger] rank@[i] matches Some(q) ==> q < k && order@[q as int] == i),
            forall|q: int| 0 <= q < k ==> #[trigger] rank@[order@[q] as int] == Some(q as usize),
        decreases m - k,
    {
        let ghost before = rank@;
        rank.set(order[k], Some(k));
        proof {
            assert forall|q: int| 0 <= q < k implies #[trigger] rank@[order@[q] as int] == Some(q as usize) by {
                assert(order@[q] != order@[k as int]);
            }
        }
        k = k + 1;
    }
    let mut slots: Vec<Option<Package>> = Vec::new();
    let mut j: usize = 0;
    while j < m
        invariant
            j <= m,
            slots@.len() == j,
            forall|q: int| 0 <= q < j ==> #[trigger] slots@[q] is None,
        decreases m - j,
    {
        slots.push(None);
        j = j + 1;
    }
    let mut rest = found;
    while rest.len() > 0
        invariant
            rest@.len() <= n,
            n == all.len(),
            m == order@.len(),
            rest@ == all.take(rest@.len() as int),
            rank@.len() == n,
            slots@.len() == m,
            forall|q: int| 0 <= q < m ==> #[trigger] order@[q] < n,
            forall|i: int| 0 <= i < n ==> (#[trigger] rank@[i] matches Some(q) ==> q < m && order@[q as int] == i),
            forall|q: int| 0 <= q < m ==> #[trigger] rank@[order@[q] as int] == Some(q as usize),
            forall|q: int|
                0 <= q < m ==> if order@[q] < rest@.len() {
                    #[trigger] slots@[q] is None
                } else {
                    slots@[q] == Some(all[order@[q] as int])
                },
        decreases rest@.len(),
    {
        let i = rest.len() - 1;
        let package = rest.pop().unwrap();
        proof {
            assert(package == all[i as int]);
            assert(rest@ =~= all.take(i as int));
        }
        match rank[i] {
            Some(q) => {
                slots.set(q, Some(package));
            },
            None => {},
        }
    }
    let mut reversed: Vec<Package> = Vec::new();
    while slots.len() > 0
        invariant
            slots@.len() <= m,
            m == order@.len(),
            reversed@.len() + slots@.len() == m,
            forall|q: int| 0 <= q < slots@.len() ==> #[trigger] slots@[q] == Some(all[order@[q] as int]),
            forall|q: int| 0 <= q < reversed@.len() ==> #[trigger] reversed@[q] == all[order@[m - 1 - q] as int],
        decreases slots@.len(),
    {
        let q = slots.len() - 1;
        let slot = slots.pop().unwrap();
        proof {
            assert(slot == Some(all[order@[q as int] as int]));
        }
        reversed.push(slot.unwrap());
    }
    let mut out: Vec<Package> = Vec::new();
    while reversed.len() > 0
        invariant
            reversed@.len() <= m,
            m == order@.len(),
            out@.len() + reversed@.len() == m,
            forall|q: int| 0 <= q < reversed@.len() ==> #[trigger] reversed@[q] == all[order@[m - 1 - q] as int],
            forall|q: int| 0 <= q < out@.len() ==> #[trigger] out@[q] == all[order@[q] as int],
        decreases reversed@.len(),
    {
        let package = reversed.pop().unwrap();
        out.push(package);
    }
    proof {
        assert(out@ =~= arranged(all, positions(order@)));
    }
    out
}

/// `out` is the scan of packages `found` under the user's `load_order`: the live packages in load
/// order, what resolution disabled, the problems the walk met and then resolution's, and the
/// edges that ordered them.
pub open spec fn scanned(found: Seq<Package>, walk_problems: Seq<ProblemView>, load_order: LoadOrder, out: Scan) -> bool {
    exists|r: Resolution|
        #[trigger] resolved(found, load_order.constraints@, semver_table(found), r) && out.packages@ == arranged(
            found,
            positions(r.order@),
        ) && out.disabled@ == r.disabled@ && problem_views(out.problems@) == walk_problems + problem_views(r.problems@)
            && out.edges == r.edges
}

/// `g` places each package found at the search path it was found under, and never goes back: the
/// packages come grouped by search path, in the order the search paths are given.
pub open spec fn group_positions(found: Seq<Package>, search_paths: Seq<Seq<char>>, g: Seq<int>) -> bool {
    &&& g.len() == found.len()
    &&& forall|i: int|
        0 <= i < g.len() ==> 0 <= #[trigger] g[i] < search_paths.len() && found[i].search_path@ == search_paths[g[i]]
    &&& forall|i: int, j: int| 0 <= i < j < g.len() ==> #[trigger] g[i] <= #[trigger] g[j]
}

/// Scans every search path for packages, in the order the search paths are given and then by
/// directory name, discovers the assets in each, and puts them in load order.
///
/// What the directories hold is the reader's answer, so this states what holds whatever it
/// answers: the packages found are resolved against the load order exactly as [`resolve`] says,
/// and every asset of every package has a valid alias of its own.
pub fn scan_packages<V: Vfs, D: Decoder>(vfs: &V, decoder: &D, search_paths: &Vec<String>, load_order: &LoadOrder) -> (out: Scan)
    ensures
        exists|found: Seq<Package>, walk_problems: Seq<ProblemView>, g: Seq<int>|
            #![trigger scanned(found, walk_problems, *load_order, out), group_positions(found, views(search_paths@), g)]
            assets_ok(found) && scanned(found, walk_problems, *load_order, out) && group_positions(
                found,
                views(search_paths@),
                g,
            ) && (search_paths@.len() == 0 ==> found.len() == 0 && walk_problems.len() == 0) && read_from(
                views(search_paths@),
                found,
                walk_problems,
            ),
        assets_ok(out.packages@),
        search_paths@.len() == 0 ==> out.packages@.len() == 0,
{
    let mut found: Vec<Package> = Vec::new();
    let mut problems: Vec<Problem> = Vec::new();
    let ghost mut g: Seq<int> = Seq::empty();
    let ghost mut fs: Seq<Seq<Package>> = seq![Seq::<Package>::empty()];
    let ghost mut ps: Seq<Seq<Problem>> = seq![Seq::<Problem>::empty()];
    proof {
        assert(found@ =~= Seq::<Package>::empty());
        assert(problems@ =~= Seq::<Problem>::empty());
    }
    let mut k: usize = 0;
    while k < search_paths.len()
        invariant
            k <= search_paths@.len(),
            fs.len() == k + 1,
            ps.len() == k + 1,
            fs[0] == Seq::<Package>::empty(),
            ps[0] == Seq::<Problem>::empty(),
            fs.last() == found@,
            ps.last() == problems@,
            forall|j: int|
                0 <= j < k ==> #[trigger] packages_read(views(search_paths@)[j], fs[j], fs[j + 1], ps[j], ps[j + 1]),
            assets_ok(found@),
            group_positions(found@, views(search_paths@), g),
            forall|i: int| 0 <= i < g.len() ==> #[trigger] g[i] < k,
            k == 0 ==> found@.len() == 0 && problems@.len() == 0,
        decreases search_paths@.len() - k,
    {
        let ghost before = found@;
        let ghost problems_before = problems@;
        read_packages_in(vfs, decoder, &search_paths[k], &mut found, &mut problems);
        proof {
            let old_fs = fs;
            let old_ps = ps;
            fs = fs.push(found@);
            ps = ps.push(problems@);
            assert(views(search_paths@)[k as int] == search_paths@[k as int]@);
            assert forall|j: int| 0 <= j < k + 1 implies #[trigger] packages_read(
                views(search_paths@)[j],
                fs[j],
                fs[j + 1],
                ps[j],
                ps[j + 1],
            ) by {
                if j < k {
                    assert(fs[j] == old_fs[j] && fs[j + 1] == old_fs[j + 1] && ps[j] == old_ps[j] && ps[j + 1] == old_ps[j + 1]);
                } else {
                    assert(fs[j] == before && fs[j + 1] == found@ && ps[j] == problems_before && ps[j + 1] == problems@);
                }
            }
            let added = (found@.len() - before.len()) as nat;
            let g2 = g + Seq::new(added, |q: int| k as int);
            assert forall|i: int| 0 <= i < g2.len() implies 0 <= #[trigger] g2[i] < views(search_paths@).len() && found@[i].search_path@
                == views(search_paths@)[g2[i]] by {
                if i < g.len() {
                    assert(found@[i] == before[i]);
                } else {
                    assert(found@[i].search_path@ == search_paths@[k as int]@);
                }
            }
            assert forall|i: int, j: int| 0 <= i < j < g2.len() implies #[trigger] g2[i] <= #[trigger] g2[j] by {
                if j >= g.len() && i < g.len() {
                    assert(g[i] < k);
                }
            }
            g = g2;
        }
        k = k + 1;
    }
    let resolution = resolve(found.as_slice(), load_order);
    let ghost r = resolution;
    let ghost all = found@;
    let ghost walk_problems = problem_views(problems@);
    proof {
        let (enabled, gone, loops, behind) = choose|enabled: Seq<bool>, gone: Seq<int>, loops: Seq<Seq<int>>, behind: Seq<int>|
            #[trigger] crate::package::resolve::resolved_by(all, load_order.constraints@, semver_table(all), r, enabled, gone, loops, behind);
        crate::package::order::lemma_load_order_places_live_packages_once(all, enabled, r.edges@.edges, positions(r.order@));
        assert(positions(r.order@).no_duplicates());
        assert forall|p: int, q: int| 0 <= p < r.order@.len() && 0 <= q < r.order@.len() && p != q implies r.order@[p] != r.order@[q] by {
            assert(positions(r.order@)[p] != positions(r.order@)[q]);
        }
        assert forall|q: int| 0 <= q < r.order@.len() implies #[trigger] r.order@[q] < all.len() by {
            assert(0 <= positions(r.order@)[q] < all.len());
        }
    }
    let Resolution { order, disabled, problems: resolution_problems, edges } = resolution;
    let packages = arrange(found, &order);
    let mut all_problems = problems;
    let mut tail = resolution_problems;
    all_problems.append(&mut tail);
    let out = Scan { packages, disabled, problems: all_problems, edges };
    proof {
        assert(problem_views(out.problems@) =~= walk_problems + problem_views(r.problems@));
        assert(scanned(all, walk_problems, *load_order, out));
        assert(group_positions(all, views(search_paths@), g));
        assert(stages_read(views(search_paths@), fs, ps));
        assert(read_from(views(search_paths@), all, walk_problems));
        if search_paths@.len() == 0 {
            assert(walk_problems.len() == 0);
            if out.packages@.len() > 0 {
                assert(r.order@[0] < all.len());
            }
        }
        assert forall|i: int, a: int|
            0 <= i < out.packages@.len() && 0 <= a < out.packages@[i].assets@.len() implies valid_alias(
                #[trigger] out.packages@[i].assets@[a].alias@,
            ) by {
            assert(out.packages@[i] == all[r.order@[i] as int]);
        }
        assert forall|i: int, j: int, a: int|
            0 <= i < out.packages@.len() && 0 <= j < a < out.packages@[i].assets@.len() implies #[trigger] out.packages@[i].assets@[j].alias@
                != #[trigger] out.packages@[i].assets@[a].alias@ by {
            assert(out.packages@[i] == all[r.order@[i] as int]);
        }
    }
    out
}

} // verus!
