//! Where the alias side and the package side meet: scan the packages, fold them into one index,
//! and report what happened.

pub mod apply;

use crate::alias::discovery::{Decoder, Vfs};
use crate::alias::index::ContentIndex;
use crate::alias::problem::{Problem, ProblemKind, ProblemView, problem_views};
use crate::package::index::{ContentReport, Scan, build_index, folded};
use crate::package::manifest::{LoadOrder, Package};
use crate::package::scan::{assets_ok, group_positions, read_from, scan_packages, scanned};
use crate::text::views;
use vstd::prelude::*;

verus! {

/// Relative path to the asset root, as the asset server's default has it.
pub const DEFAULT_ASSET_ROOT: &'static str = "assets";

/// Where the package scan reads: the search paths under the asset root, in load order, and the
/// user's load order file, if the target has one.
#[derive(Debug, Clone)]
pub struct AssetContentPlugin {
    search_paths: Vec<String>,
    asset_root: String,
    load_order_file: Option<String>,
}

impl AssetContentPlugin {
    /// The search paths, as the contracts see them.
    pub closed spec fn search_paths_view(&self) -> Seq<Seq<char>> {
        views(self.search_paths@)
    }

    /// The asset root, as the contracts see it.
    pub closed spec fn asset_root_view(&self) -> Seq<char> {
        self.asset_root@
    }

    /// The load order file, as the contracts see it.
    pub closed spec fn load_order_file_view(&self) -> Option<Seq<char>> {
        match self.load_order_file {
            Some(p) => Some(p@),
            None => None,
        }
    }

    /// No search paths, which path a game ships being its own policy; `assets` as the root; no
    /// load order file.
    pub fn new() -> (out: AssetContentPlugin)
        ensures
            out.search_paths_view() == Seq::<Seq<char>>::empty(),
            out.asset_root_view() == "assets"@,
            out.load_order_file_view() is None,
    {
        let out = AssetContentPlugin {
            search_paths: Vec::new(),
            asset_root: String::from_str(DEFAULT_ASSET_ROOT),
            load_order_file: None,
        };
        proof {
            assert(views(out.search_paths@) =~= Seq::<Seq<char>>::empty());
        }
        out
    }

    /// Sets the directories scanned for packages, relative to the asset root.
    pub fn with_search_paths(self, paths: Vec<String>) -> (out: AssetContentPlugin)
        ensures
            out.search_paths_view() == views(paths@),
            out.asset_root_view() == self.asset_root_view(),
            out.load_order_file_view() == self.load_order_file_view(),
    {
        AssetContentPlugin { search_paths: paths, ..self }
    }

    /// Sets the asset root. Must match the asset server's.
    pub fn with_asset_root(self, path: String) -> (out: AssetContentPlugin)
        ensures
            out.asset_root_view() == path@,
            out.search_paths_view() == self.search_paths_view(),
            out.load_order_file_view() == self.load_order_file_view(),
    {
        AssetContentPlugin { asset_root: path, ..self }
    }

    /// Sets the user's load order file. It is the player's file, not the game's content, so it
    /// lives outside the asset tree, wherever the target says.
    pub fn with_load_order_file(self, path: String) -> (out: AssetContentPlugin)
        ensures
            out.load_order_file_view() == Some(path@),
            out.search_paths_view() == self.search_paths_view(),
            out.asset_root_view() == self.asset_root_view(),
    {
        AssetContentPlugin { load_order_file: Some(path), ..self }
    }

    /// The directories scanned for packages.
    pub fn search_paths(&self) -> (out: &Vec<String>)
        ensures
            views(out@) == self.search_paths_view(),
    {
        &self.search_paths
    }

    /// The asset root.
    pub fn asset_root(&self) -> (out: &str)
        ensures
            out@ == self.asset_root_view(),
    {
        self.asset_root.as_str()
    }

    /// The user's load order file, if there is one.
    pub fn load_order_file(&self) -> (out: Option<&str>)
        ensures
            out matches Some(p) ==> self.load_order_file_view() == Some(p@),
            out is None ==> self.load_order_file_view() is None,
    {
        match &self.load_order_file {
            Some(p) => Some(p.as_str()),
            None => None,
        }
    }
}

/// The problem a load order file that would not read is reported as.
pub open spec fn load_order_problem(path: Seq<char>, error: Seq<char>) -> ProblemView {
    (path, ProblemKind::UnparseableLoadOrder, error)
}

/// Runs the package scan and folds it into the index.
///
/// `load_order` is the user's load order file as it was read: its path and what reading it gave.
/// A file that would not read is reported and ignored, so the scan runs with no user constraints;
/// so does one without a file. The report's problems are the fold's, then that one.
pub fn scan_content<V: Vfs, D: Decoder>(
    vfs: &V,
    decoder: &D,
    search_paths: &Vec<String>,
    load_order: Option<(String, Result<LoadOrder, String>)>,
) -> (out: (ContentIndex, ContentReport))
    ensures
        exists|found: Seq<Package>, walk_problems: Seq<ProblemView>, order: LoadOrder, scan: Scan, g: Seq<int>|
            #![trigger scanned(found, walk_problems, order, scan), group_positions(found, crate::text::views(search_paths@), g)]
            order.constraints@ == used_constraints(load_order) && assets_ok(found) && scanned(
                found,
                walk_problems,
                order,
                scan,
            ) && group_positions(found, crate::text::views(search_paths@), g) && (search_paths@.len() == 0 ==> found.len()
                == 0 && walk_problems.len() == 0) && read_from(crate::text::views(search_paths@), found, walk_problems) && out.0@
                == folded(scan.packages@, problem_views(scan.problems@)).index && problem_views(out.1.problems@)
                == folded(scan.packages@, problem_views(scan.problems@)).problems + load_order_problems(load_order),
{
    let mut problems: Vec<Problem> = Vec::new();
    let order = match load_order {
        Some((_, Ok(order))) => order,
        Some((path, Err(error))) => {
            problems.push(Problem { path, kind: ProblemKind::UnparseableLoadOrder, detail: error });
            LoadOrder::new()
        },
        None => LoadOrder::new(),
    };
    let scan = scan_packages(vfs, decoder, search_paths, &order);
    let (index, mut report) = build_index(&scan);
    let ghost before = report.problems@;
    report.problems.append(&mut problems);
    proof {
        assert(problem_views(report.problems@) =~= problem_views(before) + load_order_problems(load_order));
    }
    (index, report)
}

/// The user constraints the scan runs with: the file's, or none at all.
pub open spec fn used_constraints(
    load_order: Option<(String, Result<LoadOrder, String>)>,
) -> Seq<crate::package::manifest::Constraint> {
    match load_order {
        Some((_, Ok(order))) => order.constraints@,
        _ => Seq::empty(),
    }
}

/// The problems the load order file adds: one when it would not read.
pub open spec fn load_order_problems(load_order: Option<(String, Result<LoadOrder, String>)>) -> Seq<ProblemView> {
    match load_order {
        Some((path, Err(error))) => seq![load_order_problem(path@, error@)],
        _ => Seq::empty(),
    }
}

} // verus!
