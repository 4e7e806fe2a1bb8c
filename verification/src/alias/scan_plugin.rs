//! Filling the alias index by scanning the asset root, with no package involved.
//!
//! The default answer to who fills the index the `alias://` source waits on: walk the asset root,
//! take every alias a `_rules.toml` or a `.alias` file names, and hand the result over. A project
//! with its own idea of load order scans package by package instead and never uses this.

use crate::alias::discovery::{AliasScan, Decoder, Vfs, asset_views, index_of_assets, scan_aliases, scan_walked};
use crate::alias::index::{ContentIndex, valid_alias};
use vstd::prelude::*;

verus! {

/// Relative path to the asset root, as the asset server's default has it.
pub const DEFAULT_ASSET_ROOT: &'static str = "assets";

/// Where and what the startup alias scan reads.
#[derive(Debug, Clone)]
pub struct AliasScanPlugin {
    asset_root: String,
    root: String,
    ignored_file_names: Vec<String>,
}

impl AliasScanPlugin {
    /// The asset root the scan reads through, as the contracts see it.
    pub closed spec fn asset_root_view(&self) -> Seq<char> {
        self.asset_root@
    }

    /// The directory below the asset root that the scan covers, empty for all of it.
    pub closed spec fn root_view(&self) -> Seq<char> {
        self.root@
    }

    /// The file names the walk never turns into an asset, as the contracts see them.
    pub closed spec fn ignored_view(&self) -> Seq<Seq<char>> {
        crate::text::views(self.ignored_file_names@)
    }

    /// Scans all of `assets`, ignoring nothing beyond what the walk always skips.
    pub fn new() -> (out: AliasScanPlugin)
        ensures
            out.asset_root_view() == "assets"@,
            out.root_view() == Seq::<char>::empty(),
            out.ignored_view() == Seq::<Seq<char>>::empty(),
    {
        let out = AliasScanPlugin {
            asset_root: String::from_str(DEFAULT_ASSET_ROOT),
            root: String::new(),
            ignored_file_names: Vec::new(),
        };
        proof {
            assert(crate::text::views(out.ignored_file_names@) =~= Seq::<Seq<char>>::empty());
        }
        out
    }

    /// Sets the asset root the scan reads through. Must match the asset server's.
    pub fn with_asset_root(self, path: String) -> (out: AliasScanPlugin)
        ensures
            out.asset_root_view() == path@,
            out.root_view() == self.root_view(),
            out.ignored_view() == self.ignored_view(),
    {
        AliasScanPlugin { asset_root: path, ..self }
    }

    /// Limits the scan to one directory below the asset root. Empty, the default, scans all of it.
    pub fn with_root(self, path: String) -> (out: AliasScanPlugin)
        ensures
            out.root_view() == path@,
            out.asset_root_view() == self.asset_root_view(),
            out.ignored_view() == self.ignored_view(),
    {
        AliasScanPlugin { root: path, ..self }
    }

    /// Names files the walk must never turn into an asset, on top of `_rules.toml`, `*.alias` and
    /// `*.meta`, which it always skips.
    pub fn with_ignored_file_names(self, names: Vec<String>) -> (out: AliasScanPlugin)
        ensures
            out.ignored_view() == crate::text::views(names@),
            out.asset_root_view() == self.asset_root_view(),
            out.root_view() == self.root_view(),
    {
        AliasScanPlugin { ignored_file_names: names, ..self }
    }

    /// The asset root the scan reads through.
    pub fn asset_root(&self) -> (out: &str)
        ensures
            out@ == self.asset_root_view(),
    {
        self.asset_root.as_str()
    }

    /// Runs the scan through `vfs`, rooted at the asset root, and builds the index it fills: every
    /// alias found, each once.
    pub fn scan<V: Vfs, D: Decoder>(&self, vfs: &V, decoder: &D) -> (out: (AliasScan, ContentIndex))
        ensures
            forall|k: int| 0 <= k < out.0.assets@.len() ==> valid_alias(#[trigger] out.0.assets@[k].alias@),
            forall|j: int, k: int|
                0 <= j < k < out.0.assets@.len() ==> #[trigger] out.0.assets@[j].alias@ != #[trigger] out.0.assets@[k].alias@,
            out.1@ == index_of_assets(asset_views(out.0.assets@)),
            scan_walked(out.0, self.root_view(), self.ignored_view()),
    {
        let scan = scan_aliases(vfs, decoder, self.root.as_str(), &self.ignored_file_names);
        let index = scan.to_index();
        (scan, index)
    }
}

} // verus!
