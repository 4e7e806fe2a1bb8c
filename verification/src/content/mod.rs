//! The older content layer: a package list, an alias registry and the loader's state machine.
//!
//! The scan itself belongs to [`crate::asset_content`] now. What is left runs the state machine to
//! its end so a game waiting on it still starts, and keeps a registry of aliases to paths.

use crate::alias::table::AliasTable;
use crate::text::views;
use vstd::prelude::*;

verus! {

/// Whether a package takes part.
#[derive(Debug, Clone, Copy, PartialEq, Eq, Structural)]
pub enum PackageState {
    Inactive,
    Active,
}

/// A package as this layer tracks it.
#[derive(Debug, Clone, PartialEq, Eq)]
pub struct Package {
    pub state: PackageState,
    pub id: String,
}

/// Every package.
#[derive(Debug, Clone, PartialEq, Eq)]
pub struct Packages {
    pub items: Vec<Package>,
}

/// Where the loader is in bringing packages in.
#[derive(Debug, Clone, Copy, PartialEq, Eq, Structural)]
pub enum LoaderState {
    Startup,
    ManifestsScanning,
    ManifestsLoading,
    PackagesRegistering,
    PackagesRegistered,
    AssetsRegistering,
    AssetsRegistered,
}

/// The state the loader moves to on entering `state`, or `None` where it rests.
pub open spec fn next_state(state: LoaderState) -> Option<LoaderState> {
    match state {
        LoaderState::Startup => Some(LoaderState::PackagesRegistering),
        LoaderState::PackagesRegistering => Some(LoaderState::PackagesRegistered),
        LoaderState::PackagesRegistered => Some(LoaderState::AssetsRegistering),
        LoaderState::AssetsRegistering => Some(LoaderState::AssetsRegistered),
        _ => None,
    }
}

impl Default for LoaderState {
    /// The machine starts at `Startup`.
    fn default() -> (out: LoaderState)
        ensures
            out == LoaderState::Startup,
    {
        LoaderState::Startup
    }
}

impl LoaderState {
    /// The state the loader moves to on entering this one. The scan has moved out of this layer,
    /// so registering finds nothing and each step follows at once, straight to
    /// `AssetsRegistered`; the manifest states are never entered.
    pub fn on_enter(self) -> (out: Option<LoaderState>)
        ensures
            out == next_state(self),
    {
        match self {
            LoaderState::Startup => Some(LoaderState::PackagesRegistering),
            LoaderState::PackagesRegistering => Some(LoaderState::PackagesRegistered),
            LoaderState::PackagesRegistered => Some(LoaderState::AssetsRegistering),
            LoaderState::AssetsRegistering => Some(LoaderState::AssetsRegistered),
            _ => None,
        }
    }
}

/// Where entering states from `state` on comes to rest, within `fuel` steps.
pub open spec fn settles(state: LoaderState, fuel: nat) -> LoaderState
    decreases fuel,
{
    if fuel == 0 {
        state
    } else {
        match next_state(state) {
            Some(s) => settles(s, (fuel - 1) as nat),
            None => state,
        }
    }
}

/// From its start the loader always reaches `AssetsRegistered`, in four steps, and rests there.
pub proof fn lemma_the_loader_runs_to_its_end()
    ensures
        settles(LoaderState::Startup, 4) == LoaderState::AssetsRegistered,
        next_state(LoaderState::AssetsRegistered) is None,
{
    reveal_with_fuel(settles, 5);
}

/// Registers the package list and the alias registry, and runs the loader.
#[derive(Debug, Clone)]
pub struct ContentPlugin {
    package_search_paths: Vec<String>,
    default_package_active_state: PackageState,
}

impl ContentPlugin {
    /// The search paths, as the contracts see them.
    pub closed spec fn search_paths_view(&self) -> Seq<Seq<char>> {
        views(self.package_search_paths@)
    }

    /// The state a package starts in, as the contracts see it.
    pub closed spec fn default_state_view(&self) -> PackageState {
        self.default_package_active_state
    }

    /// No search paths, and packages active by default.
    pub fn new() -> (out: ContentPlugin)
        ensures
            out.search_paths_view() == Seq::<Seq<char>>::empty(),
            out.default_state_view() == PackageState::Active,
    {
        let out = ContentPlugin { package_search_paths: Vec::new(), default_package_active_state: PackageState::Active };
        proof {
            assert(views(out.package_search_paths@) =~= Seq::<Seq<char>>::empty());
        }
        out
    }

    /// Sets the directories scanned for package manifests, relative to the asset root.
    pub fn with_search_paths(self, paths: Vec<String>) -> (out: ContentPlugin)
        ensures
            out.search_paths_view() == views(paths@),
            out.default_state_view() == self.default_state_view(),
    {
        ContentPlugin { package_search_paths: paths, ..self }
    }

    /// The directories scanned for package manifests.
    pub fn search_paths(&self) -> (out: &Vec<String>)
        ensures
            views(out@) == self.search_paths_view(),
    {
        &self.package_search_paths
    }
}

/// Maps a package-namespaced asset alias such as `core::airship` to a path under the asset root.
pub struct AssetRegistry {
    alias_to_path: AliasTable<String>,
}

impl View for AssetRegistry {
    type V = Map<Seq<char>, Seq<char>>;

    closed spec fn view(&self) -> Map<Seq<char>, Seq<char>> {
        self.alias_to_path@.map_values(|p: String| p@)
    }
}

impl AssetRegistry {
    /// No aliases.
    pub fn new() -> (out: AssetRegistry)
        ensures
            out@ == Map::<Seq<char>, Seq<char>>::empty(),
    {
        let out = AssetRegistry { alias_to_path: AliasTable::new() };
        proof {
            assert(out@ =~= Map::<Seq<char>, Seq<char>>::empty());
        }
        out
    }

    /// Registers `alias`, replacing any path already registered under it.
    pub fn register_asset(&mut self, alias: &str, path: &str)
        ensures
            final(self)@ == old(self)@.insert(alias@, path@),
    {
        let ghost before = self.alias_to_path@;
        self.alias_to_path.insert(alias, String::from_str(path));
        proof {
            assert(self@ =~= before.map_values(|p: String| p@).insert(alias@, path@));
        }
    }

    /// Forgets `alias`.
    pub fn unregister_asset(&mut self, alias: &str)
        ensures
            final(self)@ == old(self)@.remove(alias@),
    {
        let ghost before = self.alias_to_path@;
        self.alias_to_path.remove(alias);
        proof {
            assert(self@ =~= before.map_values(|p: String| p@).remove(alias@));
        }
    }

    /// The path registered under `alias`, if any.
    pub fn get_path(&self, alias: &str) -> (out: Option<&str>)
        ensures
            out matches Some(p) ==> self@.contains_key(alias@) && self@[alias@] == p@,
            out is None ==> !self@.contains_key(alias@),
    {
        match self.alias_to_path.get(alias) {
            Some(p) => Some(p.as_str()),
            None => None,
        }
    }
}

} // verus!
