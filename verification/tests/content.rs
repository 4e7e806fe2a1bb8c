use ename::alias::index::ContentIndex;
use ename::alias::scan_plugin::AliasScanPlugin;
use ename::asset_content::apply::{apply_manifest, build_index, AssetsInfo, DeclaredPackage};
use ename::asset_content::AssetContentPlugin;
use ename::content::{AssetRegistry, ContentPlugin, LoaderState};

fn pairs(list: &[(&str, &str)]) -> Option<Vec<(String, String)>> {
    Some(list.iter().map(|(a, p)| ((*a).to_owned(), (*p).to_owned())).collect())
}

fn adds(list: &[(&str, &str)]) -> AssetsInfo {
    AssetsInfo { add: pairs(list), replace: None, remove: None }
}

#[test]
fn add_namespaces_the_alias_and_roots_the_path() {
    let mut index = ContentIndex::new();
    apply_manifest(&mut index, "core", &adds(&[("airship", "airship.glb")]), "basegame/core");
    assert_eq!(index.resolve("core::airship").map(|p| p.as_str()), Some("basegame/core/airship.glb"));
}

#[test]
fn replace_uses_the_alias_verbatim() {
    let mut index = ContentIndex::new();
    index.insert("core::airship", "basegame/core/airship.glb").unwrap();
    let assets = AssetsInfo { add: None, replace: pairs(&[("core::airship", "big_airship.glb")]), remove: None };
    apply_manifest(&mut index, "bigships", &assets, "mods/bigships");
    assert_eq!(index.resolve("core::airship").map(|p| p.as_str()), Some("mods/bigships/big_airship.glb"));
}

#[test]
fn remove_drops_the_alias() {
    let mut index = ContentIndex::new();
    index.insert("core::banana", "basegame/core/banana.glb").unwrap();
    let assets = AssetsInfo { add: None, replace: None, remove: Some(vec!["core::banana".to_owned()]) };
    apply_manifest(&mut index, "trimmed", &assets, "mods/trimmed");
    assert_eq!(index.resolve("core::banana"), None);
}

#[test]
fn a_bad_alias_is_skipped_and_the_rest_still_registers() {
    let mut index = ContentIndex::new();
    apply_manifest(&mut index, "core", &adds(&[("air#ship", "airship.glb"), ("map", "map.glb")]), "basegame/core");
    assert_eq!(index.len(), 1);
    assert_eq!(index.resolve("core::map").map(|p| p.as_str()), Some("basegame/core/map.glb"));
}

#[test]
fn build_index_applies_packages_in_order() {
    let core = DeclaredPackage {
        id: "core".to_owned(),
        assets: adds(&[("greeting", "greeting.txt")]),
        root: "base/core".to_owned(),
    };
    let loud = DeclaredPackage {
        id: "loud".to_owned(),
        assets: AssetsInfo { add: None, replace: pairs(&[("core::greeting", "greeting.txt")]), remove: None },
        root: "mods/loud".to_owned(),
    };
    let index = build_index(&[core, loud]);
    assert_eq!(index.resolve("core::greeting").map(|p| p.as_str()), Some("mods/loud/greeting.txt"));
}

#[test]
fn the_registry_maps_and_forgets_aliases() {
    let mut registry = AssetRegistry::new();
    registry.register_asset("core::ship", "a/ship.glb");
    registry.register_asset("core::ship", "b/ship.glb");
    assert_eq!(registry.get_path("core::ship"), Some("b/ship.glb"));
    registry.unregister_asset("core::ship");
    assert_eq!(registry.get_path("core::ship"), None);
}

#[test]
fn the_loader_runs_to_its_end() {
    let mut state = LoaderState::default();
    let mut seen = vec![state];
    while let Some(next) = state.on_enter() {
        state = next;
        seen.push(state);
    }
    assert_eq!(
        seen,
        [
            LoaderState::Startup,
            LoaderState::PackagesRegistering,
            LoaderState::PackagesRegistered,
            LoaderState::AssetsRegistering,
            LoaderState::AssetsRegistered,
        ]
    );
}

#[test]
fn the_plugins_keep_what_they_are_given() {
    let alias = AliasScanPlugin::new().with_asset_root("content".to_owned()).with_root("base".to_owned());
    assert_eq!(alias.asset_root(), "content");
    let plugin = AssetContentPlugin::new()
        .with_search_paths(vec!["base".to_owned(), "mods".to_owned()])
        .with_load_order_file("/home/me/load_order.toml".to_owned());
    assert_eq!(plugin.search_paths(), &["base".to_owned(), "mods".to_owned()]);
    assert_eq!(plugin.asset_root(), "assets");
    assert_eq!(plugin.load_order_file(), Some("/home/me/load_order.toml"));
    let content = ContentPlugin::new().with_search_paths(vec!["base".to_owned()]);
    assert_eq!(content.search_paths(), &["base".to_owned()]);
}

#[test]
fn a_root_with_a_trailing_slash_gets_no_second_one() {
    let mut index = ContentIndex::new();
    apply_manifest(&mut index, "core", &adds(&[("airship", "airship.glb")]), "basegame/core/");
    assert_eq!(index.resolve("core::airship").map(|p| p.as_str()), Some("basegame/core/airship.glb"));
}

#[test]
fn an_absolute_asset_path_replaces_the_root() {
    let mut index = ContentIndex::new();
    apply_manifest(&mut index, "core", &adds(&[("airship", "/srv/airship.glb")]), "basegame/core");
    assert_eq!(index.resolve("core::airship").map(|p| p.as_str()), Some("/srv/airship.glb"));
}
