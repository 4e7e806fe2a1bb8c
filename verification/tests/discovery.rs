use std::collections::{BTreeMap, BTreeSet};

use ename::alias::discovery::{Decoder, DirEntry, Vfs, VfsError};
use ename::alias::problem::{AliasOrigin, DiscoveredAsset, ProblemKind};
use ename::alias::rules::Rules;
use ename::alias::sidecar::AliasFile;
use ename::package::index::Scan;
use ename::package::manifest::{LoadOrder, Manifest, Package, PackageInfo, Requirement, Version};
use ename::package::scan::scan_packages;
use ename::package::vfs::listing;
use ename::asset_content::scan_content;
use ename::alias::scan_plugin::AliasScanPlugin;

/// An in-memory tree: files by path, and directories that refuse to be listed.
struct FakeVfs {
    files: BTreeMap<String, Vec<u8>>,
    unreadable: BTreeSet<String>,
}

impl FakeVfs {
    fn new() -> Self {
        FakeVfs { files: BTreeMap::new(), unreadable: BTreeSet::new() }
    }

    fn file(mut self, path: &str, text: &str) -> Self {
        self.files.insert(path.to_owned(), text.as_bytes().to_vec());
        self
    }

    fn unreadable_dir(mut self, path: &str) -> Self {
        self.unreadable.insert(path.to_owned());
        self
    }
}

impl Vfs for FakeVfs {
    fn read_file(&self, path: &str) -> Result<Vec<u8>, VfsError> {
        self.files.get(path).cloned().ok_or_else(|| VfsError::NotFound(path.to_owned()))
    }

    fn read_dir(&self, path: &str) -> Result<Vec<DirEntry>, VfsError> {
        if self.unreadable.contains(path) {
            return Err(VfsError::Io { path: path.to_owned(), message: "permission denied".to_owned() });
        }
        let prefix = if path.is_empty() { String::new() } else { format!("{path}/") };
        let mut seen: BTreeMap<String, bool> = BTreeMap::new();
        for key in self.files.keys() {
            if let Some(rest) = key.strip_prefix(&prefix) {
                let (name, is_dir) = match rest.split_once('/') {
                    Some((dir, _)) => (dir, true),
                    None => (rest, false),
                };
                seen.insert(format!("{prefix}{name}"), is_dir);
            }
        }
        if seen.is_empty() {
            return Err(VfsError::NotFound(path.to_owned()));
        }
        let raw: Vec<DirEntry> = seen.into_iter().map(|(path, is_dir)| DirEntry { path, is_dir }).collect();
        Ok(listing(&raw))
    }
}

/// Reads the three TOML files the walk meets, refusing a key it does not know.
struct TomlFiles;

fn table(bytes: &[u8]) -> Result<toml::Table, String> {
    let text = std::str::from_utf8(bytes).map_err(|e| e.to_string())?;
    text.parse::<toml::Table>().map_err(|e| e.to_string())
}

fn text_list(value: &toml::Value) -> Result<Vec<String>, String> {
    value
        .as_array()
        .ok_or("expected an array")?
        .iter()
        .map(|v| v.as_str().map(|s| s.to_owned()).ok_or_else(|| "expected a string".to_owned()))
        .collect()
}

impl Decoder for TomlFiles {
    fn rules(&self, bytes: &[u8]) -> Result<Rules, String> {
        let mut rules = Rules::default();
        for (key, value) in table(bytes)? {
            match key.as_str() {
                "alias" => rules.alias = Some(value.as_str().ok_or("alias is a string")?.to_owned()),
                "include" => rules.patterns = text_list(&value)?,
                other => return Err(format!("unknown field `{other}`")),
            }
        }
        Ok(rules)
    }

    fn alias_file(&self, bytes: &[u8]) -> Result<AliasFile, String> {
        let mut file = AliasFile { alias: None, included: None, guid: None, alias_origin: AliasOrigin::Authored };
        for (key, value) in table(bytes)? {
            match key.as_str() {
                "alias" => file.alias = Some(value.as_str().ok_or("alias is a string")?.to_owned()),
                "include" => file.included = Some(value.as_bool().ok_or("include is a boolean")?),
                "guid" => {
                    let text = value.as_str().ok_or("guid is a string")?;
                    file.guid = Some(uuid::Uuid::parse_str(text).map_err(|e| e.to_string())?.as_u128());
                }
                other => return Err(format!("unknown field `{other}`")),
            }
        }
        Ok(file)
    }

    fn manifest(&self, bytes: &[u8]) -> Result<Manifest, String> {
        let top = table(bytes)?;
        let package = top.get("package").and_then(|p| p.as_table()).ok_or("missing [package]")?;
        let text = |key: &str| -> Result<String, String> {
            package.get(key).and_then(|v| v.as_str()).map(|s| s.to_owned()).ok_or(format!("missing `{key}`"))
        };
        let list = |key: &str| -> Result<Vec<String>, String> {
            match package.get(key) {
                Some(v) => text_list(v),
                None => Ok(Vec::new()),
            }
        };
        let version = semver::Version::parse(&text("version")?).map_err(|e| e.to_string())?;
        let requires = list("requires")?
            .iter()
            .map(|r| Requirement::parse(r).map_err(|_| format!("bad requirement `{r}`")))
            .collect::<Result<Vec<_>, _>>()?;
        Ok(Manifest {
            package: PackageInfo {
                id: text("id")?,
                version: Version {
                    major: version.major,
                    minor: version.minor,
                    patch: version.patch,
                    pre: version.pre.as_str().to_owned(),
                    build: version.build.as_str().to_owned(),
                },
                authors: list("authors")?,
                title: text("title")?,
                description: text("description")?,
                requires,
                after: list("after")?,
                before: list("before")?,
                overrides: list("overrides")?,
                removes: list("removes")?,
            },
        })
    }
}

const MANIFEST: &str = r#"
[package]
id = "core"
version = "1.0.0"
authors = []
title = "Core"
description = ""
"#;

const RULES: &str = "base/core/_alias_rules.toml";

fn scan(vfs: &FakeVfs) -> Scan {
    scan_packages(vfs, &TomlFiles, &vec!["base".to_owned()], &LoadOrder::new())
}

fn package(vfs: &FakeVfs) -> Vec<DiscoveredAsset> {
    let scan = scan(vfs);
    assert_eq!(scan.packages.len(), 1, "expected exactly one package");
    scan.packages.into_iter().next().unwrap().assets
}

fn aliases(assets: &[DiscoveredAsset]) -> Vec<&str> {
    assets.iter().map(|a| a.alias.as_str()).collect()
}

fn kinds(scan: &Scan) -> Vec<ProblemKind> {
    scan.problems.iter().map(|p| p.kind).collect()
}

#[test]
fn a_folder_rule_names_every_file_it_includes() {
    let assets = package(
        &FakeVfs::new()
            .file("base/core/manifest.toml", MANIFEST)
            .file(RULES, r#"alias = "core::{stem}""#)
            .file("base/core/airship.glb", "")
            .file("base/core/map.glb", ""),
    );
    assert_eq!(aliases(&assets), ["core::airship", "core::map"]);
    assert_eq!(assets[0].path, "base/core/airship.glb");
    assert_eq!(assets[0].origin, AliasOrigin::Derived, "a rule derived it, so tooling may rewrite it");
}

#[test]
fn a_file_the_rule_excludes_is_not_discovered() {
    let assets = package(
        &FakeVfs::new()
            .file("base/core/manifest.toml", MANIFEST)
            .file(RULES, "alias = \"core::{stem}\"\ninclude = [\"*.glb\"]\n")
            .file("base/core/airship.glb", "")
            .file("base/core/README.txt", ""),
    );
    assert_eq!(aliases(&assets), ["core::airship"]);
}

#[test]
fn an_alias_sidecar_overrides_the_derived_name() {
    let assets = package(
        &FakeVfs::new()
            .file("base/core/manifest.toml", MANIFEST)
            .file(RULES, r#"alias = "core::{stem}""#)
            .file("base/core/ship_final_v2.glb", "")
            .file(
                "base/core/ship_final_v2.glb.alias",
                "guid = \"018f2c00-0000-7000-8000-000000000000\"\nalias = \"core::airship\"\n",
            ),
    );
    assert_eq!(aliases(&assets), ["core::airship"]);
    assert_eq!(assets[0].origin, AliasOrigin::Authored, "a human typed it, so tooling must never rewrite it");
    assert!(assets[0].guid.is_some());
}

#[test]
fn a_sidecar_can_exclude_a_file_the_rule_covers() {
    let assets = package(
        &FakeVfs::new()
            .file("base/core/manifest.toml", MANIFEST)
            .file(RULES, r#"alias = "core::{stem}""#)
            .file("base/core/airship.glb", "")
            .file("base/core/wip.glb", "")
            .file("base/core/wip.glb.alias", "include = false\n"),
    );
    assert_eq!(aliases(&assets), ["core::airship"]);
}

#[test]
fn a_sidecar_alias_is_included_even_where_the_rule_does_not_match() {
    let assets = package(
        &FakeVfs::new()
            .file("base/core/manifest.toml", MANIFEST)
            .file(RULES, "alias = \"core::{stem}\"\ninclude = [\"*.glb\"]\n")
            .file("base/core/notes.txt", "")
            .file("base/core/notes.txt.alias", r#"alias = "core::notes""#),
    );
    assert_eq!(aliases(&assets), ["core::notes"]);
}

#[test]
fn a_rule_inherits_into_subdirectories() {
    let assets = package(
        &FakeVfs::new()
            .file("base/core/manifest.toml", MANIFEST)
            .file(RULES, r#"alias = "core::{path}""#)
            .file("base/core/props/barrel.png", ""),
    );
    assert_eq!(aliases(&assets), ["core::props/barrel"]);
}

#[test]
fn a_deeper_rule_replaces_the_inherited_one() {
    let assets = package(
        &FakeVfs::new()
            .file("base/core/manifest.toml", MANIFEST)
            .file(RULES, r#"alias = "core::{path}""#)
            .file("base/core/props/_alias_rules.toml", r#"alias = "core::prop_{stem}""#)
            .file("base/core/props/barrel.png", ""),
    );
    assert_eq!(aliases(&assets), ["core::prop_barrel"]);
}

#[test]
fn a_file_no_rule_covers_is_skipped_silently() {
    let scan = scan(&FakeVfs::new().file("base/core/manifest.toml", MANIFEST).file("base/core/README.txt", ""));
    assert!(scan.packages[0].assets.is_empty());
    assert!(scan.problems.is_empty(), "got {:?}", scan.problems);
}

#[test]
fn sidecars_are_never_assets_themselves() {
    let assets = package(
        &FakeVfs::new()
            .file("base/core/manifest.toml", MANIFEST)
            .file(RULES, r#"alias = "core::{stem}""#)
            .file("base/core/airship.glb", "")
            .file("base/core/airship.glb.alias", "guid = \"018f2c00-0000-7000-8000-000000000000\"\n"),
    );
    assert_eq!(
        aliases(&assets),
        ["core::airship"],
        "manifest.toml, the rules file and the .alias file must not become assets"
    );
}

#[test]
fn an_orphan_alias_file_is_reported() {
    let scan = scan(
        &FakeVfs::new()
            .file("base/core/manifest.toml", MANIFEST)
            .file(RULES, r#"alias = "core::{stem}""#)
            .file("base/core/deleted.glb.alias", r#"alias = "core::deleted""#),
    );
    assert_eq!(kinds(&scan), [ProblemKind::OrphanAliasFile]);
    assert!(scan.packages[0].assets.is_empty());
}

#[test]
fn a_sidecar_without_a_guid_is_reported_but_still_registers() {
    let scan = scan(
        &FakeVfs::new()
            .file("base/core/manifest.toml", MANIFEST)
            .file("base/core/airship.glb", "")
            .file("base/core/airship.glb.alias", r#"alias = "core::airship""#),
    );
    assert_eq!(kinds(&scan), [ProblemKind::MissingGuid]);
    assert_eq!(aliases(&scan.packages[0].assets), ["core::airship"]);
}

#[test]
fn a_duplicate_alias_keeps_the_first_and_reports_the_second() {
    let scan = scan(
        &FakeVfs::new()
            .file("base/core/manifest.toml", MANIFEST)
            .file(RULES, r#"alias = "core::{stem}""#)
            .file("base/core/airship.glb", "")
            .file("base/core/airship.png", ""),
    );
    assert_eq!(kinds(&scan), [ProblemKind::DuplicateAlias]);
    let assets = &scan.packages[0].assets;
    assert_eq!(aliases(assets), ["core::airship"]);
    assert_eq!(assets[0].path, "base/core/airship.glb");
}

#[test]
fn an_unparseable_alias_file_is_reported_and_the_rest_still_load() {
    let scan = scan(
        &FakeVfs::new()
            .file("base/core/manifest.toml", MANIFEST)
            .file(RULES, r#"alias = "core::{stem}""#)
            .file("base/core/airship.glb", "")
            .file("base/core/map.glb", "")
            .file("base/core/map.glb.alias", "this is not toml [[["),
    );
    assert_eq!(kinds(&scan), [ProblemKind::UnparseableAliasFile]);
    assert_eq!(
        aliases(&scan.packages[0].assets),
        ["core::airship", "core::map"],
        "the broken sidecar costs its own overrides and nothing else"
    );
}

#[test]
fn an_unparseable_rules_file_leaves_the_inherited_rule_in_force() {
    let scan = scan(
        &FakeVfs::new()
            .file("base/core/manifest.toml", MANIFEST)
            .file(RULES, r#"alias = "core::{path}""#)
            .file("base/core/props/_alias_rules.toml", "alias = [[[")
            .file("base/core/props/barrel.png", ""),
    );
    assert_eq!(kinds(&scan), [ProblemKind::UnparseableRules]);
    assert_eq!(aliases(&scan.packages[0].assets), ["core::props/barrel"]);
}

#[test]
fn an_unreadable_directory_is_reported() {
    let scan = scan(
        &FakeVfs::new()
            .file("base/core/manifest.toml", MANIFEST)
            .file(RULES, r#"alias = "core::{stem}""#)
            .file("base/core/airship.glb", "")
            .file("base/core/locked/secret.glb", "")
            .unreadable_dir("base/core/locked"),
    );
    assert_eq!(kinds(&scan), [ProblemKind::UnreadableDirectory]);
    assert_eq!(aliases(&scan.packages[0].assets), ["core::airship"]);
}

#[test]
fn assets_are_ordered_alphabetically_with_files_before_subdirectories() {
    let vfs = FakeVfs::new()
        .file("base/core/manifest.toml", MANIFEST)
        .file(RULES, r#"alias = "core::{path}""#)
        .file("base/core/zebra.glb", "")
        .file("base/core/apple.glb", "")
        .file("base/core/props/barrel.glb", "");
    assert_eq!(aliases(&package(&vfs)).join(","), "core::apple,core::zebra,core::props/barrel");
}

#[test]
fn a_directory_chain_deeper_than_the_cap_is_reported_and_does_not_cost_the_rest_of_the_package() {
    let mut vfs = FakeVfs::new()
        .file("base/core/manifest.toml", MANIFEST)
        .file(RULES, r#"alias = "core::{path}""#)
        .file("base/core/shallow.glb", "");
    let mut deep_path = "base/core".to_owned();
    for level in 0..100 {
        deep_path.push_str(&format!("/lvl{level}"));
    }
    deep_path.push_str("/too_deep.glb");
    vfs = vfs.file(&deep_path, "");
    let scan = scan(&vfs);
    assert_eq!(kinds(&scan), [ProblemKind::DirectoryTooDeep], "got {:?}", scan.problems);
    assert_eq!(
        aliases(&scan.packages[0].assets),
        ["core::shallow"],
        "the shallow asset must still register; one runaway subtree must not cost the package"
    );
}

// --- the package tree: a base game and two mods, one of them broken --------------------------

fn tree() -> FakeVfs {
    FakeVfs::new()
        .file("base/core/manifest.toml", MANIFEST)
        .file(RULES, r#"alias = "core::{stem}""#)
        .file("base/core/greeting.txt", "hello")
        .file("mods/broken/manifest.toml", "[package\nid = ")
        .file(
            "mods/loud/manifest.toml",
            "[package]\nid = \"loud\"\nversion = \"1.2.3\"\nauthors = [\"Test\"]\ntitle = \"Loud test package\"\ndescription = \"\"\n",
        )
        .file(
            "mods/trimmed/manifest.toml",
            "[package]\nid = \"trimmed\"\nversion = \"1.0.0\"\nauthors = []\ntitle = \"Trimmed\"\ndescription = \"\"\n",
        )
}

fn packages_under(search_paths: &[&str]) -> Vec<Package> {
    let paths: Vec<String> = search_paths.iter().map(|p| (*p).to_owned()).collect();
    scan_packages(&tree(), &TomlFiles, &paths, &LoadOrder::new()).packages
}

fn ids(packages: &[Package]) -> Vec<&str> {
    packages.iter().map(|p| p.manifest.package.id.as_str()).collect()
}

#[test]
fn finds_every_package_under_every_search_path() {
    assert_eq!(ids(&packages_under(&["base", "mods"])), ["core", "loud", "trimmed"]);
}

#[test]
fn search_paths_load_in_the_order_they_were_given() {
    assert_eq!(ids(&packages_under(&["base", "mods"])), ["core", "loud", "trimmed"]);
    assert_eq!(ids(&packages_under(&["mods", "base"])), ["loud", "trimmed", "core"]);
}

#[test]
fn packages_in_one_search_path_are_ordered_by_directory_name() {
    assert_eq!(ids(&packages_under(&["mods"])), ["loud", "trimmed"]);
}

#[test]
fn a_package_carries_its_own_root_directory() {
    let packages = packages_under(&["base", "mods"]);
    assert_eq!(packages[0].root, "base/core");
    assert_eq!(packages[1].root, "mods/loud");
}

#[test]
fn manifest_fields_round_trip_from_toml() {
    let packages = packages_under(&["mods"]);
    let loud = &packages[0];
    assert_eq!(loud.manifest.package.title, "Loud test package");
    assert_eq!(loud.manifest.package.version, Version::new(1, 2, 3));
    assert_eq!(loud.manifest.package.authors, ["Test"]);
}

#[test]
fn a_package_carries_the_assets_its_folder_rule_names() {
    let packages = packages_under(&["base"]);
    let assets = &packages[0].assets;
    assert_eq!(assets.len(), 1);
    assert_eq!(assets[0].alias, "core::greeting");
    assert_eq!(assets[0].path, "base/core/greeting.txt");
}

#[test]
fn an_unparseable_manifest_is_skipped_and_the_rest_still_load() {
    let packages = packages_under(&["mods"]);
    assert!(!packages.iter().any(|p| p.root.ends_with("broken")), "the broken package must not appear");
    assert_eq!(packages.len(), 2, "and it must not take its neighbours with it");
}

#[test]
fn package_scan_a_missing_search_path_is_survivable() {
    assert_eq!(ids(&packages_under(&["base", "does_not_exist", "mods"])), ["core", "loud", "trimmed"]);
}

#[test]
fn no_search_paths_finds_nothing() {
    assert!(packages_under(&[]).is_empty());
}

#[test]
fn a_load_order_that_would_not_read_is_reported_last_and_ignored() {
    let (index, report) = scan_content(
        &tree(),
        &TomlFiles,
        &vec!["base".to_owned(), "mods".to_owned()],
        Some(("/home/me/load_order.toml".to_owned(), Err("expected `=`".to_owned()))),
    );
    assert_eq!(index.resolve("core::greeting").map(|p| p.as_str()), Some("base/core/greeting.txt"));
    let last = report.problems.last().unwrap();
    assert_eq!(last.kind, ProblemKind::UnparseableLoadOrder);
    assert_eq!(last.path, "/home/me/load_order.toml");
    assert_eq!(last.detail, "expected `=`");
    assert_eq!(report.packages.iter().map(|p| p.id.as_str()).collect::<Vec<_>>(), ["core", "loud", "trimmed"]);
}

#[test]
fn the_alias_scan_plugin_reads_its_root_and_skips_ignored_names() {
    let vfs = FakeVfs::new()
        .file("props/_alias_rules.toml", r#"alias = "props::{stem}""#)
        .file("props/barrel.glb", "")
        .file("props/project.cfg", "")
        .file("other/skip.glb", "");
    let plugin = AliasScanPlugin::new().with_root("props".to_owned()).with_ignored_file_names(vec!["project.cfg".to_owned()]);
    let (scan, index) = plugin.scan(&vfs, &TomlFiles);
    assert_eq!(aliases(&scan.assets), ["props::barrel"]);
    assert_eq!(index.resolve("props::barrel").map(|p| p.as_str()), Some("props/barrel.glb"));
}
