use ename::alias::problem::{AliasOrigin, DiscoveredAsset, Problem, ProblemKind};
use ename::package::edges::OrderEdges;
use ename::package::index::{build_index, Scan};
use ename::package::manifest::{Manifest, Package, PackageInfo, Version};

fn manifest(id: &str) -> Manifest {
    Manifest {
        package: PackageInfo {
            id: id.to_owned(),
            version: Version::new(1, 0, 0),
            authors: Vec::new(),
            title: id.to_owned(),
            description: String::new(),
            requires: Vec::new(),
            after: Vec::new(),
            before: Vec::new(),
            overrides: Vec::new(),
            removes: Vec::new(),
        },
    }
}

fn asset(alias: &str, path: &str) -> DiscoveredAsset {
    DiscoveredAsset { alias: alias.to_owned(), path: path.to_owned(), guid: None, origin: AliasOrigin::Derived }
}

fn package(id: &str, root: &str, assets: Vec<DiscoveredAsset>) -> Package {
    Package {
        manifest: manifest(id),
        root: root.to_owned(),
        search_path: root.split('/').next().unwrap_or("").to_owned(),
        assets,
    }
}

fn scan(packages: Vec<Package>, problems: Vec<Problem>) -> Scan {
    Scan { packages, disabled: Vec::new(), problems, edges: OrderEdges::new() }
}

#[test]
fn index_a_discovered_asset_lands_in_the_index_under_its_own_alias() {
    let scan = scan(vec![package("core", "base/core", vec![asset("core::airship", "base/core/airship.glb")])], Vec::new());
    let (index, report) = build_index(&scan);
    assert_eq!(index.resolve("core::airship").map(|p| p.as_str()), Some("base/core/airship.glb"));
    assert_eq!(report.packages[0].aliases, 1);
}

#[test]
fn index_a_later_package_claiming_an_alias_wins_it() {
    let scan = scan(
        vec![
            package("core", "base/core", vec![asset("core::airship", "base/core/airship.glb")]),
            package("bigships", "mods/bigships", vec![asset("core::airship", "mods/bigships/big.glb")]),
        ],
        Vec::new(),
    );
    let (index, _) = build_index(&scan);
    assert_eq!(index.resolve("core::airship").map(|p| p.as_str()), Some("mods/bigships/big.glb"));
}

#[test]
fn index_an_invalid_alias_is_reported_and_the_rest_still_registers() {
    let scan = scan(
        vec![package(
            "core",
            "base/core",
            vec![asset("core::air#ship", "base/core/airship.glb"), asset("core::map", "base/core/map.glb")],
        )],
        Vec::new(),
    );
    let (index, report) = build_index(&scan);
    assert_eq!(index.len(), 1);
    assert_eq!(index.resolve("core::map").map(|p| p.as_str()), Some("base/core/map.glb"));
    assert_eq!(report.problems.iter().map(|p| p.kind).collect::<Vec<_>>(), [ProblemKind::InvalidAlias]);
    assert_eq!(report.packages[0].aliases, 1);
}

#[test]
fn index_the_scans_problems_are_carried_into_the_report() {
    let scan = scan(
        Vec::new(),
        vec![Problem {
            path: "base/core/gone.glb.alias".to_owned(),
            kind: ProblemKind::OrphanAliasFile,
            detail: String::new(),
        }],
    );
    let (_, report) = build_index(&scan);
    assert_eq!(report.problems.len(), 1);
    assert_eq!(report.problems[0].kind, ProblemKind::OrphanAliasFile);
}
