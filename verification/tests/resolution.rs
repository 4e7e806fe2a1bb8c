use ename::alias::problem::{AliasOrigin, DiscoveredAsset, ProblemKind};
use ename::package::index::{build_index, ContestReason, Scan, Tiebreak};
use ename::package::manifest::{Constraint, LoadOrder, Manifest, Package, PackageInfo, Requirement, Version};
use ename::package::resolve::{resolve, DisableReason};

fn package(search_path: &str, dir: &str) -> Package {
    Package {
        manifest: Manifest {
            package: PackageInfo {
                id: dir.to_owned(),
                version: Version::new(1, 0, 0),
                authors: Vec::new(),
                title: dir.to_owned(),
                description: String::new(),
                requires: Vec::new(),
                after: Vec::new(),
                before: Vec::new(),
                overrides: Vec::new(),
                removes: Vec::new(),
            },
        },
        root: format!("{search_path}/{dir}"),
        search_path: search_path.to_owned(),
        assets: Vec::new(),
    }
}

fn strings(list: &[&str]) -> Vec<String> {
    list.iter().map(|s| (*s).to_owned()).collect()
}

fn after(mut p: Package, ids: &[&str]) -> Package {
    p.manifest.package.after = strings(ids);
    p
}

fn before(mut p: Package, ids: &[&str]) -> Package {
    p.manifest.package.before = strings(ids);
    p
}

fn needing(mut p: Package, entries: &[&str]) -> Package {
    p.manifest.package.requires = entries.iter().map(|e| Requirement::parse(e).expect("reads")).collect();
    p
}

fn overrides(mut p: Package, ids: &[&str]) -> Package {
    p.manifest.package.overrides = strings(ids);
    p
}

fn removes(mut p: Package, aliases: &[&str]) -> Package {
    p.manifest.package.removes = strings(aliases);
    p
}

fn user(constraints: &[(&str, &[&str], &[&str])]) -> LoadOrder {
    LoadOrder {
        constraints: constraints
            .iter()
            .map(|(package, after, before)| Constraint {
                package: (*package).to_owned(),
                after: strings(after),
                before: strings(before),
            })
            .collect(),
    }
}

fn order<'a>(packages: &'a [Package], load_order: &LoadOrder) -> Vec<&'a str> {
    resolve(packages, load_order)
        .order
        .into_iter()
        .map(|i| packages[i].manifest.package.id.as_str())
        .collect()
}

#[test]
fn unconstrained_packages_keep_the_order_they_came_in() {
    let packages = [package("base", "core"), package("mods", "apple"), package("mods", "zebra")];
    assert_eq!(order(&packages, &LoadOrder::new()), ["core", "apple", "zebra"]);
}

#[test]
fn after_moves_a_package_later() {
    let packages = [after(package("mods", "apple"), &["zebra"]), package("mods", "zebra")];
    assert_eq!(order(&packages, &LoadOrder::new()), ["zebra", "apple"]);
}

#[test]
fn before_moves_a_package_earlier() {
    let packages = [package("mods", "apple"), before(package("mods", "zebra"), &["apple"])];
    assert_eq!(order(&packages, &LoadOrder::new()), ["zebra", "apple"]);
}

#[test]
fn an_after_naming_an_absent_package_is_ignored() {
    let packages = [after(package("mods", "apple"), &["not_installed"])];
    let resolution = resolve(&packages, &LoadOrder::new());
    assert_eq!(resolution.order, [0]);
    assert!(resolution.problems.is_empty(), "{:?}", resolution.problems);
    assert!(resolution.disabled.is_empty());
}

#[test]
fn a_user_constraint_overrules_a_manifest_that_contradicts_it() {
    let packages = [after(package("mods", "apple"), &["zebra"]), package("mods", "zebra")];
    let load_order = user(&[("apple", &[], &["zebra"])]);
    let resolution = resolve(&packages, &load_order);
    assert_eq!(
        resolution.order.iter().map(|i| packages[*i].manifest.package.id.as_str()).collect::<Vec<_>>(),
        ["apple", "zebra"]
    );
    assert_eq!(
        resolution.problems.iter().map(|p| p.kind).collect::<Vec<_>>(),
        [ProblemKind::OverruledConstraint]
    );
}

#[test]
fn an_unsatisfied_requirement_disables_the_package_and_says_why() {
    let packages = [package("base", "core"), needing(package("mods", "apple"), &["core >= 2.0"])];
    let resolution = resolve(&packages, &LoadOrder::new());
    assert_eq!(
        resolution.order.iter().map(|i| packages[*i].manifest.package.id.as_str()).collect::<Vec<_>>(),
        ["core"]
    );
    assert_eq!(resolution.disabled.len(), 1);
    assert_eq!(resolution.disabled[0].id, "apple");
    match &resolution.disabled[0].reason {
        DisableReason::Unsatisfied { requirement, found } => {
            assert_eq!(requirement.id, "core");
            assert_eq!(found.as_ref(), Some(&Version::new(1, 0, 0)));
        }
        other => panic!("expected an unsatisfied requirement, got {other:?}"),
    }
}

#[test]
fn a_requirement_on_an_absent_package_disables_it_too() {
    let packages = [needing(package("mods", "apple"), &["core"])];
    let resolution = resolve(&packages, &LoadOrder::new());
    assert!(resolution.order.is_empty());
    match &resolution.disabled[0].reason {
        DisableReason::Unsatisfied { found, .. } => assert_eq!(*found, None),
        other => panic!("expected an unsatisfied requirement, got {other:?}"),
    }
}

#[test]
fn disabling_cascades_to_whatever_required_the_disabled_package() {
    let packages = [
        needing(package("mods", "apple"), &["absent"]),
        needing(package("mods", "zebra"), &["apple"]),
    ];
    let resolution = resolve(&packages, &LoadOrder::new());
    assert!(resolution.order.is_empty());
    let zebra = resolution.disabled.iter().find(|d| d.id == "zebra").expect("zebra is disabled too");
    match &zebra.reason {
        DisableReason::RequirementDisabled { id } => assert_eq!(id, "apple"),
        other => panic!("expected a cascade, got {other:?}"),
    }
}

#[test]
fn a_cycle_disables_its_members_and_names_them() {
    let packages = [after(package("mods", "apple"), &["zebra"]), after(package("mods", "zebra"), &["apple"])];
    let resolution = resolve(&packages, &LoadOrder::new());
    assert!(resolution.order.is_empty());
    assert_eq!(resolution.disabled.len(), 2);
    match &resolution.disabled[0].reason {
        DisableReason::Cycle { members } => {
            assert!(members.contains(&"apple".to_owned()));
            assert!(members.contains(&"zebra".to_owned()));
        }
        other => panic!("expected a cycle, got {other:?}"),
    }
    assert_eq!(
        resolution.problems.iter().map(|p| p.kind).collect::<Vec<_>>(),
        [ProblemKind::DependencyCycle]
    );
}

#[test]
fn a_cycle_costs_only_its_members() {
    let packages = [
        package("base", "core"),
        after(package("mods", "apple"), &["zebra"]),
        after(package("mods", "zebra"), &["apple"]),
    ];
    let resolution = resolve(&packages, &LoadOrder::new());
    assert_eq!(
        resolution.order.iter().map(|i| packages[*i].manifest.package.id.as_str()).collect::<Vec<_>>(),
        ["core"]
    );
}

#[test]
fn a_package_behind_a_cycle_is_not_reported_as_one_of_its_members() {
    let packages = [
        after(package("mods", "a"), &["b"]),
        after(package("mods", "b"), &["a"]),
        after(package("mods", "c"), &["a"]),
    ];
    let resolution = resolve(&packages, &LoadOrder::new());
    assert!(resolution.order.is_empty());
    let reason = |id: &str| {
        resolution
            .disabled
            .iter()
            .find(|d| d.id == id)
            .unwrap_or_else(|| panic!("{id} is disabled, got {:?}", resolution.disabled))
            .reason
            .clone()
    };
    for id in ["a", "b"] {
        match reason(id) {
            DisableReason::Cycle { members } => assert_eq!(members, ["a", "b"], "{id} names the loop it is in"),
            other => panic!("expected {id} to be a cycle member, got {other:?}"),
        }
    }
    match reason("c") {
        DisableReason::BehindCycle { cycle } => assert_eq!(cycle, ["a", "b"]),
        other => panic!("expected c to be behind the cycle, got {other:?}"),
    }
    let cycles: Vec<_> = resolution.problems.iter().filter(|p| p.kind == ProblemKind::DependencyCycle).collect();
    assert_eq!(cycles.len(), 1, "{:?}", resolution.problems);
    assert!(cycles[0].detail.ends_with("a, b"), "the loop is a and b, and c is not in it: {}", cycles[0].detail);
}

#[test]
fn the_resolution_remembers_which_constraint_ordered_two_packages() {
    let packages = [after(package("mods", "apple"), &["zebra"]), package("mods", "zebra")];
    let resolution = resolve(&packages, &LoadOrder::new());
    assert!(resolution.edges.direct("zebra", "apple").is_some());
    assert!(resolution.edges.direct("apple", "zebra").is_none());
    assert!(resolution.edges.ordered("zebra", "apple"));
}

#[test]
fn ordering_is_transitive() {
    let packages = [package("mods", "a"), after(package("mods", "b"), &["a"]), after(package("mods", "c"), &["b"])];
    let resolution = resolve(&packages, &LoadOrder::new());
    assert!(resolution.edges.ordered("a", "c"));
    assert!(resolution.edges.direct("a", "c").is_none());
}

fn claiming(mut package: Package, aliases: &[&str]) -> Package {
    let root = package.root.clone();
    package.assets = aliases
        .iter()
        .map(|alias| DiscoveredAsset {
            alias: (*alias).to_owned(),
            path: format!("{root}/{}.txt", alias.replace("::", "_")),
            guid: None,
            origin: AliasOrigin::Derived,
        })
        .collect();
    package
}

fn scan_of(packages: Vec<Package>, load_order: &LoadOrder) -> Scan {
    let resolution = resolve(&packages, load_order);
    Scan {
        packages: resolution.order.iter().map(|i| packages[*i].clone()).collect(),
        disabled: resolution.disabled,
        problems: resolution.problems,
        edges: resolution.edges,
    }
}

#[test]
fn two_packages_claiming_one_alias_with_nothing_ordering_them_is_unordered() {
    let scan = scan_of(
        vec![
            claiming(package("mods", "apple"), &["core::hull"]),
            claiming(package("mods", "zebra"), &["core::hull"]),
        ],
        &LoadOrder::new(),
    );
    let (index, report) = build_index(&scan);
    assert_eq!(report.contests.len(), 1);
    let contest = &report.contests[0];
    assert_eq!(contest.alias, "core::hull");
    assert_eq!(contest.winner.id, "zebra");
    assert_eq!(contest.loser.id, "apple");
    assert!(matches!(contest.reason, ContestReason::Unordered { tiebreak: Tiebreak::DirectoryName { .. } }));
    assert!(index.resolve("core::hull").unwrap().starts_with("mods/zebra"));
}

#[test]
fn a_constraint_explains_why_the_winner_won() {
    let scan = scan_of(
        vec![
            claiming(package("base", "core"), &["core::hull"]),
            claiming(overrides(after(package("mods", "bigships"), &["core"]), &["core"]), &["core::hull"]),
        ],
        &LoadOrder::new(),
    );
    let (_, report) = build_index(&scan);
    assert_eq!(report.contests.len(), 1);
    assert!(matches!(report.contests[0].reason, ContestReason::Ordered { direct: true, .. }));
    assert!(report.problems.is_empty(), "a declared override warns about nothing: {:?}", report.problems);
}

#[test]
fn an_undeclared_override_warns() {
    let scan = scan_of(
        vec![
            claiming(package("base", "core"), &["core::hull"]),
            claiming(package("mods", "bigships"), &["core::hull"]),
        ],
        &LoadOrder::new(),
    );
    let (_, report) = build_index(&scan);
    assert!(report.problems.iter().any(|p| p.kind == ProblemKind::UndeclaredOverride), "{:?}", report.problems);
}

#[test]
fn an_overrides_entry_that_never_collides_warns() {
    let scan = scan_of(
        vec![
            claiming(package("base", "core"), &["core::airship"]),
            claiming(overrides(package("mods", "bigships"), &["core"]), &["core::airschip"]),
        ],
        &LoadOrder::new(),
    );
    let (_, report) = build_index(&scan);
    assert!(report.problems.iter().any(|p| p.kind == ProblemKind::DeadOverride), "{:?}", report.problems);
}

#[test]
fn removes_takes_an_alias_out_of_the_index() {
    let scan = scan_of(
        vec![
            claiming(package("base", "core"), &["core::banana"]),
            removes(package("mods", "nobanana"), &["core::banana"]),
        ],
        &LoadOrder::new(),
    );
    let (index, report) = build_index(&scan);
    assert_eq!(index.resolve("core::banana"), None);
    assert!(report.problems.is_empty(), "{:?}", report.problems);
}

#[test]
fn a_later_package_may_reclaim_a_removed_alias() {
    let scan = scan_of(
        vec![
            claiming(package("base", "core"), &["core::banana"]),
            removes(package("mods", "a_nobanana"), &["core::banana"]),
            claiming(package("mods", "b_newbanana"), &["core::banana"]),
        ],
        &LoadOrder::new(),
    );
    let (index, _) = build_index(&scan);
    assert!(index.resolve("core::banana").unwrap().starts_with("mods/b_newbanana"));
}

#[test]
fn a_removes_entry_matching_nothing_warns() {
    let scan = scan_of(vec![removes(package("mods", "nobanana"), &["core::banana"])], &LoadOrder::new());
    let (_, report) = build_index(&scan);
    assert!(report.problems.iter().any(|p| p.kind == ProblemKind::DeadRemoval), "{:?}", report.problems);
}

#[test]
fn two_disjoint_cycles_are_reported_separately() {
    let packages = [
        after(package("mods", "a"), &["b"]),
        after(package("mods", "b"), &["a"]),
        after(package("mods", "d"), &["e"]),
        after(package("mods", "e"), &["d"]),
    ];
    let resolution = resolve(&packages, &LoadOrder::new());
    assert!(resolution.order.is_empty());
    let members = |id: &str| match &resolution
        .disabled
        .iter()
        .find(|d| d.id == id)
        .unwrap_or_else(|| panic!("{id} is disabled, got {:?}", resolution.disabled))
        .reason
    {
        DisableReason::Cycle { members } => members.clone(),
        other => panic!("expected {id} to be a cycle member, got {other:?}"),
    };
    assert_eq!(members("a"), ["a", "b"]);
    assert_eq!(members("b"), ["a", "b"]);
    assert_eq!(members("d"), ["d", "e"]);
    assert_eq!(members("e"), ["d", "e"]);
    let cycles: Vec<_> = resolution.problems.iter().filter(|p| p.kind == ProblemKind::DependencyCycle).collect();
    assert_eq!(cycles.len(), 2, "{:?}", resolution.problems);
}

#[test]
fn a_cycle_the_user_closed_names_their_load_order() {
    let packages = [
        package("base", "core"),
        after(package("mods", "a"), &["core"]),
        after(package("mods", "b"), &["a"]),
    ];
    let load_order = user(&[("core", &["b"], &[])]);
    let resolution = resolve(&packages, &load_order);
    let cycle = resolution
        .problems
        .iter()
        .find(|p| p.kind == ProblemKind::DependencyCycle)
        .unwrap_or_else(|| panic!("a cycle is reported, got {:?}", resolution.problems));
    assert!(
        cycle.detail.contains("core after b [the user's load order]"),
        "the constraint that closed the loop is the user's: {}",
        cycle.detail
    );
    assert!(
        cycle.detail.contains("a after core [a's manifest]"),
        "the manifest edges are named with their source too: {}",
        cycle.detail
    );
}

#[test]
fn a_requirement_reads_its_id_and_versions() {
    let requirement = Requirement::parse("core >= 2.0").unwrap();
    assert_eq!(requirement.id, "core");
    assert_eq!(requirement.req, ">= 2.0");
    assert_eq!(Requirement::parse("core").unwrap().req, "*");
    assert!(Requirement::parse(">= 2.0").is_err());
}

#[test]
fn a_requirement_the_version_meets_keeps_the_package() {
    let packages = [
        package("base", "core"),
        needing(package("mods", "apple"), &["core ^1"]),
    ];
    let resolution = resolve(&packages, &LoadOrder::new());
    assert_eq!(resolution.order, [0, 1]);
    assert!(resolution.disabled.is_empty());
}

#[test]
fn a_loop_lists_its_constraints_by_the_earlier_package() {
    let packages = [after(package("mods", "a"), &["b"]), after(package("mods", "b"), &["a"])];
    let resolution = resolve(&packages, &LoadOrder::new());
    let cycle = resolution.problems.iter().find(|p| p.kind == ProblemKind::DependencyCycle).unwrap();
    assert_eq!(
        cycle.detail,
        "these constraints form a loop: b after a [b's manifest], a after b [a's manifest]; \
         none of these packages will load: a, b"
    );
}
