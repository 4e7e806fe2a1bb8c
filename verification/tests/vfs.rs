use ename::alias::discovery::DirEntry;
use ename::package::vfs::{is_hidden_from_listings, listing, StdVfs};

fn entry(path: &str, is_dir: bool) -> DirEntry {
    DirEntry { path: path.to_owned(), is_dir }
}

#[test]
fn sidecars_and_dot_files_are_hidden() {
    assert!(is_hidden_from_listings("base/ship.glb.meta"));
    assert!(is_hidden_from_listings("base/ship.META"));
    assert!(is_hidden_from_listings("base/.git"));
    assert!(is_hidden_from_listings(""));
    assert!(!is_hidden_from_listings("base/ship.glb"));
    assert!(!is_hidden_from_listings("base/meta"));
    assert!(!is_hidden_from_listings("base/ship.metal"));
}

#[test]
fn a_listing_is_sorted_by_path_without_hidden_entries() {
    let raw = vec![
        entry("pkg/zeta", true),
        entry("pkg/.hidden", false),
        entry("pkg/alpha.png", false),
        entry("pkg/alpha.png.meta", false),
        entry("pkg/Beta", false),
    ];
    let out = listing(&raw);
    let paths: Vec<&str> = out.iter().map(|e| e.path.as_str()).collect();
    assert_eq!(paths, ["pkg/Beta", "pkg/alpha.png", "pkg/zeta"]);
    assert!(out[2].is_dir);
}

#[test]
fn a_reader_joins_paths_to_its_root() {
    assert_eq!(StdVfs::new("assets".to_owned()).full_path("base/core"), "assets/base/core");
    assert_eq!(StdVfs::new(String::new()).full_path("base"), "base");
    assert_eq!(StdVfs::new("assets".to_owned()).root(), "assets");
}
