use ename::alias::discovery::{decoded_outcome, listing_outcome, read_outcome, subdirectories, DirEntry, VfsError};
use ename::alias::problem::ProblemKind;
use ename::package::scan::manifest_read_outcome;

#[test]
fn a_read_file_hands_its_bytes_on() {
    let out = read_outcome(&"a/b.alias".to_string(), ProblemKind::UnparseableAliasFile, Ok(vec![1, 2, 3]));
    assert_eq!(out, Ok(vec![1, 2, 3]));
}

#[test]
fn a_refused_read_is_a_problem_at_the_path_in_the_readers_words() {
    let err = VfsError::Io { path: "a/b.alias".to_string(), message: "denied".to_string() };
    let problem = read_outcome(&"a/b.alias".to_string(), ProblemKind::UnparseableAliasFile, Err(err)).unwrap_err();
    assert_eq!(problem.path, "a/b.alias");
    assert_eq!(problem.kind, ProblemKind::UnparseableAliasFile);
    assert_eq!(problem.detail, "a/b.alias: denied");
}

#[test]
fn a_decoded_value_is_handed_on_and_a_refusal_keeps_the_decoders_words() {
    let path = "p/manifest.toml".to_string();
    assert_eq!(decoded_outcome(&path, ProblemKind::UnparseableManifest, Ok::<u32, String>(7)), Ok(7));
    let problem = decoded_outcome::<u32>(&path, ProblemKind::UnparseableManifest, Err("bad key".to_string())).unwrap_err();
    assert_eq!(problem.path, path);
    assert_eq!(problem.kind, ProblemKind::UnparseableManifest);
    assert_eq!(problem.detail, "bad key");
}

#[test]
fn a_missing_manifest_means_no_package() {
    let path = "mods/x/manifest.toml".to_string();
    assert_eq!(manifest_read_outcome(&path, Err(VfsError::NotFound(path.clone()))), Ok(None));
    assert_eq!(manifest_read_outcome(&path, Ok(vec![b'a'])), Ok(Some(vec![b'a'])));
    let problem = manifest_read_outcome(&path, Err(VfsError::Io { path: path.clone(), message: "busy".to_string() })).unwrap_err();
    assert_eq!(problem.kind, ProblemKind::UnparseableManifest);
    assert_eq!(problem.detail, "mods/x/manifest.toml: busy");
}

#[test]
fn a_listing_comes_to_its_entries_nothing_or_one_problem() {
    let dir = "assets".to_string();
    let entries = vec![
        DirEntry { path: "assets/a.glb".to_string(), is_dir: false },
        DirEntry { path: "assets/b".to_string(), is_dir: true },
        DirEntry { path: "assets/c".to_string(), is_dir: true },
    ];
    assert_eq!(listing_outcome(&dir, Ok(entries.clone())), Ok(Some(entries.clone())));
    assert_eq!(listing_outcome(&dir, Err(VfsError::NotFound(dir.clone()))), Ok(None));
    let problem = listing_outcome(&dir, Err(VfsError::Io { path: dir.clone(), message: "denied".to_string() })).unwrap_err();
    assert_eq!(problem.kind, ProblemKind::UnreadableDirectory);
    assert_eq!(problem.detail, "assets: denied");
    assert_eq!(subdirectories(&entries), vec!["assets/b".to_string(), "assets/c".to_string()]);
}
