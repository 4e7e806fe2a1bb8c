//! Mapping a package's declared assets onto the alias index.
//!
//! `add` entries are named within the package: their alias gets the package id as its namespace
//! and their path is rooted at the package. `replace` and `remove` name another package's asset,
//! so they take an alias as written. A rejected alias is skipped: one malformed entry must not
//! cost the rest of the package.

use crate::alias::index::{ContentIndex, valid_alias};
use vstd::prelude::*;

verus! {

/// The delimiter between a package id and an alias within it.
pub const NAMESPACE_DELIM: &'static str = "::";

/// A package's `[assets]` section.
#[derive(Debug, Clone)]
pub struct AssetsInfo {
    /// Alias within the package, then path within the package.
    pub add: Option<Vec<(String, String)>>,
    /// Namespaced alias, then path within this package.
    pub replace: Option<Vec<(String, String)>>,
    /// Namespaced aliases to take out.
    pub remove: Option<Vec<String>>,
}

/// A package as the fold sees it: its id, its declared assets and its root directory.
#[derive(Debug, Clone)]
pub struct DeclaredPackage {
    pub id: String,
    pub assets: AssetsInfo,
    pub root: String,
}

/// `root` joined with `relative` as a path: an absolute `relative` stands alone, and a root that
/// already ends in `/` gets no second one.
pub open spec fn rooted(root: Seq<char>, relative: Seq<char>) -> Seq<char> {
    if relative.len() > 0 && relative[0] == '/' {
        relative
    } else if root.len() == 0 || root.last() == '/' {
        root + relative
    } else {
        root + "/"@ + relative
    }
}

/// `index` with `alias` mapped to `path`, when `alias` is valid; unchanged otherwise.
pub open spec fn claim(index: Map<Seq<char>, Seq<char>>, alias: Seq<char>, path: Seq<char>) -> Map<Seq<char>, Seq<char>> {
    if valid_alias(alias) {
        index.insert(alias, path)
    } else {
        index
    }
}

/// The view of a list of alias and path pairs.
pub open spec fn pair_views(pairs: Seq<(String, String)>) -> Seq<(Seq<char>, Seq<char>)> {
    pairs.map_values(|p: (String, String)| (p.0@, p.1@))
}

/// `index` after the `add` entries: each alias namespaced by `id`, each path rooted at `root`.
pub open spec fn added(
    index: Map<Seq<char>, Seq<char>>,
    id: Seq<char>,
    root: Seq<char>,
    entries: Seq<(Seq<char>, Seq<char>)>,
) -> Map<Seq<char>, Seq<char>>
    decreases entries.len(),
{
    if entries.len() == 0 {
        index
    } else {
        let e = entries.last();
        claim(added(index, id, root, entries.drop_last()), id + "::"@ + e.0, rooted(root, e.1))
    }
}

/// `index` after the `replace` entries: each alias as written, each path rooted at `root`.
pub open spec fn replaced_all(
    index: Map<Seq<char>, Seq<char>>,
    root: Seq<char>,
    entries: Seq<(Seq<char>, Seq<char>)>,
) -> Map<Seq<char>, Seq<char>>
    decreases entries.len(),
{
    if entries.len() == 0 {
        index
    } else {
        let e = entries.last();
        claim(replaced_all(index, root, entries.drop_last()), e.0, rooted(root, e.1))
    }
}

/// `index` after the `remove` entries.
pub open spec fn removed_all(index: Map<Seq<char>, Seq<char>>, aliases: Seq<Seq<char>>) -> Map<Seq<char>, Seq<char>>
    decreases aliases.len(),
{
    if aliases.len() == 0 {
        index
    } else {
        removed_all(index, aliases.drop_last()).remove(aliases.last())
    }
}

/// The pairs of an optional section, none when it is absent.
pub open spec fn section(pairs: Option<Vec<(String, String)>>) -> Seq<(Seq<char>, Seq<char>)> {
    match pairs {
        Some(v) => pair_views(v@),
        None => Seq::empty(),
    }
}

/// The aliases of an optional `remove` section, none when it is absent.
pub open spec fn removals(aliases: Option<Vec<String>>) -> Seq<Seq<char>> {
    match aliases {
        Some(v) => crate::text::views(v@),
        None => Seq::empty(),
    }
}

/// `index` after one package's assets: its adds, then its replaces, then its removes.
pub open spec fn applied(index: Map<Seq<char>, Seq<char>>, id: Seq<char>, assets: AssetsInfo, root: Seq<char>) -> Map<
    Seq<char>,
    Seq<char>,
> {
    removed_all(
        replaced_all(added(index, id, root, section(assets.add)), root, section(assets.replace)),
        removals(assets.remove),
    )
}

/// `root` joined with `relative`.
fn join_rooted(root: &str, relative: &str) -> (out: String)
    ensures
        out@ == rooted(root@, relative@),
{
    let root_chars = crate::text::chars_of(root);
    let relative_chars = crate::text::chars_of(relative);
    if relative_chars.len() > 0 && relative_chars[0] == '/' {
        String::from_str(relative)
    } else if root_chars.len() == 0 || root_chars[root_chars.len() - 1] == '/' {
        let mut out = String::from_str(root);
        out.append(relative);
        out
    } else {
        let mut out = String::from_str(root);
        out.append("/");
        out.append(relative);
        out
    }
}

/// Applies one package's `[assets]` section to `index`.
pub fn apply_manifest(index: &mut ContentIndex, package_id: &str, assets: &AssetsInfo, package_root: &str)
    ensures
        final(index)@ == applied(old(index)@, package_id@, *assets, package_root@),
{
    let ghost start = index@;
    if let Some(add) = &assets.add {
        let ghost pairs = pair_views(add@);
        let mut k: usize = 0;
        while k < add.len()
            invariant
                k <= add@.len(),
                pairs == pair_views(add@),
                index@ == added(start, package_id@, package_root@, pairs.take(k as int)),
            decreases add@.len() - k,
        {
            proof {
                assert(pairs.take(k + 1).drop_last() =~= pairs.take(k as int));
                assert(pairs[k as int] == (add@[k as int].0@, add@[k as int].1@));
            }
            let mut namespaced = String::from_str(package_id);
            namespaced.append(NAMESPACE_DELIM);
            namespaced.append(add[k].0.as_str());
            let path = join_rooted(package_root, add[k].1.as_str());
            let _ = index.insert(namespaced.as_str(), path.as_str());
            k = k + 1;
        }
        proof {
            assert(pairs.take(add@.len() as int) =~= pairs);
        }
    }
    let ghost after_add = index@;
    proof {
        assert(after_add == added(start, package_id@, package_root@, section(assets.add)));
    }
    if let Some(replace) = &assets.replace {
        let ghost pairs = pair_views(replace@);
        let mut k: usize = 0;
        while k < replace.len()
            invariant
                k <= replace@.len(),
                pairs == pair_views(replace@),
                index@ == replaced_all(after_add, package_root@, pairs.take(k as int)),
            decreases replace@.len() - k,
        {
            proof {
                assert(pairs.take(k + 1).drop_last() =~= pairs.take(k as int));
                assert(pairs[k as int] == (replace@[k as int].0@, replace@[k as int].1@));
            }
            let path = join_rooted(package_root, replace[k].1.as_str());
            let _ = index.insert(replace[k].0.as_str(), path.as_str());
            k = k + 1;
        }
        proof {
            assert(pairs.take(replace@.len() as int) =~= pairs);
        }
    }
    let ghost after_replace = index@;
    proof {
        assert(after_replace == replaced_all(after_add, package_root@, section(assets.replace)));
    }
    if let Some(remove) = &assets.remove {
        let ghost aliases = crate::text::views(remove@);
        let mut k: usize = 0;
        while k < remove.len()
            invariant
                k <= remove@.len(),
                aliases == crate::text::views(remove@),
                index@ == removed_all(after_replace, aliases.take(k as int)),
            decreases remove@.len() - k,
        {
            proof {
                assert(aliases.take(k + 1).drop_last() =~= aliases.take(k as int));
            }
            let _ = index.remove(remove[k].as_str());
            k = k + 1;
        }
        proof {
            assert(aliases.take(remove@.len() as int) =~= aliases);
        }
    }
}

/// The index after `packages`, applied in load order from an empty one.
pub open spec fn index_after(packages: Seq<DeclaredPackage>) -> Map<Seq<char>, Seq<char>>
    decreases packages.len(),
{
    if packages.len() == 0 {
        Map::empty()
    } else {
        let p = packages.last();
        applied(index_after(packages.drop_last()), p.id@, p.assets, p.root@)
    }
}

/// Folds an ordered package list into one index. A later package's claim on an alias replaces an
/// earlier one's, which is how a mod overrides the base game.
pub fn build_index(packages: &[DeclaredPackage]) -> (out: ContentIndex)
    ensures
        out@ == index_after(packages@),
{
    let mut index = ContentIndex::new();
    let mut k: usize = 0;
    while k < packages.len()
        invariant
            k <= packages@.len(),
            index@ == index_after(packages@.take(k as int)),
        decreases packages@.len() - k,
    {
        proof {
            assert(packages@.take(k + 1).drop_last() =~= packages@.take(k as int));
        }
        apply_manifest(&mut index, packages[k].id.as_str(), &packages[k].assets, packages[k].root.as_str());
        k = k + 1;
    }
    proof {
        assert(packages@.take(packages@.len() as int) =~= packages@);
    }
    index
}

} // verus!
