//! Walking a directory tree and working out which files are addressable, and under what alias.
//!
//! Folder rules, `.alias` sidecars, and the precedence between them. Nothing here fails the
//! walk: an unreadable directory, a broken sidecar, a rule with a typo in its template, each is
//! recorded as a [`Problem`] and skipped, so one broken directory costs that directory and
//! nothing else.

use crate::alias::index::{refusal_text, valid_alias, validate_alias, ContentIndex};
use crate::alias::problem::{problem_views, AliasOrigin, DiscoveredAsset, Problem, ProblemKind, ProblemView};
use crate::alias::rules::{
    derived_alias, file_name, file_name_of, glob_accepts, is_rules_file, opt_view, CompiledRules, RuleView,
    Rules, RULES_FILE,
};
use crate::alias::sidecar::{alias_sidecar_target, sidecar_target, AliasFile};
use crate::alias::table::AliasTable;
use crate::text::{eq_ignore_ascii_case, eq_ignoring_ascii_case, insert_sorted, sorted_texts, str_eq, views};
use vstd::prelude::*;

verus! {

/// How many directories deep a walk may descend before it is cut off: far deeper than any real
/// asset tree, so in practice only a symlink cycle reaches it.
pub const MAX_DEPTH: usize = 64;

/// Why a read failed. `NotFound` is an answer rather than an error: a directory with no
/// manifest is not a package.
#[derive(Debug, Clone, PartialEq, Eq)]
pub enum VfsError {
    NotFound(String),
    Io { path: String, message: String },
}

impl VfsError {
    /// The words a report gives this error with.
    pub open spec fn text(self) -> Seq<char> {
        match self {
            VfsError::NotFound(path) => "not found: "@ + path@,
            VfsError::Io { path, message } => path@ + ": "@ + message@,
        }
    }

    /// Executable [`VfsError::text`].
    pub fn describe(&self) -> (out: String)
        ensures
            out@ == self.text(),
    {
        match self {
            VfsError::NotFound(path) => {
                let mut out = String::from_str("not found: ");
                out.append(path.as_str());
                out
            },
            VfsError::Io { path, message } => {
                let mut out = path.clone();
                out.append(": ");
                out.append(message.as_str());
                out
            },
        }
    }
}

/// One entry of a directory listing. The path is relative to the tree's root, not to the
/// directory listed.
#[derive(Debug, Clone, PartialEq, Eq)]
pub struct DirEntry {
    pub path: String,
    pub is_dir: bool,
}

/// Reading a tree of files. Every path is relative to the implementation's root.
///
/// A listing hides `*.meta` and anything whose name starts with `.`, and comes back sorted by
/// path, because directory name is a tiebreaker the whole load order rests on.
pub trait Vfs {
    fn read_file(&self, path: &str) -> Result<Vec<u8>, VfsError>;

    fn read_dir(&self, path: &str) -> Result<Vec<DirEntry>, VfsError>;
}

/// Reading the files that describe assets: folder rules and sidecars as TOML, and manifests.
/// An error is the reader's own words for what is wrong.
pub trait Decoder {
    fn rules(&self, bytes: &[u8]) -> Result<Rules, String>;

    fn alias_file(&self, bytes: &[u8]) -> Result<AliasFile, String>;

    fn manifest(&self, bytes: &[u8]) -> Result<crate::package::manifest::Manifest, String>;
}

/// An asset as the contracts see it: alias, path, GUID, origin.
pub type AssetView = (Seq<char>, Seq<char>, Option<u128>, AliasOrigin);

/// The contract view of a list of assets.
pub open spec fn asset_views(assets: Seq<DiscoveredAsset>) -> Seq<AssetView> {
    Seq::new(assets.len(), |i: int| (assets[i].alias@, assets[i].path@, assets[i].guid, assets[i].origin))
}

/// A walk so far, as the contracts see it.
pub struct WalkView {
    pub assets: Seq<AssetView>,
    /// Alias to the path of the file that won it.
    pub claimed: Map<Seq<char>, Seq<char>>,
    pub problems: Seq<ProblemView>,
}

/// The alias a sidecar names, if there is one and it names one.
pub open spec fn authored_alias(sidecar: Option<AliasFile>) -> Option<Seq<char>> {
    match sidecar {
        Some(f) => opt_view(f.alias),
        None => None,
    }
}

/// Whether the file named `name` is addressable: the sidecar's explicit say first; then yes if
/// the sidecar names an alias, since somebody wrote that file on purpose; then the rule's
/// patterns.
pub open spec fn is_included(name: Seq<char>, sidecar: Option<AliasFile>, rule: Option<RuleView>) -> bool {
    match sidecar {
        Some(f) if f.included is Some => f.included->0,
        _ => if authored_alias(sidecar) is Some {
            true
        } else {
            match rule {
                Some(r) => exists|k: int| 0 <= k < r.patterns.len() && #[trigger] glob_accepts(r.patterns[k], name),
                None => false,
            }
        },
    }
}

/// The alias the file at `path` would be discovered under before the alias is checked: none when
/// it is not addressable, else the sidecar's alias, else whatever the rule derives.
pub open spec fn candidate_alias(path: Seq<char>, name: Seq<char>, sidecar: Option<AliasFile>, rule: Option<RuleView>) -> Option<Seq<char>> {
    if !is_included(name, sidecar, rule) {
        None
    } else {
        match authored_alias(sidecar) {
            Some(a) => Some(a),
            None => match rule {
                Some(r) => derived_alias(r.dir, r.alias, path),
                None => None,
            },
        }
    }
}

/// The walk after deciding the file at `path`: not an asset; an asset with a refused alias,
/// reported; or an asset, with a warning when its sidecar carries no GUID, that is added unless
/// an earlier file claimed the same alias, in which case it is reported and skipped.
pub open spec fn discover_step(w: WalkView, path: Seq<char>, name: Seq<char>, sidecar: Option<AliasFile>, rule: Option<RuleView>) -> WalkView {
    match candidate_alias(path, name, sidecar, rule) {
        None => w,
        Some(a) => if !valid_alias(a) {
            WalkView { problems: w.problems.push((path, ProblemKind::InvalidAlias, refusal_text(a))), ..w }
        } else {
            let origin = match sidecar {
                Some(f) if authored_alias(sidecar) is Some => f.alias_origin,
                _ => AliasOrigin::Derived,
            };
            let guid = match sidecar {
                Some(f) => f.guid,
                None => None,
            };
            let warned = match sidecar {
                Some(f) if f.guid is None => w.problems.push(
                    (path, ProblemKind::MissingGuid, "`"@ + a + "` has a .alias file with no guid"@),
                ),
                _ => w.problems,
            };
            if w.claimed.contains_key(a) {
                WalkView {
                    problems: warned.push(
                        (path, ProblemKind::DuplicateAlias, "`"@ + a + "` is already claimed by "@ + w.claimed[a]),
                    ),
                    ..w
                }
            } else {
                WalkView {
                    assets: w.assets.push((a, path, guid, origin)),
                    claimed: w.claimed.insert(a, path),
                    problems: warned,
                }
            }
        },
    }
}

/// Every asset's alias is valid and claimed by that asset's file, and no two assets share one.
pub open spec fn walk_ok(w: WalkView) -> bool {
    &&& forall|k: int| 0 <= k < w.assets.len() ==> valid_alias(#[trigger] w.assets[k].0)
    &&& forall|j: int, k: int| 0 <= j < k < w.assets.len() ==> #[trigger] w.assets[j].0 != #[trigger] w.assets[k].0
    &&& forall|k: int|
        0 <= k < w.assets.len() ==> w.claimed.contains_key(#[trigger] w.assets[k].0) && w.claimed[w.assets[k].0]
            == w.assets[k].1
    &&& forall|a: Seq<char>| #[trigger] w.claimed.contains_key(a) ==> exists|k: int| 0 <= k < w.assets.len() && w.assets[k].0 == a
}

/// One walk's findings so far.
pub struct Walk {
    assets: Vec<DiscoveredAsset>,
    claimed: AliasTable<String>,
    problems: Vec<Problem>,
}

impl View for Walk {
    type V = WalkView;

    closed spec fn view(&self) -> WalkView {
        WalkView {
            assets: asset_views(self.assets@),
            claimed: self.claimed@.map_values(|p: String| p@),
            problems: problem_views(self.problems@),
        }
    }
}

/// The view of an optional rule.
pub open spec fn rule_view(rule: Option<&CompiledRules>) -> Option<RuleView> {
    match rule {
        Some(r) => Some(r@),
        None => None,
    }
}

impl Walk {
    /// A walk that has found nothing.
    pub fn new() -> (out: Walk)
        ensures
            out@.assets.len() == 0,
            out@.claimed == Map::<Seq<char>, Seq<char>>::empty(),
            out@.problems.len() == 0,
            walk_ok(out@),
    {
        let out = Walk { assets: Vec::new(), claimed: AliasTable::new(), problems: Vec::new() };
        proof {
            assert(out@.claimed =~= Map::<Seq<char>, Seq<char>>::empty());
        }
        out
    }

    /// Decides whether the file at `path`, named `name`, is an asset, and under what alias.
    pub fn discover(&mut self, path: &String, name: &str, sidecar: Option<AliasFile>, rule: Option<&CompiledRules>)
        requires
            walk_ok(old(self)@),
        ensures
            final(self)@ == discover_step(old(self)@, path@, name@, sidecar, rule_view(rule)),
            walk_ok(final(self)@),
    {
        let ghost before = self@;
        let authored: Option<String> = match &sidecar {
            Some(f) => match &f.alias {
                Some(a) => Some(a.clone()),
                None => None,
            },
            None => None,
        };
        let explicit: Option<bool> = match &sidecar {
            Some(f) => f.included,
            None => None,
        };
        let included = match explicit {
            Some(b) => b,
            None => if authored.is_some() {
                true
            } else {
                match rule {
                    Some(r) => r.includes(name),
                    None => false,
                }
            },
        };
        if !included {
            return;
        }
        let alias = match authored {
            Some(a) => a,
            None => match rule {
                Some(r) => match r.alias_for(path.as_str()) {
                    Some(a) => a,
                    None => return,
                },
                None => return,
            },
        };
        proof {
            assert(candidate_alias(path@, name@, sidecar, rule_view(rule)) == Some(alias@));
        }
        if let Err(e) = validate_alias(alias.as_str()) {
            let detail = e.describe();
            self.problems.push(Problem { path: path.clone(), kind: ProblemKind::InvalidAlias, detail });
            proof {
                crate::alias::index::lemma_refusal_text(alias@, e);
                assert(self@.problems =~= before.problems.push((path@, ProblemKind::InvalidAlias, refusal_text(alias@))));
                assert(self@.assets == before.assets);
                assert(self@.claimed == before.claimed);
                assert(self@ == discover_step(before, path@, name@, sidecar, rule_view(rule)));
            }
            return;
        }
        let origin = match &sidecar {
            Some(f) => if f.alias.is_some() {
                f.alias_origin
            } else {
                AliasOrigin::Derived
            },
            None => AliasOrigin::Derived,
        };
        let guid: Option<u128> = match &sidecar {
            Some(f) => f.guid,
            None => None,
        };
        let missing_guid = match &sidecar {
            Some(f) => f.guid.is_none(),
            None => false,
        };
        if missing_guid {
            let mut detail = String::from_str("`");
            detail.append(alias.as_str());
            detail.append("` has a .alias file with no guid");
            self.problems.push(Problem { path: path.clone(), kind: ProblemKind::MissingGuid, detail });
            proof {
                assert(problem_views(self.problems@) =~= before.problems.push(
                    (path@, ProblemKind::MissingGuid, "`"@ + alias@ + "` has a .alias file with no guid"@),
                ));
            }
        }
        let ghost warned = problem_views(self.problems@);
        proof {
            let spec_warned = match sidecar {
                Some(f) if f.guid is None => before.problems.push(
                    (path@, ProblemKind::MissingGuid, "`"@ + alias@ + "` has a .alias file with no guid"@),
                ),
                _ => before.problems,
            };
            assert(warned == spec_warned);
            assert(self@.assets == before.assets);
            assert(self@.claimed == before.claimed);
        }
        match self.claimed.get(alias.as_str()) {
            Some(winner) => {
                proof {
                    assert(before.claimed[alias@] == winner@);
                }
                let mut detail = String::from_str("`");
                detail.append(alias.as_str());
                detail.append("` is already claimed by ");
                detail.append(winner.as_str());
                self.problems.push(Problem { path: path.clone(), kind: ProblemKind::DuplicateAlias, detail });
                proof {
                    assert(self@.problems =~= warned.push(
                        (path@, ProblemKind::DuplicateAlias, "`"@ + alias@ + "` is already claimed by "@ + before.claimed[alias@]),
                    ));
                    assert(self@.claimed =~= before.claimed);
                    assert(self@ == discover_step(before, path@, name@, sidecar, rule_view(rule)));
                }
            },
            None => {
                self.claimed.insert(alias.as_str(), path.clone());
                let ghost before_assets = self.assets@;
                self.assets.push(DiscoveredAsset { alias, path: path.clone(), guid, origin });
                proof {
                    let a = self@.assets;
                    assert(a =~= before.assets.push((alias@, path@, guid, origin)));
                    assert(self@.claimed =~= before.claimed.insert(alias@, path@));
                    assert(self@ == discover_step(before, path@, name@, sidecar, rule_view(rule)));
                    assert forall|j: int, k: int| 0 <= j < k < a.len() implies #[trigger] a[j].0 != #[trigger] a[k].0 by {
                        if k == a.len() - 1 {
                            assert(before.claimed.contains_key(before.assets[j].0));
                        }
                    }
                    assert forall|k: int| 0 <= k < a.len() implies self@.claimed.contains_key(#[trigger] a[k].0)
                        && self@.claimed[a[k].0] == a[k].1 by {
                        if k < a.len() - 1 {
                            assert(a[k] == before.assets[k]);
                        }
                    }
                    assert forall|x: Seq<char>| #[trigger] self@.claimed.contains_key(x) implies exists|k: int|
                        0 <= k < a.len() && a[k].0 == x by {
                        if x == alias@ {
                            assert(a[a.len() - 1].0 == x);
                        } else {
                            let k = choose|k: int| 0 <= k < before.assets.len() && before.assets[k].0 == x;
                            assert(a[k].0 == x);
                        }
                    }
                }
            },
        }
    }
}

impl AliasFile {
    /// A copy of this sidecar.
    pub fn duplicate(&self) -> (out: AliasFile)
        ensures
            out == *self,
    {
        AliasFile {
            alias: match &self.alias {
                Some(a) => Some(a.clone()),
                None => None,
            },
            included: self.included,
            guid: self.guid,
            alias_origin: self.alias_origin,
        }
    }
}

/// The position of the last `c` in `s`, or -1.
pub open spec fn last_index(s: Seq<char>, c: char) -> int
    decreases s.len(),
{
    if s.len() == 0 {
        -1
    } else if s.last() == c {
        s.len() - 1
    } else {
        last_index(s.drop_last(), c)
    }
}

/// A file name whose extension is `meta`, in any case. A name whose only dot leads it has no
/// extension.
pub open spec fn is_meta(name: Seq<char>) -> bool {
    let dot = last_index(name, '.');
    dot > 0 && eq_ignoring_ascii_case(name.skip(dot + 1), "meta"@)
}

/// A file that describes assets rather than being one: a folder rule, a sidecar, a name the
/// caller owns, or an import-settings file. Every comparison ignores ASCII case.
pub open spec fn describes_assets(name: Seq<char>, ignored: Seq<Seq<char>>) -> bool {
    ||| eq_ignoring_ascii_case(name, RULES_FILE@)
    ||| sidecar_target(name) is Some
    ||| exists|k: int| 0 <= k < ignored.len() && eq_ignoring_ascii_case(#[trigger] ignored[k], name)
    ||| is_meta(name)
}

/// Whether `name` ends in an extension that is `meta` in any case.
fn has_meta_extension(name: &str) -> (out: bool)
    ensures
        out == is_meta(name@),
{
    let chars = crate::text::chars_of(name);
    let mut k = chars.len();
    proof {
        assert(name@.take(name@.len() as int) =~= name@);
    }
    while k > 0
        invariant
            k <= chars@.len(),
            chars@ == name@,
            last_index(name@, '.') == last_index(name@.take(k as int), '.'),
        decreases k,
    {
        proof {
            assert(name@.take(k as int).drop_last() =~= name@.take(k - 1));
        }
        if chars[k - 1] == '.' {
            let dot = k - 1;
            if dot == 0 {
                return false;
            }
            let mut tail: Vec<char> = Vec::new();
            let mut j = k;
            while j < chars.len()
                invariant
                    k <= j <= chars@.len(),
                    tail@ == chars@.subrange(k as int, j as int),
                decreases chars@.len() - j,
            {
                tail.push(chars[j]);
                proof {
                    assert(chars@.subrange(k as int, j + 1) =~= chars@.subrange(k as int, j as int).push(chars@[j as int]));
                }
                j = j + 1;
            }
            let text = crate::text::string_of(tail.as_slice());
            proof {
                assert(text@ =~= name@.skip(dot + 1));
            }
            return eq_ignore_ascii_case(text.as_str(), "meta");
        }
        k = k - 1;
    }
    false
}

/// True for a file that describes assets rather than being one.
pub fn is_not_an_asset(file_name: &str, ignored: &Vec<String>) -> (out: bool)
    ensures
        out == describes_assets(file_name@, views(ignored@)),
{
    if is_rules_file(file_name) {
        return true;
    }
    if alias_sidecar_target(file_name).is_some() {
        return true;
    }
    let mut k: usize = 0;
    while k < ignored.len()
        invariant
            k <= ignored@.len(),
            forall|j: int| 0 <= j < k ==> !eq_ignoring_ascii_case(#[trigger] views(ignored@)[j], file_name@),
        decreases ignored@.len() - k,
    {
        if eq_ignore_ascii_case(ignored[k].as_str(), file_name) {
            proof {
                assert(eq_ignoring_ascii_case(views(ignored@)[k as int], file_name@));
            }
            return true;
        }
        k = k + 1;
    }
    has_meta_extension(file_name)
}

/// Whether the entry is a file whose name is exactly the folder rule's.
pub open spec fn is_exact_rules_entry(e: DirEntry) -> bool {
    !e.is_dir && file_name_of_path(e.path@) == Some(RULES_FILE@)
}

/// Whether the entry is a file whose name is the folder rule's, in any case.
pub open spec fn is_rules_entry(e: DirEntry) -> bool {
    !e.is_dir && (file_name_of_path(e.path@) matches Some(n) && eq_ignoring_ascii_case(n, RULES_FILE@))
}

/// The last component of a path.
pub open spec fn file_name_of_path(path: Seq<char>) -> Option<Seq<char>> {
    crate::alias::rules::file_name_of(path)
}

/// The folder rule in one listing: the first file spelled exactly as the rule file is, where a
/// case-sensitive filesystem carries several spellings, else the first in another case.
pub fn find_rules_file(entries: &Vec<DirEntry>) -> (out: Option<usize>)
    ensures
        out matches Some(k) ==> k < entries@.len() && is_rules_entry(entries@[k as int]) && (is_exact_rules_entry(
            entries@[k as int],
        ) || forall|j: int| 0 <= j < entries@.len() ==> !#[trigger] is_exact_rules_entry(entries@[j])),
        out matches Some(k) ==> forall|j: int| 0 <= j < k ==> !#[trigger] is_exact_rules_entry(entries@[j]),
        out matches Some(k) ==> !is_exact_rules_entry(entries@[k as int]) ==> forall|j: int|
            0 <= j < k ==> !#[trigger] is_rules_entry(entries@[j]),
        out is None ==> forall|j: int| 0 <= j < entries@.len() ==> !#[trigger] is_rules_entry(entries@[j]),
{
    let mut found: Option<usize> = None;
    let mut k: usize = 0;
    while k < entries.len()
        invariant
            k <= entries@.len(),
            forall|j: int| 0 <= j < k ==> !#[trigger] is_exact_rules_entry(entries@[j]),
            found matches Some(f) ==> f < k && is_rules_entry(entries@[f as int]) && forall|j: int|
                0 <= j < f ==> !#[trigger] is_rules_entry(entries@[j]),
            found is None ==> forall|j: int| 0 <= j < k ==> !#[trigger] is_rules_entry(entries@[j]),
        decreases entries@.len() - k,
    {
        let entry = &entries[k];
        if !entry.is_dir {
            if let Some(name) = file_name(entry.path.as_str()) {
                if is_rules_file(name.as_str()) {
                    if str_eq(name.as_str(), RULES_FILE) {
                        return Some(k);
                    }
                    if found.is_none() {
                        found = Some(k);
                    }
                } else {
                    proof {
                        assert(!is_rules_entry(entries@[k as int]));
                    }
                }
            }
        }
        k = k + 1;
    }
    found
}

/// Reads and checks the folder rule at `path`, for the directory `dir`. Whatever goes wrong is a
/// problem at `path`.
fn read_rules<V: Vfs, D: Decoder>(vfs: &V, decoder: &D, path: &String, dir: &String) -> (out: Result<CompiledRules, Problem>)
    ensures
        out matches Ok(c) ==> c@.dir == dir@,
        out matches Err(p) ==> p.path@ == path@ && p.kind == ProblemKind::UnparseableRules,
{
    let bytes = match vfs.read_file(path.as_str()) {
        Ok(bytes) => bytes,
        Err(err) => {
            return Err(Problem { path: path.clone(), kind: ProblemKind::UnparseableRules, detail: err.describe() });
        },
    };
    let rules = match decoder.rules(bytes.as_slice()) {
        Ok(rules) => rules,
        Err(message) => {
            return Err(Problem { path: path.clone(), kind: ProblemKind::UnparseableRules, detail: message });
        },
    };
    match CompiledRules::compile(rules, dir.as_str()) {
        Ok(compiled) => Ok(compiled),
        Err(err) => Err(Problem { path: path.clone(), kind: ProblemKind::UnparseableRules, detail: err.describe() }),
    }
}

/// What the reader's answer for the file at `path` comes to: its bytes, or a problem of `kind`
/// at `path` in the reader's words.
pub fn read_outcome(path: &String, kind: ProblemKind, read: Result<Vec<u8>, VfsError>) -> (out: Result<Vec<u8>, Problem>)
    ensures
        read matches Ok(bytes) ==> out matches Ok(b) && b@ == bytes@,
        read matches Err(err) ==> out matches Err(p) && p.path@ == path@ && p.kind == kind && p.detail@ == err.text(),
{
    match read {
        Ok(bytes) => Ok(bytes),
        Err(err) => Err(Problem { path: path.clone(), kind, detail: err.describe() }),
    }
}

/// What the decoder's answer for the file at `path` comes to: the value it read, or a problem of
/// `kind` at `path` in the decoder's words.
pub fn decoded_outcome<T>(path: &String, kind: ProblemKind, decoded: Result<T, String>) -> (out: Result<T, Problem>)
    ensures
        decoded matches Ok(v) ==> out matches Ok(w) && w == v,
        decoded matches Err(message) ==> out matches Err(p) && p.path@ == path@ && p.kind == kind && p.detail@
            == message@,
{
    match decoded {
        Ok(v) => Ok(v),
        Err(message) => Err(Problem { path: path.clone(), kind, detail: message }),
    }
}

/// Reads the sidecar at `path`: the reader's bytes, decoded. Whatever goes wrong is a problem at
/// `path`, in the words of whichever of the two refused, as [`read_outcome`] and
/// [`decoded_outcome`] state; what the two answer is theirs.
fn read_alias_file<V: Vfs, D: Decoder>(vfs: &V, decoder: &D, path: &String) -> (out: Result<AliasFile, Problem>)
    ensures
        out matches Err(p) ==> p.path@ == path@ && p.kind == ProblemKind::UnparseableAliasFile,
{
    match read_outcome(path, ProblemKind::UnparseableAliasFile, vfs.read_file(path.as_str())) {
        Ok(bytes) => decoded_outcome(path, ProblemKind::UnparseableAliasFile, decoder.alias_file(bytes.as_slice())),
        Err(problem) => Err(problem),
    }
}

/// `b` is `a` with more on the end.
pub open spec fn grows<T>(a: Seq<T>, b: Seq<T>) -> bool {
    a.len() <= b.len() && b.take(a.len() as int) == a
}

/// What a report says of a directory past the depth cap.
pub open spec fn too_deep_text() -> Seq<char> {
    "more than "@ + crate::text::decimal(MAX_DEPTH as nat) + " directories deep; stopped descending"@
}

proof fn lemma_grows_push<T>(a: Seq<T>, b: Seq<T>, x: T)
    requires
        grows(a, b),
    ensures
        grows(a, b.push(x)),
{
    assert(b.push(x).take(a.len() as int) =~= b.take(a.len() as int));
}

proof fn lemma_grows_trans<T>(a: Seq<T>, b: Seq<T>, c: Seq<T>)
    requires
        grows(a, b),
        grows(b, c),
    ensures
        grows(a, c),
{
    assert(c.take(a.len() as int) =~= c.take(b.len() as int).take(a.len() as int));
}

proof fn lemma_grows_refl<T>(a: Seq<T>)
    ensures
        grows(a, a),
{
    assert(a.take(a.len() as int) =~= a);
}

/// What a directory listing comes to: the entries; nothing, when the reader found no directory
/// there; or an unreadable-directory problem at `dir` in the reader's words.
pub fn listing_outcome(dir: &String, listing: Result<Vec<DirEntry>, VfsError>) -> (out: Result<Option<Vec<DirEntry>>, Problem>)
    ensures
        listing matches Ok(entries) ==> out matches Ok(Some(e)) && e@ == entries@,
        listing matches Err(VfsError::NotFound(_)) ==> out matches Ok(None),
        listing matches Err(VfsError::Io { .. }) ==> out matches Err(p) && p.path@ == dir@ && p.kind
            == ProblemKind::UnreadableDirectory && p.detail@ == listing->Err_0.text(),
{
    match listing {
        Ok(entries) => Ok(Some(entries)),
        Err(VfsError::NotFound(_)) => Ok(None),
        Err(err) => Err(Problem { path: dir.clone(), kind: ProblemKind::UnreadableDirectory, detail: err.describe() }),
    }
}

/// The paths of the subdirectories in a listing, in listing order.
pub open spec fn dir_paths(entries: Seq<DirEntry>) -> Seq<Seq<char>>
    decreases entries.len(),
{
    if entries.len() == 0 {
        Seq::empty()
    } else {
        let rest = dir_paths(entries.drop_last());
        if entries.last().is_dir {
            rest.push(entries.last().path@)
        } else {
            rest
        }
    }
}

/// The subdirectories of a listing, in listing order: where a walk descends next.
pub fn subdirectories(entries: &Vec<DirEntry>) -> (out: Vec<String>)
    ensures
        views(out@) == dir_paths(entries@),
{
    let mut out: Vec<String> = Vec::new();
    let mut k: usize = 0;
    while k < entries.len()
        invariant
            k <= entries@.len(),
            views(out@) == dir_paths(entries@.take(k as int)),
        decreases entries@.len() - k,
    {
        proof {
            assert(entries@.take(k + 1).drop_last() =~= entries@.take(k as int));
        }
        if entries[k].is_dir {
            out.push(entries[k].path.clone());
            proof {
                assert(views(out@) =~= views(out@.drop_last()).push(out@.last()@));
            }
        }
        k = k + 1;
    }
    proof {
        assert(entries@.take(entries@.len() as int) =~= entries@);
    }
    out
}

/// The file an entry's sidecar describes, when the entry is a sidecar file.
pub open spec fn entry_target(e: DirEntry) -> Option<Seq<char>> {
    if e.is_dir {
        None
    } else {
        match file_name_of(e.path@) {
            Some(name) => sidecar_target(name),
            None => None,
        }
    }
}

/// The sidecars read in one directory, by the file each describes: its path and its contents.
pub type SidecarTable = Map<Seq<char>, (Seq<char>, AliasFile)>;

/// The view of a table of sidecars.
pub open spec fn sidecar_view(t: Map<Seq<char>, (String, AliasFile)>) -> SidecarTable {
    t.map_values(|v: (String, AliasFile)| (v.0@, v.1))
}

/// The sidecars of the first `n` entries, and the problems their reads made: `reads[k]` is what
/// reading entry `k` gave, and counts only where that entry is a sidecar. A later sidecar for the
/// same file replaces an earlier one.
pub open spec fn sidecars_read(entries: Seq<DirEntry>, reads: Seq<Option<Result<AliasFile, Problem>>>, n: nat) -> (
    SidecarTable,
    Seq<ProblemView>,
)
    decreases n,
{
    if n == 0 {
        (Map::empty(), Seq::empty())
    } else {
        let prev = sidecars_read(entries, reads, (n - 1) as nat);
        let e = entries[n - 1];
        match entry_target(e) {
            None => prev,
            Some(t) => match reads[n - 1] {
                Some(Ok(f)) => (prev.0.insert(t, (e.path@, f)), prev.1),
                Some(Err(p)) => (prev.0, prev.1.push((p.path@, p.kind, p.detail@))),
                None => prev,
            },
        }
    }
}

/// The walk after one entry: a file that may be an asset is decided with the sidecar left for
/// it, which it then uses up.
pub open spec fn file_step(s: (WalkView, SidecarTable), e: DirEntry, ignored: Seq<Seq<char>>, rule: Option<RuleView>) -> (
    WalkView,
    SidecarTable,
) {
    if e.is_dir {
        s
    } else {
        match file_name_of(e.path@) {
            None => s,
            Some(name) => if describes_assets(name, ignored) {
                s
            } else {
                let sidecar = if s.1.contains_key(name) {
                    Some(s.1[name].1)
                } else {
                    None
                };
                (discover_step(s.0, e.path@, name, sidecar, rule), s.1.remove(name))
            },
        }
    }
}

/// [`file_step`] over the first `n` entries, in listing order.
pub open spec fn files_walked(
    start: (WalkView, SidecarTable),
    entries: Seq<DirEntry>,
    ignored: Seq<Seq<char>>,
    rule: Option<RuleView>,
    n: nat,
) -> (WalkView, SidecarTable)
    decreases n,
{
    if n == 0 {
        start
    } else {
        file_step(files_walked(start, entries, ignored, rule, (n - 1) as nat), entries[n - 1], ignored, rule)
    }
}

/// What a report says of a sidecar that describes `target`, a file not in its directory.
pub open spec fn orphan_text(target: Seq<char>) -> Seq<char> {
    "names `"@ + target + "`, which is not in this directory"@
}

/// One orphan report for each of `targets` whose sidecar is still `left`, in that order.
pub open spec fn orphans(targets: Seq<Seq<char>>, left: SidecarTable) -> Seq<ProblemView>
    decreases targets.len(),
{
    if targets.len() == 0 {
        Seq::empty()
    } else {
        let rest = orphans(targets.drop_last(), left);
        let t = targets.last();
        if left.contains_key(t) {
            rest.push((left[t].0, ProblemKind::OrphanAliasFile, orphan_text(t)))
        } else {
            rest
        }
    }
}

/// The files a table's sidecars describe, sorted.
pub open spec fn sorted_targets(table: SidecarTable) -> Seq<Seq<char>> {
    choose|s: Seq<Seq<char>>| sorted_texts(s) && s.to_set() == table.dom()
}

/// A walk after taking in one directory's listing under `rule`: first the problems of the
/// sidecars that could not be read, in listing order; then each file decided in listing order,
/// with the sidecar describing it; then one orphan report for each sidecar no file used, in the
/// sorted order of the files they describe.
pub open spec fn directory_walk(
    w: WalkView,
    entries: Seq<DirEntry>,
    ignored: Seq<Seq<char>>,
    rule: Option<RuleView>,
    reads: Seq<Option<Result<AliasFile, Problem>>>,
) -> WalkView {
    let read = sidecars_read(entries, reads, entries.len());
    let walked = files_walked((WalkView { problems: w.problems + read.1, ..w }, read.0), entries, ignored, rule, entries.len());
    WalkView { problems: walked.0.problems + orphans(sorted_targets(read.0), walked.1), ..walked.0 }
}

/// The rule a directory is walked under: its own, when it has one that reads; else the one it
/// inherits, and a refused rule file is a problem.
pub open spec fn adopted_rule(inherited: Option<RuleView>, own: Option<Result<RuleView, ProblemView>>) -> Option<RuleView> {
    match own {
        Some(Ok(r)) => Some(r),
        _ => inherited,
    }
}

proof fn lemma_discover_step_grows(w: WalkView, path: Seq<char>, name: Seq<char>, sidecar: Option<AliasFile>, rule: Option<RuleView>)
    ensures
        grows(w.assets, discover_step(w, path, name, sidecar, rule).assets),
        grows(w.problems, discover_step(w, path, name, sidecar, rule).problems),
{
    let d = discover_step(w, path, name, sidecar, rule);
    lemma_grows_refl(w.assets);
    lemma_grows_refl(w.problems);
    if d.assets.len() > w.assets.len() {
        lemma_grows_push(w.assets, w.assets, d.assets.last());
        assert(d.assets =~= w.assets.push(d.assets.last()));
    }
    if d.problems.len() == w.problems.len() + 1 {
        lemma_grows_push(w.problems, w.problems, d.problems.last());
        assert(d.problems =~= w.problems.push(d.problems.last()));
    } else if d.problems.len() == w.problems.len() + 2 {
        let mid = w.problems.push(d.problems[w.problems.len() as int]);
        lemma_grows_push(w.problems, w.problems, d.problems[w.problems.len() as int]);
        lemma_grows_push(w.problems, mid, d.problems.last());
        assert(d.problems =~= mid.push(d.problems.last()));
    }
}

proof fn lemma_files_walked_grows(
    start: (WalkView, SidecarTable),
    entries: Seq<DirEntry>,
    ignored: Seq<Seq<char>>,
    rule: Option<RuleView>,
    n: nat,
)
    ensures
        grows(start.0.assets, files_walked(start, entries, ignored, rule, n).0.assets),
        grows(start.0.problems, files_walked(start, entries, ignored, rule, n).0.problems),
    decreases n,
{
    if n == 0 {
        lemma_grows_refl(start.0.assets);
        lemma_grows_refl(start.0.problems);
    } else {
        let prev = files_walked(start, entries, ignored, rule, (n - 1) as nat);
        lemma_files_walked_grows(start, entries, ignored, rule, (n - 1) as nat);
        let e = entries[n - 1];
        if !e.is_dir {
            match file_name_of(e.path@) {
                Some(name) => if !describes_assets(name, ignored) {
                    let sidecar = if prev.1.contains_key(name) {
                        Some(prev.1[name].1)
                    } else {
                        None
                    };
                    lemma_discover_step_grows(prev.0, e.path@, name, sidecar, rule);
                    lemma_grows_trans(start.0.assets, prev.0.assets, discover_step(prev.0, e.path@, name, sidecar, rule).assets);
                    lemma_grows_trans(start.0.problems, prev.0.problems, discover_step(prev.0, e.path@, name, sidecar, rule).problems);
                },
                None => {},
            }
        }
    }
}

proof fn lemma_grows_append<T>(a: Seq<T>, b: Seq<T>)
    ensures
        grows(a, a + b),
{
    assert((a + b).take(a.len() as int) =~= a);
}

/// Taking in a directory never loses what the walk had found.
proof fn lemma_directory_walk_grows(
    w: WalkView,
    entries: Seq<DirEntry>,
    ignored: Seq<Seq<char>>,
    rule: Option<RuleView>,
    reads: Seq<Option<Result<AliasFile, Problem>>>,
)
    ensures
        grows(w.assets, directory_walk(w, entries, ignored, rule, reads).assets),
        grows(w.problems, directory_walk(w, entries, ignored, rule, reads).problems),
{
    let read = sidecars_read(entries, reads, entries.len());
    let first = WalkView { problems: w.problems + read.1, ..w };
    let walked = files_walked((first, read.0), entries, ignored, rule, entries.len());
    lemma_files_walked_grows((first, read.0), entries, ignored, rule, entries.len());
    lemma_grows_append(w.problems, read.1);
    lemma_grows_trans(w.problems, first.problems, walked.0.problems);
    lemma_grows_append(walked.0.problems, orphans(sorted_targets(read.0), walked.1));
    lemma_grows_trans(w.problems, walked.0.problems, walked.0.problems + orphans(sorted_targets(read.0), walked.1));
}

impl Walk {
    /// Pushes one problem.
    fn report(&mut self, problem: Problem)
        requires
            walk_ok(old(self)@),
        ensures
            final(self)@.assets == old(self)@.assets,
            final(self)@.claimed == old(self)@.claimed,
            final(self)@.problems == old(self)@.problems.push((problem.path@, problem.kind, problem.detail@)),
            walk_ok(final(self)@),
    {
        let ghost before = self@;
        self.problems.push(problem);
        proof {
            assert(self@.problems =~= before.problems.push((problem.path@, problem.kind, problem.detail@)));
        }
    }

    /// The rule a directory is walked under: its own rule file's, when it has one that reads;
    /// else `inherited`, and a rule file that does not read is reported.
    pub fn adopt_rules(&mut self, inherited: Option<CompiledRules>, own: Option<Result<CompiledRules, Problem>>) -> (out: Option<
        CompiledRules,
    >)
        requires
            walk_ok(old(self)@),
        ensures
            walk_ok(final(self)@),
            final(self)@.assets == old(self)@.assets,
            final(self)@.claimed == old(self)@.claimed,
            own matches Some(Ok(c)) ==> out == Some(c) && final(self)@.problems == old(self)@.problems,
            own matches Some(Err(p)) ==> out == inherited && final(self)@.problems == old(self)@.problems.push(
                (p.path@, p.kind, p.detail@),
            ),
            own is None ==> out == inherited && final(self)@.problems == old(self)@.problems,
    {
        match own {
            Some(Ok(compiled)) => Some(compiled),
            Some(Err(problem)) => {
                self.report(problem);
                inherited
            },
            None => inherited,
        }
    }

    /// Takes in one directory's listing, walked under `rule`, as [`directory_walk`] states:
    /// `reads[k]` is what reading entry `k` as a sidecar gave, where entry `k` is one.
    pub fn take_directory(
        &mut self,
        entries: &Vec<DirEntry>,
        ignored: &Vec<String>,
        rule: Option<&CompiledRules>,
        reads: &Vec<Option<Result<AliasFile, Problem>>>,
    )
        requires
            walk_ok(old(self)@),
            reads@.len() == entries@.len(),
        ensures
            final(self)@ == directory_walk(old(self)@, entries@, views(ignored@), rule_view(rule), reads@),
            walk_ok(final(self)@),
    {
        let ghost start = self@;
        let mut sidecars: AliasTable<(String, AliasFile)> = AliasTable::new();
        let mut targets: Vec<String> = Vec::new();
        proof {
            assert(sidecar_view(sidecars@) =~= Map::<Seq<char>, (Seq<char>, AliasFile)>::empty());
            assert(views(targets@).to_set() =~= Set::<Seq<char>>::empty());
            assert(start.problems + Seq::<ProblemView>::empty() =~= start.problems);
        }
        let mut k: usize = 0;
        while k < entries.len()
            invariant
                k <= entries@.len(),
                reads@.len() == entries@.len(),
                walk_ok(self@),
                self@.assets == start.assets,
                self@.claimed == start.claimed,
                sidecar_view(sidecars@) == sidecars_read(entries@, reads@, k as nat).0,
                self@.problems == start.problems + sidecars_read(entries@, reads@, k as nat).1,
                sorted_texts(views(targets@)),
                views(targets@).to_set() == sidecars_read(entries@, reads@, k as nat).0.dom(),
            decreases entries@.len() - k,
        {
            let entry = &entries[k];
            let ghost prev = sidecars_read(entries@, reads@, k as nat);
            let ghost before = self@;
            let ghost table_before = sidecars@;
            if !entry.is_dir {
                if let Some(name) = file_name(entry.path.as_str()) {
                    if let Some(target) = alias_sidecar_target(name.as_str()) {
                        proof {
                            assert(entry_target(entries@[k as int]) == Some(target@));
                        }
                        match &reads[k] {
                            Some(Ok(file)) => {
                                let path = entry.path.clone();
                                sidecars.insert(target.as_str(), (path, file.duplicate()));
                                insert_sorted(&mut targets, &target);
                                proof {
                                    assert(sidecar_view(sidecars@) =~= prev.0.insert(target@, (entry.path@, *file)));
                                }
                            },
                            Some(Err(problem)) => {
                                self.report(problem.duplicate());
                                proof {
                                    assert(self@.problems =~= start.problems + prev.1.push(
                                        (problem.path@, problem.kind, problem.detail@),
                                    ));
                                }
                            },
                            None => {},
                        }
                    } else {
                        proof {
                            assert(entry_target(entries@[k as int]) is None);
                        }
                    }
                } else {
                    proof {
                        assert(entry_target(entries@[k as int]) is None);
                    }
                }
            }
            k = k + 1;
        }
        let ghost read = sidecars_read(entries@, reads@, entries@.len() as nat);
        let ghost ignored_view = views(ignored@);
        let ghost rule_v = rule_view(rule);
        let ghost mid = self@;
        proof {
            assert(mid == (WalkView { problems: start.problems + read.1, ..start }));
        }
        let mut k: usize = 0;
        while k < entries.len()
            invariant
                k <= entries@.len(),
                walk_ok(self@),
                ignored_view == views(ignored@),
                rule_v == rule_view(rule),
                read.0.dom() == views(targets@).to_set(),
                sorted_texts(views(targets@)),
                self@ == files_walked((mid, read.0), entries@, ignored_view, rule_v, k as nat).0,
                sidecar_view(sidecars@) == files_walked((mid, read.0), entries@, ignored_view, rule_v, k as nat).1,
            decreases entries@.len() - k,
        {
            let entry = &entries[k];
            let ghost prev = files_walked((mid, read.0), entries@, ignored_view, rule_v, k as nat);
            if !entry.is_dir {
                if let Some(name) = file_name(entry.path.as_str()) {
                    if !is_not_an_asset(name.as_str(), ignored) {
                        let sidecar = match sidecars.get(name.as_str()) {
                            Some(pair) => Some(pair.1.duplicate()),
                            None => None,
                        };
                        proof {
                            let s = if prev.1.contains_key(name@) {
                                Some(prev.1[name@].1)
                            } else {
                                None
                            };
                            assert(sidecar == s);
                        }
                        sidecars.remove(name.as_str());
                        proof {
                            assert(sidecar_view(sidecars@) =~= prev.1.remove(name@));
                        }
                        self.discover(&entry.path, name.as_str(), sidecar, rule);
                    }
                }
            }
            k = k + 1;
        }
        let ghost walked = files_walked((mid, read.0), entries@, ignored_view, rule_v, entries@.len() as nat);
        let ghost left = sidecar_view(sidecars@);
        proof {
            assert(walked.0.problems + Seq::<ProblemView>::empty() =~= walked.0.problems);
            assert(views(targets@).take(0) =~= Seq::<Seq<char>>::empty());
        }
        let mut t: usize = 0;
        while t < targets.len()
            invariant
                t <= targets@.len(),
                walk_ok(self@),
                left == sidecar_view(sidecars@),
                self@ == (WalkView { problems: walked.0.problems + orphans(views(targets@).take(t as int), left), ..walked.0 }),
            decreases targets@.len() - t,
        {
            let target = &targets[t];
            proof {
                assert(views(targets@).take(t + 1).drop_last() =~= views(targets@).take(t as int));
                assert(views(targets@).take(t + 1).last() == target@);
            }
            match sidecars.get(target.as_str()) {
                Some(pair) => {
                    let mut detail = String::from_str("names `");
                    detail.append(target.as_str());
                    detail.append("`, which is not in this directory");
                    let ghost before = self@.problems;
                    self.report(Problem { path: pair.0.clone(), kind: ProblemKind::OrphanAliasFile, detail });
                    proof {
                        assert(left[target@].0 == pair.0@);
                        assert(self@.problems =~= walked.0.problems + orphans(views(targets@).take(t + 1), left));
                    }
                },
                None => {},
            }
            t = t + 1;
        }
        proof {
            assert(views(targets@).take(targets@.len() as int) =~= views(targets@));
            assert(sorted_texts(sorted_targets(read.0)) && sorted_targets(read.0).to_set() == read.0.dom());
            crate::text::lemma_sorted_texts_unique(views(targets@), sorted_targets(read.0));
        }
    }

    /// Visits one directory: adopts its rule if it has one, reads its sidecars, decides each of
    /// its files, reports the sidecars left over, then descends. `depth` counts directories below
    /// the walk's root; past [`MAX_DEPTH`] the directory is reported and not read at all.
    ///
    /// What the directory holds is the reader's answer, so the walk is stated for some answers
    /// of the reader, as [`walked`] states: the listing as [`listing_outcome`] takes it, the rule
    /// as [`Walk::adopt_rules`] adopts it, the files and sidecars as [`Walk::take_directory`] takes
    /// them, then each subdirectory, in listing order, walked the same way one level down under
    /// that rule. Whatever it answers, every asset found has a valid alias of its own, and nothing
    /// found before is lost.
    pub fn visit<V: Vfs, D: Decoder>(
        &mut self,
        vfs: &V,
        decoder: &D,
        ignored: &Vec<String>,
        dir: String,
        inherited: Option<CompiledRules>,
        depth: usize,
    )
        requires
            walk_ok(old(self)@),
        ensures
            walk_ok(final(self)@),
            grows(old(self)@.assets, final(self)@.assets),
            grows(old(self)@.problems, final(self)@.problems),
            walked(old(self)@, final(self)@, dir@, owned_rule_view(inherited), depth as int, views(ignored@)),
            depth > MAX_DEPTH ==> final(self)@.assets == old(self)@.assets && final(self)@.problems == old(self)@.problems.push(
                (dir@, ProblemKind::DirectoryTooDeep, too_deep_text()),
            ),
        decreases MAX_DEPTH + 1 - depth,
    {
        let ghost start = self@;
        let ghost inherited_view = owned_rule_view(inherited);
        let ghost ignored_view = views(ignored@);
        proof {
            lemma_grows_refl(start.assets);
            lemma_grows_refl(start.problems);
        }
        if depth > MAX_DEPTH {
            let mut detail = String::from_str("more than ");
            let cap = crate::text::decimal_text(64);
            detail.append(cap.as_str());
            detail.append(" directories deep; stopped descending");
            self.report(Problem { path: dir, kind: ProblemKind::DirectoryTooDeep, detail });
            proof {
                lemma_grows_push(start.problems, start.problems, (dir@, ProblemKind::DirectoryTooDeep, too_deep_text()));
                assert(self@ == (WalkView {
                    problems: start.problems.push((dir@, ProblemKind::DirectoryTooDeep, too_deep_text())),
                    ..start
                }));
                assert(walked_by(start, self@, dir@, inherited_view, depth as int, ignored_view, ReadTree::Missing));
            }
            return;
        }
        let entries = match listing_outcome(&dir, vfs.read_dir(dir.as_str())) {
            Ok(Some(entries)) => entries,
            Ok(None) => {
                proof {
                    assert(walked_by(start, self@, dir@, inherited_view, depth as int, ignored_view, ReadTree::Missing));
                }
                return;
            },
            Err(problem) => {
                let ghost text = problem.detail@;
                self.report(problem);
                proof {
                    lemma_grows_push(start.problems, start.problems, self@.problems.last());
                    assert(self@ == (WalkView {
                        problems: start.problems.push((dir@, ProblemKind::UnreadableDirectory, text)),
                        ..start
                    }));
                    assert(walked_by(start, self@, dir@, inherited_view, depth as int, ignored_view, ReadTree::Unreadable(text)));
                }
                return;
            },
        };
        let own = match find_rules_file(&entries) {
            Some(k) => Some(read_rules(vfs, decoder, &entries[k].path, &dir)),
            None => None,
        };
        let ghost own_view = rule_outcome_view(own);
        proof {
            match own {
                Some(_) => {
                    let k = choose|k: int| 0 <= k < entries@.len() && is_rules_entry(entries@[k]);
                },
                None => {},
            }
        }
        let rules = self.adopt_rules(inherited, own);
        let ghost rule_v = owned_rule_view(rules);
        proof {
            if self@.problems != start.problems {
                lemma_grows_push(start.problems, start.problems, self@.problems.last());
            }
            assert(self@ == rule_adopted(start, own_view));
            assert(rule_v == adopted_rule(inherited_view, own_view));
        }
        let mut reads: Vec<Option<Result<AliasFile, Problem>>> = Vec::new();
        let mut k: usize = 0;
        while k < entries.len()
            invariant
                k <= entries@.len(),
                reads@.len() == k,
                forall|j: int| 0 <= j < k ==> (entry_target(#[trigger] entries@[j]) is Some <==> reads@[j] is Some),
                forall|j: int|
                    0 <= j < k ==> (#[trigger] reads@[j] matches Some(Err(p)) ==> p.path@ == entries@[j].path@ && p.kind
                        == ProblemKind::UnparseableAliasFile),
            decreases entries@.len() - k,
        {
            let entry = &entries[k];
            let mut read: Option<Result<AliasFile, Problem>> = None;
            if !entry.is_dir {
                if let Some(name) = file_name(entry.path.as_str()) {
                    if alias_sidecar_target(name.as_str()).is_some() {
                        read = Some(read_alias_file(vfs, decoder, &entry.path));
                    }
                }
            }
            proof {
                assert(entry_target(entries@[k as int]) is Some <==> read is Some);
            }
            reads.push(read);
            proof {
                assert(reads@[k as int] == read);
            }
            k = k + 1;
        }
        proof {
            assert(answers_fit(dir@, entries@, own_view, reads@));
        }
        let ghost before = self@;
        let rule_ref = rules.as_ref();
        self.take_directory(&entries, ignored, rule_ref, &reads);
        let ghost first_mid = self@;
        proof {
            assert(rule_view(rule_ref) == rule_v);
            lemma_directory_walk_grows(before, entries@, views(ignored@), rule_view(rule_ref), reads@);
            lemma_grows_trans(start.assets, before.assets, self@.assets);
            lemma_grows_trans(start.problems, before.problems, self@.problems);
        }
        let subdirs = subdirectories(&entries);
        let ghost subs = dir_paths(entries@);
        let ghost mut mids: Seq<WalkView> = seq![first_mid];
        let ghost mut subtrees: Seq<ReadTree> = Seq::empty();
        let mut k: usize = 0;
        while k < subdirs.len()
            invariant
                k <= subdirs@.len(),
                walk_ok(self@),
                grows(start.assets, self@.assets),
                grows(start.problems, self@.problems),
                depth <= MAX_DEPTH,
                views(subdirs@) == subs,
                rule_v == owned_rule_view(rules),
                ignored_view == views(ignored@),
                mids.len() == k + 1,
                mids[0] == first_mid,
                mids.last() == self@,
                subtrees.len() == k,
                forall|j: int|
                    0 <= j < k ==> #[trigger] walked_by(mids[j], mids[j + 1], subs[j], rule_v, depth + 1, ignored_view, subtrees[j]),
            decreases subdirs@.len() - k,
        {
            let ghost before = self@;
            let inherit = match &rules {
                Some(r) => Some(r.duplicate()),
                None => None,
            };
            proof {
                assert(owned_rule_view(inherit) == rule_v);
                assert(subdirs@[k as int]@ == subs[k as int]);
            }
            self.visit(vfs, decoder, ignored, subdirs[k].clone(), inherit, depth + 1);
            proof {
                lemma_grows_trans(start.assets, before.assets, self@.assets);
                lemma_grows_trans(start.problems, before.problems, self@.problems);
                let t = choose|t: ReadTree| #[trigger] walked_by(before, self@, subs[k as int], rule_v, depth + 1, ignored_view, t);
                let old_mids = mids;
                let old_subtrees = subtrees;
                mids = mids.push(self@);
                subtrees = subtrees.push(t);
                assert forall|j: int| 0 <= j < k + 1 implies #[trigger] walked_by(
                    mids[j],
                    mids[j + 1],
                    subs[j],
                    rule_v,
                    depth + 1,
                    ignored_view,
                    subtrees[j],
                ) by {
                    if j < k {
                        assert(mids[j] == old_mids[j] && mids[j + 1] == old_mids[j + 1] && subtrees[j] == old_subtrees[j]);
                    } else {
                        assert(mids[j] == before && mids[j + 1] == self@ && subtrees[j] == t);
                    }
                }
            }
            k = k + 1;
        }
        proof {
            let rule = adopted_rule(inherited_view, own_view);
            assert(rule == rule_v);
            assert(depth <= MAX_DEPTH);
            assert(answers_fit(dir@, entries@, own_view, reads@));
            assert(subs.len() == subdirs@.len());
            assert(mids.len() == subs.len() + 1);
            assert(mids[0] == directory_walk(rule_adopted(start, own_view), entries@, ignored_view, rule, reads@));
            assert(mids.last() == self@);
            lemma_subtrees_walked(mids, subs, rule, depth as int, ignored_view, subtrees, subs.len() as int);
            let t = ReadTree::Listed { entries: entries@, own: own_view, reads: reads@, mids, subtrees };
            assert(walked_by(start, self@, dir@, inherited_view, depth as int, ignored_view, t));
            assert(walked(start, self@, dir@, inherited_view, depth as int, ignored_view));
        }
    }
}

/// The view of a rule held by value, if there is one.
pub open spec fn owned_rule_view(rule: Option<CompiledRules>) -> Option<RuleView> {
    match rule {
        Some(r) => Some(r@),
        None => None,
    }
}

/// What reading a directory's rule file came to, as the contracts see it: no rule file; its
/// rule; or the problem it made.
pub type RuleOutcome = Option<Result<RuleView, ProblemView>>;

/// The contract view of a rule file's outcome.
pub open spec fn rule_outcome_view(own: Option<Result<CompiledRules, Problem>>) -> RuleOutcome {
    match own {
        Some(Ok(c)) => Some(Ok(c@)),
        Some(Err(p)) => Some(Err((p.path@, p.kind, p.detail@))),
        None => None,
    }
}

/// The walk once a directory's rule file is taken in: a refused one is one problem.
pub open spec fn rule_adopted(w: WalkView, own: RuleOutcome) -> WalkView {
    match own {
        Some(Err(p)) => WalkView { problems: w.problems.push(p), ..w },
        _ => w,
    }
}

/// `own` and `reads` are answers a reader can give for the listing `entries` of `dir`: a rule
/// outcome exactly when the listing holds a rule file, a rule for this directory, and a read
/// exactly for each sidecar, a refused one reported at the sidecar.
pub open spec fn answers_fit(
    dir: Seq<char>,
    entries: Seq<DirEntry>,
    own: RuleOutcome,
    reads: Seq<Option<Result<AliasFile, Problem>>>,
) -> bool {
    &&& (own is Some <==> exists|j: int| 0 <= j < entries.len() && #[trigger] is_rules_entry(entries[j]))
    &&& (own matches Some(Ok(r)) ==> r.dir == dir)
    &&& (own matches Some(Err(p)) ==> p.1 == ProblemKind::UnparseableRules)
    &&& reads.len() == entries.len()
    &&& forall|k: int| 0 <= k < entries.len() ==> (entry_target(#[trigger] entries[k]) is Some <==> reads[k] is Some)
    &&& forall|k: int|
        0 <= k < reads.len() ==> (#[trigger] reads[k] matches Some(Err(p)) ==> p.path@ == entries[k].path@ && p.kind
            == ProblemKind::UnparseableAliasFile)
}

/// What the reader answered for one directory, and below it.
pub enum ReadTree {
    /// There is no such directory.
    Missing,
    /// The directory could not be listed; the reader's words.
    Unreadable(Seq<char>),
    /// The listing; what its rule file and its sidecars came to; the walk after the directory's
    /// own files and after each subdirectory; and what the reader answered for each subdirectory.
    Listed {
        entries: Seq<DirEntry>,
        own: RuleOutcome,
        reads: Seq<Option<Result<AliasFile, Problem>>>,
        mids: Seq<WalkView>,
        subtrees: Seq<ReadTree>,
    },
}

/// Each of the first `n` subdirectories `subs` walked, in order, one level below `depth`, under
/// `rule`, as the reader answered in `subtrees`: the walk going from `mids[k]` to `mids[k + 1]`.
pub open spec fn subtrees_walked(
    mids: Seq<WalkView>,
    subs: Seq<Seq<char>>,
    rule: Option<RuleView>,
    depth: int,
    ignored: Seq<Seq<char>>,
    subtrees: Seq<ReadTree>,
    n: int,
) -> bool
    decreases subtrees, n,
{
    if n <= 0 || n > subtrees.len() {
        true
    } else {
        &&& subtrees_walked(mids, subs, rule, depth, ignored, subtrees, n - 1)
        &&& walked_by(mids[n - 1], mids[n], subs[n - 1], rule, depth + 1, ignored, subtrees[n - 1])
    }
}

/// The walk of `dir`, `depth` levels below the root and inheriting `inherited`, from `before` to
/// `after`, when the reader answers as `t` says: past [`MAX_DEPTH`], one too-deep problem and
/// nothing read; nothing for a directory that is not there; one unreadable-directory problem for
/// one that cannot be listed; else the rule file taken in, the directory's own files and
/// sidecars taken in under the rule it adopts, then each subdirectory walked in listing order,
/// one level down, under that rule.
pub open spec fn walked_by(
    before: WalkView,
    after: WalkView,
    dir: Seq<char>,
    inherited: Option<RuleView>,
    depth: int,
    ignored: Seq<Seq<char>>,
    t: ReadTree,
) -> bool
    decreases t, 0int,
{
    if depth > MAX_DEPTH {
        after == (WalkView { problems: before.problems.push((dir, ProblemKind::DirectoryTooDeep, too_deep_text())), ..before })
    } else {
        match t {
            ReadTree::Missing => after == before,
            ReadTree::Unreadable(text) => after == (WalkView {
                problems: before.problems.push((dir, ProblemKind::UnreadableDirectory, text)),
                ..before
            }),
            ReadTree::Listed { entries, own, reads, mids, subtrees } => {
                let rule = adopted_rule(inherited, own);
                let subs = dir_paths(entries);
                &&& answers_fit(dir, entries, own, reads)
                &&& mids.len() == subs.len() + 1
                &&& subtrees.len() == subs.len()
                &&& mids[0] == directory_walk(rule_adopted(before, own), entries, ignored, rule, reads)
                &&& mids.last() == after
                &&& subtrees_walked(mids, subs, rule, depth, ignored, subtrees, subs.len() as int)
            },
        }
    }
}

/// The walk of `dir` from `before` to `after`, for some answers of the reader, as [`walked_by`]
/// states.
pub open spec fn walked(
    before: WalkView,
    after: WalkView,
    dir: Seq<char>,
    inherited: Option<RuleView>,
    depth: int,
    ignored: Seq<Seq<char>>,
) -> bool {
    exists|t: ReadTree| #[trigger] walked_by(before, after, dir, inherited, depth, ignored, t)
}

proof fn lemma_subtrees_walked(
    mids: Seq<WalkView>,
    subs: Seq<Seq<char>>,
    rule: Option<RuleView>,
    depth: int,
    ignored: Seq<Seq<char>>,
    subtrees: Seq<ReadTree>,
    n: int,
)
    requires
        n <= subtrees.len(),
        forall|k: int|
            0 <= k < n ==> #[trigger] walked_by(mids[k], mids[k + 1], subs[k], rule, depth + 1, ignored, subtrees[k]),
    ensures
        subtrees_walked(mids, subs, rule, depth, ignored, subtrees, n),
    decreases n,
{
    if n > 0 {
        lemma_subtrees_walked(mids, subs, rule, depth, ignored, subtrees, n - 1);
        assert(walked_by(mids[n - 1], mids[(n - 1) + 1], subs[n - 1], rule, depth + 1, ignored, subtrees[n - 1]));
    }
}

/// A walk that has found nothing, as the contracts see it.
pub open spec fn empty_walk() -> WalkView {
    WalkView { assets: Seq::empty(), claimed: Map::empty(), problems: Seq::empty() }
}

/// `scan` is what walking the tree at `root` from nothing finds, for some answers of the reader.
pub open spec fn scan_walked(scan: AliasScan, root: Seq<char>, ignored: Seq<Seq<char>>) -> bool {
    exists|w: WalkView|
        #[trigger] walked(empty_walk(), w, root, None, 0, ignored) && asset_views(scan.assets@) == w.assets
            && problem_views(scan.problems@) == w.problems
}

/// Everything one alias walk found.
pub struct AliasScan {
    /// In walk order: sorted by path, files before the subdirectories beside them.
    pub assets: Vec<DiscoveredAsset>,
    pub problems: Vec<Problem>,
}

/// The index the assets fold into, in order: a later claim replaces an earlier one, and an
/// alias that breaks the rule is left out.
pub open spec fn index_of_assets(assets: Seq<AssetView>) -> Map<Seq<char>, Seq<char>>
    decreases assets.len(),
{
    if assets.len() == 0 {
        Map::empty()
    } else {
        let rest = index_of_assets(assets.drop_last());
        let a = assets.last();
        if valid_alias(a.0) {
            rest.insert(a.0, a.1)
        } else {
            rest
        }
    }
}

impl AliasScan {
    /// Folds the discovered assets into an index, in the order they were found.
    pub fn to_index(&self) -> (out: ContentIndex)
        ensures
            out@ == index_of_assets(asset_views(self.assets@)),
    {
        let ghost all = asset_views(self.assets@);
        let mut index = ContentIndex::new();
        let mut k: usize = 0;
        while k < self.assets.len()
            invariant
                k <= self.assets@.len(),
                all == asset_views(self.assets@),
                index@ == index_of_assets(all.take(k as int)),
            decreases self.assets@.len() - k,
        {
            proof {
                assert(all.take(k + 1).drop_last() =~= all.take(k as int));
            }
            let _ = index.insert(self.assets[k].alias.as_str(), self.assets[k].path.as_str());
            k = k + 1;
        }
        proof {
            assert(all.take(all.len() as int) =~= all);
        }
        index
    }
}

/// Discovers every addressable asset under `root`. `ignored_file_names` names files the
/// caller's own format owns; rule files, sidecars and `.meta` files are never assets either.
pub fn scan_aliases<V: Vfs, D: Decoder>(vfs: &V, decoder: &D, root: &str, ignored_file_names: &Vec<String>) -> (out: AliasScan)
    ensures
        forall|k: int| 0 <= k < out.assets@.len() ==> valid_alias(#[trigger] out.assets@[k].alias@),
        forall|j: int, k: int|
            0 <= j < k < out.assets@.len() ==> #[trigger] out.assets@[j].alias@ != #[trigger] out.assets@[k].alias@,
        scan_walked(out, root@, views(ignored_file_names@)),
{
    let mut walk = Walk::new();
    proof {
        assert(walk@.assets =~= Seq::<AssetView>::empty());
        assert(walk@.problems =~= Seq::<ProblemView>::empty());
        assert(walk@ == empty_walk());
    }
    walk.visit(vfs, decoder, ignored_file_names, String::from_str(root), None, 0);
    let ghost w = walk@;
    let out = AliasScan { assets: walk.assets, problems: walk.problems };
    proof {
        assert(walked(empty_walk(), w, root@, None, 0, views(ignored_file_names@)));
        assert(asset_views(out.assets@) == w.assets && problem_views(out.problems@) == w.problems);
        assert forall|k: int| 0 <= k < out.assets@.len() implies valid_alias(#[trigger] out.assets@[k].alias@) by {
            assert(w.assets[k].0 == out.assets@[k].alias@);
        }
        assert forall|j: int, k: int| 0 <= j < k < out.assets@.len() implies #[trigger] out.assets@[j].alias@ != #[trigger] out.assets@[k].alias@ by {
            assert(w.assets[k].0 == out.assets@[k].alias@);
            assert(w.assets[j].0 == out.assets@[j].alias@);
        }
    }
    out
}

} // verus!
