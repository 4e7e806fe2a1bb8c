//! What a `manifest.toml` says about a package, and what the user's load order file says about
//! all of them.

use crate::alias::problem::DiscoveredAsset;
use crate::text::{chars_of, decimal, decimal_text, string_of};
use vstd::prelude::*;

verus! {

/// A package version in semver's terms: three numbers, then an optional prerelease and build
/// tag. Both tags are the text after `-` and `+`, empty when absent.
#[derive(Debug, Clone, PartialEq, Eq)]
pub struct Version {
    pub major: u64,
    pub minor: u64,
    pub patch: u64,
    pub pre: String,
    pub build: String,
}

/// How a version is written: `1.2.3`, `1.2.3-beta.1`, `1.2.3+abc`.
pub open spec fn version_text(v: Version) -> Seq<char> {
    decimal(v.major as nat) + "."@ + decimal(v.minor as nat) + "."@ + decimal(v.patch as nat) + (
    if v.pre@.len() > 0 {
        "-"@ + v.pre@
    } else {
        Seq::empty()
    }) + (if v.build@.len() > 0 {
        "+"@ + v.build@
    } else {
        Seq::empty()
    })
}

impl Version {
    /// `major.minor.patch` with no prerelease and no build tag.
    pub fn new(major: u64, minor: u64, patch: u64) -> (out: Version)
        ensures
            out.major == major,
            out.minor == minor,
            out.patch == patch,
            out.pre@ == Seq::<char>::empty(),
            out.build@ == Seq::<char>::empty(),
    {
        Version { major, minor, patch, pre: String::new(), build: String::new() }
    }

    /// A copy of this version.
    pub fn duplicate(&self) -> (out: Version)
        ensures
            out.major == self.major,
            out.minor == self.minor,
            out.patch == self.patch,
            out.pre@ == self.pre@,
            out.build@ == self.build@,
            version_text(out) == version_text(*self),
    {
        Version {
            major: self.major,
            minor: self.minor,
            patch: self.patch,
            pre: self.pre.clone(),
            build: self.build.clone(),
        }
    }

    /// Executable [`version_text`].
    pub fn to_text(&self) -> (out: String)
        ensures
            out@ == version_text(*self),
    {
        let mut out = decimal_text(self.major);
        out.append(".");
        let minor = decimal_text(self.minor);
        out.append(minor.as_str());
        out.append(".");
        let patch = decimal_text(self.patch);
        out.append(patch.as_str());
        let pre = chars_of(self.pre.as_str());
        if pre.len() > 0 {
            out.append("-");
            out.append(self.pre.as_str());
        }
        let build = chars_of(self.build.as_str());
        if build.len() > 0 {
            out.append("+");
            out.append(self.build.as_str());
        }
        out
    }
}

/// Whether semver reads `requirement` as a version requirement (`>= 2.0`, `^1`, `*`).
pub uninterp spec fn semver_requirement_valid(requirement: Seq<char>) -> bool;

/// Whether semver reads both texts, and the version meets the requirement.
pub uninterp spec fn semver_accepts(requirement: Seq<char>, version: Seq<char>) -> bool;

/// `semver::VersionReq::parse`: whether semver reads `requirement` as a version requirement.
/// Of which texts those are, only this is claimed: `*`, the wildcard semver reads as any
/// version, is one.
#[verifier::external_body]
fn requirement_is_valid(requirement: &str) -> (out: bool)
    ensures
        out == semver_requirement_valid(requirement@),
        requirement@ == "*"@ ==> out,
{
    semver::VersionReq::parse(requirement).is_ok()
}

/// `semver::VersionReq::matches`, on a requirement and a version given as text and parsed by
/// `semver` on the way in. A text semver does not read counts as not met. Which versions meet
/// which requirements is semver's and is not stated here.
#[verifier::external_body]
pub(crate) fn requirement_accepts(requirement: &str, version: &str) -> (out: bool)
    ensures
        out == semver_accepts(requirement@, version@),
{
    match (semver::VersionReq::parse(requirement), semver::Version::parse(version)) {
        (Ok(req), Ok(v)) => req.matches(&v),
        _ => false,
    }
}

/// One `requires` entry: a package id, and the versions of it that will do.
#[derive(Debug, Clone, PartialEq, Eq)]
pub struct Requirement {
    pub id: String,
    /// A semver requirement such as `>= 2.0`; `*` when the entry names only the id.
    pub req: String,
}

/// Why a `requires` entry could not be read.
#[derive(Debug, Clone, PartialEq, Eq)]
pub enum RequirementError {
    /// No package id at the start of the entry.
    MissingId,
    /// What follows the id is not a version requirement semver reads.
    BadVersion(String),
}

/// A character a package id may hold.
pub open spec fn is_id_char(c: char) -> bool {
    ('a' <= c && c <= 'z') || ('A' <= c && c <= 'Z') || ('0' <= c && c <= '9') || c == '_' || c
        == '-'
}

/// A space or a tab.
pub open spec fn is_blank(c: char) -> bool {
    c == ' ' || c == '\t'
}

/// How many leading characters of `s` satisfy `f`.
pub open spec fn leading(s: Seq<char>, f: spec_fn(char) -> bool) -> nat
    decreases s.len(),
{
    if s.len() > 0 && f(s[0]) {
        1 + leading(s.drop_first(), f)
    } else {
        0
    }
}

/// `s` without its leading blanks.
pub open spec fn trim_start(s: Seq<char>) -> Seq<char> {
    s.skip(leading(s, |c: char| is_blank(c)) as int)
}

/// The id and the requirement a `requires` entry is read as: the id is the leading run of id
/// characters after any blanks, and the requirement is what follows it with its leading blanks
/// dropped, or `*` when nothing follows.
pub open spec fn requirement_parts(text: Seq<char>) -> (Seq<char>, Seq<char>) {
    let t = trim_start(text);
    let n = leading(t, |c: char| is_id_char(c));
    let rest = trim_start(t.skip(n as int));
    (t.take(n as int), if rest.len() == 0 {
        "*"@
    } else {
        rest
    })
}

/// How many leading characters of `s[from..]` satisfy the id-or-blank test.
fn run_length(s: &Vec<char>, from: usize, ids: bool) -> (out: usize)
    requires
        from <= s@.len(),
    ensures
        from + out <= s@.len(),
        ids ==> out == leading(s@.skip(from as int), |c: char| is_id_char(c)),
        !ids ==> out == leading(s@.skip(from as int), |c: char| is_blank(c)),
{
    let mut i = from;
    while i < s.len() && run_char(s[i], ids)
        invariant
            from <= i <= s@.len(),
            ids ==> forall|k: int| from <= k < i ==> is_id_char(#[trigger] s@[k]),
            !ids ==> forall|k: int| from <= k < i ==> is_blank(#[trigger] s@[k]),
        decreases s@.len() - i,
    {
        i = i + 1;
    }
    proof {
        lemma_leading_run(s@, from as int, i as int, ids);
    }
    i - from
}

fn run_char(c: char, ids: bool) -> (out: bool)
    ensures
        ids ==> out == is_id_char(c),
        !ids ==> out == is_blank(c),
{
    if ids {
        is_id(c)
    } else {
        c == ' ' || c == '\t'
    }
}

fn is_id(c: char) -> (out: bool)
    ensures
        out == is_id_char(c),
{
    ('a' <= c && c <= 'z') || ('A' <= c && c <= 'Z') || ('0' <= c && c <= '9') || c == '_' || c
        == '-'
}

proof fn lemma_leading_run(s: Seq<char>, from: int, end: int, ids: bool)
    requires
        0 <= from <= end <= s.len(),
        ids ==> forall|k: int| from <= k < end ==> is_id_char(#[trigger] s[k]),
        !ids ==> forall|k: int| from <= k < end ==> is_blank(#[trigger] s[k]),
        end < s.len() ==> (ids ==> !is_id_char(s[end])),
        end < s.len() ==> (!ids ==> !is_blank(s[end])),
    ensures
        ids ==> end - from == leading(s.skip(from), |c: char| is_id_char(c)),
        !ids ==> end - from == leading(s.skip(from), |c: char| is_blank(c)),
    decreases end - from,
{
    if from < end {
        lemma_leading_run(s, from + 1, end, ids);
        assert(s.skip(from).drop_first() =~= s.skip(from + 1));
    } else {
        if end < s.len() {
            assert(s.skip(from)[0] == s[end]);
        }
    }
}

impl Requirement {
    /// Reads one `requires` entry: `core`, `core >= 2.0`, `core^1`.
    pub fn parse(text: &str) -> (out: Result<Requirement, RequirementError>)
        ensures
            requirement_parts(text@).0.len() == 0 ==> out == Err::<Requirement, _>(
                RequirementError::MissingId,
            ),
            requirement_parts(text@).0.len() > 0 && !semver_requirement_valid(
                requirement_parts(text@).1,
            ) ==> (out matches Err(RequirementError::BadVersion(v)) && v@ == requirement_parts(
                text@,
            ).1),
            requirement_parts(text@).0.len() > 0 && semver_requirement_valid(
                requirement_parts(text@).1,
            ) ==> (out matches Ok(r) && r.id@ == requirement_parts(text@).0 && r.req@
                == requirement_parts(text@).1),
            requirement_parts(text@).0.len() > 0 && requirement_parts(text@).1 == "*"@ ==> out is Ok,
    {
        let chars = chars_of(text);
        let total = chars.len();
        let blanks = run_length(&chars, 0, false);
        proof {
            assert(chars@.skip(0) =~= chars@);
        }
        let ghost t = trim_start(text@);
        let id_len = run_length(&chars, blanks, true);
        let start = blanks + id_len;
        let gap = run_length(&chars, start, false);
        let from = start + gap;
        let mut id: Vec<char> = Vec::new();
        let mut i = blanks;
        while i < start
            invariant
                blanks <= i <= start,
                start <= chars@.len(),
                id@ == chars@.subrange(blanks as int, i as int),
            decreases start - i,
        {
            id.push(chars[i]);
            proof {
                assert(chars@.subrange(blanks as int, i + 1) =~= chars@.subrange(blanks as int, i as int).push(chars@[i as int]));
            }
            i = i + 1;
        }
        let mut rest: Vec<char> = Vec::new();
        let mut j = from;
        while j < chars.len()
            invariant
                from <= j <= chars@.len(),
                rest@ == chars@.subrange(from as int, j as int),
            decreases chars@.len() - j,
        {
            rest.push(chars[j]);
            proof {
                assert(chars@.subrange(from as int, j + 1) =~= chars@.subrange(from as int, j as int).push(chars@[j as int]));
            }
            j = j + 1;
        }
        proof {
            assert(t =~= chars@.skip(blanks as int));
            assert(t.skip(id_len as int) =~= chars@.skip(start as int));
            assert(trim_start(t.skip(id_len as int)) =~= chars@.skip(from as int));
            assert(id@ =~= t.take(id_len as int));
            assert(rest@ =~= chars@.skip(from as int));
        }
        if id.len() == 0 {
            return Err(RequirementError::MissingId);
        }
        let req = if rest.len() == 0 {
            String::from_str("*")
        } else {
            string_of(rest.as_slice())
        };
        if !requirement_is_valid(req.as_str()) {
            return Err(RequirementError::BadVersion(req));
        }
        Ok(Requirement { id: string_of(id.as_slice()), req })
    }

    /// How the entry reads back: the id alone when any version will do, else the id, a space
    /// and the requirement.
    pub open spec fn text(self) -> Seq<char> {
        if self.req@ == "*"@ {
            self.id@
        } else {
            self.id@ + " "@ + self.req@
        }
    }

    /// Executable [`Requirement::text`].
    pub fn describe(&self) -> (out: String)
        ensures
            out@ == self.text(),
    {
        let any = String::from_str("*");
        if self.req == any {
            self.id.clone()
        } else {
            let mut out = self.id.clone();
            out.append(" ");
            out.append(self.req.as_str());
            out
        }
    }

    /// A copy of this requirement.
    pub fn duplicate(&self) -> (out: Requirement)
        ensures
            out.id@ == self.id@,
            out.req@ == self.req@,
    {
        Requirement { id: self.id.clone(), req: self.req.clone() }
    }
}

/// The `[package]` table of a manifest.
#[derive(Debug, Clone, PartialEq, Eq)]
pub struct PackageInfo {
    /// Unique human readable package identifier, e.g. `spacewar`.
    pub id: String,
    pub version: Version,
    pub authors: Vec<String>,
    pub title: String,
    pub description: String,
    /// Packages that must be present, at versions these accept.
    pub requires: Vec<Requirement>,
    /// Packages this one loads after, when they are installed.
    pub after: Vec<String>,
    /// Packages this one loads before, when they are installed.
    pub before: Vec<String>,
    /// Packages whose aliases this one means to take.
    pub overrides: Vec<String>,
    /// Aliases this package takes out of the index before adding its own.
    pub removes: Vec<String>,
}

/// A package manifest: the entry point of a base game, mod, DLC or other content package.
#[derive(Debug, Clone, PartialEq, Eq)]
pub struct Manifest {
    pub package: PackageInfo,
}

impl Manifest {
    /// `(id: ..., v: ...)`, as a log line names a package.
    pub fn summary(&self) -> (out: String)
        ensures
            out@ == "(id: "@ + self.package.id@ + ", v: "@ + version_text(self.package.version) + ")"@,
    {
        let mut out = String::from_str("(id: ");
        out.append(self.package.id.as_str());
        out.append(", v: ");
        let v = self.package.version.to_text();
        out.append(v.as_str());
        out.append(")");
        out
    }
}

/// One package found on disk: its manifest, the search path and directory it was found in, and
/// every asset discovered under it.
#[derive(Debug, Clone, PartialEq, Eq)]
pub struct Package {
    pub manifest: Manifest,
    /// The package's own directory, relative to the tree's root.
    pub root: String,
    /// The search path the package was found under.
    pub search_path: String,
    pub assets: Vec<DiscoveredAsset>,
}

/// One `[[constraint]]` in the user's load order file.
#[derive(Debug, Clone, PartialEq, Eq)]
pub struct Constraint {
    pub package: String,
    pub after: Vec<String>,
    pub before: Vec<String>,
}

/// The user's load order file: constraints that beat any manifest that disagrees.
#[derive(Debug, Clone, PartialEq, Eq)]
pub struct LoadOrder {
    pub constraints: Vec<Constraint>,
}

impl LoadOrder {
    /// No user constraints, which is the normal case on a fresh install.
    pub fn new() -> (out: LoadOrder)
        ensures
            out.constraints@.len() == 0,
    {
        LoadOrder { constraints: Vec::new() }
    }
}

/// The name the user's load order file has.
pub const LOAD_ORDER_FILE: &'static str = "load_order.toml";

} // verus!
