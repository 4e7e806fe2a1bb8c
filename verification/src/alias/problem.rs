//! What a walk or a resolution found wrong, and where.

use vstd::prelude::*;

verus! {

/// What kind of thing went wrong. One flat list, because a user asking "what is wrong with my
/// content" wants one answer.
#[derive(Debug, Clone, Copy, PartialEq, Eq, Structural)]
pub enum ProblemKind {
    UnreadableDirectory,
    UnparseableManifest,
    UnparseableAliasFile,
    UnparseableRules,
    /// A `.alias` file whose asset is not there. The pair drifted apart.
    OrphanAliasFile,
    MissingGuid,
    /// Two files in one walk claim one alias.
    DuplicateAlias,
    /// An alias the index rejected.
    InvalidAlias,
    /// The walk hit its depth cap and stopped descending.
    DirectoryTooDeep,
    /// A package's `requires` could not be met, so it was disabled.
    UnsatisfiedRequirement,
    /// A manifest constraint the user's load order contradicts, and which was dropped.
    OverruledConstraint,
    /// An `after`/`before` loop.
    DependencyCycle,
    /// A `removes` entry naming an alias nobody before it provides.
    DeadRemoval,
    /// A package took another's alias without naming it in `overrides`.
    UndeclaredOverride,
    /// An `overrides` entry that took nothing.
    DeadOverride,
    /// The user's load order file could not be read.
    UnparseableLoadOrder,
}

impl ProblemKind {
    /// The words a report names this kind with.
    pub open spec fn text(self) -> Seq<char> {
        match self {
            ProblemKind::UnreadableDirectory => "unreadable directory"@,
            ProblemKind::UnparseableManifest => "unparseable manifest"@,
            ProblemKind::UnparseableAliasFile => "unparseable .alias"@,
            ProblemKind::UnparseableRules => "unparseable _rules.toml"@,
            ProblemKind::OrphanAliasFile => "orphan .alias"@,
            ProblemKind::MissingGuid => "missing guid"@,
            ProblemKind::DuplicateAlias => "duplicate alias"@,
            ProblemKind::InvalidAlias => "invalid alias"@,
            ProblemKind::DirectoryTooDeep => "directory nested too deep"@,
            ProblemKind::UnsatisfiedRequirement => "unsatisfied requirement"@,
            ProblemKind::OverruledConstraint => "overruled constraint"@,
            ProblemKind::DependencyCycle => "load order cycle"@,
            ProblemKind::DeadRemoval => "dead removal"@,
            ProblemKind::UndeclaredOverride => "undeclared override"@,
            ProblemKind::DeadOverride => "dead override"@,
            ProblemKind::UnparseableLoadOrder => "unparseable load order"@,
        }
    }

    /// Executable [`ProblemKind::text`].
    pub fn label(&self) -> (out: String)
        ensures
            out@ == self.text(),
    {
        let text = match self {
            ProblemKind::UnreadableDirectory => "unreadable directory",
            ProblemKind::UnparseableManifest => "unparseable manifest",
            ProblemKind::UnparseableAliasFile => "unparseable .alias",
            ProblemKind::UnparseableRules => "unparseable _rules.toml",
            ProblemKind::OrphanAliasFile => "orphan .alias",
            ProblemKind::MissingGuid => "missing guid",
            ProblemKind::DuplicateAlias => "duplicate alias",
            ProblemKind::InvalidAlias => "invalid alias",
            ProblemKind::DirectoryTooDeep => "directory nested too deep",
            ProblemKind::UnsatisfiedRequirement => "unsatisfied requirement",
            ProblemKind::OverruledConstraint => "overruled constraint",
            ProblemKind::DependencyCycle => "load order cycle",
            ProblemKind::DeadRemoval => "dead removal",
            ProblemKind::UndeclaredOverride => "undeclared override",
            ProblemKind::DeadOverride => "dead override",
            ProblemKind::UnparseableLoadOrder => "unparseable load order",
        };
        String::from_str(text)
    }
}

/// Something a walk or a resolution could not do, and where.
#[derive(Debug, Clone, PartialEq, Eq)]
pub struct Problem {
    pub path: String,
    pub kind: ProblemKind,
    pub detail: String,
}

impl Problem {
    /// A copy of this problem.
    pub fn duplicate(&self) -> (out: Problem)
        ensures
            out.path@ == self.path@,
            out.kind == self.kind,
            out.detail@ == self.detail@,
    {
        Problem { path: self.path.clone(), kind: self.kind, detail: self.detail.clone() }
    }
}

/// A copy of a list of problems.
pub fn copy_problems(list: &Vec<Problem>) -> (out: Vec<Problem>)
    ensures
        problem_views(out@) == problem_views(list@),
{
    let mut out: Vec<Problem> = Vec::new();
    let mut k: usize = 0;
    while k < list.len()
        invariant
            k <= list@.len(),
            problem_views(out@) == problem_views(list@).take(k as int),
        decreases list@.len() - k,
    {
        let ghost before = out@;
        out.push(list[k].duplicate());
        proof {
            assert(problem_views(out@) =~= problem_views(before).push(problem_views(list@)[k as int]));
            assert(problem_views(list@).take(k + 1) =~= problem_views(list@).take(k as int).push(problem_views(list@)[k as int]));
        }
        k = k + 1;
    }
    proof {
        assert(problem_views(list@).take(list@.len() as int) =~= problem_views(list@));
    }
    out
}

/// A problem as the contracts see it: where, what kind, and the words.
pub type ProblemView = (Seq<char>, ProblemKind, Seq<char>);

/// The contract view of a list of problems.
pub open spec fn problem_views(problems: Seq<Problem>) -> Seq<ProblemView> {
    Seq::new(problems.len(), |i: int| (problems[i].path@, problems[i].kind, problems[i].detail@))
}

/// Where an asset's alias came from.
#[derive(Debug, Clone, Copy, PartialEq, Eq, Structural)]
pub enum AliasOrigin {
    /// A folder rule derived it, so tooling may rewrite it.
    Derived,
    /// A human typed it into a `.alias` file, so tooling must never rewrite it.
    Authored,
}

/// One addressable asset: the alias it claims, the file it is, and the identity tooling tracks
/// it by.
#[derive(Debug, Clone, PartialEq, Eq)]
pub struct DiscoveredAsset {
    pub alias: String,
    /// Relative to the tree's root, `/` separated.
    pub path: String,
    /// The asset's GUID as its 128 bits, `None` until tooling assigns one.
    pub guid: Option<u128>,
    pub origin: AliasOrigin,
}

} // verus!
