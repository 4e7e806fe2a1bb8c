//! The tool catalogue's decisions: what each tool refuses, and how it shapes what it forwards to
//! the game and what it hands back.

pub use crate::remote::logs::GetLogsParams;

use crate::alias::rules::{contains_text, has_text, starts_at};
use crate::remote::logs::{lowercase, opt_text};
use crate::remote::run::RunRequest;
use crate::text::{
    chars_of, decimal, decimal_text, insert_sorted, join, joined, lemma_sorted_texts_unique, sorted_texts, str_eq, views,
};
use vstd::prelude::*;

verus! {

/// The three components a position is made of.
pub const CELL_COORD: &'static str = "big_space::grid::cell::CellCoord";
pub const TRANSFORM: &'static str = "bevy_transform::components::transform::Transform";
pub const GLOBAL_TRANSFORM: &'static str = "bevy_transform::components::global_transform::GlobalTransform";

/// How many schemas one call returns when it does not say.
pub const DEFAULT_SCHEMA_LIMIT: usize = 100;

/// Every tool result, wrapped with the id of the game process that answered it. A different id
/// from the last call means the game restarted and every entity id held since is stale.
#[derive(Debug, Clone)]
pub struct WithPid<T> {
    pid: String,
    result: T,
}

impl<T> WithPid<T> {
    /// `result`, as answered by the run named `pid`.
    pub fn new(pid: String, result: T) -> (out: WithPid<T>)
        ensures
            out.pid_view() == pid@,
            out.result_view() == result,
    {
        WithPid { pid, result }
    }

    /// The run id, as the contracts see it.
    pub closed spec fn pid_view(&self) -> Seq<char> {
        self.pid@
    }

    /// The wrapped result, as the contracts see it.
    pub closed spec fn result_view(&self) -> T {
        self.result
    }

    /// The run id.
    pub fn pid(&self) -> (out: &str)
        ensures
            out@ == self.pid_view(),
    {
        self.pid.as_str()
    }

    /// The wrapped result.
    pub fn result(&self) -> (out: &T)
        ensures
            *out == self.result_view(),
    {
        &self.result
    }
}

/// What the run-state tool is asked to do.
#[derive(Debug, Clone, Copy, PartialEq, Eq, Structural)]
pub enum RunAction {
    Pause,
    Resume,
    Step,
}

/// The run-state tool's input.
#[derive(Debug, Clone, Copy, PartialEq, Eq, Structural)]
pub struct SetRunStateParams {
    /// "pause" freezes virtual time, "resume" unfreezes it, "step" runs `frames` frames and
    /// freezes again.
    pub action: RunAction,
    /// Frames to run. Only read when `action` is "step".
    pub frames: Option<u32>,
}

impl SetRunStateParams {
    /// The request forwarded to the game, or the sentence that says a step was given no frames.
    pub fn request(&self) -> (out: Result<RunRequest, String>)
        ensures
            self.action == RunAction::Pause ==> out == Ok::<RunRequest, String>(RunRequest::Pause),
            self.action == RunAction::Resume ==> out == Ok::<RunRequest, String>(RunRequest::Resume),
            self.action == RunAction::Step ==> (self.frames matches Some(f) ==> out == Ok::<RunRequest, String>(
                RunRequest::Step { frames: f },
            )),
            self.action == RunAction::Step && self.frames is None ==> (out matches Err(e) && e@
                == "`step` needs `frames`"@),
    {
        match self.action {
            RunAction::Pause => Ok(RunRequest::Pause),
            RunAction::Resume => Ok(RunRequest::Resume),
            RunAction::Step => match self.frames {
                Some(frames) => Ok(RunRequest::Step { frames }),
                None => Err(String::from_str("`step` needs `frames`")),
            },
        }
    }
}

/// What waiting for a step to end does next.
#[derive(Debug, Clone, Copy, PartialEq, Eq, Structural)]
pub enum StepWait {
    /// The world has repaused: the state just read is the answer.
    Done,
    /// The deadline passed with the step still running: the game may be hung.
    GiveUp,
    /// Poll again after a short sleep.
    Poll,
}

/// Decides the next move while waiting for a step to end, from the countdown just read and
/// whether the deadline has passed. A finished step wins over a passed deadline.
pub fn step_wait(steps_remaining: Option<u32>, past_deadline: bool) -> (out: StepWait)
    ensures
        steps_remaining is None ==> out == StepWait::Done,
        steps_remaining is Some && past_deadline ==> out == StepWait::GiveUp,
        steps_remaining is Some && !past_deadline ==> out == StepWait::Poll,
{
    if steps_remaining.is_none() {
        StepWait::Done
    } else if past_deadline {
        StepWait::GiveUp
    } else {
        StepWait::Poll
    }
}

/// Whether `crate_name` is one of `crates`, an empty list meaning any, and no name meaning none
/// of a non-empty list.
pub open spec fn crate_allowed(crate_name: Option<Seq<char>>, crates: Seq<Seq<char>>) -> bool {
    crates.len() == 0 || (crate_name matches Some(n) && crates.contains(n))
}

/// Whether a schema whose crate is `crate_name` belongs to one of `crates`, with an empty list
/// meaning "any". Types with no crate name, such as `&str` and `()`, belong to none.
pub fn crate_matches(crate_name: Option<&str>, crates: &[String]) -> (out: bool)
    ensures
        out == crate_allowed(
            match crate_name {
                Some(n) => Some(n@),
                None => None,
            },
            views(crates@),
        ),
{
    if crates.len() == 0 {
        return true;
    }
    match crate_name {
        None => false,
        Some(name) => {
            let ghost all = views(crates@);
            let mut i: usize = 0;
            while i < crates.len()
                invariant
                    i <= crates@.len(),
                    all == views(crates@),
                    crate_name == Some(name),
                    crates@.len() > 0,
                    forall|j: int| 0 <= j < i ==> all[j] != name@,
                decreases crates@.len() - i,
            {
                if str_eq(crates[i].as_str(), name) {
                    proof {
                        assert(all[i as int] == name@);
                        assert(all.contains(name@));
                    }
                    return true;
                }
                i = i + 1;
            }
            false
        },
    }
}

/// Whether `s` starts with `pat`.
pub open spec fn prefixed(s: Seq<char>, pat: Seq<char>) -> bool {
    starts_at(s, 0, pat)
}

/// Whether `s` ends with `pat`.
pub open spec fn suffixed(s: Seq<char>, pat: Seq<char>) -> bool {
    starts_at(s, s.len() - pat.len(), pat)
}

/// Whether `chars[from..]` starts with `pat`.
fn matches_at(chars: &Vec<char>, from: usize, pat: &Vec<char>) -> (out: bool)
    requires
        from <= chars@.len(),
    ensures
        out == starts_at(chars@, from as int, pat@),
{
    if pat.len() > chars.len() - from {
        return false;
    }
    let mut k: usize = 0;
    while k < pat.len()
        invariant
            from + pat@.len() <= chars@.len(),
            from + pat.len() <= chars.len(),
            k <= pat@.len(),
            forall|j: int| 0 <= j < k ==> chars@[from + j] == pat@[j],
        decreases pat@.len() - k,
    {
        if chars[from + k] != pat[k] {
            proof {
                assert(chars@.subrange(from as int, from + pat@.len())[k as int] != pat@[k as int]);
            }
            return false;
        }
        k = k + 1;
    }
    proof {
        assert(chars@.subrange(from as int, from + pat@.len()) =~= pat@);
    }
    true
}

/// What a write to half of a position is refused with.
pub open spec fn half_position_text() -> Seq<char> {
    "position is a grid cell plus an offset from a moving origin, so writing either half alone lands somewhere else. Use world_set_position with absolute metres."@
}

/// Whether a mutation of `path` in `component` would write half of a position: a `Transform`'s
/// translation (or the whole `Transform`), or any part of a `CellCoord`.
pub open spec fn moves_half_a_position(component: Seq<char>, path: Seq<char>) -> bool {
    (suffixed(component, "::Transform"@) && (path.len() == 0 || prefixed(path, "translation"@))) || suffixed(
        component,
        "::CellCoord"@,
    )
}

/// Refuses a mutation that would write half of a position. `Transform.translation` is an offset
/// within one grid cell from a floating origin, so writing it alone sets a different world point
/// every time; the position tool is the one that writes both halves.
pub fn reject_position_write(component: &str, path: &str) -> (out: Result<(), String>)
    ensures
        out is Ok <==> !moves_half_a_position(component@, path@),
        out matches Err(e) ==> e@ == half_position_text(),
{
    let c = chars_of(component);
    let p = chars_of(path);
    let transform = chars_of("::Transform");
    let cell = chars_of("::CellCoord");
    let translation = chars_of("translation");
    let ends_transform = transform.len() <= c.len() && matches_at(&c, c.len() - transform.len(), &transform);
    let ends_cell = cell.len() <= c.len() && matches_at(&c, c.len() - cell.len(), &cell);
    let starts_translation = matches_at(&p, 0, &translation);
    let touches_translation = ends_transform && (p.len() == 0 || starts_translation);
    if touches_translation || ends_cell {
        Err(
            String::from_str(
                "position is a grid cell plus an offset from a moving origin, so writing either half alone lands somewhere else. Use world_set_position with absolute metres.",
            ),
        )
    } else {
        Ok(())
    }
}

/// Splits the requested component paths into those the entity has and those it does not, each
/// in the order asked.
pub fn split_present(paths: &Vec<String>, on_entity: &Vec<String>) -> (out: (Vec<String>, Vec<String>))
    ensures
        views(out.0@) == views(paths@).filter(|p: Seq<char>| views(on_entity@).contains(p)),
        views(out.1@) == views(paths@).filter(|p: Seq<char>| !views(on_entity@).contains(p)),
{
    let ghost asked = views(paths@);
    let ghost have = views(on_entity@);
    let mut present: Vec<String> = Vec::new();
    let mut absent: Vec<String> = Vec::new();
    let mut i: usize = 0;
    while i < paths.len()
        invariant
            i <= paths@.len(),
            asked == views(paths@),
            have == views(on_entity@),
            views(present@) == asked.take(i as int).filter(|p: Seq<char>| have.contains(p)),
            views(absent@) == asked.take(i as int).filter(|p: Seq<char>| !have.contains(p)),
        decreases paths@.len() - i,
    {
        let mut found = false;
        let mut j: usize = 0;
        while j < on_entity.len()
            invariant
                i < paths@.len(),
                j <= on_entity@.len(),
                asked == views(paths@),
                have == views(on_entity@),
                found <==> exists|k: int| 0 <= k < j && have[k] == asked[i as int],
            decreases on_entity@.len() - j,
        {
            if str_eq(on_entity[j].as_str(), paths[i].as_str()) {
                proof {
                    assert(have[j as int] == asked[i as int]);
                }
                found = true;
            }
            j = j + 1;
        }
        proof {
            reveal(Seq::filter);
            assert(asked.take(i + 1).drop_last() =~= asked.take(i as int));
            assert(asked.take(i + 1).last() == asked[i as int]);
            assert(found == have.contains(asked[i as int]));
        }
        let ghost before_present = present@;
        let ghost before_absent = absent@;
        if found {
            present.push(paths[i].clone());
            proof {
                assert(views(present@) =~= views(before_present).push(asked[i as int]));
            }
        } else {
            absent.push(paths[i].clone());
            proof {
                assert(views(absent@) =~= views(before_absent).push(asked[i as int]));
            }
        }
        i = i + 1;
    }
    proof {
        assert(asked.take(paths@.len() as int) =~= asked);
    }
    (present, absent)
}

/// What an entity listing of the world's grids answers: the only grid, or why there is not one.
pub open spec fn grid_choice(grids: Seq<(u64, Option<Seq<char>>)>) -> Result<u64, Seq<char>> {
    if grids.len() == 0 {
        Err("the game has no big_space grid, so nothing can be placed in it"@)
    } else if grids.len() == 1 {
        Ok(grids[0].0)
    } else {
        Err(
            "the game has "@ + decimal(grids.len()) + " grids ("@ + joined(
                grids.map_values(|g: (u64, Option<Seq<char>>)| grid_label(g)),
                ", "@,
            ) + "). Pass `parent` to say which one."@,
        )
    }
}

/// How a grid is named in a list: its entity, then its name in backticks, empty when it has none.
pub open spec fn grid_label(g: (u64, Option<Seq<char>>)) -> Seq<char> {
    decimal(g.0 as nat) + " `"@ + match g.1 {
        Some(n) => n,
        None => Seq::empty(),
    } + "`"@
}

/// The view of a listing of grids.
pub open spec fn grid_views(grids: Seq<(u64, Option<String>)>) -> Seq<(u64, Option<Seq<char>>)> {
    grids.map_values(
        |g: (u64, Option<String>)|
            (
                g.0,
                match g.1 {
                    Some(n) => Some(n@),
                    None => None,
                },
            ),
    )
}

/// The entity holding the world's root grid, which is what a placed entity hangs under. Fails when
/// there is none, and when there are several, naming them.
pub fn only_grid(grids: &Vec<(u64, Option<String>)>) -> (out: Result<u64, String>)
    ensures
        grid_choice(grid_views(grids@)) matches Ok(e) ==> out == Ok::<u64, String>(e),
        grid_choice(grid_views(grids@)) matches Err(m) ==> (out matches Err(t) && t@ == m),
{
    if grids.len() == 0 {
        return Err(String::from_str("the game has no big_space grid, so nothing can be placed in it"));
    }
    if grids.len() == 1 {
        return Ok(grids[0].0);
    }
    let ghost all = grid_views(grids@);
    let mut labels: Vec<String> = Vec::new();
    let mut i: usize = 0;
    while i < grids.len()
        invariant
            i <= grids@.len(),
            all == grid_views(grids@),
            views(labels@) == all.take(i as int).map_values(|g: (u64, Option<Seq<char>>)| grid_label(g)),
        decreases grids@.len() - i,
    {
        let mut label = decimal_text(grids[i].0);
        label.append(" `");
        match &grids[i].1 {
            Some(n) => label.append(n.as_str()),
            None => {},
        }
        label.append("`");
        let ghost before = labels@;
        labels.push(label);
        proof {
            assert(all[i as int] == grid_views(grids@)[i as int]);
            assert(views(labels@) =~= views(before).push(grid_label(all[i as int])));
            assert(all.take(i + 1).map_values(|g: (u64, Option<Seq<char>>)| grid_label(g)) =~= all.take(
                i as int,
            ).map_values(|g: (u64, Option<Seq<char>>)| grid_label(g)).push(grid_label(all[i as int])));
        }
        i = i + 1;
    }
    proof {
        assert(all.take(grids@.len() as int) =~= all);
    }
    let mut text = String::from_str("the game has ");
    text.append(decimal_text(grids.len() as u64).as_str());
    text.append(" grids (");
    text.append(join(&labels, ", ").as_str());
    text.append("). Pass `parent` to say which one.");
    Err(text)
}

/// Where a newly spawned entity is attached.
#[derive(Debug, Clone, Copy, PartialEq, Eq, Structural)]
pub enum Placement {
    /// Under the parent the caller named.
    Parent,
    /// Under the world's grid, because a position only means something there.
    WorldGrid,
    /// Nowhere: a root entity.
    Root,
}

/// Where a spawned entity goes: under the named parent when there is one; else under the world
/// grid when it is given a position; else nowhere.
pub fn placement(has_parent: bool, has_position: bool) -> (out: Placement)
    ensures
        has_parent ==> out == Placement::Parent,
        !has_parent && has_position ==> out == Placement::WorldGrid,
        !has_parent && !has_position ==> out == Placement::Root,
{
    if has_parent {
        Placement::Parent
    } else if has_position {
        Placement::WorldGrid
    } else {
        Placement::Root
    }
}

/// The schema tool's input. Everything is optional, but with no filter at all it returns
/// whatever `limit` allows out of more than a thousand types.
#[derive(Debug, Clone, Default)]
pub struct RegistrySchemaParams {
    /// Full type paths, the precise way to ask.
    pub types: Vec<String>,
    /// Case-insensitive substring of the type path, for when the exact path is not known yet.
    pub contains: Option<String>,
    /// Only types from these crates.
    pub with_crates: Vec<String>,
    /// Exclude types from these crates.
    pub without_crates: Vec<String>,
    /// Defaults to [`DEFAULT_SCHEMA_LIMIT`].
    pub limit: Option<usize>,
}

/// What the schema tool returns, apart from the schemas themselves: the matched type paths in
/// ascending order, cut to the limit; how many matched but were cut; and the asked-for paths the
/// registry does not have, in the order asked.
#[derive(Debug, Clone)]
pub struct SchemaSelection {
    pub paths: Vec<String>,
    pub truncated: usize,
    pub unregistered: Vec<String>,
}

/// A registry entry as the contracts see it: its type path and its crate, if it has one.
pub type RegistryEntry = (Seq<char>, Option<Seq<char>>);

/// The view of a registry listing.
pub open spec fn registry_views(entries: Seq<(String, Option<String>)>) -> Seq<RegistryEntry> {
    entries.map_values(
        |e: (String, Option<String>)|
            (
                e.0@,
                match e.1 {
                    Some(c) => Some(c@),
                    None => None,
                },
            ),
    )
}

/// Whether a registry entry passes the schema tool's filters: named in `types` when any are named,
/// from an allowed crate, and holding the needle in its path, both sides lower-cased.
pub open spec fn schema_wanted(e: RegistryEntry, types: Seq<Seq<char>>, crates: Seq<Seq<char>>, needle: Option<Seq<char>>) -> bool {
    &&& (types.len() == 0 || types.contains(e.0))
    &&& crate_allowed(e.1, crates)
    &&& (needle matches Some(n) ==> contains_text(lowercase(e.0), lowercase(n)))
}

/// The paths of the first `n` entries that pass.
pub open spec fn wanted_paths(
    entries: Seq<RegistryEntry>,
    n: int,
    types: Seq<Seq<char>>,
    crates: Seq<Seq<char>>,
    needle: Option<Seq<char>>,
) -> Set<Seq<char>> {
    Set::new(|p: Seq<char>| exists|k: int| 0 <= k < n && #[trigger] entries[k].0 == p && schema_wanted(entries[k], types, crates, needle))
}

/// Whether `path` is the path of some entry.
pub open spec fn registered(entries: Seq<RegistryEntry>, path: Seq<char>) -> bool {
    exists|k: int| 0 <= k < entries.len() && (#[trigger] entries[k]).0 == path
}

/// Whether `paths` and `truncated` answer the schema tool's `params` over a registry listing
/// `entries`: the wanted type paths, ascending, cut to the limit, and how many were cut.
pub open spec fn schema_answered(params: RegistrySchemaParams, entries: Seq<RegistryEntry>, paths: Seq<Seq<char>>, truncated: nat) -> bool {
    let limit: nat = match params.limit {
        Some(l) => l as nat,
        None => DEFAULT_SCHEMA_LIMIT as nat,
    };
    exists|all: Seq<Seq<char>>|
        #![trigger sorted_texts(all)]
        sorted_texts(all) && all.to_set() == wanted_paths(
            entries,
            entries.len() as int,
            views(params.types@),
            views(params.with_crates@),
            opt_text(params.contains),
        ) && {
            let kept: nat = if all.len() > limit { limit } else { all.len() };
            paths == all.take(kept as int) && truncated == all.len() - kept
        }
}

/// The answer does not depend on the order the registry lists its types in: two listings of the
/// same entries give the same paths and the same count of cut ones, every call.
pub proof fn lemma_the_schema_answer_ignores_listing_order(
    params: RegistrySchemaParams,
    a: Seq<RegistryEntry>,
    b: Seq<RegistryEntry>,
    paths_a: Seq<Seq<char>>,
    truncated_a: nat,
    paths_b: Seq<Seq<char>>,
    truncated_b: nat,
)
    requires
        a.to_set() == b.to_set(),
        schema_answered(params, a, paths_a, truncated_a),
        schema_answered(params, b, paths_b, truncated_b),
    ensures
        paths_a == paths_b,
        truncated_a == truncated_b,
{
    let types = views(params.types@);
    let crates = views(params.with_crates@);
    let needle = opt_text(params.contains);
    let wa = wanted_paths(a, a.len() as int, types, crates, needle);
    let wb = wanted_paths(b, b.len() as int, types, crates, needle);
    assert forall|p: Seq<char>| wa.contains(p) implies wb.contains(p) by {
        let k = choose|k: int| 0 <= k < a.len() && #[trigger] a[k].0 == p && schema_wanted(a[k], types, crates, needle);
        assert(a.to_set().contains(a[k]));
        assert(b.to_set().contains(a[k]));
        let j = choose|j: int| 0 <= j < b.len() && b[j] == a[k];
        assert(b[j].0 == p);
    }
    assert forall|p: Seq<char>| wb.contains(p) implies wa.contains(p) by {
        let k = choose|k: int| 0 <= k < b.len() && #[trigger] b[k].0 == p && schema_wanted(b[k], types, crates, needle);
        assert(b.to_set().contains(b[k]));
        assert(a.to_set().contains(b[k]));
        let j = choose|j: int| 0 <= j < a.len() && a[j] == b[k];
        assert(a[j].0 == p);
    }
    assert(wa =~= wb);
    let all_a = choose|all: Seq<Seq<char>>|
        #![trigger sorted_texts(all)]
        sorted_texts(all) && all.to_set() == wa && {
            let limit: nat = match params.limit {
                Some(l) => l as nat,
                None => DEFAULT_SCHEMA_LIMIT as nat,
            };
            let kept: nat = if all.len() > limit { limit } else { all.len() };
            paths_a == all.take(kept as int) && truncated_a == all.len() - kept
        };
    let all_b = choose|all: Seq<Seq<char>>|
        #![trigger sorted_texts(all)]
        sorted_texts(all) && all.to_set() == wb && {
            let limit: nat = match params.limit {
                Some(l) => l as nat,
                None => DEFAULT_SCHEMA_LIMIT as nat,
            };
            let kept: nat = if all.len() > limit { limit } else { all.len() };
            paths_b == all.take(kept as int) && truncated_b == all.len() - kept
        };
    lemma_sorted_texts_unique(all_a, all_b);
}

impl RegistrySchemaParams {
    /// Picks the schemas to return from the registry's listing, given as each type path with its
    /// crate. The crate filters are the game's to apply, but it lets types with no crate through
    /// whatever is asked, so `with_crates` is applied again here. Sorted, so a truncated answer is
    /// the same one every call.
    pub fn select(&self, registry: &Vec<(String, Option<String>)>) -> (out: SchemaSelection)
        ensures
            schema_answered(*self, registry_views(registry@), views(out.paths@), out.truncated as nat),
            views(out.unregistered@) == views(self.types@).filter(
                |t: Seq<char>| !registered(registry_views(registry@), t),
            ),
    {
        let ghost entries = registry_views(registry@);
        let ghost types = views(self.types@);
        let ghost crates = views(self.with_crates@);
        let ghost needle = opt_text(self.contains);
        let lowered = match &self.contains {
            Some(c) => Some(crate::remote::logs::lower(c.as_str())),
            None => None,
        };
        let mut keys: Vec<String> = Vec::new();
        let mut i: usize = 0;
        while i < registry.len()
            invariant
                i <= registry@.len(),
                entries == registry_views(registry@),
                types == views(self.types@),
                crates == views(self.with_crates@),
                needle == opt_text(self.contains),
                lowered matches Some(l) ==> needle matches Some(n) && l@ == lowercase(n),
                lowered is None ==> needle is None,
                sorted_texts(views(keys@)),
                views(keys@).to_set() == wanted_paths(entries, i as int, types, crates, needle),
            decreases registry@.len() - i,
        {
            let path = &registry[i].0;
            let crate_name = match &registry[i].1 {
                Some(c) => Some(c.as_str()),
                None => None,
            };
            proof {
                assert(entries[i as int] == registry_views(registry@)[i as int]);
            }
            let mut wanted = self.types.len() == 0 || listed(&self.types, path.as_str());
            wanted = wanted && crate_matches(crate_name, self.with_crates.as_slice());
            if wanted {
                if let Some(l) = &lowered {
                    let p = crate::remote::logs::lower(path.as_str());
                    wanted = has_text(p.as_str(), l.as_str());
                }
            }
            proof {
                assert(wanted == schema_wanted(entries[i as int], types, crates, needle));
            }
            let ghost before = views(keys@).to_set();
            if wanted {
                insert_sorted(&mut keys, path);
            }
            proof {
                let now = wanted_paths(entries, i + 1, types, crates, needle);
                let was = wanted_paths(entries, i as int, types, crates, needle);
                if wanted {
                    assert(now =~= was.insert(entries[i as int].0));
                } else {
                    assert(now =~= was);
                }
            }
            i = i + 1;
        }
        let limit = match self.limit {
            Some(l) => l,
            None => DEFAULT_SCHEMA_LIMIT,
        };
        let ghost all = views(keys@);
        let kept = if keys.len() > limit { limit } else { keys.len() };
        let truncated = keys.len() - kept;
        keys.truncate(kept);
        proof {
            assert(views(keys@) =~= all.take(kept as int));
        }
        let mut unregistered: Vec<String> = Vec::new();
        let mut t: usize = 0;
        while t < self.types.len()
            invariant
                t <= self.types@.len(),
                entries == registry_views(registry@),
                types == views(self.types@),
                views(unregistered@) == types.take(t as int).filter(|x: Seq<char>| !registered(entries, x)),
            decreases self.types@.len() - t,
        {
            let mut found = false;
            let mut k: usize = 0;
            while k < registry.len()
                invariant
                    t < self.types@.len(),
                    k <= registry@.len(),
                    entries == registry_views(registry@),
                    types == views(self.types@),
                    found <==> exists|j: int| 0 <= j < k && (#[trigger] entries[j]).0 == types[t as int],
                decreases registry@.len() - k,
            {
                if str_eq(registry[k].0.as_str(), self.types[t].as_str()) {
                    proof {
                        assert(entries[k as int] == registry_views(registry@)[k as int]);
                    }
                    found = true;
                } else {
                    proof {
                        assert(entries[k as int] == registry_views(registry@)[k as int]);
                    }
                }
                k = k + 1;
            }
            proof {
                reveal(Seq::filter);
                assert(types.take(t + 1).drop_last() =~= types.take(t as int));
                assert(found == registered(entries, types[t as int]));
            }
            if !found {
                let ghost before = unregistered@;
                unregistered.push(self.types[t].clone());
                proof {
                    assert(views(unregistered@) =~= views(before).push(types[t as int]));
                }
            }
            t = t + 1;
        }
        proof {
            assert(types.take(self.types@.len() as int) =~= types);
        }
        SchemaSelection { paths: keys, truncated, unregistered }
    }
}

/// Whether `path` is one of `types`.
fn listed(types: &Vec<String>, path: &str) -> (out: bool)
    ensures
        out == views(types@).contains(path@),
{
    let ghost all = views(types@);
    let mut i: usize = 0;
    while i < types.len()
        invariant
            i <= types@.len(),
            all == views(types@),
            forall|j: int| 0 <= j < i ==> all[j] != path@,
        decreases types@.len() - i,
    {
        if str_eq(types[i].as_str(), path) {
            proof {
                assert(all[i as int] == path@);
            }
            return true;
        }
        i = i + 1;
    }
    false
}

} // verus!
