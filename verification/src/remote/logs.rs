//! `game.logs.get`: the recent log entries a query asks for, newest last.
//!
//! It reads the engine's ring, the same one the editor's console draws, and filters on the
//! structured fields: level, emitting module, message and sequence number.

use crate::alias::rules::{contains_text, has_text};
use crate::engine::log::{level_name, EntryView, Level, LogRing, RingView};
use crate::text::{ascii_lower, chars_of, eq_ignore_ascii_case, eq_ignoring_ascii_case, string_of};
use vstd::prelude::*;

verus! {

/// How many entries one call returns when it does not say.
pub const DEFAULT_LIMIT: usize = 100;

/// What `game.logs.get` takes. Every field is optional.
#[derive(Debug, Clone, Default)]
pub struct GetLogsParams {
    /// Lowest level to return: TRACE, DEBUG, INFO, WARN or ERROR, in any case. Defaults to TRACE.
    pub min_level: Option<String>,
    /// Case-insensitive substring of the emitting module path, e.g. "ename_game".
    pub target_contains: Option<String>,
    /// Case-insensitive substring of the message.
    pub message_contains: Option<String>,
    /// Only entries newer than this sequence number, for polling without re-reading.
    pub after_sequence: Option<u64>,
    /// Defaults to [`DEFAULT_LIMIT`]. The newest matches are the ones returned.
    pub limit: Option<usize>,
}

/// The answer: the sequence numbers of the returned entries, oldest first, and how many older
/// entries also matched but were cut by the limit.
#[derive(Debug, Clone, PartialEq, Eq)]
pub struct LogsAnswer {
    pub entries: Vec<u64>,
    pub older_matches: usize,
}

/// `s` in lower case, by Unicode's rules.
pub uninterp spec fn lowercase(s: Seq<char>) -> Seq<char>;

/// `str::to_lowercase`: the contract claims only that the result is a fixed function of the
/// text, named [`lowercase`]; which characters it maps is Unicode's business.
#[verifier::external_body]
pub(crate) fn lower(s: &str) -> (out: String)
    ensures
        out@ == lowercase(s@),
{
    s.to_lowercase()
}

/// The rank of a level, least severe first.
pub open spec fn severity(level: Level) -> nat {
    match level {
        Level::Trace => 0,
        Level::Debug => 1,
        Level::Info => 2,
        Level::Warn => 3,
        Level::Error => 4,
    }
}

/// The rank a level name stands for, ignoring ASCII case; `None` for a name that is no level.
pub open spec fn severity_named(name: Seq<char>) -> Option<nat> {
    if eq_ignoring_ascii_case(name, "TRACE"@) {
        Some(0)
    } else if eq_ignoring_ascii_case(name, "DEBUG"@) {
        Some(1)
    } else if eq_ignoring_ascii_case(name, "INFO"@) {
        Some(2)
    } else if eq_ignoring_ascii_case(name, "WARN"@) {
        Some(3)
    } else if eq_ignoring_ascii_case(name, "ERROR"@) {
        Some(4)
    } else {
        None
    }
}

/// A stored level ranks where its own name ranks: asking for entries at least as severe as a
/// level's name keeps exactly the entries whose level is at least that severe, in the order
/// TRACE, DEBUG, INFO, WARN, ERROR.
pub proof fn lemma_a_level_ranks_where_its_name_ranks(level: Level)
    ensures
        severity_named(level_name(level)) == Some(severity(level)),
        severity_named("TRACE"@) == Some(0nat),
        severity_named("DEBUG"@) == Some(1nat),
        severity_named("INFO"@) == Some(2nat),
        severity_named("WARN"@) == Some(3nat),
        severity_named("ERROR"@) == Some(4nat),
{
    reveal_strlit("TRACE");
    reveal_strlit("DEBUG");
    reveal_strlit("INFO");
    reveal_strlit("WARN");
    reveal_strlit("ERROR");
    assert(eq_ignoring_ascii_case("TRACE"@, "TRACE"@));
    assert(ascii_lower("DEBUG"@[0]) != ascii_lower("TRACE"@[0]));
    assert(eq_ignoring_ascii_case("DEBUG"@, "DEBUG"@));
    assert(eq_ignoring_ascii_case("INFO"@, "INFO"@));
    assert(ascii_lower("WARN"@[0]) != ascii_lower("INFO"@[0]));
    assert(eq_ignoring_ascii_case("WARN"@, "WARN"@));
    assert(ascii_lower("ERROR"@[0]) != ascii_lower("TRACE"@[0]));
    assert(ascii_lower("ERROR"@[0]) != ascii_lower("DEBUG"@[0]));
    assert(eq_ignoring_ascii_case("ERROR"@, "ERROR"@));
}

/// Each level ranks above the one before it, in the order TRACE, DEBUG, INFO, WARN, ERROR, so a
/// level floor keeps every entry at that level or a more severe one.
pub proof fn lemma_levels_are_ordered_by_severity()
    ensures
        severity(Level::Trace) < severity(Level::Debug),
        severity(Level::Debug) < severity(Level::Info),
        severity(Level::Info) < severity(Level::Warn),
        severity(Level::Warn) < severity(Level::Error),
{
}

/// `c` with an ASCII small letter mapped to its capital.
pub open spec fn ascii_upper(c: char) -> char {
    if 'a' <= c && c <= 'z' {
        ((c as u32) - 32) as char
    } else {
        c
    }
}

/// What a query with a bad level answers.
pub open spec fn not_a_level_text(name: Seq<char>) -> Seq<char> {
    "`"@ + name.map_values(|c: char| ascii_upper(c)) + "` is not a level. Use TRACE, DEBUG, INFO, WARN or ERROR."@
}

/// `c` in ASCII capitals.
fn upper_ascii_char(c: char) -> (out: char)
    ensures
        out == ascii_upper(c),
{
    if 'a' <= c && c <= 'z' {
        ((c as u32) - 32) as u8 as char
    } else {
        c
    }
}

/// The rank named by `name`, or the sentence that says it names none.
pub fn severity_of_name(name: &str) -> (out: Result<u8, String>)
    ensures
        severity_named(name@) matches Some(n) ==> out == Ok::<u8, String>(n as u8),
        severity_named(name@) is None ==> (out matches Err(e) && e@ == not_a_level_text(name@)),
{
    proof {
        reveal_strlit("TRACE");
        reveal_strlit("DEBUG");
        reveal_strlit("INFO");
        reveal_strlit("WARN");
        reveal_strlit("ERROR");
    }
    if eq_ignore_ascii_case(name, "TRACE") {
        Ok(0)
    } else if eq_ignore_ascii_case(name, "DEBUG") {
        Ok(1)
    } else if eq_ignore_ascii_case(name, "INFO") {
        Ok(2)
    } else if eq_ignore_ascii_case(name, "WARN") {
        Ok(3)
    } else if eq_ignore_ascii_case(name, "ERROR") {
        Ok(4)
    } else {
        let chars = chars_of(name);
        let mut upper: Vec<char> = Vec::new();
        let mut i: usize = 0;
        while i < chars.len()
            invariant
                i <= chars@.len(),
                chars@ == name@,
                upper@ == name@.take(i as int).map_values(|c: char| ascii_upper(c)),
            decreases chars.len() - i,
        {
            upper.push(upper_ascii_char(chars[i]));
            proof {
                assert(name@.take(i + 1).map_values(|c: char| ascii_upper(c)) =~= name@.take(i as int).map_values(
                    |c: char| ascii_upper(c),
                ).push(ascii_upper(name@[i as int])));
            }
            i = i + 1;
        }
        proof {
            assert(name@.take(chars.len() as int) =~= name@);
        }
        let mut text = String::from_str("`");
        text.append(string_of(upper.as_slice()).as_str());
        text.append("` is not a level. Use TRACE, DEBUG, INFO, WARN or ERROR.");
        Err(text)
    }
}

/// The rank of a stored level.
fn severity_of(level: Level) -> (out: u8)
    ensures
        out as nat == severity(level),
{
    match level {
        Level::Trace => 0,
        Level::Debug => 1,
        Level::Info => 2,
        Level::Warn => 3,
        Level::Error => 4,
    }
}

/// The name a target number stands for in `names`, or nothing for one out of range.
pub open spec fn target_name(names: Seq<Seq<char>>, entry: EntryView) -> Seq<char> {
    if (entry.3.0 as int) < names.len() {
        names[entry.3.0 as int]
    } else {
        Seq::empty()
    }
}

/// Whether an entry passes every filter: its level is at least `min`, it is newer than `after`,
/// and its target and message contain the needles, both sides lower-cased.
pub open spec fn passes(
    names: Seq<Seq<char>>,
    entry: EntryView,
    min: nat,
    after: Option<u64>,
    target: Option<Seq<char>>,
    message: Option<Seq<char>>,
) -> bool {
    &&& severity(entry.2) >= min
    &&& (after matches Some(s) ==> entry.0 > s)
    &&& (target matches Some(t) ==> contains_text(lowercase(target_name(names, entry)), lowercase(t)))
    &&& (message matches Some(m) ==> contains_text(lowercase(entry.4), lowercase(m)))
}

/// The sequence numbers of the entries that pass, oldest first.
pub open spec fn matching(
    r: RingView,
    n: int,
    min: nat,
    after: Option<u64>,
    target: Option<Seq<char>>,
    message: Option<Seq<char>>,
) -> Seq<u64>
    decreases n,
{
    if n <= 0 {
        Seq::empty()
    } else {
        let rest = matching(r, n - 1, min, after, target, message);
        if passes(r.names, r.entries[n - 1], min, after, target, message) {
            rest.push(r.entries[n - 1].0)
        } else {
            rest
        }
    }
}

/// The view of an optional text.
pub open spec fn opt_text(s: Option<String>) -> Option<Seq<char>> {
    match s {
        Some(t) => Some(t@),
        None => None,
    }
}

/// What a query answers: the newest `limit` matches, oldest first, and how many older ones were
/// cut.
pub open spec fn answered(r: RingView, params: GetLogsParams, min: nat) -> (Seq<u64>, nat) {
    let all = matching(
        r,
        r.entries.len() as int,
        min,
        params.after_sequence,
        opt_text(params.target_contains),
        opt_text(params.message_contains),
    );
    let limit: nat = match params.limit {
        Some(l) => l as nat,
        None => DEFAULT_LIMIT as nat,
    };
    let older: nat = if all.len() > limit { (all.len() - limit) as nat } else { 0 };
    (all.skip(older as int), older)
}

proof fn lemma_matches_come_from_the_ring(
    r: RingView,
    n: int,
    min: nat,
    after: Option<u64>,
    target: Option<Seq<char>>,
    message: Option<Seq<char>>,
)
    requires
        n <= r.entries.len(),
    ensures
        forall|k: int|
            0 <= k < matching(r, n, min, after, target, message).len() ==> exists|i: int|
                0 <= i < n && r.entries[i].0 == #[trigger] matching(r, n, min, after, target, message)[k] && severity(
                    r.entries[i].2,
                ) >= min && (after matches Some(s) ==> r.entries[i].0 > s),
    decreases n,
{
    if n > 0 {
        lemma_matches_come_from_the_ring(r, n - 1, min, after, target, message);
        let rest = matching(r, n - 1, min, after, target, message);
        let all = matching(r, n, min, after, target, message);
        assert forall|k: int| 0 <= k < all.len() implies exists|i: int|
            0 <= i < n && r.entries[i].0 == #[trigger] all[k] && severity(r.entries[i].2) >= min && (after matches Some(
                s,
            ) ==> r.entries[i].0 > s) by {
            if k < rest.len() {
                assert(all[k] == rest[k]);
                let i = choose|i: int|
                    0 <= i < n - 1 && r.entries[i].0 == #[trigger] rest[k] && severity(r.entries[i].2) >= min && (
                    after matches Some(s) ==> r.entries[i].0 > s);
                assert(0 <= i < n && r.entries[i].0 == all[k]);
            } else {
                assert(r.entries[n - 1].0 == all[k]);
            }
        }
    }
}

/// A query answers with the newest of its matches: every entry it returns is in the ring, at
/// least as severe as the floor and newer than the sequence asked from; the returned ones are the
/// last matches in ring order, as many as the limit lets through, and the older matches counted
/// are exactly the ones cut.
pub proof fn lemma_a_query_returns_the_newest_matches(r: RingView, params: GetLogsParams, min: nat)
    ensures
        ({
            let entries = answered(r, params, min).0;
            let older = answered(r, params, min).1;
            let all = matching(
                r,
                r.entries.len() as int,
                min,
                params.after_sequence,
                opt_text(params.target_contains),
                opt_text(params.message_contains),
            );
            let limit: nat = match params.limit {
                Some(l) => l as nat,
                None => DEFAULT_LIMIT as nat,
            };
            &&& entries.len() + older == all.len()
            &&& entries.len() <= limit
            &&& (older > 0 ==> entries.len() == limit)
            &&& forall|k: int| 0 <= k < entries.len() ==> #[trigger] entries[k] == all[older + k]
        }),
        forall|k: int|
            0 <= k < answered(r, params, min).0.len() ==> exists|i: int|
                0 <= i < r.entries.len() && r.entries[i].0 == #[trigger] answered(r, params, min).0[k] && severity(
                    r.entries[i].2,
                ) >= min && (params.after_sequence matches Some(s) ==> r.entries[i].0 > s),
{
    let entries = answered(r, params, min).0;
    let older = answered(r, params, min).1;
    let all = matching(
        r,
        r.entries.len() as int,
        min,
        params.after_sequence,
        opt_text(params.target_contains),
        opt_text(params.message_contains),
    );
    lemma_matches_come_from_the_ring(
        r,
        r.entries.len() as int,
        min,
        params.after_sequence,
        opt_text(params.target_contains),
        opt_text(params.message_contains),
    );
    let limit: nat = match params.limit {
        Some(l) => l as nat,
        None => DEFAULT_LIMIT as nat,
    };
    assert(older <= all.len());
    assert(entries == all.skip(older as int));
    assert(entries.len() + older == all.len());
    assert(entries.len() <= limit);
    assert(older > 0 ==> entries.len() == limit);
    assert forall|k: int| 0 <= k < entries.len() implies #[trigger] entries[k] == all[older + k] by {}
    assert forall|k: int| 0 <= k < answered(r, params, min).0.len() implies exists|i: int|
        0 <= i < r.entries.len() && r.entries[i].0 == #[trigger] answered(r, params, min).0[k] && severity(r.entries[i].2)
            >= min && (params.after_sequence matches Some(s) ==> r.entries[i].0 > s) by {
        assert(entries[k] == all[older + k]);
        let j = older + k;
        assert(0 <= j < all.len());
        let i = choose|i: int|
            0 <= i < r.entries.len() && r.entries[i].0 == #[trigger] all[j] && severity(r.entries[i].2) >= min && (
            params.after_sequence matches Some(s) ==> r.entries[i].0 > s);
        assert(r.entries[i].0 == answered(r, params, min).0[k]);
    }
}

/// The lowest rank a query asks for: TRACE's when it names none, `None` when it names no level.
pub open spec fn min_rank(level: Option<String>) -> Option<nat> {
    match level {
        Some(name) => severity_named(name@),
        None => Some(0),
    }
}

/// Answers `game.logs.get` from the ring. Fails only on a `min_level` that names no level.
pub fn query(ring: &LogRing, params: &GetLogsParams) -> (out: Result<LogsAnswer, String>)
    ensures
        min_rank(params.min_level) is None ==> (out matches Err(e) && params.min_level matches Some(name)
            && e@ == not_a_level_text(name@)),
        min_rank(params.min_level) matches Some(min) ==> (out matches Ok(a) && (a.entries@, a.older_matches as nat)
            == answered(ring@, *params, min)),
{
    let min: u8 = match &params.min_level {
        Some(name) => match severity_of_name(name.as_str()) {
            Ok(n) => n,
            Err(e) => return Err(e),
        },
        None => 0,
    };
    let ghost min_nat: nat = min as nat;
    let target = match &params.target_contains {
        Some(t) => Some(lower(t.as_str())),
        None => None,
    };
    let message = match &params.message_contains {
        Some(m) => Some(lower(m.as_str())),
        None => None,
    };
    let ghost tn = opt_text(params.target_contains);
    let ghost mn = opt_text(params.message_contains);
    let mut all: Vec<u64> = Vec::new();
    let mut i: usize = 0;
    while i < ring.len()
        invariant
            i <= ring@.entries.len(),
            all@ == matching(ring@, i as int, min_nat, params.after_sequence, tn, mn),
            min_nat == min as nat,
            target matches Some(t) ==> tn matches Some(x) && t@ == lowercase(x),
            target is None ==> tn is None,
            message matches Some(m) ==> mn matches Some(x) && m@ == lowercase(x),
            message is None ==> mn is None,
        decreases ring@.entries.len() - i,
    {
        let entry = ring.get(i).unwrap();
        let ghost e = ring@.entries[i as int];
        proof {
            assert(entry.sequence == e.0 && entry.level == e.2 && entry.target == e.3 && entry.message@ == e.4) by {
                assert(crate::engine::log::entry_views(seq![*entry])[0] == e);
            }
        }
        let mut keep = severity_of(entry.level) >= min;
        if let Some(s) = params.after_sequence {
            keep = keep && entry.sequence > s;
        }
        if let Some(t) = &target {
            if keep {
                let name = lower(ring.resolve(entry.target));
                keep = has_text(name.as_str(), t.as_str());
            }
        }
        if let Some(m) = &message {
            if keep {
                let text = lower(entry.message.as_str());
                keep = has_text(text.as_str(), m.as_str());
            }
        }
        proof {
            assert(keep == passes(ring@.names, e, min_nat, params.after_sequence, tn, mn));
        }
        if keep {
            all.push(entry.sequence);
        }
        i = i + 1;
    }
    let limit = match params.limit {
        Some(l) => l,
        None => DEFAULT_LIMIT,
    };
    let older = if all.len() > limit { all.len() - limit } else { 0 };
    let mut entries: Vec<u64> = Vec::new();
    let mut k = older;
    while k < all.len()
        invariant
            older <= k <= all@.len(),
            entries@ == all@.subrange(older as int, k as int),
        decreases all@.len() - k,
    {
        entries.push(all[k]);
        proof {
            assert(all@.subrange(older as int, k + 1) =~= all@.subrange(older as int, k as int).push(all@[k as int]));
        }
        k = k + 1;
    }
    proof {
        assert(all@.subrange(older as int, all@.len() as int) =~= all@.skip(older as int));
    }
    Ok(LogsAnswer { entries, older_matches: older })
}

} // verus!
