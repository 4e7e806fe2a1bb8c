//! Addressing an entity by name or by id.
//!
//! An entity id is valid only within one run of the game; a name survives restarts but need not
//! be unique. Ids cross this boundary as the `{index}v{generation}` string the game prints, never
//! as the packed integer, which stays here for calling the game's built-in methods.

use crate::alias::rules::find_char;
use crate::text::{chars_of, decimal, decimal_text, join, joined, str_eq, views};
use vstd::prelude::*;

verus! {

/// An entity id in the form the game prints it: the index, `v`, then the generation.
#[derive(Debug, Clone)]
pub struct EntityId(pub String);

/// Whether `part` is one or more ASCII digits.
pub open spec fn numeric(part: Seq<char>) -> bool {
    part.len() > 0 && forall|i: int| 0 <= i < part.len() ==> '0' <= #[trigger] part[i] <= '9'
}

/// Whether `id` is `{index}v{generation}`: split at its first `v`, both sides numeric.
pub open spec fn well_shaped(id: Seq<char>) -> bool {
    let v = find_char(id, 'v', 0);
    v >= 0 && numeric(id.take(v)) && numeric(id.skip(v + 1))
}

/// What a malformed id is answered with.
pub open spec fn malformed_text(id: Seq<char>) -> Seq<char> {
    "`"@ + id
        + "` is not an entity id. Ids look like `606v0` -- the index, `v`, then the generation -- as world_query reports them. A bare number is the packed form BRP uses internally and does not name the same entity."@
}

/// Whether `chars[from..to]` is one or more ASCII digits.
fn digits_between(chars: &Vec<char>, from: usize, to: usize) -> (out: bool)
    requires
        from <= to <= chars@.len(),
    ensures
        out == numeric(chars@.subrange(from as int, to as int)),
{
    if from == to {
        return false;
    }
    let mut i = from;
    while i < to
        invariant
            from <= i <= to <= chars@.len(),
            forall|j: int| from <= j < i ==> '0' <= #[trigger] chars@[j] <= '9',
        decreases to - i,
    {
        if !('0' <= chars[i] && chars[i] <= '9') {
            proof {
                assert(chars@.subrange(from as int, to as int)[i - from] == chars@[i as int]);
            }
            return false;
        }
        i = i + 1;
    }
    proof {
        assert forall|j: int| 0 <= j < to - from implies '0' <= #[trigger] chars@.subrange(from as int, to as int)[j]
            <= '9' by {
            assert(chars@.subrange(from as int, to as int)[j] == chars@[from + j]);
        }
    }
    true
}

impl EntityId {
    /// The id with this text.
    pub fn new(id: String) -> (out: EntityId)
        ensures
            out.0@ == id@,
    {
        EntityId(id)
    }

    /// The id as the game prints it.
    pub fn as_str(&self) -> (out: &str)
        ensures
            out@ == self.0@,
    {
        self.0.as_str()
    }

    /// Rejects an id that is not `{index}v{generation}`, before a lookup can report it as a
    /// missing entity instead of a malformed one. A bare number is the packed form and is the
    /// mistake worth naming: it would otherwise resolve as a different entity.
    pub fn check_shape(&self) -> (out: Result<(), String>)
        ensures
            out is Ok <==> well_shaped(self.0@),
            out matches Err(e) ==> e@ == malformed_text(self.0@),
    {
        let chars = chars_of(self.0.as_str());
        let mut v: usize = 0;
        while v < chars.len() && chars[v] != 'v'
            invariant
                v <= chars@.len(),
                chars@ == self.0@,
                find_char(chars@, 'v', 0) == find_char(chars@, 'v', v as nat),
            decreases chars@.len() - v,
        {
            v = v + 1;
        }
        let shaped = if v == chars.len() {
            false
        } else {
            proof {
                assert(chars@.take(v as int) =~= chars@.subrange(0, v as int));
                assert(chars@.skip(v + 1) =~= chars@.subrange(v + 1, chars@.len() as int));
            }
            digits_between(&chars, 0, v) && digits_between(&chars, v + 1, chars.len())
        };
        if shaped {
            Ok(())
        } else {
            let mut text = String::from_str("`");
            text.append(self.0.as_str());
            text.append(
                "` is not an entity id. Ids look like `606v0` -- the index, `v`, then the generation -- as world_query reports them. A bare number is the packed form BRP uses internally and does not name the same entity.",
            );
            Err(text)
        }
    }
}

/// How the game reports an entity: the readable id, and the bits its own built-in methods take.
#[derive(Debug, Clone)]
pub struct WireEntity {
    pub id: EntityId,
    pub bits: u64,
}

/// One row of the game's entity listing, as far as resolving reads it.
#[derive(Debug, Clone)]
pub struct Summary {
    pub entity: WireEntity,
    pub name: Option<String>,
}

/// An entity resolved to one concrete id, with its name so results can report both.
#[derive(Debug, Clone)]
pub struct ResolvedEntity {
    pub entity: EntityId,
    pub name: Option<String>,
    /// The packed form, for calling the game's built-in methods.
    pub bits: u64,
}

/// Which entity a tool should act on. Exactly one of the two fields.
#[derive(Debug, Clone)]
pub struct EntitySelector {
    /// The entity id from an earlier result, e.g. "606v0". Valid only until the game restarts.
    pub entity: Option<EntityId>,
    /// The exact value of the entity's `Name` component. Must match exactly one entity.
    pub name: Option<String>,
}

/// A listing row as the contracts see it: id, bits, name.
pub type SummaryView = (Seq<char>, u64, Option<Seq<char>>);

/// The view of an optional name.
pub open spec fn name_view(name: Option<String>) -> Option<Seq<char>> {
    match name {
        Some(n) => Some(n@),
        None => None,
    }
}

/// The contract view of a listing.
pub open spec fn summary_views(rows: Seq<Summary>) -> Seq<SummaryView> {
    rows.map_values(|s: Summary| (s.entity.id.0@, s.entity.bits, name_view(s.name)))
}

/// The contract view of a resolved entity.
pub open spec fn resolved_view(r: ResolvedEntity) -> SummaryView {
    (r.entity.0@, r.bits, name_view(r.name))
}

/// The position of the first row with this id, or -1.
pub open spec fn first_with_id(rows: Seq<SummaryView>, id: Seq<char>) -> int
    decreases rows.len(),
{
    if rows.len() == 0 {
        -1
    } else if first_with_id(rows.drop_last(), id) >= 0 {
        first_with_id(rows.drop_last(), id)
    } else if rows.last().0 == id {
        rows.len() - 1
    } else {
        -1
    }
}

/// The position of the first row with these bits, or -1.
pub open spec fn first_with_bits(rows: Seq<SummaryView>, bits: u64) -> int
    decreases rows.len(),
{
    if rows.len() == 0 {
        -1
    } else if first_with_bits(rows.drop_last(), bits) >= 0 {
        first_with_bits(rows.drop_last(), bits)
    } else if rows.last().1 == bits {
        rows.len() - 1
    } else {
        -1
    }
}

/// The rows named exactly `name`, in listing order.
pub open spec fn named(rows: Seq<SummaryView>, name: Seq<char>) -> Seq<SummaryView>
    decreases rows.len(),
{
    if rows.len() == 0 {
        Seq::empty()
    } else if rows.last().2 == Some(name) {
        named(rows.drop_last(), name).push(rows.last())
    } else {
        named(rows.drop_last(), name)
    }
}

/// What a selector with both fields set is answered with.
pub open spec fn both_text() -> Seq<char> {
    "give either `entity` or `name`, not both"@
}

/// What a selector with neither field set is answered with.
pub open spec fn neither_text() -> Seq<char> {
    "give either `entity` or `name`"@
}

/// What an id that no row has is answered with.
pub open spec fn no_such_id_text(id: Seq<char>) -> Seq<char> {
    "no entity `"@ + id + "` exists in this run"@
}

/// What a name that no row has is answered with.
pub open spec fn no_such_name_text(name: Seq<char>) -> Seq<char> {
    "no entity is named `"@ + name + "`. Use world_query with name_contains to find the right one."@
}

/// What a name shared by several rows is answered with: how many, and every id.
pub open spec fn ambiguous_text(name: Seq<char>, rows: Seq<SummaryView>) -> Seq<char> {
    "`"@ + name + "` is the name of "@ + decimal(rows.len()) + " entities ("@ + joined(
        rows.map_values(|r: SummaryView| r.0),
        ", "@,
    ) + "). Address one of them by `entity` instead."@
}

/// What the bits of an entity that no row has are answered with.
pub open spec fn vanished_text(bits: u64) -> Seq<char> {
    "the game reported entity bits "@ + decimal(bits as nat)
        + ", which it then could not find. It may have despawned in the same frame."@
}

/// What a selector resolves to among `rows`.
pub open spec fn resolution(entity: Option<Seq<char>>, name: Option<Seq<char>>, rows: Seq<SummaryView>) -> Result<
    SummaryView,
    Seq<char>,
> {
    match (entity, name) {
        (Some(_), Some(_)) => Err(both_text()),
        (None, None) => Err(neither_text()),
        (Some(id), None) => if !well_shaped(id) {
            Err(malformed_text(id))
        } else if first_with_id(rows, id) < 0 {
            Err(no_such_id_text(id))
        } else {
            Ok(rows[first_with_id(rows, id)])
        },
        (None, Some(n)) => {
            let exact = named(rows, n);
            if exact.len() == 0 {
                Err(no_such_name_text(n))
            } else if exact.len() == 1 {
                Ok(exact[0])
            } else {
                Err(ambiguous_text(n, exact))
            }
        },
    }
}

/// The row as a resolved entity.
fn resolved_from(row: &Summary) -> (out: ResolvedEntity)
    ensures
        resolved_view(out) == (row.entity.id.0@, row.entity.bits, name_view(row.name)),
{
    let name = match &row.name {
        Some(n) => Some(n.clone()),
        None => None,
    };
    ResolvedEntity { entity: EntityId(row.entity.id.0.clone()), name, bits: row.entity.bits }
}

/// A copy of a listing row.
fn copy_summary(row: &Summary) -> (out: Summary)
    ensures
        (out.entity.id.0@, out.entity.bits, name_view(out.name)) == (row.entity.id.0@, row.entity.bits, name_view(
            row.name,
        )),
{
    let name = match &row.name {
        Some(n) => Some(n.clone()),
        None => None,
    };
    Summary { entity: WireEntity { id: EntityId(row.entity.id.0.clone()), bits: row.entity.bits }, name }
}

/// The view of an optional id.
pub open spec fn id_view(id: Option<EntityId>) -> Option<Seq<char>> {
    match id {
        Some(i) => Some(i.0@),
        None => None,
    }
}

/// Whether two optional names are the same name.
fn same_name(a: &Option<String>, b: &str) -> (out: bool)
    ensures
        out == (name_view(*a) == Some(b@)),
{
    match a {
        Some(n) => str_eq(n.as_str(), b),
        None => false,
    }
}

impl EntitySelector {
    /// Turns the selector into one entity among `rows`, the game's listing of every entity.
    ///
    /// An ambiguous name is an error listing every candidate rather than a silent pick of the
    /// first match: picking silently would let the agent believe it edited something it did not.
    pub fn resolve(&self, rows: &Vec<Summary>) -> (out: Result<ResolvedEntity, String>)
        ensures
            resolution(id_view(self.entity), name_view(self.name), summary_views(rows@)) matches Ok(v) ==> (
            out matches Ok(r) && resolved_view(r) == v),
            resolution(id_view(self.entity), name_view(self.name), summary_views(rows@)) matches Err(m) ==> (
            out matches Err(e) && e@ == m),
    {
        let ghost all = summary_views(rows@);
        match (&self.entity, &self.name) {
            (Some(_), Some(_)) => Err(String::from_str("give either `entity` or `name`, not both")),
            (None, None) => Err(String::from_str("give either `entity` or `name`")),
            (Some(id), None) => {
                match id.check_shape() {
                    Err(e) => return Err(e),
                    Ok(()) => {},
                }
                let mut i: usize = 0;
                while i < rows.len()
                    invariant
                        i <= rows@.len(),
                        all == summary_views(rows@),
                        first_with_id(all.take(i as int), id.0@) == -1,
                        id_view(self.entity) == Some(id.0@),
                        self.name is None,
                        well_shaped(id.0@),
                    decreases rows@.len() - i,
                {
                    proof {
                        assert(all.take(i + 1).drop_last() =~= all.take(i as int));
                    }
                    if str_eq(rows[i].entity.id.0.as_str(), id.0.as_str()) {
                        proof {
                            assert(all[i as int] == summary_views(rows@)[i as int]);
                            lemma_first_with_id_prefix(all, id.0@, i + 1);
                        }
                        return Ok(resolved_from(&rows[i]));
                    }
                    i = i + 1;
                }
                proof {
                    assert(all.take(rows@.len() as int) =~= all);
                }
                let mut text = String::from_str("no entity `");
                text.append(id.0.as_str());
                text.append("` exists in this run");
                Err(text)
            },
            (None, Some(name)) => {
                let mut exact: Vec<Summary> = Vec::new();
                let mut ids: Vec<String> = Vec::new();
                let mut i: usize = 0;
                while i < rows.len()
                    invariant
                        i <= rows@.len(),
                        all == summary_views(rows@),
                        summary_views(exact@) == named(all.take(i as int), name@),
                        views(ids@) == named(all.take(i as int), name@).map_values(|r: SummaryView| r.0),
                    decreases rows@.len() - i,
                {
                    proof {
                        assert(all.take(i + 1).drop_last() =~= all.take(i as int));
                    }
                    if same_name(&rows[i].name, name.as_str()) {
                        let row = copy_summary(&rows[i]);
                        let id_text = row.entity.id.0.clone();
                        let ghost before_exact = exact@;
                        let ghost before_ids = ids@;
                        exact.push(row);
                        ids.push(id_text);
                        proof {
                            assert(all[i as int] == summary_views(rows@)[i as int]);
                            assert(summary_views(exact@) =~= summary_views(before_exact).push(all[i as int]));
                            assert(views(ids@) =~= views(before_ids).push(all[i as int].0));
                            assert(named(all.take(i + 1), name@) == named(all.take(i as int), name@).push(all[i as int]));
                            assert(named(all.take(i + 1), name@).map_values(|r: SummaryView| r.0) =~= named(
                                all.take(i as int),
                                name@,
                            ).map_values(|r: SummaryView| r.0).push(all[i as int].0));
                        }
                    } else {
                        proof {
                            assert(all[i as int] == summary_views(rows@)[i as int]);
                        }
                    }
                    i = i + 1;
                }
                proof {
                    assert(all.take(rows@.len() as int) =~= all);
                }
                if exact.len() == 0 {
                    let mut text = String::from_str("no entity is named `");
                    text.append(name.as_str());
                    text.append("`. Use world_query with name_contains to find the right one.");
                    Err(text)
                } else if exact.len() == 1 {
                    Ok(resolved_from(&exact[0]))
                } else {
                    let mut text = String::from_str("`");
                    text.append(name.as_str());
                    text.append("` is the name of ");
                    text.append(decimal_text(exact.len() as u64).as_str());
                    text.append(" entities (");
                    text.append(join(&ids, ", ").as_str());
                    text.append("). Address one of them by `entity` instead.");
                    Err(text)
                }
            },
        }
    }
}

/// A hit at position `n - 1` with none before it is the first.
proof fn lemma_first_with_id_prefix(rows: Seq<SummaryView>, id: Seq<char>, n: int)
    requires
        0 < n <= rows.len(),
        first_with_id(rows.take(n - 1), id) == -1,
        rows[n - 1].0 == id,
    ensures
        first_with_id(rows, id) == n - 1,
    decreases rows.len(),
{
    assert(rows.take(n).drop_last() =~= rows.take(n - 1));
    if n < rows.len() {
        assert(rows.drop_last().take(n - 1) =~= rows.take(n - 1));
        lemma_first_with_id_prefix(rows.drop_last(), id, n);
    } else {
        assert(rows.take(n) =~= rows);
    }
}

/// Names an entity the game has just handed back as packed bits, such as a fresh spawn.
pub fn describe(rows: &Vec<Summary>, bits: u64) -> (out: Result<ResolvedEntity, String>)
    ensures
        first_with_bits(summary_views(rows@), bits) >= 0 ==> (out matches Ok(r) && resolved_view(r)
            == summary_views(rows@)[first_with_bits(summary_views(rows@), bits)]),
        first_with_bits(summary_views(rows@), bits) < 0 ==> (out matches Err(e) && e@ == vanished_text(bits)),
{
    let ghost all = summary_views(rows@);
    let mut i: usize = 0;
    while i < rows.len()
        invariant
            i <= rows@.len(),
            all == summary_views(rows@),
            first_with_bits(all.take(i as int), bits) == -1,
        decreases rows@.len() - i,
    {
        proof {
            assert(all.take(i + 1).drop_last() =~= all.take(i as int));
        }
        if rows[i].entity.bits == bits {
            proof {
                assert(all[i as int] == summary_views(rows@)[i as int]);
                lemma_first_with_bits_prefix(all, bits, i + 1);
            }
            return Ok(resolved_from(&rows[i]));
        }
        i = i + 1;
    }
    proof {
        assert(all.take(rows@.len() as int) =~= all);
    }
    let mut text = String::from_str("the game reported entity bits ");
    text.append(decimal_text(bits).as_str());
    text.append(", which it then could not find. It may have despawned in the same frame.");
    Err(text)
}

/// A hit at position `n - 1` with none before it is the first.
proof fn lemma_first_with_bits_prefix(rows: Seq<SummaryView>, bits: u64, n: int)
    requires
        0 < n <= rows.len(),
        first_with_bits(rows.take(n - 1), bits) == -1,
        rows[n - 1].1 == bits,
    ensures
        first_with_bits(rows, bits) == n - 1,
    decreases rows.len(),
{
    assert(rows.take(n).drop_last() =~= rows.take(n - 1));
    if n < rows.len() {
        assert(rows.drop_last().take(n - 1) =~= rows.take(n - 1));
        lemma_first_with_bits_prefix(rows.drop_last(), bits, n);
    } else {
        assert(rows.take(n) =~= rows);
    }
}

} // verus!
