//! The alias index: which file each alias names, and the rule an alias has to follow to be in it.
//!
//! An alias is written `namespace::name`. The namespace is everything before the first `::` and
//! may not be empty, the name is everything after it and may not be empty either, and a `#` may
//! appear nowhere: in a request it separates the alias from a label inside the asset.

use crate::text::{chars_of, str_eq};
use vstd::prelude::*;

verus! {

/// Why an alias was refused. Each variant carries the alias as it was written.
#[derive(Debug, Clone, PartialEq, Eq)]
pub enum AliasError {
    /// A `#` in the alias.
    Label(String),
    /// No `::`, or nothing before the first one.
    MissingNamespace(String),
    /// Nothing after the first `::`.
    EmptyName(String),
}

/// The position of the first `::` at or after `from`, or -1.
pub open spec fn find_separator(a: Seq<char>, from: nat) -> int
    decreases a.len() - from,
{
    if from + 1 >= a.len() {
        -1
    } else if a[from as int] == ':' && a[from + 1int] == ':' {
        from as int
    } else {
        find_separator(a, from + 1)
    }
}

/// The alias holds a `#`.
pub open spec fn has_label(a: Seq<char>) -> bool {
    a.contains('#')
}

/// The alias has no `::`, or nothing before the first one.
pub open spec fn missing_namespace(a: Seq<char>) -> bool {
    find_separator(a, 0) <= 0
}

/// The alias has nothing after its first `::`.
pub open spec fn empty_name(a: Seq<char>) -> bool {
    find_separator(a, 0) + 2 == a.len()
}

/// The alias follows the rule.
pub open spec fn valid_alias(a: Seq<char>) -> bool {
    !has_label(a) && !missing_namespace(a) && !empty_name(a)
}

/// `e` is the error an alias `a` is refused with: a label first, then a missing namespace, then
/// an empty name.
pub open spec fn refused_with(a: Seq<char>, e: AliasError) -> bool {
    if has_label(a) {
        e matches AliasError::Label(s) && s@ == a
    } else if missing_namespace(a) {
        e matches AliasError::MissingNamespace(s) && s@ == a
    } else if empty_name(a) {
        e matches AliasError::EmptyName(s) && s@ == a
    } else {
        false
    }
}

/// What a report says of a refused alias.
pub open spec fn refusal_text(a: Seq<char>) -> Seq<char> {
    if a.contains('#') {
        "`"@ + a + "` contains `#`, which only separates a label in a request"@
    } else if missing_namespace(a) {
        "`"@ + a + "` has no namespace; an alias is written `namespace::name`"@
    } else {
        "`"@ + a + "` names nothing after its namespace"@
    }
}

/// The error an alias is refused with says what [`refusal_text`] says.
pub proof fn lemma_refusal_text(a: Seq<char>, e: AliasError)
    requires
        refused_with(a, e),
    ensures
        e.text() == refusal_text(a),
{
}

impl AliasError {
    /// The words a report gives this error with.
    pub open spec fn text(self) -> Seq<char> {
        match self {
            AliasError::Label(a) => "`"@ + a@ + "` contains `#`, which only separates a label in a request"@,
            AliasError::MissingNamespace(a) => "`"@ + a@ + "` has no namespace; an alias is written `namespace::name`"@,
            AliasError::EmptyName(a) => "`"@ + a@ + "` names nothing after its namespace"@,
        }
    }

    /// Executable [`AliasError::text`].
    pub fn describe(&self) -> (out: String)
        ensures
            out@ == self.text(),
    {
        let (alias, rest) = match self {
            AliasError::Label(a) => (a, "` contains `#`, which only separates a label in a request"),
            AliasError::MissingNamespace(a) => (a, "` has no namespace; an alias is written `namespace::name`"),
            AliasError::EmptyName(a) => (a, "` names nothing after its namespace"),
        };
        let mut out = String::from_str("`");
        out.append(alias.as_str());
        out.append(rest);
        out
    }
}

/// Checks `alias` against the rule.
pub fn validate_alias(alias: &str) -> (out: Result<(), AliasError>)
    ensures
        valid_alias(alias@) ==> out is Ok,
        !valid_alias(alias@) ==> (out matches Err(e) && refused_with(alias@, e)),
{
    let chars = chars_of(alias);
    let n = chars.len();
    let mut i: usize = 0;
    while i < n
        invariant
            i <= n,
            n == alias@.len(),
            chars@ == alias@,
            forall|k: int| 0 <= k < i ==> #[trigger] alias@[k] != '#',
        decreases n - i,
    {
        if chars[i] == '#' {
            proof {
                assert(alias@[i as int] == '#');
            }
            return Err(AliasError::Label(String::from_str(alias)));
        }
        i = i + 1;
    }
    let mut k: usize = 0;
    while n > 0 && k < n - 1 && !(chars[k] == ':' && chars[k + 1] == ':')
        invariant
            k <= n,
            n == alias@.len(),
            chars@ == alias@,
            find_separator(alias@, 0) == find_separator(alias@, k as nat),
        decreases n - k,
    {
        k = k + 1;
    }
    if n == 0 || k >= n - 1 || k == 0 {
        return Err(AliasError::MissingNamespace(String::from_str(alias)));
    }
    if k + 2 == n {
        return Err(AliasError::EmptyName(String::from_str(alias)));
    }
    Ok(())
}

/// The keys of a list of entries, as the contracts see them.
pub open spec fn keys_of(entries: Seq<(String, String)>) -> Seq<Seq<char>> {
    Seq::new(entries.len(), |k: int| entries[k].0@)
}

/// Where alias `a` sits among `entries`.
pub open spec fn entry_index(entries: Seq<(String, String)>, a: Seq<char>) -> int {
    choose|k: int| 0 <= k < entries.len() && entries[k].0@ == a
}

/// A valid alias, once inserted, resolves to the path it was inserted with, whatever it named
/// before; every other alias resolves as it did.
pub proof fn lemma_an_inserted_alias_resolves_to_its_path(
    before: Map<Seq<char>, Seq<char>>,
    alias: Seq<char>,
    path: Seq<char>,
    other: Seq<char>,
)
    requires
        valid_alias(alias),
        other != alias,
    ensures
        before.insert(alias, path).contains_key(alias),
        before.insert(alias, path)[alias] == path,
        before.insert(alias, path).contains_key(other) == before.contains_key(other),
        before.contains_key(other) ==> before.insert(alias, path)[other] == before[other],
{
}

/// Which file each alias names.
///
/// Held as a list of entries, each alias once, rather than a std map keyed by `String`, whose
/// lookups carry no specification a contract could rest on; the view is the map itself, so entry
/// order is not part of it.
pub struct ContentIndex {
    entries: Vec<(String, String)>,
}

impl View for ContentIndex {
    type V = Map<Seq<char>, Seq<char>>;

    closed spec fn view(&self) -> Map<Seq<char>, Seq<char>> {
        Map::new(
            |a: Seq<char>| keys_of(self.entries@).contains(a),
            |a: Seq<char>| self.entries@[entry_index(self.entries@, a)].1@,
        )
    }
}

impl ContentIndex {
    /// No alias is in the index twice.
    #[verifier::type_invariant]
    closed spec fn distinct_aliases(self) -> bool {
        keys_of(self.entries@).no_duplicates()
    }

    proof fn lemma_entry_index(entries: Seq<(String, String)>, k: int)
        requires
            keys_of(entries).no_duplicates(),
            0 <= k < entries.len(),
        ensures
            entry_index(entries, entries[k].0@) == k,
    {
        let j = entry_index(entries, entries[k].0@);
        assert(keys_of(entries)[k] == entries[k].0@);
        assert(0 <= j < entries.len() && entries[j].0@ == entries[k].0@);
        assert(keys_of(entries)[j] == keys_of(entries)[k]);
    }

    /// An empty index.
    pub fn new() -> (out: ContentIndex)
        ensures
            out@ == Map::<Seq<char>, Seq<char>>::empty(),
    {
        let out = ContentIndex { entries: Vec::new() };
        proof {
            assert(out@ =~= Map::<Seq<char>, Seq<char>>::empty());
        }
        out
    }

    /// How many aliases the index holds.
    pub fn len(&self) -> (out: usize)
        ensures
            out == self@.dom().len(),
    {
        proof {
            use_type_invariant(self);
            let keys = keys_of(self.entries@);
            keys.unique_seq_to_set();
            assert(self@.dom() =~= keys.to_set());
        }
        self.entries.len()
    }

    /// Where `alias` sits in the entries, if it does.
    fn find(&self, alias: &str) -> (out: Option<usize>)
        ensures
            out matches Some(k) ==> k < self.entries@.len() && self.entries@[k as int].0@ == alias@,
            out is None ==> !self@.contains_key(alias@),
    {
        let mut k: usize = 0;
        while k < self.entries.len()
            invariant
                k <= self.entries@.len(),
                forall|j: int| 0 <= j < k ==> #[trigger] self.entries@[j].0@ != alias@,
            decreases self.entries@.len() - k,
        {
            if str_eq(self.entries[k].0.as_str(), alias) {
                return Some(k);
            }
            k = k + 1;
        }
        proof {
            if self@.contains_key(alias@) {
                let j = choose|j: int| 0 <= j < keys_of(self.entries@).len() && keys_of(self.entries@)[j] == alias@;
                assert(self.entries@[j].0@ == alias@);
            }
        }
        None
    }

    /// The file `alias` names, if the index holds it.
    pub fn resolve(&self, alias: &str) -> (out: Option<&String>)
        ensures
            out matches Some(p) ==> self@.contains_key(alias@) && self@[alias@] == p@,
            out is None ==> !self@.contains_key(alias@),
    {
        proof {
            use_type_invariant(self);
        }
        match self.find(alias) {
            Some(k) => {
                proof {
                    Self::lemma_entry_index(self.entries@, k as int);
                    assert(keys_of(self.entries@)[k as int] == alias@);
                }
                Some(&self.entries[k].1)
            },
            None => None,
        }
    }

    /// Puts `alias` in the index, naming `path`, replacing whatever it named before, which is
    /// returned. An alias that breaks the rule is refused and the index left as it was.
    pub fn insert(&mut self, alias: &str, path: &str) -> (out: Result<Option<String>, AliasError>)
        ensures
            valid_alias(alias@) ==> {
                &&& out is Ok
                &&& final(self)@ == old(self)@.insert(alias@, path@)
                &&& (out matches Ok(Some(p)) ==> old(self)@.contains_key(alias@) && old(self)@[alias@] == p@)
                &&& (out matches Ok(None) ==> !old(self)@.contains_key(alias@))
            },
            !valid_alias(alias@) ==> (out matches Err(e) && refused_with(alias@, e)) && final(self)@ == old(self)@,
    {
        proof {
            use_type_invariant(&*self);
        }
        if let Err(e) = validate_alias(alias) {
            return Err(e);
        }
        let ghost before = self.entries@;
        match self.find(alias) {
            Some(k) => {
                let previous = self.entries[k].1.clone();
                let mut entries: Vec<(String, String)> = Vec::new();
                std::mem::swap(&mut entries, &mut self.entries);
                entries.set(k, (String::from_str(alias), String::from_str(path)));
                proof {
                    assert(keys_of(entries@) =~= keys_of(before));
                }
                self.entries = entries;
                proof {
                    Self::lemma_entry_index(before, k as int);
                    assert(keys_of(before)[k as int] == alias@);
                    assert(keys_of(self.entries@) =~= keys_of(before));
                    assert forall|a: Seq<char>| #![auto] keys_of(self.entries@).contains(a) implies
                        self.entries@[entry_index(self.entries@, a)].1@ == (if a == alias@ { path@ } else { before[entry_index(before, a)].1@ }) by {
                        let j = choose|j: int| 0 <= j < keys_of(self.entries@).len() && keys_of(self.entries@)[j] == a;
                        Self::lemma_entry_index(self.entries@, j);
                        Self::lemma_entry_index(before, j);
                    }
                    assert(self@ =~= old(self)@.insert(alias@, path@));
                }
                Ok(Some(previous))
            },
            None => {
                let mut entries: Vec<(String, String)> = Vec::new();
                std::mem::swap(&mut entries, &mut self.entries);
                entries.push((String::from_str(alias), String::from_str(path)));
                proof {
                    let keys = keys_of(entries@);
                    assert(keys =~= keys_of(before).push(alias@));
                    assert forall|p: int, q: int| 0 <= p < keys.len() && 0 <= q < keys.len() && p != q implies keys[p] != keys[q] by {
                        if p < before.len() && q < before.len() {
                            assert(keys_of(before)[p] == keys[p] && keys_of(before)[q] == keys[q]);
                        } else if p == before.len() {
                            assert(keys_of(before)[q] == keys[q]);
                            assert(keys_of(before).contains(keys[q]));
                        } else {
                            assert(keys_of(before)[p] == keys[p]);
                            assert(keys_of(before).contains(keys[p]));
                        }
                    }
                }
                self.entries = entries;
                proof {
                    let keys = keys_of(self.entries@);
                    assert(keys =~= keys_of(before).push(alias@));
                    assert(keys.no_duplicates()) by {
                        assert forall|p: int, q: int| 0 <= p < keys.len() && 0 <= q < keys.len() && p != q implies keys[p] != keys[q] by {
                            if p < before.len() && q < before.len() {
                                assert(keys_of(before)[p] == keys[p] && keys_of(before)[q] == keys[q]);
                            } else if p == before.len() {
                                assert(keys_of(before).contains(keys[q]) ==> old(self)@.contains_key(keys[q]));
                                assert(keys_of(before)[q] == keys[q]);
                            } else {
                                assert(keys_of(before)[p] == keys[p]);
                            }
                        }
                    }
                    assert forall|a: Seq<char>| #![auto] keys.contains(a) implies
                        self.entries@[entry_index(self.entries@, a)].1@ == (if a == alias@ { path@ } else { before[entry_index(before, a)].1@ }) by {
                        let j = choose|j: int| 0 <= j < keys.len() && keys[j] == a;
                        Self::lemma_entry_index(self.entries@, j);
                        if j < before.len() {
                            assert(keys_of(before)[j] == a);
                            Self::lemma_entry_index(before, j);
                        }
                    }
                    assert forall|a: Seq<char>| #![auto] keys.contains(a) <==> (keys_of(before).contains(a) || a == alias@) by {
                        if keys.contains(a) && a != alias@ {
                            let j = choose|j: int| 0 <= j < keys.len() && keys[j] == a;
                            assert(keys_of(before)[j] == a);
                        }
                        if keys_of(before).contains(a) {
                            let j = choose|j: int| 0 <= j < keys_of(before).len() && keys_of(before)[j] == a;
                            assert(keys[j] == a);
                        }
                        if a == alias@ {
                            assert(keys[before.len() as int] == a);
                        }
                    }
                    assert(self@ =~= old(self)@.insert(alias@, path@));
                }
                Ok(None)
            },
        }
    }

    /// Takes `alias` out of the index, returning the file it named, if it was there.
    pub fn remove(&mut self, alias: &str) -> (out: Option<String>)
        ensures
            final(self)@ == old(self)@.remove(alias@),
            out matches Some(p) ==> old(self)@.contains_key(alias@) && old(self)@[alias@] == p@,
            out is None ==> !old(self)@.contains_key(alias@),
    {
        proof {
            use_type_invariant(&*self);
        }
        let ghost before = self.entries@;
        match self.find(alias) {
            Some(k) => {
                let mut entries: Vec<(String, String)> = Vec::new();
                std::mem::swap(&mut entries, &mut self.entries);
                let (_, path) = entries.remove(k);
                proof {
                    let keys = keys_of(entries@);
                    let old_keys = keys_of(before);
                    assert(keys =~= old_keys.remove(k as int));
                    assert forall|p: int, q: int| 0 <= p < keys.len() && 0 <= q < keys.len() && p != q implies keys[p] != keys[q] by {
                        let pp = if p < k { p } else { p + 1 };
                        let qq = if q < k { q } else { q + 1 };
                        assert(keys[p] == old_keys[pp] && keys[q] == old_keys[qq]);
                    }
                }
                self.entries = entries;
                proof {
                    Self::lemma_entry_index(before, k as int);
                    assert(keys_of(before)[k as int] == alias@);
                    let keys = keys_of(self.entries@);
                    let old_keys = keys_of(before);
                    assert(keys =~= old_keys.remove(k as int));
                    assert(keys.no_duplicates()) by {
                        assert forall|p: int, q: int| 0 <= p < keys.len() && 0 <= q < keys.len() && p != q implies keys[p] != keys[q] by {
                            let pp = if p < k { p } else { p + 1 };
                            let qq = if q < k { q } else { q + 1 };
                            assert(keys[p] == old_keys[pp] && keys[q] == old_keys[qq]);
                        }
                    }
                    assert forall|a: Seq<char>| #![auto] keys.contains(a) <==> (old_keys.contains(a) && a != alias@) by {
                        if keys.contains(a) {
                            let j = choose|j: int| 0 <= j < keys.len() && keys[j] == a;
                            let jj = if j < k { j } else { j + 1 };
                            assert(old_keys[jj] == a);
                            assert(jj != k);
                        }
                        if old_keys.contains(a) && a != alias@ {
                            let j = choose|j: int| 0 <= j < old_keys.len() && old_keys[j] == a;
                            assert(j != k);
                            if j < k {
                                assert(keys[j] == a);
                            } else {
                                assert(keys[j - 1] == a);
                            }
                        }
                    }
                    assert forall|a: Seq<char>| #![auto] keys.contains(a) implies
                        self.entries@[entry_index(self.entries@, a)].1@ == before[entry_index(before, a)].1@ by {
                        let j = choose|j: int| 0 <= j < keys.len() && keys[j] == a;
                        Self::lemma_entry_index(self.entries@, j);
                        let jj = if j < k { j } else { j + 1 };
                        assert(old_keys[jj] == a);
                        Self::lemma_entry_index(before, jj);
                    }
                    assert(self@ =~= old(self)@.remove(alias@));
                }
                Some(path)
            },
            None => {
                proof {
                    assert(self@ =~= old(self)@.remove(alias@));
                }
                None
            },
        }
    }
}

} // verus!
