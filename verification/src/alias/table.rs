//! A small map from alias to anything, for the bookkeeping beside the index.

use crate::text::str_eq;
use vstd::prelude::*;

verus! {

/// The keys of a list of entries, as the contracts see them.
pub open spec fn table_keys<V>(entries: Seq<(String, V)>) -> Seq<Seq<char>> {
    Seq::new(entries.len(), |k: int| entries[k].0@)
}

/// Where key `a` sits among `entries`.
pub open spec fn table_slot<V>(entries: Seq<(String, V)>, a: Seq<char>) -> int {
    choose|k: int| 0 <= k < entries.len() && entries[k].0@ == a
}

/// A map from alias to `V`, each alias once.
///
/// Kept as a list of entries rather than a std map: std's maps keyed by `String` carry no
/// specification a contract could rest on, so each alias being held once is this type's own
/// invariant, and lookups walk the list.
pub struct AliasTable<V> {
    entries: Vec<(String, V)>,
}

impl<V> View for AliasTable<V> {
    type V = Map<Seq<char>, V>;

    closed spec fn view(&self) -> Map<Seq<char>, V> {
        Map::new(
            |a: Seq<char>| table_keys(self.entries@).contains(a),
            |a: Seq<char>| self.entries@[table_slot(self.entries@, a)].1,
        )
    }
}

proof fn lemma_table_slot<V>(entries: Seq<(String, V)>, k: int)
    requires
        table_keys(entries).no_duplicates(),
        0 <= k < entries.len(),
    ensures
        table_slot(entries, entries[k].0@) == k,
{
    let j = table_slot(entries, entries[k].0@);
    assert(table_keys(entries)[k] == entries[k].0@);
    assert(0 <= j < entries.len() && entries[j].0@ == entries[k].0@);
    assert(table_keys(entries)[j] == table_keys(entries)[k]);
}

impl<V> AliasTable<V> {
    /// Each alias once.
    #[verifier::type_invariant]
    closed spec fn distinct_keys(self) -> bool {
        table_keys(self.entries@).no_duplicates()
    }

    /// An empty table.
    pub fn new() -> (out: AliasTable<V>)
        ensures
            out@ == Map::<Seq<char>, V>::empty(),
    {
        let out = AliasTable { entries: Vec::new() };
        proof {
            assert(out@ =~= Map::<Seq<char>, V>::empty());
        }
        out
    }

    fn find(&self, key: &str) -> (out: Option<usize>)
        ensures
            out matches Some(k) ==> k < self.entries@.len() && self.entries@[k as int].0@ == key@,
            out is None ==> !self@.contains_key(key@),
    {
        let mut k: usize = 0;
        while k < self.entries.len()
            invariant
                k <= self.entries@.len(),
                forall|j: int| 0 <= j < k ==> #[trigger] self.entries@[j].0@ != key@,
            decreases self.entries@.len() - k,
        {
            if str_eq(self.entries[k].0.as_str(), key) {
                return Some(k);
            }
            k = k + 1;
        }
        proof {
            if self@.contains_key(key@) {
                let j = choose|j: int| 0 <= j < table_keys(self.entries@).len() && table_keys(self.entries@)[j] == key@;
                assert(self.entries@[j].0@ == key@);
            }
        }
        None
    }

    /// What `key` maps to, if anything.
    pub fn get(&self, key: &str) -> (out: Option<&V>)
        ensures
            out matches Some(v) ==> self@.contains_key(key@) && self@[key@] == *v,
            out is None ==> !self@.contains_key(key@),
    {
        proof {
            use_type_invariant(self);
        }
        match self.find(key) {
            Some(k) => {
                proof {
                    lemma_table_slot(self.entries@, k as int);
                    assert(table_keys(self.entries@)[k as int] == key@);
                }
                Some(&self.entries[k].1)
            },
            None => None,
        }
    }

    /// Maps `key` to `value`, replacing whatever it mapped to.
    pub fn insert(&mut self, key: &str, value: V)
        ensures
            final(self)@ == old(self)@.insert(key@, value),
    {
        proof {
            use_type_invariant(&*self);
        }
        let ghost before = self.entries@;
        match self.find(key) {
            Some(k) => {
                let mut entries: Vec<(String, V)> = Vec::new();
                std::mem::swap(&mut entries, &mut self.entries);
                entries.set(k, (String::from_str(key), value));
                proof {
                    assert(table_keys(entries@) =~= table_keys(before));
                }
                self.entries = entries;
                proof {
                    lemma_table_slot(before, k as int);
                    assert(table_keys(before)[k as int] == key@);
                    assert(table_keys(self.entries@) =~= table_keys(before));
                    assert forall|a: Seq<char>| #![auto] table_keys(self.entries@).contains(a) implies
                        self.entries@[table_slot(self.entries@, a)].1 == (if a == key@ { value } else { before[table_slot(before, a)].1 }) by {
                        let j = choose|j: int| 0 <= j < table_keys(self.entries@).len() && table_keys(self.entries@)[j] == a;
                        lemma_table_slot(self.entries@, j);
                        lemma_table_slot(before, j);
                    }
                    assert(self@ =~= old(self)@.insert(key@, value));
                }
            },
            None => {
                let mut entries: Vec<(String, V)> = Vec::new();
                std::mem::swap(&mut entries, &mut self.entries);
                entries.push((String::from_str(key), value));
                proof {
                    let keys = table_keys(entries@);
                    assert(keys =~= table_keys(before).push(key@));
                    assert forall|p: int, q: int| 0 <= p < keys.len() && 0 <= q < keys.len() && p != q implies keys[p] != keys[q] by {
                        if p < before.len() && q < before.len() {
                            assert(table_keys(before)[p] == keys[p] && table_keys(before)[q] == keys[q]);
                        } else if p == before.len() {
                            assert(table_keys(before)[q] == keys[q]);
                            assert(table_keys(before).contains(keys[q]));
                        } else {
                            assert(table_keys(before)[p] == keys[p]);
                            assert(table_keys(before).contains(keys[p]));
                        }
                    }
                }
                self.entries = entries;
                proof {
                    let keys = table_keys(self.entries@);
                    assert forall|a: Seq<char>| #![auto] keys.contains(a) implies
                        self.entries@[table_slot(self.entries@, a)].1 == (if a == key@ { value } else { before[table_slot(before, a)].1 }) by {
                        let j = choose|j: int| 0 <= j < keys.len() && keys[j] == a;
                        lemma_table_slot(self.entries@, j);
                        if j < before.len() {
                            assert(table_keys(before)[j] == a);
                            lemma_table_slot(before, j);
                        }
                    }
                    assert forall|a: Seq<char>| #![auto] keys.contains(a) <==> (table_keys(before).contains(a) || a == key@) by {
                        if keys.contains(a) && a != key@ {
                            let j = choose|j: int| 0 <= j < keys.len() && keys[j] == a;
                            assert(table_keys(before)[j] == a);
                        }
                        if table_keys(before).contains(a) {
                            let j = choose|j: int| 0 <= j < table_keys(before).len() && table_keys(before)[j] == a;
                            assert(keys[j] == a);
                        }
                        if a == key@ {
                            assert(keys[before.len() as int] == a);
                        }
                    }
                    assert(self@ =~= old(self)@.insert(key@, value));
                }
            },
        }
    }

    /// Takes `key` out of the table.
    pub fn remove(&mut self, key: &str)
        ensures
            final(self)@ == old(self)@.remove(key@),
    {
        proof {
            use_type_invariant(&*self);
        }
        let ghost before = self.entries@;
        match self.find(key) {
            Some(k) => {
                let mut entries: Vec<(String, V)> = Vec::new();
                std::mem::swap(&mut entries, &mut self.entries);
                let _ = entries.remove(k);
                proof {
                    let keys = table_keys(entries@);
                    let old_keys = table_keys(before);
                    assert(keys =~= old_keys.remove(k as int));
                    assert forall|p: int, q: int| 0 <= p < keys.len() && 0 <= q < keys.len() && p != q implies keys[p] != keys[q] by {
                        let pp = if p < k { p } else { p + 1 };
                        let qq = if q < k { q } else { q + 1 };
                        assert(keys[p] == old_keys[pp] && keys[q] == old_keys[qq]);
                    }
                }
                self.entries = entries;
                proof {
                    lemma_table_slot(before, k as int);
                    assert(table_keys(before)[k as int] == key@);
                    let keys = table_keys(self.entries@);
                    let old_keys = table_keys(before);
                    assert(keys =~= old_keys.remove(k as int));
                    assert forall|a: Seq<char>| #![auto] keys.contains(a) <==> (old_keys.contains(a) && a != key@) by {
                        if keys.contains(a) {
                            let j = choose|j: int| 0 <= j < keys.len() && keys[j] == a;
                            let jj = if j < k { j } else { j + 1 };
                            assert(old_keys[jj] == a);
                        }
                        if old_keys.contains(a) && a != key@ {
                            let j = choose|j: int| 0 <= j < old_keys.len() && old_keys[j] == a;
                            if j < k {
                                assert(keys[j] == a);
                            } else {
                                assert(keys[j - 1] == a);
                            }
                        }
                    }
                    assert forall|a: Seq<char>| #![auto] keys.contains(a) implies
                        self.entries@[table_slot(self.entries@, a)].1 == before[table_slot(before, a)].1 by {
                        let j = choose|j: int| 0 <= j < keys.len() && keys[j] == a;
                        lemma_table_slot(self.entries@, j);
                        let jj = if j < k { j } else { j + 1 };
                        assert(old_keys[jj] == a);
                        lemma_table_slot(before, jj);
                    }
                    assert(self@ =~= old(self)@.remove(key@));
                }
            },
            None => {
                proof {
                    assert(self@ =~= old(self)@.remove(key@));
                }
            },
        }
    }
}

} // verus!
