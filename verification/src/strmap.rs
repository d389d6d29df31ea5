//! A map keyed by strings, held as a vector of entries in strictly ascending
//! key order, so that two maps with the same contents are the same value.

use crate::text::{lemma_lex_lt_irreflexive, lemma_lex_lt_total, lemma_lex_lt_transitive, lex_lt, str_eq, str_lt};
use vstd::prelude::*;

verus! {

/// The keys of `entries` ascend strictly.
pub open spec fn keys_ascend<V>(entries: Seq<(String, V)>) -> bool {
    forall|i: int, j: int| 0 <= i < j < entries.len() ==> lex_lt(#[trigger] entries[i].0@, #[trigger] entries[j].0@)
}

/// Some entry of `entries` has the key `key`.
pub open spec fn has_key<V>(entries: Seq<(String, V)>, key: Seq<char>) -> bool {
    exists|i: int| 0 <= i < entries.len() && #[trigger] entries[i].0@ == key
}

/// The place of an entry with the key `key`.
pub open spec fn place_of<V>(entries: Seq<(String, V)>, key: Seq<char>) -> int {
    choose|i: int| 0 <= i < entries.len() && #[trigger] entries[i].0@ == key
}

/// The map that `entries` stands for.
pub open spec fn entries_map<V>(entries: Seq<(String, V)>) -> Map<Seq<char>, V> {
    Map::new(|key: Seq<char>| has_key(entries, key), |key: Seq<char>| entries[place_of(entries, key)].1)
}

/// In ascending entries a key stands at one place only.
proof fn lemma_place_unique<V>(entries: Seq<(String, V)>, i: int)
    requires
        keys_ascend(entries),
        0 <= i < entries.len(),
    ensures
        has_key(entries, entries[i].0@),
        place_of(entries, entries[i].0@) == i,
        entries_map(entries).contains_key(entries[i].0@),
        entries_map(entries)[entries[i].0@] == entries[i].1,
{
    let key = entries[i].0@;
    let p = place_of(entries, key);
    lemma_lex_lt_irreflexive(key);
    if p < i {
        assert(lex_lt(entries[p].0@, entries[i].0@));
    } else if i < p {
        assert(lex_lt(entries[i].0@, entries[p].0@));
    }
}

/// A map from strings to `V`, with the keys in ascending order.
#[derive(PartialEq, Eq, PartialOrd, Ord, Debug)]
pub struct StrMap<V> {
    entries: Vec<(String, V)>,
}

impl<V> StrMap<V> {
    #[verifier::type_invariant]
    closed spec fn ascending(self) -> bool {
        keys_ascend(self.entries@)
    }

    /// The entries, in key order.
    pub closed spec fn entries(&self) -> Seq<(String, V)> {
        self.entries@
    }

    /// A value of the map is smaller than the map, as recursion counts size.
    pub proof fn lemma_value_decreases(&self, index: int)
        requires
            0 <= index < self.entries().len(),
        ensures
            decreases_to!(*self => self.entries()[index].1),
    {
        broadcast use vstd::std_specs::vec::axiom_vec_decreases_to_view;

        assert(decreases_to!(*self => self.entries));
        assert(decreases_to!(self.entries => self.entries@));
        assert(decreases_to!(self.entries@ => self.entries@[index]));
        assert(decreases_to!(self.entries@[index] => self.entries@[index].1));
    }

    /// The map is what its entries stand for.
    pub proof fn lemma_view(&self)
        ensures
            self@ == entries_map(self.entries()),
    {
    }

    /// The map as a mathematical map from keys to values.
    pub closed spec fn view(&self) -> Map<Seq<char>, V> {
        entries_map(self.entries@)
    }

    /// The empty map.
    pub fn new() -> (map: Self)
        ensures
            map@ == Map::<Seq<char>, V>::empty(),
            map.entries().len() == 0,
    {
        let map = StrMap { entries: Vec::new() };
        assert(map@ =~= Map::<Seq<char>, V>::empty());
        map
    }

    /// The map of `entries`, which ascend by key.
    pub(crate) fn from_ascending(entries: Vec<(String, V)>) -> (map: Self)
        requires
            keys_ascend(entries@),
        ensures
            map.entries() == entries@,
            map@ == entries_map(entries@),
    {
        StrMap { entries }
    }

    /// The number of entries.
    pub fn len(&self) -> (n: usize)
        ensures
            n == self.entries().len(),
            n == self@.len(),
            self@.dom().finite(),
            keys_ascend(self.entries()),
    {
        proof {
            use_type_invariant(self);
            lemma_entries_count(self.entries@);
        }
        self.entries.len()
    }

    /// The first place whose key does not precede `key`, by bisection.
    fn lower_bound(&self, key: &str) -> (at: usize)
        ensures
            at <= self.entries@.len(),
            forall|i: int| 0 <= i < at ==> lex_lt(#[trigger] self.entries@[i].0@, key@),
            at < self.entries@.len() ==> !lex_lt(self.entries@[at as int].0@, key@),
    {
        proof {
            use_type_invariant(self);
        }
        let mut low: usize = 0;
        let mut high: usize = self.entries.len();
        while low < high
            invariant
                low <= high <= self.entries@.len(),
                keys_ascend(self.entries@),
                forall|i: int| 0 <= i < low ==> lex_lt(#[trigger] self.entries@[i].0@, key@),
                high < self.entries@.len() ==> !lex_lt(self.entries@[high as int].0@, key@),
            decreases high - low,
        {
            let mid = low + (high - low) / 2;
            if str_lt(self.entries[mid].0.as_str(), key) {
                proof {
                    assert forall|i: int| 0 <= i < mid + 1 implies lex_lt(
                        #[trigger] self.entries@[i].0@,
                        key@,
                    ) by {
                        if i < mid {
                            assert(lex_lt(self.entries@[i].0@, self.entries@[mid as int].0@));
                            lemma_lex_lt_transitive(
                                self.entries@[i].0@,
                                self.entries@[mid as int].0@,
                                key@,
                            );
                        }
                    }
                }
                low = mid + 1;
            } else {
                high = mid;
            }
        }
        low
    }

    /// The value under `key`, if the map has one.
    pub fn get(&self, key: &str) -> (found: Option<&V>)
        ensures
            self@.contains_key(key@) ==> found == Some(&self@[key@]),
            !self@.contains_key(key@) ==> found is None,
    {
        proof {
            use_type_invariant(self);
        }
        let at = self.lower_bound(key);
        if at < self.entries.len() && str_eq(self.entries[at].0.as_str(), key) {
            proof {
                lemma_place_unique(self.entries@, at as int);
            }
            Some(&self.entries[at].1)
        } else {
            proof {
                lemma_absent(self.entries@, key@, at as int);
            }
            None
        }
    }

    /// Whether the map has a value under `key`.
    pub fn contains_key(&self, key: &str) -> (found: bool)
        ensures
            found == self@.contains_key(key@),
    {
        self.get(key).is_some()
    }

    /// Puts `value` under `key` and hands back the value that stood there.
    pub fn insert(&mut self, key: String, value: V) -> (before: Option<V>)
        ensures
            final(self)@ == old(self)@.insert(key@, value),
            before == if old(self)@.contains_key(key@) {
                Some(old(self)@[key@])
            } else {
                None
            },
    {
        proof {
            use_type_invariant(&*self);
        }
        let ghost prior = self.entries@;
        let at = self.lower_bound(key.as_str());
        let mut entries: Vec<(String, V)> = Vec::new();
        core::mem::swap(&mut self.entries, &mut entries);
        if at < entries.len() && str_eq(entries[at].0.as_str(), key.as_str()) {
            let gone = entries.remove(at);
            entries.insert(at, (key, value));
            proof {
                lemma_place_unique(prior, at as int);
                lemma_replaced(prior, at as int, entries@[at as int]);
                assert(entries@ =~= prior.update(at as int, entries@[at as int]));
            }
            self.entries = entries;
            Some(gone.1)
        } else {
            entries.insert(at, (key, value));
            proof {
                lemma_absent(prior, key@, at as int);
                lemma_inserted(prior, at as int, entries@[at as int]);
            }
            self.entries = entries;
            None
        }
    }

    /// The key of the entry at `index`, counted in key order.
    pub fn key_at(&self, index: usize) -> (key: &str)
        requires
            index < self.entries().len(),
        ensures
            key@ == self.entries()[index as int].0@,
    {
        self.entries[index].0.as_str()
    }

    /// The value of the entry at `index`, counted in key order.
    pub fn value_at(&self, index: usize) -> (value: &V)
        requires
            index < self.entries().len(),
        ensures
            *value == self.entries()[index as int].1,
    {
        &self.entries[index].1
    }
}

impl<V: Clone> Clone for StrMap<V> {
    /// A map with the same keys, each value a clone of the one it stands for.
    fn clone(&self) -> (copy: Self)
        ensures
            copy.entries().len() == self.entries().len(),
            forall|i: int|
                0 <= i < self.entries().len() ==> (#[trigger] copy.entries()[i]).0@ == self.entries()[i].0@
                    && cloned(self.entries()[i].1, copy.entries()[i].1),
    {
        proof {
            use_type_invariant(self);
        }
        let mut entries: Vec<(String, V)> = Vec::new();
        let mut i: usize = 0;
        while i < self.entries.len()
            invariant
                i <= self.entries@.len(),
                entries@.len() == i,
                forall|k: int|
                    0 <= k < i ==> (#[trigger] entries@[k]).0@ == self.entries@[k].0@ && cloned(
                        self.entries@[k].1,
                        entries@[k].1,
                    ),
            decreases self.entries@.len() - i,
        {
            let key = self.entries[i].0.clone();
            let value = self.entries[i].1.clone();
            entries.push((key, value));
            i += 1;
        }
        proof {
            assert forall|a: int, b: int| 0 <= a < b < entries@.len() implies lex_lt(
                #[trigger] entries@[a].0@,
                #[trigger] entries@[b].0@,
            ) by {
                assert(lex_lt(self.entries@[a].0@, self.entries@[b].0@));
            }
        }
        StrMap { entries }
    }
}


/// Ascending entries hold as many keys as they are long.
proof fn lemma_entries_count<V>(entries: Seq<(String, V)>)
    requires
        keys_ascend(entries),
    ensures
        entries_map(entries).dom().finite(),
        entries_map(entries).dom().len() == entries.len(),
    decreases entries.len(),
{
    let dom = entries_map(entries).dom();
    if entries.len() == 0 {
        assert(dom =~= Set::<Seq<char>>::empty());
    } else {
        let init = entries.drop_last();
        let last = entries.last().0@;
        assert forall|i: int, j: int| 0 <= i < j < init.len() implies lex_lt(
            #[trigger] init[i].0@,
            #[trigger] init[j].0@,
        ) by {
            assert(init[i] == entries[i] && init[j] == entries[j]);
        }
        lemma_entries_count(init);
        let rest = entries_map(init).dom();
        lemma_lex_lt_irreflexive(last);
        assert(!rest.contains(last)) by {
            if has_key(init, last) {
                let p = place_of(init, last);
                assert(init[p] == entries[p]);
                assert(lex_lt(entries[p].0@, entries[entries.len() - 1].0@));
            }
        }
        assert(dom =~= rest.insert(last)) by {
            assert forall|key: Seq<char>| dom.contains(key) == rest.insert(last).contains(key) by {
                if has_key(entries, key) {
                    let p = place_of(entries, key);
                    if p < init.len() {
                        assert(init[p].0@ == key);
                    }
                }
                if has_key(init, key) {
                    let p = place_of(init, key);
                    assert(entries[p].0@ == key);
                }
                if key == last {
                    assert(entries[entries.len() - 1].0@ == key);
                }
            }
        }
    }
}

/// Where the first key that does not precede `key` differs from it, no entry
/// has that key.
proof fn lemma_absent<V>(entries: Seq<(String, V)>, key: Seq<char>, at: int)
    requires
        keys_ascend(entries),
        0 <= at <= entries.len(),
        forall|i: int| 0 <= i < at ==> lex_lt(#[trigger] entries[i].0@, key),
        at < entries.len() ==> !lex_lt(entries[at].0@, key) && entries[at].0@ != key,
    ensures
        !has_key(entries, key),
        !entries_map(entries).contains_key(key),
        at < entries.len() ==> lex_lt(key, entries[at].0@),
        forall|i: int| at <= i < entries.len() ==> lex_lt(key, #[trigger] entries[i].0@),
{
    lemma_lex_lt_irreflexive(key);
    if at < entries.len() {
        lemma_lex_lt_total(entries[at].0@, key);
    }
    assert forall|i: int| at <= i < entries.len() implies lex_lt(key, #[trigger] entries[i].0@) by {
        if at < i {
            assert(lex_lt(entries[at].0@, entries[i].0@));
            lemma_lex_lt_transitive(key, entries[at].0@, entries[i].0@);
        }
    }
    assert forall|i: int| 0 <= i < entries.len() implies #[trigger] entries[i].0@ != key by {
        if i < at {
            assert(lex_lt(entries[i].0@, key));
        } else {
            assert(lex_lt(key, entries[i].0@));
        }
    }
}

/// A new entry put at its place in the order adds its key to the map.
proof fn lemma_inserted<V>(entries: Seq<(String, V)>, at: int, entry: (String, V))
    requires
        keys_ascend(entries),
        0 <= at <= entries.len(),
        forall|i: int| 0 <= i < at ==> lex_lt(#[trigger] entries[i].0@, entry.0@),
        forall|i: int| at <= i < entries.len() ==> lex_lt(entry.0@, #[trigger] entries[i].0@),
    ensures
        keys_ascend(entries.insert(at, entry)),
        entries_map(entries.insert(at, entry)) == entries_map(entries).insert(entry.0@, entry.1),
{
    let after = entries.insert(at, entry);
    assert forall|i: int, j: int| 0 <= i < j < after.len() implies lex_lt(
        #[trigger] after[i].0@,
        #[trigger] after[j].0@,
    ) by {
        if j < at {
            assert(lex_lt(entries[i].0@, entries[j].0@));
        } else if j == at {
            assert(lex_lt(entries[i].0@, entry.0@));
        } else if i < at {
            assert(lex_lt(entries[i].0@, entries[j - 1].0@));
        } else if i == at {
            assert(lex_lt(entry.0@, entries[j - 1].0@));
        } else {
            assert(lex_lt(entries[i - 1].0@, entries[j - 1].0@));
        }
    }
    let left = entries_map(after);
    let right = entries_map(entries).insert(entry.0@, entry.1);
    assert forall|key: Seq<char>| left.contains_key(key) == right.contains_key(key) by {
        if has_key(after, key) {
            let p = place_of(after, key);
            if p < at {
                assert(entries[p].0@ == key);
            } else if p > at {
                assert(entries[p - 1].0@ == key);
            }
        }
        if has_key(entries, key) {
            let p = place_of(entries, key);
            if p < at {
                assert(after[p].0@ == key);
            } else {
                assert(after[p + 1].0@ == key);
            }
        }
        if key == entry.0@ {
            assert(after[at].0@ == key);
        }
    }
    assert forall|key: Seq<char>| left.contains_key(key) implies left[key] == right[key] by {
        let p = place_of(after, key);
        lemma_place_unique(after, p);
        lemma_place_unique(after, at);
        if p < at {
            assert(after[p] == entries[p]);
            lemma_place_unique(entries, p);
        } else if p > at {
            assert(after[p] == entries[p - 1]);
            lemma_place_unique(entries, p - 1);
        }
    }
    assert(left =~= right);
}

/// An entry put in the place of one with the same key changes that key's
/// value only.
proof fn lemma_replaced<V>(entries: Seq<(String, V)>, at: int, entry: (String, V))
    requires
        keys_ascend(entries),
        0 <= at < entries.len(),
        entries[at].0@ == entry.0@,
    ensures
        keys_ascend(entries.update(at, entry)),
        entries_map(entries.update(at, entry)) == entries_map(entries).insert(entry.0@, entry.1),
{
    let after = entries.update(at, entry);
    assert forall|i: int, j: int| 0 <= i < j < after.len() implies lex_lt(
        #[trigger] after[i].0@,
        #[trigger] after[j].0@,
    ) by {
        assert(after[i].0@ == entries[i].0@ && after[j].0@ == entries[j].0@);
        assert(lex_lt(entries[i].0@, entries[j].0@));
    }
    let left = entries_map(after);
    let right = entries_map(entries).insert(entry.0@, entry.1);
    assert forall|key: Seq<char>| left.contains_key(key) == right.contains_key(key) by {
        if has_key(after, key) {
            let p = place_of(after, key);
            assert(entries[p].0@ == key);
        }
        if has_key(entries, key) {
            let p = place_of(entries, key);
            assert(after[p].0@ == key);
        }
        if key == entry.0@ {
            assert(after[at].0@ == key);
        }
    }
    assert forall|key: Seq<char>| left.contains_key(key) implies left[key] == right[key] by {
        let p = place_of(after, key);
        lemma_place_unique(after, p);
        lemma_place_unique(after, at);
        if p != at {
            assert(after[p] == entries[p]);
            lemma_place_unique(entries, p);
        }
    }
    assert(left =~= right);
}

} // verus!
