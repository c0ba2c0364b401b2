//! A map from byte strings that lists its keys in lexicographic order.
use vstd::prelude::*;
use crate::address::Address;
use crate::order::{increasing, place, precedes, Place};
use crate::order::{law_precedes_asymmetric, law_precedes_transitive};

verus! {

/// What can be a key of an [`OrderedMap`]: a value that stands for a byte string.
pub trait ByteKey: View<V = Seq<u8>> {
    /// The bytes by which the key is ordered and found.
    fn key_bytes(&self) -> (bytes: &[u8])
        ensures
            bytes@ == self@,
    ;
}

impl ByteKey for Address {
    fn key_bytes(&self) -> (bytes: &[u8]) {
        self.0.as_slice()
    }
}

impl ByteKey for Vec<u8> {
    fn key_bytes(&self) -> (bytes: &[u8]) {
        self.as_slice()
    }
}

/// The keys of a sequence of entries, in the order of the entries.
pub open spec fn keys_of<K: ByteKey, V>(entries: Seq<(K, V)>) -> Seq<Seq<u8>> {
    entries.map_values(|entry: (K, V)| entry.0@)
}

/// The map that a sequence of entries with distinct keys stands for.
pub open spec fn map_of<K: ByteKey, V>(entries: Seq<(K, V)>) -> Map<Seq<u8>, V> {
    Map::new(
        |key: Seq<u8>| keys_of(entries).contains(key),
        |key: Seq<u8>| entries[keys_of(entries).index_of(key)].1,
    )
}

/// `keys` lists the keys of `map`, each once, in increasing order.
pub open spec fn lists<V>(keys: Seq<Seq<u8>>, map: Map<Seq<u8>, V>) -> bool {
    &&& increasing(keys)
    &&& forall|key: Seq<u8>| #[trigger] map.contains_key(key) <==> keys.contains(key)
}

/// A map whose entries are kept in increasing order of their keys.
#[derive(Debug)]
pub struct OrderedMap<K: ByteKey, V> {
    entries: Vec<(K, V)>,
}

impl<K: ByteKey, V> View for OrderedMap<K, V> {
    type V = Map<Seq<u8>, V>;

    closed spec fn view(&self) -> Map<Seq<u8>, V> {
        map_of(self.entries@)
    }
}

impl<K: ByteKey, V> OrderedMap<K, V> {
    #[verifier::type_invariant]
    spec fn is_sorted(self) -> bool {
        increasing(keys_of(self.entries@))
    }

    /// The keys in the order in which the map lists them.
    pub closed spec fn keys(&self) -> Seq<Seq<u8>> {
        keys_of(self.entries@)
    }

    /// A map without entries.
    pub fn new() -> (map: Self)
        ensures
            map@ == Map::<Seq<u8>, V>::empty(),
    {
        let map = OrderedMap { entries: Vec::new() };
        assert(map@ =~= Map::<Seq<u8>, V>::empty());
        map
    }

    /// The number of entries.
    pub fn len(&self) -> (n: usize)
        ensures
            n == self.keys().len(),
            lists(self.keys(), self@),
    {
        proof {
            use_type_invariant(self);
        }
        self.entries.len()
    }

    /// The key and the value that stand at place `i` of the listing.
    pub fn entry(&self, i: usize) -> (entry: (&K, &V))
        requires
            i < self.keys().len(),
        ensures
            entry.0@ == self.keys()[i as int],
            self@.contains_key(entry.0@),
            *entry.1 == self@[entry.0@],
    {
        proof {
            use_type_invariant(self);
            lemma_entry(self.entries@, i as int);
        }
        let entry = &self.entries[i];
        (&entry.0, &entry.1)
    }

    /// The place of `key` in the listing, or the place where it would have to go.
    fn search(&self, key: &K) -> (found: Result<usize, usize>)
        ensures
            match found {
                Ok(i) => i < self.entries@.len() && self.entries@[i as int].0@ == key@,
                Err(i) => {
                    &&& i <= self.entries@.len()
                    &&& forall|j: int|
                        0 <= j < i ==> precedes(#[trigger] self.entries@[j].0@, key@)
                    &&& forall|j: int|
                        i <= j < self.entries@.len() ==> precedes(
                            key@,
                            #[trigger] self.entries@[j].0@,
                        )
                },
            },
    {
        proof {
            use_type_invariant(self);
        }
        let mut low: usize = 0;
        let mut high: usize = self.entries.len();
        while low < high
            invariant
                low <= high <= self.entries@.len(),
                increasing(keys_of(self.entries@)),
                forall|j: int| 0 <= j < low ==> precedes(#[trigger] self.entries@[j].0@, key@),
                forall|j: int|
                    high <= j < self.entries@.len() ==> precedes(
                        key@,
                        #[trigger] self.entries@[j].0@,
                    ),
            decreases high - low,
        {
            let mid: usize = low + (high - low) / 2;
            let ghost keys = keys_of(self.entries@);
            match place(self.entries[mid].0.key_bytes(), key.key_bytes()) {
                Place::Same => {
                    return Ok(mid);
                },
                Place::Before => {
                    assert forall|j: int| 0 <= j < mid + 1 implies precedes(
                        #[trigger] self.entries@[j].0@,
                        key@,
                    ) by {
                        if j < mid {
                            assert(precedes(keys[j], keys[mid as int]));
                            law_precedes_transitive(keys[j], keys[mid as int], key@);
                        }
                    }
                    low = mid + 1;
                },
                Place::After => {
                    assert forall|j: int| mid <= j < self.entries@.len() implies precedes(
                        key@,
                        #[trigger] self.entries@[j].0@,
                    ) by {
                        if mid < j {
                            assert(precedes(keys[mid as int], keys[j]));
                            law_precedes_transitive(key@, keys[mid as int], keys[j]);
                        }
                    }
                    high = mid;
                },
            }
        }
        Err(low)
    }

    /// The value of `key`, if the map has one.
    pub fn get(&self, key: &K) -> (value: Option<&V>)
        ensures
            match value {
                Some(v) => self@.contains_key(key@) && *v == self@[key@],
                None => !self@.contains_key(key@),
            },
    {
        proof {
            use_type_invariant(self);
        }
        match self.search(key) {
            Ok(i) => {
                proof {
                    lemma_entry(self.entries@, i as int);
                }
                Some(&self.entries[i].1)
            },
            Err(i) => {
                proof {
                    lemma_absent(self.entries@, key@, i as int);
                }
                None
            },
        }
    }

    /// Gives `key` the value `value`, whatever it had before.
    pub fn insert(&mut self, key: K, value: V)
        ensures
            final(self)@ == old(self)@.insert(key@, value),
    {
        proof {
            use_type_invariant(&*self);
        }
        let ghost before = self.entries@;
        let found = self.search(&key);
        let mut entries: Vec<(K, V)> = Vec::new();
        std::mem::swap(&mut entries, &mut self.entries);
        match found {
            Ok(i) => {
                proof {
                    lemma_replace(before, i as int, (key, value));
                }
                entries.set(i, (key, value));
            },
            Err(i) => {
                proof {
                    lemma_insert(before, i as int, (key, value));
                }
                entries.insert(i, (key, value));
            },
        }
        self.entries = entries;
    }

    /// Takes `key` out of the map and hands back the value that it had.
    pub fn remove(&mut self, key: &K) -> (value: Option<V>)
        ensures
            final(self)@ == old(self)@.remove(key@),
            match value {
                Some(v) => old(self)@.contains_key(key@) && v == old(self)@[key@],
                None => !old(self)@.contains_key(key@),
            },
    {
        proof {
            use_type_invariant(&*self);
        }
        let ghost before = self.entries@;
        match self.search(key) {
            Ok(i) => {
                let mut entries: Vec<(K, V)> = Vec::new();
                std::mem::swap(&mut entries, &mut self.entries);
                proof {
                    lemma_entry(before, i as int);
                    lemma_remove(before, i as int);
                }
                let entry = entries.remove(i);
                self.entries = entries;
                Some(entry.1)
            },
            Err(i) => {
                proof {
                    lemma_absent(before, key@, i as int);
                    assert(map_of(before).remove(key@) =~= map_of(before));
                }
                None
            },
        }
    }
}

/// In an increasing listing equal keys stand at equal places.
proof fn lemma_same_place(keys: Seq<Seq<u8>>, i: int, j: int)
    requires
        increasing(keys),
        0 <= i < keys.len(),
        0 <= j < keys.len(),
        keys[i] == keys[j],
    ensures
        i == j,
{
    if i < j {
        law_precedes_asymmetric(keys[i], keys[j]);
    } else if j < i {
        law_precedes_asymmetric(keys[j], keys[i]);
    }
}

proof fn lemma_entry<K: ByteKey, V>(entries: Seq<(K, V)>, i: int)
    requires
        increasing(keys_of(entries)),
        0 <= i < entries.len(),
    ensures
        map_of(entries).contains_key(entries[i].0@),
        map_of(entries)[entries[i].0@] == entries[i].1,
{
    let keys = keys_of(entries);
    assert(keys[i] == entries[i].0@);
    assert(keys.contains(keys[i]));
    lemma_same_place(keys, i, keys.index_of(keys[i]));
}

proof fn lemma_absent<K: ByteKey, V>(entries: Seq<(K, V)>, key: Seq<u8>, i: int)
    requires
        0 <= i <= entries.len(),
        forall|j: int| 0 <= j < i ==> precedes(#[trigger] entries[j].0@, key),
        forall|j: int| i <= j < entries.len() ==> precedes(key, #[trigger] entries[j].0@),
    ensures
        !map_of(entries).contains_key(key),
{
    let keys = keys_of(entries);
    if keys.contains(key) {
        let j = keys.index_of(key);
        assert(entries[j].0@ == key);
        law_precedes_asymmetric(key, key);
    }
}

/// Two increasing listings stand for the same map if each entry of one is in the map of the other.
proof fn lemma_map_of<K: ByteKey, V>(entries: Seq<(K, V)>, map: Map<Seq<u8>, V>)
    requires
        increasing(keys_of(entries)),
        forall|j: int|
            0 <= j < entries.len() ==> map.contains_key((#[trigger] entries[j]).0@)
                && map[entries[j].0@] == entries[j].1,
        forall|key: Seq<u8>| #[trigger]
            map.contains_key(key) ==> keys_of(entries).contains(key),
    ensures
        map_of(entries) == map,
{
    let keys = keys_of(entries);
    assert forall|key: Seq<u8>| #[trigger] map_of(entries).contains_key(key) implies {
        &&& map.contains_key(key)
        &&& map_of(entries)[key] == map[key]
    } by {
        let j = keys.index_of(key);
        assert(entries[j].0@ == key);
        lemma_entry(entries, j);
    }
    assert(map_of(entries) =~= map);
}

proof fn lemma_replace<K: ByteKey, V>(entries: Seq<(K, V)>, i: int, entry: (K, V))
    requires
        increasing(keys_of(entries)),
        0 <= i < entries.len(),
        entries[i].0@ == entry.0@,
    ensures
        increasing(keys_of(entries.update(i, entry))),
        map_of(entries.update(i, entry)) == map_of(entries).insert(entry.0@, entry.1),
{
    let after = entries.update(i, entry);
    let map = map_of(entries).insert(entry.0@, entry.1);
    assert(keys_of(after) =~= keys_of(entries));
    assert forall|j: int| 0 <= j < after.len() implies map.contains_key((#[trigger] after[j]).0@)
        && map[after[j].0@] == after[j].1 by {
        lemma_entry(entries, j);
        if j != i && after[j].0@ == entry.0@ {
            lemma_same_place(keys_of(entries), i, j);
        }
    }
    assert(keys_of(after)[i] == entry.0@);
    lemma_map_of(after, map);
}

proof fn lemma_insert<K: ByteKey, V>(entries: Seq<(K, V)>, i: int, entry: (K, V))
    requires
        increasing(keys_of(entries)),
        0 <= i <= entries.len(),
        forall|j: int| 0 <= j < i ==> precedes(#[trigger] entries[j].0@, entry.0@),
        forall|j: int| i <= j < entries.len() ==> precedes(entry.0@, #[trigger] entries[j].0@),
    ensures
        increasing(keys_of(entries.insert(i, entry))),
        map_of(entries.insert(i, entry)) == map_of(entries).insert(entry.0@, entry.1),
{
    let after = entries.insert(i, entry);
    let map = map_of(entries).insert(entry.0@, entry.1);
    let keys = keys_of(entries);
    let keys_after = keys_of(after);
    assert(keys_after =~= keys.insert(i, entry.0@));
    lemma_absent(entries, entry.0@, i);
    assert forall|j: int, k: int| 0 <= j < k < keys_after.len() implies precedes(
        #[trigger] keys_after[j],
        #[trigger] keys_after[k],
    ) by {
        let old_j = if j < i {
            j
        } else {
            j - 1
        };
        let old_k = if k < i {
            k
        } else {
            k - 1
        };
        if j == i {
            assert(precedes(entry.0@, entries[old_k].0@));
        } else if k == i {
            assert(precedes(entries[old_j].0@, entry.0@));
        } else {
            assert(precedes(keys[old_j], keys[old_k]));
        }
    }
    assert forall|j: int| 0 <= j < after.len() implies map.contains_key((#[trigger] after[j]).0@)
        && map[after[j].0@] == after[j].1 by {
        if j < i {
            lemma_entry(entries, j);
            assert(after[j] == entries[j]);
        } else if j > i {
            lemma_entry(entries, j - 1);
            assert(after[j] == entries[j - 1]);
        }
    }
    assert forall|key: Seq<u8>| #[trigger] map.contains_key(key) implies keys_after.contains(
        key,
    ) by {
        if key == entry.0@ {
            assert(keys_after[i] == key);
        } else {
            let j = keys.index_of(key);
            if j < i {
                assert(keys_after[j] == key);
            } else {
                assert(keys_after[j + 1] == key);
            }
        }
    }
    lemma_map_of(after, map);
}

proof fn lemma_remove<K: ByteKey, V>(entries: Seq<(K, V)>, i: int)
    requires
        increasing(keys_of(entries)),
        0 <= i < entries.len(),
    ensures
        increasing(keys_of(entries.remove(i))),
        map_of(entries.remove(i)) == map_of(entries).remove(entries[i].0@),
{
    let after = entries.remove(i);
    let map = map_of(entries).remove(entries[i].0@);
    let keys = keys_of(entries);
    let keys_after = keys_of(after);
    assert(keys_after =~= keys.remove(i));
    assert forall|j: int, k: int| 0 <= j < k < keys_after.len() implies precedes(
        #[trigger] keys_after[j],
        #[trigger] keys_after[k],
    ) by {
        let old_j = if j < i {
            j
        } else {
            j + 1
        };
        let old_k = if k < i {
            k
        } else {
            k + 1
        };
        assert(precedes(keys[old_j], keys[old_k]));
    }
    assert forall|j: int| 0 <= j < after.len() implies map.contains_key((#[trigger] after[j]).0@)
        && map[after[j].0@] == after[j].1 by {
        let old_j = if j < i {
            j
        } else {
            j + 1
        };
        assert(after[j] == entries[old_j]);
        lemma_entry(entries, old_j);
        if entries[old_j].0@ == entries[i].0@ {
            lemma_same_place(keys, i, old_j);
        }
    }
    assert forall|key: Seq<u8>| #[trigger] map.contains_key(key) implies keys_after.contains(
        key,
    ) by {
        let j = keys.index_of(key);
        assert(keys[i] == entries[i].0@);
        if j < i {
            assert(keys_after[j] == key);
        } else {
            assert(keys_after[j - 1] == key);
        }
    }
    lemma_map_of(after, map);
}

/// A listing of the keys of a map has every key of the map at exactly one place, nothing else, and
/// an earlier key before a later one.
pub proof fn law_listed_once_in_order<V>(keys: Seq<Seq<u8>>, map: Map<Seq<u8>, V>, key: Seq<u8>)
    requires
        lists(keys, map),
    ensures
        map.contains_key(key) <==> exists|i: int| 0 <= i < keys.len() && #[trigger] keys[i] == key,
        forall|i: int, j: int|
            0 <= i < keys.len() && 0 <= j < keys.len() && #[trigger] keys[i] == key
                && #[trigger] keys[j] == key ==> i == j,
        forall|i: int, j: int|
            0 <= i < j < keys.len() ==> precedes(#[trigger] keys[i], #[trigger] keys[j]),
{
    assert forall|i: int, j: int|
        0 <= i < keys.len() && 0 <= j < keys.len() && #[trigger] keys[i] == key
            && #[trigger] keys[j] == key implies i == j by {
        lemma_same_place(keys, i, j);
    }
    if map.contains_key(key) {
        let i = keys.index_of(key);
        assert(keys[i] == key);
    }
}

} // verus!
