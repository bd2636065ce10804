//! A table keyed by 32-byte hashes that remembers the order of insertion.

use std::collections::HashMap;
use vstd::prelude::*;

verus! {

broadcast use vstd::std_specs::hash::group_hash_axioms;

/// A 32-byte hash, in the byte order of its consensus encoding.
#[derive(Clone, Copy, Debug, PartialEq, Eq)]
pub struct Hash256 {
    pub bytes: [u8; 32],
}

/// The id of a transaction.
pub type Txid = Hash256;

/// The hash of a block.
pub type BlockHash = Hash256;

impl Hash256 {
    /// Whether the two hashes are the same.
    pub fn same(&self, other: &Hash256) -> (r: bool)
        ensures
            r == (*self == *other),
    {
        let mut i: usize = 0;
        while i < 32
            invariant
                i <= 32,
                forall|j: int| 0 <= j < i ==> self.bytes@[j] == other.bytes@[j],
            decreases 32 - i,
        {
            if self.bytes[i] != other.bytes[i] {
                return false;
            }
            i += 1;
        }
        assert(self.bytes@ =~= other.bytes@);
        assert(self.bytes == other.bytes);
        true
    }

    /// The bucket of the index that the hash falls into.
    spec fn bucket_spec(self) -> u64 {
        (self.bytes@[0] as u64) | ((self.bytes@[1] as u64) << 8) | ((self.bytes@[2] as u64) << 16)
            | ((self.bytes@[3] as u64) << 24) | ((self.bytes@[4] as u64) << 32) | ((
        self.bytes@[5] as u64) << 40) | ((self.bytes@[6] as u64) << 48) | ((
        self.bytes@[7] as u64) << 56)
    }

    fn bucket(&self) -> (b: u64)
        ensures
            b == self.bucket_spec(),
    {
        let b = &self.bytes;
        (b[0] as u64) | ((b[1] as u64) << 8) | ((b[2] as u64) << 16) | ((b[3] as u64) << 24) | ((
        b[4] as u64) << 32) | ((b[5] as u64) << 40) | ((b[6] as u64) << 48) | ((b[7] as u64) << 56)
    }
}

/// The keys of a list of entries.
pub open spec fn keys_of<V>(entries: Seq<(Hash256, V)>) -> Seq<Hash256> {
    entries.map_values(|e: (Hash256, V)| e.0)
}

/// The map that a list of entries with distinct keys denotes.
pub open spec fn map_of<V>(entries: Seq<(Hash256, V)>) -> Map<Hash256, V> {
    Map::new(
        |k: Hash256| keys_of(entries).contains(k),
        |k: Hash256| entries[keys_of(entries).index_of(k)].1,
    )
}

/// A map from hashes to values. The entries have an order: that of their insertion.
#[verifier::reject_recursive_types(V)]
pub struct HashTable<V> {
    slots: Vec<(Hash256, V)>,
    index: HashMap<u64, Vec<usize>>,
}

impl<V> View for HashTable<V> {
    type V = Map<Hash256, V>;

    closed spec fn view(&self) -> Map<Hash256, V> {
        map_of(self.slots@)
    }
}

/// Whether each slot is listed in its bucket, and nothing but slots is listed.
spec fn indexes<V>(index: Map<u64, Vec<usize>>, slots: Seq<(Hash256, V)>) -> bool {
    &&& forall|i: int|
        #![trigger slots[i]]
        0 <= i < slots.len() ==> {
            &&& index.contains_key(slots[i].0.bucket_spec())
            &&& index[slots[i].0.bucket_spec()]@.contains(i as usize)
        }
    &&& forall|b: u64, j: int|
        #![trigger index[b]@[j]]
        index.contains_key(b) && 0 <= j < index[b]@.len() ==> index[b]@[j] < slots.len()
}

/// Extends an index of the first `at` slots by the next one.
fn index_slot<V>(index: &mut HashMap<u64, Vec<usize>>, slots: &Vec<(Hash256, V)>, at: usize)
    requires
        at < slots@.len(),
        indexes(old(index)@, slots@.take(at as int)),
    ensures
        indexes(final(index)@, slots@.take(at + 1)),
{
    let bucket: u64 = slots[at].0.bucket();
    let mut listed = match index.remove(&bucket) {
        Some(listed) => listed,
        None => Vec::new(),
    };
    let ghost before = listed@;
    listed.push(at);
    let ghost after = listed@;
    index.insert(bucket, listed);
    proof {
        let less = slots@.take(at as int);
        let more = slots@.take(at + 1);
        assert forall|i: int| #![trigger more[i]] 0 <= i < more.len() implies {
            &&& index@.contains_key(more[i].0.bucket_spec())
            &&& index@[more[i].0.bucket_spec()]@.contains(i as usize)
        } by {
            if i < at {
                assert(more[i] == less[i]);
                let b = less[i].0.bucket_spec();
                assert(old(index)@[b]@.contains(i as usize));
                if b == bucket {
                    let j = choose|j: int| 0 <= j < before.len() && before[j] == i as usize;
                    assert(after[j] == i as usize);
                }
            } else {
                assert(after[before.len() as int] == at);
            }
        }
        assert forall|b: u64, j: int|
            #![trigger index@[b]@[j]]
            index@.contains_key(b) && 0 <= j < index@[b]@.len() implies index@[b]@[j]
            < more.len() by {
            if b == bucket {
                if j < before.len() {
                    assert(old(index)@[b]@[j] == before[j]);
                }
            } else {
                assert(old(index)@[b]@[j] < less.len());
            }
        }
    }
}

/// The index of `slots`.
fn index_slots<V>(slots: &Vec<(Hash256, V)>) -> (index: HashMap<u64, Vec<usize>>)
    ensures
        indexes(index@, slots@),
{
    let mut index: HashMap<u64, Vec<usize>> = HashMap::new();
    let mut i: usize = 0;
    while i < slots.len()
        invariant
            i <= slots.len(),
            indexes(index@, slots@.take(i as int)),
        decreases slots.len() - i,
    {
        index_slot(&mut index, slots, i);
        i += 1;
    }
    assert(slots@.take(i as int) == slots@);
    index
}

/// In a list with distinct keys, an entry is what the map has under its key.
proof fn lemma_entry_in_map<V>(entries: Seq<(Hash256, V)>, i: int)
    requires
        keys_of(entries).no_duplicates(),
        0 <= i < entries.len(),
    ensures
        map_of(entries).contains_key(entries[i].0),
        map_of(entries)[entries[i].0] == entries[i].1,
{
    let keys = keys_of(entries);
    assert(keys[i] == entries[i].0);
    assert(keys.contains(entries[i].0));
    let at = keys.index_of(entries[i].0);
    assert(keys[at] == keys[i]);
    assert(at == i);
}

/// A list with distinct keys has as many entries as its map.
proof fn lemma_map_len<V>(entries: Seq<(Hash256, V)>)
    requires
        keys_of(entries).no_duplicates(),
    ensures
        map_of(entries).dom().finite(),
        map_of(entries).dom().len() == entries.len(),
        map_of(entries).dom() == keys_of(entries).to_set(),
{
    let keys = keys_of(entries);
    keys.unique_seq_to_set();
    assert(map_of(entries).dom() =~= keys.to_set());
}

/// The entries whose key is in `keys`, in their order.
pub open spec fn kept<V>(entries: Seq<(Hash256, V)>, keys: Set<Hash256>) -> Seq<(Hash256, V)> {
    entries.filter(|e: (Hash256, V)| keys.contains(e.0))
}

/// An entry of a filtered list stands in the list.
proof fn lemma_kept_from<V>(entries: Seq<(Hash256, V)>, keys: Set<Hash256>, i: int)
    requires
        0 <= i < kept(entries, keys).len(),
    ensures
        entries.contains(kept(entries, keys)[i]),
        keys.contains(kept(entries, keys)[i].0),
    decreases entries.len(),
{
    reveal(Seq::filter);
    if entries.len() > 0 {
        let rest = entries.drop_last();
        let out = kept(entries, keys);
        let out_rest = kept(rest, keys);
        if i < out_rest.len() {
            lemma_kept_from(rest, keys, i);
            let j = choose|j: int| 0 <= j < rest.len() && rest[j] == out_rest[i];
            assert(entries[j] == out[i]);
        } else {
            assert(entries[entries.len() - 1] == out[i]);
        }
    }
}

/// Filtering keeps the keys distinct.
proof fn lemma_kept_distinct<V>(entries: Seq<(Hash256, V)>, keys: Set<Hash256>)
    requires
        keys_of(entries).no_duplicates(),
    ensures
        keys_of(kept(entries, keys)).no_duplicates(),
    decreases entries.len(),
{
    reveal(Seq::filter);
    if entries.len() > 0 {
        let rest = entries.drop_last();
        assert(keys_of(rest) =~= keys_of(entries).drop_last());
        lemma_kept_distinct(rest, keys);
        let out = kept(entries, keys);
        let out_rest = kept(rest, keys);
        if keys.contains(entries.last().0) {
            assert(keys_of(out) =~= keys_of(out_rest).push(entries.last().0));
            assert forall|i: int| 0 <= i < out_rest.len() implies #[trigger] keys_of(out_rest)[i]
                != entries.last().0 by {
                lemma_kept_from(rest, keys, i);
                let j = choose|j: int| 0 <= j < rest.len() && rest[j] == out_rest[i];
                assert(keys_of(entries)[j] == out_rest[i].0);
                assert(keys_of(entries)[entries.len() - 1] == entries.last().0);
            }
        }
    }
}

/// Filtering the entries restricts the map.
proof fn lemma_kept<V>(entries: Seq<(Hash256, V)>, keys: Set<Hash256>)
    requires
        keys_of(entries).no_duplicates(),
    ensures
        keys_of(kept(entries, keys)).no_duplicates(),
        map_of(kept(entries, keys)) == map_of(entries).restrict(keys),
{
    lemma_kept_distinct(entries, keys);
    let out = kept(entries, keys);
    let pred = |e: (Hash256, V)| keys.contains(e.0);
    let small = map_of(out);
    let big = map_of(entries).restrict(keys);
    assert forall|k: Hash256| #[trigger] small.contains_key(k) implies big.contains_key(k) && small[k]
        == big[k] by {
        let i = keys_of(out).index_of(k);
        assert(keys_of(out)[i] == k);
        lemma_kept_from(entries, keys, i);
        lemma_entry_in_map(out, i);
        let j = choose|j: int| 0 <= j < entries.len() && entries[j] == out[i];
        lemma_entry_in_map(entries, j);
    }
    assert forall|k: Hash256| #[trigger] big.contains_key(k) implies small.contains_key(k) by {
        let j = keys_of(entries).index_of(k);
        assert(keys_of(entries)[j] == k);
        entries.lemma_filter_contains(pred, j);
        let i = choose|i: int| 0 <= i < out.len() && out[i] == entries[j];
        assert(keys_of(out)[i] == k);
    }
    assert(small =~= big);
}

/// Appending an entry with a new key extends the map.
proof fn lemma_push<V>(entries: Seq<(Hash256, V)>, key: Hash256, value: V)
    requires
        keys_of(entries).no_duplicates(),
        !map_of(entries).contains_key(key),
    ensures
        keys_of(entries.push((key, value))).no_duplicates(),
        map_of(entries.push((key, value))) == map_of(entries).insert(key, value),
{
    let out = entries.push((key, value));
    assert(keys_of(out) =~= keys_of(entries).push(key));
    assert(keys_of(out)[entries.len() as int] == key);
    assert forall|k: Hash256| #[trigger] map_of(out).contains_key(k) == map_of(entries).insert(
        key,
        value,
    ).contains_key(k) by {
        if map_of(entries).contains_key(k) {
            let i = keys_of(entries).index_of(k);
            assert(keys_of(out)[i] == k);
        }
    }
    assert forall|k: Hash256| #[trigger]
        map_of(out).contains_key(k) implies map_of(out)[k] == map_of(entries).insert(
        key,
        value,
    )[k] by {
        let i = keys_of(out).index_of(k);
        assert(keys_of(out)[i] == k);
        lemma_entry_in_map(out, i);
        if i < entries.len() {
            lemma_entry_in_map(entries, i);
        }
    }
    assert(map_of(out) =~= map_of(entries).insert(key, value));
}

/// Replacing the value of an entry updates the map.
proof fn lemma_update<V>(entries: Seq<(Hash256, V)>, at: int, value: V)
    requires
        keys_of(entries).no_duplicates(),
        0 <= at < entries.len(),
    ensures
        keys_of(entries.update(at, (entries[at].0, value))) == keys_of(entries),
        map_of(entries.update(at, (entries[at].0, value))) == map_of(entries).insert(
            entries[at].0,
            value,
        ),
{
    let key = entries[at].0;
    let out = entries.update(at, (key, value));
    assert(keys_of(out) =~= keys_of(entries));
    assert(keys_of(entries)[at] == key);
    assert forall|k: Hash256| #[trigger]
        map_of(out).contains_key(k) implies map_of(out)[k] == map_of(entries).insert(
        key,
        value,
    )[k] by {
        let i = keys_of(out).index_of(k);
        assert(keys_of(out)[i] == k);
        lemma_entry_in_map(out, i);
        lemma_entry_in_map(entries, i);
        if i != at {
            assert(keys_of(entries)[i] != keys_of(entries)[at]);
        }
    }
    assert(map_of(out) =~= map_of(entries).insert(key, value));
}

/// Taking out an entry takes its key out of the map.
proof fn lemma_remove<V>(entries: Seq<(Hash256, V)>, at: int)
    requires
        keys_of(entries).no_duplicates(),
        0 <= at < entries.len(),
    ensures
        keys_of(entries.remove(at)).no_duplicates(),
        map_of(entries.remove(at)) == map_of(entries).remove(entries[at].0),
{
    let key = entries[at].0;
    let out = entries.remove(at);
    let keys = keys_of(entries);
    assert(keys_of(out) =~= keys.remove(at));
    assert(keys[at] == key);
    assert forall|k: Hash256| #[trigger] map_of(out).contains_key(k) implies {
        &&& k != key
        &&& map_of(entries).contains_key(k)
        &&& map_of(out)[k] == map_of(entries)[k]
    } by {
        let i = keys_of(out).index_of(k);
        assert(keys_of(out)[i] == k);
        lemma_entry_in_map(out, i);
        let j = if i < at { i } else { i + 1 };
        assert(out[i] == entries[j]);
        assert(keys[j] == k);
        lemma_entry_in_map(entries, j);
    }
    assert forall|k: Hash256| k != key && #[trigger] map_of(entries).contains_key(
        k,
    ) implies map_of(out).contains_key(k) by {
        let j = keys.index_of(k);
        assert(keys[j] == k);
        let i = if j < at { j } else { j - 1 };
        assert(keys_of(out)[i] == k);
    }
    assert(map_of(out) =~= map_of(entries).remove(key));
}

impl<V> HashTable<V> {
    /// The entries in the order of their insertion.
    pub closed spec fn entries(&self) -> Seq<(Hash256, V)> {
        self.slots@
    }

    /// The keys are distinct, and the index lists every slot.
    pub closed spec fn wf(&self) -> bool {
        &&& keys_of(self.slots@).no_duplicates()
        &&& indexes(self.index@, self.slots@)
    }

    /// What the view is, and that no key occurs twice.
    pub proof fn lemma_entries(&self)
        requires
            self.wf(),
        ensures
            self@ == map_of(self.entries()),
            keys_of(self.entries()).no_duplicates(),
            self@.dom().finite(),
            self@.dom().len() == self.entries().len(),
            self.entries().len() <= usize::MAX,
            forall|i: int|
                #![trigger self.entries()[i]]
                0 <= i < self.entries().len() ==> self@.contains_key(self.entries()[i].0)
                    && self@[self.entries()[i].0] == self.entries()[i].1,
    {
        lemma_map_len(self.slots@);
        assert(self.slots.len() == self.slots@.len());
        assert forall|i: int|
            #![trigger self.entries()[i]]
            0 <= i < self.entries().len() implies self@.contains_key(self.entries()[i].0)
            && self@[self.entries()[i].0] == self.entries()[i].1 by {
            lemma_entry_in_map(self.slots@, i);
        }
    }

    /// A table without entries.
    pub fn new() -> (table: HashTable<V>)
        ensures
            table.wf(),
            table@ == Map::<Hash256, V>::empty(),
            table.entries() == Seq::<(Hash256, V)>::empty(),
    {
        let table = HashTable { slots: Vec::new(), index: HashMap::new() };
        assert(table@ =~= Map::<Hash256, V>::empty());
        table
    }

    /// The number of entries.
    pub fn len(&self) -> (n: usize)
        requires
            self.wf(),
        ensures
            n == self.entries().len(),
            n == self@.dom().len(),
    {
        proof {
            lemma_map_len(self.slots@);
        }
        self.slots.len()
    }

    /// The entry at a position.
    pub fn entry(&self, at: usize) -> (e: &(Hash256, V))
        requires
            at < self.entries().len(),
        ensures
            *e == self.entries()[at as int],
    {
        &self.slots[at]
    }

    /// The position of the entry with this key.
    fn position(&self, key: &Hash256) -> (at: Option<usize>)
        requires
            self.wf(),
        ensures
            match at {
                Some(i) => i < self.slots@.len() && self.slots@[i as int].0 == *key,
                None => forall|i: int| 0 <= i < self.slots@.len() ==> self.slots@[i].0 != *key,
            },
    {
        let bucket: u64 = key.bucket();
        match self.index.get(&bucket) {
            None => {
                assert forall|i: int| 0 <= i < self.slots@.len() implies self.slots@[i].0
                    != *key by {
                    assert(self.index@.contains_key(self.slots@[i].0.bucket_spec()));
                }
                None
            },
            Some(listed) => {
                let mut j: usize = 0;
                while j < listed.len()
                    invariant
                        j <= listed.len(),
                        self.wf(),
                        bucket == key.bucket_spec(),
                        self.index@.contains_key(bucket),
                        *listed == self.index@[bucket],
                        forall|l: int|
                            0 <= l < j ==> self.slots@[#[trigger] listed@[l] as int].0 != *key,
                    decreases listed.len() - j,
                {
                    assert(self.index@[bucket]@[j as int] < self.slots@.len());
                    let at: usize = listed[j];
                    if self.slots[at].0.same(key) {
                        return Some(at);
                    }
                    j += 1;
                }
                assert forall|i: int| 0 <= i < self.slots@.len() implies self.slots@[i].0
                    != *key by {
                    assert(i < self.slots.len());
                    if self.slots@[i].0 == *key {
                        assert(self.index@[self.slots@[i].0.bucket_spec()]@.contains(i as usize));
                        let l = choose|l: int|
                            0 <= l < listed@.len() && listed@[l] == i as usize;
                        assert(self.slots@[listed@[l] as int].0 != *key);
                    }
                }
                None
            },
        }
    }

    /// The value under this key.
    pub fn get(&self, key: &Hash256) -> (value: Option<&V>)
        requires
            self.wf(),
        ensures
            match value {
                Some(v) => self@.contains_key(*key) && *v == self@[*key],
                None => !self@.contains_key(*key),
            },
    {
        match self.position(key) {
            Some(at) => {
                proof {
                    lemma_entry_in_map(self.slots@, at as int);
                }
                Some(&self.slots[at].1)
            },
            None => None,
        }
    }

    /// Whether there is an entry with this key.
    pub fn contains_key(&self, key: &Hash256) -> (r: bool)
        requires
            self.wf(),
        ensures
            r == self@.contains_key(*key),
    {
        self.get(key).is_some()
    }

    /// Puts `value` under `key`. A key that has an entry keeps its place, a new one comes last.
    pub fn insert(&mut self, key: Hash256, value: V)
        requires
            old(self).wf(),
        ensures
            final(self).wf(),
            final(self)@ == old(self)@.insert(key, value),
            !old(self)@.contains_key(key) ==> final(self).entries() == old(self).entries().push(
                (key, value),
            ),
            old(self)@.contains_key(key) ==> keys_of(final(self).entries()) == keys_of(
                old(self).entries(),
            ),
    {
        match self.position(&key) {
            Some(at) => {
                proof {
                    lemma_entry_in_map(self.slots@, at as int);
                    lemma_update(self.slots@, at as int, value);
                }
                self.slots[at] = (key, value);
                assert(forall|i: int|
                    0 <= i < self.slots@.len() ==> (#[trigger] self.slots@[i]).0 == old(
                        self,
                    ).slots@[i].0);
            },
            None => {
                proof {
                    assert(!self@.contains_key(key)) by {
                        if self@.contains_key(key) {
                            let i = keys_of(self.slots@).index_of(key);
                            assert(keys_of(self.slots@)[i] == self.slots@[i].0);
                        }
                    }
                    lemma_push(self.slots@, key, value);
                }
                let at: usize = self.slots.len();
                self.slots.push((key, value));
                assert(self.slots@.take(at as int) == old(self).slots@);
                index_slot(&mut self.index, &self.slots, at);
                assert(self.slots@.take(at + 1) == self.slots@);
            },
        }
    }

    /// Takes out the entry with this key.
    pub fn remove(&mut self, key: &Hash256) -> (value: Option<V>)
        requires
            old(self).wf(),
        ensures
            final(self).wf(),
            final(self)@ == old(self)@.remove(*key),
            final(self).entries() == if old(self)@.contains_key(*key) {
                old(self).entries().remove(keys_of(old(self).entries()).index_of(*key))
            } else {
                old(self).entries()
            },
            match value {
                Some(v) => old(self)@.contains_key(*key) && v == old(self)@[*key],
                None => !old(self)@.contains_key(*key),
            },
    {
        match self.position(key) {
            Some(at) => {
                proof {
                    lemma_entry_in_map(self.slots@, at as int);
                    lemma_remove(self.slots@, at as int);
                    assert(keys_of(self.slots@)[at as int] == *key);
                    assert(keys_of(self.slots@).index_of(*key) == at);
                }
                let (_, value) = self.slots.remove(at);
                self.index = index_slots(&self.slots);
                Some(value)
            },
            None => {
                proof {
                    if self@.contains_key(*key) {
                        let i = keys_of(self.slots@).index_of(*key);
                        assert(keys_of(self.slots@)[i] == self.slots@[i].0);
                    }
                    assert(self@.remove(*key) =~= self@);
                }
                None
            },
        }
    }

    /// Keeps the entries whose key has an entry in `keep`.
    pub fn retain_keys_of<U>(&mut self, keep: &HashTable<U>)
        requires
            old(self).wf(),
            keep.wf(),
        ensures
            final(self).wf(),
            final(self)@ == old(self)@.restrict(keep@.dom()),
            final(self).entries() == kept(old(self).entries(), keep@.dom()),
    {
        let ghost all = self.slots@;
        let ghost keys = keep@.dom();
        let ghost pred = |e: (Hash256, V)| keys.contains(e.0);
        let mut slots: Vec<(Hash256, V)> = Vec::new();
        std::mem::swap(&mut slots, &mut self.slots);
        let mut pending: Vec<(Hash256, V)> = Vec::new();
        assert(all.take(all.len() as int) == all);
        assert(pending@ =~= all.skip(all.len() as int).reverse());
        while slots.len() > 0
            invariant
                slots@.len() <= all.len(),
                slots@ == all.take(slots@.len() as int),
                pending@ == all.skip(slots@.len() as int).reverse(),
            decreases slots@.len(),
        {
            let ghost n = slots@.len() as int;
            if let Some(e) = slots.pop() {
                pending.push(e);
                assert(slots@ =~= all.take(n - 1));
                assert(pending@ =~= all.skip(n - 1).reverse());
            }
        }
        let ghost mut i: int = 0;
        assert(all.take(0).filter(pred) =~= slots@) by {
            reveal(Seq::filter);
        }
        assert(pending@ =~= all.skip(0).reverse());
        while pending.len() > 0
            invariant
                keep.wf(),
                keys == keep@.dom(),
                pred == (|e: (Hash256, V)| keys.contains(e.0)),
                0 <= i <= all.len(),
                slots@ == all.take(i).filter(pred),
                pending@ == all.skip(i).reverse(),
            decreases pending@.len(),
        {
            if let Some(e) = pending.pop() {
                assert(e == all[i]);
                proof {
                    reveal(Seq::filter);
                    assert(all.take(i + 1).drop_last() =~= all.take(i));
                    assert(all.take(i + 1).last() == e);
                    assert(pending@ =~= all.skip(i + 1).reverse());
                }
                if keep.contains_key(&e.0) {
                    slots.push(e);
                }
                proof {
                    i = i + 1;
                }
            }
        }
        assert(i == all.len());
        assert(all.take(i) == all);
        assert(slots@ == kept(all, keys));
        proof {
            lemma_kept(all, keys);
        }
        self.index = index_slots(&slots);
        self.slots = slots;
    }
}

/// A table that has these keys.
pub fn table_of_keys(keys: &Vec<Hash256>) -> (table: HashTable<()>)
    ensures
        table.wf(),
        table@.dom() == keys@.to_set(),
{
    let mut table: HashTable<()> = HashTable::new();
    let mut i: usize = 0;
    while i < keys.len()
        invariant
            i <= keys@.len(),
            table.wf(),
            forall|k: Hash256| #[trigger]
                table@.contains_key(k) <==> keys@.take(i as int).contains(k),
        decreases keys@.len() - i,
    {
        let ghost before = keys@.take(i as int);
        table.insert(keys[i], ());
        proof {
            let after = keys@.take(i + 1);
            assert(after =~= before.push(keys@[i as int]));
            assert forall|k: Hash256| #[trigger] table@.contains_key(k) <==> after.contains(k) by {
                if before.contains(k) {
                    let j = choose|j: int| 0 <= j < before.len() && before[j] == k;
                    assert(after[j] == k);
                }
                assert(after[i as int] == keys@[i as int]);
            }
        }
        i += 1;
    }
    assert(keys@.take(i as int) =~= keys@);
    assert(table@.dom() =~= keys@.to_set());
    table
}

/// A list of entries with distinct keys has under each key the value that stands beside it, and
/// nothing under any other.
pub proof fn law_map_of_entries<V>(entries: Seq<(Hash256, V)>)
    requires
        forall|i: int, j: int|
            0 <= i < j < entries.len() ==> (#[trigger] entries[i]).0 != (#[trigger] entries[j]).0,
    ensures
        keys_of(entries).len() == entries.len(),
        forall|i: int| 0 <= i < entries.len() ==> keys_of(entries)[i] == (#[trigger] entries[i]).0,
        forall|i: int|
            0 <= i < entries.len() ==> {
                &&& map_of(entries).contains_key((#[trigger] entries[i]).0)
                &&& map_of(entries)[entries[i].0] == entries[i].1
            },
        forall|k: Hash256| #[trigger]
            map_of(entries).contains_key(k) ==> exists|i: int|
                0 <= i < entries.len() && (#[trigger] entries[i]).0 == k,
{
    let keys = keys_of(entries);
    assert forall|i: int, j: int| 0 <= i < keys.len() && 0 <= j < keys.len() && i != j implies keys[i]
        != keys[j] by {
        if i < j {
            assert(entries[i].0 != entries[j].0);
        } else {
            assert(entries[j].0 != entries[i].0);
        }
    }
    assert forall|i: int| 0 <= i < entries.len() implies {
        &&& map_of(entries).contains_key((#[trigger] entries[i]).0)
        &&& map_of(entries)[entries[i].0] == entries[i].1
    } by {
        lemma_entry_in_map(entries, i);
    }
    assert forall|k: Hash256| #[trigger] map_of(entries).contains_key(k) implies exists|i: int|
        0 <= i < entries.len() && (#[trigger] entries[i]).0 == k by {
        let i = keys.index_of(k);
        assert(keys[i] == k);
        assert(entries[i].0 == k);
    }
}

/// Keeping the entries of some keys goes through the entries one by one: an entry of such a key
/// comes behind those kept before it, and any other makes no difference.
pub proof fn law_kept_in_order<V>(
    entries: Seq<(Hash256, V)>,
    keys: Set<Hash256>,
    entry: (Hash256, V),
)
    ensures
        kept(Seq::<(Hash256, V)>::empty(), keys) == Seq::<(Hash256, V)>::empty(),
        keys.contains(entry.0) ==> kept(entries.push(entry), keys) == kept(entries, keys).push(
            entry,
        ),
        !keys.contains(entry.0) ==> kept(entries.push(entry), keys) == kept(entries, keys),
{
    reveal(Seq::filter);
    assert(entries.push(entry).drop_last() =~= entries);
}

} // verus!
