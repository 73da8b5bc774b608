//! An interner: pairwise distinct strings, each known by the dense number of
//! its first encounter.
//!
//! The keys are kept in order of their numbers. To find a key without walking
//! all of them, the numbers are also kept in buckets by a hash of the key's
//! bytes: a key can only stand among the numbers of its own bucket.

use vstd::prelude::*;
use vstd::std_specs::hash::*;
use vstd::string::*;
use vstd::utf8::*;
use std::collections::HashMap;
use crate::strings::{str_eq, texts};

verus! {

/// The model of a list of texts with a number each.
pub open spec fn text_ids(v: Seq<(String, u32)>) -> Seq<(Seq<char>, u32)> {
    v.map_values(|e: (String, u32)| (e.0@, e.1))
}

/// The texts of such a list.
pub open spec fn firsts(entries: Seq<(Seq<char>, u32)>) -> Seq<Seq<char>> {
    entries.map_values(|e: (Seq<char>, u32)| e.0)
}

/// The numbers of such a list.
pub open spec fn seconds(entries: Seq<(Seq<char>, u32)>) -> Seq<u32> {
    entries.map_values(|e: (Seq<char>, u32)| e.1)
}

/// The position of a key among pairwise distinct keys.
pub open spec fn position_of(keys: Seq<Seq<char>>, key: Seq<char>) -> Option<u32> {
    if keys.contains(key) {
        Some(keys.index_of(key) as u32)
    } else {
        None
    }
}

/// Among pairwise distinct keys, a key stands at one index only.
pub proof fn lemma_position_of(keys: Seq<Seq<char>>, i: int)
    requires
        keys.no_duplicates(),
        0 <= i < keys.len(),
        keys.len() <= u32::MAX,
    ensures
        position_of(keys, keys[i]) == Some(i as u32),
{
    assert(keys.contains(keys[i]));
    let k = keys.index_of(keys[i]);
    assert(keys[k] == keys[i]);
}

/// The start value of the hash (FNV-1a, 64 bits).
pub const HASH_SEED: u64 = 0xcbf2_9ce4_8422_2325;

/// The multiplier of the hash.
pub const HASH_PRIME: u64 = 0x0000_0100_0000_01b3;

/// The hash of a run of bytes: for each byte in turn, the exclusive or with
/// the byte, then the product with the multiplier, in 64 bits.
pub open spec fn hash_of_bytes(bytes: Seq<u8>) -> u64
    decreases bytes.len(),
{
    if bytes.len() == 0 {
        HASH_SEED
    } else {
        (hash_of_bytes(bytes.drop_last()) ^ (bytes.last() as u64)).wrapping_mul(HASH_PRIME)
    }
}

/// The hash of a key: that of its UTF-8 encoding.
pub open spec fn hash_of(key: Seq<char>) -> u64 {
    hash_of_bytes(encode_utf8(key))
}

/// Computes the hash of a key.
pub fn hash_key(key: &str) -> (h: u64)
    ensures
        h == hash_of(key@),
{
    let bytes = key.as_bytes();
    let mut h: u64 = HASH_SEED;
    let mut i: usize = 0;
    assert(bytes@.take(0) =~= Seq::<u8>::empty());
    while i < bytes.len()
        invariant
            i <= bytes@.len(),
            h == hash_of_bytes(bytes@.take(i as int)),
        decreases bytes@.len() - i,
    {
        proof {
            assert(bytes@.take(i + 1).drop_last() =~= bytes@.take(i as int));
            assert(bytes@.take(i + 1).last() == bytes@[i as int]);
        }
        h = (h ^ (bytes[i] as u64)).wrapping_mul(HASH_PRIME);
        i += 1;
    }
    assert(bytes@.take(i as int) =~= bytes@);
    h
}

/// Pairwise distinct keys, numbered in order of first encounter.
pub struct Interner {
    keys: Vec<String>,
    buckets: HashMap<u64, Vec<u32>>,
}

impl Interner {
    /// The keys, each at the index that is its number.
    pub closed spec fn keys(&self) -> Seq<Seq<char>> {
        texts(self.keys@)
    }

    /// Every number stands in the bucket of its key's hash, and a bucket holds
    /// only numbers of keys with its hash.
    pub closed spec fn buckets_wf(&self) -> bool {
        &&& forall|i: int|
            0 <= i < self.keys@.len() ==> self.buckets@.contains_key(hash_of(#[trigger] self.keys@[i]@))
                && self.buckets@[hash_of(self.keys@[i]@)]@.contains(i as u32)
        &&& forall|h: u64, j: int|
            self.buckets@.contains_key(h) && 0 <= j < self.buckets@[h]@.len() ==> (
            #[trigger] self.buckets@[h]@[j]) < self.keys@.len() && hash_of(
                self.keys@[self.buckets@[h]@[j] as int]@,
            ) == h
    }

    /// No key occurs twice, every number fits 32 bits, and the buckets are in
    /// order.
    pub open spec fn wf(&self) -> bool {
        &&& self.keys().no_duplicates()
        &&& self.keys().len() <= u32::MAX
        &&& self.buckets_wf()
    }

    /// The interner without keys.
    pub fn new() -> (r: Interner)
        ensures
            r.wf(),
            r.keys() == Seq::<Seq<char>>::empty(),
    {
        let r = Interner { keys: Vec::new(), buckets: HashMap::new() };
        assert(r.keys() =~= Seq::<Seq<char>>::empty());
        r
    }

    /// The number of keys, which is also the next number to be assigned.
    pub fn len(&self) -> (n: usize)
        ensures
            n == self.keys().len(),
    {
        self.keys.len()
    }

    /// The number of a key, where the interner has it.
    pub fn lookup(&self, key: &str) -> (r: Option<u32>)
        requires
            self.wf(),
        ensures
            r == position_of(self.keys(), key@),
            match r {
                Some(id) => id < self.keys().len() && self.keys()[id as int] == key@,
                None => !self.keys().contains(key@),
            },
    {
        broadcast use group_hash_axioms;

        let h = hash_key(key);
        match self.buckets.get(&h) {
            None => {
                proof {
                    if self.keys().contains(key@) {
                        let i = choose|i: int| 0 <= i < self.keys().len() && self.keys()[i] == key@;
                        assert(self.keys@[i]@ == key@);
                    }
                }
                None
            },
            Some(bucket) => {
                assert(bucket@ == self.buckets@[h]@);
                let mut j: usize = 0;
                while j < bucket.len()
                    invariant
                        j <= bucket.len(),
                        self.wf(),
                        h == hash_of(key@),
                        self.buckets@.contains_key(h),
                        bucket@ == self.buckets@[h]@,
                        forall|m: int| 0 <= m < j ==> self.keys()[bucket@[m] as int] != key@,
                    decreases bucket.len() - j,
                {
                    let id = bucket[j];
                    assert(self.buckets@[h]@[j as int] < self.keys@.len());
                    if str_eq(self.keys[id as usize].as_str(), key) {
                        proof {
                            lemma_position_of(self.keys(), id as int);
                        }
                        return Some(id);
                    }
                    j += 1;
                }
                proof {
                    if self.keys().contains(key@) {
                        let i = choose|i: int| 0 <= i < self.keys().len() && self.keys()[i] == key@;
                        assert(self.keys@[i]@ == key@);
                        assert(bucket@.contains(i as u32));
                        let m = choose|m: int| 0 <= m < bucket@.len() && bucket@[m] == i as u32;
                        assert(self.keys()[bucket@[m] as int] != key@);
                    }
                }
                None
            },
        }
    }

    /// The number of the key, which is the next free one where the key is new.
    pub fn intern(&mut self, key: &str) -> (id: u32)
        requires
            old(self).wf(),
            old(self).keys().contains(key@) || old(self).keys().len() < u32::MAX,
        ensures
            final(self).wf(),
            position_of(final(self).keys(), key@) == Some(id),
            old(self).keys().contains(key@) ==> {
                &&& final(self).keys() == old(self).keys()
                &&& position_of(old(self).keys(), key@) == Some(id)
            },
            !old(self).keys().contains(key@) ==> {
                &&& final(self).keys() == old(self).keys().push(key@)
                &&& id == old(self).keys().len()
            },
    {
        broadcast use group_hash_axioms;

        match self.lookup(key) {
            Some(id) => id,
            None => {
                let id = self.keys.len() as u32;
                let h = hash_key(key);
                let ghost old_keys = self.keys@;
                let ghost old_buckets = self.buckets@;
                self.keys.push(String::from_str(key));
                let mut bucket = match self.buckets.remove(&h) {
                    Some(b) => b,
                    None => Vec::new(),
                };
                let ghost old_bucket = bucket@;
                bucket.push(id);
                self.buckets.insert(h, bucket);
                proof {
                    assert(self.keys() =~= old(self).keys().push(key@));
                    lemma_position_of(self.keys(), id as int);
                    assert(self.buckets@[h]@ == old_bucket.push(id));
                    assert(old_buckets.contains_key(h) ==> old_bucket == old_buckets[h]@);
                    assert(!old_buckets.contains_key(h) ==> old_bucket.len() == 0);
                    assert forall|i: int| 0 <= i < self.keys@.len() implies self.buckets@.contains_key(
                        hash_of(#[trigger] self.keys@[i]@),
                    ) && self.buckets@[hash_of(self.keys@[i]@)]@.contains(i as u32) by {
                        if i == id {
                            assert(self.buckets@[h]@[old_bucket.len() as int] == id);
                        } else {
                            assert(self.keys@[i] == old_keys[i]);
                            let hi = hash_of(old_keys[i]@);
                            assert(old_buckets.contains_key(hi) && old_buckets[hi]@.contains(i as u32));
                            if hi == h {
                                let m = choose|m: int|
                                    0 <= m < old_bucket.len() && old_bucket[m] == i as u32;
                                assert(self.buckets@[h]@[m] == i as u32);
                            } else {
                                assert(self.buckets@[hi] == old_buckets[hi]);
                            }
                        }
                    }
                    assert forall|g: u64, j: int|
                        self.buckets@.contains_key(g) && 0 <= j < self.buckets@[g]@.len() implies (
                    #[trigger] self.buckets@[g]@[j]) < self.keys@.len() && hash_of(
                        self.keys@[self.buckets@[g]@[j] as int]@,
                    ) == g by {
                        if g == h {
                            if j < old_bucket.len() {
                                assert(old_buckets.contains_key(h));
                                assert(old_buckets[h]@[j] < old_keys.len());
                                assert(self.keys@[old_buckets[h]@[j] as int] == old_keys[old_buckets[h]@[j] as int]);
                            }
                        } else {
                            assert(old_buckets.contains_key(g));
                            assert(self.buckets@[g] == old_buckets[g]);
                            assert(old_buckets[g]@[j] < old_keys.len());
                            assert(self.keys@[old_buckets[g]@[j] as int] == old_keys[old_buckets[g]@[j] as int]);
                        }
                    }
                }
                id
            },
        }
    }

    /// The key with the given number.
    pub fn key(&self, id: u32) -> (s: &str)
        requires
            id < self.keys().len(),
        ensures
            s@ == self.keys()[id as int],
    {
        self.keys[id as usize].as_str()
    }
}

} // verus!
