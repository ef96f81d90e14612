//! A hash map keyed by byte strings.
//!
//! Keys are hashed with FNV-1a into buckets of a `HashMap<u64, _>`; each
//! bucket lists its keys without repetition. The map's contents are kept as a
//! ghost `Map` that the buckets represent exactly.

use vstd::prelude::*;
use std::collections::HashMap;

verus! {

broadcast use vstd::std_specs::hash::group_hash_axioms;

pub open spec fn fnv_step(h: u64, b: u8) -> u64 {
    vstd::wrapping::u64_specs::wrapping_mul(h ^ (b as u64), 1099511628211u64)
}

/// FNV-1a over the bytes.
pub open spec fn key_hash(k: Seq<u8>) -> u64
    decreases k.len(),
{
    if k.len() == 0 {
        14695981039346656037u64
    } else {
        fnv_step(key_hash(k.drop_last()), k.last())
    }
}

pub fn hash_bytes(k: &[u8]) -> (h: u64)
    ensures
        h == key_hash(k@),
{
    let mut h: u64 = 14695981039346656037u64;
    let mut i: usize = 0;
    proof {
        assert(k@.take(0) =~= Seq::<u8>::empty());
    }
    while i < k.len()
        invariant
            i <= k@.len(),
            h == key_hash(k@.take(i as int)),
        decreases k@.len() - i,
    {
        h = (h ^ (k[i] as u64)).wrapping_mul(1099511628211u64);
        proof {
            assert(k@.take(i + 1).drop_last() =~= k@.take(i as int));
        }
        i = i + 1;
    }
    proof {
        assert(k@.take(k@.len() as int) =~= k@);
    }
    h
}

pub fn eq_bytes(a: &[u8], b: &[u8]) -> (r: bool)
    ensures
        r == (a@ == b@),
{
    if a.len() != b.len() {
        return false;
    }
    let mut i: usize = 0;
    while i < a.len()
        invariant
            a@.len() == b@.len(),
            i <= a@.len(),
            forall|j: int| 0 <= j < i ==> a@[j] == b@[j],
        decreases a@.len() - i,
    {
        if a[i] != b[i] {
            return false;
        }
        i = i + 1;
    }
    assert(a@ =~= b@);
    true
}

/// A map from byte strings to copyable values.
pub struct BytesMap<V> {
    buckets: HashMap<u64, Vec<(Vec<u8>, V)>>,
    contents: Ghost<Map<Seq<u8>, V>>,
}

/// Does `bucket` hold the key `k`?
pub open spec fn bucket_has<V>(bucket: Seq<(Vec<u8>, V)>, k: Seq<u8>) -> bool {
    exists|i: int| 0 <= i < bucket.len() && #[trigger] bucket[i].0@ == k
}

impl<V: Copy> BytesMap<V> {
    /// The map's contents.
    pub closed spec fn view(&self) -> Map<Seq<u8>, V> {
        self.contents@
    }

    /// The buckets represent the contents: every entry sits in the bucket of
    /// its key's hash and agrees with the contents, no bucket repeats a key,
    /// and every key of the contents has an entry.
    pub closed spec fn wf(&self) -> bool {
        &&& forall|h: u64, i: int|
            #![trigger self.buckets@[h][i]]
            self.buckets@.contains_key(h) && 0 <= i < self.buckets@[h].len() ==> {
                let e = self.buckets@[h][i];
                &&& key_hash(e.0@) == h
                &&& self.contents@.contains_key(e.0@)
                &&& self.contents@[e.0@] == e.1
            }
        &&& forall|h: u64, i: int, j: int|
            #![trigger self.buckets@[h][i], self.buckets@[h][j]]
            self.buckets@.contains_key(h) && 0 <= i < j < self.buckets@[h].len()
                ==> self.buckets@[h][i].0@ != self.buckets@[h][j].0@
        &&& forall|k: Seq<u8>|
            #[trigger] self.contents@.contains_key(k) ==> self.buckets@.contains_key(key_hash(k))
                && bucket_has(self.buckets@[key_hash(k)]@, k)
    }

    pub fn new() -> (m: Self)
        ensures
            m.wf(),
            m.view() == Map::<Seq<u8>, V>::empty(),
    {
        BytesMap { buckets: HashMap::new(), contents: Ghost(Map::empty()) }
    }

    /// The value under `k`, if any.
    pub fn get(&self, k: &[u8]) -> (r: Option<V>)
        requires
            self.wf(),
        ensures
            match r {
                Some(v) => self.view().contains_key(k@) && self.view()[k@] == v,
                None => !self.view().contains_key(k@),
            },
    {
        let h = hash_bytes(k);
        match self.buckets.get(&h) {
            None => None,
            Some(bucket) => {
                let mut i: usize = 0;
                while i < bucket.len()
                    invariant
                        self.wf(),
                        self.buckets@.contains_key(h),
                        *bucket == self.buckets@[h],
                        h == key_hash(k@),
                        i <= bucket@.len(),
                        forall|j: int| 0 <= j < i ==> bucket@[j].0@ != k@,
                    decreases bucket@.len() - i,
                {
                    if eq_bytes(bucket[i].0.as_slice(), k) {
                        assert(self.buckets@[h][i as int] == bucket@[i as int]);
                        return Some(bucket[i].1);
                    }
                    i = i + 1;
                }
                None
            },
        }
    }

    /// Sets the value under `k` to `v`, replacing any earlier one.
    pub fn insert(&mut self, k: Vec<u8>, v: V)
        requires
            old(self).wf(),
        ensures
            final(self).wf(),
            final(self).view() == old(self).view().insert(k@, v),
    {
        let h = hash_bytes(k.as_slice());
        let ghost old_buckets = self.buckets@;
        let ghost old_contents = self.contents@;
        let mut bucket = match self.buckets.remove(&h) {
            Some(b) => b,
            None => Vec::new(),
        };
        let ghost old_bucket = bucket@;
        proof {
            if old_buckets.contains_key(h) {
                assert(old_bucket == old_buckets[h]@);
            } else {
                assert(old_bucket.len() == 0);
            }
        }
        let mut i: usize = 0;
        let mut found = false;
        while i < bucket.len()
            invariant
                i <= bucket@.len(),
                bucket@ == old_bucket,
                forall|j: int| 0 <= j < i ==> bucket@[j].0@ != k@,
                found ==> i < bucket@.len() && bucket@[i as int].0@ == k@,
            ensures
                found ==> i < bucket@.len() && bucket@[i as int].0@ == k@,
                !found ==> forall|j: int| 0 <= j < bucket@.len() ==> bucket@[j].0@ != k@,
            decreases bucket@.len() - i,
        {
            if eq_bytes(bucket[i].0.as_slice(), k.as_slice()) {
                found = true;
                break;
            }
            i = i + 1;
        }
        let ghost kv = k@;
        if found {
            bucket.set(i, (k, v));
        } else {
            bucket.push((k, v));
        }
        self.buckets.insert(h, bucket);
        self.contents = Ghost(old_contents.insert(kv, v));
        proof {
            let nb = self.buckets@[h]@;
            assert forall|hh: u64, ii: int|
                #![trigger self.buckets@[hh][ii]]
                self.buckets@.contains_key(hh) && 0 <= ii < self.buckets@[hh].len() implies {
                let e = self.buckets@[hh][ii];
                &&& key_hash(e.0@) == hh
                &&& self.contents@.contains_key(e.0@)
                &&& self.contents@[e.0@] == e.1
            } by {
                if hh != h {
                    assert(self.buckets@[hh] == old_buckets[hh]);
                    assert(old_buckets[hh][ii] == self.buckets@[hh][ii]);
                } else if self.buckets@[hh][ii].0@ != kv {
                    assert(self.buckets@[hh]@[ii] == old_bucket[ii]);
                    assert(old_buckets[h]@[ii] == old_bucket[ii]);
                }
            }
            assert forall|hh: u64, ii: int, jj: int|
                #![trigger self.buckets@[hh][ii], self.buckets@[hh][jj]]
                self.buckets@.contains_key(hh) && 0 <= ii < jj < self.buckets@[hh].len()
                    implies self.buckets@[hh][ii].0@ != self.buckets@[hh][jj].0@ by {
                if hh != h {
                    assert(self.buckets@[hh] == old_buckets[hh]);
                    assert(old_buckets[hh][ii] == self.buckets@[hh][ii]);
                    assert(old_buckets[hh][jj] == self.buckets@[hh][jj]);
                } else {
                    if jj < old_bucket.len() {
                        assert(old_buckets[h]@[ii] == old_bucket[ii]);
                        assert(old_buckets[h]@[jj] == old_bucket[jj]);
                    }
                }
            }
            assert forall|kk: Seq<u8>| #[trigger]
                self.contents@.contains_key(kk) implies self.buckets@.contains_key(key_hash(kk))
                && bucket_has(self.buckets@[key_hash(kk)]@, kk) by {
                if kk == kv {
                    if found {
                        assert(nb[i as int].0@ == kv);
                    } else {
                        assert(nb[nb.len() - 1].0@ == kv);
                    }
                } else {
                    assert(old_contents.contains_key(kk));
                    let w = choose|j: int|
                        0 <= j < old_buckets[key_hash(kk)]@.len() && #[trigger] old_buckets[key_hash(
                            kk,
                        )]@[j].0@ == kk;
                    if key_hash(kk) != h {
                        assert(self.buckets@[key_hash(kk)] == old_buckets[key_hash(kk)]);
                        assert(self.buckets@[key_hash(kk)]@[w].0@ == kk);
                    } else {
                        assert(old_bucket[w].0@ == kk);
                        assert(nb[w].0@ == kk);
                    }
                }
            }
        }
    }
}

} // verus!
