//! Sets of 32-byte encodings: counting the encodings that two lists share,
//! and telling whether a list holds an encoding twice, through a hash map
//! keyed by the first eight bytes of each encoding.

use crate::wire::{le_u64, read_le_u64};
use std::collections::HashMap;
use vstd::prelude::*;

verus! {

/// The views of the arrays `s`, in order.
pub open spec fn array_views(s: Seq<[u8; 32]>) -> Seq<Seq<u8>> {
    s.map_values(|b: [u8; 32]| b@)
}

/// The set of the encodings in `s`.
pub open spec fn encoding_set(s: Seq<[u8; 32]>) -> Set<Seq<u8>> {
    array_views(s).to_set()
}

/// The number of distinct encodings that occur in both `a` and `b`.
pub open spec fn common_count(a: Seq<[u8; 32]>, b: Seq<[u8; 32]>) -> nat {
    encoding_set(a).intersect(encoding_set(b)).len()
}

/// Whether the two 32-byte arrays are equal.
fn bytes_equal(a: &[u8; 32], b: &[u8; 32]) -> (eq: bool)
    ensures
        eq == (a@ == b@),
{
    let mut i: usize = 0;
    while i < 32
        invariant
            i <= 32,
            forall|j: int| 0 <= j < i ==> a@[j] == b@[j],
        decreases 32 - i,
    {
        if a[i] != b[i] {
            return false;
        }
        i = i + 1;
    }
    assert(a@ =~= b@);
    true
}

/// The key under which an encoding is filed: its first eight bytes, read
/// little-endian.
pub open spec fn bucket_key(e: Seq<u8>) -> u64 {
    le_u64(e)
}

/// A set of 32-byte encodings, filed in a hash map by `bucket_key`.
struct EncodingIndex {
    buckets: HashMap<u64, Vec<[u8; 32]>>,
}

impl EncodingIndex {
    /// The encodings that the index holds.
    spec fn contents(&self) -> Set<Seq<u8>> {
        Set::new(
            |e: Seq<u8>|
                self.buckets@.contains_key(bucket_key(e)) && array_views(
                    self.buckets@[bucket_key(e)]@,
                ).contains(e),
        )
    }

    /// Each encoding is filed under its own key, and no bucket holds an
    /// encoding twice.
    spec fn wf(&self) -> bool {
        forall|k: u64|
            #![trigger self.buckets@[k]]
            self.buckets@.contains_key(k) ==> {
                &&& array_views(self.buckets@[k]@).no_duplicates()
                &&& forall|j: int|
                    0 <= j < self.buckets@[k]@.len() ==> bucket_key(
                        #[trigger] self.buckets@[k]@[j]@,
                    ) == k
            }
    }

    fn new() -> (index: EncodingIndex)
        ensures
            index.wf(),
            index.contents() == Set::<Seq<u8>>::empty(),
    {
        broadcast use vstd::std_specs::hash::group_hash_axioms;

        let index = EncodingIndex { buckets: HashMap::new() };
        assert(index.contents() =~= Set::<Seq<u8>>::empty());
        index
    }

    /// The bucket of `key`, taken out of the map (empty if there is none).
    fn take_bucket(&mut self, key: u64) -> (bucket: Vec<[u8; 32]>)
        requires
            old(self).wf(),
        ensures
            final(self).buckets@ == old(self).buckets@.remove(key),
            final(self).wf(),
            old(self).buckets@.contains_key(key) ==> bucket@ == old(self).buckets@[key]@,
            !old(self).buckets@.contains_key(key) ==> bucket@ == Seq::<[u8; 32]>::empty(),
    {
        broadcast use vstd::std_specs::hash::group_hash_axioms;

        match self.buckets.remove(&key) {
            Some(b) => b,
            None => Vec::new(),
        }
    }

    /// The position of `target` in `bucket`.
    fn find(bucket: &Vec<[u8; 32]>, target: &[u8; 32]) -> (pos: Option<usize>)
        ensures
            match pos {
                Some(j) => j < bucket.len() && bucket@[j as int]@ == target@,
                None => !array_views(bucket@).contains(target@),
            },
    {
        let mut j: usize = 0;
        while j < bucket.len()
            invariant
                j <= bucket.len(),
                forall|t: int| 0 <= t < j ==> bucket@[t]@ != target@,
            decreases bucket.len() - j,
        {
            if bytes_equal(&bucket[j], target) {
                return Some(j);
            }
            j = j + 1;
        }
        proof {
            if array_views(bucket@).contains(target@) {
                let t = choose|t: int| 0 <= t < array_views(bucket@).len() && array_views(bucket@)[t] == target@;
                assert(bucket@[t]@ == target@);
            }
        }
        None
    }

    /// Adds `p` to the index; reports whether it was not there before.
    fn insert(&mut self, p: [u8; 32]) -> (added: bool)
        requires
            old(self).wf(),
        ensures
            final(self).wf(),
            final(self).contents() == old(self).contents().insert(p@),
            added == !old(self).contents().contains(p@),
    {
        broadcast use vstd::std_specs::hash::group_hash_axioms;

        let target = p;
        let key = point_key(&target);
        let ghost old_buckets = self.buckets@;
        let mut bucket = self.take_bucket(key);
        let ghost old_bucket = bucket@;
        proof {
            if old_buckets.contains_key(key) {
                assert(old_bucket == old_buckets[key]@);
            }
        }
        let added = match EncodingIndex::find(&bucket, &target) {
            Some(j) => {
                assert(array_views(bucket@)[j as int] == p@);
                assert(array_views(bucket@).contains(p@));
                false
            },
            None => {
                assert(!array_views(old_bucket).contains(p@));
                bucket.push(p);
                assert(array_views(bucket@)[bucket.len() - 1] == p@);
                proof {
                    let prev = array_views(old_bucket);
                    let c = array_views(bucket@);
                    assert(c =~= prev.push(p@));
                    assert forall|a: int, b: int| 0 <= a < b < c.len() implies c[a] != c[b] by {
                        if b == c.len() - 1 {
                            assert(prev[a] == c[a]);
                            assert(prev.contains(c[a]));
                        }
                    }
                }
                true
            },
        };
        let ghost new_bucket = bucket@;
        self.buckets.insert(key, bucket);
        proof {
            assert(self.buckets@ == old_buckets.insert(key, self.buckets@[key]));
            assert(forall|j: int|
                0 <= j < old_bucket.len() ==> bucket_key(#[trigger] old_bucket[j]@) == key) by {
                if old_buckets.contains_key(key) {
                    assert(old_bucket == old_buckets[key]@);
                }
            }
            assert(array_views(new_bucket).no_duplicates()) by {
                if old_buckets.contains_key(key) {
                    assert(array_views(old_bucket).no_duplicates());
                }
            }
            assert(self.wf());
            assert forall|e: Seq<u8>| #[trigger] self.contents().contains(e) == old(self).contents().insert(p@).contains(e) by {
                if bucket_key(e) == key {
                    if old_buckets.contains_key(key) {
                        assert(old_bucket == old_buckets[key]@);
                    }
                    if e != p@ {
                        assert(array_views(new_bucket).contains(e) == array_views(old_bucket).contains(e)) by {
                            if array_views(new_bucket).contains(e) {
                                let t = choose|t: int| 0 <= t < array_views(new_bucket).len() && array_views(new_bucket)[t] == e;
                                assert(array_views(old_bucket)[t] == e);
                            }
                            if array_views(old_bucket).contains(e) {
                                let t = choose|t: int| 0 <= t < array_views(old_bucket).len() && array_views(old_bucket)[t] == e;
                                assert(array_views(new_bucket)[t] == e);
                            }
                        }
                    } else {
                        assert(array_views(new_bucket).contains(e));
                    }
                }
            }
            assert(self.contents() =~= old(self).contents().insert(p@));
        }
        added
    }

    /// Removes `p` from the index; reports whether it was there.
    fn take(&mut self, p: &[u8; 32]) -> (found: bool)
        requires
            old(self).wf(),
        ensures
            final(self).wf(),
            found == old(self).contents().contains(p@),
            final(self).contents() == old(self).contents().remove(p@),
    {
        broadcast use vstd::std_specs::hash::group_hash_axioms;

        let target = *p;
        let key = point_key(&target);
        let ghost old_buckets = self.buckets@;
        let mut bucket = self.take_bucket(key);
        let ghost old_bucket = bucket@;
        proof {
            if old_buckets.contains_key(key) {
                assert(old_bucket == old_buckets[key]@);
            }
        }
        let found = match EncodingIndex::find(&bucket, &target) {
            Some(j) => {
                proof {
                    assert(old_buckets.contains_key(key));
                    assert(array_views(old_bucket)[j as int] == p@);
                    assert(array_views(old_bucket).contains(p@));
                    assert(array_views(old_bucket).no_duplicates());
                }
                bucket.remove(j);
                proof {
                    let prev = array_views(old_bucket);
                    let c = array_views(bucket@);
                    assert(c =~= prev.remove(j as int));
                    assert(prev[j as int] == p@);
                    assert forall|e: Seq<u8>| c.contains(e) <==> prev.contains(e) && e != p@ by {
                        if c.contains(e) {
                            let t = choose|t: int| 0 <= t < c.len() && c[t] == e;
                            if t < j {
                                assert(prev[t] == e);
                            } else {
                                assert(prev[t + 1] == e);
                                assert(prev[j as int] == p@);
                            }
                        }
                        if prev.contains(e) && e != p@ {
                            let t = choose|t: int| 0 <= t < prev.len() && prev[t] == e;
                            if t < j {
                                assert(c[t] == e);
                            } else {
                                assert(t != j);
                                assert(c[t - 1] == e);
                            }
                        }
                    }
                    assert(c.no_duplicates());
                }
                true
            },
            None => {
                assert(!array_views(old_bucket).contains(p@));
                false
            },
        };
        let ghost new_bucket = bucket@;
        self.buckets.insert(key, bucket);
        proof {
            assert(self.buckets@ == old_buckets.insert(key, self.buckets@[key]));
            assert(forall|j: int|
                0 <= j < new_bucket.len() ==> bucket_key(#[trigger] new_bucket[j]@) == key) by {
                assert forall|j: int| 0 <= j < new_bucket.len() implies bucket_key(#[trigger] new_bucket[j]@) == key by {
                    assert(array_views(new_bucket)[j] == new_bucket[j]@);
                    assert(array_views(new_bucket).contains(new_bucket[j]@));
                    let t = choose|t: int| 0 <= t < array_views(old_bucket).len() && array_views(old_bucket)[t] == new_bucket[j]@;
                    assert(old_bucket[t]@ == new_bucket[j]@);
                }
            }
            assert(self.wf());
            assert(found == old(self).contents().contains(p@));
            assert forall|e: Seq<u8>| #[trigger] self.contents().contains(e) == old(self).contents().remove(p@).contains(e) by {
                if bucket_key(e) == key && !found {
                    assert(new_bucket == old_bucket);
                }
            }
            assert(self.contents() =~= old(self).contents().remove(p@));
        }
        found
    }
}

/// The key of the encoding `bytes`.
fn point_key(bytes: &[u8; 32]) -> (key: u64)
    ensures
        key == bucket_key(bytes@),
{
    read_le_u64(bytes.as_slice())
}

/// The number of distinct encodings that occur in both lists.
pub fn count_common(set1: &Vec<[u8; 32]>, set2: &Vec<[u8; 32]>) -> (count: usize)
    ensures
        count == common_count(set1@, set2@),
{
    broadcast use vstd::seq_lib::group_seq_lib_default;
    broadcast use vstd::set::group_set_axioms;

    let mut index = EncodingIndex::new();
    let mut j: usize = 0;
    while j < set2.len()
        invariant
            j <= set2.len(),
            index.wf(),
            index.contents() == encoding_set(set2@.take(j as int)),
        decreases set2.len() - j,
    {
        let q = set2[j];
        index.insert(q);
        proof {
            assert(array_views(set2@.take(j + 1)) =~= array_views(set2@.take(j as int)).push(q@)) by {
                assert(set2@.take(j + 1) =~= set2@.take(j as int).push(q));
            }
            array_views(set2@.take(j as int)).lemma_push_to_set_commute(q@);
        }
        j = j + 1;
    }
    assert(set2@.take(set2.len() as int) =~= set2@);
    let ghost e2 = encoding_set(set2@);
    proof {
        assert(array_views(set1@.take(0)) =~= Seq::<Seq<u8>>::empty());
        assert(encoding_set(set1@.take(0)) =~= Set::<Seq<u8>>::empty());
        assert(encoding_set(set1@.take(0)).intersect(e2) =~= Set::<Seq<u8>>::empty());
        assert(e2.difference(encoding_set(set1@.take(0))) =~= e2);
    }
    let mut count: usize = 0;
    let mut i: usize = 0;
    while i < set1.len()
        invariant
            i <= set1.len(),
            count <= i,
            index.wf(),
            e2 == encoding_set(set2@),
            index.contents() == e2.difference(encoding_set(set1@.take(i as int))),
            count == encoding_set(set1@.take(i as int)).intersect(e2).len(),
        decreases set1.len() - i,
    {
        let p = set1[i];
        let ghost before = encoding_set(set1@.take(i as int));
        proof {
            assert(array_views(set1@.take(i + 1)) =~= array_views(set1@.take(i as int)).push(p@)) by {
                assert(set1@.take(i + 1) =~= set1@.take(i as int).push(p));
            }
            array_views(set1@.take(i as int)).lemma_push_to_set_commute(p@);
        }
        let found = index.take(&p);
        proof {
            let after = encoding_set(set1@.take(i + 1));
            assert(after == before.insert(p@));
            if found {
                assert(after.intersect(e2) =~= before.intersect(e2).insert(p@));
                assert(!before.intersect(e2).contains(p@));
            } else {
                assert(after.intersect(e2) =~= before.intersect(e2));
            }
            assert(index.contents() =~= e2.difference(after));
        }
        if found {
            count = count + 1;
        }
        i = i + 1;
    }
    assert(set1@.take(set1.len() as int) =~= set1@);
    count
}


/// Whether no encoding occurs twice in `v`.
pub fn all_distinct(v: &Vec<[u8; 32]>) -> (distinct: bool)
    ensures
        distinct == array_views(v@).no_duplicates(),
{
    let mut index = EncodingIndex::new();
    let mut j: usize = 0;
    while j < v.len()
        invariant
            j <= v.len(),
            index.wf(),
            index.contents() == encoding_set(v@.take(j as int)),
            array_views(v@.take(j as int)).no_duplicates(),
        decreases v.len() - j,
    {
        let q = v[j];
        let ghost before = array_views(v@.take(j as int));
        proof {
            assert(array_views(v@.take(j + 1)) =~= before.push(q@)) by {
                assert(v@.take(j + 1) =~= v@.take(j as int).push(q));
            }
            before.lemma_push_to_set_commute(q@);
        }
        let added = index.insert(q);
        if !added {
            proof {
                assert(before.contains(q@));
                let t = choose|t: int| 0 <= t < before.len() && before[t] == q@;
                assert(array_views(v@)[t] == array_views(v@)[j as int]);
                assert(!array_views(v@).no_duplicates());
            }
            return false;
        }
        proof {
            let c = array_views(v@.take(j + 1));
            assert forall|a: int, b: int| 0 <= a < b < c.len() implies c[a] != c[b] by {
                if b == c.len() - 1 {
                    assert(before[a] == c[a]);
                    assert(before.contains(c[a]));
                }
            }
        }
        j = j + 1;
    }
    assert(v@.take(v.len() as int) =~= v@);
    true
}

} // verus!
