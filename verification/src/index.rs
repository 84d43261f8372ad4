//! The deletion index: for each deletion variant, the numbers of the
//! vocabulary words that have it among their variants.
//!
//! A variant is hashed to a slot; the slot's key and its bucket of word
//! numbers stand side by side in two vectors, so that a bucket grows in place
//! and the whole index can be listed.

use vstd::hash_map::StringHashMap;
use vstd::prelude::*;

verus! {

pub struct DeletionIndex {
    slots: StringHashMap<usize>,
    keys: Vec<String>,
    buckets: Vec<Vec<usize>>,
}

impl View for DeletionIndex {
    type V = Map<Seq<char>, Seq<usize>>;

    closed spec fn view(&self) -> Map<Seq<char>, Seq<usize>> {
        Map::new(
            |k: Seq<char>| self.slots@.contains_key(k),
            |k: Seq<char>| self.buckets@[self.slots@[k] as int]@,
        )
    }
}

impl DeletionIndex {
    /// Every variant has one slot, and every slot belongs to its variant.
    pub closed spec fn wf(&self) -> bool {
        &&& self.keys@.len() == self.buckets@.len()
        &&& forall|k: Seq<char>| #[trigger]
            self.slots@.contains_key(k) ==> self.slots@[k] < self.keys@.len()
                && self.keys@[self.slots@[k] as int]@ == k
        &&& forall|j: int|
            0 <= j < self.keys@.len() ==> self.slots@.contains_key(#[trigger] self.keys@[j]@)
                && self.slots@[self.keys@[j]@] == j
    }

    /// The variants, in the order of their slots.
    pub closed spec fn listed_keys(&self) -> Seq<String> {
        self.keys@
    }

    /// The buckets, in the order of their slots.
    pub closed spec fn listed_buckets(&self) -> Seq<Vec<usize>> {
        self.buckets@
    }

    /// What the list of slots shows of the index: each listed variant is in
    /// it with its bucket, and nothing else is.
    pub proof fn lemma_listing(&self)
        requires
            self.wf(),
        ensures
            self.listed_keys().len() == self.listed_buckets().len(),
            forall|j: int|
                0 <= j < self.listed_keys().len() ==> self@.contains_key(
                    #[trigger] self.listed_keys()[j]@,
                ) && self@[self.listed_keys()[j]@] == self.listed_buckets()[j]@,
            forall|k: Seq<char>| #[trigger]
                self@.contains_key(k) ==> exists|j: int|
                    0 <= j < self.listed_keys().len() && #[trigger] self.listed_keys()[j]@ == k,
            forall|i: int, j: int|
                0 <= i < self.listed_keys().len() && 0 <= j < self.listed_keys().len() && i != j
                    ==> #[trigger] self.listed_keys()[i]@ != #[trigger] self.listed_keys()[j]@,
    {
        assert forall|k: Seq<char>| #[trigger] self@.contains_key(k) implies exists|j: int|
            0 <= j < self.listed_keys().len() && #[trigger] self.listed_keys()[j]@ == k by {
            assert(self.slots@.contains_key(k));
            let j = self.slots@[k] as int;
            assert(0 <= j < self.listed_keys().len() && self.listed_keys()[j]@ == k);
        }
    }

    /// An index without any variant.
    pub fn new() -> (index: DeletionIndex)
        ensures
            index.wf(),
            index@ == Map::<Seq<char>, Seq<usize>>::empty(),
    {
        let index = DeletionIndex {
            slots: StringHashMap::new(),
            keys: Vec::new(),
            buckets: Vec::new(),
        };
        assert(index@ =~= Map::<Seq<char>, Seq<usize>>::empty());
        index
    }

    /// The bucket of `variant`, if the index has the variant.
    pub fn get(&self, variant: &str) -> (bucket: Option<&Vec<usize>>)
        requires
            self.wf(),
        ensures
            match bucket {
                Some(b) => self@.contains_key(variant@) && b@ == self@[variant@],
                None => !self@.contains_key(variant@),
            },
    {
        match self.slots.get(variant) {
            Some(slot) => Some(&self.buckets[*slot]),
            None => None,
        }
    }

    /// Appends `word` to the bucket of `variant`, which is made if the index
    /// does not have the variant yet.
    pub fn add(&mut self, variant: &str, word: usize)
        requires
            old(self).wf(),
        ensures
            final(self).wf(),
            final(self)@ == old(self)@.insert(
                variant@,
                (if old(self)@.contains_key(variant@) {
                    old(self)@[variant@]
                } else {
                    Seq::<usize>::empty()
                }).push(word),
            ),
    {
        let ghost before = self@;
        let ghost old_slots = self.slots@;
        let found: Option<usize> = match self.slots.get(variant) {
            Some(slot) => Some(*slot),
            None => None,
        };
        match found {
            Some(slot) => {
                self.buckets[slot].push(word);
                proof {
                    assert forall|k: Seq<char>| self.slots@.contains_key(k) implies self@[k] == (
                    if k == variant@ {
                        before[variant@].push(word)
                    } else {
                        before[k]
                    }) by {
                        let s = self.slots@[k] as int;
                        if k != variant@ {
                            assert(self.keys@[s]@ == k);
                            assert(self.keys@[slot as int]@ == variant@);
                        }
                    }
                    assert(self@ =~= before.insert(variant@, before[variant@].push(word)));
                }
            },
            None => {
                let slot: usize = self.keys.len();
                let mut bucket: Vec<usize> = Vec::new();
                bucket.push(word);
                assert(bucket@ == Seq::<usize>::empty().push(word));
                let key = variant.to_owned();
                self.keys.push(key);
                self.buckets.push(bucket);
                self.slots.insert(variant.to_owned(), slot);
                proof {
                    assert forall|k: Seq<char>| #[trigger]
                        self.slots@.contains_key(k) implies self.slots@[k] < self.keys@.len()
                        && self.keys@[self.slots@[k] as int]@ == k by {
                        if k != variant@ {
                            assert(old_slots.contains_key(k));
                        }
                    }
                    assert forall|j: int| 0 <= j < self.keys@.len() implies self.slots@.contains_key(
                        #[trigger] self.keys@[j]@,
                    ) && self.slots@[self.keys@[j]@] == j by {
                        if j < slot {
                            assert(old_slots.contains_key(self.keys@[j]@));
                        }
                    }
                    assert forall|k: Seq<char>| self.slots@.contains_key(k) implies self@[k] == (
                    if k == variant@ {
                        Seq::<usize>::empty().push(word)
                    } else {
                        before[k]
                    }) by {
                        if k != variant@ {
                            assert(old_slots.contains_key(k));
                        }
                    }
                    assert(self@ =~= before.insert(variant@, Seq::<usize>::empty().push(word)));
                }
            },
        }
    }

    /// How many variants the index has.
    pub fn len(&self) -> (count: usize)
        ensures
            count == self.listed_keys().len(),
    {
        self.keys.len()
    }

    /// The variant of slot `slot`.
    pub fn key_at(&self, slot: usize) -> (key: &String)
        requires
            self.wf(),
            slot < self.listed_keys().len(),
        ensures
            *key == self.listed_keys()[slot as int],
    {
        &self.keys[slot]
    }

    /// The bucket of slot `slot`.
    pub fn bucket_at(&self, slot: usize) -> (bucket: &Vec<usize>)
        requires
            self.wf(),
            slot < self.listed_keys().len(),
        ensures
            *bucket == self.listed_buckets()[slot as int],
    {
        &self.buckets[slot]
    }

    /// Whether the index has `variant`.
    pub fn contains(&self, variant: &str) -> (found: bool)
        requires
            self.wf(),
        ensures
            found == self@.contains_key(variant@),
    {
        self.slots.contains_key(variant)
    }

    /// Enters `variant` with the whole of `bucket`. The index must not have
    /// the variant yet.
    pub fn put(&mut self, variant: String, bucket: Vec<usize>)
        requires
            old(self).wf(),
            !old(self)@.contains_key(variant@),
        ensures
            final(self).wf(),
            final(self)@ == old(self)@.insert(variant@, bucket@),
    {
        let ghost before = self@;
        let ghost old_slots = self.slots@;
        let ghost key = variant@;
        let slot: usize = self.keys.len();
        let copy = variant.clone();
        self.keys.push(variant);
        self.buckets.push(bucket);
        self.slots.insert(copy, slot);
        proof {
            assert forall|k: Seq<char>| #[trigger]
                self.slots@.contains_key(k) implies self.slots@[k] < self.keys@.len()
                && self.keys@[self.slots@[k] as int]@ == k by {
                if k != key {
                    assert(old_slots.contains_key(k));
                }
            }
            assert forall|j: int| 0 <= j < self.keys@.len() implies self.slots@.contains_key(
                #[trigger] self.keys@[j]@,
            ) && self.slots@[self.keys@[j]@] == j by {
                if j < slot {
                    assert(old_slots.contains_key(self.keys@[j]@));
                }
            }
            assert forall|k: Seq<char>| self.slots@.contains_key(k) implies self@[k] == (if k
                == key {
                bucket@
            } else {
                before[k]
            }) by {
                if k != key {
                    assert(old_slots.contains_key(k));
                }
            }
            assert(self@ =~= before.insert(key, bucket@));
        }
    }
}

} // verus!
