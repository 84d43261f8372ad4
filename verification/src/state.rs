//! A corrector's state in plain values, for keeping it elsewhere: the words,
//! the deletion index as a list of variants with their buckets, and the
//! bound.

use crate::index::DeletionIndex;
use crate::lookup::{world_of, World};
use crate::text::{
    copy_numbers, copy_strings, distinct_strings, lemma_string_set_empty, lemma_string_set_push,
    string_set, string_views,
};
use vstd::hash_set::StringHashSet;
use vstd::prelude::*;

verus! {

/// What a corrector is rebuilt from.
pub struct CorrectorState {
    pub dictionary: Vec<String>,
    pub dictionary_del_mappings: Vec<(String, Vec<usize>)>,
    pub max_edit_distance: usize,
}

/// Why a state cannot be a corrector's.
#[derive(Debug, Clone, Copy, PartialEq, Eq)]
pub enum ImportError {
    /// A word stands twice among the words.
    DuplicateWord,
    /// A bucket names a word that is not there.
    WordOutOfRange,
    /// A variant stands twice in the index.
    DuplicateVariant,
}

/// The index that a list of variants with their buckets makes.
pub open spec fn mapping_of(entries: Seq<(String, Vec<usize>)>) -> Map<Seq<char>, Seq<usize>>
    decreases entries.len(),
{
    if entries.len() == 0 {
        Map::empty()
    } else {
        mapping_of(entries.drop_last()).insert(entries.last().0@, entries.last().1@)
    }
}

/// No variant stands twice in `entries`.
pub open spec fn distinct_keys(entries: Seq<(String, Vec<usize>)>) -> bool {
    forall|i: int, j: int|
        0 <= i < entries.len() && 0 <= j < entries.len() && i != j ==> (#[trigger] entries[i]).0@
            != (#[trigger] entries[j]).0@
}

/// Every number in every bucket is below `limit`.
pub open spec fn in_range(entries: Seq<(String, Vec<usize>)>, limit: nat) -> bool {
    forall|j: int, t: int|
        0 <= j < entries.len() && 0 <= t < entries[j].1@.len() ==> #[trigger] entries[j].1@[t]
            < limit
}

impl CorrectorState {
    /// The world that the state describes.
    pub open spec fn world(&self) -> World {
        World {
            words: string_views(self.dictionary@),
            bound: self.max_edit_distance as nat,
            index: mapping_of(self.dictionary_del_mappings@),
        }
    }

    /// What is wrong with the state, if anything: the first of a repeated
    /// word, a bucket that names a missing word, and a repeated variant.
    pub open spec fn error(&self) -> Option<ImportError> {
        if !distinct_strings(self.dictionary@) {
            Some(ImportError::DuplicateWord)
        } else if !in_range(self.dictionary_del_mappings@, self.dictionary@.len()) {
            Some(ImportError::WordOutOfRange)
        } else if !distinct_keys(self.dictionary_del_mappings@) {
            Some(ImportError::DuplicateVariant)
        } else {
            None
        }
    }
}

/// Where no variant stands twice, the index has each listed variant with
/// its bucket, and no other.
pub proof fn lemma_mapping_of(entries: Seq<(String, Vec<usize>)>)
    requires
        distinct_keys(entries),
    ensures
        forall|j: int|
            0 <= j < entries.len() ==> mapping_of(entries).contains_key(
                (#[trigger] entries[j]).0@,
            ) && mapping_of(entries)[entries[j].0@] == entries[j].1@,
        forall|v: Seq<char>| #[trigger]
            mapping_of(entries).contains_key(v) ==> exists|j: int|
                0 <= j < entries.len() && (#[trigger] entries[j]).0@ == v,
    decreases entries.len(),
{
    if entries.len() > 0 {
        let earlier = entries.drop_last();
        let last = entries.last();
        assert forall|i: int, j: int|
            0 <= i < earlier.len() && 0 <= j < earlier.len() && i != j implies (
        #[trigger] earlier[i]).0@ != (#[trigger] earlier[j]).0@ by {
            assert(earlier[i] == entries[i] && earlier[j] == entries[j]);
        }
        lemma_mapping_of(earlier);
        assert forall|j: int| 0 <= j < entries.len() implies mapping_of(entries).contains_key(
            (#[trigger] entries[j]).0@,
        ) && mapping_of(entries)[entries[j].0@] == entries[j].1@ by {
            if j < earlier.len() {
                assert(earlier[j] == entries[j]);
                assert(entries[j].0@ != entries[entries.len() - 1].0@);
            }
        }
        assert forall|v: Seq<char>| #[trigger]
            mapping_of(entries).contains_key(v) implies exists|j: int|
            0 <= j < entries.len() && (#[trigger] entries[j]).0@ == v by {
            if v == last.0@ {
                assert(entries[entries.len() - 1].0@ == v);
            } else {
                assert(mapping_of(earlier).contains_key(v));
                let j = choose|j: int| 0 <= j < earlier.len() && (#[trigger] earlier[j]).0@ == v;
                assert(earlier[j] == entries[j]);
                assert(entries[j].0@ == v);
            }
        }
    }
}

/// The state of a corrector with these words, this index and this bound.
pub fn export_parts(dictionary: &Vec<String>, index: &DeletionIndex, bound: usize) -> (state:
    CorrectorState)
    requires
        index.wf(),
        world_of(dictionary@, bound, *index).wf(),
    ensures
        state.world() == world_of(dictionary@, bound, *index),
        state.error() is None,
        state.dictionary@ == dictionary@,
        state.max_edit_distance == bound,
{
    let ghost world = world_of(dictionary@, bound, *index);
    let mut entries: Vec<(String, Vec<usize>)> = Vec::new();
    let mut j: usize = 0;
    proof {
        index.lemma_listing();
    }
    while j < index.len()
        invariant
            j <= index.listed_keys().len(),
            index.wf(),
            index.listed_keys().len() == index.listed_buckets().len(),
            entries@.len() == j,
            forall|t: int|
                0 <= t < j ==> (#[trigger] entries@[t]).0@ == index.listed_keys()[t]@
                    && entries@[t].1@ == index.listed_buckets()[t]@,
        decreases index.listed_keys().len() - j,
    {
        let key = index.key_at(j).clone();
        let bucket = copy_numbers(index.bucket_at(j));
        entries.push((key, bucket));
        j += 1;
    }
    proof {
        assert forall|i: int, j: int|
            0 <= i < entries@.len() && 0 <= j < entries@.len() && i != j implies (
        #[trigger] entries@[i]).0@ != (#[trigger] entries@[j]).0@ by {
            assert(index.listed_keys()[i]@ != index.listed_keys()[j]@);
        }
        lemma_mapping_of(entries@);
        assert forall|v: Seq<char>| mapping_of(entries@).contains_key(v) == index@.contains_key(
            v,
        ) by {
            if mapping_of(entries@).contains_key(v) {
                let t = choose|t: int| 0 <= t < entries@.len() && (#[trigger] entries@[t]).0@ == v;
                assert(index@.contains_key(index.listed_keys()[t]@));
            }
            if index@.contains_key(v) {
                let t = choose|t: int|
                    0 <= t < index.listed_keys().len() && #[trigger] index.listed_keys()[t]@ == v;
                assert(entries@[t].0@ == v);
            }
        }
        assert forall|v: Seq<char>| index@.contains_key(v) implies mapping_of(entries@)[v]
            == index@[v] by {
            let t = choose|t: int|
                0 <= t < index.listed_keys().len() && #[trigger] index.listed_keys()[t]@ == v;
            assert(entries@[t].0@ == v);
        }
        assert(mapping_of(entries@) =~= index@);
        assert forall|j: int, t: int|
            0 <= j < entries@.len() && 0 <= t < entries@[j].1@.len()
                implies #[trigger] entries@[j].1@[t] < dictionary@.len() by {
            let v = entries@[j].0@;
            assert(index@.contains_key(index.listed_keys()[j]@));
            assert(world.index[v][t] < world.words.len());
        }
        assert forall|i: int, j: int|
            0 <= i < dictionary@.len() && 0 <= j < dictionary@.len() && i
                != j implies #[trigger] dictionary@[i]@ != #[trigger] dictionary@[j]@ by {
            assert(world.words[i] != world.words[j]);
        }
    }
    CorrectorState {
        dictionary: copy_strings(dictionary),
        dictionary_del_mappings: entries,
        max_edit_distance: bound,
    }
}

/// The parts of the corrector that `state` describes: its words, the set of
/// them, its index and its bound; or what is wrong with the state.
pub fn import_parts(state: CorrectorState) -> (parts: Result<
    (Vec<String>, StringHashSet, DeletionIndex, usize),
    ImportError,
>)
    ensures
        match parts {
            Ok((dictionary, known, index, bound)) => {
                &&& state.error() is None
                &&& index.wf()
                &&& known@ == string_set(dictionary@)
                &&& world_of(dictionary@, bound, index) == state.world()
                &&& state.world().wf()
            },
            Err(e) => state.error() == Some(e),
        },
{
    let ghost all = state.dictionary_del_mappings@;
    let ghost words = state.dictionary@;
    let mut known = StringHashSet::new();
    let mut k: usize = 0;
    proof {
        lemma_string_set_empty(words.take(0));
    }
    while k < state.dictionary.len()
        invariant
            k <= words.len(),
            words == state.dictionary@,
            known@ == string_set(words.take(k as int)),
            distinct_strings(words.take(k as int)),
        decreases words.len() - k,
    {
        let fresh = known.insert(state.dictionary[k].clone());
        proof {
            lemma_string_set_push(words.take(k as int), words[k as int]);
            assert(words.take(k as int).push(words[k as int]) =~= words.take(k + 1));
        }
        if !fresh {
            proof {
                let j = choose|j: int|
                    0 <= j < words.take(k as int).len() && #[trigger] words.take(k as int)[j]@
                        == words[k as int]@;
                assert(words[j]@ == words[k as int]@);
            }
            return Err(ImportError::DuplicateWord);
        }
        proof {
            assert forall|i: int, j: int|
                0 <= i < k + 1 && 0 <= j < k + 1 && i != j implies #[trigger] words.take(
                k + 1,
            )[i]@ != #[trigger] words.take(k + 1)[j]@ by {
                if i < k && j < k {
                    assert(words.take(k as int)[i]@ != words.take(k as int)[j]@);
                } else if i < k {
                    assert(string_set(words.take(k as int)).contains(words.take(k as int)[i]@));
                } else {
                    assert(string_set(words.take(k as int)).contains(words.take(k as int)[j]@));
                }
            }
        }
        k += 1;
    }
    proof {
        assert(words.take(words.len() as int) =~= words);
    }
    let limit: usize = state.dictionary.len();
    let mut j: usize = 0;
    while j < state.dictionary_del_mappings.len()
        invariant
            j <= all.len(),
            all == state.dictionary_del_mappings@,
            words == state.dictionary@,
            distinct_strings(words),
            limit == words.len(),
            forall|p: int, t: int|
                0 <= p < j && 0 <= t < all[p].1@.len() ==> #[trigger] all[p].1@[t] < limit,
        decreases all.len() - j,
    {
        let bucket = &state.dictionary_del_mappings[j].1;
        let mut t: usize = 0;
        while t < bucket.len()
            invariant
                t <= bucket@.len(),
                j < all.len(),
                bucket@ == all[j as int].1@,
                all == state.dictionary_del_mappings@,
                words == state.dictionary@,
                distinct_strings(words),
                limit == words.len(),
                forall|u: int| 0 <= u < t ==> #[trigger] bucket@[u] < limit,
            decreases bucket@.len() - t,
        {
            if bucket[t] >= limit {
                proof {
                    assert(!(all[j as int].1@[t as int] < limit));
                }
                return Err(ImportError::WordOutOfRange);
            }
            t += 1;
        }
        j += 1;
    }
    let CorrectorState { dictionary, dictionary_del_mappings, max_edit_distance } = state;
    let mut rest = dictionary_del_mappings;
    let mut index = DeletionIndex::new();
    assert(rest@ =~= all.take(all.len() as int));
    while rest.len() > 0
        invariant
            all == state.dictionary_del_mappings@,
            words == state.dictionary@,
            distinct_strings(words),
            in_range(all, words.len()),
            rest@.len() <= all.len(),
            rest@ == all.take(rest@.len() as int),
            index.wf(),
            forall|p: int|
                rest@.len() <= p < all.len() ==> index@.contains_key((#[trigger] all[p]).0@)
                    && index@[all[p].0@] == all[p].1@,
            forall|v: Seq<char>| #[trigger]
                index@.contains_key(v) ==> exists|p: int|
                    rest@.len() <= p < all.len() && (#[trigger] all[p]).0@ == v,
            forall|p: int, q: int|
                rest@.len() <= p < all.len() && rest@.len() <= q < all.len() && p != q ==> (
                #[trigger] all[p]).0@ != (#[trigger] all[q]).0@,
        decreases rest@.len(),
    {
        let ghost m = rest@.len() - 1;
        let ghost before = index@;
        let (key, bucket) = rest.pop().unwrap();
        assert(key == all[m].0 && bucket == all[m].1);
        if index.contains(key.as_str()) {
            proof {
                let p = choose|p: int| m < p < all.len() && (#[trigger] all[p]).0@ == key@;
                assert(all[p].0@ == all[m].0@);
            }
            return Err(ImportError::DuplicateVariant);
        }
        index.put(key, bucket);
        proof {
            assert(rest@ =~= all.take(m));
            assert forall|p: int| m <= p < all.len() implies index@.contains_key(
                (#[trigger] all[p]).0@,
            ) && index@[all[p].0@] == all[p].1@ by {
                if p > m {
                    assert(before.contains_key(all[p].0@));
                }
            }
            assert forall|v: Seq<char>| #[trigger] index@.contains_key(v) implies exists|p: int|
                m <= p < all.len() && (#[trigger] all[p]).0@ == v by {
                if v != all[m].0@ {
                    assert(before.contains_key(v));
                    let p = choose|p: int| m < p < all.len() && (#[trigger] all[p]).0@ == v;
                    assert(all[p].0@ == v);
                } else {
                    assert(all[m].0@ == v);
                }
            }
            assert forall|p: int, q: int|
                m <= p < all.len() && m <= q < all.len() && p != q implies (#[trigger] all[p]).0@
                != (#[trigger] all[q]).0@ by {
                if p == m {
                    assert(before.contains_key(all[q].0@));
                } else if q == m {
                    assert(before.contains_key(all[p].0@));
                }
            }
        }
    }
    proof {
        lemma_mapping_of(all);
        assert forall|v: Seq<char>| mapping_of(all).contains_key(v) == index@.contains_key(v) by {
            if mapping_of(all).contains_key(v) {
                let p = choose|p: int| 0 <= p < all.len() && (#[trigger] all[p]).0@ == v;
                assert(index@.contains_key(all[p].0@));
            }
            if index@.contains_key(v) {
                let p = choose|p: int| 0 <= p < all.len() && (#[trigger] all[p]).0@ == v;
                assert(mapping_of(all).contains_key(all[p].0@));
            }
        }
        assert forall|v: Seq<char>| index@.contains_key(v) implies mapping_of(all)[v]
            == index@[v] by {
            let p = choose|p: int| 0 <= p < all.len() && (#[trigger] all[p]).0@ == v;
            assert(index@[all[p].0@] == all[p].1@);
        }
        assert(mapping_of(all) =~= index@);
        let world = world_of(dictionary@, max_edit_distance, index);
        assert forall|i: int, j: int|
            0 <= i < world.words.len() && 0 <= j < world.words.len() && i
                != j implies #[trigger] world.words[i] != #[trigger] world.words[j] by {
            assert(words[i]@ != words[j]@);
        }
        assert forall|v: Seq<char>, t: int|
            world.index.contains_key(v) && 0 <= t < world.index[v].len()
                implies #[trigger] world.index[v][t] < world.words.len() by {
            let p = choose|p: int| 0 <= p < all.len() && (#[trigger] all[p]).0@ == v;
            assert(index@[all[p].0@] == all[p].1@);
            assert(all[p].1@[t] < limit);
        }
    }
    Ok((dictionary, known, index, max_edit_distance))
}

} // verus!
