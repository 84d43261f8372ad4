//! Looking a query up: the vocabulary words that share a deletion variant
//! with it, their true distances, and the ranking of those within the bound.

use crate::distance::{bounded_levenshtein, levenshtein};
use crate::index::DeletionIndex;
use crate::ranking::{
    distinct_words, is_ranking_of, lemma_ranking_is, rank, ranked_views, ranking_of, Ranked,
    Suggestion,
};
use crate::text::{distinct_strings, string_set};
use crate::variants::{deletion_variants, variant_set, VariantSet};
use std::collections::HashSet;
use vstd::prelude::*;
use vstd::string::StringSliceAdditionalSpecFns;
use vstd::utf8::encode_utf8;

verus! {

broadcast use vstd::std_specs::hash::group_hash_axioms;

/// What a corrector knows: its words in the order in which they came, the
/// bound on the distance, and the deletion index.
pub struct World {
    pub words: Seq<Seq<char>>,
    pub bound: nat,
    pub index: Map<Seq<char>, Seq<usize>>,
}

impl World {
    /// No word stands twice, and the index names only words that exist.
    pub open spec fn wf(self) -> bool {
        &&& forall|i: int, j: int|
            0 <= i < self.words.len() && 0 <= j < self.words.len() && i != j
                ==> #[trigger] self.words[i] != #[trigger] self.words[j]
        &&& forall|v: Seq<char>, t: int|
            self.index.contains_key(v) && 0 <= t < self.index[v].len()
                ==> #[trigger] self.index[v][t] < self.words.len()
    }

    /// The index lists word number `i` under variant `v`.
    pub open spec fn lists(self, v: Seq<char>, i: usize) -> bool {
        self.index.contains_key(v) && self.index[v].contains(i)
    }

    /// The index holds, for every word, exactly the word's deletion variants
    /// up to the bound, the word itself among them.
    pub open spec fn consistent(self) -> bool {
        forall|v: Seq<char>, i: usize| #[trigger]
            self.lists(v, i) <==> i < self.words.len() && variant_set(
                self.words[i as int],
                self.bound,
                true,
            ).contains(v)
    }

    /// Word number `i` shares with `q` a string that comes of `q` by one to
    /// `bound` deletions.
    pub open spec fn hit(self, q: Seq<char>, i: usize) -> bool {
        exists|v: Seq<char>|
            variant_set(q, self.bound, false).contains(v) && #[trigger] self.lists(v, i)
    }

    /// `x` is a word that `q` hits, with its true distance from `q`, which is
    /// within the bound.
    pub open spec fn candidate(self, q: Seq<char>, x: Ranked) -> bool {
        exists|i: usize| #[trigger]
            self.hit(q, i) && i < self.words.len() && x.word == self.words[i as int]
                && x.distance == levenshtein(encode_utf8(q), encode_utf8(x.word)) && x.distance
                <= self.bound
    }

    /// The suggestions for `q`, as a set.
    pub open spec fn candidates(self, q: Seq<char>) -> Set<Ranked> {
        Set::new(|x: Ranked| self.candidate(q, x))
    }

    /// The suggestions for `q`, best first.
    pub open spec fn ranking(self, q: Seq<char>) -> Seq<Ranked> {
        ranking_of(self.candidates(q))
    }
}

/// Where the index is consistent, a query hits exactly the words with which
/// it shares a variant: one to `bound` deletions on its side, none to
/// `bound` on the word's.
pub proof fn lemma_consistent_hits(world: World, q: Seq<char>, i: usize)
    requires
        world.consistent(),
    ensures
        world.hit(q, i) <==> i < world.words.len() && exists|v: Seq<char>|
            variant_set(q, world.bound, false).contains(v) && #[trigger] variant_set(
                world.words[i as int],
                world.bound,
                true,
            ).contains(v),
{
    if world.hit(q, i) {
        let v = choose|v: Seq<char>|
            variant_set(q, world.bound, false).contains(v) && #[trigger] world.lists(v, i);
        assert(variant_set(world.words[i as int], world.bound, true).contains(v));
    }
    if i < world.words.len() && exists|v: Seq<char>|
        variant_set(q, world.bound, false).contains(v) && #[trigger] variant_set(
            world.words[i as int],
            world.bound,
            true,
        ).contains(v) {
        let v = choose|v: Seq<char>|
            variant_set(q, world.bound, false).contains(v) && #[trigger] variant_set(
                world.words[i as int],
                world.bound,
                true,
            ).contains(v);
        assert(world.lists(v, i));
    }
}

/// One of the first `upto` strings of `items` is a variant under which the
/// index lists `i`.
pub open spec fn reached(
    index: Map<Seq<char>, Seq<usize>>,
    items: Seq<String>,
    upto: int,
    i: usize,
) -> bool {
    exists|j: int|
        0 <= j < upto && j < items.len() && index.contains_key(#[trigger] items[j]@)
            && index[items[j]@].contains(i)
}

/// `i` is among the first `upto` numbers of `bucket`.
pub open spec fn within(bucket: Seq<usize>, upto: int, i: usize) -> bool {
    exists|u: int| 0 <= u < upto && u < bucket.len() && #[trigger] bucket[u] == i
}

/// No number stands twice in `list`.
pub open spec fn distinct_numbers(list: Seq<usize>) -> bool {
    forall|i: int, j: int|
        0 <= i < list.len() && 0 <= j < list.len() && i != j ==> #[trigger] list[i]
            != #[trigger] list[j]
}

/// The numbers that the index lists under one of `variants`, each once.
pub fn gather_hits(index: &DeletionIndex, variants: &VariantSet) -> (hits: Vec<usize>)
    requires
        index.wf(),
    ensures
        distinct_numbers(hits@),
        forall|i: usize|
            hits@.contains(i) <==> exists|v: Seq<char>|
                variants@.contains(v) && #[trigger] index@.contains_key(v) && index@[v].contains(
                    i,
                ),
{
    let words = variants.words();
    let mut seen: HashSet<usize> = HashSet::new();
    let mut hits: Vec<usize> = Vec::new();
    let mut vi: usize = 0;
    while vi < words.len()
        invariant
            vi <= words.len(),
            index.wf(),
            distinct_numbers(hits@),
            forall|i: usize| seen@.contains(i) <==> hits@.contains(i),
            forall|i: usize| hits@.contains(i) <==> reached(index@, words@, vi as int, i),
        decreases words.len() - vi,
    {
        match index.get(words[vi].as_str()) {
            Some(bucket) => {
                let mut t: usize = 0;
                while t < bucket.len()
                    invariant
                        t <= bucket.len(),
                        vi < words.len(),
                        index@.contains_key(words@[vi as int]@),
                        bucket@ == index@[words@[vi as int]@],
                        distinct_numbers(hits@),
                        forall|i: usize| seen@.contains(i) <==> hits@.contains(i),
                        forall|i: usize|
                            hits@.contains(i) <==> reached(index@, words@, vi as int, i) || within(
                                bucket@,
                                t as int,
                                i,
                            ),
                    decreases bucket.len() - t,
                {
                    let number: usize = bucket[t];
                    let ghost before = hits@;
                    let ghost seen_before = seen@;
                    let fresh = seen.insert(number);
                    if fresh {
                        hits.push(number);
                        proof {
                            assert forall|i: int, j: int|
                                0 <= i < hits@.len() && 0 <= j < hits@.len() && i
                                    != j implies #[trigger] hits@[i] != #[trigger] hits@[j] by {
                                if i < before.len() {
                                    assert(before.contains(before[i]));
                                }
                                if j < before.len() {
                                    assert(before.contains(before[j]));
                                }
                            }
                        }
                    }
                    proof {
                        assert forall|i: usize|
                            hits@.contains(i) <==> reached(index@, words@, vi as int, i) || within(
                                bucket@,
                                t + 1,
                                i,
                            ) by {
                            if hits@.contains(i) {
                                let p = choose|p: int| 0 <= p < hits@.len() && hits@[p] == i;
                                if p < before.len() {
                                    assert(before[p] == i);
                                    assert(before.contains(i));
                                } else {
                                    assert(i == number);
                                }
                            }
                            if before.contains(i) {
                                let p = choose|p: int| 0 <= p < before.len() && before[p] == i;
                                assert(hits@[p] == i);
                            }
                            if i == number {
                                assert(bucket@[t as int] == i);
                                assert(within(bucket@, t + 1, i));
                                if fresh {
                                    assert(hits@[before.len() as int] == i);
                                } else {
                                    assert(seen_before.contains(i));
                                    assert(before.contains(i));
                                }
                            }
                            if within(bucket@, t + 1, i) {
                                let u = choose|u: int|
                                    0 <= u < t + 1 && u < bucket@.len() && #[trigger] bucket@[u]
                                        == i;
                                if u < t {
                                    assert(within(bucket@, t as int, i));
                                }
                            }
                            if within(bucket@, t as int, i) {
                                let u = choose|u: int|
                                    0 <= u < t && u < bucket@.len() && #[trigger] bucket@[u] == i;
                                assert(within(bucket@, t + 1, i));
                            }
                        }
                    }
                    t += 1;
                }
                proof {
                    assert forall|i: usize| reached(index@, words@, vi + 1, i) <==> reached(
                        index@,
                        words@,
                        vi as int,
                        i,
                    ) || within(bucket@, bucket@.len() as int, i) by {
                        if reached(index@, words@, vi + 1, i) {
                            let j = choose|j: int|
                                0 <= j < vi + 1 && j < words@.len() && index@.contains_key(
                                    #[trigger] words@[j]@,
                                ) && index@[words@[j]@].contains(i);
                            if j < vi {
                                assert(reached(index@, words@, vi as int, i));
                            } else {
                                let u = choose|u: int| 0 <= u < bucket@.len() && bucket@[u] == i;
                                assert(within(bucket@, bucket@.len() as int, i));
                            }
                        }
                        if reached(index@, words@, vi as int, i) {
                            let j = choose|j: int|
                                0 <= j < vi && j < words@.len() && index@.contains_key(
                                    #[trigger] words@[j]@,
                                ) && index@[words@[j]@].contains(i);
                            assert(reached(index@, words@, vi + 1, i));
                        }
                        if within(bucket@, bucket@.len() as int, i) {
                            let u = choose|u: int|
                                0 <= u < bucket@.len() && u < bucket@.len() && #[trigger] bucket@[u]
                                    == i;
                            assert(bucket@.contains(i));
                            assert(index@.contains_key(words@[vi as int]@));
                            assert(reached(index@, words@, vi + 1, i));
                        }
                    }
                }
            },
            None => {
                proof {
                    assert forall|i: usize| reached(index@, words@, vi + 1, i) <==> reached(
                        index@,
                        words@,
                        vi as int,
                        i,
                    ) by {
                        if reached(index@, words@, vi + 1, i) {
                            let j = choose|j: int|
                                0 <= j < vi + 1 && j < words@.len() && index@.contains_key(
                                    #[trigger] words@[j]@,
                                ) && index@[words@[j]@].contains(i);
                            assert(j < vi);
                            assert(reached(index@, words@, vi as int, i));
                        }
                        if reached(index@, words@, vi as int, i) {
                            let j = choose|j: int|
                                0 <= j < vi && j < words@.len() && index@.contains_key(
                                    #[trigger] words@[j]@,
                                ) && index@[words@[j]@].contains(i);
                            assert(reached(index@, words@, vi + 1, i));
                        }
                    }
                }
            },
        }
        vi += 1;
    }
    proof {
        assert forall|i: usize|
            hits@.contains(i) <==> exists|v: Seq<char>|
                variants@.contains(v) && #[trigger] index@.contains_key(v) && index@[v].contains(
                    i,
                ) by {
            if hits@.contains(i) {
                let j = choose|j: int|
                    0 <= j < vi && j < words@.len() && index@.contains_key(#[trigger] words@[j]@)
                        && index@[words@[j]@].contains(i);
                assert(string_set(words@).contains(words@[j]@));
                assert(variants@.contains(words@[j]@));
            }
            if exists|v: Seq<char>|
                variants@.contains(v) && #[trigger] index@.contains_key(v) && index@[v].contains(i) {
                let v = choose|v: Seq<char>|
                    variants@.contains(v) && #[trigger] index@.contains_key(v)
                        && index@[v].contains(i);
                assert(string_set(words@).contains(v));
                let j = choose|j: int| 0 <= j < words@.len() && #[trigger] words@[j]@ == v;
                assert(reached(index@, words@, vi as int, i));
            }
        }
    }
    hits
}

/// The words of `hits` that are within `bound` of `word`, each with its
/// distance, in the order of `hits`.
pub fn measure(dictionary: &Vec<String>, hits: &Vec<usize>, word: &str, bound: usize) -> (found:
    Vec<Suggestion>)
    requires
        distinct_strings(dictionary@),
        distinct_numbers(hits@),
        forall|t: int| 0 <= t < hits@.len() ==> #[trigger] hits@[t] < dictionary@.len(),
    ensures
        distinct_words(found@),
        forall|x: Ranked|
            ranked_views(found@).contains(x) <==> exists|t: int|
                0 <= t < hits@.len() && x.word == dictionary@[#[trigger] hits@[t] as int]@
                    && x.distance == levenshtein(encode_utf8(word@), encode_utf8(x.word))
                    && x.distance <= bound,
{
    let mut found: Vec<Suggestion> = Vec::new();
    let ghost mut origin: Seq<int> = Seq::empty();
    let mut k: usize = 0;
    while k < hits.len()
        invariant
            k <= hits.len(),
            distinct_strings(dictionary@),
            distinct_numbers(hits@),
            forall|t: int| 0 <= t < hits@.len() ==> #[trigger] hits@[t] < dictionary@.len(),
            origin.len() == found@.len(),
            forall|p: int|
                0 <= p < found@.len() ==> 0 <= #[trigger] origin[p] < k && found@[p].word@
                    == dictionary@[hits@[origin[p]] as int]@ && found@[p].distance as nat
                    == levenshtein(encode_utf8(word@), encode_utf8(found@[p].word@))
                    && found@[p].distance <= bound,
            forall|p: int, r: int| 0 <= p < r < found@.len() ==> origin[p] < origin[r],
            forall|t: int|
                0 <= t < k && levenshtein(
                    encode_utf8(word@),
                    encode_utf8(dictionary@[#[trigger] hits@[t] as int]@),
                ) <= bound ==> exists|p: int| 0 <= p < found@.len() && #[trigger] origin[p] == t,
        decreases hits.len() - k,
    {
        let number: usize = hits[k];
        let entry: &String = &dictionary[number];
        let distance: usize = bounded_levenshtein(word, entry.as_str(), bound);
        if distance <= bound {
            let ghost before = found@;
            let ghost origin_before = origin;
            let suggestion = Suggestion { word: entry.clone(), distance };
            assert(suggestion.word@ == dictionary@[hits@[k as int] as int]@);
            assert(distance as nat == levenshtein(encode_utf8(word@), encode_utf8(entry@)));
            found.push(suggestion);
            proof {
                origin = origin.push(k as int);
                assert forall|p: int| 0 <= p < found@.len() implies 0 <= #[trigger] origin[p] < k
                    + 1 && found@[p].word@ == dictionary@[hits@[origin[p]] as int]@
                    && found@[p].distance as nat == levenshtein(
                    encode_utf8(word@),
                    encode_utf8(found@[p].word@),
                ) && found@[p].distance <= bound by {
                    if p < before.len() {
                        assert(found@[p] == before[p]);
                        assert(origin[p] == origin_before[p]);
                    }
                }
                assert forall|p: int, r: int| 0 <= p < r < found@.len() implies origin[p]
                    < origin[r] by {
                    if r < before.len() {
                        assert(origin[p] == origin_before[p] && origin[r] == origin_before[r]);
                    } else {
                        assert(origin_before[p] < k);
                    }
                }
                assert forall|t: int|
                    0 <= t < k + 1 && levenshtein(
                        encode_utf8(word@),
                        encode_utf8(dictionary@[#[trigger] hits@[t] as int]@),
                    ) <= bound implies exists|p: int|
                    0 <= p < found@.len() && #[trigger] origin[p] == t by {
                    if t < k {
                        let p = choose|p: int|
                            0 <= p < before.len() && #[trigger] origin_before[p] == t;
                        assert(origin[p] == t);
                    } else {
                        assert(origin[before.len() as int] == t);
                    }
                }
            }
        }
        k += 1;
    }
    proof {
        assert forall|i: int, j: int|
            0 <= i < found@.len() && 0 <= j < found@.len() && i != j implies (
        #[trigger] found@[i]).word@ != (#[trigger] found@[j]).word@ by {
            assert(origin[i] != origin[j]);
            assert(hits@[origin[i]] != hits@[origin[j]]);
        }
        assert forall|x: Ranked|
            ranked_views(found@).contains(x) <==> exists|t: int|
                0 <= t < hits@.len() && x.word == dictionary@[#[trigger] hits@[t] as int]@
                    && x.distance == levenshtein(encode_utf8(word@), encode_utf8(x.word))
                    && x.distance <= bound by {
            if ranked_views(found@).contains(x) {
                let p = choose|p: int|
                    0 <= p < ranked_views(found@).len() && ranked_views(found@)[p] == x;
                let t = origin[p];
                assert(x.word == dictionary@[hits@[t] as int]@);
            }
            if exists|t: int|
                0 <= t < hits@.len() && x.word == dictionary@[#[trigger] hits@[t] as int]@
                    && x.distance == levenshtein(encode_utf8(word@), encode_utf8(x.word))
                    && x.distance <= bound {
                let t = choose|t: int|
                    0 <= t < hits@.len() && x.word == dictionary@[#[trigger] hits@[t] as int]@
                        && x.distance == levenshtein(encode_utf8(word@), encode_utf8(x.word))
                        && x.distance <= bound;
                let p = choose|p: int| 0 <= p < found@.len() && #[trigger] origin[p] == t;
                assert(ranked_views(found@)[p] == x);
            }
        }
    }
    found
}

/// The world that a word list, a bound and an index make.
pub open spec fn world_of(dictionary: Seq<String>, bound: usize, index: DeletionIndex) -> World {
    World { words: crate::text::string_views(dictionary), bound: bound as nat, index: index@ }
}

/// All suggestions for `word`, best first: the words that the index lists
/// under one of the query's deletion variants, as far as they are within
/// `bound` of it.
pub fn full_ranking(dictionary: &Vec<String>, index: &DeletionIndex, bound: usize, word: &str) -> (all:
    Vec<Suggestion>)
    requires
        index.wf(),
        world_of(dictionary@, bound, *index).wf(),
    ensures
        ranked_views(all@) == world_of(dictionary@, bound, *index).ranking(word@),
        is_ranking_of(ranked_views(all@), world_of(dictionary@, bound, *index).candidates(word@)),
{
    let ghost world = world_of(dictionary@, bound, *index);
    let variants = deletion_variants(word, bound, false);
    let hits = gather_hits(index, &variants);
    proof {
        assert forall|t: int| 0 <= t < hits@.len() implies #[trigger] hits@[t]
            < dictionary@.len() by {
            assert(hits@.contains(hits@[t]));
            let v = choose|v: Seq<char>|
                variants@.contains(v) && #[trigger] index@.contains_key(v) && index@[v].contains(
                    hits@[t],
                );
            let u = choose|u: int| 0 <= u < index@[v].len() && index@[v][u] == hits@[t];
            assert(world.index[v][u] < world.words.len());
        }
        assert(distinct_strings(dictionary@)) by {
            assert forall|i: int, j: int|
                0 <= i < dictionary@.len() && 0 <= j < dictionary@.len() && i
                    != j implies #[trigger] dictionary@[i]@ != #[trigger] dictionary@[j]@ by {
                assert(world.words[i] != world.words[j]);
            }
        }
    }
    let found = measure(dictionary, &hits, word, bound);
    let all = rank(found);
    proof {
        let wanted = world.candidates(word@);
        assert forall|x: Ranked| ranked_views(found@).to_set().contains(x) <==> wanted.contains(
            x,
        ) by {
            if ranked_views(found@).contains(x) {
                let t = choose|t: int|
                    0 <= t < hits@.len() && x.word == dictionary@[#[trigger] hits@[t] as int]@
                        && x.distance == levenshtein(encode_utf8(word@), encode_utf8(x.word))
                        && x.distance <= bound;
                let i = hits@[t];
                assert(hits@.contains(i));
                let v = choose|v: Seq<char>|
                    variants@.contains(v) && #[trigger] index@.contains_key(v)
                        && index@[v].contains(i);
                assert(world.lists(v, i));
                assert(world.hit(word@, i));
                assert(world.candidate(word@, x));
            }
            if wanted.contains(x) {
                let i = choose|i: usize| #[trigger]
                    world.hit(word@, i) && i < world.words.len() && x.word
                        == world.words[i as int] && x.distance == levenshtein(
                        encode_utf8(word@),
                        encode_utf8(x.word),
                    ) && x.distance <= world.bound;
                let v = choose|v: Seq<char>|
                    variant_set(word@, world.bound, false).contains(v) && #[trigger] world.lists(
                        v,
                        i,
                    );
                assert(index@.contains_key(v));
                assert(hits@.contains(i));
                let t = choose|t: int| 0 <= t < hits@.len() && hits@[t] == i;
                assert(x.word == dictionary@[hits@[t] as int]@);
            }
        }
        assert(ranked_views(found@).to_set() =~= wanted);
        lemma_ranking_is(ranked_views(all@), wanted);
    }
    all
}

/// Two worlds with the same words and the same bound, whose indexes list
/// the same words under the same variants, rank every query alike, whatever
/// the order within their buckets.
pub proof fn lemma_worlds_agree(a: World, b: World, q: Seq<char>)
    requires
        a.words == b.words,
        a.bound == b.bound,
        forall|v: Seq<char>, i: usize| a.lists(v, i) == b.lists(v, i),
    ensures
        a.candidates(q) == b.candidates(q),
        a.ranking(q) == b.ranking(q),
{
    assert forall|i: usize| a.hit(q, i) == b.hit(q, i) by {
        if a.hit(q, i) {
            let v = choose|v: Seq<char>|
                variant_set(q, a.bound, false).contains(v) && #[trigger] a.lists(v, i);
            assert(b.lists(v, i));
        }
        if b.hit(q, i) {
            let v = choose|v: Seq<char>|
                variant_set(q, b.bound, false).contains(v) && #[trigger] b.lists(v, i);
            assert(a.lists(v, i));
        }
    }
    assert forall|x: Ranked| a.candidate(q, x) == b.candidate(q, x) by {
        if a.candidate(q, x) {
            let i = choose|i: usize| #[trigger]
                a.hit(q, i) && i < a.words.len() && x.word == a.words[i as int] && x.distance
                    == levenshtein(encode_utf8(q), encode_utf8(x.word)) && x.distance <= a.bound;
            assert(b.hit(q, i));
        }
        if b.candidate(q, x) {
            let i = choose|i: usize| #[trigger]
                b.hit(q, i) && i < b.words.len() && x.word == b.words[i as int] && x.distance
                    == levenshtein(encode_utf8(q), encode_utf8(x.word)) && x.distance <= b.bound;
            assert(a.hit(q, i));
        }
    }
    assert(a.candidates(q) =~= b.candidates(q));
}

/// Two consistent worlds with the same words and the same bound rank every
/// query alike.
pub proof fn lemma_consistent_worlds_agree(a: World, b: World, q: Seq<char>)
    requires
        a.words == b.words,
        a.bound == b.bound,
        a.consistent(),
        b.consistent(),
    ensures
        a.ranking(q) == b.ranking(q),
{
    lemma_worlds_agree(a, b, q);
}

/// Every suggestion is a word of the vocabulary with its true distance from
/// the query, which is within the bound; and no word is suggested twice.
pub proof fn lemma_ranking_is_sound(world: World, q: Seq<char>, list: Seq<Ranked>, p: int)
    requires
        is_ranking_of(list, world.candidates(q)),
        0 <= p < list.len(),
    ensures
        world.words.contains(list[p].word),
        list[p].distance == levenshtein(encode_utf8(q), encode_utf8(list[p].word)),
        list[p].distance <= world.bound,
        forall|r: int| 0 <= r < list.len() && r != p ==> list[r] != list[p],
{
    assert(list.contains(list[p]));
    assert(world.candidate(q, list[p]));
    let i = choose|i: usize| #[trigger]
        world.hit(q, i) && i < world.words.len() && list[p].word == world.words[i as int]
            && list[p].distance == levenshtein(encode_utf8(q), encode_utf8(list[p].word))
            && list[p].distance <= world.bound;
    assert(world.words[i as int] == list[p].word);
    assert forall|r: int| 0 <= r < list.len() && r != p implies list[r] != list[p] by {
        crate::ranking::lemma_ranks_asymmetric(list[p], list[p]);
        if r < p {
            assert(crate::ranking::ranks_before(list[r], list[p]));
        } else {
            assert(crate::ranking::ranks_before(list[p], list[r]));
        }
    }
}

/// With the bound zero no query has a suggestion.
pub proof fn lemma_zero_bound_finds_nothing(world: World, q: Seq<char>)
    requires
        world.bound == 0,
    ensures
        world.candidates(q) == Set::<Ranked>::empty(),
        world.ranking(q) == Seq::<Ranked>::empty(),
{
    crate::variants::lemma_variant_set_without_deletions(q, false);
    assert forall|x: Ranked| !world.candidate(q, x) by {
        if world.candidate(q, x) {
            let i = choose|i: usize| #[trigger]
                world.hit(q, i) && i < world.words.len() && x.word == world.words[i as int]
                    && x.distance == levenshtein(encode_utf8(q), encode_utf8(x.word))
                    && x.distance <= world.bound;
            let v = choose|v: Seq<char>|
                variant_set(q, world.bound, false).contains(v) && #[trigger] world.lists(v, i);
            assert(false);
        }
    }
    assert(world.candidates(q) =~= Set::<Ranked>::empty());
    lemma_ranking_is(Seq::<Ranked>::empty(), world.candidates(q));
}

} // verus!
