//! The corrector: a vocabulary, its deletion index, the bound on the
//! distance, and a cache of answers.

use crate::cache::{
    cache_key, cache_lookup, cache_store, new_cache, same_allocation, CachedRanking,
    CACHE_CAPACITY,
};
use crate::index::DeletionIndex;
use crate::lookup::{full_ranking, world_of, World};
use crate::ranking::{copy_top, lemma_top_of_top, ranked_views, top, Ranked, Suggestion};
use crate::state::{export_parts, import_parts, CorrectorState, ImportError};
use crate::text::{
    distinct_strings, lemma_string_set_empty, lemma_string_set_push, lemma_string_set_views,
    string_set, string_views,
};
use crate::variants::{deletion_variants, variant_set};
use crate::wordlist::{listed_words, words_of_list};
use rayon::iter::IntoParallelRefIterator;
use rayon::iter::ParallelIterator;
use std::sync::Arc;
use vstd::hash_set::StringHashSet;
use vstd::prelude::*;

verus! {

/// The answer to a query: the word is known, or these are its suggestions.
#[derive(Debug, Clone)]
pub enum SuggestedCorrection {
    NoSuggestions,
    Suggestions(Vec<Suggestion>),
}

/// What an answer says.
pub enum Outcome {
    NoSuggestions,
    Suggestions(Seq<Ranked>),
}

impl View for SuggestedCorrection {
    type V = Outcome;

    open spec fn view(&self) -> Outcome {
        match self {
            SuggestedCorrection::NoSuggestions => Outcome::NoSuggestions,
            SuggestedCorrection::Suggestions(list) => Outcome::Suggestions(ranked_views(list@)),
        }
    }
}

/// The words of a list without those that stood in it before.
pub open spec fn first_occurrences(words: Seq<Seq<char>>) -> Seq<Seq<char>>
    decreases words.len(),
{
    if words.len() == 0 {
        Seq::empty()
    } else {
        let earlier = first_occurrences(words.drop_last());
        if earlier.contains(words.last()) {
            earlier
        } else {
            earlier.push(words.last())
        }
    }
}

/// The index after word number `number` was entered under each of
/// `variants`: it is appended to the bucket of each, and a variant that the
/// index did not have gets a bucket of its own.
pub open spec fn index_with(
    index: Map<Seq<char>, Seq<usize>>,
    variants: Set<Seq<char>>,
    number: usize,
) -> Map<Seq<char>, Seq<usize>> {
    Map::new(
        |v: Seq<char>| index.contains_key(v) || variants.contains(v),
        |v: Seq<char>|
            if variants.contains(v) {
                (if index.contains_key(v) {
                    index[v]
                } else {
                    Seq::<usize>::empty()
                }).push(number)
            } else {
                index[v]
            },
    )
}

/// The world after `word` was added to it: unchanged if it knew the word,
/// and else with the word behind its words and under each of the word's
/// deletion variants in its index.
pub open spec fn world_with(world: World, word: Seq<char>) -> World {
    if world.words.contains(word) {
        world
    } else {
        World {
            words: world.words.push(word),
            bound: world.bound,
            index: index_with(
                world.index,
                variant_set(word, world.bound, true),
                world.words.len() as usize,
            ),
        }
    }
}

/// The world that comes of adding the words of a list, one after the other,
/// to a world without words.
pub open spec fn world_from(words: Seq<Seq<char>>, bound: nat) -> World
    decreases words.len(),
{
    if words.len() == 0 {
        World { words: Seq::empty(), bound, index: Map::empty() }
    } else {
        world_with(world_from(words.drop_last(), bound), words.last())
    }
}

/// The words of a world that was made from a list are the words of the
/// list, each once, in the order in which they first stand in it.
pub proof fn lemma_world_from_words(words: Seq<Seq<char>>, bound: nat)
    ensures
        world_from(words, bound).words == first_occurrences(words),
        world_from(words, bound).bound == bound,
    decreases words.len(),
{
    if words.len() > 0 {
        lemma_world_from_words(words.drop_last(), bound);
    }
}

/// The first `upto` strings of `items`, as a set.
pub open spec fn among(items: Seq<String>, upto: int) -> Set<Seq<char>> {
    Set::new(
        |v: Seq<char>| exists|j: int| 0 <= j < upto && j < items.len() && #[trigger] items[j]@ == v,
    )
}

/// A list with one number more holds what it held, and that number.
proof fn lemma_push_contains(s: Seq<usize>, x: usize, i: usize)
    ensures
        s.push(x).contains(i) <==> s.contains(i) || i == x,
{
    if s.push(x).contains(i) {
        let p = choose|p: int| 0 <= p < s.push(x).len() && s.push(x)[p] == i;
        if p < s.len() {
            assert(s[p] == i);
        }
    }
    if s.contains(i) {
        let p = choose|p: int| 0 <= p < s.len() && s[p] == i;
        assert(s.push(x)[p] == i);
    }
    if i == x {
        assert(s.push(x)[s.len() as int] == i);
    }
}

/// Adding a word keeps a world well formed, and consistent if it was.
pub proof fn lemma_world_with(world: World, word: Seq<char>)
    requires
        world.wf(),
        world.words.len() < usize::MAX,
    ensures
        world_with(world, word).wf(),
        world_with(world, word).bound == world.bound,
        world_with(world, word).words.contains(word),
        world.consistent() ==> world_with(world, word).consistent(),
{
    let after = world_with(world, word);
    if world.words.contains(word) {
    } else {
        let number = world.words.len() as usize;
        let variants = variant_set(word, world.bound, true);
        assert(after.words[world.words.len() as int] == word);
        assert forall|i: int, j: int|
            0 <= i < after.words.len() && 0 <= j < after.words.len() && i
                != j implies #[trigger] after.words[i] != #[trigger] after.words[j] by {
            if i < world.words.len() {
                assert(world.words.contains(world.words[i]));
            }
            if j < world.words.len() {
                assert(world.words.contains(world.words[j]));
            }
        }
        assert forall|v: Seq<char>, t: int|
            after.index.contains_key(v) && 0 <= t < after.index[v].len()
                implies #[trigger] after.index[v][t] < after.words.len() by {
            if variants.contains(v) {
                if world.index.contains_key(v) && t < world.index[v].len() {
                    assert(world.index[v][t] < world.words.len());
                }
            } else {
                assert(world.index[v][t] < world.words.len());
            }
        }
        if world.consistent() {
            assert forall|v: Seq<char>, i: usize| #[trigger]
                after.lists(v, i) <==> i < after.words.len() && variant_set(
                    after.words[i as int],
                    after.bound,
                    true,
                ).contains(v) by {
                lemma_lists_with(world, word, v, i);
                assert(world.lists(v, i) <==> i < world.words.len() && variant_set(
                    world.words[i as int],
                    world.bound,
                    true,
                ).contains(v));
            }
        }
    }
}

/// What the index lists after a new word was added: what it listed, and the
/// new word under each of its variants.
pub proof fn lemma_lists_with(world: World, word: Seq<char>, v: Seq<char>, i: usize)
    requires
        world.wf(),
        world.words.len() < usize::MAX,
        !world.words.contains(word),
    ensures
        world_with(world, word).lists(v, i) <==> world.lists(v, i) || (i == world.words.len()
            && variant_set(word, world.bound, true).contains(v)),
{
    let after = world_with(world, word);
    let number = world.words.len() as usize;
    let variants = variant_set(word, world.bound, true);
    if variants.contains(v) {
        let bucket = if world.index.contains_key(v) {
            world.index[v]
        } else {
            Seq::<usize>::empty()
        };
        lemma_push_contains(bucket, number, i);
        assert(after.index[v] == bucket.push(number));
    }
    if world.lists(v, i) && i == number {
        let t = choose|t: int| 0 <= t < world.index[v].len() && world.index[v][t] == i;
        assert(world.index[v][t] < world.words.len());
    }
}

/// Enters `word` into a word list, the set of its words and the index,
/// unless the list has it already.
fn learn(
    dictionary: &mut Vec<String>,
    known: &mut StringHashSet,
    index: &mut DeletionIndex,
    word: &str,
    bound: usize,
)
    requires
        old(index).wf(),
        world_of(old(dictionary)@, bound, *old(index)).wf(),
        old(known)@ == string_set(old(dictionary)@),
        old(dictionary)@.len() < usize::MAX,
    ensures
        final(index).wf(),
        final(dictionary)@.len() <= old(dictionary)@.len() + 1,
        final(known)@ == string_set(final(dictionary)@),
        world_of(final(dictionary)@, bound, *final(index)) == world_with(
            world_of(old(dictionary)@, bound, *old(index)),
            word@,
        ),
        world_of(final(dictionary)@, bound, *final(index)).wf(),
{
    let ghost before = world_of(dictionary@, bound, *index);
    let ghost old_words = dictionary@;
    proof {
        lemma_string_set_views(dictionary@, word@);
    }
    if known.contains(word) {
        return;
    }
    let number: usize = dictionary.len();
    let entry = word.to_owned();
    let member = word.to_owned();
    proof {
        lemma_string_set_push(dictionary@, entry);
    }
    dictionary.push(entry);
    known.insert(member);
    let variants = deletion_variants(word, bound, true);
    let listed = variants.words();
    let ghost old_index = index@;
    let mut t: usize = 0;
    proof {
        assert(among(listed@, 0) =~= Set::<Seq<char>>::empty());
        assert(index@ =~= index_with(old_index, among(listed@, 0), number));
    }
    while t < listed.len()
        invariant
            t <= listed.len(),
            index.wf(),
            distinct_strings(listed@),
            index@ == index_with(old_index, among(listed@, t as int), number),
        decreases listed.len() - t,
    {
        let ghost key = listed@[t as int]@;
        index.add(listed[t].as_str(), number);
        proof {
            assert(!among(listed@, t as int).contains(key)) by {
                if among(listed@, t as int).contains(key) {
                    let j = choose|j: int|
                        0 <= j < t && j < listed@.len() && #[trigger] listed@[j]@ == key;
                    assert(listed@[j]@ != listed@[t as int]@);
                }
            }
            assert(among(listed@, t + 1) =~= among(listed@, t as int).insert(key)) by {
                assert forall|v: Seq<char>|
                    among(listed@, t + 1).contains(v) <==> among(listed@, t as int).insert(
                        key,
                    ).contains(v) by {
                    if among(listed@, t + 1).contains(v) {
                        let j = choose|j: int|
                            0 <= j < t + 1 && j < listed@.len() && #[trigger] listed@[j]@ == v;
                        if j < t {
                            assert(among(listed@, t as int).contains(v));
                        }
                    }
                    if among(listed@, t as int).contains(v) {
                        let j = choose|j: int|
                            0 <= j < t && j < listed@.len() && #[trigger] listed@[j]@ == v;
                        assert(among(listed@, t + 1).contains(v));
                    }
                    if v == key {
                        assert(listed@[t as int]@ == v);
                        assert(among(listed@, t + 1).contains(v));
                    }
                }
            }
            assert(index@ =~= index_with(old_index, among(listed@, t + 1), number));
        }
        t += 1;
    }
    proof {
        assert(among(listed@, listed@.len() as int) =~= string_set(listed@));
        assert(string_views(dictionary@) =~= string_views(old_words).push(word@));
        assert(!before.words.contains(word@));
        assert(world_of(dictionary@, bound, *index) == world_with(before, word@));
        lemma_world_with(before, word@);
    }
}

/// A spelling corrector over a vocabulary, with a bound on the edit
/// distance that is fixed when it is made.
pub struct SpellCorrector {
    dictionary: Vec<String>,
    lkp_dictionary: StringHashSet,
    dictionary_del_mappings: DeletionIndex,
    max_edit_distance: usize,
    cache: cachers::CacheThrough<u64, CachedRanking>,
    stamp: Arc<Ghost<World>>,
}

impl SpellCorrector {
    /// What the corrector knows.
    pub closed spec fn world(&self) -> World {
        world_of(self.dictionary@, self.max_edit_distance, self.dictionary_del_mappings)
    }

    /// The parts of the corrector fit together.
    pub closed spec fn wf(&self) -> bool {
        &&& self.dictionary_del_mappings.wf()
        &&& self.world().wf()
        &&& self.lkp_dictionary@ == string_set(self.dictionary@)
        &&& self.stamp@ == self.world()
    }

    /// The answer that the corrector owes for `q` and `n`: none if it knows
    /// the word, and else the best `n` of its ranking for the word.
    pub open spec fn correction(&self, q: Seq<char>, n: nat) -> Outcome {
        if self.world().words.contains(q) {
            Outcome::NoSuggestions
        } else {
            Outcome::Suggestions(top(self.world().ranking(q), n))
        }
    }

    /// A corrector for the words of `dictionary`, each once, with the bound
    /// `max_edit_distance`. With the bound zero the corrector tells known
    /// words from unknown ones and suggests nothing.
    pub fn new(dictionary: Vec<String>, max_edit_distance: usize) -> (corrector: SpellCorrector)
        ensures
            corrector.wf(),
            corrector.world() == world_from(string_views(dictionary@), max_edit_distance as nat),
            corrector.world().wf(),
            corrector.world().consistent(),
            corrector.world().bound == max_edit_distance,
            corrector.world().words == first_occurrences(string_views(dictionary@)),
    {
        let mut words: Vec<String> = Vec::new();
        let mut known = StringHashSet::new();
        let mut index = DeletionIndex::new();
        let ghost given = string_views(dictionary@);
        proof {
            lemma_string_set_empty(words@);
            assert(string_views(words@) =~= Seq::<Seq<char>>::empty());
            assert(world_of(words@, max_edit_distance, index) == world_from(
                given.take(0),
                max_edit_distance as nat,
            ));
        }
        let mut k: usize = 0;
        while k < dictionary.len()
            invariant
                k <= dictionary.len(),
                given == string_views(dictionary@),
                index.wf(),
                world_of(words@, max_edit_distance, index).wf(),
                world_of(words@, max_edit_distance, index).consistent(),
                known@ == string_set(words@),
                words@.len() <= k,
                world_of(words@, max_edit_distance, index) == world_from(
                    given.take(k as int),
                    max_edit_distance as nat,
                ),
            decreases dictionary.len() - k,
        {
            let ghost before = world_of(words@, max_edit_distance, index);
            proof {
                assert(given.take(k + 1).drop_last() =~= given.take(k as int));
                assert(given.take(k + 1).last() == dictionary@[k as int]@);
                lemma_world_with(before, dictionary@[k as int]@);
            }
            learn(&mut words, &mut known, &mut index, dictionary[k].as_str(), max_edit_distance);
            k += 1;
        }
        proof {
            assert(given.take(dictionary@.len() as int) =~= given);
            lemma_world_from_words(given, max_edit_distance as nat);
        }
        let ghost world = world_of(words@, max_edit_distance, index);
        SpellCorrector {
            dictionary: words,
            lkp_dictionary: known,
            dictionary_del_mappings: index,
            max_edit_distance,
            cache: new_cache(CACHE_CAPACITY),
            stamp: Arc::new(Ghost(world)),
        }
    }

    /// Adds `word` to the vocabulary, unless it is there, and forgets every
    /// cached answer. The vocabulary must have room for one more word.
    pub fn add_word_to_dictionary(&mut self, word: &str)
        requires
            old(self).wf(),
            old(self).world().words.len() < usize::MAX,
        ensures
            final(self).wf(),
            final(self).world() == world_with(old(self).world(), word@),
            final(self).world().wf(),
            final(self).world().words.contains(word@),
            old(self).world().consistent() ==> final(self).world().consistent(),
            forall|n: nat| final(self).correction(word@, n) == Outcome::NoSuggestions,
    {
        let ghost before = self.world();
        proof {
            lemma_world_with(before, word@);
        }
        learn(
            &mut self.dictionary,
            &mut self.lkp_dictionary,
            &mut self.dictionary_del_mappings,
            word,
            self.max_edit_distance,
        );
        self.cache = new_cache(CACHE_CAPACITY);
        let ghost world = self.world();
        self.stamp = Arc::new(Ghost(world));
    }

    /// The corrections for `word`: none if the vocabulary has the word, and
    /// else its best `n_suggestions` suggestions, best first. The answer
    /// does not depend on what the cache holds.
    pub fn suggest_single_word_corrections(&self, word: &str, n_suggestions: usize) -> (correction:
        SuggestedCorrection)
        requires
            self.wf(),
        ensures
            correction@ == self.correction(word@, n_suggestions as nat),
            correction is NoSuggestions <==> self.world().words.contains(word@),
    {
        proof {
            lemma_string_set_views(self.dictionary@, word@);
        }
        if self.lkp_dictionary.contains(word) {
            return SuggestedCorrection::NoSuggestions;
        }
        let key = cache_key(word);
        match cache_lookup(&self.cache, key) {
            Some(entry) => {
                if same_allocation(&entry, &self.stamp) {
                    match entry.serve(word, n_suggestions) {
                        Some(list) => {
                            return SuggestedCorrection::Suggestions(list);
                        },
                        None => {},
                    }
                }
            },
            None => {},
        }
        let mut suggestions = full_ranking(
            &self.dictionary,
            &self.dictionary_del_mappings,
            self.max_edit_distance,
            word,
        );
        let ghost all = ranked_views(suggestions@);
        suggestions.truncate(n_suggestions);
        let kept = copy_top(&suggestions, n_suggestions);
        proof {
            assert(ranked_views(suggestions@) =~= top(all, n_suggestions as nat));
            assert(ranked_views(kept@).len() == kept@.len());
            assert(ranked_views(kept@) =~= top(all, kept@.len()));
        }
        cache_store(&self.cache, key, CachedRanking::new(word.to_owned(), kept, &self.stamp));
        SuggestedCorrection::Suggestions(suggestions)
    }

    /// A corrector for the words of the word list `content`, one to a line,
    /// each taken in lower case.
    pub fn from_word_list(content: &str, max_edit_distance: usize) -> (corrector: SpellCorrector)
        ensures
            corrector.wf(),
            corrector.world() == world_from(listed_words(content@), max_edit_distance as nat),
            corrector.world().wf(),
            corrector.world().consistent(),
            corrector.world().bound == max_edit_distance,
            corrector.world().words == first_occurrences(listed_words(content@)),
    {
        SpellCorrector::new(words_of_list(content), max_edit_distance)
    }

    /// The corrector's state in plain values.
    pub fn export_state(&self) -> (state: CorrectorState)
        requires
            self.wf(),
        ensures
            state.world() == self.world(),
            state.error() is None,
    {
        export_parts(&self.dictionary, &self.dictionary_del_mappings, self.max_edit_distance)
    }

    /// The corrector that `state` describes, with an empty cache; or what is
    /// wrong with the state.
    pub fn from_state(state: CorrectorState) -> (imported: Result<SpellCorrector, ImportError>)
        ensures
            match imported {
                Ok(corrector) => {
                    &&& state.error() is None
                    &&& corrector.wf()
                    &&& corrector.world() == state.world()
                    &&& corrector.world().wf()
                },
                Err(e) => state.error() == Some(e),
            },
    {
        match import_parts(state) {
            Ok((dictionary, known, index, bound)) => {
                let ghost world = world_of(dictionary@, bound, index);
                Ok(
                    SpellCorrector {
                        dictionary,
                        lkp_dictionary: known,
                        dictionary_del_mappings: index,
                        max_edit_distance: bound,
                        cache: new_cache(CACHE_CAPACITY),
                        stamp: Arc::new(Ghost(world)),
                    },
                )
            },
            Err(e) => Err(e),
        }
    }

    /// How many words the vocabulary has.
    pub fn word_count(&self) -> (count: usize)
        ensures
            count == self.world().words.len(),
    {
        self.dictionary.len()
    }

    /// The bound on the edit distance.
    pub fn max_edit_distance(&self) -> (bound: usize)
        ensures
            bound == self.world().bound,
    {
        self.max_edit_distance
    }

    /// Whether the vocabulary has `word`.
    pub fn contains(&self, word: &str) -> (known: bool)
        requires
            self.wf(),
        ensures
            known == self.world().words.contains(word@),
    {
        proof {
            lemma_string_set_views(self.dictionary@, word@);
        }
        self.lkp_dictionary.contains(word)
    }

    /// The corrections for each of `words`, in the order of `words`.
    pub fn suggest_word_corrections(&self, words: &Vec<String>, n_suggestions: usize) -> (corrections:
        Vec<SuggestedCorrection>)
        requires
            self.wf(),
        ensures
            corrections@.len() == words@.len(),
            forall|i: int|
                0 <= i < words@.len() ==> (#[trigger] corrections@[i])@ == self.correction(
                    words@[i]@,
                    n_suggestions as nat,
                ),
    {
        correct_in_parallel(self, words, n_suggestions)
    }
}

/// Maps `SpellCorrector::suggest_single_word_corrections` over `words` with
/// rayon's `par_iter`, `map` and `collect`. Collected into a vector, the
/// results of an indexed parallel iterator stand in the order of the items
/// they were computed from; each is what the single-word function returns.
#[verifier::external_body]
fn correct_in_parallel(corrector: &SpellCorrector, words: &Vec<String>, n_suggestions: usize) -> (corrections:
    Vec<SuggestedCorrection>)
    requires
        corrector.wf(),
    ensures
        corrections@.len() == words@.len(),
        forall|i: int|
            0 <= i < words@.len() ==> (#[trigger] corrections@[i])@ == corrector.correction(
                words@[i]@,
                n_suggestions as nat,
            ),
{
    words.par_iter().map(|word| corrector.suggest_single_word_corrections(word, n_suggestions)).collect()
}

/// A word of the vocabulary gets no suggestions, whatever their number.
pub proof fn lemma_known_word_gets_no_suggestions(corrector: &SpellCorrector, q: Seq<char>, n: nat)
    requires
        corrector.world().words.contains(q),
    ensures
        corrector.correction(q, n) == Outcome::NoSuggestions,
{
}

/// Two answers to the same query with the same number of suggestions say
/// the same, whatever the cache held when each was given.
pub proof fn lemma_answers_agree(
    corrector: &SpellCorrector,
    q: Seq<char>,
    n: nat,
    first: SuggestedCorrection,
    second: SuggestedCorrection,
)
    requires
        first@ == corrector.correction(q, n),
        second@ == corrector.correction(q, n),
    ensures
        first@ == second@,
{
}

/// Correctors that know the same world give the same answers.
pub proof fn lemma_same_world_same_answers(
    a: &SpellCorrector,
    b: &SpellCorrector,
    q: Seq<char>,
    n: nat,
)
    requires
        a.world() == b.world(),
    ensures
        a.correction(q, n) == b.correction(q, n),
{
}

/// Consistent correctors with the same words and the same bound give the
/// same answers, whatever the order within the buckets of their indexes.
pub proof fn lemma_consistent_correctors_agree(
    a: &SpellCorrector,
    b: &SpellCorrector,
    q: Seq<char>,
    n: nat,
)
    requires
        a.world().words == b.world().words,
        a.world().bound == b.world().bound,
        a.world().consistent(),
        b.world().consistent(),
    ensures
        a.correction(q, n) == b.correction(q, n),
{
    crate::lookup::lemma_consistent_worlds_agree(a.world(), b.world(), q);
}

/// What a cached answer can and cannot do for later queries. An answer to a
/// query for `narrow` suggestions holds at most `narrow` of them, so that it
/// is never served to a query for more. The answer to a query for `wide`
/// suggestions holds `wide` of them, or all there are; and its best `narrow`
/// are the answer to a query for `narrow`.
pub proof fn lemma_wider_answers_hold_narrower(ranking: Seq<Ranked>, narrow: nat, wide: nat)
    requires
        narrow <= wide,
    ensures
        top(ranking, narrow).len() <= narrow,
        top(ranking, wide).len() == if wide <= ranking.len() { wide } else { ranking.len() },
        top(top(ranking, wide), narrow) == top(ranking, narrow),
{
    lemma_top_of_top(ranking, wide, narrow);
}

} // verus!
