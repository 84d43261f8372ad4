//! The result cache: for a query word, the best suggestions that were last
//! computed for it.
//!
//! The cache itself is a `cachers::CacheThrough`, shared between threads and
//! changed through a shared reference, so nothing can be said of what a
//! lookup finds in it. What can be said is said of the entries: each one
//! carries the world against which it was computed, and is a prefix of that
//! world's ranking for its word. A corrector asks an entry for its answer
//! only if the entry's world is the corrector's own.

use crate::lookup::World;
use crate::ranking::{copy_top, ranked_views, top, Suggestion};
use crate::text::same_text;
use std::collections::hash_map::DefaultHasher;
use std::hash::Hasher;
use std::sync::Arc;
use vstd::prelude::*;
use vstd::std_specs::hash::DefaultHasherAdditionalSpecFns;
use vstd::string::StringSliceAdditionalSpecFns;

verus! {

#[verifier::external_type_specification]
#[verifier::external_body]
#[verifier::reject_recursive_types(K)]
#[verifier::reject_recursive_types(V)]
pub struct ExCacheThrough<K, V>(cachers::CacheThrough<K, V>);

/// How many entries a corrector's cache holds before it evicts.
pub const CACHE_CAPACITY: usize = 10000;

/// A cached answer: the query word, its best suggestions, and the world
/// against which they were computed.
pub struct CachedRanking {
    word: String,
    list: Vec<Suggestion>,
    stamp: Arc<Ghost<World>>,
}

impl CachedRanking {
    #[verifier::type_invariant]
    spec fn holds_a_ranking(self) -> bool {
        ranked_views(self.list@) == top(self.stamp@.ranking(self.word@), self.list@.len())
    }

    /// The query word.
    pub closed spec fn query(&self) -> Seq<char> {
        self.word@
    }

    /// How many suggestions the entry holds.
    pub closed spec fn count(&self) -> nat {
        self.list@.len()
    }

    /// An entry for `word` that holds `list`, which must be the best
    /// suggestions for `word` in the world of `stamp`.
    pub(crate) fn new(word: String, list: Vec<Suggestion>, stamp: &Arc<Ghost<World>>) -> (entry:
        CachedRanking)
        requires
            ranked_views(list@) == top(stamp@.ranking(word@), list@.len()),
        ensures
            entry.query() == word@,
            entry.count() == list@.len(),
    {
        CachedRanking { word, list, stamp: share(stamp) }
    }

    /// A copy of the entry.
    pub fn duplicate(&self) -> (copy: CachedRanking)
        ensures
            copy.query() == self.query(),
            copy.count() == self.count(),
    {
        proof {
            use_type_invariant(self);
        }
        let list = copy_top(&self.list, self.list.len());
        proof {
            assert(ranked_views(list@).len() == list@.len());
            assert(ranked_views(self.list@).len() == self.list@.len());
            assert(ranked_views(list@) =~= ranked_views(self.list@));
        }
        CachedRanking { word: self.word.clone(), list, stamp: share(&self.stamp) }
    }

    /// The best `n` suggestions for `word` in the world in which the entry
    /// was computed, if the entry can give them: it must be an entry for
    /// `word` and hold more than `n` suggestions.
    pub fn serve(&self, word: &str, n: usize) -> (served: Option<Vec<Suggestion>>)
        ensures
            served is Some <==> self.query() == word@ && self.count() > n,
            served matches Some(list) ==> ranked_views(list@) == top(
                self.world().ranking(word@),
                n as nat,
            ),
    {
        proof {
            use_type_invariant(self);
        }
        if self.list.len() > n && same_text(self.word.as_str(), word) {
            let list = copy_top(&self.list, n);
            proof {
                crate::ranking::lemma_top_of_top(
                    self.world().ranking(word@),
                    self.list@.len() as nat,
                    n as nat,
                );
            }
            Some(list)
        } else {
            None
        }
    }

    /// The world in which the entry was computed.
    pub closed spec fn world(&self) -> World {
        self.stamp@
    }
}

/// Calls `Arc::ptr_eq` on the stamp of `entry` and on `stamp`. Two handles
/// that point to the same allocation hold the same value, so that the entry
/// was computed in the world of `stamp`; of two that do not, nothing is
/// claimed.
#[verifier::external_body]
pub(crate) fn same_allocation(entry: &CachedRanking, stamp: &Arc<Ghost<World>>) -> (same: bool)
    ensures
        same ==> entry.world() == stamp@,
{
    Arc::ptr_eq(&entry.stamp, stamp)
}

/// Calls `Arc::clone`: another handle to the same allocation, and so to the
/// same value.
#[verifier::external_body]
fn share(stamp: &Arc<Ghost<World>>) -> (shared: Arc<Ghost<World>>)
    ensures
        shared == stamp,
{
    Arc::clone(stamp)
}

/// Calls `cachers::CacheThrough::new`, which makes an empty cache for up to
/// `capacity` entries. A capacity of zero is left out: the clock that picks
/// what to evict divides by it.
#[verifier::external_body]
pub(crate) fn new_cache(capacity: usize) -> (cache: cachers::CacheThrough<u64, CachedRanking>)
    requires
        capacity > 0,
{
    cachers::CacheThrough::new(capacity)
}

/// Calls `cachers::CacheThrough::get` with a function that populates
/// nothing: what the cache holds under `key`, if anything. The cache is
/// shared and evicts as it sees fit, so nothing is claimed of the result.
#[verifier::external_body]
pub(crate) fn cache_lookup(cache: &cachers::CacheThrough<u64, CachedRanking>, key: u64) -> (found: Option<
    Arc<CachedRanking>,
>) {
    cache.get(key, |_| None)
}

/// Calls `cachers::CacheThrough::update` with a function that puts a copy of
/// `entry` under `key`, whatever was there.
#[verifier::external_body]
pub(crate) fn cache_store(cache: &cachers::CacheThrough<u64, CachedRanking>, key: u64, entry: CachedRanking) {
    cache.update(key, |_, _| Some(entry.duplicate()));
}

/// The key under which the cache keeps the entry for `word`.
pub open spec fn key_of(word: Seq<char>) -> u64 {
    DefaultHasher::spec_finish(seq![vstd::utf8::encode_utf8(word)])
}

/// The key under which the cache keeps the entry for `word`: a hash of the
/// word's bytes.
pub fn cache_key(word: &str) -> (key: u64)
    ensures
        key == key_of(word@),
{
    let mut hasher = DefaultHasher::new();
    hasher.write(word.as_bytes());
    assert(hasher@ =~= seq![word.spec_bytes()]);
    hasher.finish()
}

} // verus!
