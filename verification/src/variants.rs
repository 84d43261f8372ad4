//! Deletion variants of a word: the strings that are left when up to a given
//! number of characters are taken out of it.

use crate::text::{
    collect_chars, distinct_strings, lemma_string_set_empty, lemma_string_set_push, string_set,
    string_without,
};
use vstd::hash_set::StringHashSet;
use vstd::prelude::*;

verus! {

/// `v` is `u` with one character taken out.
pub open spec fn one_deletion(u: Seq<char>, v: Seq<char>) -> bool {
    exists|i: int| 0 <= i < u.len() && v == #[trigger] u.remove(i)
}

/// `v` is what is left of `w` after exactly `d` characters were taken out,
/// one at a time.
pub open spec fn deletes_to(w: Seq<char>, v: Seq<char>, d: nat) -> bool
    decreases d,
{
    if d == 0 {
        v == w
    } else {
        exists|u: Seq<char>| deletes_to(w, u, (d - 1) as nat) && #[trigger] one_deletion(u, v)
    }
}

/// `v` is reached from `w` by some number of deletions from `lo` to `hi`.
pub open spec fn deletes_within(w: Seq<char>, v: Seq<char>, lo: nat, hi: nat) -> bool {
    exists|d: nat| lo <= d <= hi && #[trigger] deletes_to(w, v, d)
}

/// The least number of deletions that counts: none where the word itself is
/// kept, one where it is not.
pub open spec fn least_deletions(keep_original: bool) -> nat {
    if keep_original { 0 } else { 1 }
}

/// The deletion variants of `w`: every string reached by one to `max_del`
/// deletions, and `w` itself where `keep_original` is set.
pub open spec fn variant_set(w: Seq<char>, max_del: nat, keep_original: bool) -> Set<Seq<char>> {
    Set::new(|v: Seq<char>| deletes_within(w, v, least_deletions(keep_original), max_del))
}

/// The strings reached from `w` by exactly `d` deletions.
pub open spec fn level(w: Seq<char>, d: nat) -> Set<Seq<char>> {
    Set::new(|v: Seq<char>| deletes_to(w, v, d))
}

/// The strings reached from `w` by `lo` to `hi` deletions.
pub open spec fn span(w: Seq<char>, lo: nat, hi: nat) -> Set<Seq<char>> {
    Set::new(|v: Seq<char>| deletes_within(w, v, lo, hi))
}

/// The strings that come of `u` by taking out one of its first `upto`
/// characters.
pub open spec fn expansions(u: Seq<char>, upto: int) -> Set<Seq<char>> {
    Set::new(|v: Seq<char>| exists|j: int| 0 <= j < upto && j < u.len() && v == #[trigger] u.remove(j))
}

/// The strings that come of one of the first `count` strings of `items` by
/// one deletion.
pub open spec fn expand_all(items: Seq<String>, count: int) -> Set<Seq<char>> {
    Set::new(
        |v: Seq<char>|
            exists|t: int| 0 <= t < count && t < items.len() && one_deletion(#[trigger] items[t]@, v),
    )
}

/// Each deletion shortens the string by one character.
pub proof fn lemma_deletion_length(w: Seq<char>, v: Seq<char>, d: nat)
    requires
        deletes_to(w, v, d),
    ensures
        v.len() + d == w.len(),
    decreases d,
{
    if d > 0 {
        let u = choose|u: Seq<char>| deletes_to(w, u, (d - 1) as nat) && #[trigger] one_deletion(u, v);
        lemma_deletion_length(w, u, (d - 1) as nat);
        let i = choose|i: int| 0 <= i < u.len() && v == #[trigger] u.remove(i);
        assert(u.remove(i).len() == u.len() - 1);
    }
}

/// Where nothing is reached by `r` deletions, nothing is reached by more.
pub proof fn lemma_levels_stay_empty(w: Seq<char>, r: nat, d: nat)
    requires
        r <= d,
        level(w, r) == Set::<Seq<char>>::empty(),
    ensures
        level(w, d) == Set::<Seq<char>>::empty(),
    decreases d,
{
    if d > r {
        lemma_levels_stay_empty(w, r, (d - 1) as nat);
        assert forall|v: Seq<char>| !level(w, d).contains(v) by {
            if deletes_to(w, v, d) {
                let u = choose|u: Seq<char>|
                    deletes_to(w, u, (d - 1) as nat) && #[trigger] one_deletion(u, v);
                assert(level(w, (d - 1) as nat).contains(u));
            }
        }
        assert(level(w, d) =~= Set::<Seq<char>>::empty());
    }
}

/// What holds of every set of deletion variants: the word itself is in it
/// exactly if `keep_original` is set, and every string in it is no longer
/// than the word and at most `max_del` characters shorter.
pub proof fn lemma_variant_set_properties(w: Seq<char>, max_del: nat, keep_original: bool)
    ensures
        variant_set(w, max_del, keep_original).contains(w) == keep_original,
        forall|v: Seq<char>| #[trigger]
            variant_set(w, max_del, keep_original).contains(v) ==> v.len() <= w.len() && v.len()
                + max_del >= w.len(),
        forall|v: Seq<char>| #[trigger]
            variant_set(w, max_del, keep_original).contains(v) && v != w ==> v.len() < w.len(),
{
    let lo = least_deletions(keep_original);
    if keep_original {
        assert(deletes_to(w, w, 0));
        assert(deletes_within(w, w, lo, max_del));
    } else {
        if deletes_within(w, w, lo, max_del) {
            let d = choose|d: nat| lo <= d <= max_del && #[trigger] deletes_to(w, w, d);
            lemma_deletion_length(w, w, d);
        }
    }
    assert forall|v: Seq<char>| #[trigger]
        variant_set(w, max_del, keep_original).contains(v) implies v.len() <= w.len() && v.len()
        + max_del >= w.len() && (v != w ==> v.len() < w.len()) by {
        let d = choose|d: nat| lo <= d <= max_del && #[trigger] deletes_to(w, v, d);
        lemma_deletion_length(w, v, d);
    }
}

/// With no deletions allowed the set holds the word alone, or nothing.
pub proof fn lemma_variant_set_without_deletions(w: Seq<char>, keep_original: bool)
    ensures
        variant_set(w, 0, keep_original) == if keep_original {
            Set::<Seq<char>>::empty().insert(w)
        } else {
            Set::<Seq<char>>::empty()
        },
{
    let lo = least_deletions(keep_original);
    let expected = if keep_original {
        Set::<Seq<char>>::empty().insert(w)
    } else {
        Set::<Seq<char>>::empty()
    };
    assert forall|v: Seq<char>| variant_set(w, 0, keep_original).contains(v) == expected.contains(
        v,
    ) by {
        if keep_original && v == w {
            assert(deletes_to(w, w, 0));
        }
    }
    assert(variant_set(w, 0, keep_original) =~= expected);
}

/// The strings reached by up to `hi + 1` deletions are those reached by up
/// to `hi`, and those that come by one deletion of a string reached by
/// exactly `hi`.
proof fn lemma_span_grows(w: Seq<char>, lo: nat, hi: nat, frontier: Seq<String>)
    requires
        lo <= hi + 1,
        string_set(frontier) == level(w, hi),
    ensures
        span(w, lo, hi + 1) == span(w, lo, hi).union(expand_all(frontier, frontier.len() as int)),
        level(w, hi + 1) == expand_all(frontier, frontier.len() as int),
{
    let grown = expand_all(frontier, frontier.len() as int);
    assert forall|v: Seq<char>| level(w, hi + 1).contains(v) == grown.contains(v) by {
        if deletes_to(w, v, hi + 1) {
            let u = choose|u: Seq<char>| deletes_to(w, u, hi) && #[trigger] one_deletion(u, v);
            assert(level(w, hi).contains(u));
            assert(string_set(frontier).contains(u));
            let t = choose|t: int| 0 <= t < frontier.len() && #[trigger] frontier[t]@ == u;
            assert(one_deletion(frontier[t]@, v));
        }
        if grown.contains(v) {
            let t = choose|t: int|
                0 <= t < frontier.len() && t < frontier.len() && one_deletion(
                    #[trigger] frontier[t]@,
                    v,
                );
            assert(string_set(frontier).contains(frontier[t]@));
            assert(level(w, hi).contains(frontier[t]@));
            assert(deletes_to(w, frontier[t]@, hi));
        }
    }
    assert(level(w, hi + 1) =~= grown);
    assert forall|v: Seq<char>| span(w, lo, hi + 1).contains(v) == span(w, lo, hi).union(
        grown,
    ).contains(v) by {
        if deletes_within(w, v, lo, hi + 1) {
            let d = choose|d: nat| lo <= d <= hi + 1 && #[trigger] deletes_to(w, v, d);
            if d <= hi {
                assert(deletes_within(w, v, lo, hi));
            } else {
                assert(level(w, hi + 1).contains(v));
            }
        }
        if deletes_within(w, v, lo, hi) {
            let d = choose|d: nat| lo <= d <= hi && #[trigger] deletes_to(w, v, d);
            assert(deletes_within(w, v, lo, hi + 1));
        }
        if grown.contains(v) {
            assert(level(w, hi + 1).contains(v));
            assert(deletes_to(w, v, hi + 1));
            assert(deletes_within(w, v, lo, hi + 1));
        }
    }
    assert(span(w, lo, hi + 1) =~= span(w, lo, hi).union(grown));
}

/// Once a level is empty the span has stopped growing.
proof fn lemma_span_complete(w: Seq<char>, lo: nat, r: nat, hi: nat)
    requires
        r <= hi,
        level(w, r) == Set::<Seq<char>>::empty(),
    ensures
        span(w, lo, hi) == span(w, lo, r),
{
    assert forall|v: Seq<char>| span(w, lo, hi).contains(v) == span(w, lo, r).contains(v) by {
        if deletes_within(w, v, lo, hi) {
            let d = choose|d: nat| lo <= d <= hi && #[trigger] deletes_to(w, v, d);
            if d >= r {
                lemma_levels_stay_empty(w, r, d);
                assert(level(w, d).contains(v));
            }
            assert(deletes_within(w, v, lo, r));
        }
        if deletes_within(w, v, lo, r) {
            let d = choose|d: nat| lo <= d <= r && #[trigger] deletes_to(w, v, d);
            assert(deletes_within(w, v, lo, hi));
        }
    }
    assert(span(w, lo, hi) =~= span(w, lo, r));
}

/// A set of deletion variants, as `deletion_variants` returns it: each
/// variant once, listed and hashed.
pub struct VariantSet {
    items: Vec<String>,
    members: StringHashSet,
}

impl View for VariantSet {
    type V = Set<Seq<char>>;

    closed spec fn view(&self) -> Set<Seq<char>> {
        self.members@
    }
}

impl VariantSet {
    #[verifier::type_invariant]
    spec fn well_formed(self) -> bool {
        &&& distinct_strings(self.items@)
        &&& string_set(self.items@) == self.members@
    }

    /// The variants as a list.
    pub closed spec fn listed(&self) -> Seq<String> {
        self.items@
    }

    /// Whether `s` is one of the variants.
    pub fn contains(&self, s: &str) -> (found: bool)
        ensures
            found == self@.contains(s@),
    {
        self.members.contains(s)
    }

    /// Whether there is no variant at all.
    pub fn is_empty(&self) -> (none: bool)
        ensures
            none == (self@ == Set::<Seq<char>>::empty()),
    {
        proof {
            use_type_invariant(self);
            if self.items@.len() == 0 {
                lemma_string_set_empty(self.items@);
            } else {
                assert(string_set(self.items@).contains(self.items@[0]@));
            }
        }
        self.items.len() == 0
    }

    /// How many variants there are.
    pub fn len(&self) -> (count: usize)
        ensures
            count == self.listed().len(),
    {
        self.items.len()
    }

    /// The variants, each once, in the order in which they were found.
    pub fn words(&self) -> (list: &Vec<String>)
        ensures
            list@ == self.listed(),
            distinct_strings(list@),
            string_set(list@) == self@,
    {
        proof {
            use_type_invariant(self);
        }
        &self.items
    }
}

/// The deletion variants of `word` with up to `max_del` characters taken
/// out; the word itself is among them exactly if `keep_original` is set.
pub fn deletion_variants(word: &str, max_del: usize, keep_original: bool) -> (found: VariantSet)
    ensures
        found@ == variant_set(word@, max_del as nat, keep_original),
        found@.contains(word@) == keep_original,
        forall|v: Seq<char>| #[trigger]
            found@.contains(v) ==> v.len() <= word@.len() && v.len() + max_del >= word@.len(),
{
    let ghost w = word@;
    let ghost lo = least_deletions(keep_original);
    let mut seen = StringHashSet::new();
    let mut acc: Vec<String> = Vec::new();
    let mut frontier: Vec<String> = Vec::new();
    proof {
        lemma_string_set_empty(acc@);
        lemma_string_set_empty(frontier@);
    }
    if keep_original {
        seen.insert(word.to_owned());
        let whole = word.to_owned();
        proof {
            lemma_string_set_push(acc@, whole);
        }
        acc.push(whole);
    }
    let start = word.to_owned();
    proof {
        lemma_string_set_push(frontier@, start);
    }
    frontier.push(start);
    proof {
        assert(deletes_to(w, w, 0));
        assert(string_set(frontier@) =~= level(w, 0));
        assert(seen@ =~= span(w, lo, 0)) by {
            assert forall|v: Seq<char>| seen@.contains(v) == span(w, lo, 0).contains(v) by {
                if keep_original && v == w {
                    assert(deletes_within(w, v, lo, 0));
                }
            }
        }
    }
    let mut round: usize = 0;
    while round < max_del && frontier.len() > 0
        invariant
            round <= max_del,
            w == word@,
            lo == least_deletions(keep_original),
            string_set(frontier@) == level(w, round as nat),
            seen@ == span(w, lo, round as nat),
            string_set(acc@) == seen@,
            distinct_strings(acc@),
        decreases max_del - round,
    {
        let ghost seen_before = seen@;
        let mut next: Vec<String> = Vec::new();
        proof {
            lemma_string_set_empty(next@);
            assert(expand_all(frontier@, 0) =~= Set::<Seq<char>>::empty());
        }
        let mut fi: usize = 0;
        while fi < frontier.len()
            invariant
                fi <= frontier.len(),
                round < max_del,
                w == word@,
                lo == least_deletions(keep_original),
                string_set(frontier@) == level(w, round as nat),
                seen_before == span(w, lo, round as nat),
                string_set(next@) == expand_all(frontier@, fi as int),
                seen@ == seen_before.union(string_set(next@)),
                string_set(acc@) == seen@,
                distinct_strings(acc@),
            decreases frontier.len() - fi,
        {
            let chars = collect_chars(frontier[fi].as_str());
            let ghost u = frontier@[fi as int]@;
            proof {
                assert(string_set(frontier@).contains(u));
                assert(level(w, round as nat).contains(u));
                assert(expansions(u, 0) =~= Set::<Seq<char>>::empty());
                assert(string_set(next@) =~= expand_all(frontier@, fi as int).union(
                    expansions(u, 0),
                ));
            }
            let mut idx: usize = 0;
            while idx < chars.len()
                invariant
                    idx <= chars.len(),
                    fi < frontier.len(),
                    round < max_del,
                    chars@ == u,
                    u == frontier@[fi as int]@,
                    deletes_to(w, u, round as nat),
                    w == word@,
                    lo == least_deletions(keep_original),
                    seen_before == span(w, lo, round as nat),
                    string_set(next@) == expand_all(frontier@, fi as int).union(
                        expansions(u, idx as int),
                    ),
                    seen@ == seen_before.union(string_set(next@)),
                    string_set(acc@) == seen@,
                    distinct_strings(acc@),
                decreases chars.len() - idx,
            {
                let shorter = string_without(&chars, idx);
                let ghost sv = shorter@;
                let ghost next_before = next@;
                let ghost acc_before = acc@;
                let ghost seen_mid = seen@;
                let fresh = seen.insert(shorter.clone());
                proof {
                    assert(one_deletion(u, sv));
                    assert(deletes_to(w, sv, (round + 1) as nat));
                    lemma_deletion_length(w, sv, (round + 1) as nat);
                    if seen_before.contains(sv) {
                        let d = choose|d: nat| lo <= d <= round && #[trigger] deletes_to(w, sv, d);
                        lemma_deletion_length(w, sv, d);
                    }
                    assert(expansions(u, idx + 1) =~= expansions(u, idx as int).insert(sv));
                }
                if fresh {
                    proof {
                        lemma_string_set_push(acc@, shorter);
                        lemma_string_set_push(next@, shorter);
                        assert forall|i: int, j: int|
                            0 <= i < acc@.push(shorter).len() && 0 <= j < acc@.push(
                                shorter,
                            ).len() && i != j implies #[trigger] acc@.push(shorter)[i]@
                            != #[trigger] acc@.push(shorter)[j]@ by {
                            if i < acc@.len() {
                                assert(string_set(acc@).contains(acc@[i]@));
                            }
                            if j < acc@.len() {
                                assert(string_set(acc@).contains(acc@[j]@));
                            }
                        }
                    }
                    acc.push(shorter.clone());
                    next.push(shorter);
                }
                proof {
                    assert(string_set(next@) =~= string_set(next_before).insert(sv));
                    assert(string_set(next@) =~= expand_all(frontier@, fi as int).union(
                        expansions(u, idx + 1),
                    ));
                    assert(seen@ =~= seen_before.union(string_set(next@)));
                    assert(string_set(acc@) =~= seen@);
                }
                idx += 1;
            }
            proof {
                assert(expand_all(frontier@, fi + 1) =~= expand_all(frontier@, fi as int).union(
                    expansions(u, chars.len() as int),
                )) by {
                    assert forall|v: Seq<char>|
                        expand_all(frontier@, fi + 1).contains(v) == expand_all(
                            frontier@,
                            fi as int,
                        ).union(expansions(u, chars.len() as int)).contains(v) by {
                        if expand_all(frontier@, fi + 1).contains(v) {
                            let t = choose|t: int|
                                0 <= t < fi + 1 && t < frontier@.len() && one_deletion(
                                    #[trigger] frontier@[t]@,
                                    v,
                                );
                            if t == fi {
                                let j = choose|j: int| 0 <= j < u.len() && v == #[trigger] u.remove(j);
                                assert(expansions(u, chars.len() as int).contains(v));
                            } else {
                                assert(expand_all(frontier@, fi as int).contains(v));
                            }
                        }
                        if expand_all(frontier@, fi as int).contains(v) {
                            let t = choose|t: int|
                                0 <= t < fi && t < frontier@.len() && one_deletion(
                                    #[trigger] frontier@[t]@,
                                    v,
                                );
                            assert(expand_all(frontier@, fi + 1).contains(v));
                        }
                        if expansions(u, chars.len() as int).contains(v) {
                            let j = choose|j: int|
                                0 <= j < chars.len() && j < u.len() && v == #[trigger] u.remove(j);
                            assert(one_deletion(frontier@[fi as int]@, v));
                            assert(expand_all(frontier@, fi + 1).contains(v));
                        }
                    }
                }
            }
            fi += 1;
        }
        proof {
            lemma_span_grows(w, lo, round as nat, frontier@);
        }
        frontier = next;
        round += 1;
    }
    proof {
        if round < max_del {
            lemma_string_set_empty(frontier@);
            lemma_span_complete(w, lo, round as nat, max_del as nat);
        }
        assert(seen@ =~= variant_set(w, max_del as nat, keep_original));
        lemma_variant_set_properties(w, max_del as nat, keep_original);
    }
    VariantSet { items: acc, members: seen }
}

} // verus!
