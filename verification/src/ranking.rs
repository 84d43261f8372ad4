//! Suggestions and the order in which they are ranked: by distance, then
//! longer words first, then by the words' bytes.

use vstd::prelude::*;
use vstd::string::StringSliceAdditionalSpecFns;
use vstd::utf8::encode_utf8;

verus! {

/// One correction: a vocabulary word and its distance from the query.
#[derive(Debug, Clone)]
pub struct Suggestion {
    pub word: String,
    pub distance: usize,
}

/// What a suggestion says: the word by its characters, and the distance.
pub struct Ranked {
    pub word: Seq<char>,
    pub distance: nat,
}

impl View for Suggestion {
    type V = Ranked;

    open spec fn view(&self) -> Ranked {
        Ranked { word: self.word@, distance: self.distance as nat }
    }
}

/// A list of suggestions, each by what it says.
pub open spec fn ranked_views(list: Seq<Suggestion>) -> Seq<Ranked> {
    Seq::new(list.len(), |i: int| list[i]@)
}

/// The first `n` items of `s`, or all of `s` if it has fewer.
pub open spec fn top<T>(s: Seq<T>, n: nat) -> Seq<T> {
    if n <= s.len() {
        s.take(n as int)
    } else {
        s
    }
}

/// `a` comes before `b` in the order of the dictionary, byte by byte.
pub open spec fn lex_before(a: Seq<u8>, b: Seq<u8>) -> bool
    decreases a.len(),
{
    if b.len() == 0 {
        false
    } else if a.len() == 0 {
        true
    } else if a[0] != b[0] {
        a[0] < b[0]
    } else {
        lex_before(a.drop_first(), b.drop_first())
    }
}

/// `x` is ranked before `y`: it is nearer; or as near and longer; or as near,
/// as long, and earlier in the order of the dictionary.
pub open spec fn ranks_before(x: Ranked, y: Ranked) -> bool {
    let xb = encode_utf8(x.word);
    let yb = encode_utf8(y.word);
    x.distance < y.distance || (x.distance == y.distance && (xb.len() > yb.len() || (xb.len()
        == yb.len() && lex_before(xb, yb))))
}

/// Each item is ranked before all that follow it.
pub open spec fn strictly_ranked(s: Seq<Ranked>) -> bool {
    forall|i: int, j: int| 0 <= i < j < s.len() ==> ranks_before(#[trigger] s[i], #[trigger] s[j])
}

/// `s` lists exactly the members of `candidates`, best first.
pub open spec fn is_ranking_of(s: Seq<Ranked>, candidates: Set<Ranked>) -> bool {
    &&& strictly_ranked(s)
    &&& forall|x: Ranked| s.contains(x) <==> candidates.contains(x)
}

/// The members of `candidates`, best first.
pub open spec fn ranking_of(candidates: Set<Ranked>) -> Seq<Ranked> {
    choose|s: Seq<Ranked>| is_ranking_of(s, candidates)
}

/// No words differ and yet come before each other both ways.
pub proof fn lemma_lex_asymmetric(a: Seq<u8>, b: Seq<u8>)
    ensures
        !(lex_before(a, b) && lex_before(b, a)),
    decreases a.len(),
{
    if a.len() > 0 && b.len() > 0 && a[0] == b[0] {
        lemma_lex_asymmetric(a.drop_first(), b.drop_first());
    }
}

/// Of two different words one comes before the other.
pub proof fn lemma_lex_total(a: Seq<u8>, b: Seq<u8>)
    ensures
        a == b || lex_before(a, b) || lex_before(b, a),
    decreases a.len(),
{
    if a.len() > 0 && b.len() > 0 && a[0] == b[0] {
        lemma_lex_total(a.drop_first(), b.drop_first());
        if a.drop_first() == b.drop_first() {
            assert(a =~= seq![a[0]] + a.drop_first());
            assert(b =~= seq![b[0]] + b.drop_first());
        }
    } else if a.len() == 0 && b.len() == 0 {
        assert(a =~= b);
    }
}

/// What comes before a word comes before all that the word comes before.
pub proof fn lemma_lex_transitive(a: Seq<u8>, b: Seq<u8>, c: Seq<u8>)
    requires
        lex_before(a, b),
        lex_before(b, c),
    ensures
        lex_before(a, c),
    decreases a.len(),
{
    if a.len() > 0 && b.len() > 0 && c.len() > 0 && a[0] == b[0] && b[0] == c[0] {
        lemma_lex_transitive(a.drop_first(), b.drop_first(), c.drop_first());
    }
}

/// Nothing is ranked before itself, and no two items before each other.
pub proof fn lemma_ranks_asymmetric(x: Ranked, y: Ranked)
    ensures
        !(ranks_before(x, y) && ranks_before(y, x)),
{
    lemma_lex_asymmetric(encode_utf8(x.word), encode_utf8(y.word));
}

/// Of two suggestions of different words one is ranked before the other.
pub proof fn lemma_ranks_total(x: Ranked, y: Ranked)
    requires
        x.word != y.word,
    ensures
        ranks_before(x, y) || ranks_before(y, x),
{
    lemma_lex_total(encode_utf8(x.word), encode_utf8(y.word));
    if encode_utf8(x.word) == encode_utf8(y.word) {
        crate::text::lemma_bytes_determine_chars(x.word, y.word);
    }
}

/// The ranking order is transitive.
pub proof fn lemma_ranks_transitive(x: Ranked, y: Ranked, z: Ranked)
    requires
        ranks_before(x, y),
        ranks_before(y, z),
    ensures
        ranks_before(x, z),
{
    let xb = encode_utf8(x.word);
    let yb = encode_utf8(y.word);
    let zb = encode_utf8(z.word);
    if x.distance == y.distance && y.distance == z.distance && xb.len() == yb.len() && yb.len()
        == zb.len() {
        lemma_lex_transitive(xb, yb, zb);
    }
}

/// A set has at most one ranking.
pub proof fn lemma_ranking_unique(s1: Seq<Ranked>, s2: Seq<Ranked>, candidates: Set<Ranked>)
    requires
        is_ranking_of(s1, candidates),
        is_ranking_of(s2, candidates),
    ensures
        s1 == s2,
    decreases s1.len(),
{
    if s1.len() == 0 {
        if s2.len() > 0 {
            assert(s2.contains(s2[0]));
            assert(candidates.contains(s2[0]));
            assert(s1.contains(s2[0]));
        }
        assert(s1 =~= s2);
    } else {
        assert(s1.contains(s1[0]));
        assert(s2.contains(s1[0]));
        assert(s2.len() > 0);
        assert(s2.contains(s2[0]));
        assert(s1.contains(s2[0]));
        let i = choose|i: int| 0 <= i < s1.len() && s1[i] == s2[0];
        let j = choose|j: int| 0 <= j < s2.len() && s2[j] == s1[0];
        lemma_ranks_asymmetric(s1[0], s2[0]);
        assert(s1[0] == s2[0]);
        let first = s1[0];
        let rest = candidates.remove(first);
        let t1 = s1.drop_first();
        let t2 = s2.drop_first();
        assert(is_ranking_of(t1, rest)) by {
            lemma_tail_ranks(s1, candidates);
        }
        assert(is_ranking_of(t2, rest)) by {
            lemma_tail_ranks(s2, candidates);
        }
        lemma_ranking_unique(t1, t2, rest);
        assert(s1 =~= seq![first] + t1);
        assert(s2 =~= seq![first] + t2);
    }
}

/// Without its first item a ranking ranks what is left of its set.
proof fn lemma_tail_ranks(s: Seq<Ranked>, candidates: Set<Ranked>)
    requires
        is_ranking_of(s, candidates),
        s.len() > 0,
    ensures
        is_ranking_of(s.drop_first(), candidates.remove(s[0])),
{
    let t = s.drop_first();
    let rest = candidates.remove(s[0]);
    assert forall|i: int, j: int| 0 <= i < j < t.len() implies ranks_before(
        #[trigger] t[i],
        #[trigger] t[j],
    ) by {
        assert(t[i] == s[i + 1]);
        assert(t[j] == s[j + 1]);
    }
    assert forall|x: Ranked| t.contains(x) <==> rest.contains(x) by {
        if t.contains(x) {
            let i = choose|i: int| 0 <= i < t.len() && t[i] == x;
            assert(s[i + 1] == x);
            assert(s.contains(x));
            lemma_ranks_asymmetric(s[0], s[i + 1]);
            assert(ranks_before(s[0], s[i + 1]));
        }
        if rest.contains(x) {
            assert(s.contains(x));
            let i = choose|i: int| 0 <= i < s.len() && s[i] == x;
            assert(i > 0);
            assert(t[i - 1] == x);
        }
    }
}

/// A ranking of a set is the ranking of that set.
pub proof fn lemma_ranking_is(s: Seq<Ranked>, candidates: Set<Ranked>)
    requires
        is_ranking_of(s, candidates),
    ensures
        ranking_of(candidates) == s,
{
    lemma_ranking_unique(ranking_of(candidates), s, candidates);
}

/// The best `n` of the best `m` are the best `n`, where `n` is at most `m`.
pub proof fn lemma_top_of_top<T>(s: Seq<T>, m: nat, n: nat)
    requires
        n <= m,
    ensures
        top(top(s, m), n) == top(s, n),
{
    assert(top(top(s, m), n) =~= top(s, n));
}

/// A copy of a suggestion.
pub fn copy_suggestion(s: &Suggestion) -> (copy: Suggestion)
    ensures
        copy@ == s@,
{
    Suggestion { word: s.word.clone(), distance: s.distance }
}

/// A copy of the first `n` suggestions of `list`, or of all of them if there
/// are fewer.
pub fn copy_top(list: &Vec<Suggestion>, n: usize) -> (copy: Vec<Suggestion>)
    ensures
        ranked_views(copy@) == top(ranked_views(list@), n as nat),
{
    let mut copy: Vec<Suggestion> = Vec::new();
    let mut i: usize = 0;
    while i < list.len() && i < n
        invariant
            i <= list.len(),
            i <= n,
            copy.len() == i,
            forall|t: int| 0 <= t < i ==> copy[t]@ == list[t]@,
        decreases list.len() - i,
    {
        copy.push(copy_suggestion(&list[i]));
        i += 1;
    }
    assert(ranked_views(copy@) =~= top(ranked_views(list@), n as nat));
    copy
}

/// Whether `a` comes before `b` in the order of the dictionary.
fn bytes_before(a: &[u8], b: &[u8]) -> (before: bool)
    ensures
        before == lex_before(a@, b@),
{
    let mut i: usize = 0;
    assert(a@.skip(0) =~= a@ && b@.skip(0) =~= b@);
    while i < a.len() && i < b.len()
        invariant
            i <= a.len(),
            i <= b.len(),
            lex_before(a@, b@) == lex_before(a@.skip(i as int), b@.skip(i as int)),
        decreases a.len() - i,
    {
        proof {
            assert(a@.skip(i as int)[0] == a@[i as int]);
            assert(b@.skip(i as int)[0] == b@[i as int]);
            assert(a@.skip(i as int).drop_first() =~= a@.skip(i + 1));
            assert(b@.skip(i as int).drop_first() =~= b@.skip(i + 1));
        }
        if a[i] != b[i] {
            return a[i] < b[i];
        }
        i += 1;
    }
    i < b.len()
}

/// Whether `a` is ranked before `b`.
pub fn precedes(a: &Suggestion, b: &Suggestion) -> (before: bool)
    ensures
        before == ranks_before(a@, b@),
{
    if a.distance != b.distance {
        return a.distance < b.distance;
    }
    let a_bytes = a.word.as_str().as_bytes();
    let b_bytes = b.word.as_str().as_bytes();
    if a_bytes.len() != b_bytes.len() {
        return a_bytes.len() > b_bytes.len();
    }
    bytes_before(a_bytes, b_bytes)
}

/// No word stands twice in `list`.
pub open spec fn distinct_words(list: Seq<Suggestion>) -> bool {
    forall|i: int, j: int|
        0 <= i < list.len() && 0 <= j < list.len() && i != j ==> (#[trigger] list[i]).word@
            != (#[trigger] list[j]).word@
}

/// Sorts suggestions of different words into their ranking.
pub fn rank(items: Vec<Suggestion>) -> (sorted: Vec<Suggestion>)
    requires
        distinct_words(items@),
    ensures
        is_ranking_of(ranked_views(sorted@), ranked_views(items@).to_set()),
        sorted.len() == items.len(),
        distinct_words(sorted@),
{
    let ghost all = items@;
    let mut rest = items;
    let mut sorted: Vec<Suggestion> = Vec::new();
    while rest.len() > 0
        invariant
            rest.len() <= all.len(),
            rest@ == all.take(rest.len() as int),
            sorted.len() + rest.len() == all.len(),
            distinct_words(all),
            strictly_ranked(ranked_views(sorted@)),
            forall|x: Ranked|
                ranked_views(sorted@).contains(x) <==> exists|t: int|
                    rest.len() <= t < all.len() && #[trigger] all[t]@ == x,
        decreases rest.len(),
    {
        let ghost k = rest.len() - 1;
        let ghost before = sorted@;
        let item = rest.pop().unwrap();
        assert(item == all[k]);
        let mut p: usize = 0;
        while p < sorted.len() && !precedes(&item, &sorted[p])
            invariant
                p <= sorted.len(),
                sorted@ == before,
                forall|t: int| 0 <= t < p ==> !ranks_before(item@, #[trigger] sorted[t]@),
            decreases sorted.len() - p,
        {
            p += 1;
        }
        proof {
            let views = ranked_views(before);
            let grown = ranked_views(before.insert(p as int, item));
            assert forall|t: int| 0 <= t < before.len() implies (#[trigger] before[t]@).word
                != item@.word by {
                assert(views[t] == before[t]@);
                assert(views.contains(before[t]@));
                let u = choose|u: int| k < u < all.len() && #[trigger] all[u]@ == before[t]@;
                assert(all[u].word@ != all[k].word@);
            }
            assert forall|i: int, j: int| 0 <= i < j < grown.len() implies ranks_before(
                #[trigger] grown[i],
                #[trigger] grown[j],
            ) by {
                if j < p {
                    assert(grown[i] == views[i] && grown[j] == views[j]);
                } else if j == p {
                    assert(grown[i] == views[i]);
                    assert(before[i]@.word != item@.word);
                    lemma_ranks_total(before[i]@, item@);
                } else if i < p {
                    assert(grown[i] == views[i] && grown[j] == views[j - 1]);
                } else if i == p {
                    assert(grown[j] == views[j - 1]);
                    assert(ranks_before(item@, views[p as int]));
                    if j - 1 > p {
                        lemma_ranks_transitive(item@, views[p as int], views[j - 1]);
                    }
                } else {
                    assert(grown[i] == views[i - 1] && grown[j] == views[j - 1]);
                }
            }
            assert forall|x: Ranked| grown.contains(x) <==> exists|t: int|
                k <= t < all.len() && #[trigger] all[t]@ == x by {
                if grown.contains(x) {
                    let i = choose|i: int| 0 <= i < grown.len() && grown[i] == x;
                    if i == p {
                        assert(all[k]@ == x);
                    } else {
                        let j = if i < p { i } else { i - 1 };
                        assert(views[j] == x);
                        assert(views.contains(x));
                    }
                }
                if exists|t: int| k <= t < all.len() && #[trigger] all[t]@ == x {
                    let t = choose|t: int| k <= t < all.len() && #[trigger] all[t]@ == x;
                    if t == k {
                        assert(grown[p as int] == x);
                    } else {
                        assert(views.contains(x));
                        let i = choose|i: int| 0 <= i < views.len() && views[i] == x;
                        let j = if i < p { i } else { i + 1 };
                        assert(grown[j] == x);
                    }
                }
            }
            assert(rest@ =~= all.take(k));
        }
        sorted.insert(p, item);
    }
    proof {
        let views = ranked_views(sorted@);
        let wanted = ranked_views(all).to_set();
        assert forall|x: Ranked| views.contains(x) <==> wanted.contains(x) by {
            if views.contains(x) {
                let t = choose|t: int| 0 <= t < all.len() && #[trigger] all[t]@ == x;
                assert(ranked_views(all)[t] == x);
                assert(ranked_views(all).contains(x));
            }
            if wanted.contains(x) {
                assert(ranked_views(all).contains(x));
                let t = choose|t: int| 0 <= t < all.len() && ranked_views(all)[t] == x;
                assert(all[t]@ == x);
            }
        }
        assert forall|i: int, j: int|
            0 <= i < sorted@.len() && 0 <= j < sorted@.len() && i != j implies (
        #[trigger] sorted@[i]).word@ != (#[trigger] sorted@[j]).word@ by {
            assert(views[i] == sorted@[i]@ && views[j] == sorted@[j]@);
            if i < j {
                lemma_ranks_asymmetric(views[i], views[i]);
                assert(ranks_before(views[i], views[j]));
            } else {
                assert(ranks_before(views[j], views[i]));
            }
            assert(views.contains(views[i]) && views.contains(views[j]));
            let ti = choose|t: int| 0 <= t < all.len() && #[trigger] all[t]@ == views[i];
            let tj = choose|t: int| 0 <= t < all.len() && #[trigger] all[t]@ == views[j];
            lemma_ranks_asymmetric(views[i], views[j]);
            assert(ti != tj);
        }
    }
    sorted
}

} // verus!
