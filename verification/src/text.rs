//! Small helpers on strings: a word as a vector of characters, a word with
//! one character left out, and a list of strings read as a set.

use vstd::prelude::*;
use vstd::string::StringSliceAdditionalSpecFns;

verus! {

pub assume_specification[ String::push ](s: &mut String, c: char)
    ensures
        final(s)@ == old(s)@.push(c),
;

/// The set of the strings that `items` holds.
pub open spec fn string_set(items: Seq<String>) -> Set<Seq<char>> {
    Set::new(|v: Seq<char>| exists|i: int| 0 <= i < items.len() && #[trigger] items[i]@ == v)
}

/// No string stands twice in `items`.
pub open spec fn distinct_strings(items: Seq<String>) -> bool {
    forall|i: int, j: int|
        0 <= i < items.len() && 0 <= j < items.len() && i != j ==> #[trigger] items[i]@
            != #[trigger] items[j]@
}

/// The strings of a list, each by its characters.
pub open spec fn string_views(items: Seq<String>) -> Seq<Seq<char>> {
    Seq::new(items.len(), |i: int| items[i]@)
}

/// Appending a string to a list adds it to the list's set.
pub proof fn lemma_string_set_push(items: Seq<String>, x: String)
    ensures
        string_set(items.push(x)) == string_set(items).insert(x@),
{
    let bigger = items.push(x);
    assert forall|v: Seq<char>| string_set(bigger).contains(v) implies string_set(items).insert(
        x@,
    ).contains(v) by {
        let i = choose|i: int| 0 <= i < bigger.len() && #[trigger] bigger[i]@ == v;
        if i < items.len() {
            assert(items[i]@ == v);
        }
    }
    assert forall|v: Seq<char>| string_set(items).insert(x@).contains(v) implies string_set(
        bigger,
    ).contains(v) by {
        if v == x@ {
            assert(bigger[items.len() as int]@ == v);
        } else {
            let i = choose|i: int| 0 <= i < items.len() && #[trigger] items[i]@ == v;
            assert(bigger[i]@ == v);
        }
    }
    assert(string_set(bigger) =~= string_set(items).insert(x@));
}

/// An empty list holds no string.
pub proof fn lemma_string_set_empty(items: Seq<String>)
    requires
        items.len() == 0,
    ensures
        string_set(items) == Set::<Seq<char>>::empty(),
{
    assert(string_set(items) =~= Set::<Seq<char>>::empty());
}

/// Two strings with the same bytes have the same characters.
pub proof fn lemma_bytes_determine_chars(a: Seq<char>, b: Seq<char>)
    requires
        vstd::utf8::encode_utf8(a) == vstd::utf8::encode_utf8(b),
    ensures
        a == b,
{
    vstd::utf8::encode_utf8_decode_utf8(a);
    vstd::utf8::encode_utf8_decode_utf8(b);
}

/// The characters of `s`, in order.
pub fn collect_chars(s: &str) -> (chars: Vec<char>)
    ensures
        chars@ == s@,
{
    let mut chars: Vec<char> = Vec::new();
    for c in it: s.chars()
        invariant
            it.seq() == s@,
            chars@ == it.seq().take(it.index()),
    {
        chars.push(c);
        assert(chars@ == it.seq().take(it.index() + 1));
    }
    assert(chars@ == s@);
    chars
}

/// The string made of `chars` without the character at `idx`.
pub fn string_without(chars: &Vec<char>, idx: usize) -> (s: String)
    requires
        idx < chars.len(),
    ensures
        s@ == chars@.remove(idx as int),
{
    let mut s = String::new();
    let mut i: usize = 0;
    while i < chars.len()
        invariant
            i <= chars.len(),
            idx < chars.len(),
            s@ == if i <= idx {
                chars@.take(i as int)
            } else {
                chars@.take(i as int).remove(idx as int)
            },
        decreases chars.len() - i,
    {
        if i != idx {
            s.push(chars[i]);
        }
        i += 1;
    }
    assert(chars@.take(chars.len() as int) == chars@);
    s
}

/// A list holds a string exactly if the list of its strings' characters does.
pub proof fn lemma_string_set_views(items: Seq<String>, v: Seq<char>)
    ensures
        string_set(items).contains(v) == string_views(items).contains(v),
{
    if string_set(items).contains(v) {
        let i = choose|i: int| 0 <= i < items.len() && #[trigger] items[i]@ == v;
        assert(string_views(items)[i] == v);
    }
    if string_views(items).contains(v) {
        let i = choose|i: int| 0 <= i < string_views(items).len() && string_views(items)[i] == v;
        assert(items[i]@ == v);
    }
}

/// Whether `a` and `b` are the same text.
pub fn same_text(a: &str, b: &str) -> (same: bool)
    ensures
        same == (a@ == b@),
{
    let a_bytes = a.as_bytes();
    let b_bytes = b.as_bytes();
    if a_bytes.len() != b_bytes.len() {
        return false;
    }
    let mut i: usize = 0;
    while i < a_bytes.len()
        invariant
            i <= a_bytes.len(),
            a_bytes@.len() == b_bytes@.len(),
            a_bytes@ == a.spec_bytes(),
            b_bytes@ == b.spec_bytes(),
            forall|t: int| 0 <= t < i ==> a_bytes@[t] == b_bytes@[t],
        decreases a_bytes.len() - i,
    {
        if a_bytes[i] != b_bytes[i] {
            return false;
        }
        i += 1;
    }
    proof {
        assert(a_bytes@ =~= b_bytes@);
        lemma_bytes_determine_chars(a@, b@);
    }
    true
}

/// A copy of a list of strings.
pub fn copy_strings(items: &Vec<String>) -> (copy: Vec<String>)
    ensures
        copy@ == items@,
{
    let mut copy: Vec<String> = Vec::new();
    let mut i: usize = 0;
    while i < items.len()
        invariant
            i <= items.len(),
            copy@ == items@.take(i as int),
        decreases items.len() - i,
    {
        copy.push(items[i].clone());
        assert(copy@ =~= items@.take(i + 1));
        i += 1;
    }
    assert(items@.take(items@.len() as int) =~= items@);
    copy
}

/// A copy of a list of numbers.
pub fn copy_numbers(items: &Vec<usize>) -> (copy: Vec<usize>)
    ensures
        copy@ == items@,
{
    let mut copy: Vec<usize> = Vec::new();
    let mut i: usize = 0;
    while i < items.len()
        invariant
            i <= items.len(),
            copy@ == items@.take(i as int),
        decreases items.len() - i,
    {
        copy.push(items[i]);
        assert(copy@ =~= items@.take(i + 1));
        i += 1;
    }
    assert(items@.take(items@.len() as int) =~= items@);
    copy
}

} // verus!
