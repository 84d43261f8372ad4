use spellcheck::bounded_levenshtein;

#[test]
fn test_bounded_levenshtein() {
    assert_eq!(bounded_levenshtein("kitten", "sitting", 3), 3);
    assert_eq!(bounded_levenshtein("flaw", "lawn", 2), 2);
    assert_eq!(bounded_levenshtein("intention", "execution", 5), 5);
}

#[test]
fn test_bounded_levenshtein_identical() {
    assert_eq!(bounded_levenshtein("same", "same", 0), 0);
}

#[test]
fn test_bounded_levenshtein_cutoff() {
    // real distance = 3, bound = 2  =>  function must bail out (> bound)
    assert!(bounded_levenshtein("kitten", "sitting", 2) > 2);
}

#[test]
fn bounded_levenshtein_is_symmetric() {
    let pairs = [
        ("kitten", "sitting"),
        ("flaw", "lawn"),
        ("abcd", "dcba"),
        ("", "abc"),
        ("speling", "spelling"),
        ("aaaa", "bbbb"),
    ];
    for (a, b) in pairs {
        for bound in 0..6 {
            assert_eq!(bounded_levenshtein(a, b, bound), bounded_levenshtein(b, a, bound));
        }
    }
}

#[test]
fn bounded_levenshtein_is_exact_within_the_bound() {
    assert_eq!(bounded_levenshtein("kitten", "sitting", 10), 3);
    assert_eq!(bounded_levenshtein("kitten", "sitting", usize::MAX), 3);
    assert_eq!(bounded_levenshtein("", "", 0), 0);
    assert_eq!(bounded_levenshtein("", "abc", 3), 3);
    assert_eq!(bounded_levenshtein("abc", "", 5), 3);
    assert_eq!(bounded_levenshtein("speling", "selling", 2), 2);
    assert_eq!(bounded_levenshtein("speling", "spilling", 2), 2);
}

#[test]
fn bounded_levenshtein_exceeds_a_bound_that_is_too_small() {
    assert!(bounded_levenshtein("", "abc", 2) > 2);
    assert!(bounded_levenshtein("intention", "execution", 4) > 4);
    assert!(bounded_levenshtein("aaaa", "bbbb", 0) > 0);
    assert!(bounded_levenshtein("aaaa", "bbbb", 3) > 3);
    assert_eq!(bounded_levenshtein("abcdef", "a", 2), 3);
}

#[test]
fn bounded_levenshtein_counts_bytes() {
    // 'é' takes two bytes, both of which differ from 'e'.
    assert_eq!(bounded_levenshtein("é", "e", 5), 2);
}
