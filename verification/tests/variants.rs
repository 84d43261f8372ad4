use spellcheck::deletion_variants;

#[test]
fn test_deletion_variants() {
    let variants = deletion_variants("spelling", 2, false);
    assert!(variants.contains("speling"));
    assert!(variants.contains("speling"));
    assert!(!variants.contains("spelling"));
}

#[test]
fn test_deletion_variants_zero() {
    // With max_del = 0 we expect *no* variants
    assert!(deletion_variants("abc", 0, false).is_empty());
}

#[test]
fn test_deletion_variants_exhaustive() {
    let v = deletion_variants("abc", 2, false);
    // All unique strings reachable by 1 or 2 deletions
    for s in ["ab", "ac", "bc", "a", "b", "c"] {
        assert!(v.contains(s), "missing variant {}", s);
    }
    // Original word must be absent
    assert!(!v.contains("abc"));
}

#[test]
fn deletion_variants_hold_the_word_only_when_asked() {
    for k in 0..4 {
        assert!(deletion_variants("word", k, true).contains("word"));
        assert!(!deletion_variants("word", k, false).contains("word"));
    }
    assert_eq!(deletion_variants("word", 0, true).len(), 1);
}

#[test]
fn deletion_variants_stay_within_the_lengths() {
    let word = "banana";
    for k in 0..5 {
        let found = deletion_variants(word, k, true);
        for v in found.words() {
            assert!(v.chars().count() <= word.len());
            assert!(v.chars().count() + k >= word.len());
        }
    }
}

#[test]
fn deletion_variants_list_each_string_once() {
    // "aab" -> "ab" (twice), "aa"; then "a", "b"; then "".
    let found = deletion_variants("aab", 3, false);
    assert_eq!(found.len(), 5);
    for s in ["ab", "aa", "a", "b", ""] {
        assert!(found.contains(s));
    }
    assert_eq!(deletion_variants("abc", 2, false).len(), 6);
}

#[test]
fn deletion_variants_stop_when_the_word_is_used_up() {
    let found = deletion_variants("ab", 10, true);
    assert_eq!(found.len(), 4);
    assert!(deletion_variants("", 3, false).is_empty());
}

#[test]
fn deletion_variants_delete_characters_not_bytes() {
    let found = deletion_variants("né", 1, false);
    assert!(found.contains("n"));
    assert!(found.contains("é"));
    assert_eq!(found.len(), 2);
}
