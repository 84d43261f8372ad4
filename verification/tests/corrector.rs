use spellcheck::{SpellCorrector, SuggestedCorrection};

fn words(list: &[&str]) -> Vec<String> {
    list.iter().map(|s| s.to_string()).collect()
}

fn listed(correction: SuggestedCorrection) -> Vec<(String, usize)> {
    match correction {
        SuggestedCorrection::Suggestions(list) => {
            list.into_iter().map(|s| (s.word, s.distance)).collect()
        }
        SuggestedCorrection::NoSuggestions => panic!("expected suggestions"),
    }
}

#[test]
fn test_suggest_single_word_corrections() {
    let mut dictionary: Vec<String> = Vec::new();
    dictionary.push("spelling".to_string());
    dictionary.push("corrected".to_string());

    let spell_corrector = SpellCorrector::new(dictionary, 2);
    let suggestions = spell_corrector.suggest_single_word_corrections("speling", 2);

    match suggestions {
        SuggestedCorrection::NoSuggestions => panic!("Expected suggestions, but got none."),
        SuggestedCorrection::Suggestions(suggestions) => {
            assert_eq!(suggestions.len(), 1);
            assert_eq!(suggestions[0].word, "spelling");
        }
    }
}

#[test]
fn test_suggest_multiple_corrections_order() {
    let dict: Vec<String> = ["spelling", "spilling", "selling"]
        .iter()
        .map(|s| s.to_string())
        .collect();
    let corrector = SpellCorrector::new(dict, 2);

    println!(
        "Res: {:?}",
        corrector.suggest_single_word_corrections("speling", 2)
    );

    match corrector.suggest_single_word_corrections("speling", 2) {
        SuggestedCorrection::Suggestions(list) => {
            assert_eq!(list[0].word, "spelling"); // distance 1
            assert_eq!(list[1].word, "spilling"); // distance 2
            assert_eq!(list.len(), 2);
        }
        _ => panic!("expected suggestions"),
    }
}

#[test]
fn test_add_word_updates_dictionary() {
    let dict: Vec<String> = ["cat"].iter().map(|s| s.to_string()).collect();
    let mut corrector = SpellCorrector::new(dict, 1);

    println!(
        "Res: {:?}",
        corrector.suggest_single_word_corrections("cart", 2)
    );
    // "cart" is unknown -> only "cat" suggested
    if let SuggestedCorrection::Suggestions(list) =
        corrector.suggest_single_word_corrections("cart", 2)
    {
        assert_eq!(list[0].word, "cat");
    }

    // Add "cart", run again - now no suggestions (exact hit)
    corrector.add_word_to_dictionary("cart");
    match corrector.suggest_single_word_corrections("cart", 2) {
        SuggestedCorrection::NoSuggestions => {}
        _ => panic!("expected no suggestions after adding exact word"),
    }
}

#[test]
fn ranked_example_gives_words_and_distances() {
    let corrector = SpellCorrector::new(words(&["spelling", "spilling", "selling"]), 2);
    assert_eq!(
        listed(corrector.suggest_single_word_corrections("speling", 2)),
        vec![("spelling".to_string(), 1), ("spilling".to_string(), 2)]
    );
    assert_eq!(
        listed(corrector.suggest_single_word_corrections("speling", 5)),
        vec![
            ("spelling".to_string(), 1),
            ("spilling".to_string(), 2),
            ("selling".to_string(), 2)
        ]
    );
}

#[test]
fn known_words_get_no_suggestions() {
    let vocabulary = ["cat", "cart", "dog", "spelling"];
    let corrector = SpellCorrector::new(words(&vocabulary), 2);
    for word in vocabulary {
        for n in 0..4 {
            assert!(matches!(
                corrector.suggest_single_word_corrections(word, n),
                SuggestedCorrection::NoSuggestions
            ));
        }
    }
}

#[test]
fn unknown_word_without_neighbours_gets_an_empty_list() {
    let corrector = SpellCorrector::new(words(&["cat", "dog"]), 1);
    assert_eq!(listed(corrector.suggest_single_word_corrections("zebra", 3)), vec![]);
    let empty = SpellCorrector::new(Vec::new(), 2);
    assert_eq!(listed(empty.suggest_single_word_corrections("cat", 3)), vec![]);
}

#[test]
fn repeated_queries_give_the_same_answer() {
    let corrector = SpellCorrector::new(words(&["spelling", "spilling", "selling", "smelling"]), 2);
    let wide = listed(corrector.suggest_single_word_corrections("speling", 4));
    for n in [1, 2, 3, 4, 3, 2, 1, 0, 4] {
        let first = listed(corrector.suggest_single_word_corrections("speling", n));
        let second = listed(corrector.suggest_single_word_corrections("speling", n));
        assert_eq!(first, second);
        assert_eq!(first, wide[..n.min(wide.len())].to_vec());
    }
}

#[test]
fn wider_query_after_a_narrow_one_is_complete() {
    let corrector = SpellCorrector::new(words(&["spelling", "spilling", "selling"]), 2);
    assert_eq!(listed(corrector.suggest_single_word_corrections("speling", 1)).len(), 1);
    assert_eq!(listed(corrector.suggest_single_word_corrections("speling", 3)).len(), 3);
    assert_eq!(listed(corrector.suggest_single_word_corrections("speling", 10)).len(), 3);
    assert_eq!(listed(corrector.suggest_single_word_corrections("speling", 2)).len(), 2);
}

#[test]
fn added_word_changes_later_answers() {
    let mut corrector = SpellCorrector::new(words(&["spelling"]), 2);
    assert_eq!(
        listed(corrector.suggest_single_word_corrections("speling", 5)),
        vec![("spelling".to_string(), 1)]
    );
    corrector.add_word_to_dictionary("spewing");
    assert_eq!(
        listed(corrector.suggest_single_word_corrections("speling", 5)),
        vec![("spelling".to_string(), 1), ("spewing".to_string(), 1)]
    );
}

#[test]
fn ties_go_to_the_longer_word_then_to_the_earlier() {
    // All at distance 1 from "bat": "boat" is longer; "bad" comes before "bit".
    // "bath" and "beat" are as long as "boat" and come before it.
    let corrector = SpellCorrector::new(words(&["bit", "boat", "bad", "bath", "bet", "beat"]), 2);
    assert_eq!(
        listed(corrector.suggest_single_word_corrections("bat", 9)),
        vec![
            ("bath".to_string(), 1),
            ("beat".to_string(), 1),
            ("boat".to_string(), 1),
            ("bad".to_string(), 1),
            ("bet".to_string(), 1),
            ("bit".to_string(), 1)
        ]
    );
}

#[test]
fn repeated_vocabulary_words_are_suggested_once() {
    let mut corrector = SpellCorrector::new(words(&["cat", "cat", "cot", "cat"]), 1);
    corrector.add_word_to_dictionary("cot");
    assert_eq!(
        listed(corrector.suggest_single_word_corrections("cart", 5)),
        vec![("cat".to_string(), 1)]
    );
}

#[test]
fn zero_bound_finds_nothing_but_known_words() {
    let corrector = SpellCorrector::new(words(&["cat"]), 0);
    assert!(matches!(
        corrector.suggest_single_word_corrections("cat", 3),
        SuggestedCorrection::NoSuggestions
    ));
    assert_eq!(listed(corrector.suggest_single_word_corrections("cart", 3)), vec![]);
}

#[test]
fn batch_answers_stand_in_the_order_of_the_words() {
    let corrector = SpellCorrector::new(words(&["cat", "dog"]), 1);
    let input = words(&["cart", "cart", "dog", "dig", "zebra"]);
    let answers = corrector.suggest_word_corrections(&input, 3);
    assert_eq!(answers.len(), 5);
    assert_eq!(listed(answers[0].clone()), vec![("cat".to_string(), 1)]);
    assert_eq!(listed(answers[1].clone()), vec![("cat".to_string(), 1)]);
    assert!(matches!(answers[2], SuggestedCorrection::NoSuggestions));
    assert_eq!(listed(answers[3].clone()), vec![("dog".to_string(), 1)]);
    assert_eq!(listed(answers[4].clone()), vec![]);
}

#[test]
fn batch_agrees_with_single_queries() {
    let corrector = SpellCorrector::new(words(&["spelling", "spilling", "selling", "cat"]), 2);
    let input = words(&["speling", "cat", "ct", "speling", "sellin", ""]);
    let answers = corrector.suggest_word_corrections(&input, 2);
    assert_eq!(answers.len(), input.len());
    for (word, answer) in input.iter().zip(answers) {
        match (answer, corrector.suggest_single_word_corrections(word, 2)) {
            (SuggestedCorrection::NoSuggestions, SuggestedCorrection::NoSuggestions) => {}
            (SuggestedCorrection::Suggestions(a), SuggestedCorrection::Suggestions(b)) => {
                let a: Vec<(String, usize)> = a.into_iter().map(|s| (s.word, s.distance)).collect();
                let b: Vec<(String, usize)> = b.into_iter().map(|s| (s.word, s.distance)).collect();
                assert_eq!(a, b);
            }
            _ => panic!("batch and single answers differ in kind"),
        }
    }
}

#[test]
fn query_that_only_lacks_characters_needs_a_shared_shorter_string() {
    // "ct" is "cat" without one character; with the bound 1 its own deletion
    // variants are "c" and "t", which "cat" does not have within one deletion.
    let corrector = SpellCorrector::new(words(&["cat", "dog"]), 1);
    assert_eq!(listed(corrector.suggest_single_word_corrections("ct", 3)), vec![]);
    // With the bound 2, "c" is shared.
    let wider = SpellCorrector::new(words(&["cat", "dog"]), 2);
    assert_eq!(
        listed(wider.suggest_single_word_corrections("ct", 3)),
        vec![("cat".to_string(), 1)]
    );
}

#[test]
fn batch_of_repeated_and_distinct_words() {
    let corrector = SpellCorrector::new(words(&["cat", "dog"]), 1);
    let answers = corrector.suggest_word_corrections(&words(&["ct", "ct", "dog"]), 3);
    assert_eq!(answers.len(), 3);
    assert_eq!(listed(answers[0].clone()), vec![]);
    assert_eq!(listed(answers[1].clone()), vec![]);
    assert!(matches!(answers[2], SuggestedCorrection::NoSuggestions));
    let wider = SpellCorrector::new(words(&["cat", "dog"]), 2);
    let answers = wider.suggest_word_corrections(&words(&["ct", "ct", "dog"]), 3);
    assert_eq!(listed(answers[0].clone()), vec![("cat".to_string(), 1)]);
    assert_eq!(listed(answers[1].clone()), vec![("cat".to_string(), 1)]);
    assert!(matches!(answers[2], SuggestedCorrection::NoSuggestions));
}

#[test]
fn cached_answers_serve_narrower_queries() {
    let corrector = SpellCorrector::new(words(&["spelling", "spilling", "selling", "smelling"]), 2);
    let wide = listed(corrector.suggest_single_word_corrections("speling", 4));
    assert_eq!(wide.len(), 4);
    for n in (0..4).rev() {
        assert_eq!(
            listed(corrector.suggest_single_word_corrections("speling", n)),
            wide[..n].to_vec()
        );
    }
    assert_eq!(listed(corrector.suggest_single_word_corrections("speling", 9)), wide);
}

#[test]
fn many_queries_outlive_the_cache() {
    let corrector = SpellCorrector::new(words(&["aaaa"]), 1);
    for i in 0..12000 {
        let query = format!("aaa{}", i);
        let found = listed(corrector.suggest_single_word_corrections(&query, 2));
        if i < 10 {
            assert_eq!(found, vec![("aaaa".to_string(), 1)]);
        } else {
            assert_eq!(found, vec![]);
        }
    }
    assert_eq!(
        listed(corrector.suggest_single_word_corrections("aaa0", 2)),
        vec![("aaaa".to_string(), 1)]
    );
}
