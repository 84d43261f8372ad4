use spellcheck::state::{CorrectorState, ImportError};
use spellcheck::{SpellCorrector, SuggestedCorrection};

fn strings(list: &[&str]) -> Vec<String> {
    list.iter().map(|s| s.to_string()).collect()
}

fn answers(corrector: &SpellCorrector, word: &str, n: usize) -> Option<Vec<(String, usize)>> {
    match corrector.suggest_single_word_corrections(word, n) {
        SuggestedCorrection::NoSuggestions => None,
        SuggestedCorrection::Suggestions(list) => {
            Some(list.into_iter().map(|s| (s.word, s.distance)).collect())
        }
    }
}

fn error_of(state: CorrectorState) -> ImportError {
    match SpellCorrector::from_state(state) {
        Ok(_) => panic!("the state was taken"),
        Err(e) => e,
    }
}

#[test]
fn exported_state_holds_words_index_and_bound() {
    let corrector = SpellCorrector::new(strings(&["ab", "b", "ab"]), 1);
    let state = corrector.export_state();
    assert_eq!(state.dictionary, strings(&["ab", "b"]));
    assert_eq!(state.max_edit_distance, 1);
    let mut mappings = state.dictionary_del_mappings;
    mappings.sort();
    assert_eq!(
        mappings,
        vec![
            ("".to_string(), vec![1]),
            ("a".to_string(), vec![0]),
            ("ab".to_string(), vec![0]),
            ("b".to_string(), vec![0, 1]),
        ]
    );
}

#[test]
fn imported_corrector_answers_like_the_exported_one() {
    let mut built = SpellCorrector::new(strings(&["spelling", "spilling", "selling", "cat"]), 2);
    built.add_word_to_dictionary("smelling");
    let imported = match SpellCorrector::from_state(built.export_state()) {
        Ok(c) => c,
        Err(_) => panic!("the exported state was refused"),
    };
    assert_eq!(imported.word_count(), 5);
    assert_eq!(imported.max_edit_distance(), 2);
    for word in ["speling", "cat", "ct", "smeling", "", "zebra", "selling"] {
        for n in 0..5 {
            assert_eq!(answers(&imported, word, n), answers(&built, word, n));
        }
    }
}

#[test]
fn imported_corrector_takes_the_entries_in_any_order() {
    let fresh = SpellCorrector::new(strings(&["cat", "cot"]), 1);
    let mut state = fresh.export_state();
    state.dictionary_del_mappings.reverse();
    let imported = match SpellCorrector::from_state(state) {
        Ok(c) => c,
        Err(_) => panic!("the state was refused"),
    };
    for word in ["cart", "cut", "cat", "ct"] {
        assert_eq!(answers(&imported, word, 3), answers(&fresh, word, 3));
    }
}

#[test]
fn empty_state_is_an_empty_corrector() {
    let state = CorrectorState {
        dictionary: Vec::new(),
        dictionary_del_mappings: Vec::new(),
        max_edit_distance: 2,
    };
    let imported = match SpellCorrector::from_state(state) {
        Ok(c) => c,
        Err(_) => panic!("the state was refused"),
    };
    assert_eq!(imported.word_count(), 0);
    assert_eq!(answers(&imported, "cat", 3), Some(vec![]));
}

#[test]
fn repeated_word_is_refused() {
    let state = CorrectorState {
        dictionary: strings(&["cat", "dog", "cat"]),
        dictionary_del_mappings: vec![("cat".to_string(), vec![0])],
        max_edit_distance: 1,
    };
    assert_eq!(error_of(state), ImportError::DuplicateWord);
}

#[test]
fn bucket_that_names_a_missing_word_is_refused() {
    let state = CorrectorState {
        dictionary: strings(&["cat", "dog"]),
        dictionary_del_mappings: vec![("cat".to_string(), vec![0]), ("dog".to_string(), vec![1, 2])],
        max_edit_distance: 1,
    };
    assert_eq!(error_of(state), ImportError::WordOutOfRange);
}

#[test]
fn repeated_variant_is_refused() {
    let state = CorrectorState {
        dictionary: strings(&["cat", "dog"]),
        dictionary_del_mappings: vec![
            ("at".to_string(), vec![0]),
            ("og".to_string(), vec![1]),
            ("at".to_string(), vec![0]),
        ],
        max_edit_distance: 1,
    };
    assert_eq!(error_of(state), ImportError::DuplicateVariant);
}

#[test]
fn the_first_fault_in_the_order_of_the_checks_is_reported() {
    let all_three = CorrectorState {
        dictionary: strings(&["cat", "cat"]),
        dictionary_del_mappings: vec![("at".to_string(), vec![7]), ("at".to_string(), vec![0])],
        max_edit_distance: 1,
    };
    assert_eq!(error_of(all_three), ImportError::DuplicateWord);
    let last_two = CorrectorState {
        dictionary: strings(&["cat"]),
        dictionary_del_mappings: vec![("at".to_string(), vec![0]), ("at".to_string(), vec![7])],
        max_edit_distance: 1,
    };
    assert_eq!(error_of(last_two), ImportError::WordOutOfRange);
}

#[test]
fn getters_report_the_vocabulary() {
    let mut corrector = SpellCorrector::new(strings(&["cat", "dog", "cat"]), 3);
    assert_eq!(corrector.word_count(), 2);
    assert_eq!(corrector.max_edit_distance(), 3);
    assert!(corrector.contains("dog"));
    assert!(!corrector.contains("bird"));
    corrector.add_word_to_dictionary("bird");
    corrector.add_word_to_dictionary("dog");
    assert_eq!(corrector.word_count(), 3);
    assert!(corrector.contains("bird"));
}
