use spellcheck::wordlist::{split_lines, words_of_list};
use spellcheck::{SpellCorrector, SuggestedCorrection};

#[test]
fn lines_end_at_line_feeds() {
    assert_eq!(split_lines("cat\ndog\nbird"), vec!["cat", "dog", "bird"]);
    assert_eq!(split_lines("cat\ndog\n"), vec!["cat", "dog"]);
    assert_eq!(split_lines("cat\n\ndog"), vec!["cat", "", "dog"]);
    assert_eq!(split_lines("\n"), vec![""]);
    assert_eq!(split_lines(""), Vec::<String>::new());
}

#[test]
fn carriage_return_before_a_line_feed_is_dropped() {
    assert_eq!(split_lines("cat\r\ndog\r\n"), vec!["cat", "dog"]);
    assert_eq!(split_lines("cat\r\r\ndog"), vec!["cat\r", "dog"]);
    assert_eq!(split_lines("cat\rdog\nbird\r"), vec!["cat\rdog", "bird\r"]);
    assert_eq!(split_lines("\r\n"), vec![""]);
}

#[test]
fn lines_agree_with_the_standard_library() {
    for text in ["", "a", "a\n", "a\r\n", "\r", "a\n\nb", "a\r\nb\r", "é\nü\r\n\n", "\n\n\n"] {
        let expected: Vec<String> = text.lines().map(|l| l.to_string()).collect();
        assert_eq!(split_lines(text), expected);
    }
}

#[test]
fn listed_words_are_taken_in_lower_case() {
    assert_eq!(words_of_list("Cat\nDOG\r\nbird\n"), vec!["cat", "dog", "bird"]);
    assert_eq!(words_of_list("ÉCOLE"), vec!["école"]);
}

#[test]
fn corrector_from_a_word_list() {
    let corrector = SpellCorrector::from_word_list("Spelling\nCORRECTED\nspelling\n", 2);
    assert_eq!(corrector.word_count(), 2);
    assert!(matches!(
        corrector.suggest_single_word_corrections("corrected", 2),
        SuggestedCorrection::NoSuggestions
    ));
    match corrector.suggest_single_word_corrections("speling", 2) {
        SuggestedCorrection::Suggestions(list) => {
            assert_eq!(list.len(), 1);
            assert_eq!(list[0].word, "spelling");
            assert_eq!(list[0].distance, 1);
        }
        SuggestedCorrection::NoSuggestions => panic!("expected suggestions"),
    }
}
