use wordle_solver::wordle::Match::{Gray, Green, Yellow};
use wordle_solver::wordle::{diff, InvalidInput, Match, Matches};

fn signal(word: &str, target: &str) -> Vec<Match> {
    diff(word, target).unwrap().0
}

#[test]
fn diff_one_yellow_letter() {
    assert_eq!(signal("сдоба", "ткань"), vec![Gray, Gray, Gray, Gray, Yellow]);
}

#[test]
fn diff_first_occurrence_is_yellow_second_is_gray() {
    assert_eq!(signal("канал", "ткань"), vec![Yellow, Yellow, Yellow, Gray, Gray]);
}

#[test]
fn diff_first_occurrence_is_green_second_is_gray() {
    assert_eq!(signal("коала", "ткань"), vec![Yellow, Gray, Green, Gray, Gray]);
}

#[test]
fn diff_first_occurrence_is_gray_second_is_green() {
    assert_eq!(signal("пиала", "пизда"), vec![Green, Green, Gray, Gray, Green]);
}

#[test]
fn diff_first_occurrence_is_yellow_second_is_green() {
    assert_eq!(signal("коала", "панда"), vec![Gray, Gray, Yellow, Gray, Green]);
}

#[test]
fn diff_first_occurrence_is_green_second_is_yellow() {
    assert_eq!(signal("шимми", "визит"), vec![Gray, Green, Gray, Gray, Yellow]);
}

#[test]
fn diff_all_greens() {
    let matches = diff("ткань", "ткань").unwrap();
    assert_eq!(matches.0, vec![Green, Green, Green, Green, Green]);
    assert!(matches.success());
}

#[test]
fn diff_of_a_word_with_itself_is_all_green() {
    for word in ["", "a", "aa", "abcabc", "ткань", "шимми"] {
        let matches = diff(word, word).unwrap();
        assert_eq!(matches.0.len(), word.chars().count());
        assert!(matches.0.iter().all(|m| *m == Green));
        assert!(matches.success());
    }
}

#[test]
fn diff_counts_letters_by_code_point() {
    // Two bytes per letter: a comparison by byte offset would misalign.
    assert_eq!(signal("яя", "яz"), vec![Green, Gray]);
    assert_eq!(signal("zя", "яz"), vec![Yellow, Yellow]);
}

#[test]
fn diff_rejects_words_of_different_lengths() {
    assert_eq!(diff("abc", "ab"), Err(InvalidInput { guess_len: 3, target_len: 2 }));
    assert_eq!(diff("ab", "abc"), Err(InvalidInput { guess_len: 2, target_len: 3 }));
    assert_eq!(diff("", "я"), Err(InvalidInput { guess_len: 0, target_len: 1 }));
}

#[test]
fn diff_does_not_match_a_consumed_letter_with_a_space() {
    // The exact match of 'a' is consumed; the space of the guess finds nothing.
    assert_eq!(signal("a ", "ab"), vec![Green, Gray]);
    assert_eq!(signal(" a", "a "), vec![Yellow, Yellow]);
}

#[test]
fn diff_settles_exact_matches_before_misplaced_ones() {
    // The only 'a' of the target belongs to the exact match at the end.
    assert_eq!(signal("aba", "cba"), vec![Gray, Green, Green]);
    assert_eq!(signal("aab", "aba"), vec![Green, Yellow, Yellow]);
    assert_eq!(signal("aaa", "aba"), vec![Green, Gray, Green]);
}

#[test]
fn diff_never_credits_a_letter_more_often_than_the_target_holds_it() {
    let words = ["aabbc", "abcab", "ccccc", "bacab", "aaaab", "babab", "cabba"];
    for guess in words {
        for target in words {
            let marks = signal(guess, target);
            for letter in ['a', 'b', 'c'] {
                let credited = guess
                    .chars()
                    .zip(marks.iter())
                    .filter(|(c, m)| *c == letter && **m != Gray)
                    .count();
                let held = target.chars().filter(|c| *c == letter).count();
                assert!(credited <= held);
            }
        }
    }
}

#[test]
fn success_needs_every_entry_green() {
    assert!(Matches(vec![]).success());
    assert!(Matches(vec![Green, Green]).success());
    assert!(!Matches(vec![Green, Yellow]).success());
    assert!(!Matches(vec![Gray, Green]).success());
    assert!(!Matches(vec![Green, Green, Gray]).success());
}
