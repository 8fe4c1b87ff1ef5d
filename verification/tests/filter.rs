use wordle_solver::wordle::Match::{Gray, Green, Yellow};
use wordle_solver::wordle::{diff, filter_word, Match, Matches};

fn attempt(guess: &'static str, marks: Vec<Match>) -> (&'static str, Matches) {
    (guess, Matches(marks))
}

#[test]
fn filter_keeps_every_word_without_attempts() {
    assert!(filter_word("ткань", &vec![]));
    assert!(filter_word("", &vec![]));
}

#[test]
fn filter_green_fixes_the_letter() {
    let attempts = vec![attempt("abc", vec![Green, Gray, Gray])];
    assert!(filter_word("axy", &attempts));
    assert!(!filter_word("xay", &attempts));
}

#[test]
fn filter_yellow_wants_the_letter_elsewhere() {
    let attempts = vec![attempt("abc", vec![Yellow, Gray, Gray])];
    assert!(filter_word("xay", &attempts));
    assert!(filter_word("xxa", &attempts));
    // not at the same position
    assert!(!filter_word("axy", &attempts));
    // not without the letter
    assert!(!filter_word("xyz", &attempts));
}

#[test]
fn filter_gray_forbids_a_letter_that_the_guess_holds_once() {
    let attempts = vec![attempt("abc", vec![Gray, Gray, Gray])];
    assert!(filter_word("xyz", &attempts));
    assert!(!filter_word("xya", &attempts));
    assert!(!filter_word("ayz", &attempts));
    assert!(!filter_word("xcz", &attempts));
}

#[test]
fn filter_gray_of_a_repeated_letter_forbids_only_the_position() {
    let attempts = vec![attempt("aab", vec![Gray, Gray, Gray])];
    // 'a' is repeated in the guess: it may still stand elsewhere
    assert!(filter_word("cca", &attempts));
    assert!(!filter_word("acc", &attempts));
    assert!(!filter_word("cac", &attempts));
    // 'b' is not repeated: it may stand nowhere
    assert!(!filter_word("bcc", &attempts));
}

#[test]
fn filter_checks_every_attempt() {
    let attempts = vec![
        attempt("abc", vec![Green, Gray, Gray]),
        attempt("axy", vec![Green, Yellow, Gray]),
    ];
    assert!(filter_word("azx", &attempts));
    // fails the first attempt only
    assert!(!filter_word("bzx", &attempts));
    // fails the second attempt only
    assert!(!filter_word("azz", &attempts));
}

#[test]
fn filter_never_removes_the_target() {
    let words = ["сдоба", "канал", "коала", "пиала", "панда", "шимми", "визит", "ткань", "тоска"];
    for target in words {
        let attempts: Vec<(&str, Matches)> =
            words.iter().map(|g| (*g, diff(g, target).unwrap())).collect();
        assert!(filter_word(target, &attempts));
    }
}

#[test]
fn filter_never_removes_a_target_with_repeated_letters() {
    let words = ["aabbc", "abcab", "ccccc", "bacab", "aaaab", "babab", "cabba", "abcde"];
    for target in words {
        let attempts: Vec<(&str, Matches)> =
            words.iter().map(|g| (*g, diff(g, target).unwrap())).collect();
        assert!(filter_word(target, &attempts));
    }
}

#[test]
fn filter_agrees_with_recomputing_for_guesses_without_repeated_letters() {
    let guesses = ["abcde", "edcba", "bdace", "fghij", "afbgc"];
    let words = ["abcde", "aabbc", "fghij", "edcba", "ccccc", "jihgf", "abcab", "bdace"];
    for target in words {
        let attempts: Vec<(&str, Matches)> =
            guesses.iter().map(|g| (*g, diff(g, target).unwrap())).collect();
        for word in words {
            let recomputed = attempts.iter().all(|(g, m)| diff(g, word).unwrap() == *m);
            assert_eq!(filter_word(word, &attempts), recomputed);
        }
    }
}

#[test]
fn filter_keeps_more_than_recomputing_where_a_guess_repeats_a_letter() {
    let attempts = vec![attempt("aab", vec![Gray, Gray, Gray])];
    assert!(filter_word("cca", &attempts));
    assert_eq!(diff("aab", "cca").unwrap().0, vec![Yellow, Gray, Gray]);
}

#[test]
fn filter_after_a_real_guess() {
    let attempts = vec![("тоска", diff("тоска", "ткань").unwrap())];
    assert!(filter_word("ткань", &attempts));
    assert!(!filter_word("тоска", &attempts));
    assert!(!filter_word("канал", &attempts));
    assert!(!filter_word("панда", &attempts));
}
