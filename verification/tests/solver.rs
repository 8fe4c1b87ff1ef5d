use wordle_solver::score::{decode_all, Frequencies};
use wordle_solver::solver::{select_next_word, solve, Solution, MAX_ATTEMPTS};
use wordle_solver::wordle::Match::{Gray, Green, Yellow};
use wordle_solver::wordle::{diff, filter_word, Matches};

const WORDS: [&str; 10] = [
    "сдоба", "канал", "коала", "пиала", "панда", "шимми", "визит", "ткань", "тоска", "мама",
];

fn scores(words: &[&str], preferred: &[&str], prioritized: &[&str]) -> Vec<usize> {
    let letters = decode_all(words);
    let len = letters[0].len();
    let tables = Frequencies::of(&letters, len);
    let preferred = decode_all(preferred);
    let prioritized = decode_all(prioritized);
    (0..words.len()).map(|k| tables.score(&letters, k, len, &preferred, &prioritized)).collect()
}

#[test]
fn score_adds_overall_and_positional_frequency() {
    // a: 2 overall, 2 at the start; b: 3 overall, 1 at the start, 2 at the end;
    // c: 1 overall, 1 at the end
    assert_eq!(scores(&["ab", "ac", "bb"], &[], &[]), vec![9, 6, 4]);
}

#[test]
fn score_divides_by_the_repeats_within_the_word() {
    // "bb": (3 + 1) / 2 + (3 + 2) / 2, each quotient rounded down
    assert_eq!(scores(&["ab", "ac", "bb"], &[], &[])[2], 4);
    // "aa" alone: (2 + 1) / 2 twice
    assert_eq!(scores(&["aa"], &[], &[]), vec![2]);
}

#[test]
fn score_is_multiplied_for_listed_words() {
    assert_eq!(scores(&["ab", "ac", "bb"], &["bb"], &[]), vec![9, 6, 20]);
    assert_eq!(scores(&["ab", "ac", "bb"], &[], &["ac"]), vec![9, 60, 4]);
    assert_eq!(scores(&["ab", "ac", "bb"], &["ac", "ab"], &["ac"]), vec![45, 300, 4]);
}

#[test]
fn score_counts_letters_of_a_multi_byte_alphabet() {
    assert_eq!(scores(&["яю", "яя"], &[], &[]), vec![7, 4]);
}

#[test]
fn select_takes_the_highest_score() {
    assert_eq!(select_next_word(&["ab", "ac", "bb"], &[], &[]), "ab");
    assert_eq!(select_next_word(&["bb", "ac", "ab"], &[], &[]), "ab");
    assert_eq!(select_next_word(&["ab", "ac", "bb"], &["bb"], &[]), "bb");
    assert_eq!(select_next_word(&["ab", "ac", "bb"], &[], &["ac"]), "ac");
}

#[test]
fn select_takes_the_last_of_equal_scores() {
    assert_eq!(scores(&["ab", "ba"], &[], &[]), vec![6, 6]);
    assert_eq!(select_next_word(&["ab", "ba"], &[], &[]), "ba");
    assert_eq!(select_next_word(&["ba", "ab"], &[], &[]), "ab");
    assert_eq!(select_next_word(&["ab", "cd", "ba", "dc"], &[], &[]), "dc");
}

#[test]
fn select_of_a_single_candidate() {
    assert_eq!(select_next_word(&["ткань"], &[], &[]), "ткань");
    assert_eq!(select_next_word(&[""], &[], &[]), "");
}

#[test]
fn select_among_real_words() {
    assert_eq!(select_next_word(&WORDS[..9], &[], &[]), "тоска");
}

#[test]
fn solve_finds_the_target() {
    let (solution, attempts) = solve("ткань", &WORDS, MAX_ATTEMPTS, None, &[], &[]);
    assert_eq!(solution, Solution::Success(2));
    assert_eq!(
        attempts,
        vec![
            ("тоска", Matches(vec![Green, Gray, Gray, Yellow, Yellow])),
            ("ткань", Matches(vec![Green, Green, Green, Green, Green])),
        ]
    );
}

#[test]
fn solve_opens_with_the_start_word() {
    let (solution, attempts) = solve("ткань", &WORDS, MAX_ATTEMPTS, Some("сдоба"), &[], &[]);
    assert_eq!(solution, Solution::Success(2));
    assert_eq!(
        attempts,
        vec![
            ("сдоба", Matches(vec![Gray, Gray, Gray, Gray, Yellow])),
            ("ткань", Matches(vec![Green, Green, Green, Green, Green])),
        ]
    );
}

#[test]
fn solve_may_open_with_a_word_outside_the_dictionary() {
    let (solution, attempts) = solve("ткань", &WORDS, MAX_ATTEMPTS, Some("книга"), &[], &[]);
    assert_eq!(attempts[0].0, "книга");
    assert_eq!(attempts[0].1, diff("книга", "ткань").unwrap());
    assert_eq!(solution, Solution::Success(attempts.len()));
    assert_eq!(attempts.last().unwrap().0, "ткань");
}

#[test]
fn solve_wins_at_once_with_the_target_as_start_word() {
    let (solution, attempts) = solve("ткань", &WORDS, 1, Some("ткань"), &[], &[]);
    assert_eq!(solution, Solution::Success(1));
    assert_eq!(attempts.len(), 1);
    assert!(attempts[0].1.success());
}

#[test]
fn solve_fails_when_the_attempts_run_out() {
    let (solution, attempts) = solve("ткань", &WORDS, 1, Some("сдоба"), &[], &[]);
    assert_eq!(solution, Solution::Failure);
    assert_eq!(attempts, vec![("сдоба", Matches(vec![Gray, Gray, Gray, Gray, Yellow]))]);
}

#[test]
fn solve_fails_when_no_candidate_is_left() {
    // The target is not in the dictionary: the candidates run out before
    // the attempts do.
    let (solution, attempts) = solve("книга", &WORDS, MAX_ATTEMPTS, None, &[], &[]);
    assert_eq!(solution, Solution::Failure);
    assert_eq!(attempts, vec![("тоска", Matches(vec![Gray, Gray, Gray, Yellow, Green]))]);
    assert!(attempts.len() < MAX_ATTEMPTS);
}

#[test]
fn solve_fails_without_an_attempt_on_an_empty_dictionary() {
    let (solution, attempts) = solve("ткань", &[], MAX_ATTEMPTS, None, &[], &[]);
    assert_eq!(solution, Solution::Failure);
    assert!(attempts.is_empty());
    // no word of the target's length
    let (solution, attempts) = solve("ткань", &["мама", "папа"], MAX_ATTEMPTS, None, &[], &[]);
    assert_eq!(solution, Solution::Failure);
    assert!(attempts.is_empty());
}

#[test]
fn solve_leaves_out_words_of_another_length() {
    let (solution, attempts) = solve("мама", &WORDS, MAX_ATTEMPTS, None, &[], &[]);
    assert_eq!(solution, Solution::Success(1));
    assert_eq!(attempts, vec![("мама", Matches(vec![Green, Green, Green, Green]))]);
}

#[test]
fn solve_measures_length_in_letters() {
    // "abcdefgh" has the bytes of "мама", not its letters.
    let (solution, attempts) = solve("мама", &["abcdefgh", "мама"], 3, None, &[], &[]);
    assert_eq!(solution, Solution::Success(1));
    assert_eq!(attempts.len(), 1);
}

#[test]
fn solve_follows_the_listed_words() {
    let (_, attempts) = solve("ткань", &WORDS, MAX_ATTEMPTS, None, &[], &["визит"]);
    assert_eq!(attempts[0].0, "визит");
    let (_, attempts) = solve("ткань", &WORDS, MAX_ATTEMPTS, None, &["шимми"], &[]);
    assert_eq!(attempts[0].0, "шимми");
}

#[test]
fn solve_every_target_of_the_dictionary() {
    let words = &WORDS[..9];
    for target in words {
        let (solution, attempts) = solve(target, words, words.len(), None, &[], &[]);
        assert_eq!(solution, Solution::Success(attempts.len()));
        assert!(attempts.len() <= words.len());
        let mut candidates: Vec<&str> = words.to_vec();
        for (n, (guess, signal)) in attempts.iter().enumerate() {
            // every guess is a candidate, and its signal is the target's
            assert!(candidates.contains(guess));
            assert_eq!(*signal, diff(guess, target).unwrap());
            assert_eq!(signal.success(), n + 1 == attempts.len());
            // the candidates shrink and keep the target
            let seen = attempts[..=n].to_vec();
            let kept: Vec<&str> =
                candidates.iter().copied().filter(|w| filter_word(w, &seen)).collect();
            assert!(kept.len() < candidates.len() || signal.success());
            assert!(kept.contains(target));
            candidates = kept;
        }
        assert_eq!(attempts.last().unwrap().0, *target);
    }
}

#[test]
fn solve_is_repeatable() {
    let first = solve("панда", &WORDS, MAX_ATTEMPTS, Some("тоска"), &["коала"], &["визит"]);
    let second = solve("панда", &WORDS, MAX_ATTEMPTS, Some("тоска"), &["коала"], &["визит"]);
    assert_eq!(first, second);
}
