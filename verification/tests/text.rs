use wordle_solver::solver::Solution;
use wordle_solver::text::decimal;
use wordle_solver::wordle::Match::{Gray, Green, Yellow};
use wordle_solver::wordle::{diff, Matches};

#[test]
fn match_symbols() {
    assert_eq!(Green.symbol(), "🟩");
    assert_eq!(Yellow.symbol(), "🟨");
    assert_eq!(Gray.symbol(), "⬛");
}

#[test]
fn matches_text_is_a_row_of_squares() {
    assert_eq!(Matches(vec![]).to_text(), "");
    assert_eq!(Matches(vec![Yellow, Gray, Green, Gray, Gray]).to_text(), "🟨⬛🟩⬛⬛");
    assert_eq!(diff("канал", "ткань").unwrap().to_text(), "🟨🟨🟨⬛⬛");
}

#[test]
fn solution_text_names_the_attempts() {
    assert_eq!(Solution::Success(1).to_text(), "Wordle 1/6");
    assert_eq!(Solution::Success(6).to_text(), "Wordle 6/6");
    assert_eq!(Solution::Success(12).to_text(), "Wordle 12/6");
    assert_eq!(Solution::Failure.to_text(), "Wordle x/6");
}

#[test]
fn decimal_digits() {
    assert_eq!(decimal(0), "0");
    assert_eq!(decimal(7), "7");
    assert_eq!(decimal(10), "10");
    assert_eq!(decimal(1234567890), "1234567890");
    assert_eq!(decimal(usize::MAX), usize::MAX.to_string());
}

#[test]
fn matches_at_and_clone() {
    let matches = Matches(vec![Yellow, Gray, Green]);
    assert_eq!(matches.at(0), Yellow);
    assert_eq!(matches.at(2), Green);
    assert_eq!(matches.clone(), matches);
}
