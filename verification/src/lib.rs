//! A word-guessing game engine.
//!
//! * `wordle` compares a guess with the hidden target, letter by letter, and
//!   decides whether a word still agrees with the signals received so far.
//! * `score` ranks the remaining candidates by the frequency of their letters.
//! * `solver` picks the next guess and plays a whole game.
//! * `text` renders signals and outcomes.
//! * `laws` proves what holds of all of them: a letter is never credited more
//!   often than the target holds it, filtering never removes the target, and
//!   a game whose target is in the dictionary succeeds when it has an attempt
//!   for every candidate.

pub mod laws;
pub mod score;
pub mod solver;
pub mod text;
pub mod word;
pub mod wordle;
