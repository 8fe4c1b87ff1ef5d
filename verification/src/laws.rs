use crate::word::{count_below, lemma_count_two, occurrences};
use crate::score::words_of_len;
use crate::solver::{
    choice, having_len, lemma_best_below, next_guess, play, sound_game, survivors, word_scores,
    Solution,
};
use crate::wordle::{
    all_green, attempt_agrees, attempts_of_len, diff_spec, is_consistent, match_at,
    position_agrees, unplaced, Match,
};
use vstd::prelude::*;

verus! {

/// The number of positions below `n` at which `guess` holds the letter `c`
/// and the signal is `Green` or `Yellow`.
pub open spec fn credited(guess: Seq<char>, signal: Seq<Match>, c: char, n: int) -> nat
    decreases n,
{
    if n <= 0 {
        0
    } else {
        credited(guess, signal, c, n - 1) + if guess[n - 1] == c && signal[n - 1] != Match::Gray {
            1nat
        } else {
            0nat
        }
    }
}

/// The number of positions below `n` at which both words hold the letter `c`.
spec fn placed(a: Seq<char>, b: Seq<char>, c: char, n: int) -> nat
    decreases n,
{
    if n <= 0 {
        0
    } else {
        placed(a, b, c, n - 1) + if a[n - 1] == c && b[n - 1] == c {
            1nat
        } else {
            0nat
        }
    }
}

spec fn smaller(a: nat, b: nat) -> nat {
    if a < b {
        a
    } else {
        b
    }
}

/// Every occurrence of a letter is either matched exactly or unplaced.
proof fn lemma_count_splits(a: Seq<char>, b: Seq<char>, c: char, n: int)
    ensures
        count_below(a, c, n) == placed(b, a, c, n) + unplaced(a, b, c, n),
    decreases n,
{
    if n > 0 {
        lemma_count_splits(a, b, c, n - 1);
    }
}

/// Below `n`, a letter is credited for its exact matches and for as many of
/// its unplaced occurrences in the guess as the target has unplaced ones.
proof fn lemma_credited_splits(guess: Seq<char>, target: Seq<char>, c: char, n: int)
    requires
        guess.len() == target.len(),
        0 <= n <= guess.len(),
    ensures
        credited(guess, diff_spec(guess, target), c, n) == placed(guess, target, c, n) + smaller(
            unplaced(guess, target, c, n),
            unplaced(target, guess, c, target.len() as int),
        ),
    decreases n,
{
    if n > 0 {
        lemma_credited_splits(guess, target, c, n - 1);
        assert(diff_spec(guess, target)[n - 1] == match_at(guess, target, n - 1));
    }
}

/// An unplaced count above zero has a position that it counts.
proof fn lemma_unplaced_witness(a: Seq<char>, b: Seq<char>, c: char, n: int) -> (j: int)
    requires
        unplaced(a, b, c, n) > 0,
    ensures
        0 <= j < n,
        a[j] == c,
        b[j] != c,
    decreases n,
{
    if a[n - 1] == c && b[n - 1] != c {
        n - 1
    } else {
        lemma_unplaced_witness(a, b, c, n - 1)
    }
}

/// A position that holds `c` in `a` and another letter in `b` is counted.
proof fn lemma_unplaced_counts(a: Seq<char>, b: Seq<char>, c: char, n: int, j: int)
    requires
        0 <= j < n,
        a[j] == c,
        b[j] != c,
    ensures
        unplaced(a, b, c, n) >= 1,
    decreases n,
{
    if j < n - 1 {
        lemma_unplaced_counts(a, b, c, n - 1, j);
    }
}

/// Where `a` does not hold `c` below `n`, nothing of it is unplaced there.
proof fn lemma_unplaced_none(a: Seq<char>, b: Seq<char>, c: char, n: int)
    requires
        forall|k: int| 0 <= k < n ==> a[k] != c,
    ensures
        unplaced(a, b, c, n) == 0,
    decreases n,
{
    if n > 0 {
        lemma_unplaced_none(a, b, c, n - 1);
    }
}

/// A letter that occurs once in a word stands at one position only.
proof fn lemma_single_occurrence(word: Seq<char>, i: int)
    requires
        0 <= i < word.len(),
        occurrences(word, word[i]) == 1,
    ensures
        forall|k: int| 0 <= k < word.len() && k != i ==> word[k] != word[i],
{
    assert forall|k: int| 0 <= k < word.len() && k != i implies word[k] != word[i] by {
        if word[k] == word[i] {
            if k < i {
                lemma_count_two(word, word[i], word.len() as int, k, i);
            } else {
                lemma_count_two(word, word[i], word.len() as int, i, k);
            }
        }
    }
}

/// A word compared with itself matches exactly at every position.
pub proof fn lemma_diff_self(word: Seq<char>)
    ensures
        diff_spec(word, word).len() == word.len(),
        all_green(diff_spec(word, word)),
{
}

/// No letter is credited more often than the target holds it: the positions
/// of a guess that hold a letter and are marked `Green` or `Yellow` are at
/// most as many as the occurrences of that letter in the target.
pub proof fn lemma_no_letter_inflation(guess: Seq<char>, target: Seq<char>, c: char)
    requires
        guess.len() == target.len(),
    ensures
        credited(guess, diff_spec(guess, target), c, guess.len() as int) <= occurrences(target, c),
{
    lemma_credited_splits(guess, target, c, guess.len() as int);
    lemma_count_splits(target, guess, c, target.len() as int);
}

/// A word agrees with the signal that a guess gets against it.
pub proof fn lemma_own_signal_agrees(word: Seq<char>, guess: Seq<char>)
    requires
        guess.len() == word.len(),
    ensures
        attempt_agrees(word, guess, diff_spec(guess, word)),
{
    let signal = diff_spec(guess, word);
    let n = word.len() as int;
    assert forall|i: int| 0 <= i < signal.len() implies position_agrees(
        word,
        guess,
        signal,
        i,
    ) by {
        let c = guess[i];
        assert(signal[i] == match_at(guess, word, i));
        match signal[i] {
            Match::Green => {},
            Match::Yellow => {
                let j = lemma_unplaced_witness(word, guess, c, n);
                assert(word[j] == c);
            },
            Match::Gray => {
                if occurrences(guess, c) == 1 && word.contains(c) {
                    let j = choose|j: int| 0 <= j < word.len() && word[j] == c;
                    lemma_single_occurrence(guess, i);
                    lemma_unplaced_none(guess, word, c, i);
                    lemma_unplaced_counts(word, guess, c, n, j);
                }
            },
        }
    }
}

/// Filtering never removes the target: whatever words are guessed, the target
/// is consistent with the signals that they get against it.
pub proof fn lemma_target_survives(target: Seq<char>, guesses: Seq<Seq<char>>)
    requires
        forall|k: int| 0 <= k < guesses.len() ==> (#[trigger] guesses[k]).len() == target.len(),
    ensures
        is_consistent(
            target,
            Seq::new(guesses.len(), |k: int| (guesses[k], diff_spec(guesses[k], target))),
        ),
{
    let attempts = Seq::new(guesses.len(), |k: int| (guesses[k], diff_spec(guesses[k], target)));
    assert forall|k: int| 0 <= k < attempts.len() implies attempt_agrees(
        target,
        (#[trigger] attempts[k]).0,
        attempts[k].1,
    ) by {
        lemma_own_signal_agrees(target, guesses[k]);
    }
}

/// Whether every signal of `attempts` is the one that its guess gets against
/// `word`.
pub open spec fn recomputes(word: Seq<char>, attempts: Seq<(Seq<char>, Seq<Match>)>) -> bool {
    forall|k: int|
        0 <= k < attempts.len() ==> (#[trigger] attempts[k]).1 == diff_spec(attempts[k].0, word)
}

/// Whether each letter of a guess that its signal does not mark `Green`
/// occurs only once in that guess.
pub open spec fn unmatched_letters_single(attempts: Seq<(Seq<char>, Seq<Match>)>) -> bool {
    forall|k: int, i: int|
        0 <= k < attempts.len() && 0 <= i < attempts[k].1.len() && #[trigger] attempts[k].1[i]
            != Match::Green ==> occurrences(attempts[k].0, attempts[k].0[i]) == 1
}

/// Consistency is decided attempt by attempt: a word is consistent with the
/// attempts and one more exactly if it is consistent with the attempts and
/// agrees with the new one.
pub proof fn lemma_consistent_push(
    word: Seq<char>,
    attempts: Seq<(Seq<char>, Seq<Match>)>,
    guess: Seq<char>,
    signal: Seq<Match>,
)
    ensures
        is_consistent(word, attempts.push((guess, signal))) <==> is_consistent(word, attempts)
            && attempt_agrees(word, guess, signal),
{
    let longer = attempts.push((guess, signal));
    if is_consistent(word, longer) {
        assert forall|k: int| 0 <= k < attempts.len() implies attempt_agrees(
            word,
            (#[trigger] attempts[k]).0,
            attempts[k].1,
        ) by {
            assert(longer[k] == attempts[k]);
        }
        assert(longer[attempts.len() as int] == (guess, signal));
    }
    if is_consistent(word, attempts) && attempt_agrees(word, guess, signal) {
        assert forall|k: int| 0 <= k < longer.len() implies attempt_agrees(
            word,
            (#[trigger] longer[k]).0,
            longer[k].1,
        ) by {
            if k < attempts.len() {
                assert(longer[k] == attempts[k]);
            }
        }
    }
}

/// A word whose recomputed signals equal the recorded ones passes the filter.
pub proof fn lemma_recomputed_is_consistent(
    word: Seq<char>,
    attempts: Seq<(Seq<char>, Seq<Match>)>,
)
    requires
        attempts_of_len(attempts, word.len()),
        recomputes(word, attempts),
    ensures
        is_consistent(word, attempts),
{
    assert forall|k: int| 0 <= k < attempts.len() implies attempt_agrees(
        word,
        (#[trigger] attempts[k]).0,
        attempts[k].1,
    ) by {
        lemma_own_signal_agrees(word, attempts[k].0);
    }
}

/// A word that agrees with an attempt gets the attempt's signal, where every
/// letter that the signal does not mark `Green` occurs once in the guess.
proof fn lemma_agreeing_recomputes(word: Seq<char>, guess: Seq<char>, signal: Seq<Match>)
    requires
        guess.len() == word.len(),
        signal.len() == word.len(),
        attempt_agrees(word, guess, signal),
        forall|i: int|
            0 <= i < signal.len() && #[trigger] signal[i] != Match::Green ==> occurrences(
                guess,
                guess[i],
            ) == 1,
    ensures
        signal == diff_spec(guess, word),
{
    let n = word.len() as int;
    assert forall|i: int| 0 <= i < n implies signal[i] == match_at(guess, word, i) by {
        let c = guess[i];
        assert(position_agrees(word, guess, signal, i));
        match signal[i] {
            Match::Green => {},
            Match::Yellow => {
                let j = choose|j: int| 0 <= j < word.len() && word[j] == c;
                lemma_single_occurrence(guess, i);
                lemma_unplaced_none(guess, word, c, i);
                lemma_unplaced_counts(word, guess, c, n, j);
            },
            Match::Gray => {
                lemma_unplaced_none(word, guess, c, n);
            },
        }
    }
    assert(signal =~= diff_spec(guess, word));
}

/// Filtering by the recorded constraints keeps the words that recomputing
/// every signal would keep, where each letter of a guess that its signal does
/// not mark `Green` occurs once in that guess.
pub proof fn lemma_consistent_iff_recomputed(
    word: Seq<char>,
    attempts: Seq<(Seq<char>, Seq<Match>)>,
)
    requires
        attempts_of_len(attempts, word.len()),
        unmatched_letters_single(attempts),
    ensures
        is_consistent(word, attempts) <==> recomputes(word, attempts),
{
    if recomputes(word, attempts) {
        lemma_recomputed_is_consistent(word, attempts);
    }
    if is_consistent(word, attempts) {
        assert forall|k: int| 0 <= k < attempts.len() implies (#[trigger] attempts[k]).1
            == diff_spec(attempts[k].0, word) by {
            lemma_agreeing_recomputes(word, attempts[k].0, attempts[k].1);
        }
    }
}

/// A guess that matches the target exactly at every position is the target.
pub proof fn lemma_all_green_is_target(guess: Seq<char>, target: Seq<char>)
    requires
        guess.len() == target.len(),
        all_green(diff_spec(guess, target)),
    ensures
        guess == target,
{
    assert forall|i: int| 0 <= i < guess.len() implies guess[i] == target[i] by {
        assert(diff_spec(guess, target)[i] == match_at(guess, target, i));
    }
    assert(guess =~= target);
}

/// A wrong guess does not agree with its own signal, so filtering removes it.
pub proof fn lemma_wrong_guess_is_removed(guess: Seq<char>, target: Seq<char>)
    requires
        guess.len() == target.len(),
        !all_green(diff_spec(guess, target)),
    ensures
        !attempt_agrees(guess, guess, diff_spec(guess, target)),
{
    let signal = diff_spec(guess, target);
    let i = choose|i: int| 0 <= i < signal.len() && signal[i] != Match::Green;
    assert(!position_agrees(guess, guess, signal, i));
}

/// What filtering keeps: exactly the candidates that are consistent with the
/// attempts. The candidates never grow, and they shrink when one of them is
/// not consistent.
pub proof fn lemma_survivors(candidates: Seq<Seq<char>>, attempts: Seq<(Seq<char>, Seq<Match>)>)
    ensures
        survivors(candidates, attempts).len() <= candidates.len(),
        forall|w: Seq<char>| #[trigger]
            survivors(candidates, attempts).contains(w) <==> candidates.contains(w)
                && is_consistent(w, attempts),
        (exists|k: int|
            0 <= k < candidates.len() && !is_consistent(#[trigger] candidates[k], attempts))
            ==> survivors(candidates, attempts).len() < candidates.len(),
    decreases candidates.len(),
{
    reveal(Seq::filter);
    if candidates.len() > 0 {
        let rest = candidates.drop_last();
        let last = candidates.last();
        let kept = survivors(candidates, attempts);
        let kept_rest = survivors(rest, attempts);
        lemma_survivors(rest, attempts);
        assert(kept == if is_consistent(last, attempts) {
            kept_rest.push(last)
        } else {
            kept_rest
        });
        assert forall|w: Seq<char>| #[trigger]
            kept.contains(w) <==> candidates.contains(w) && is_consistent(w, attempts) by {
            if kept.contains(w) {
                let i = choose|i: int| 0 <= i < kept.len() && kept[i] == w;
                if i < kept_rest.len() {
                    assert(kept_rest[i] == w);
                    assert(kept_rest.contains(w));
                    let j = choose|j: int| 0 <= j < rest.len() && rest[j] == w;
                    assert(candidates[j] == w);
                } else {
                    assert(w == last);
                    assert(candidates[candidates.len() - 1] == w);
                }
            }
            if candidates.contains(w) && is_consistent(w, attempts) {
                let j = choose|j: int| 0 <= j < candidates.len() && candidates[j] == w;
                if j < rest.len() {
                    assert(rest[j] == w);
                    assert(rest.contains(w));
                    assert(kept_rest.contains(w));
                    let i = choose|i: int| 0 <= i < kept_rest.len() && kept_rest[i] == w;
                    assert(kept[i] == w);
                } else {
                    assert(kept[kept.len() - 1] == w);
                }
            }
        }
        if exists|k: int|
            0 <= k < candidates.len() && !is_consistent(#[trigger] candidates[k], attempts) {
            let k = choose|k: int|
                0 <= k < candidates.len() && !is_consistent(#[trigger] candidates[k], attempts);
            if k < rest.len() {
                assert(rest[k] == candidates[k]);
            }
        }
    }
}

/// What the choice by length keeps: exactly the words of `len` letters.
pub proof fn lemma_having_len(words: Seq<Seq<char>>, len: nat)
    ensures
        having_len(words, len).len() <= words.len(),
        forall|w: Seq<char>| #[trigger]
            having_len(words, len).contains(w) <==> words.contains(w) && w.len() == len,
    decreases words.len(),
{
    reveal(Seq::filter);
    if words.len() > 0 {
        let rest = words.drop_last();
        let last = words.last();
        let kept = having_len(words, len);
        let kept_rest = having_len(rest, len);
        lemma_having_len(rest, len);
        assert(kept == if last.len() == len {
            kept_rest.push(last)
        } else {
            kept_rest
        });
        assert forall|w: Seq<char>| #[trigger]
            kept.contains(w) <==> words.contains(w) && w.len() == len by {
            if kept.contains(w) {
                let i = choose|i: int| 0 <= i < kept.len() && kept[i] == w;
                if i < kept_rest.len() {
                    assert(kept_rest[i] == w);
                    assert(kept_rest.contains(w));
                    let j = choose|j: int| 0 <= j < rest.len() && rest[j] == w;
                    assert(words[j] == w);
                } else {
                    assert(w == last);
                    assert(words[words.len() - 1] == w);
                }
            }
            if words.contains(w) && w.len() == len {
                let j = choose|j: int| 0 <= j < words.len() && words[j] == w;
                if j < rest.len() {
                    assert(rest[j] == w);
                    assert(rest.contains(w));
                    assert(kept_rest.contains(w));
                    let i = choose|i: int| 0 <= i < kept_rest.len() && kept_rest[i] == w;
                    assert(kept[i] == w);
                } else {
                    assert(kept[kept.len() - 1] == w);
                }
            }
        }
    }
}

/// Whether a state of the game keeps the rules: the candidates, the guesses,
/// the signals and the opening word have the target's length.
pub open spec fn well_formed_game(
    target: Seq<char>,
    candidates: Seq<Seq<char>>,
    attempts: Seq<(Seq<char>, Seq<Match>)>,
    start: Option<Seq<char>>,
) -> bool {
    &&& words_of_len(candidates, target.len())
    &&& attempts_of_len(attempts, target.len())
    &&& start matches Some(word) ==> word.len() == target.len()
}

/// The next guess of a well-formed game with candidates has the target's
/// length; without an opening word on the first attempt, it is a candidate.
pub proof fn lemma_next_guess(
    target: Seq<char>,
    candidates: Seq<Seq<char>>,
    attempts: Seq<(Seq<char>, Seq<Match>)>,
    start: Option<Seq<char>>,
    preferred: Seq<Seq<char>>,
    prioritized: Seq<Seq<char>>,
)
    requires
        well_formed_game(target, candidates, attempts, start),
        candidates.len() > 0,
    ensures
        next_guess(candidates, attempts, start, preferred, prioritized).len() == target.len(),
        attempts.len() > 0 || start is None ==> candidates.contains(
            next_guess(candidates, attempts, start, preferred, prioritized),
        ),
{
    lemma_best_below(word_scores(candidates, preferred, prioritized), candidates.len() as int);
    let k = choice(candidates, preferred, prioritized);
    assert(candidates[k].len() == target.len());
}

/// A game only adds attempts, each with the signal of its guess against the
/// target, and never more than the limit allows. It ends in success exactly
/// when its last guess is the target, and then reports the number of its
/// attempts.
pub proof fn lemma_play_attempts(
    target: Seq<char>,
    candidates: Seq<Seq<char>>,
    attempts: Seq<(Seq<char>, Seq<Match>)>,
    limit: nat,
    start: Option<Seq<char>>,
    preferred: Seq<Seq<char>>,
    prioritized: Seq<Seq<char>>,
)
    requires
        well_formed_game(target, candidates, attempts, start),
        attempts.len() <= limit <= usize::MAX,
    ensures
        ({
            let (outcome, all) = play(
                target,
                candidates,
                attempts,
                limit,
                start,
                preferred,
                prioritized,
            );
            &&& attempts.len() <= all.len() <= limit
            &&& all.take(attempts.len() as int) == attempts
            &&& attempts_of_len(all, target.len())
            &&& forall|k: int|
                attempts.len() <= k < all.len() ==> (#[trigger] all[k]).1 == diff_spec(
                    all[k].0,
                    target,
                )
            &&& forall|k: int|
                attempts.len() <= k < all.len() - 1 ==> (#[trigger] all[k]).0 != target
            &&& match outcome {
                Solution::Success(count) => {
                    &&& count == all.len()
                    &&& all.len() > attempts.len()
                    &&& all.last().0 == target
                },
                Solution::Failure => all.len() > attempts.len() ==> all.last().0 != target,
            }
        }),
    decreases limit - attempts.len(),
{
    let (outcome, all) = play(target, candidates, attempts, limit, start, preferred, prioritized);
    if candidates.len() == 0 || attempts.len() >= limit {
        assert(all.take(attempts.len() as int) == attempts);
    } else {
        let guess = next_guess(candidates, attempts, start, preferred, prioritized);
        let signal = diff_spec(guess, target);
        let longer = attempts.push((guess, signal));
        lemma_next_guess(target, candidates, attempts, start, preferred, prioritized);
        assert(longer.take(attempts.len() as int) == attempts);
        if all_green(signal) {
            lemma_all_green_is_target(guess, target);
        } else {
            let kept = survivors(candidates, longer);
            lemma_survivors(candidates, longer);
            assert forall|k: int| 0 <= k < kept.len() implies (#[trigger] kept[k]).len()
                == target.len() by {
                assert(kept.contains(kept[k]));
                let j = choose|j: int| 0 <= j < candidates.len() && candidates[j] == kept[k];
            }
            lemma_play_attempts(target, kept, longer, limit, start, preferred, prioritized);
            assert(all.take(attempts.len() as int) == all.take(longer.len() as int).take(
                attempts.len() as int,
            ));
            assert(all[attempts.len() as int] == longer[attempts.len() as int]);
            if guess == target {
                lemma_diff_self(target);
            }
        }
    }
}

/// A whole game is sound: it keeps within the limit, every attempt carries
/// the signal of its guess against the target, and the game is won exactly by
/// guessing the target, which ends it.
pub proof fn lemma_game_is_sound(
    target: Seq<char>,
    candidates: Seq<Seq<char>>,
    limit: nat,
    start: Option<Seq<char>>,
    preferred: Seq<Seq<char>>,
    prioritized: Seq<Seq<char>>,
)
    requires
        words_of_len(candidates, target.len()),
        start matches Some(word) ==> word.len() == target.len(),
        limit <= usize::MAX,
    ensures
        sound_game(
            target,
            limit,
            play(target, candidates, Seq::empty(), limit, start, preferred, prioritized).0,
            play(target, candidates, Seq::empty(), limit, start, preferred, prioritized).1,
        ),
{
    lemma_play_attempts(target, candidates, Seq::empty(), limit, start, preferred, prioritized);
}

/// Filtering never removes the target during a game: where the target is a
/// candidate and consistent with the attempts so far, the game fails only by
/// using up its attempts, never for want of a candidate.
pub proof fn lemma_target_stays_candidate(
    target: Seq<char>,
    candidates: Seq<Seq<char>>,
    attempts: Seq<(Seq<char>, Seq<Match>)>,
    limit: nat,
    start: Option<Seq<char>>,
    preferred: Seq<Seq<char>>,
    prioritized: Seq<Seq<char>>,
)
    requires
        well_formed_game(target, candidates, attempts, start),
        candidates.contains(target),
        is_consistent(target, attempts),
    ensures
        play(target, candidates, attempts, limit, start, preferred, prioritized).0
            == Solution::Failure ==> play(
            target,
            candidates,
            attempts,
            limit,
            start,
            preferred,
            prioritized,
        ).1.len() >= limit,
    decreases limit - attempts.len(),
{
    if attempts.len() < limit {
        let guess = next_guess(candidates, attempts, start, preferred, prioritized);
        let signal = diff_spec(guess, target);
        let longer = attempts.push((guess, signal));
        lemma_next_guess(target, candidates, attempts, start, preferred, prioritized);
        if !all_green(signal) {
            let kept = survivors(candidates, longer);
            lemma_survivors(candidates, longer);
            lemma_own_signal_agrees(target, guess);
            lemma_consistent_push(target, attempts, guess, signal);
            assert(kept.contains(target));
            assert forall|k: int| 0 <= k < kept.len() implies (#[trigger] kept[k]).len()
                == target.len() by {
                assert(kept.contains(kept[k]));
                let j = choose|j: int| 0 <= j < candidates.len() && candidates[j] == kept[k];
            }
            lemma_target_stays_candidate(
                target,
                kept,
                longer,
                limit,
                start,
                preferred,
                prioritized,
            );
        }
    }
}

/// The attempts that a game may need beyond those made: one for each
/// candidate, and one more for an opening word that is still to be played.
pub open spec fn attempts_needed(
    candidates: Seq<Seq<char>>,
    attempts: Seq<(Seq<char>, Seq<Match>)>,
    start: Option<Seq<char>>,
) -> nat {
    candidates.len() + if attempts.len() == 0 && start is Some {
        1nat
    } else {
        0nat
    }
}

/// A game whose target is among the candidates succeeds when the limit
/// leaves it one attempt for each candidate: every wrong guess taken from the
/// candidates leaves fewer of them, and the target stays.
pub proof fn lemma_game_succeeds(
    target: Seq<char>,
    candidates: Seq<Seq<char>>,
    attempts: Seq<(Seq<char>, Seq<Match>)>,
    limit: nat,
    start: Option<Seq<char>>,
    preferred: Seq<Seq<char>>,
    prioritized: Seq<Seq<char>>,
)
    requires
        well_formed_game(target, candidates, attempts, start),
        candidates.contains(target),
        is_consistent(target, attempts),
        attempts.len() + attempts_needed(candidates, attempts, start) <= limit,
    ensures
        play(target, candidates, attempts, limit, start, preferred, prioritized).0
            != Solution::Failure,
    decreases limit - attempts.len(),
{
    let guess = next_guess(candidates, attempts, start, preferred, prioritized);
    let signal = diff_spec(guess, target);
    let longer = attempts.push((guess, signal));
    lemma_next_guess(target, candidates, attempts, start, preferred, prioritized);
    if !all_green(signal) {
        let kept = survivors(candidates, longer);
        lemma_survivors(candidates, longer);
        lemma_own_signal_agrees(target, guess);
        lemma_consistent_push(target, attempts, guess, signal);
        assert(kept.contains(target));
        assert forall|k: int| 0 <= k < kept.len() implies (#[trigger] kept[k]).len()
            == target.len() by {
            assert(kept.contains(kept[k]));
            let j = choose|j: int| 0 <= j < candidates.len() && candidates[j] == kept[k];
        }
        if attempts.len() > 0 || start is None {
            let k = choice(candidates, preferred, prioritized);
            lemma_best_below(
                word_scores(candidates, preferred, prioritized),
                candidates.len() as int,
            );
            lemma_wrong_guess_is_removed(guess, target);
            lemma_consistent_push(guess, attempts, guess, signal);
            assert(!is_consistent(candidates[k], longer));
        }
        lemma_game_succeeds(target, kept, longer, limit, start, preferred, prioritized);
    }
}

} // verus!
