use crate::laws::{lemma_game_is_sound, lemma_having_len, lemma_target_stays_candidate};
use crate::score::{
    decode_all, letters_view, score, score_limit, words_of_len, words_view, Frequencies,
};
use crate::word::to_chars;
use crate::wordle::{
    all_green, attempts_of_len, attempts_view, diff_spec, filter_word, is_consistent,
    match_letters, Match, Matches,
};
use vstd::prelude::*;

verus! {

/// The usual number of guesses that a game allows.
pub const MAX_ATTEMPTS: usize = 6;

/// How a game ended.
#[derive(Debug, Copy, Clone, PartialEq, Eq, Structural)]
pub enum Solution {
    /// The target was guessed, with this many attempts.
    Success(usize),
    /// The attempts ran out, or no candidate was left.
    Failure,
}

/// A guess and the signal that it got.
pub type Attempt = (&'static str, Matches);

/// The attempts of a game, in the order in which they were made.
pub type Attempts = Vec<Attempt>;

/// The score of every candidate, in the candidates' order.
pub open spec fn word_scores(
    words: Seq<Seq<char>>,
    preferred: Seq<Seq<char>>,
    prioritized: Seq<Seq<char>>,
) -> Seq<nat> {
    Seq::new(words.len(), |k: int| score(words, words[k], preferred, prioritized))
}

/// The index of the highest of the first `n` scores; of several highest, the
/// last one.
pub open spec fn best_below(scores: Seq<nat>, n: int) -> int
    decreases n,
{
    if n <= 1 {
        0
    } else {
        let earlier = best_below(scores, n - 1);
        if scores[n - 1] >= scores[earlier] {
            n - 1
        } else {
            earlier
        }
    }
}

/// The index of the candidate to guess next: the one with the highest score,
/// and the last of those in the candidates' order where several share it.
pub open spec fn choice(
    words: Seq<Seq<char>>,
    preferred: Seq<Seq<char>>,
    prioritized: Seq<Seq<char>>,
) -> int {
    best_below(word_scores(words, preferred, prioritized), words.len() as int)
}

/// Whether `k` is the index of the highest of the first `n` scores, and the
/// last such index.
pub open spec fn last_highest(scores: Seq<nat>, n: int, k: int) -> bool {
    &&& 0 <= k < n
    &&& forall|j: int| 0 <= j < n ==> #[trigger] scores[j] <= scores[k]
    &&& forall|j: int| k < j < n ==> #[trigger] scores[j] < scores[k]
}

/// The chosen index is in range, no score is above the chosen one, and no
/// later score equals it.
pub proof fn lemma_best_below(scores: Seq<nat>, n: int)
    requires
        1 <= n <= scores.len(),
    ensures
        last_highest(scores, n, best_below(scores, n)),
    decreases n,
{
    if n > 1 {
        lemma_best_below(scores, n - 1);
    }
}

/// Picks the next guess among the candidates: the word with the highest
/// score, and of several such words the last one.
pub fn select_next_word(
    words: &[&'static str],
    preferred_words: &[&'static str],
    prioritized_words: &[&'static str],
) -> (chosen: &'static str)
    requires
        words.len() > 0,
        words_of_len(words_view(words@), words@[0]@.len()),
        score_limit(words.len() as nat, words@[0]@.len()) <= usize::MAX,
    ensures
        chosen == words@[choice(
            words_view(words@),
            words_view(preferred_words@),
            words_view(prioritized_words@),
        )],
        last_highest(
            word_scores(
                words_view(words@),
                words_view(preferred_words@),
                words_view(prioritized_words@),
            ),
            words.len() as int,
            choice(
                words_view(words@),
                words_view(preferred_words@),
                words_view(prioritized_words@),
            ),
        ),
{
    let letters = decode_all(words);
    let preferred = decode_all(preferred_words);
    let prioritized = decode_all(prioritized_words);
    let ghost all = words_view(words@);
    let ghost scores = word_scores(
        all,
        words_view(preferred_words@),
        words_view(prioritized_words@),
    );
    assert(letters@[0]@ == all[0]);
    let len = letters[0].len();
    proof {
        lemma_best_below(scores, words.len() as int);
        assert(words.len() * len <= score_limit(words.len() as nat, len as nat))
            by (nonlinear_arith);
    }
    let tables = Frequencies::of(&letters, len);
    let mut best: usize = 0;
    let mut best_score = tables.score(&letters, 0, len, &preferred, &prioritized);
    let mut k: usize = 1;
    while k < words.len()
        invariant
            1 <= k <= words.len(),
            letters.len() == words.len(),
            letters_view(letters@) == all,
            letters_view(preferred@) == words_view(preferred_words@),
            letters_view(prioritized@) == words_view(prioritized_words@),
            scores == word_scores(
                all,
                words_view(preferred_words@),
                words_view(prioritized_words@),
            ),
            words_of_len(all, len as nat),
            tables.describes(all, len as nat),
            score_limit(words.len() as nat, len as nat) <= usize::MAX,
            best == best_below(scores, k as int),
            best < k,
            best_score == scores[best as int],
        decreases words.len() - k,
    {
        assert(letters@[k as int]@ == all[k as int]);
        let next = tables.score(&letters, k, len, &preferred, &prioritized);
        if next >= best_score {
            best = k;
            best_score = next;
        }
        k += 1;
    }
    words[best]
}

/// The words of a list that have `len` letters, in the list's order.
pub open spec fn having_len(words: Seq<Seq<char>>, len: nat) -> Seq<Seq<char>> {
    words.filter(|w: Seq<char>| w.len() == len)
}

/// The candidates that are consistent with the attempts, in the candidates'
/// order.
pub open spec fn survivors(
    candidates: Seq<Seq<char>>,
    attempts: Seq<(Seq<char>, Seq<Match>)>,
) -> Seq<Seq<char>> {
    candidates.filter(|w: Seq<char>| is_consistent(w, attempts))
}

/// The letters of the opening word, where one is given.
pub open spec fn start_view(start_word: Option<&'static str>) -> Option<Seq<char>> {
    match start_word {
        Some(word) => Some(word@),
        None => None,
    }
}

/// The word to guess in a state of the game: the opening word on the first
/// attempt, where one is given, and else the chosen candidate.
pub open spec fn next_guess(
    candidates: Seq<Seq<char>>,
    attempts: Seq<(Seq<char>, Seq<Match>)>,
    start: Option<Seq<char>>,
    preferred: Seq<Seq<char>>,
    prioritized: Seq<Seq<char>>,
) -> Seq<char> {
    if attempts.len() == 0 && start is Some {
        start->Some_0
    } else {
        candidates[choice(candidates, preferred, prioritized)]
    }
}

/// The rest of a game from one of its states: how it ends, and all its
/// attempts.
///
/// The game fails when no candidate is left or the attempts have run out.
/// Otherwise the next guess is compared with the target; a guess that matches
/// exactly wins, any other narrows the candidates to those consistent with
/// all the attempts, and the game goes on.
pub open spec fn play(
    target: Seq<char>,
    candidates: Seq<Seq<char>>,
    attempts: Seq<(Seq<char>, Seq<Match>)>,
    limit: nat,
    start: Option<Seq<char>>,
    preferred: Seq<Seq<char>>,
    prioritized: Seq<Seq<char>>,
) -> (Solution, Seq<(Seq<char>, Seq<Match>)>)
    decreases limit - attempts.len(),
{
    if candidates.len() == 0 || attempts.len() >= limit {
        (Solution::Failure, attempts)
    } else {
        let guess = next_guess(candidates, attempts, start, preferred, prioritized);
        let signal = diff_spec(guess, target);
        let longer = attempts.push((guess, signal));
        if all_green(signal) {
            (Solution::Success(longer.len() as usize), longer)
        } else {
            play(
                target,
                survivors(candidates, longer),
                longer,
                limit,
                start,
                preferred,
                prioritized,
            )
        }
    }
}

/// What holds of the outcome and the attempts of every game: the attempts
/// keep within the limit, each carries the signal of its guess against the
/// target, and the game is won exactly by guessing the target, which ends it.
pub open spec fn sound_game(
    target: Seq<char>,
    limit: nat,
    outcome: Solution,
    attempts: Seq<(Seq<char>, Seq<Match>)>,
) -> bool {
    &&& attempts.len() <= limit
    &&& attempts_of_len(attempts, target.len())
    &&& forall|k: int|
        0 <= k < attempts.len() ==> (#[trigger] attempts[k]).1 == diff_spec(attempts[k].0, target)
    &&& forall|k: int| 0 <= k < attempts.len() - 1 ==> (#[trigger] attempts[k]).0 != target
    &&& match outcome {
        Solution::Success(count) => {
            &&& count == attempts.len()
            &&& attempts.len() > 0
            &&& attempts.last().0 == target
        },
        Solution::Failure => attempts.len() > 0 ==> attempts.last().0 != target,
    }
}

/// The words of the list that have `len` letters.
fn words_having_len(words: &[&'static str], len: usize) -> (kept: Vec<&'static str>)
    ensures
        words_view(kept@) == having_len(words_view(words@), len as nat),
        words_of_len(words_view(kept@), len as nat),
        kept.len() <= words.len(),
{
    let ghost all = words_view(words@);
    let mut kept: Vec<&'static str> = Vec::new();
    let mut k: usize = 0;
    while k < words.len()
        invariant
            k <= words.len(),
            all == words_view(words@),
            kept.len() <= k,
            words_of_len(words_view(kept@), len as nat),
            words_view(kept@) == having_len(all.take(k as int), len as nat),
        decreases words.len() - k,
    {
        let word = words[k];
        let ghost before = words_view(kept@);
        proof {
            reveal(Seq::filter);
            assert(all.take(k + 1).drop_last() == all.take(k as int));
            assert(all.take(k + 1).last() == word@);
        }
        if to_chars(word).len() == len {
            kept.push(word);
            assert(words_view(kept@) == before.push(word@));
        }
        k += 1;
    }
    assert(all.take(words.len() as int) == all);
    kept
}

/// The candidates that are consistent with the attempts.
fn keep_consistent(candidates: Vec<&'static str>, attempts: &Attempts) -> (kept: Vec<
    &'static str,
>)
    requires
        candidates.len() > 0,
        words_of_len(words_view(candidates@), candidates@[0]@.len()),
        attempts_of_len(attempts_view(attempts@), candidates@[0]@.len()),
    ensures
        words_view(kept@) == survivors(words_view(candidates@), attempts_view(attempts@)),
        words_of_len(words_view(kept@), candidates@[0]@.len()),
        kept.len() <= candidates.len(),
{
    let ghost all = words_view(candidates@);
    let ghost seen = attempts_view(attempts@);
    let mut kept: Vec<&'static str> = Vec::new();
    let mut k: usize = 0;
    while k < candidates.len()
        invariant
            k <= candidates.len(),
            all == words_view(candidates@),
            seen == attempts_view(attempts@),
            words_of_len(all, all[0].len()),
            attempts_of_len(seen, all[0].len()),
            kept.len() <= k,
            words_of_len(words_view(kept@), all[0].len()),
            words_view(kept@) == survivors(all.take(k as int), seen),
        decreases candidates.len() - k,
    {
        let word = candidates[k];
        let ghost before = words_view(kept@);
        proof {
            reveal(Seq::filter);
            assert(all[k as int] == word@);
            assert(all.take(k + 1).drop_last() == all.take(k as int));
            assert(all.take(k + 1).last() == word@);
        }
        if filter_word(word, attempts) {
            kept.push(word);
            assert(words_view(kept@) == before.push(word@));
        }
        k += 1;
    }
    assert(all.take(candidates.len() as int) == all);
    kept
}

/// Fewer candidates of the same length have a lower score limit.
proof fn lemma_score_limit_monotonic(fewer: nat, count: nat, len: nat)
    requires
        fewer <= count,
    ensures
        score_limit(fewer, len) <= score_limit(count, len),
{
    assert(fewer * (len * (len + 1)) <= count * (len * (len + 1))) by (nonlinear_arith)
        requires
            fewer <= count,
    ;
}

/// Plays one game: guesses words of the dictionary until one is the target,
/// the attempts run out, or no word of the dictionary is left that agrees
/// with the signals.
///
/// Only the words that have as many letters as the target take part. The
/// first guess is the opening word where one is given; each other guess is
/// the candidate that `select_next_word` picks. After a wrong guess the
/// candidates are narrowed to the words consistent with all the attempts.
pub fn solve(
    target: &str,
    words: &[&'static str],
    attempts_limit: usize,
    start_word: Option<&'static str>,
    preferred_words: &[&'static str],
    prioritized_words: &[&'static str],
) -> (result: (Solution, Attempts))
    requires
        attempts_limit > 0,
        start_word matches Some(word) ==> word@.len() == target@.len(),
        score_limit(words.len() as nat, target@.len()) <= usize::MAX,
    ensures
        (result.0, attempts_view(result.1@)) == play(
            target@,
            having_len(words_view(words@), target@.len()),
            Seq::empty(),
            attempts_limit as nat,
            start_view(start_word),
            words_view(preferred_words@),
            words_view(prioritized_words@),
        ),
        sound_game(target@, attempts_limit as nat, result.0, attempts_view(result.1@)),
        words_view(words@).contains(target@) && result.0 == Solution::Failure
            ==> result.1.len() == attempts_limit,
{
    let goal = to_chars(target);
    let len = goal.len();
    let ghost start = start_view(start_word);
    let ghost preferred = words_view(preferred_words@);
    let ghost prioritized = words_view(prioritized_words@);
    let ghost whole = play(
        target@,
        having_len(words_view(words@), target@.len()),
        Seq::empty(),
        attempts_limit as nat,
        start,
        preferred,
        prioritized,
    );
    let mut attempts: Attempts = Vec::new();
    let mut candidates = words_having_len(words, len);
    assert(attempts_view(attempts@) == Seq::<(Seq<char>, Seq<Match>)>::empty());
    proof {
        lemma_game_is_sound(
            target@,
            words_view(candidates@),
            attempts_limit as nat,
            start,
            preferred,
            prioritized,
        );
        if words_view(words@).contains(target@) {
            lemma_having_len(words_view(words@), target@.len());
            lemma_target_stays_candidate(
                target@,
                words_view(candidates@),
                attempts_view(attempts@),
                attempts_limit as nat,
                start,
                preferred,
                prioritized,
            );
        }
    }
    while candidates.len() > 0
        invariant
            goal@ == target@,
            len == goal.len(),
            attempts_limit > 0,
            attempts.len() < attempts_limit,
            candidates.len() <= words.len(),
            score_limit(words.len() as nat, len as nat) <= usize::MAX,
            start == start_view(start_word),
            start_word matches Some(word) ==> word@.len() == len,
            preferred == words_view(preferred_words@),
            prioritized == words_view(prioritized_words@),
            words_of_len(words_view(candidates@), len as nat),
            attempts_of_len(attempts_view(attempts@), len as nat),
            sound_game(target@, attempts_limit as nat, whole.0, whole.1),
            words_view(words@).contains(target@) && whole.0 == Solution::Failure
                ==> whole.1.len() >= attempts_limit,
            whole == play(
                target@,
                having_len(words_view(words@), target@.len()),
                Seq::empty(),
                attempts_limit as nat,
                start,
                preferred,
                prioritized,
            ),
            whole == play(
                target@,
                words_view(candidates@),
                attempts_view(attempts@),
                attempts_limit as nat,
                start,
                preferred,
                prioritized,
            ),
        decreases attempts_limit - attempts.len(),
    {
        let ghost pool = words_view(candidates@);
        let ghost seen = attempts_view(attempts@);
        proof {
            lemma_score_limit_monotonic(candidates.len() as nat, words.len() as nat, len as nat);
            assert(pool[0] == candidates@[0]@);
            lemma_best_below(word_scores(pool, preferred, prioritized), pool.len() as int);
        }
        let current = if attempts.len() == 0 {
            match start_word {
                Some(word) => word,
                None => select_next_word(&candidates, preferred_words, prioritized_words),
            }
        } else {
            select_next_word(&candidates, preferred_words, prioritized_words)
        };
        assert(current@ == next_guess(pool, seen, start, preferred, prioritized));
        let signal = match_letters(&to_chars(current), &goal);
        let won = signal.success();
        attempts.push((current, signal));
        let ghost longer = seen.push((current@, diff_spec(current@, target@)));
        assert(attempts_view(attempts@) == longer);
        assert(whole == if won {
            (Solution::Success(longer.len() as usize), longer)
        } else {
            play(
                target@,
                survivors(pool, longer),
                longer,
                attempts_limit as nat,
                start,
                preferred,
                prioritized,
            )
        });
        if won {
            return (Solution::Success(attempts.len()), attempts);
        }
        if attempts.len() == attempts_limit {
            return (Solution::Failure, attempts);
        }
        candidates = keep_consistent(candidates, &attempts);
    }
    (Solution::Failure, attempts)
}

} // verus!
