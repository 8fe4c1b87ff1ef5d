use crate::word::{count_letter, has_letter, occurrences, to_chars};
use vstd::prelude::*;

verus! {

/// How one letter of a guess relates to the target.
#[derive(Debug, Copy, Clone, PartialEq, Eq, Structural)]
pub enum Match {
    /// The letter stands at this position of the target.
    Green,
    /// The letter stands elsewhere in the target and is not yet accounted for.
    Yellow,
    /// The letter is not in the target, or all its occurrences are accounted for.
    Gray,
}

/// The match signal of a guess: one `Match` per letter, in order.
#[derive(Debug, PartialEq, Eq)]
pub struct Matches(pub Vec<Match>);

impl Clone for Matches {
    fn clone(&self) -> (copy: Self)
        ensures
            copy@ == self@,
    {
        let mut marks: Vec<Match> = Vec::new();
        let mut i: usize = 0;
        while i < self.0.len()
            invariant
                i <= self.0.len(),
                marks@ == self.0@.take(i as int),
            decreases self.0.len() - i,
        {
            marks.push(self.0[i]);
            i += 1;
        }
        Matches(marks)
    }
}

impl View for Matches {
    type V = Seq<Match>;

    open spec fn view(&self) -> Seq<Match> {
        self.0@
    }
}

/// Whether every entry of a signal is `Green`.
pub open spec fn all_green(signal: Seq<Match>) -> bool {
    forall|i: int| 0 <= i < signal.len() ==> signal[i] == Match::Green
}

impl Matches {
    /// The match at position `index`.
    pub fn at(&self, index: usize) -> (found: Match)
        requires
            index < self@.len(),
        ensures
            found == self@[index as int],
    {
        self.0[index]
    }

    /// Whether the guess that produced this signal was the target.
    pub fn success(&self) -> (won: bool)
        ensures
            won == all_green(self@),
    {
        let mut i: usize = 0;
        while i < self.0.len()
            invariant
                i <= self.0.len(),
                forall|k: int| 0 <= k < i ==> self.0@[k] == Match::Green,
            decreases self.0.len() - i,
        {
            if self.0[i] != Match::Green {
                return false;
            }
            i += 1;
        }
        true
    }
}

/// A guess and a target of different lengths were compared.
#[derive(Debug, Copy, Clone, PartialEq, Eq, Structural)]
pub struct InvalidInput {
    /// The number of letters of the guess.
    pub guess_len: usize,
    /// The number of letters of the target.
    pub target_len: usize,
}

/// The number of positions below `n` at which `a` holds the letter `c` and
/// `b` holds another letter: the occurrences of `c` in `a` that no exact
/// match accounts for.
pub open spec fn unplaced(a: Seq<char>, b: Seq<char>, c: char, n: int) -> nat
    decreases n,
{
    if n <= 0 {
        0
    } else {
        unplaced(a, b, c, n - 1) + if a[n - 1] == c && b[n - 1] != c {
            1nat
        } else {
            0nat
        }
    }
}

/// The match of the letter at position `i` of `guess` against `target`.
///
/// An exact match is `Green`. Otherwise the letter is `Yellow` as long as the
/// target still has an unplaced occurrence of it that no earlier unplaced
/// occurrence in the guess has claimed, and `Gray` after that.
pub open spec fn match_at(guess: Seq<char>, target: Seq<char>, i: int) -> Match {
    let c = guess[i];
    if target[i] == c {
        Match::Green
    } else if unplaced(guess, target, c, i) < unplaced(target, guess, c, target.len() as int) {
        Match::Yellow
    } else {
        Match::Gray
    }
}

/// The match signal of `guess` against `target`, two words of one length.
pub open spec fn diff_spec(guess: Seq<char>, target: Seq<char>) -> Seq<Match> {
    Seq::new(guess.len(), |i: int| match_at(guess, target, i))
}

/// The number of positions below `n` of the pool that hold `c` and are not
/// consumed yet.
spec fn pool_count(pool: Seq<char>, used: Seq<bool>, c: char, n: int) -> nat
    decreases n,
{
    if n <= 0 {
        0
    } else {
        pool_count(pool, used, c, n - 1) + if pool[n - 1] == c && !used[n - 1] {
            1nat
        } else {
            0nat
        }
    }
}

/// What the pool holds of `c` when `claimed` unplaced occurrences of it in the
/// guess have been served out of the `supply` unplaced ones of the target.
spec fn pool_left(supply: nat, claimed: nat) -> nat {
    if supply > claimed {
        (supply - claimed) as nat
    } else {
        0
    }
}

/// Once exactly the exact matches are consumed, the pool holds the unplaced
/// letters of the target.
proof fn lemma_pool_after_exact(
    target: Seq<char>,
    guess: Seq<char>,
    used: Seq<bool>,
    c: char,
    n: int,
)
    requires
        0 <= n <= target.len(),
        n <= guess.len(),
        n <= used.len(),
        forall|k: int| 0 <= k < n ==> used[k] == (guess[k] == target[k]),
    ensures
        pool_count(target, used, c, n) == unplaced(target, guess, c, n),
    decreases n,
{
    if n > 0 {
        lemma_pool_after_exact(target, guess, used, c, n - 1);
    }
}

/// A pool with no free entry of `c` counts none.
proof fn lemma_pool_empty(pool: Seq<char>, used: Seq<bool>, c: char, n: int)
    requires
        0 <= n <= pool.len(),
        n <= used.len(),
        forall|k: int| 0 <= k < n ==> used[k] || pool[k] != c,
    ensures
        pool_count(pool, used, c, n) == 0,
    decreases n,
{
    if n > 0 {
        lemma_pool_empty(pool, used, c, n - 1);
    }
}

/// Consuming the free entry at `j` takes one off the count of its letter and
/// leaves every other count as it was.
proof fn lemma_pool_take(pool: Seq<char>, used: Seq<bool>, j: int, c: char, n: int)
    requires
        0 <= n <= pool.len(),
        n <= used.len(),
        0 <= j < used.len(),
        !used[j],
    ensures
        pool_count(pool, used, c, n) == pool_count(pool, used.update(j, true), c, n) + if j < n
            && pool[j] == c {
            1nat
        } else {
            0nat
        },
    decreases n,
{
    if n > 0 {
        lemma_pool_take(pool, used, j, c, n - 1);
    }
}

/// Compares a guess with the target, letter by letter.
///
/// Exact matches are settled first, for all positions; then each remaining
/// letter of the guess, from left to right, claims one occurrence of itself
/// that the target has left, if there is one. Words of different lengths are
/// rejected.
pub fn diff(word: &str, target: &str) -> (result: Result<Matches, InvalidInput>)
    ensures
        word@.len() == target@.len() ==> result is Ok && result->Ok_0@ == diff_spec(
            word@,
            target@,
        ),
        word@.len() != target@.len() ==> result == Err::<Matches, InvalidInput>(
            InvalidInput { guess_len: word@.len() as usize, target_len: target@.len() as usize },
        ),
{
    let guess = to_chars(word);
    let pool = to_chars(target);
    if guess.len() != pool.len() {
        return Err(InvalidInput { guess_len: guess.len(), target_len: pool.len() });
    }
    Ok(match_letters(&guess, &pool))
}

/// Compares the letters of a guess with those of a target of the same length.
pub fn match_letters(guess: &Vec<char>, pool: &Vec<char>) -> (signal: Matches)
    requires
        guess@.len() == pool@.len(),
    ensures
        signal@ == diff_spec(guess@, pool@),
{
    let n = pool.len();
    let mut marks: Vec<Match> = Vec::new();
    let mut used: Vec<bool> = Vec::new();
    let mut i: usize = 0;
    while i < n
        invariant
            i <= n,
            n == pool.len(),
            n == guess.len(),
            marks.len() == i,
            used.len() == i,
            forall|k: int| 0 <= k < i ==> used@[k] == (guess@[k] == pool@[k]),
            forall|k: int|
                0 <= k < i ==> marks@[k] == if guess@[k] == pool@[k] {
                    Match::Green
                } else {
                    Match::Gray
                },
        decreases n - i,
    {
        if guess[i] == pool[i] {
            marks.push(Match::Green);
            used.push(true);
        } else {
            marks.push(Match::Gray);
            used.push(false);
        }
        i += 1;
    }
    proof {
        assert forall|c: char|
            #[trigger] pool_count(pool@, used@, c, n as int) == pool_left(
                unplaced(pool@, guess@, c, n as int),
                unplaced(guess@, pool@, c, 0),
            ) by {
            lemma_pool_after_exact(pool@, guess@, used@, c, n as int);
        }
    }
    let mut i: usize = 0;
    while i < n
        invariant
            i <= n,
            n == pool.len(),
            n == guess.len(),
            marks.len() == n,
            used.len() == n,
            forall|k: int| 0 <= k < i ==> marks@[k] == match_at(guess@, pool@, k),
            forall|k: int|
                i <= k < n ==> marks@[k] == if guess@[k] == pool@[k] {
                    Match::Green
                } else {
                    Match::Gray
                },
            forall|c: char|
                #[trigger] pool_count(pool@, used@, c, n as int) == pool_left(
                    unplaced(pool@, guess@, c, n as int),
                    unplaced(guess@, pool@, c, i as int),
                ),
        decreases n - i,
    {
        let letter = guess[i];
        if marks[i] == Match::Gray {
            let mut j: usize = 0;
            while j < n && (used[j] || pool[j] != letter)
                invariant
                    j <= n,
                    n == pool.len(),
                    n == used.len(),
                    forall|k: int| 0 <= k < j ==> used@[k] || pool@[k] != letter,
                decreases n - j,
            {
                j += 1;
            }
            if j < n {
                let ghost before = used@;
                used.set(j, true);
                marks.set(i, Match::Yellow);
                proof {
                    lemma_pool_take(pool@, before, j as int, letter, n as int);
                    assert forall|c: char|
                        #[trigger] pool_count(pool@, used@, c, n as int) == pool_left(
                            unplaced(pool@, guess@, c, n as int),
                            unplaced(guess@, pool@, c, i + 1),
                        ) by {
                        lemma_pool_take(pool@, before, j as int, c, n as int);
                    }
                }
            } else {
                proof {
                    lemma_pool_empty(pool@, used@, letter, n as int);
                    assert forall|c: char|
                        #[trigger] pool_count(pool@, used@, c, n as int) == pool_left(
                            unplaced(pool@, guess@, c, n as int),
                            unplaced(guess@, pool@, c, i + 1),
                        ) by {
                        assert(unplaced(guess@, pool@, c, i + 1) == unplaced(
                            guess@,
                            pool@,
                            c,
                            i as int,
                        ) + if c == letter {
                            1nat
                        } else {
                            0nat
                        });
                    }
                }
            }
        } else {
            proof {
                assert forall|c: char|
                    #[trigger] pool_count(pool@, used@, c, n as int) == pool_left(
                        unplaced(pool@, guess@, c, n as int),
                        unplaced(guess@, pool@, c, i + 1),
                    ) by {
                    assert(unplaced(guess@, pool@, c, i + 1) == unplaced(
                        guess@,
                        pool@,
                        c,
                        i as int,
                    ));
                }
            }
        }
        assert(marks@[i as int] == match_at(guess@, pool@, i as int));
        i += 1;
    }
    assert(marks@ =~= diff_spec(guess@, pool@));
    Matches(marks)
}

/// Whether `word` meets what the signal says of position `i` of `guess`.
///
/// `Green` fixes the letter at the position. `Yellow` asks for the letter
/// somewhere in the word, but not here. `Gray` forbids the letter here, and
/// anywhere in the word when the guess holds that letter only once: where the
/// guess repeats it, other copies may account for its occurrences.
pub open spec fn position_agrees(
    word: Seq<char>,
    guess: Seq<char>,
    signal: Seq<Match>,
    i: int,
) -> bool {
    let c = guess[i];
    match signal[i] {
        Match::Green => word[i] == c,
        Match::Yellow => word.contains(c) && word[i] != c,
        Match::Gray => word[i] != c && (occurrences(guess, c) == 1 ==> !word.contains(c)),
    }
}

/// Whether `word` meets what the signal says of every position of `guess`.
pub open spec fn attempt_agrees(word: Seq<char>, guess: Seq<char>, signal: Seq<Match>) -> bool {
    forall|i: int| 0 <= i < signal.len() ==> position_agrees(word, guess, signal, i)
}

/// Whether `word` could be the target, as far as the attempts tell.
pub open spec fn is_consistent(word: Seq<char>, attempts: Seq<(Seq<char>, Seq<Match>)>) -> bool {
    forall|k: int|
        0 <= k < attempts.len() ==> attempt_agrees(word, (#[trigger] attempts[k]).0, attempts[k].1)
}

/// The attempts as pairs of letters and signal.
pub open spec fn attempts_view(attempts: Seq<(&str, Matches)>) -> Seq<(Seq<char>, Seq<Match>)> {
    Seq::new(attempts.len(), |k: int| (attempts[k].0@, attempts[k].1@))
}

/// Whether every guess and every signal of `attempts` has `len` entries.
pub open spec fn attempts_of_len(attempts: Seq<(Seq<char>, Seq<Match>)>, len: nat) -> bool {
    forall|k: int|
        0 <= k < attempts.len() ==> (#[trigger] attempts[k]).0.len() == len && attempts[k].1.len()
            == len
}

/// Whether `word` agrees with one attempt.
fn agrees_with(word: &Vec<char>, guess: &Vec<char>, signal: &Matches) -> (keep: bool)
    requires
        guess@.len() == word@.len(),
        signal@.len() == word@.len(),
    ensures
        keep == attempt_agrees(word@, guess@, signal@),
{
    let mut i: usize = 0;
    while i < signal.0.len()
        invariant
            i <= signal.0.len(),
            guess@.len() == word@.len(),
            signal@.len() == word@.len(),
            forall|p: int| 0 <= p < i ==> position_agrees(word@, guess@, signal@, p),
        decreases signal.0.len() - i,
    {
        let c = guess[i];
        let ok = match signal.0[i] {
            Match::Green => word[i] == c,
            Match::Yellow => has_letter(word, c) && word[i] != c,
            Match::Gray => word[i] != c && !(count_letter(guess, c) == 1 && has_letter(word, c)),
        };
        if !ok {
            assert(!position_agrees(word@, guess@, signal@, i as int));
            return false;
        }
        i += 1;
    }
    true
}

/// Whether `word` is still a candidate after `attempts`: whether it agrees
/// with every signal received so far.
pub fn filter_word(word: &str, attempts: &Vec<(&str, Matches)>) -> (keep: bool)
    requires
        attempts_of_len(attempts_view(attempts@), word@.len()),
    ensures
        keep == is_consistent(word@, attempts_view(attempts@)),
{
    let letters = to_chars(word);
    let ghost view = attempts_view(attempts@);
    let mut k: usize = 0;
    while k < attempts.len()
        invariant
            k <= attempts.len(),
            letters@ == word@,
            view == attempts_view(attempts@),
            attempts_of_len(view, word@.len()),
            forall|a: int| 0 <= a < k ==> attempt_agrees(word@, (#[trigger] view[a]).0, view[a].1),
        decreases attempts.len() - k,
    {
        let guess = to_chars(attempts[k].0);
        assert(view[k as int].0 == guess@ && view[k as int].1 == attempts@[k as int].1@);
        if !agrees_with(&letters, &guess, &attempts[k].1) {
            return false;
        }
        k += 1;
    }
    true
}

} // verus!
