use crate::solver::{Solution, MAX_ATTEMPTS};
use crate::wordle::{Match, Matches};
use vstd::prelude::*;
use vstd::string::StringExecFns;

verus! {

/// The square that stands for a match.
pub open spec fn symbol_of(mark: Match) -> Seq<char> {
    match mark {
        Match::Green => seq!['🟩'],
        Match::Yellow => seq!['🟨'],
        Match::Gray => seq!['⬛'],
    }
}

/// The squares of the first `n` entries of a signal, in order.
pub open spec fn symbols_of(signal: Seq<Match>, n: int) -> Seq<char>
    decreases n,
{
    if n <= 0 {
        Seq::empty()
    } else {
        symbols_of(signal, n - 1) + symbol_of(signal[n - 1])
    }
}

/// The character of a decimal digit.
pub open spec fn digit_of(d: nat) -> char {
    if d == 0 {
        '0'
    } else if d == 1 {
        '1'
    } else if d == 2 {
        '2'
    } else if d == 3 {
        '3'
    } else if d == 4 {
        '4'
    } else if d == 5 {
        '5'
    } else if d == 6 {
        '6'
    } else if d == 7 {
        '7'
    } else if d == 8 {
        '8'
    } else {
        '9'
    }
}

/// The decimal digits of a number, without leading zeros.
pub open spec fn decimal_of(n: nat) -> Seq<char>
    decreases n,
{
    if n < 10 {
        seq![digit_of(n)]
    } else {
        decimal_of(n / 10).push(digit_of(n % 10))
    }
}

/// The line that reports how a game ended.
pub open spec fn solution_text(solution: Solution) -> Seq<char> {
    let tries = match solution {
        Solution::Success(tries) => decimal_of(tries as nat),
        Solution::Failure => seq!['x'],
    };
    seq!['W', 'o', 'r', 'd', 'l', 'e', ' '] + tries + seq!['/'] + decimal_of(MAX_ATTEMPTS as nat)
}

/// A decimal digit as text.
fn digit_text(d: usize) -> (text: &'static str)
    requires
        d < 10,
    ensures
        text@ == seq![digit_of(d as nat)],
{
    proof {
        reveal_strlit("0");
        reveal_strlit("1");
        reveal_strlit("2");
        reveal_strlit("3");
        reveal_strlit("4");
        reveal_strlit("5");
        reveal_strlit("6");
        reveal_strlit("7");
        reveal_strlit("8");
        reveal_strlit("9");
    }
    let text = match d {
        0 => "0",
        1 => "1",
        2 => "2",
        3 => "3",
        4 => "4",
        5 => "5",
        6 => "6",
        7 => "7",
        8 => "8",
        _ => "9",
    };
    assert(text@ =~= seq![digit_of(d as nat)]);
    text
}

/// A number in decimal digits.
pub fn decimal(n: usize) -> (text: String)
    ensures
        text@ == decimal_of(n as nat),
    decreases n,
{
    if n < 10 {
        String::from_str(digit_text(n))
    } else {
        let mut text = decimal(n / 10);
        text.append(digit_text(n % 10));
        assert(text@ =~= decimal_of(n as nat));
        text
    }
}

impl Match {
    /// The coloured square that shows this match.
    pub fn symbol(&self) -> (text: &'static str)
        ensures
            text@ == symbol_of(*self),
    {
        proof {
            reveal_strlit("🟩");
            reveal_strlit("🟨");
            reveal_strlit("⬛");
        }
        let text = match self {
            Match::Green => "🟩",
            Match::Yellow => "🟨",
            Match::Gray => "⬛",
        };
        assert(text@ =~= symbol_of(*self));
        text
    }
}

impl Matches {
    /// The signal as a row of coloured squares.
    pub fn to_text(&self) -> (text: String)
        ensures
            text@ == symbols_of(self@, self@.len() as int),
    {
        let mut text = String::new();
        let mut i: usize = 0;
        while i < self.0.len()
            invariant
                i <= self.0.len(),
                text@ == symbols_of(self@, i as int),
            decreases self.0.len() - i,
        {
            text.append(self.0[i].symbol());
            i += 1;
        }
        text
    }
}

impl Solution {
    /// The line that reports the outcome: the number of attempts of a won
    /// game, or an `x` for a lost one, out of the usual number of attempts.
    pub fn to_text(&self) -> (text: String)
        ensures
            text@ == solution_text(*self),
    {
        proof {
            reveal_strlit("Wordle ");
            reveal_strlit("x");
            reveal_strlit("/");
        }
        let mut text = String::from_str("Wordle ");
        assert(text@ =~= seq!['W', 'o', 'r', 'd', 'l', 'e', ' ']);
        match self {
            Solution::Success(tries) => {
                let digits = decimal(*tries);
                text.append(digits.as_str());
            },
            Solution::Failure => {
                text.append("x");
                assert("x"@ =~= seq!['x']);
            },
        }
        text.append("/");
        assert("/"@ =~= seq!['/']);
        let limit = decimal(MAX_ATTEMPTS);
        text.append(limit.as_str());
        text
    }
}

} // verus!
