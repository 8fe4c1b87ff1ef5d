use vstd::prelude::*;

verus! {

/// The letters of a word, one `char` per code point, in order.
pub fn to_chars(s: &str) -> (letters: Vec<char>)
    ensures
        letters@ == s@,
{
    broadcast use vstd::string::group_string_axioms;

    let mut letters: Vec<char> = Vec::new();
    for c in it: s.chars()
        invariant
            it.seq() == s@,
            letters@ == s@.take(it.index() as int),
    {
        letters.push(c);
    }
    assert(letters@ =~= s@);
    letters
}

/// The number of positions below `n` at which `word` holds the letter `c`.
pub open spec fn count_below(word: Seq<char>, c: char, n: int) -> nat
    decreases n,
{
    if n <= 0 {
        0
    } else {
        count_below(word, c, n - 1) + if word[n - 1] == c {
            1nat
        } else {
            0nat
        }
    }
}

/// How often the letter `c` occurs in `word`.
pub open spec fn occurrences(word: Seq<char>, c: char) -> nat {
    count_below(word, c, word.len() as int)
}

/// A prefix holds a letter at most as often as it has positions.
pub proof fn lemma_count_below_bound(word: Seq<char>, c: char, n: int)
    requires
        0 <= n,
    ensures
        count_below(word, c, n) <= n,
    decreases n,
{
    if n > 0 {
        lemma_count_below_bound(word, c, n - 1);
    }
}

/// A position that holds `c` is counted.
pub proof fn lemma_count_one(word: Seq<char>, c: char, n: int, j: int)
    requires
        0 <= j < n,
        word[j] == c,
    ensures
        count_below(word, c, n) >= 1,
    decreases n,
{
    if j < n - 1 {
        lemma_count_one(word, c, n - 1, j);
    }
}

/// Two positions that hold `c` are both counted.
pub proof fn lemma_count_two(word: Seq<char>, c: char, n: int, j: int, k: int)
    requires
        0 <= j < k < n,
        word[j] == c,
        word[k] == c,
    ensures
        count_below(word, c, n) >= 2,
    decreases n,
{
    if k < n - 1 {
        lemma_count_two(word, c, n - 1, j, k);
    } else {
        lemma_count_one(word, c, n - 1, j);
    }
}

/// How often `c` occurs among `letters`.
pub fn count_letter(letters: &Vec<char>, c: char) -> (count: usize)
    ensures
        count == occurrences(letters@, c),
{
    let mut count: usize = 0;
    let mut i: usize = 0;
    while i < letters.len()
        invariant
            i <= letters.len(),
            count == count_below(letters@, c, i as int),
            count <= i,
        decreases letters.len() - i,
    {
        if letters[i] == c {
            count += 1;
        }
        i += 1;
    }
    count
}

/// Whether `c` occurs among `letters`.
pub fn has_letter(letters: &Vec<char>, c: char) -> (found: bool)
    ensures
        found == letters@.contains(c),
{
    let mut i: usize = 0;
    while i < letters.len()
        invariant
            i <= letters.len(),
            forall|k: int| 0 <= k < i ==> letters@[k] != c,
        decreases letters.len() - i,
    {
        if letters[i] == c {
            return true;
        }
        i += 1;
    }
    false
}

} // verus!
