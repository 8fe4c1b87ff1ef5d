use crate::word::{
    count_below, count_letter, lemma_count_below_bound, lemma_count_one, occurrences, to_chars,
};
use std::collections::HashMap;
use vstd::prelude::*;

verus! {

/// The words of a list, each as its letters.
pub open spec fn words_view(words: Seq<&str>) -> Seq<Seq<char>> {
    Seq::new(words.len(), |k: int| words[k]@)
}

/// The decoded words of a list, each as its letters.
pub open spec fn letters_view(words: Seq<Vec<char>>) -> Seq<Seq<char>> {
    Seq::new(words.len(), |k: int| words[k]@)
}

/// Whether every word of the list has `len` letters.
pub open spec fn words_of_len(words: Seq<Seq<char>>, len: nat) -> bool {
    forall|k: int| 0 <= k < words.len() ==> (#[trigger] words[k]).len() == len
}

/// How often the letter `c` occurs in the first `n` words, at any position.
pub open spec fn letter_frequency(words: Seq<Seq<char>>, c: char, n: int) -> nat
    decreases n,
{
    if n <= 0 {
        0
    } else {
        letter_frequency(words, c, n - 1) + occurrences(words[n - 1], c)
    }
}

/// How many of the first `n` words hold the letter `c` at position `i`.
pub open spec fn position_frequency(words: Seq<Seq<char>>, i: int, c: char, n: int) -> nat
    decreases n,
{
    if n <= 0 {
        0
    } else {
        position_frequency(words, i, c, n - 1) + if words[n - 1][i] == c {
            1nat
        } else {
            0nat
        }
    }
}

/// What the letter at position `i` of `word` adds to the word's score: how
/// often the letter occurs in the candidates, plus how often it stands at
/// this position, divided by how often the word itself repeats it.
pub open spec fn letter_score(words: Seq<Seq<char>>, word: Seq<char>, i: int) -> nat {
    let c = word[i];
    (letter_frequency(words, c, words.len() as int) + position_frequency(
        words,
        i,
        c,
        words.len() as int,
    )) / occurrences(word, c)
}

/// The sum of the letter scores of the first `n` positions of `word`.
pub open spec fn base_score(words: Seq<Seq<char>>, word: Seq<char>, n: int) -> nat
    decreases n,
{
    if n <= 0 {
        0
    } else {
        base_score(words, word, n - 1) + letter_score(words, word, n - 1)
    }
}

/// The score of a candidate: the sum of its letter scores, tenfold for a
/// prioritized word and fivefold for a preferred one.
pub open spec fn score(
    words: Seq<Seq<char>>,
    word: Seq<char>,
    preferred: Seq<Seq<char>>,
    prioritized: Seq<Seq<char>>,
) -> nat {
    base_score(words, word, word.len() as int) * if prioritized.contains(word) {
        10nat
    } else {
        1nat
    } * if preferred.contains(word) {
        5nat
    } else {
        1nat
    }
}

/// The largest score that `count` candidates of `len` letters can reach.
pub open spec fn score_limit(count: nat, len: nat) -> nat {
    50 * (count * (len * (len + 1)))
}

/// Decodes every word of a list into its letters.
pub fn decode_all(words: &[&str]) -> (decoded: Vec<Vec<char>>)
    ensures
        letters_view(decoded@) == words_view(words@),
{
    let mut decoded: Vec<Vec<char>> = Vec::new();
    let mut k: usize = 0;
    while k < words.len()
        invariant
            k <= words.len(),
            decoded.len() == k,
            forall|j: int| 0 <= j < k ==> decoded@[j]@ == words@[j]@,
        decreases words.len() - k,
    {
        decoded.push(to_chars(words[k]));
        k += 1;
    }
    assert(letters_view(decoded@) =~= words_view(words@));
    decoded
}

/// Whether two words have the same letters.
pub fn same_letters(a: &Vec<char>, b: &Vec<char>) -> (same: bool)
    ensures
        same == (a@ == b@),
{
    if a.len() != b.len() {
        return false;
    }
    let mut i: usize = 0;
    while i < a.len()
        invariant
            i <= a.len(),
            a.len() == b.len(),
            forall|k: int| 0 <= k < i ==> a@[k] == b@[k],
        decreases a.len() - i,
    {
        if a[i] != b[i] {
            return false;
        }
        i += 1;
    }
    assert(a@ =~= b@);
    true
}

/// Whether `word` is one of the words of `list`.
pub fn is_listed(list: &Vec<Vec<char>>, word: &Vec<char>) -> (found: bool)
    ensures
        found == letters_view(list@).contains(word@),
{
    let mut k: usize = 0;
    while k < list.len()
        invariant
            k <= list.len(),
            forall|j: int| 0 <= j < k ==> list@[j]@ != word@,
        decreases list.len() - k,
    {
        if same_letters(&list[k], word) {
            assert(letters_view(list@)[k as int] == word@);
            return true;
        }
        k += 1;
    }
    false
}

/// What a table of counts holds for the letter `c`: nothing where the letter
/// has no entry.
pub open spec fn tally_of(table: Map<u32, usize>, c: char) -> nat {
    if table.contains_key(c as u32) {
        table[c as u32] as nat
    } else {
        0
    }
}

/// Reads the count of the letter `c` from a table.
pub fn tally(table: &HashMap<u32, usize>, c: char) -> (count: usize)
    ensures
        count == tally_of(table@, c),
{
    broadcast use vstd::std_specs::hash::group_hash_axioms;

    let key = c as u32;
    match table.get(&key) {
        Some(count) => *count,
        None => 0,
    }
}

/// Counts the letter `c` once more in a table.
pub fn bump(table: &mut HashMap<u32, usize>, c: char)
    requires
        tally_of(old(table)@, c) < usize::MAX,
    ensures
        forall|d: char|
            #[trigger] tally_of(final(table)@, d) == tally_of(old(table)@, d) + if d == c {
                1nat
            } else {
                0nat
            },
{
    broadcast use vstd::std_specs::hash::group_hash_axioms;

    let count = tally(table, c);
    table.insert(c as u32, count + 1);
    assert forall|d: char|
        #[trigger] tally_of(table@, d) == tally_of(old(table)@, d) + if d == c {
            1nat
        } else {
            0nat
        } by {
        vstd::utf8::char_u32_cast(c, c as u32);
        vstd::utf8::char_u32_cast(d, d as u32);
    }
}

/// The first `n` words of `len` letters hold a letter at most `n * len` times.
pub proof fn lemma_letter_frequency_bound(words: Seq<Seq<char>>, c: char, n: int, len: nat)
    requires
        words_of_len(words, len),
        0 <= n <= words.len(),
    ensures
        letter_frequency(words, c, n) <= n * len,
    decreases n,
{
    if n > 0 {
        lemma_letter_frequency_bound(words, c, n - 1, len);
        lemma_count_below_bound(words[n - 1], c, len as int);
        assert((n - 1) * len + len == n * len) by (nonlinear_arith);
    }
}

/// At most `n` of the first `n` words hold a letter at a given position.
pub proof fn lemma_position_frequency_bound(words: Seq<Seq<char>>, i: int, c: char, n: int)
    requires
        0 <= n,
    ensures
        position_frequency(words, i, c, n) <= n,
    decreases n,
{
    if n > 0 {
        lemma_position_frequency_bound(words, i, c, n - 1);
    }
}

/// A letter adds at most the number of candidates times one more than their
/// length to a score.
pub proof fn lemma_letter_score_bound(words: Seq<Seq<char>>, word: Seq<char>, i: int, len: nat)
    requires
        words_of_len(words, len),
        0 <= i < word.len(),
    ensures
        letter_score(words, word, i) <= words.len() * (len + 1),
{
    let c = word[i];
    let count = words.len() as int;
    let sum = letter_frequency(words, c, count) + position_frequency(words, i, c, count);
    let by_word = occurrences(word, c);
    lemma_letter_frequency_bound(words, c, count, len);
    lemma_position_frequency_bound(words, i, c, count);
    lemma_count_one(word, c, word.len() as int, i);
    assert(count * len + count == count * (len + 1)) by (nonlinear_arith);
    assert(sum / by_word <= sum) by (nonlinear_arith)
        requires
            by_word >= 1,
    ;
}

/// The first `n` letters of a word add at most `n` times the bound of one
/// letter to its score.
pub proof fn lemma_base_score_bound(words: Seq<Seq<char>>, word: Seq<char>, n: int, len: nat)
    requires
        words_of_len(words, len),
        0 <= n <= word.len(),
    ensures
        base_score(words, word, n) <= n * (words.len() * (len + 1)),
    decreases n,
{
    if n > 0 {
        lemma_base_score_bound(words, word, n - 1, len);
        lemma_letter_score_bound(words, word, n - 1, len);
        let each = words.len() * (len + 1);
        assert((n - 1) * each + each == n * each) by (nonlinear_arith);
    }
}

/// No candidate scores above the limit for their number and length.
pub proof fn lemma_score_bound(
    words: Seq<Seq<char>>,
    word: Seq<char>,
    preferred: Seq<Seq<char>>,
    prioritized: Seq<Seq<char>>,
    len: nat,
)
    requires
        words_of_len(words, len),
        word.len() == len,
    ensures
        base_score(words, word, len as int) <= len * (words.len() * (len + 1)),
        50 * (len * (words.len() * (len + 1))) == score_limit(words.len(), len),
        score(words, word, preferred, prioritized) <= score_limit(words.len(), len),
{
    lemma_base_score_bound(words, word, len as int, len);
    let base = base_score(words, word, len as int);
    let count = words.len();
    let top = len * (count * (len + 1));
    assert(50 * top == score_limit(count, len)) by (nonlinear_arith)
        requires
            top == len * (count * (len + 1)),
            score_limit(count, len) == 50 * (count * (len * (len + 1))),
    ;
    let tenfold: nat = if prioritized.contains(word) {
        10
    } else {
        1
    };
    let fivefold: nat = if preferred.contains(word) {
        5
    } else {
        1
    };
    assert(base * tenfold * fivefold <= 50 * top) by (nonlinear_arith)
        requires
            base <= top,
            1 <= tenfold <= 10,
            1 <= fivefold <= 5,
    ;
}

/// The counts that the scores are made of: how often each letter occurs in
/// the candidates, overall and at each position. A table is keyed by the code
/// point of the letter; a letter without an entry was never counted.
pub struct Frequencies {
    /// The count of each letter over all positions.
    pub letters: HashMap<u32, usize>,
    /// For each position, the count of each letter there.
    pub positions: Vec<HashMap<u32, usize>>,
}

impl Frequencies {
    /// Whether the tables hold the counts of the letters of `words`, which
    /// have `len` letters each.
    pub open spec fn describes(&self, words: Seq<Seq<char>>, len: nat) -> bool {
        &&& self.positions@.len() == len
        &&& forall|c: char| #[trigger]
            tally_of(self.letters@, c) == letter_frequency(words, c, words.len() as int)
        &&& forall|i: int, c: char|
            0 <= i < len ==> #[trigger] tally_of(self.positions@[i]@, c) == position_frequency(
                words,
                i,
                c,
                words.len() as int,
            )
    }

    /// Counts the letters of the candidates.
    pub fn of(words: &Vec<Vec<char>>, len: usize) -> (tables: Frequencies)
        requires
            words_of_len(letters_view(words@), len as nat),
            words.len() * len <= usize::MAX,
        ensures
            tables.describes(letters_view(words@), len as nat),
    {
        let letters = letter_table(words, len);
        let mut positions: Vec<HashMap<u32, usize>> = Vec::new();
        let mut i: usize = 0;
        while i < len
            invariant
                i <= len,
                positions.len() == i,
                words_of_len(letters_view(words@), len as nat),
                forall|p: int, c: char|
                    0 <= p < i ==> #[trigger] tally_of(positions@[p]@, c) == position_frequency(
                        letters_view(words@),
                        p,
                        c,
                        words.len() as int,
                    ),
            decreases len - i,
        {
            let table = position_table(words, i, len);
            positions.push(table);
            i += 1;
        }
        Frequencies { letters, positions }
    }

    /// The score of the candidate at index `k`.
    pub fn score(
        &self,
        words: &Vec<Vec<char>>,
        k: usize,
        len: usize,
        preferred: &Vec<Vec<char>>,
        prioritized: &Vec<Vec<char>>,
    ) -> (total: usize)
        requires
            words_of_len(letters_view(words@), len as nat),
            self.describes(letters_view(words@), len as nat),
            k < words.len(),
            score_limit(words.len() as nat, len as nat) <= usize::MAX,
        ensures
            total == score(
                letters_view(words@),
                words@[k as int]@,
                letters_view(preferred@),
                letters_view(prioritized@),
            ),
    {
        let ghost all = letters_view(words@);
        let word = &words[k];
        assert(all[k as int] == word@);
        proof {
            lemma_score_bound(
                all,
                word@,
                letters_view(preferred@),
                letters_view(prioritized@),
                len as nat,
            );
        }
        let ghost each = words.len() * (len + 1);
        let mut total: usize = 0;
        let mut i: usize = 0;
        while i < len
            invariant
                i <= len,
                word@.len() == len,
                all == letters_view(words@),
                words_of_len(all, len as nat),
                self.describes(all, len as nat),
                each == words.len() * (len + 1),
                50 * (len * each) <= usize::MAX,
                total == base_score(all, word@, i as int),
            decreases len - i,
        {
            let c = word[i];
            let overall = tally(&self.letters, c);
            let here = tally(&self.positions[i], c);
            let repeats = count_letter(word, c);
            proof {
                lemma_letter_frequency_bound(all, c, words.len() as int, len as nat);
                lemma_position_frequency_bound(all, i as int, c, words.len() as int);
                lemma_count_one(word@, c, len as int, i as int);
                lemma_base_score_bound(all, word@, i as int, len as nat);
                lemma_letter_score_bound(all, word@, i as int, len as nat);
                assert(words.len() * len + words.len() == each) by (nonlinear_arith)
                    requires
                        each == words.len() * (len + 1),
                ;
                assert(i * each + each <= 50 * (len * each)) by (nonlinear_arith)
                    requires
                        0 <= i < len,
                        0 <= each,
                ;
            }
            total = total + (overall + here) / repeats;
            i += 1;
        }
        if is_listed(prioritized, word) {
            total = total * 10;
        }
        if is_listed(preferred, word) {
            total = total * 5;
        }
        total
    }
}

/// Counts how often each letter occurs in the words, at any position.
fn letter_table(words: &Vec<Vec<char>>, len: usize) -> (table: HashMap<u32, usize>)
    requires
        words_of_len(letters_view(words@), len as nat),
        words.len() * len <= usize::MAX,
    ensures
        forall|c: char| #[trigger]
            tally_of(table@, c) == letter_frequency(letters_view(words@), c, words.len() as int),
{
    let ghost all = letters_view(words@);
    let mut table: HashMap<u32, usize> = HashMap::new();
    let mut k: usize = 0;
    while k < words.len()
        invariant
            k <= words.len(),
            all == letters_view(words@),
            words_of_len(all, len as nat),
            words.len() * len <= usize::MAX,
            forall|c: char| #[trigger] tally_of(table@, c) == letter_frequency(all, c, k as int),
        decreases words.len() - k,
    {
        let word = &words[k];
        assert(all[k as int] == word@);
        let mut i: usize = 0;
        while i < len
            invariant
                i <= len,
                k < words.len(),
                all == letters_view(words@),
                words_of_len(all, len as nat),
                words.len() * len <= usize::MAX,
                word@ == all[k as int],
                word@.len() == len,
                forall|c: char| #[trigger]
                    tally_of(table@, c) == letter_frequency(all, c, k as int) + count_below(
                        word@,
                        c,
                        i as int,
                    ),
            decreases len - i,
        {
            let c = word[i];
            proof {
                lemma_letter_frequency_bound(all, c, k as int, len as nat);
                lemma_count_below_bound(word@, c, i as int);
                assert(k * len + i < words.len() * len) by (nonlinear_arith)
                    requires
                        k < words.len(),
                        i < len,
                ;
            }
            bump(&mut table, c);
            i += 1;
        }
        k += 1;
    }
    table
}

/// Counts how often each letter stands at position `i` of the words.
fn position_table(words: &Vec<Vec<char>>, i: usize, len: usize) -> (table: HashMap<u32, usize>)
    requires
        words_of_len(letters_view(words@), len as nat),
        i < len,
    ensures
        forall|c: char| #[trigger]
            tally_of(table@, c) == position_frequency(
                letters_view(words@),
                i as int,
                c,
                words.len() as int,
            ),
{
    let ghost all = letters_view(words@);
    let mut table: HashMap<u32, usize> = HashMap::new();
    let mut k: usize = 0;
    while k < words.len()
        invariant
            k <= words.len(),
            i < len,
            all == letters_view(words@),
            words_of_len(all, len as nat),
            forall|c: char| #[trigger]
                tally_of(table@, c) == position_frequency(all, i as int, c, k as int),
        decreases words.len() - k,
    {
        let word = &words[k];
        assert(all[k as int] == word@);
        let c = word[i];
        proof {
            lemma_position_frequency_bound(all, i as int, c, k as int);
        }
        bump(&mut table, c);
        k += 1;
    }
    table
}

} // verus!
