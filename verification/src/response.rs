//! How an objective word answers a guess, and every answer that there can be.

use crate::letters::{GuessResult, LetterResult};
use crate::text::{byte_len, width};
use itertools::Itertools;
use vstd::arithmetic::power::pow;
use vstd::prelude::*;

verus! {

/// What can go wrong with words and results.
#[derive(Clone, Debug, PartialEq, Eq)]
pub enum WordleError {
    /// Words differ in length; the expected length is given, in bytes.
    WordLength(usize),
    /// The results contradict what was known before.
    InvalidResults,
    /// The words could not be read; the reason is given.
    IoError(String),
}

/// The bytes that UTF-8 takes for `s`: a letter where its first byte stands, nothing where it
/// goes on.
pub open spec fn slots(s: Seq<char>) -> Seq<Option<char>>
    decreases s.len(),
{
    if s.len() == 0 {
        Seq::empty()
    } else {
        slots(s.drop_last()).push(Some(s.last())) + Seq::new(
            (width(s.last()) - 1) as nat,
            |i: int| None::<char>,
        )
    }
}

/// How many of the first `n` places of `a` hold the letter `c` where `b` does not.
pub open spec fn strays(a: Seq<Option<char>>, b: Seq<Option<char>>, c: char, n: int) -> nat
    decreases n,
{
    if n <= 0 {
        0
    } else {
        strays(a, b, c, n - 1) + if a[n - 1] == Some(c) && b[n - 1] != Some(c) {
            1nat
        } else {
            0
        }
    }
}

/// How `objective` answers the place `i` of `guess`. A letter in its place is correct. Of the
/// letters that are not, as many as the objective word has left are present, from the beginning
/// of the guess on.
pub open spec fn answer_at(
    objective: Seq<Option<char>>,
    guess: Seq<Option<char>>,
    i: int,
) -> LetterResult {
    match guess[i] {
        None => LetterResult::NotPresent,
        Some(c) => if objective[i] == Some(c) {
            LetterResult::Correct
        } else if strays(guess, objective, c, i) < strays(
            objective,
            guess,
            c,
            objective.len() as int,
        ) {
            LetterResult::PresentNotHere
        } else {
            LetterResult::NotPresent
        },
    }
}

/// How the word `objective` answers the guess `guess`, place by place.
pub open spec fn answer(objective: Seq<char>, guess: Seq<char>) -> Seq<LetterResult> {
    Seq::new(
        slots(guess).len(),
        |i: int| answer_at(slots(objective), slots(guess), i),
    )
}

/// `rs_wordle_solver::get_result_for_guess` fails when the two words differ in length, and
/// otherwise answers each place of the guess: correct letters first, then present ones from the
/// beginning of the guess until the objective word has no more of that letter.
#[verifier::external_body]
fn result_for_guess(objective: &str, guess: &str) -> (r: Result<Vec<LetterResult>, WordleError>)
    ensures
        match r {
            Ok(results) => byte_len(objective@) == byte_len(guess@) && results@ == answer(
                objective@,
                guess@,
            ),
            Err(e) => byte_len(objective@) != byte_len(guess@) && (
            e matches WordleError::WordLength(n) && n == byte_len(objective@)),
        },
{
    match rs_wordle_solver::get_result_for_guess(objective, guess) {
        Ok(result) => Ok(result.results.iter().map(|l| match l {
            rs_wordle_solver::LetterResult::Correct => LetterResult::Correct,
            rs_wordle_solver::LetterResult::PresentNotHere => LetterResult::PresentNotHere,
            rs_wordle_solver::LetterResult::NotPresent => LetterResult::NotPresent,
        }).collect()),
        Err(rs_wordle_solver::WordleError::WordLength(n)) => Err(WordleError::WordLength(n)),
        Err(rs_wordle_solver::WordleError::InvalidResults) => Err(WordleError::InvalidResults),
        Err(rs_wordle_solver::WordleError::IoError(e)) => Err(WordleError::IoError(e.to_string())),
    }
}

/// The answer of the word `objective` to the guess `guess`.
pub fn simulate<'a>(objective: &str, guess: &'a str) -> (r: Result<GuessResult<'a>, WordleError>)
    ensures
        byte_len(objective@) != byte_len(guess@) ==> (r matches Err(WordleError::WordLength(n)) && n
            == byte_len(objective@)),
        byte_len(objective@) == byte_len(guess@) ==> (r matches Ok(result) && result.guess == guess
            && result.results@ == answer(objective@, guess@)),
{
    match result_for_guess(objective, guess) {
        Ok(results) => Ok(GuessResult { guess, results }),
        Err(e) => Err(e),
    }
}

/// The `k`-th way to write `n` of the letters: the last one changes fastest.
pub open spec fn product_item(letters: Seq<LetterResult>, n: nat, k: nat) -> Seq<LetterResult>
    decreases n,
{
    if n == 0 {
        Seq::empty()
    } else {
        product_item(letters, (n - 1) as nat, k / letters.len()).push(
            letters[(k % letters.len()) as int],
        )
    }
}

/// `itertools::Itertools::multi_cartesian_product` over `n` copies of the letters gives every
/// way to write `n` of them, in order, the last one changing fastest; for `n` of zero, the one
/// empty way.
#[verifier::external_body]
fn letter_product(letters: &Vec<LetterResult>, n: usize) -> (r: Vec<Vec<LetterResult>>)
    requires
        0 < letters@.len() <= 3,
        n <= 16,
    ensures
        r@.len() == pow(letters@.len() as int, n as nat),
        forall|k: int|
            0 <= k < r@.len() ==> (#[trigger] r@[k])@ == product_item(
                letters@,
                n as nat,
                k as nat,
            ),
{
    std::iter::repeat_n(letters.clone(), n).multi_cartesian_product().collect()
}

/// The three results, in the order in which answers are counted through.
pub open spec fn result_letters() -> Seq<LetterResult> {
    seq![LetterResult::NotPresent, LetterResult::PresentNotHere, LetterResult::Correct]
}

/// The place of a result among the three.
pub open spec fn letter_index(result: LetterResult) -> nat {
    match result {
        LetterResult::NotPresent => 0,
        LetterResult::PresentNotHere => 1,
        LetterResult::Correct => 2,
    }
}

/// The place of an answer among all answers of its length.
pub open spec fn answer_index(results: Seq<LetterResult>) -> nat
    decreases results.len(),
{
    if results.len() == 0 {
        0
    } else {
        answer_index(results.drop_last()) * 3 + letter_index(results.last())
    }
}

/// Every answer of a given length has one place among all answers of that length, and is what
/// stands at that place.
pub proof fn lemma_answer_index(results: Seq<LetterResult>)
    ensures
        answer_index(results) < pow(3, results.len()),
        product_item(result_letters(), results.len(), answer_index(results)) == results,
    decreases results.len(),
{
    reveal(pow);
    if results.len() > 0 {
        let rest = results.drop_last();
        lemma_answer_index(rest);
        let k = answer_index(results);
        assert(k / 3 == answer_index(rest) && k % 3 == letter_index(results.last()));
        assert(result_letters()[letter_index(results.last()) as int] == results.last());
        assert(rest.push(results.last()) == results);
    }
}

/// What stands at a place among all answers of a given length has that length and that place.
pub proof fn lemma_product_item(n: nat, k: nat)
    requires
        k < pow(3, n),
    ensures
        product_item(result_letters(), n, k).len() == n,
        answer_index(product_item(result_letters(), n, k)) == k,
    decreases n,
{
    reveal(pow);
    if n > 0 {
        lemma_product_item((n - 1) as nat, k / 3);
        let item = product_item(result_letters(), n, k);
        assert(item.drop_last() == product_item(result_letters(), (n - 1) as nat, k / 3));
    }
}

/// Every answer that there can be to a guess of `word_length` letters.
pub fn all_answers(word_length: usize) -> (r: Vec<Vec<LetterResult>>)
    requires
        word_length <= 16,
    ensures
        r@.len() == pow(3, word_length as nat),
        forall|k: int| 0 <= k < r@.len() ==> (#[trigger] r@[k])@.len() == word_length,
        forall|k: int| 0 <= k < r@.len() ==> answer_index((#[trigger] r@[k])@) == k,
        forall|results: Seq<LetterResult>|
            results.len() == word_length ==> #[trigger] answer_index(results) < r@.len()
                && r@[answer_index(results) as int]@ == results,
{
    let letters: Vec<LetterResult> = vec![
        LetterResult::NotPresent,
        LetterResult::PresentNotHere,
        LetterResult::Correct,
    ];
    let r = letter_product(&letters, word_length);
    proof {
        assert(letters@ == result_letters());
        assert forall|k: int| 0 <= k < r@.len() implies (#[trigger] r@[k])@.len() == word_length
            && answer_index(r@[k]@) == k by {
            lemma_product_item(word_length as nat, k as nat);
        }
        assert forall|results: Seq<LetterResult>| results.len() == word_length implies
            #[trigger] answer_index(results) < r@.len() && r@[answer_index(results) as int]@
            == results by {
            lemma_answer_index(results);
        }
    }
    r
}

}
