//! What is known of each letter of a guess, and how players write it down.

use crate::text::chars_of;
use vstd::prelude::*;

verus! {

/// The result of one letter of a guess.
#[derive(Clone, Copy, Debug, PartialEq, Eq, Structural, Hash)]
pub enum LetterResult {
    /// The letter stands exactly here in the objective word.
    Correct,
    /// The letter is in the objective word, but not here.
    PresentNotHere,
    /// The letter is not in the objective word, or not as many times as it was guessed.
    NotPresent,
}

/// A guess together with the result of each of its letters.
#[derive(Clone, Debug)]
pub struct GuessResult<'a> {
    pub guess: &'a str,
    pub results: Vec<LetterResult>,
}

/// The letter that stands for a result: green, yellow or black.
pub open spec fn mark_of(result: LetterResult) -> char {
    match result {
        LetterResult::Correct => 'g',
        LetterResult::PresentNotHere => 'y',
        LetterResult::NotPresent => 'b',
    }
}

/// The letters that stand for the results, in order.
pub open spec fn marks_of(results: Seq<LetterResult>) -> Seq<char> {
    results.map_values(|r: LetterResult| mark_of(r))
}

/// The result that a letter stands for, in either case.
pub open spec fn result_of_mark(mark: char) -> Option<LetterResult> {
    if mark == 'b' || mark == 'B' {
        Some(LetterResult::NotPresent)
    } else if mark == 'y' || mark == 'Y' {
        Some(LetterResult::PresentNotHere)
    } else if mark == 'g' || mark == 'G' {
        Some(LetterResult::Correct)
    } else {
        None
    }
}

/// The letter that stands for a result.
pub fn mark(result: LetterResult) -> (c: char)
    ensures
        c == mark_of(result),
{
    match result {
        LetterResult::Correct => 'g',
        LetterResult::PresentNotHere => 'y',
        LetterResult::NotPresent => 'b',
    }
}

/// Writes the letters that stand for the results at the end of `out`.
pub fn push_marks(out: &mut String, results: &[LetterResult])
    ensures
        final(out)@ == old(out)@ + marks_of(results@),
{
    let mut i: usize = 0;
    while i < results.len()
        invariant
            i <= results@.len(),
            out@ == old(out)@ + marks_of(results@).take(i as int),
        decreases results@.len() - i,
    {
        out.push(mark(results[i]));
        i = i + 1;
        assert(out@ == old(out)@ + marks_of(results@).take(i as int));
    }
    assert(marks_of(results@).take(results@.len() as int) == marks_of(results@));
}

/// The letters that stand for the results, in order.
pub fn marks(results: &[LetterResult]) -> (s: String)
    ensures
        s@ == marks_of(results@),
{
    let mut s = String::new();
    push_marks(&mut s, results);
    assert(s@ == marks_of(results@));
    s
}

/// The result that a letter stands for, in either case.
pub fn result_of(c: char) -> (r: Option<LetterResult>)
    ensures
        r == result_of_mark(c),
{
    match c {
        'b' | 'B' => Some(LetterResult::NotPresent),
        'y' | 'Y' => Some(LetterResult::PresentNotHere),
        'g' | 'G' => Some(LetterResult::Correct),
        _ => None,
    }
}

/// What a line that was typed for an outcome holds.
#[derive(Clone, Debug, PartialEq, Eq)]
pub enum Outcome {
    /// Nothing was read: the input has ended.
    EndOfInput,
    /// Some character stands for no result: the question is put again.
    Unreadable,
    /// The result of each letter.
    Results(Vec<LetterResult>),
}

/// The characters of a line that count for an outcome: the first `word_length` of them.
pub open spec fn outcome_chars(line: Seq<char>, word_length: nat) -> Seq<char> {
    if line.len() <= word_length {
        line
    } else {
        line.take(word_length as int)
    }
}

/// Whether every character stands for a result.
pub open spec fn all_marks(chars: Seq<char>) -> bool {
    forall|i: int| 0 <= i < chars.len() ==> result_of_mark(#[trigger] chars[i]) is Some
}

/// The results that the characters stand for.
pub open spec fn results_of(chars: Seq<char>) -> Seq<LetterResult> {
    chars.map_values(|c: char| result_of_mark(c)->0)
}

/// Whether `outcome` is what `line` holds, for words of `word_length` letters.
pub open spec fn outcome_is(line: Seq<char>, word_length: nat, outcome: Outcome) -> bool {
    let chars = outcome_chars(line, word_length);
    if line.len() == 0 {
        outcome == Outcome::EndOfInput
    } else if all_marks(chars) {
        outcome matches Outcome::Results(results) && results@ == results_of(chars)
    } else {
        outcome == Outcome::Unreadable
    }
}

/// Reads the outcome of a guess off a line, its line end included.
pub fn parse_outcome(line: &str, word_length: usize) -> (outcome: Outcome)
    ensures
        outcome_is(line@, word_length as nat, outcome),
{
    let typed = chars_of(line);
    if typed.len() == 0 {
        return Outcome::EndOfInput;
    }
    let n: usize = if typed.len() <= word_length {
        typed.len()
    } else {
        word_length
    };
    let ghost chars = outcome_chars(line@, word_length as nat);
    let mut results: Vec<LetterResult> = Vec::new();
    let mut i: usize = 0;
    while i < n
        invariant
            typed@ == line@,
            chars == outcome_chars(line@, word_length as nat),
            n == chars.len(),
            n <= typed@.len(),
            typed@.len() > 0,
            i <= n,
            forall|j: int| 0 <= j < n ==> #[trigger] chars[j] == typed@[j],
            forall|j: int| 0 <= j < i ==> result_of_mark(#[trigger] chars[j]) is Some,
            results@ == results_of(chars).take(i as int),
        decreases n - i,
    {
        assert(chars[i as int] == typed@[i as int]);
        match result_of(typed[i]) {
            Some(r) => {
                results.push(r);
            },
            None => {
                return Outcome::Unreadable;
            },
        }
        i = i + 1;
    }
    assert(results_of(chars).take(n as int) == results_of(chars));
    Outcome::Results(results)
}

}
