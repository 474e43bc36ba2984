//! What a player types when asked for a guess.

use crate::bank::{bank_holds_but_case, bank_words, holds_but_case};
use crate::text::{
    byte_len, byte_length, chars_of, is_ascii_letter, parse_usize, parsed_usize, string_of, trim,
    trimmed,
};
use rs_wordle_solver::WordBank;
use vstd::prelude::*;
use vstd::slice::slice_subrange;

verus! {

/// What a line that was typed for a guess holds.
#[derive(Clone, Debug, PartialEq, Eq)]
pub enum Entry {
    /// Nothing was read: the input has ended.
    EndOfInput,
    /// So many guesses more are to be listed.
    More(usize),
    /// The place of a guess in the list, counted from one.
    Index(usize),
    /// A word of the bank, as it was typed.
    Word(String),
    /// Nothing that is understood: the question is put again.
    Nothing,
}

/// How many characters stand before the first space of `s`.
pub open spec fn until_space(s: Seq<char>) -> nat
    decreases s.len(),
{
    if s.len() == 0 || s.first() == ' ' {
        0
    } else {
        1 + until_space(s.drop_first())
    }
}

/// What stands behind the first space of `s`, or nothing if there is none.
pub open spec fn after_space(s: Seq<char>) -> Seq<char> {
    if until_space(s) < s.len() {
        s.skip(until_space(s) as int + 1)
    } else {
        Seq::empty()
    }
}

/// The number in a request for more guesses, which reads `!more` and a number behind one space.
pub open spec fn more_request(s: Seq<char>) -> Option<usize> {
    if s.len() > 0 && s.first() == '!' {
        let command = s.drop_first();
        if command.take(until_space(command) as int) == seq!['m', 'o', 'r', 'e'] {
            parsed_usize(after_space(command))
        } else {
            None
        }
    } else {
        None
    }
}

/// Whether every character of `s` is an ASCII letter.
pub open spec fn all_letters(s: Seq<char>) -> bool {
    forall|i: int| 0 <= i < s.len() ==> is_ascii_letter(#[trigger] s[i])
}

/// Whether `s` is a word that can be guessed: of `word_length` ASCII letters, and in the list but
/// for their case.
pub open spec fn is_guessable(s: Seq<char>, word_length: nat, words: Seq<Seq<char>>) -> bool {
    byte_len(s) == word_length && all_letters(s) && holds_but_case(words, s)
}

/// Whether `entry` is what `line` holds, white space around it aside: a request for more
/// guesses, the place of a guess up to `max_index`, or a word that can be guessed.
pub open spec fn entry_is(
    line: Seq<char>,
    word_length: nat,
    max_index: usize,
    words: Seq<Seq<char>>,
    entry: Entry,
) -> bool {
    let typed = trimmed(line);
    if more_request(typed) is Some {
        entry == Entry::More(more_request(typed)->0)
    } else if parsed_usize(typed) is Some && parsed_usize(typed)->0 <= max_index {
        entry == Entry::Index(parsed_usize(typed)->0)
    } else if is_guessable(typed, word_length, words) {
        entry matches Entry::Word(word) && word@ == typed
    } else if line.len() == 0 {
        entry == Entry::EndOfInput
    } else {
        entry == Entry::Nothing
    }
}

proof fn lemma_until_space(s: Seq<char>, n: int)
    requires
        0 <= n <= s.len(),
        forall|i: int| 0 <= i < n ==> s[i] != ' ',
        n < s.len() ==> s[n] == ' ',
    ensures
        until_space(s) == n,
    decreases s.len(),
{
    if n > 0 {
        lemma_until_space(s.drop_first(), n - 1);
    }
}

/// The number in a request for more guesses.
pub fn parse_more(s: &[char]) -> (r: Option<usize>)
    ensures
        r == more_request(s@),
{
    if s.len() == 0 || s[0] != '!' {
        return None;
    }
    let ghost command = s@.drop_first();
    let mut i: usize = 1;
    while i < s.len() && s[i] != ' '
        invariant
            command == s@.drop_first(),
            1 <= i <= s@.len(),
            forall|j: int| 0 <= j < i - 1 ==> #[trigger] command[j] != ' ',
        decreases s@.len() - i,
    {
        i = i + 1;
    }
    proof {
        lemma_until_space(command, i - 1);
    }
    let ghost name = command.take(i - 1);
    let more: bool = i == 5 && s[1] == 'm' && s[2] == 'o' && s[3] == 'r' && s[4] == 'e';
    assert(more == (name == seq!['m', 'o', 'r', 'e'])) by {
        let word = seq!['m', 'o', 'r', 'e'];
        if more {
            assert(name =~= word);
        } else if name == word {
            assert(name.len() == i - 1);
            assert(s@[1] == word[0] && s@[2] == word[1] && s@[3] == word[2] && s@[4] == word[3]);
        }
    }
    if !more {
        return None;
    }
    if i < s.len() {
        let number = slice_subrange(s, i + 1, s.len());
        assert(number@ == after_space(command));
        parse_usize(number)
    } else {
        assert(after_space(command) == Seq::<char>::empty());
        None
    }
}

/// Reads what a player typed for a guess off a line, its line end included.
pub fn interpret(line: &str, word_length: usize, max_index: usize, bank: &WordBank) -> (entry:
    Entry)
    ensures
        entry_is(line@, word_length as nat, max_index, bank_words(*bank), entry),
{
    let whole = chars_of(line);
    let typed = trim(&whole);
    if let Some(n) = parse_more(&typed) {
        return Entry::More(n);
    }
    if let Some(p) = parse_usize(&typed) {
        if p <= max_index {
            return Entry::Index(p);
        }
    }
    let mut letters: bool = true;
    let mut i: usize = 0;
    while i < typed.len()
        invariant
            i <= typed@.len(),
            letters == (forall|j: int| 0 <= j < i ==> is_ascii_letter(#[trigger] typed@[j])),
        decreases typed@.len() - i,
    {
        let c: char = typed[i];
        if !(('a' <= c && c <= 'z') || ('A' <= c && c <= 'Z')) {
            letters = false;
        }
        i = i + 1;
    }
    if byte_length(&typed) == word_length as u128 && letters && bank_holds_but_case(bank, &typed) {
        return Entry::Word(string_of(&typed));
    }
    if whole.len() == 0 {
        Entry::EndOfInput
    } else {
        Entry::Nothing
    }
}

}
