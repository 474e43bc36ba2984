//! What holds of what is typed and of what is shown.

use crate::bank::holds_but_case;
use crate::entry::{
    after_space, all_letters, entry_is, is_guessable, more_request, until_space, Entry,
};
use crate::guesser::ScoredGuess;
use crate::laws::lemma_trimmed_line;
use crate::laws_of_text::{
    lemma_number_read, lemma_number_written, lemma_read_as_number, lemma_same_but_case,
    lemma_signed_number_written, one_letter,
};
use crate::letters::{
    mark_of, marks_of, outcome_chars, outcome_is, result_of_mark, results_of, LetterResult, Outcome,
};
use crate::report::{
    counts, end_report, line_of, lines_of, phase_report, plural_text, rest_of,
    rounds_report, tells_rounds, Verdict,
};
use crate::text::{
    byte_len, decimal, digits_value, is_ascii_letter, parsed_usize, signed_decimal, trimmed,
};
use vstd::prelude::*;

verus! {

/// A correct letter is green, one that stands elsewhere is yellow, and one that is not there is
/// black.
pub proof fn lemma_mark(result: LetterResult)
    ensures
        result is Correct <==> mark_of(result) == 'g',
        result is PresentNotHere <==> mark_of(result) == 'y',
        result is NotPresent <==> mark_of(result) == 'b',
{
}

/// Results are shown one letter for each, in order.
pub proof fn lemma_marks(results: Seq<LetterResult>)
    ensures
        marks_of(results).len() == results.len(),
        forall|i: int|
            0 <= i < results.len() ==> #[trigger] marks_of(results)[i] == mark_of(results[i]),
{
}

/// A letter is read as a result if it is the one that the result is shown by, large or small.
pub proof fn lemma_mark_read(c: char, result: LetterResult)
    ensures
        result_of_mark(c) == Some(result) <==> one_letter(c, mark_of(result)),
{
}

/// Whether a character stands for some result, large or small.
pub open spec fn is_mark(c: char) -> bool {
    exists|result: LetterResult| one_letter(c, #[trigger] mark_of(result))
}

/// A line that is typed for an outcome is at the end of the input if it is empty. The results that
/// are read off it are those that its first characters stand for, one for each letter of the word,
/// or for each character if there are fewer. It cannot be read if one of them stands for none.
pub proof fn lemma_outcome(line: Seq<char>, word_length: nat, outcome: Outcome)
    requires
        outcome_is(line, word_length, outcome),
    ensures
        outcome is EndOfInput <==> line.len() == 0,
        outcome matches Outcome::Results(results) ==> (results@.len() == word_length
            || results@.len() < word_length && results@.len() == line.len()) && results@.len()
            <= line.len() && forall|i: int|
            0 <= i < results@.len() ==> one_letter(line[i], mark_of(#[trigger] results@[i])),
        outcome is Unreadable ==> exists|i: int|
            0 <= i < line.len() && i < word_length && !is_mark(#[trigger] line[i]),
{
    let chars = outcome_chars(line, word_length);
    match outcome {
        Outcome::Results(results) => {
            assert(results@ == results_of(chars));
            assert forall|i: int| 0 <= i < results@.len() implies one_letter(
                line[i],
                mark_of(#[trigger] results@[i]),
            ) by {
                assert(result_of_mark(chars[i]) is Some);
                assert(results@[i] == result_of_mark(chars[i])->0);
                assert(chars[i] == line[i]);
                lemma_mark_read(line[i], results@[i]);
            }
        },
        Outcome::Unreadable => {
            let i = choose|i: int|
                0 <= i < chars.len() && result_of_mark(#[trigger] chars[i]) is None;
            assert(chars[i] == line[i]);
            assert forall|result: LetterResult|
                !one_letter(line[i], #[trigger] mark_of(result)) by {
                lemma_mark_read(line[i], result);
            }
            assert(!is_mark(line[i]));
        },
        Outcome::EndOfInput => {},
    }
}

/// The letters of results, large and small in any mix, are read as the results, whatever stands
/// behind them.
pub proof fn lemma_outcome_in_any_case(
    results: Seq<LetterResult>,
    typed: Seq<char>,
    rest: Seq<char>,
    outcome: Outcome,
)
    requires
        results.len() > 0,
        typed.len() == results.len(),
        forall|i: int|
            0 <= i < results.len() ==> one_letter(#[trigger] typed[i], mark_of(results[i])),
        outcome_is(typed + rest, results.len(), outcome),
    ensures
        outcome matches Outcome::Results(read) && read@ == results,
{
    let line = typed + rest;
    lemma_outcome(line, results.len(), outcome);
    assert forall|i: int| 0 <= i < results.len() implies is_mark(#[trigger] line[i]) by {
        assert(line[i] == typed[i]);
        assert(one_letter(line[i], mark_of(results[i])));
    }
    match outcome {
        Outcome::Results(read) => {
            assert forall|i: int| 0 <= i < results.len() implies read@[i] == results[i] by {
                assert(one_letter(line[i], mark_of(read@[i])));
                assert(line[i] == typed[i]);
                assert(one_letter(typed[i], mark_of(results[i])));
                lemma_mark(read@[i]);
                lemma_mark(results[i]);
            }
            assert(read@ =~= results);
        },
        _ => {},
    }
}

/// What stands behind the first space, and before it.
proof fn lemma_first_space(s: Seq<char>)
    ensures
        until_space(s) <= s.len(),
        until_space(s) < s.len() ==> s[until_space(s) as int] == ' ',
        forall|i: int| 0 <= i < until_space(s) ==> #[trigger] s[i] != ' ',
    decreases s.len(),
{
    if s.len() > 0 && s.first() != ' ' {
        let rest = s.drop_first();
        lemma_first_space(rest);
        assert forall|i: int| 0 <= i < until_space(s) implies #[trigger] s[i] != ' ' by {
            if i > 0 {
                assert(s[i] == rest[i - 1]);
            }
        }
    }
}

/// Who types `!more`, one space and a number asks for so many more.
pub proof fn lemma_more_typed(number: Seq<char>)
    ensures
        more_request(seq!['!', 'm', 'o', 'r', 'e', ' '] + number) == parsed_usize(number),
{
    let s = seq!['!', 'm', 'o', 'r', 'e', ' '] + number;
    let command = s.drop_first();
    lemma_first_space(command);
    assert(command[0] == 'm' && command[1] == 'o' && command[2] == 'r' && command[3] == 'e'
        && command[4] == ' ');
    assert(until_space(command) == 4);
    assert(command.take(4) =~= seq!['m', 'o', 'r', 'e']);
    assert(after_space(command) =~= number);
}

/// Nothing but `!more`, one space and a number asks for more.
pub proof fn lemma_asks_for_more(s: Seq<char>) -> (number: Seq<char>)
    requires
        more_request(s) is Some,
    ensures
        s == seq!['!', 'm', 'o', 'r', 'e', ' '] + number,
        more_request(s) == parsed_usize(number),
{
    let command = s.drop_first();
    let number = after_space(command);
    let word = seq!['m', 'o', 'r', 'e'];
    lemma_first_space(command);
    assert(command.take(until_space(command) as int) == word);
    assert(command.take(until_space(command) as int).len() == 4);
    if number.len() == 0 {
        assert(parsed_usize(number) is None);
    }
    assert(command[4] == ' ');
    assert forall|i: int| 0 <= i < 4 implies command[i] == word[i] by {
        assert(command.take(4)[i] == command[i]);
    }
    assert(s =~= seq!['!', 'm', 'o', 'r', 'e', ' '] + number);
    number
}

/// Whether a word agrees with what was typed at every place, but for the case of ASCII letters.
pub open spec fn agrees(word: Seq<char>, typed: Seq<char>) -> bool {
    word.len() == typed.len() && forall|i: int|
        0 <= i < word.len() ==> one_letter(#[trigger] word[i], typed[i])
}

/// A list holds a text but for its case if one of its words agrees with it at every place.
pub proof fn lemma_held_but_case(words: Seq<Seq<char>>, typed: Seq<char>)
    ensures
        holds_but_case(words, typed) <==> exists|i: int|
            0 <= i < words.len() && agrees(#[trigger] words[i], typed),
{
    assert forall|i: int| 0 <= i < words.len() implies (crate::text::same_but_case(
        #[trigger] words[i],
        typed,
    ) <==> agrees(words[i], typed)) by {
        lemma_same_but_case(words[i], typed);
    }
    if holds_but_case(words, typed) {
        let i = choose|i: int|
            0 <= i < words.len() && crate::text::same_but_case(#[trigger] words[i], typed);
        assert(agrees(words[i], typed));
    }
    if exists|i: int| 0 <= i < words.len() && agrees(#[trigger] words[i], typed) {
        let i = choose|i: int| 0 <= i < words.len() && agrees(#[trigger] words[i], typed);
        assert(crate::text::same_but_case(words[i], typed));
    }
}

/// Whether a text can be taken for a word of the bank: it is made of ASCII letters, as long as the
/// words are, and agrees with one of them.
pub open spec fn names_word(typed: Seq<char>, word_length: nat, words: Seq<Seq<char>>) -> bool {
    &&& byte_len(typed) == word_length
    &&& forall|i: int|
        0 <= i < typed.len() ==> 65 <= (#[trigger] typed[i]) as int <= 90 || 97 <= typed[i] as int
            <= 122
    &&& exists|i: int| 0 <= i < words.len() && agrees(#[trigger] words[i], typed)
}

/// What is typed for a guess, white space around it aside, is taken for what it is and for nothing
/// else. `!more` and a number asks for more, a number up to the last one names a place, and
/// letters that agree with a word of the bank are a word. Of what is none of these, an empty line
/// is the end of the input, and any other is not understood.
pub proof fn lemma_entry(
    line: Seq<char>,
    word_length: nat,
    max_index: usize,
    words: Seq<Seq<char>>,
    entry: Entry,
)
    requires
        entry_is(line, word_length, max_index, words, entry),
    ensures
        entry matches Entry::More(n) ==> exists|number: Seq<char>|
            trimmed(line) == seq!['!', 'm', 'o', 'r', 'e', ' '] + number && #[trigger] parsed_usize(
                number,
            ) == Some(n),
        forall|number: Seq<char>|
            trimmed(line) == seq!['!', 'm', 'o', 'r', 'e', ' '] + number && (
            #[trigger] parsed_usize(number)) is Some ==> entry == Entry::More(
                parsed_usize(number)->0,
            ),
        entry matches Entry::Index(p) ==> parsed_usize(trimmed(line)) == Some(p) && p <= max_index,
        parsed_usize(trimmed(line)) matches Some(p) ==> p <= max_index ==> entry == Entry::Index(p),
        entry matches Entry::Word(word) ==> word@ == trimmed(line) && names_word(
            word@,
            word_length,
            words,
        ),
        names_word(trimmed(line), word_length, words) ==> entry is Word,
        entry is EndOfInput ==> line.len() == 0,
        entry is Nothing ==> line.len() > 0,
{
    let typed = trimmed(line);
    lemma_held_but_case(words, typed);
    if parsed_usize(typed) is Some {
        let digits = lemma_read_as_number(typed);
        assert(digits[0] != '!');
        assert(typed[0] == '+' || typed[0] == digits[0]);
    }
    if more_request(typed) is Some {
        let number = lemma_asks_for_more(typed);
        assert(parsed_usize(number) == more_request(typed));
        assert(typed[0] == '!');
    }
    assert forall|number: Seq<char>|
        typed == seq!['!', 'm', 'o', 'r', 'e', ' '] + number && (#[trigger] parsed_usize(
            number,
        )) is Some implies entry == Entry::More(parsed_usize(number)->0) by {
        lemma_more_typed(number);
    }
    if is_guessable(typed, word_length, words) {
        assert forall|i: int| 0 <= i < typed.len() implies 65 <= (#[trigger] typed[i]) as int <= 90
            || 97 <= typed[i] as int <= 122 by {
            assert(is_ascii_letter(typed[i]));
        }
        assert(names_word(typed, word_length, words));
    }
    if names_word(typed, word_length, words) {
        assert forall|i: int| 0 <= i < typed.len() implies is_ascii_letter(#[trigger] typed[i]) by {
            assert(65 <= typed[i] as int <= 90 || 97 <= typed[i] as int <= 122);
        }
        assert(all_letters(typed));
        assert(is_guessable(typed, word_length, words));
        if typed.len() > 0 {
            assert(is_ascii_letter(typed[0]));
        }
        if parsed_usize(typed) is Some {
            let digits = lemma_read_as_number(typed);
            assert('0' <= digits[0] <= '9');
            assert(typed[0] == '+' || typed[0] == digits[0]);
        }
    }
}

/// The line of a guess begins with its number, counted from one, up to the first point. Behind that
/// stand the guess and, in brackets, its score.
pub proof fn lemma_line(i: nat, guess: ScoredGuess) -> (parts: (Seq<char>, Seq<char>))
    ensures
        line_of(i, guess) == parts.0 + seq!['.', ' '] + guess.guess@ + seq![' ', '('] + parts.1
            + seq![')'],
        parts.0.len() > 0,
        forall|k: int| 0 <= k < parts.0.len() ==> '0' <= #[trigger] parts.0[k] <= '9',
        digits_value(parts.0) == i + 1,
        parts.0[0] != '0',
        forall|k: int| 0 <= k < parts.0.len() ==> #[trigger] line_of(i, guess)[k] == parts.0[k],
        line_of(i, guess)[parts.0.len() as int] == '.',
        guess.score >= 0 ==> parts.1 == decimal(guess.score as nat),
        guess.score < 0 ==> parts.1 == seq!['-'] + decimal((-guess.score) as nat),
{
    let number = decimal(i + 1);
    let score = signed_decimal(guess.score as int);
    lemma_number_written(i + 1);
    lemma_signed_number_written(guess.score as int);
    if guess.score < 0 {
        assert(score =~= seq!['-'] + decimal((-guess.score) as nat));
    }
    (number, score)
}

/// Whether `number` is what stands before the first point of a line.
pub open spec fn bears(line: Seq<char>, number: Seq<char>) -> bool {
    &&& number.len() < line.len()
    &&& line.take(number.len() as int) == number
    &&& line[number.len() as int] == '.'
    &&& forall|k: int| 0 <= k < number.len() ==> #[trigger] number[k] != '.'
}

/// What stands before the first point of the line of a guess is the number of its place.
pub proof fn lemma_line_bears(i: nat, guess: ScoredGuess, number: Seq<char>)
    requires
        bears(line_of(i, guess), number),
    ensures
        number.len() > 0,
        forall|k: int| 0 <= k < number.len() ==> '0' <= #[trigger] number[k] <= '9',
        digits_value(number) == i + 1,
{
    let line = line_of(i, guess);
    let parts = lemma_line(i, guess);
    if number.len() < parts.0.len() {
        assert(line[number.len() as int] == parts.0[number.len() as int]);
    } else if number.len() > parts.0.len() {
        assert(number[parts.0.len() as int] == line[parts.0.len() as int]);
    }
    assert forall|k: int| 0 <= k < number.len() implies number[k] == parts.0[k] by {
        assert(line.take(number.len() as int)[k] == line[k]);
    }
    assert(number =~= parts.0);
}

/// Lines of different places bear different numbers.
pub proof fn lemma_lines_differ(
    i: nat,
    j: nat,
    a: ScoredGuess,
    b: ScoredGuess,
    number: Seq<char>,
)
    requires
        bears(line_of(i, a), number),
        bears(line_of(j, b), number),
    ensures
        i == j,
{
    lemma_line_bears(i, a, number);
    lemma_line_bears(j, b, number);
}

/// A list shows every guess from its first place on, each in the line of its place.
pub proof fn lemma_lines(guesses: Seq<ScoredGuess>, from: nat)
    ensures
        from >= guesses.len() ==> lines_of(guesses, from).len() == 0,
        from <= guesses.len() ==> lines_of(guesses, from).len() + from == guesses.len(),
        forall|j: int|
            0 <= j < lines_of(guesses, from).len() ==> #[trigger] lines_of(guesses, from)[j]
                == line_of((from + j) as nat, guesses[from + j]),
{
}

/// Who types the number that a line bears, up to the last one that can be typed, names the guess in
/// that very line.
pub proof fn lemma_typed_number_names_its_line(
    guesses: Seq<ScoredGuess>,
    from: nat,
    j: int,
    number: Seq<char>,
    word_length: nat,
    max_index: usize,
    words: Seq<Seq<char>>,
    entry: Entry,
)
    requires
        0 <= j < lines_of(guesses, from).len(),
        bears(lines_of(guesses, from)[j], number),
        from + j < max_index,
        entry_is(number.push('\n'), word_length, max_index, words, entry),
    ensures
        entry matches Entry::Index(p) && 1 <= p <= guesses.len() && p == from + j + 1
            && lines_of(guesses, from)[j] == line_of((p - 1) as nat, guesses[p - 1]),
{
    let i = (from + j) as nat;
    lemma_lines(guesses, from);
    lemma_line_bears(i, guesses[i as int], number);
    assert('0' <= number[0] <= '9' && '0' <= number[number.len() - 1] <= '9');
    lemma_trimmed_line(number);
    lemma_number_read(number);
    lemma_entry(number.push('\n'), word_length, max_index, words, entry);
}

/// How many possible words are not listed is said in digits, unless more words are listed than are
/// possible.
pub proof fn lemma_rest(possible: nat, listed: nat)
    ensures
        listed > possible ==> rest_of(possible, listed) is None,
        listed <= possible ==> exists|number: Seq<char>| #[trigger]
            digits_value(number) + listed == possible && number == decimal(digits_value(number))
                && rest_of(possible, listed) == Some(
                seq!['a', 'n', 'd', ' '] + number + seq![
                    ' ',
                    'm',
                    'o',
                    'r',
                    'e',
                    '.',
                    '.',
                    '.',
                ],
            ),
{
    if listed <= possible {
        reveal_strlit("and ");
        reveal_strlit(" more...");
        let number = decimal((possible - listed) as nat);
        lemma_number_written((possible - listed) as nat);
        assert("and "@ =~= seq!['a', 'n', 'd', ' ']);
        assert(" more..."@ =~= seq![' ', 'm', 'o', 'r', 'e', '.', '.', '.']);
        assert(digits_value(number) + listed == possible);
    }
}

/// What is said of a phase begins with its name and ends with how long it took; between them stands
/// one short word.
pub proof fn lemma_phase(phase: Seq<char>, took: Seq<char>)
    ensures
        phase_report(phase, took) == phase + seq![' ', 'i', 'n', ' '] + took,
{
    reveal_strlit(" in ");
    assert(" in "@ =~= seq![' ', 'i', 'n', ' ']);
}

/// The end of a solved game names the word; that of any other says that it is inconsistent.
pub proof fn lemma_end(verdict: Verdict)
    ensures
        match verdict {
            Verdict::Solved(word) => end_report(verdict) == "the game is solved: "@ + word@,
            Verdict::Inconsistent => end_report(verdict) == "game is inconsistent :("@,
        },
{
}

/// The end of a game that counts its rounds says their number in digits, the word for them in some
/// form, and names the word that was found.
pub proof fn lemma_end_of_rounds(verdict: Verdict, rounds: isize, s: Seq<char>) -> (said: (
    Seq<char>,
    Seq<char>,
))
    requires
        tells_rounds(verdict, rounds, s),
    ensures
        rounds >= 0 ==> said.0 == decimal(rounds as nat) && digits_value(said.0) == rounds,
        rounds < 0 ==> said.0 == seq!['-'] + decimal((-rounds) as nat),
        exists|rules: int|
            said.0.push(' ') + said.1 == #[trigger] plural_text(rules, "round"@, rounds, true),
        match verdict {
            Verdict::Solved(word) => s == "the game is solved in "@ + (said.0.push(' ') + said.1)
                + ": "@ + word@,
            Verdict::Inconsistent => s == "game is inconsistent :("@,
        },
{
    let rules = choose|rules: int|
        {
            let text = #[trigger] plural_text(rules, "round"@, rounds, true);
            counts(text, rounds as int) && s == rounds_report(verdict, text)
        };
    let text = plural_text(rules, "round"@, rounds, true);
    let unit = choose|unit: Seq<char>|
        text == #[trigger] (signed_decimal(rounds as int).push(' ') + unit);
    if rounds >= 0 {
        lemma_number_written(rounds as nat);
    }
    (signed_decimal(rounds as int), unit)
}

}
