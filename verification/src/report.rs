//! What is reported to a player: lists of guesses, how long work took and how a game ended.

use crate::guesser::ScoredGuess;
use crate::text::{decimal, push_decimal, push_signed_decimal, signed_decimal};
use vstd::prelude::*;

verus! {

/// The line of a list for the guess at the place `i`, counted from zero: its number, the guess
/// and its score.
pub open spec fn line_of(i: nat, guess: ScoredGuess) -> Seq<char> {
    decimal(i + 1) + seq!['.', ' '] + guess.guess@ + seq![' ', '('] + signed_decimal(
        guess.score as int,
    ) + seq![')']
}

/// The lines of a list of guesses, from the place `from` on.
pub open spec fn lines_of(guesses: Seq<ScoredGuess>, from: nat) -> Seq<Seq<char>> {
    Seq::new(
        if from <= guesses.len() {
            (guesses.len() - from) as nat
        } else {
            0
        },
        |i: int| line_of((from + i) as nat, guesses[from + i]),
    )
}

/// The line of a list for the guess at the place `i`, counted from zero.
pub fn listing_line(i: usize, guess: &ScoredGuess) -> (s: String)
    requires
        i < usize::MAX,
    ensures
        s@ == line_of(i as nat, *guess),
{
    let mut s = String::new();
    push_decimal(&mut s, (i + 1) as u64);
    s.push('.');
    s.push(' ');
    s.append(guess.guess.as_str());
    s.push(' ');
    s.push('(');
    push_signed_decimal(&mut s, guess.score);
    s.push(')');
    assert(s@ == line_of(i as nat, *guess));
    s
}

/// The lines of a list of guesses, from the place `from` on.
pub fn listing(guesses: &Vec<ScoredGuess>, from: usize) -> (lines: Vec<String>)
    ensures
        lines.deep_view() == lines_of(guesses@, from as nat),
{
    let mut lines: Vec<String> = Vec::new();
    let mut i: usize = from;
    while i < guesses.len()
        invariant
            from <= i,
            i <= guesses@.len() || i == from,
            lines.deep_view() == lines_of(guesses@, from as nat).take(i - from),
        decreases guesses@.len() - i,
    {
        let ghost before = lines.deep_view();
        lines.push(listing_line(i, &guesses[i]));
        assert(lines.deep_view() == before.push(lines@.last()@));
        i = i + 1;
    }
    assert(lines_of(guesses@, from as nat).take(i - from) == lines_of(guesses@, from as nat));
    lines
}

/// What is said of the possible words that are not in a list: how many more there are, unless
/// the list is longer than them.
pub open spec fn rest_of(possible: nat, listed: nat) -> Option<Seq<char>> {
    if listed <= possible {
        Some("and "@ + decimal((possible - listed) as nat) + " more..."@)
    } else {
        None
    }
}

/// What is said of the possible words that are not in a list.
pub fn rest_note(possible: usize, listed: usize) -> (r: Option<String>)
    ensures
        match r {
            Some(s) => rest_of(possible as nat, listed as nat) == Some(s@),
            None => rest_of(possible as nat, listed as nat) is None,
        },
{
    if listed <= possible {
        let mut s = "and ".to_owned();
        push_decimal(&mut s, (possible - listed) as u64);
        s.append(" more...");
        Some(s)
    } else {
        None
    }
}

/// How long something took, as `humantime::format_duration` writes it.
pub uninterp spec fn duration_text(secs: u64, nanos: u32) -> Seq<char>;

/// `humantime::format_duration` writes a duration for people to read.
#[verifier::external_body]
fn format_duration(secs: u64, nanos: u32) -> (s: String)
    requires
        nanos < 1_000_000_000,
    ensures
        s@ == duration_text(secs, nanos),
{
    humantime::format_duration(std::time::Duration::new(secs, nanos)).to_string()
}

/// What is said when a phase of the work is done, given how long it took.
pub open spec fn phase_report(phase: Seq<char>, took: Seq<char>) -> Seq<char> {
    phase + " in "@ + took
}

/// What is said when a phase of the work is done, given how long it took.
pub fn phase_line(phase: &str, took: &str) -> (s: String)
    ensures
        s@ == phase_report(phase@, took@),
{
    let mut s = phase.to_owned();
    s.append(" in ");
    s.append(took);
    s
}

/// What is said when a phase of the work is done that took `secs` seconds and `nanos`
/// nanoseconds.
pub fn time_report(phase: &str, secs: u64, nanos: u32) -> (s: String)
    requires
        nanos < 1_000_000_000,
    ensures
        s@ == phase_report(phase@, duration_text(secs, nanos)),
{
    phase_line(phase, format_duration(secs, nanos).as_str())
}

/// How a game ended.
#[derive(Clone, Debug, PartialEq, Eq)]
pub enum Verdict {
    /// One word is possible.
    Solved(String),
    /// No word is possible.
    Inconsistent,
}

/// What is said of a game whose results contradict each other.
pub open spec fn inconsistent_report() -> Seq<char> {
    "game is inconsistent :("@
}

/// What is said at the end of a game.
pub open spec fn end_report(verdict: Verdict) -> Seq<char> {
    match verdict {
        Verdict::Solved(word) => "the game is solved: "@ + word@,
        Verdict::Inconsistent => inconsistent_report(),
    }
}

/// What is said at the end of a game.
pub fn end_line(verdict: &Verdict) -> (s: String)
    ensures
        s@ == end_report(*verdict),
{
    match verdict {
        Verdict::Solved(word) => {
            let mut s = "the game is solved: ".to_owned();
            s.append(word.as_str());
            s
        },
        Verdict::Inconsistent => "game is inconsistent :(".to_owned(),
    }
}

/// What `pluralizer::pluralize` gives under the rules that are in force. A program can add rules
/// at any time; `rules` stands for those of one moment.
pub uninterp spec fn plural_text(
    rules: int,
    word: Seq<char>,
    count: isize,
    include_count: bool,
) -> Seq<char>;

/// `pluralizer::pluralize` gives the word in the form that suits the count, by the rules that are
/// in force, behind the count and a space if that is asked for. Which rules these are is left
/// open.
#[verifier::external_body]
fn pluralize(word: &str, count: isize, include_count: bool) -> (s: String)
    ensures
        exists|rules: int| s@ == #[trigger] plural_text(rules, word@, count, include_count),
        include_count ==> s@.len() > signed_decimal(count as int).len() && s@.take(
            signed_decimal(count as int).len() as int + 1,
        ) == signed_decimal(count as int).push(' '),
{
    pluralizer::pluralize(word, count, include_count)
}

/// What is said at the end of a game that took so many rounds, given the words for their number.
pub open spec fn rounds_report(verdict: Verdict, rounds: Seq<char>) -> Seq<char> {
    match verdict {
        Verdict::Solved(word) => "the game is solved in "@ + rounds + ": "@ + word@,
        Verdict::Inconsistent => inconsistent_report(),
    }
}

/// What is said at the end of a game that took so many rounds, given the words for their number.
pub fn rounds_line(verdict: &Verdict, rounds: &str) -> (s: String)
    ensures
        s@ == rounds_report(*verdict, rounds@),
{
    match verdict {
        Verdict::Solved(word) => {
            let mut s = "the game is solved in ".to_owned();
            s.append(rounds);
            s.append(": ");
            s.append(word.as_str());
            s
        },
        Verdict::Inconsistent => "game is inconsistent :(".to_owned(),
    }
}

/// Whether `s` is a number behind which one space and some word stand.
pub open spec fn counts(s: Seq<char>, count: int) -> bool {
    exists|word: Seq<char>| s == #[trigger] (signed_decimal(count).push(' ') + word)
}

/// Whether `s` is what is said at the end of a game that took `rounds` rounds, by some rules for
/// the form of the word for them.
pub open spec fn tells_rounds(verdict: Verdict, rounds: isize, s: Seq<char>) -> bool {
    exists|rules: int|
        {
            let text = #[trigger] plural_text(rules, "round"@, rounds, true);
            counts(text, rounds as int) && s == rounds_report(verdict, text)
        }
}

/// What is said at the end of a game that took `rounds` rounds.
pub fn end_of_rounds(verdict: &Verdict, rounds: isize) -> (s: String)
    ensures
        tells_rounds(*verdict, rounds, s@),
{
    let text = pluralize("round", rounds, true);
    proof {
        let n = signed_decimal(rounds as int).len() as int + 1;
        assert(text@ == text@.take(n) + text@.skip(n));
        assert(counts(text@, rounds as int));
    }
    rounds_line(verdict, text.as_str())
}

}
