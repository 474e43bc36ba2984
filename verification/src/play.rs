//! A game in which a player is shown the best guesses and types the results.

use crate::bank::{bank_words, length_of};
use crate::dispatch::GuesserDispatch;
use crate::entry::{entry_is, interpret, Entry};
use crate::guesser::{
    candidates, fits_turn, lemma_by_score, ranking, turn_fits, Ask, GuessFrom, ScoredGuess,
    Scoring, Trace,
};
use crate::letters::{outcome_is, parse_outcome, GuessResult, LetterResult, Outcome};
use crate::report::{lines_of, listing, Verdict};
use crate::response::WordleError;
use crate::text::chars_of;
use rs_wordle_solver::WordBank;
use vstd::prelude::*;

verus! {

/// The length of the words of the game.
pub const WORD_LENGTH: usize = 5;

/// The last place of a list that can be typed in place of a guess.
pub const MAX_INDEX: usize = 4;

/// What follows from what a player typed for a guess.
#[derive(Clone, Debug, PartialEq, Eq)]
pub enum Reply {
    /// These lines are shown, and the question is put again.
    Listed(Vec<String>),
    /// The question is put again.
    Again,
    /// The game is left.
    Quit,
    /// This is the guess.
    Chosen(String),
}

/// A game.
pub struct Game {
    /// The words of the game.
    pub bank: WordBank,
    pub guesser: GuesserDispatch,
    /// How many guesses are listed in the first round.
    pub first_n: usize,
    /// How many guesses are listed in every other round.
    pub next_n: usize,
    /// Whether no round was begun yet.
    pub first_guess: bool,
    /// The guesses that were listed when the round began.
    pub guesses: Vec<ScoredGuess>,
    /// Up to where guesses were asked for in this round.
    pub how_many_total: usize,
    /// The guess of this round.
    pub guess: String,
}

impl Game {
    /// The words of the game.
    pub open spec fn words(self) -> Seq<Seq<char>> {
        bank_words(self.bank)
    }

    /// What the guesser of the game was made from, told and asked.
    pub open spec fn trace(self) -> Trace {
        self.guesser.trace()
    }

    /// Whether the guesser is one for the words of the game, which were never given scores and
    /// are only ever chosen from as far as they are possible.
    pub open spec fn wf(self) -> bool {
        &&& self.guesser.wf()
        &&& self.trace().bank == self.words()
        &&& self.trace().from == GuessFrom::PossibleWords
        &&& forall|i: int|
            0 <= i < self.trace().asked.len() ==> #[trigger] self.trace().asked[i] == Ask::Select(
                GuessFrom::PossibleWords,
            )
    }

    /// Whether what was typed names a guess of the list, or a number of guesses that can be
    /// listed.
    pub open spec fn takes(self, entry: Entry) -> bool {
        match entry {
            Entry::More(n) => self.how_many_total + n <= usize::MAX,
            Entry::Index(p) => 1 <= p <= self.guesses@.len(),
            _ => true,
        }
    }

    /// The game as it is before its first round.
    pub fn new(bank: WordBank, thorough: bool, first_n: usize, next_n: usize) -> (r: Game)
        ensures
            r.wf(),
            r.bank == bank,
            r.trace() == Trace::fresh(
                if thorough {
                    Scoring::Combo { from: GuessFrom::AllUnguessedWords, threshold: 256 }
                } else {
                    Scoring::Eliminations
                },
                GuessFrom::PossibleWords,
                bank_words(bank),
            ),
            r.trace().possible() == bank_words(bank),
            r.first_n == first_n,
            r.next_n == next_n,
            r.first_guess,
            r.guesses@.len() == 0,
    {
        let guesser = GuesserDispatch::new(&bank, thorough);
        Game {
            bank,
            guesser,
            first_n,
            next_n,
            first_guess: true,
            guesses: Vec::new(),
            how_many_total: next_n,
            guess: String::new(),
        }
    }

    /// Whether the game goes on: more than one word is possible.
    pub fn is_running(&self) -> (r: bool)
        ensures
            r == (self.trace().possible().len() > 1),
    {
        self.guesser.possible_words().len() > 1
    }

    /// Whether the words of the game can be scored.
    pub fn can_score(&self) -> (r: bool)
        requires
            self.wf(),
        ensures
            r == self.trace().scorable(),
    {
        self.guesser.can_score(&self.bank)
    }

    /// What the next choice of guesses is called.
    pub fn phase(&self) -> (s: &'static str)
        ensures
            s@ == if self.first_guess {
                "first guess"@
            } else {
                "next guess"@
            },
    {
        if self.first_guess {
            "first guess"
        } else {
            "next guess"
        }
    }

    /// Begins a round: chooses the guesses to list, and gives the lines of the list.
    pub fn begin_round(&mut self) -> (lines: Vec<String>)
        requires
            old(self).wf(),
            old(self).trace().scorable(),
        ensures
            final(self).wf(),
            final(self).trace() == old(self).trace().selecting(GuessFrom::PossibleWords),
            ranking(final(self).trace()) == ranking(old(self).trace()),
            final(self).trace().ranked().to_multiset()
                == final(self).trace().possible().to_multiset(),
            ranking(final(self).trace()).len() == final(self).trace().possible().len(),
            old(self).trace().offers(
                if old(self).first_guess {
                    old(self).first_n
                } else {
                    old(self).next_n
                },
                final(self).guesses@,
            ),
            lines.deep_view() == lines_of(final(self).guesses@, 0),
            !final(self).first_guess,
            final(self).how_many_total == old(self).next_n,
            final(self).bank == old(self).bank,
            final(self).first_n == old(self).first_n,
            final(self).next_n == old(self).next_n,
            final(self).guess == old(self).guess,
    {
        let n: usize = if self.first_guess {
            self.first_n
        } else {
            self.next_n
        };
        self.first_guess = false;
        proof {
            lemma_nothing_given(self.trace());
        }
        self.guesses = self.guesser.select_top_n_guesses(n);
        proof {
            broadcast use vstd::seq_lib::group_to_multiset_ensures;

            let trace = self.trace();
            lemma_by_score(candidates(trace, trace.from));
            assert(trace.ranked().to_multiset().len() == trace.possible().to_multiset().len());
        }
        self.how_many_total = self.next_n;
        listing(&self.guesses, 0)
    }

    /// Reads what a player typed for a guess.
    pub fn read_guess(&self, line: &str) -> (entry: Entry)
        ensures
            entry_is(line@, 5, 4, self.words(), entry),
    {
        interpret(line, WORD_LENGTH, MAX_INDEX, &self.bank)
    }

    /// Whether what was typed names a guess of the list, or a number of guesses that can be
    /// listed.
    pub fn can_take(&self, entry: &Entry) -> (r: bool)
        ensures
            r == self.takes(*entry),
    {
        match entry {
            Entry::More(n) => *n <= usize::MAX - self.how_many_total,
            Entry::Index(p) => 1 <= *p && *p <= self.guesses.len(),
            _ => true,
        }
    }

    /// Follows what a player typed for a guess. A request for more lists as many guesses more;
    /// the places that can be typed still are those of the list that the round began with.
    pub fn take(&mut self, entry: Entry) -> (reply: Reply)
        requires
            old(self).wf(),
            old(self).trace().scorable(),
            old(self).takes(entry),
        ensures
            final(self).wf(),
            final(self).bank == old(self).bank,
            final(self).first_n == old(self).first_n,
            final(self).next_n == old(self).next_n,
            final(self).first_guess == old(self).first_guess,
            final(self).guesses == old(self).guesses,
            match entry {
                Entry::More(n) => {
                    &&& final(self).trace() == old(self).trace().selecting(GuessFrom::PossibleWords)
                    &&& ranking(final(self).trace()) == ranking(old(self).trace())
                    &&& final(self).how_many_total == old(self).how_many_total + n
                    &&& final(self).guess == old(self).guess
                    &&& reply matches Reply::Listed(lines) && exists|more: Seq<ScoredGuess>|
                        old(self).trace().offers(final(self).how_many_total, more)
                            && lines.deep_view() == #[trigger] lines_of(
                            more,
                            old(self).how_many_total as nat,
                        )
                },
                _ => {
                    &&& final(self).guesser == old(self).guesser
                    &&& final(self).how_many_total == old(self).how_many_total
                },
            },
            match entry {
                Entry::More(_) => true,
                Entry::Index(p) => final(self).guess@ == old(self).guesses@[p - 1].guess@ && (
                reply matches Reply::Chosen(guess) && guess@ == final(self).guess@),
                Entry::Word(word) => final(self).guess@ == word@ && (reply matches Reply::Chosen(
                    guess,
                ) && guess@ == final(self).guess@),
                Entry::EndOfInput => reply == Reply::Quit && final(self).guess == old(self).guess,
                Entry::Nothing => reply == Reply::Again && final(self).guess == old(self).guess,
            },
    {
        match entry {
            Entry::More(n) => {
                let before: usize = self.how_many_total;
                self.how_many_total = before + n;
                proof {
                    lemma_nothing_given(self.trace());
                }
                let more = self.guesser.select_top_n_guesses(self.how_many_total);
                let lines = listing(&more, before);
                assert(lines.deep_view() == lines_of(more@, before as nat));
                Reply::Listed(lines)
            },
            Entry::Index(p) => {
                self.guess = self.guesses[p - 1].guess.clone();
                Reply::Chosen(self.guess.clone())
            },
            Entry::Word(word) => {
                self.guess = word;
                Reply::Chosen(self.guess.clone())
            },
            Entry::EndOfInput => Reply::Quit,
            Entry::Nothing => Reply::Again,
        }
    }

    /// Reads the results that a player typed for the guess.
    pub fn read_outcome(&self, line: &str) -> (outcome: Outcome)
        ensures
            outcome_is(line@, 5, outcome),
    {
        parse_outcome(line, WORD_LENGTH)
    }

    /// Whether the guesser can be told so many results for the guess.
    pub fn can_tell(&self, results: &Vec<LetterResult>) -> (r: bool)
        ensures
            r == turn_fits(length_of(self.words()), self.guess@, results@.len()),
    {
        fits_turn(self.bank.word_length(), &chars_of(self.guess.as_str()), results.len())
    }

    /// Tells the guesser the results of the guess.
    pub fn tell(&mut self, results: Vec<LetterResult>) -> (r: Result<(), WordleError>)
        requires
            old(self).wf(),
            turn_fits(length_of(old(self).words()), old(self).guess@, results@.len()),
        ensures
            final(self).wf(),
            final(self).trace() == old(self).trace().told(old(self).guess@, results@),
            old(self).trace().settles(old(self).guess@, results@, r),
            final(self).bank == old(self).bank,
            final(self).first_n == old(self).first_n,
            final(self).next_n == old(self).next_n,
            final(self).first_guess == old(self).first_guess,
            final(self).guesses == old(self).guesses,
            final(self).how_many_total == old(self).how_many_total,
            final(self).guess == old(self).guess,
    {
        let guess = self.guess.clone();
        self.guesser.update(&GuessResult { guess: guess.as_str(), results })
    }

    /// How the game ended.
    pub fn verdict(&self) -> (verdict: Verdict)
        requires
            self.trace().possible().len() <= 1,
        ensures
            match verdict {
                Verdict::Solved(word) => self.trace().possible() == seq![word@],
                Verdict::Inconsistent => self.trace().possible().len() == 0,
            },
    {
        let possible = self.guesser.possible_words();
        if possible.len() == 0 {
            Verdict::Inconsistent
        } else {
            let word: &str = &possible[0];
            assert(word@ == possible@[0]@);
            assert(self.trace().possible() == seq![word@]);
            Verdict::Solved(word.to_owned())
        }
    }
}

/// A guesser that was never given scores has none that is out of range.
proof fn lemma_nothing_given(trace: Trace)
    requires
        forall|i: int|
            0 <= i < trace.asked.len() ==> #[trigger] trace.asked[i] == Ask::Select(
                GuessFrom::PossibleWords,
            ),
    ensures
        trace.given() == Map::<Seq<char>, i64>::empty(),
    decreases trace.asked.len(),
{
    if trace.asked.len() > 0 {
        assert(trace.asked.last() == trace.asked[trace.asked.len() - 1]);
        let before = Trace { asked: trace.asked.drop_last(), ..trace };
        assert forall|i: int| 0 <= i < before.asked.len() implies #[trigger] before.asked[i]
            == Ask::Select(GuessFrom::PossibleWords) by {
            assert(before.asked[i] == trace.asked[i]);
        }
        lemma_nothing_given(before);
    }
}

}
