//! A game that starts out with scores that were baked beforehand, against a player or against a
//! simulated target.

use crate::bank::{bank_holds, bank_is_ascii, bank_words, length_of, one_length};
use crate::dispatch::{thorough_scoring, COMBO_THRESHOLD};
use crate::entry::{entry_is, interpret, Entry};
use crate::guesser::{
    combo_scorer, fits_turn, ranking, score_map, thorough_trace, turn_fits, Ask, GuessFrom,
    ScoredGuess, Scoring, ThoroughGuesser, Trace,
};
use crate::letters::{
    marks_of, outcome_is, parse_outcome, push_marks, GuessResult, LetterResult, Outcome,
};
use crate::play::Reply;
use crate::report::{
    end_of_rounds, lines_of, listing, rest_note, rest_of, tells_rounds, Verdict,
};
use crate::response::{answer, simulate, WordleError};
use crate::text::{ascii_lowered, byte_len, chars_of, decimal, lower, push_decimal, string_of};
use rs_wordle_solver::WordBank;
use vstd::pervasive::unreached;
use vstd::prelude::*;

verus! {

/// Whether a list of words can be solved: its words can be scored thoroughly.
pub open spec fn solvable(words: Seq<Seq<char>>) -> bool {
    Trace::fresh(thorough_scoring(), GuessFrom::AllUnguessedWords, words).scorable()
}

/// Whether the words of a bank can be solved.
pub fn can_solve(bank: &WordBank) -> (r: bool)
    ensures
        r == solvable(bank_words(*bank)),
{
    bank.word_length() <= 16 && (bank.len() <= COMBO_THRESHOLD || bank_is_ascii(bank))
}

/// A new guesser that scores words thoroughly and chooses from every word not guessed yet.
pub fn thorough_guesser(bank: &WordBank) -> (r: ThoroughGuesser)
    ensures
        thorough_trace(r) == Trace::fresh(
            Scoring::Combo { from: GuessFrom::AllUnguessedWords, threshold: 256 },
            GuessFrom::AllUnguessedWords,
            bank_words(*bank),
        ),
        thorough_trace(r).possible() == bank_words(*bank),
{
    match combo_scorer(bank.clone(), GuessFrom::AllUnguessedWords, COMBO_THRESHOLD) {
        Ok(scorer) => ThoroughGuesser::new(GuessFrom::AllUnguessedWords, bank.clone(), scorer),
        Err(_) => unreached(),
    }
}

/// The target of a simulated game, in small letters: none if the bank does not hold it.
pub fn simulation_target(target: &str, bank: &WordBank) -> (r: Option<String>)
    ensures
        match r {
            Some(t) => t@ == ascii_lowered(target@) && bank_words(*bank).contains(t@),
            None => !bank_words(*bank).contains(ascii_lowered(target@)),
        },
{
    let low = lower(&chars_of(target));
    if bank_holds(bank, &low) {
        Some(string_of(&low))
    } else {
        None
    }
}

/// Where the scores of a state are stored, given the path of the state.
pub open spec fn score_path_of(path: Seq<char>) -> Seq<char> {
    path + "/score"@
}

/// Where the scores of a state are stored, given the path of the state.
pub fn score_path(path: &str) -> (s: String)
    ensures
        s@ == score_path_of(path@),
{
    let mut s = path.to_owned();
    s.append("/score");
    s
}

/// The path of the state before any guess.
pub open spec fn base_path() -> Seq<char> {
    "/0"@
}

/// The path of the state that results lead to.
pub open spec fn path_after(path: Seq<char>, results: Seq<LetterResult>) -> Seq<char> {
    path.push('/') + marks_of(results)
}

/// How a round opens.
pub struct Opening {
    /// The lines of the list of guesses.
    pub lines: Vec<String>,
    /// What is said of the possible words that are not in the list.
    pub rest: Option<String>,
}

/// What follows once the guesser was told the results of a guess.
#[derive(Clone, Debug, PartialEq, Eq)]
pub enum Next {
    /// The game is over: one word is possible, or none.
    Finished,
    /// The scores of this path are to be loaded for the next round.
    Load(String),
    /// The game has left the states that scores were baked for.
    Unbaked,
}

/// A game with baked scores.
pub struct Solver {
    /// The words of the game.
    pub bank: WordBank,
    pub guesser: ThoroughGuesser,
    /// How many guesses are listed in the first round.
    pub first_n: usize,
    /// How many guesses are listed in every other round.
    pub next_n: usize,
    /// Whether no round was begun yet.
    pub first_guess: bool,
    /// How many rounds were begun.
    pub round: isize,
    /// The guesses that were listed last.
    pub guesses: Vec<ScoredGuess>,
    /// Up to where guesses were asked for in this round.
    pub how_many_total: usize,
    /// The best guess of this round.
    pub best: String,
    /// The guess of this round.
    pub guess: String,
    /// The path of the state that the game is in, as far as its scores are baked.
    pub bake_path: String,
}

impl Solver {
    /// The words of the game.
    pub open spec fn words(self) -> Seq<Seq<char>> {
        bank_words(self.bank)
    }

    /// What the guesser of the game was made from, told and asked.
    pub open spec fn trace(self) -> Trace {
        thorough_trace(self.guesser)
    }

    /// Whether the guesser is one for the words of the game, with scores that can be ranked, and
    /// the listed guesses are words of the game.
    pub open spec fn wf(self) -> bool {
        &&& self.trace().bank == self.words()
        &&& self.trace().from == GuessFrom::AllUnguessedWords
        &&& self.trace().scoring == thorough_scoring()
        &&& self.trace().in_range()
        &&& self.trace().plain()
        &&& solvable(self.words())
        &&& one_length(self.words())
        &&& forall|i: int|
            0 <= i < self.guesses@.len() ==> self.words().contains(
                (#[trigger] self.guesses@[i]).guess@,
            )
    }

    /// Whether what was typed names a guess of the list, or a number of guesses that can be
    /// listed.
    pub open spec fn takes(self, entry: Entry) -> bool {
        match entry {
            Entry::More(n) => self.how_many_total + n <= usize::MAX,
            Entry::Index(p) => 1 <= p <= self.guesses@.len(),
            _ => true,
        }
    }

    /// The game as it is before its first round, with the scores of the first state.
    pub fn new(bank: WordBank, scores: &Vec<(String, i64)>, first_n: usize, next_n: usize) -> (r:
        Solver)
        requires
            solvable(bank_words(bank)),
            forall|w: Seq<char>| #[trigger]
                score_map(scores@).contains_key(w) ==> score_map(scores@)[w] > i64::MIN,
        ensures
            r.wf(),
            r.bank == bank,
            r.trace() == Trace::fresh(
                Scoring::Combo { from: GuessFrom::AllUnguessedWords, threshold: 256 },
                GuessFrom::AllUnguessedWords,
                bank_words(bank),
            ).scored(score_map(scores@)),
            r.trace().possible() == bank_words(bank),
            r.first_n == first_n,
            r.next_n == next_n,
            r.first_guess,
            r.round == 0,
            r.guesses@.len() == 0,
            r.bake_path@ == base_path(),
    {
        let guesser = thorough_guesser(&bank).with_scores(scores);
        // The words of a bank are all of one length.
        let _length: usize = bank.word_length();
        proof {
            let fresh = Trace::fresh(
                Scoring::Combo { from: GuessFrom::AllUnguessedWords, threshold: 256 },
                GuessFrom::AllUnguessedWords,
                bank_words(bank),
            );
            assert(fresh.scored(score_map(scores@)).asked.drop_last() == fresh.asked);
        }
        Solver {
            bank,
            guesser,
            first_n,
            next_n,
            first_guess: true,
            round: 0,
            guesses: Vec::new(),
            how_many_total: first_n,
            best: String::new(),
            guess: String::new(),
            bake_path: "/0".to_owned(),
        }
    }

    /// Whether the game goes on: more than one word is possible.
    pub fn is_running(&self) -> (r: bool)
        ensures
            r == (self.trace().possible().len() > 1),
    {
        self.guesser.possible_words().len() > 1
    }

    /// What the next choice of guesses is called.
    pub fn phase(&self) -> (s: &'static str)
        ensures
            s@ == if self.first_guess {
                "first guess"@
            } else {
                "next guess"@
            },
    {
        if self.first_guess {
            "first guess"
        } else {
            "next guess"
        }
    }

    /// Begins a round: chooses the guesses to list, and gives the list. There is no round where
    /// there is no guess to list.
    pub fn begin_round(&mut self) -> (r: Option<Opening>)
        requires
            old(self).wf(),
            old(self).round < isize::MAX,
        ensures
            final(self).wf(),
            final(self).trace() == old(self).trace().selecting(GuessFrom::AllUnguessedWords),
            ranking(final(self).trace()) == ranking(old(self).trace()),
            final(self).how_many_total == if old(self).first_guess {
                old(self).first_n
            } else {
                old(self).next_n
            },
            old(self).trace().offers(final(self).how_many_total, final(self).guesses@),
            final(self).trace().draws_from(GuessFrom::AllUnguessedWords),
            match r {
                Some(opening) => {
                    &&& final(self).guesses@.len() > 0
                    &&& final(self).best@ == final(self).guesses@[0].guess@
                    &&& opening.lines.deep_view() == lines_of(final(self).guesses@, 0)
                    &&& match opening.rest {
                        Some(s) => rest_of(
                            old(self).trace().possible().len(),
                            final(self).guesses@.len(),
                        ) == Some(s@),
                        None => rest_of(
                            old(self).trace().possible().len(),
                            final(self).guesses@.len(),
                        ) is None,
                    }
                },
                None => final(self).guesses@.len() == 0 && final(self).best == old(self).best,
            },
            final(self).bake_path@ == if old(self).first_guess {
                Seq::<char>::empty()
            } else {
                old(self).bake_path@
            },
            final(self).round == old(self).round + 1,
            !final(self).first_guess,
            final(self).bank == old(self).bank,
            final(self).first_n == old(self).first_n,
            final(self).next_n == old(self).next_n,
            final(self).guess == old(self).guess,
    {
        self.round = self.round + 1;
        if self.first_guess {
            self.first_guess = false;
            self.bake_path = String::new();
            self.how_many_total = self.first_n;
        } else {
            self.how_many_total = self.next_n;
        }
        let ghost before = self.trace();
        self.guesses = self.guesser.select_top_n_guesses(self.how_many_total);
        proof {
            lemma_selecting(before);
        }
        if self.guesses.len() == 0 {
            return None;
        }
        self.best = self.guesses[0].guess.clone();
        let lines = listing(&self.guesses, 0);
        let rest = rest_note(self.guesser.possible_words().len(), self.guesses.len());
        Some(Opening { lines, rest })
    }

    /// What is asked at the beginning of a round.
    pub fn prompt(&self) -> (s: String)
        requires
            self.round >= 0,
        ensures
            s@ == "round "@ + decimal(self.round as nat)
                + ", enter your guess (word or index) or !more <x>: "@,
    {
        let mut s = "round ".to_owned();
        push_decimal(&mut s, self.round as u64);
        s.append(", enter your guess (word or index) or !more <x>: ");
        s
    }

    /// Reads what a player typed for a guess.
    pub fn read_guess(&self, line: &str) -> (entry: Entry)
        ensures
            entry_is(
                line@,
                length_of(self.words()),
                self.how_many_total,
                self.words(),
                entry,
            ),
    {
        interpret(line, self.bank.word_length(), self.how_many_total, &self.bank)
    }

    /// Whether what was typed names a guess of the list, or a number of guesses that can be
    /// listed.
    pub fn can_take(&self, entry: &Entry) -> (r: bool)
        ensures
            r == self.takes(*entry),
    {
        match entry {
            Entry::More(n) => *n <= usize::MAX - self.how_many_total,
            Entry::Index(p) => 1 <= *p && *p <= self.guesses.len(),
            _ => true,
        }
    }

    /// Follows what a player typed for a guess. A request for more lists as many guesses more,
    /// which can be typed by their places from then on.
    pub fn take(&mut self, entry: Entry) -> (reply: Reply)
        requires
            old(self).wf(),
            old(self).takes(entry),
        ensures
            final(self).wf(),
            final(self).bank == old(self).bank,
            final(self).first_n == old(self).first_n,
            final(self).next_n == old(self).next_n,
            final(self).first_guess == old(self).first_guess,
            final(self).round == old(self).round,
            final(self).best == old(self).best,
            final(self).bake_path == old(self).bake_path,
            match entry {
                Entry::More(n) => {
                    &&& final(self).trace() == old(self).trace().selecting(
                        GuessFrom::AllUnguessedWords,
                    )
                    &&& ranking(final(self).trace()) == ranking(old(self).trace())
                    &&& final(self).how_many_total == old(self).how_many_total + n
                    &&& old(self).trace().offers(
                        final(self).how_many_total,
                        final(self).guesses@,
                    )
                    &&& final(self).guess == old(self).guess
                    &&& reply matches Reply::Listed(lines) && lines.deep_view() == lines_of(
                        final(self).guesses@,
                        old(self).how_many_total as nat,
                    )
                },
                _ => {
                    &&& final(self).guesser == old(self).guesser
                    &&& final(self).how_many_total == old(self).how_many_total
                    &&& final(self).guesses == old(self).guesses
                },
            },
            match entry {
                Entry::More(_) => true,
                Entry::Index(p) => final(self).guess@ == old(self).guesses@[p - 1].guess@ && (
                reply matches Reply::Chosen(guess) && guess@ == final(self).guess@) && byte_len(
                    final(self).guess@,
                ) == length_of(final(self).words()),
                Entry::Word(word) => final(self).guess@ == word@ && (reply matches Reply::Chosen(
                    guess,
                ) && guess@ == final(self).guess@),
                Entry::EndOfInput => reply == Reply::Quit && final(self).guess == old(self).guess,
                Entry::Nothing => reply == Reply::Again && final(self).guess == old(self).guess,
            },
    {
        match entry {
            Entry::More(n) => {
                let before: usize = self.how_many_total;
                self.how_many_total = before + n;
                let ghost trace = self.trace();
                self.guesses = self.guesser.select_top_n_guesses(self.how_many_total);
                proof {
                    lemma_selecting(trace);
                }
                Reply::Listed(listing(&self.guesses, before))
            },
            Entry::Index(p) => {
                self.guess = self.guesses[p - 1].guess.clone();
                assert(self.words().contains(self.guesses@[p - 1].guess@));
                Reply::Chosen(self.guess.clone())
            },
            Entry::Word(word) => {
                self.guess = word;
                Reply::Chosen(self.guess.clone())
            },
            Entry::EndOfInput => Reply::Quit,
            Entry::Nothing => Reply::Again,
        }
    }

    /// The results of the guess against a simulated target.
    pub fn simulated(&self, target: &str) -> (r: Result<Vec<LetterResult>, WordleError>)
        ensures
            match r {
                Ok(results) => byte_len(target@) == byte_len(self.guess@) && results@ == answer(
                    target@,
                    self.guess@,
                ),
                Err(e) => byte_len(target@) != byte_len(self.guess@) && (
                e matches WordleError::WordLength(n) && n == byte_len(target@)),
            },
    {
        match simulate(target, self.guess.as_str()) {
            Ok(result) => Ok(result.results),
            Err(e) => Err(e),
        }
    }

    /// Reads the results that a player typed for the guess.
    pub fn read_outcome(&self, line: &str) -> (outcome: Outcome)
        ensures
            outcome_is(line@, length_of(self.words()), outcome),
    {
        parse_outcome(line, self.bank.word_length())
    }

    /// Whether the guesser can be told so many results for the guess.
    pub fn can_tell(&self, results: &Vec<LetterResult>) -> (r: bool)
        ensures
            r == turn_fits(length_of(self.words()), self.guess@, results@.len()),
    {
        fits_turn(self.bank.word_length(), &chars_of(self.guess.as_str()), results.len())
    }

    /// Tells the guesser the results of the guess. If the game goes on and the guess was the best
    /// one, the scores of the state that it leads to are to be loaded.
    pub fn tell(&mut self, results: Vec<LetterResult>) -> (r: Result<Next, WordleError>)
        requires
            old(self).wf(),
            turn_fits(length_of(old(self).words()), old(self).guess@, results@.len()),
        ensures
            final(self).wf(),
            final(self).trace() == old(self).trace().told(old(self).guess@, results@),
            old(self).trace().settles(
                old(self).guess@,
                results@,
                match r {
                    Ok(_) => Ok(()),
                    Err(e) => Err(e),
                },
            ),
            r matches Ok(next) ==> match next {
                Next::Finished => final(self).trace().possible().len() <= 1,
                Next::Load(path) => final(self).trace().possible().len() > 1 && old(self).guess@
                    == old(self).best@ && path@ == path_after(old(self).bake_path@, results@),
                Next::Unbaked => final(self).trace().possible().len() > 1 && old(self).guess@
                    != old(self).best@,
            },
            final(self).bake_path@ == match r {
                Ok(Next::Load(path)) => path@,
                _ => old(self).bake_path@,
            },
            final(self).bank == old(self).bank,
            final(self).first_n == old(self).first_n,
            final(self).next_n == old(self).next_n,
            final(self).first_guess == old(self).first_guess,
            final(self).round == old(self).round,
            final(self).guesses == old(self).guesses,
            final(self).how_many_total == old(self).how_many_total,
            final(self).best == old(self).best,
            final(self).guess == old(self).guess,
    {
        let guess = self.guess.clone();
        let result = GuessResult { guess: guess.as_str(), results };
        match self.guesser.update(&result) {
            Ok(()) => {},
            Err(e) => {
                return Err(e);
            },
        }
        if self.guesser.possible_words().len() <= 1 {
            return Ok(Next::Finished);
        }
        if self.guess == self.best {
            self.bake_path.push('/');
            push_marks(&mut self.bake_path, &result.results);
            Ok(Next::Load(self.bake_path.clone()))
        } else {
            Ok(Next::Unbaked)
        }
    }

    /// The game with the scores that were loaded for its state.
    pub fn use_scores(self, scores: &Vec<(String, i64)>) -> (r: Solver)
        requires
            self.wf(),
            forall|w: Seq<char>| #[trigger]
                score_map(scores@).contains_key(w) ==> score_map(scores@)[w] > i64::MIN,
        ensures
            r.wf(),
            r.trace() == self.trace().scored(score_map(scores@)),
            r == (Solver { guesser: r.guesser, ..self }),
    {
        proof {
            let after = self.trace().scored(score_map(scores@));
            assert(after.asked.drop_last() == self.trace().asked);
            assert forall|i: int| 0 <= i < after.asked.len() implies (
            #[trigger] after.asked[i] matches Ask::Select(from) ==> from
                == after.from) by {
                if i < self.trace().asked.len() {
                    assert(after.asked[i] == self.trace().asked[i]);
                }
            }
        }
        Solver {
            bank: self.bank,
            guesser: self.guesser.with_scores(scores),
            first_n: self.first_n,
            next_n: self.next_n,
            first_guess: self.first_guess,
            round: self.round,
            guesses: self.guesses,
            how_many_total: self.how_many_total,
            best: self.best,
            guess: self.guess,
            bake_path: self.bake_path,
        }
    }

    /// How the game ended.
    pub fn verdict(&self) -> (verdict: Verdict)
        requires
            self.trace().possible().len() <= 1,
        ensures
            match verdict {
                Verdict::Solved(word) => self.trace().possible() == seq![word@],
                Verdict::Inconsistent => self.trace().possible().len() == 0,
            },
    {
        let possible = self.guesser.possible_words();
        if possible.len() == 0 {
            Verdict::Inconsistent
        } else {
            let word: &str = &possible[0];
            assert(word@ == possible@[0]@);
            assert(self.trace().possible() == seq![word@]);
            Verdict::Solved(word.to_owned())
        }
    }

    /// What is said at the end of the game: the round that would come next is counted too.
    pub fn end_line(&self) -> (s: String)
        requires
            self.trace().possible().len() <= 1,
            self.round < isize::MAX,
        ensures
            exists|verdict: Verdict| #[trigger]
                tells_rounds(verdict, (self.round + 1) as isize, s@) && match verdict {
                    Verdict::Solved(word) => self.trace().possible() == seq![word@],
                    Verdict::Inconsistent => self.trace().possible().len() == 0,
                },
    {
        let verdict = self.verdict();
        end_of_rounds(&verdict, self.round + 1)
    }
}

/// To choose guesses from the guesser's own set of words keeps its scores as they are.
proof fn lemma_selecting(trace: Trace)
    requires
        trace.in_range(),
        trace.plain(),
    ensures
        trace.selecting(trace.from).given() == trace.given(),
        trace.selecting(trace.from).in_range(),
        trace.selecting(trace.from).plain(),
{
    let after = trace.selecting(trace.from);
    assert(after.asked.drop_last() == trace.asked);
    assert(after.asked.last() == Ask::Select(trace.from));
    assert(after.given() == trace.given());
    assert forall|w: Seq<char>| #[trigger] after.given().contains_key(w) implies after.given()[w]
        > i64::MIN by {
        assert(trace.given().contains_key(w));
    }
    assert forall|i: int| 0 <= i < after.asked.len() implies (
    #[trigger] after.asked[i] matches Ask::Select(from) ==> from == after.from) by {
        if i < trace.asked.len() {
            assert(after.asked[i] == trace.asked[i]);
        }
    }
}

}
