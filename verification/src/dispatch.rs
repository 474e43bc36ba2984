//! The guesser of a game, which scores words cheaply or thoroughly.

use crate::bank::{bank_is_ascii, bank_words, length_of};
use crate::guesser::{
    candidates, cheap_limit, cheap_trace, combo_scorer, lemma_best_is_ranked, ranking,
    thorough_limit, thorough_trace, turn_fits, CheapGuesser, GuessFrom, ScoredGuess, Scoring,
    ThoroughGuesser, Trace,
};
use crate::letters::GuessResult;
use crate::response::WordleError;
use rs_wordle_solver::scorers::MaxEliminationsScorer;
use rs_wordle_solver::WordBank;
use std::sync::Arc;
use vstd::pervasive::unreached;
use vstd::prelude::*;

verus! {

/// The number of possible words up to which a thorough score looks at one guess only.
pub const COMBO_THRESHOLD: usize = 256;

/// The thorough way to score words.
pub open spec fn thorough_scoring() -> Scoring {
    Scoring::Combo { from: GuessFrom::AllUnguessedWords, threshold: COMBO_THRESHOLD }
}

/// A guesser that scores words cheaply, by one guess, or thoroughly, by two.
pub enum GuesserDispatch {
    Cheap(CheapGuesser),
    Thorough(ThoroughGuesser),
}

impl GuesserDispatch {
    /// What the guesser was made from, told and asked.
    pub open spec fn trace(self) -> Trace {
        match self {
            GuesserDispatch::Cheap(guesser) => cheap_trace(guesser),
            GuesserDispatch::Thorough(guesser) => thorough_trace(guesser),
        }
    }

    /// The number of words above which the guesser looks for the best one in parallel.
    pub open spec fn limit(self) -> nat {
        match self {
            GuesserDispatch::Cheap(guesser) => cheap_limit(guesser),
            GuesserDispatch::Thorough(guesser) => thorough_limit(guesser),
        }
    }

    /// Whether two guessers are of one kind.
    pub open spec fn same_kind(self, other: GuesserDispatch) -> bool {
        self is Cheap <==> other is Cheap
    }

    /// Whether the guesser scores words in the way that it says.
    pub open spec fn wf(self) -> bool {
        match self {
            GuesserDispatch::Cheap(_) => self.trace().scoring == Scoring::Eliminations,
            GuesserDispatch::Thorough(_) => self.trace().scoring == thorough_scoring(),
        }
    }

    /// A guesser for the words of a bank, which chooses its guesses from the possible words.
    pub fn new(bank: &WordBank, thorough: bool) -> (r: GuesserDispatch)
        ensures
            r.wf(),
            r is Thorough <==> thorough,
            r.trace() == Trace::fresh(
                if thorough {
                    Scoring::Combo { from: GuessFrom::AllUnguessedWords, threshold: 256 }
                } else {
                    Scoring::Eliminations
                },
                GuessFrom::PossibleWords,
                bank_words(*bank),
            ),
            r.trace().possible() == bank_words(*bank),
    {
        if thorough {
            match combo_scorer(bank.clone(), GuessFrom::AllUnguessedWords, COMBO_THRESHOLD) {
                Ok(scorer) => GuesserDispatch::Thorough(
                    ThoroughGuesser::new(GuessFrom::PossibleWords, bank.clone(), scorer),
                ),
                Err(_) => unreached(),
            }
        } else {
            GuesserDispatch::Cheap(
                CheapGuesser::new(
                    GuessFrom::PossibleWords,
                    bank.clone(),
                    MaxEliminationsScorer::new(bank.clone()),
                ),
            )
        }
    }

    /// Whether the guesser, which is one for the words of `bank`, can score them.
    pub fn can_score(&self, bank: &WordBank) -> (r: bool)
        requires
            self.wf(),
            self.trace().bank == bank_words(*bank),
        ensures
            r == self.trace().scorable(),
    {
        match self {
            GuesserDispatch::Cheap(_) => bank.word_length() <= 16,
            GuesserDispatch::Thorough(_) => bank.word_length() <= 16 && (bank.len()
                <= COMBO_THRESHOLD || bank_is_ascii(bank)),
        }
    }

    /// Tells the guesser the results of a guess.
    pub fn update(&mut self, result: &GuessResult) -> (r: Result<(), WordleError>)
        requires
            turn_fits(length_of(old(self).trace().bank), result.guess@, result.results@.len()),
        ensures
            old(self).wf() ==> final(self).wf(),
            final(self).same_kind(*old(self)),
            final(self).limit() == old(self).limit(),
            final(self).trace() == old(self).trace().told(result.guess@, result.results@),
            old(self).trace().settles(result.guess@, result.results@, r),
    {
        match self {
            GuesserDispatch::Cheap(guesser) => guesser.update(result),
            GuesserDispatch::Thorough(guesser) => guesser.update(result),
        }
    }

    /// The best guess of the guesser's own set of words.
    pub fn select_next_guess(&mut self) -> (r: Option<Arc<str>>)
        requires
            old(self).trace().scorable(),
        ensures
            old(self).wf() ==> final(self).wf(),
            final(self).same_kind(*old(self)),
            final(self).limit() == old(self).limit(),
            final(self).trace() == old(self).trace().selecting(old(self).trace().from),
            candidates(final(self).trace(), old(self).trace().from) == candidates(
                old(self).trace(),
                old(self).trace().from,
            ),
            match r {
                Some(w) => old(self).trace().chooses(
                    old(self).trace().from,
                    old(self).limit(),
                    Some(w@),
                ),
                None => old(self).trace().chooses(old(self).trace().from, old(self).limit(), None),
            },
            r matches Some(w) ==> old(self).trace().bank.contains(w@),
            final(self).trace().draws_from(old(self).trace().from),
            final(self).trace().above_least(old(self).trace().from),
            final(self).trace().own_scores(),
    {
        match self {
            GuesserDispatch::Cheap(guesser) => guesser.select_next_guess(),
            GuesserDispatch::Thorough(guesser) => guesser.select_next_guess(),
        }
    }

    /// The best guess of the given set of words.
    pub fn select_next_guess_from(&mut self, from: GuessFrom) -> (r: Option<Arc<str>>)
        requires
            old(self).trace().scorable(),
        ensures
            old(self).wf() ==> final(self).wf(),
            final(self).same_kind(*old(self)),
            final(self).limit() == old(self).limit(),
            final(self).trace() == old(self).trace().selecting(from),
            candidates(final(self).trace(), from) == candidates(old(self).trace(), from),
            match r {
                Some(w) => old(self).trace().chooses(from, old(self).limit(), Some(w@)),
                None => old(self).trace().chooses(from, old(self).limit(), None),
            },
            r matches Some(w) ==> old(self).trace().bank.contains(w@),
            from == GuessFrom::PossibleWords || old(self).trace().possible().len() <= 2 ==> (
            r matches Some(w) ==> old(self).trace().possible().contains(w@)),
            from == old(self).trace().from ==> (r matches Some(w) ==> w@ == ranking(
                old(self).trace(),
            )[0].0),
            final(self).trace().draws_from(from),
            final(self).trace().above_least(from),
            final(self).trace().own_scores(),
    {
        let r = match self {
            GuesserDispatch::Cheap(guesser) => guesser.select_next_guess_from(from),
            GuesserDispatch::Thorough(guesser) => guesser.select_next_guess_from(from),
        };
        proof {
            if candidates(old(self).trace(), from).len() > 0 {
                lemma_best_is_ranked(candidates(old(self).trace(), from));
            }
        }
        r
    }

    /// The words that can still be the objective.
    pub fn possible_words(&self) -> (r: &[Arc<str>])
        ensures
            r@.len() == self.trace().possible().len(),
            forall|i: int|
                0 <= i < r@.len() ==> (#[trigger] r@[i])@ == self.trace().possible()[i],
    {
        match self {
            GuesserDispatch::Cheap(guesser) => guesser.possible_words(),
            GuesserDispatch::Thorough(guesser) => guesser.possible_words(),
        }
    }

    /// The best `n` guesses, or all of them if there are fewer.
    pub fn select_top_n_guesses(&mut self, n: usize) -> (r: Vec<ScoredGuess>)
        requires
            old(self).trace().scorable(),
            old(self).trace().in_range(),
        ensures
            old(self).wf() ==> final(self).wf(),
            final(self).same_kind(*old(self)),
            final(self).limit() == old(self).limit(),
            final(self).trace() == old(self).trace().selecting(old(self).trace().from),
            candidates(final(self).trace(), old(self).trace().from) == candidates(
                old(self).trace(),
                old(self).trace().from,
            ),
            old(self).trace().offers(n, r@),
            final(self).trace().draws_from(old(self).trace().from),
            final(self).trace().above_least(old(self).trace().from),
            final(self).trace().own_scores(),
    {
        match self {
            GuesserDispatch::Cheap(guesser) => guesser.select_top_n_guesses(n),
            GuesserDispatch::Thorough(guesser) => guesser.select_top_n_guesses(n),
        }
    }
}

}
