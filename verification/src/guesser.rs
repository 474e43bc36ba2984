//! The guessers that choose the next guess, and what was asked of them.

use crate::bank::{all_ascii, bank_words, length_of};
use crate::letters::{GuessResult, LetterResult};
use crate::response::{answer, WordleError};
use crate::text::{byte_len, byte_length, char_width, is_ascii_text};
use rs_wordle_solver::scorers::{MaxComboEliminationsScorer, MaxEliminationsScorer, WordScorer};
use rs_wordle_solver::{Guesser, MaxScoreGuesser, WordBank};
use std::sync::Arc;
use vstd::prelude::*;

verus! {

/// The set of words that the next guess is chosen from.
#[derive(Clone, Copy, Debug, PartialEq, Eq, Structural, Hash)]
pub enum GuessFrom {
    /// Any word of the bank that was not guessed yet.
    AllUnguessedWords,
    /// Any word that can still be the objective.
    PossibleWords,
}

/// A guess with its score; higher scores are better.
#[derive(Clone, Debug, PartialEq, Eq)]
pub struct ScoredGuess {
    pub score: i64,
    pub guess: String,
}

/// How a guesser scores words.
pub enum Scoring {
    /// By the words that the guess is expected to rule out.
    Eliminations,
    /// By the words that the guess and the one after it, taken from `from`, are expected to rule
    /// out, as long as more than `threshold` words are possible.
    Combo { from: GuessFrom, threshold: usize },
}

/// A guess and its results, as a guesser was told them.
pub struct Turn {
    pub guess: Seq<char>,
    pub results: Seq<LetterResult>,
}

/// What was asked of a guesser, or handed to it, between two turns.
pub enum Ask {
    /// A guess from a set of words.
    Select(GuessFrom),
    /// Scores to use for the words that they name.
    Scores(Map<Seq<char>, i64>),
}

/// All that a guesser was made from, told and asked: what its next reply depends on.
pub struct Trace {
    pub scoring: Scoring,
    /// The set of words that guesses are chosen from.
    pub from: GuessFrom,
    /// The words of the bank.
    pub bank: Seq<Seq<char>>,
    /// The turns so far.
    pub turns: Seq<Turn>,
    /// What was asked since the last turn.
    pub asked: Seq<Ask>,
}

/// The scores that were handed over last.
pub open spec fn scores_given(asked: Seq<Ask>) -> Map<Seq<char>, i64>
    decreases asked.len(),
{
    if asked.len() == 0 {
        Map::empty()
    } else {
        match asked.last() {
            Ask::Scores(scores) => scores,
            Ask::Select(_) => scores_given(asked.drop_last()),
        }
    }
}

impl Trace {
    /// The trace of a new guesser.
    pub open spec fn fresh(scoring: Scoring, from: GuessFrom, bank: Seq<Seq<char>>) -> Trace {
        Trace { scoring, from, bank, turns: Seq::empty(), asked: Seq::empty() }
    }

    /// The trace after one more turn.
    pub open spec fn told(self, guess: Seq<char>, results: Seq<LetterResult>) -> Trace {
        Trace {
            turns: self.turns.push(Turn { guess, results }),
            asked: Seq::empty(),
            ..self
        }
    }

    /// The trace after a guess from `from` was asked for.
    pub open spec fn selecting(self, from: GuessFrom) -> Trace {
        Trace { asked: self.asked.push(Ask::Select(from)), ..self }
    }

    /// The trace after scores were handed over.
    pub open spec fn scored(self, scores: Map<Seq<char>, i64>) -> Trace {
        Trace { asked: self.asked.push(Ask::Scores(scores)), ..self }
    }

    /// The words that can still be the objective, in the guesser's order.
    pub open spec fn possible(self) -> Seq<Seq<char>> {
        possible_after(self.bank, self.turns)
    }

    /// The score that was handed over for a word, if any.
    pub open spec fn given(self) -> Map<Seq<char>, i64> {
        scores_given(self.asked)
    }

    /// Whether no score that was handed over is the least `i64`.
    pub open spec fn in_range(self) -> bool {
        forall|w: Seq<char>| #[trigger]
            self.given().contains_key(w) ==> self.given()[w] > i64::MIN
    }

    /// Whether guesses were asked for from the guesser's own set of words only, since the last
    /// turn.
    pub open spec fn plain(self) -> bool {
        forall|i: int|
            0 <= i < self.asked.len() ==> (#[trigger] self.asked[i] matches Ask::Select(from)
                ==> from == self.from)
    }

    /// Whether words can be scored: they are of 16 bytes at most, and where the score looks two
    /// guesses ahead, they are ASCII words.
    pub open spec fn scorable(self) -> bool {
        &&& length_of(self.bank) <= 16
        &&& self.scoring matches Scoring::Combo { threshold, .. } ==> self.bank.len() <= threshold
            || all_ascii(self.bank)
    }

    /// Whether `r` is the best `n` guesses, or all of them if there are fewer: the beginning of the
    /// ranking, in the order of the scores, each of them a word of the bank with the score that
    /// was handed over for it, or else the one that the scorer gives.
    pub open spec fn offers(self, n: usize, r: Seq<ScoredGuess>) -> bool {
        &&& r.len() == if n <= ranking(self).len() {
            n as nat
        } else {
            ranking(self).len()
        }
        &&& forall|i: int|
            0 <= i < r.len() ==> (#[trigger] r[i]).guess@ == ranking(self)[i].0 && r[i].score
                == ranking(self)[i].1
        &&& forall|i: int, j: int|
            0 <= i < j < r.len() ==> (#[trigger] r[i]).score >= (#[trigger] r[j]).score
        &&& forall|i: int| 0 <= i < r.len() ==> self.bank.contains((#[trigger] r[i]).guess@)
        &&& self.plain() ==> forall|i: int|
            0 <= i < r.len() && self.given().contains_key((#[trigger] r[i]).guess@) ==> r[i].score
                == self.given()[r[i].guess@]
        &&& self.plain() ==> (self.scoring matches Scoring::Combo { from, threshold }
            ==> forall|i: int|
            0 <= i < r.len() && !self.given().contains_key((#[trigger] r[i]).guess@) ==> r[i].score
                == combo_score(self.combo(from, threshold), r[i].guess@))
    }

    /// The words of the guesser's own set, the best one first.
    pub open spec fn ranked(self) -> Seq<Seq<char>> {
        words_in(ranking(self))
    }

    /// Whether a word was guessed.
    pub open spec fn guessed(self, word: Seq<char>) -> bool {
        exists|i: int| 0 <= i < self.turns.len() && (#[trigger] self.turns[i]).guess == word
    }

    /// Whether a guess from `from` is chosen from the words that it is meant to be chosen from: the
    /// possible words if these are asked for, or if there are two of them at most, and else the
    /// words of the bank that were not guessed yet. The latter is said of a bank that holds no word
    /// twice: of a word that it holds twice, a guess takes away one.
    pub open spec fn draws_from(self, from: GuessFrom) -> bool {
        let words = words_in(candidates(self, from));
        if from == GuessFrom::PossibleWords || self.possible().len() <= 2 {
            words == self.possible()
        } else {
            self.bank.no_duplicates() ==> words.no_duplicates() && forall|w: Seq<char>| #[trigger]
                words.contains(w) <==> self.bank.contains(w) && !self.guessed(w)
        }
    }

    /// Whether no word that a guess from `from` is chosen from has the least `i64` for its score,
    /// provided that none was handed over with it.
    pub open spec fn above_least(self, from: GuessFrom) -> bool {
        self.in_range() ==> forall|i: int|
            0 <= i < candidates(self, from).len() ==> (#[trigger] candidates(self, from)[i]).1
                > i64::MIN
    }

    /// Whether every word of the guesser's own set has the score that was handed over for it, or
    /// else the one that the scorer gives.
    pub open spec fn own_scores(self) -> bool {
        let own = candidates(self, self.from);
        &&& self.plain() ==> forall|i: int|
            0 <= i < own.len() && self.given().contains_key((#[trigger] own[i]).0) ==> own[i].1
                == self.given()[own[i].0]
        &&& self.plain() ==> (self.scoring matches Scoring::Combo { from, threshold }
            ==> forall|i: int|
            0 <= i < own.len() && !self.given().contains_key((#[trigger] own[i]).0) ==> own[i].1
                == combo_score(self.combo(from, threshold), own[i].0))
    }

    /// Whether some word stands out when a guess from `from` is chosen: one whose score is not the
    /// least `i64`, or any word if there are more than `limit` words.
    pub open spec fn decides(self, from: GuessFrom, limit: nat) -> bool {
        ||| candidates(self, from).len() > limit
        ||| exists|i: int|
            0 <= i < candidates(self, from).len() && (#[trigger] candidates(self, from)[i]).1
                > i64::MIN
    }

    /// Whether `r` is the guess that is chosen from `from`: the first word with the highest score,
    /// or none if no word stands out.
    pub open spec fn chooses(self, from: GuessFrom, limit: nat, r: Option<Seq<char>>) -> bool {
        match r {
            Some(w) => self.decides(from, limit) && w == by_score(candidates(self, from))[0].0,
            None => !self.decides(from, limit),
        }
    }

    /// Whether `r` is the reply to a turn: the turn is accepted, or contradicts the turns before
    /// it. No word becomes possible, a turn that is not accepted rules none out, and a word that
    /// answers all guesses with the results that were told is never ruled out. As long as there is
    /// such a word among the possible ones, no ASCII word but those stays possible.
    pub open spec fn settles(
        self,
        guess: Seq<char>,
        results: Seq<LetterResult>,
        r: Result<(), WordleError>,
    ) -> bool {
        let turn = Turn { guess, results };
        let after = self.told(guess, results);
        &&& match r {
            Ok(()) => accepts(self.bank, self.turns, turn),
            Err(e) => e == WordleError::InvalidResults && !accepts(self.bank, self.turns, turn),
        }
        &&& after.possible().to_multiset().subset_of(self.possible().to_multiset())
        &&& r is Err ==> after.possible().to_multiset() == self.possible().to_multiset()
        &&& forall|w: Seq<char>| #[trigger]
            self.possible().contains(w) && answered_by(after.turns, w) ==> r is Ok
                && after.possible().contains(w)
        &&& forall|t: Seq<char>, w: Seq<char>| #[trigger]
            self.possible().contains(t) && answered_by(after.turns, t)
                && #[trigger] after.possible().contains(w) && is_ascii_text(w) ==> answered_by(
                after.turns,
                w,
            )
    }

    /// What a scorer that looks two guesses ahead was told in the turns of this trace.
    pub open spec fn combo(self, from: GuessFrom, threshold: usize) -> ComboTrace {
        ComboTrace {
            from,
            threshold,
            bank: self.bank,
            updates: combo_updates(self.bank, self.turns),
        }
    }
}

/// All that a scorer that looks two guesses ahead was made from and told.
pub struct ComboTrace {
    /// The set of words that the second guess is chosen from.
    pub from: GuessFrom,
    /// The number of possible words up to which only one guess is looked at.
    pub threshold: usize,
    /// The words of the bank.
    pub bank: Seq<Seq<char>>,
    /// The guesses so far, each with the words that were possible after it.
    pub updates: Seq<(Seq<char>, Seq<Seq<char>>)>,
}

impl ComboTrace {
    /// Whether a word can be scored: it is as long as the words of the bank, of 16 bytes at most,
    /// and where the score looks two guesses ahead, it is an ASCII word.
    pub open spec fn can_score(self, word: Seq<char>) -> bool {
        &&& byte_len(word) == length_of(self.bank) <= 16
        &&& self.bank.len() <= self.threshold || is_ascii_text(word)
    }
}

/// The words that `MaxScoreGuesser::possible_words` gives, in order, for a bank and the turns
/// that `MaxScoreGuesser::update` was called with.
pub uninterp spec fn possible_after(bank: Seq<Seq<char>>, turns: Seq<Turn>) -> Seq<Seq<char>>;

/// Whether `MaxScoreGuesser::update` accepts one more turn.
pub uninterp spec fn accepts(bank: Seq<Seq<char>>, turns: Seq<Turn>, turn: Turn) -> bool;

/// The words that `MaxScoreGuesser::select_next_guess_from` chooses from, each with its score, in
/// the order in which they are looked at.
pub uninterp spec fn candidates(trace: Trace, from: GuessFrom) -> Seq<(Seq<char>, i64)>;

/// The words of a list of words and scores.
pub open spec fn words_in(scored: Seq<(Seq<char>, i64)>) -> Seq<Seq<char>> {
    Seq::new(scored.len(), |i: int| scored[i].0)
}

/// A ranking with one more word: behind all words whose score is not lower.
pub open spec fn ranked_in(ranked: Seq<(Seq<char>, i64)>, one: (Seq<char>, i64)) -> Seq<
    (Seq<char>, i64),
>
    decreases ranked.len(),
{
    if ranked.len() > 0 && ranked.last().1 < one.1 {
        ranked_in(ranked.drop_last(), one).push(ranked.last())
    } else {
        ranked.push(one)
    }
}

/// Words in the order of their scores, the highest one first. Words with the same score keep their
/// order.
pub open spec fn by_score(scored: Seq<(Seq<char>, i64)>) -> Seq<(Seq<char>, i64)>
    decreases scored.len(),
{
    if scored.len() == 0 {
        scored
    } else {
        ranked_in(by_score(scored.drop_last()), scored.last())
    }
}

/// The words of the guesser's own set in the order of their scores, the best one first.
pub open spec fn ranking(trace: Trace) -> Seq<(Seq<char>, i64)> {
    by_score(candidates(trace, trace.from))
}

/// Whether the word at a place is the first one with the highest score.
pub open spec fn is_best(scored: Seq<(Seq<char>, i64)>, place: int) -> bool {
    &&& 0 <= place < scored.len()
    &&& forall|j: int| 0 <= j < scored.len() ==> (#[trigger] scored[j]).1 <= scored[place].1
    &&& forall|j: int| 0 <= j < place ==> (#[trigger] scored[j]).1 < scored[place].1
}

/// Whether scores never rise.
pub open spec fn descends(scored: Seq<(Seq<char>, i64)>) -> bool {
    forall|i: int, j: int|
        0 <= i < j < scored.len() ==> (#[trigger] scored[i]).1 >= (#[trigger] scored[j]).1
}

/// To rank one more word puts it in its place and keeps the others.
proof fn lemma_ranked_in(ranked: Seq<(Seq<char>, i64)>, one: (Seq<char>, i64))
    requires
        descends(ranked),
    ensures
        ranked_in(ranked, one).len() == ranked.len() + 1,
        descends(ranked_in(ranked, one)),
        ranked_in(ranked, one)[0] == if ranked.len() > 0 && ranked[0].1 >= one.1 {
            ranked[0]
        } else {
            one
        },
        words_in(ranked_in(ranked, one)).to_multiset() == words_in(ranked).to_multiset().insert(
            one.0,
        ),
    decreases ranked.len(),
{
    broadcast use vstd::seq_lib::group_to_multiset_ensures;

    let after = ranked_in(ranked, one);
    if ranked.len() > 0 && ranked.last().1 < one.1 {
        let rest = ranked.drop_last();
        let before = ranked_in(rest, one);
        assert forall|i: int, j: int| 0 <= i < j < rest.len() implies (#[trigger] rest[i]).1 >= (
        #[trigger] rest[j]).1 by {
            assert(ranked[i].1 >= ranked[j].1);
        }
        lemma_ranked_in(rest, one);
        assert(after == before.push(ranked.last()));
        lemma_holds_or_new(rest, one);
        assert forall|i: int, j: int| 0 <= i < j < after.len() implies (#[trigger] after[i]).1 >= (
        #[trigger] after[j]).1 by {
            if j < before.len() {
                assert(before[i].1 >= before[j].1);
            } else if before[i] != one {
                let k = choose|k: int| 0 <= k < rest.len() && rest[k] == before[i];
                assert(ranked[k].1 >= ranked[ranked.len() - 1].1);
            }
        }
        assert(words_in(after) =~= words_in(before).push(ranked.last().0));
        assert(words_in(ranked) =~= words_in(rest).push(ranked.last().0));
        assert(words_in(after).to_multiset() =~= words_in(ranked).to_multiset().insert(one.0));
        if rest.len() > 0 {
            assert(ranked[0] == rest[0]);
        }
    } else {
        assert(after == ranked.push(one));
        assert(words_in(after) =~= words_in(ranked).push(one.0));
    }
}

/// What stands in a ranking with one more word stood there before, or is that word.
proof fn lemma_holds_or_new(ranked: Seq<(Seq<char>, i64)>, one: (Seq<char>, i64))
    ensures
        forall|i: int|
            0 <= i < ranked_in(ranked, one).len() ==> (#[trigger] ranked_in(ranked, one)[i]) == one
                || ranked.contains(ranked_in(ranked, one)[i]),
    decreases ranked.len(),
{
    let after = ranked_in(ranked, one);
    if ranked.len() > 0 && ranked.last().1 < one.1 {
        let rest = ranked.drop_last();
        lemma_holds_or_new(rest, one);
        assert forall|i: int| 0 <= i < after.len() implies (#[trigger] after[i]) == one
            || ranked.contains(after[i]) by {
            if i < after.len() - 1 {
                assert(after[i] == ranked_in(rest, one)[i]);
                if after[i] != one {
                    let k = choose|k: int| 0 <= k < rest.len() && rest[k] == after[i];
                    assert(ranked[k] == after[i]);
                }
            } else {
                assert(ranked[ranked.len() - 1] == after[i]);
            }
        }
    } else {
        assert forall|i: int| 0 <= i < after.len() implies (#[trigger] after[i]) == one
            || ranked.contains(after[i]) by {
            if i < ranked.len() {
                assert(ranked[i] == after[i]);
            }
        }
    }
}

/// A ranking holds the words that are ranked, in the order of their scores, and begins with the
/// first one of the highest score.
pub proof fn lemma_by_score(scored: Seq<(Seq<char>, i64)>)
    ensures
        by_score(scored).len() == scored.len(),
        descends(by_score(scored)),
        words_in(by_score(scored)).to_multiset() == words_in(scored).to_multiset(),
        forall|i: int| #[trigger] is_best(scored, i) ==> by_score(scored)[0] == scored[i],
        scored.len() > 0 ==> exists|i: int| #[trigger] is_best(scored, i),
    decreases scored.len(),
{
    broadcast use vstd::seq_lib::group_to_multiset_ensures;

    if scored.len() > 0 {
        let before = scored.drop_last();
        let last = scored.last();
        let n = scored.len() - 1;
        lemma_by_score(before);
        lemma_ranked_in(by_score(before), last);
        assert(words_in(scored) =~= words_in(before).push(last.0));
        if before.len() == 0 {
            assert(is_best(scored, 0));
        } else {
            let b = choose|b: int| #[trigger] is_best(before, b);
            assert(by_score(before)[0] == scored[b]);
            if scored[b].1 >= last.1 {
                assert forall|j: int| 0 <= j < scored.len() implies (#[trigger] scored[j]).1
                    <= scored[b].1 by {
                    if j < n {
                        assert(before[j].1 <= before[b].1);
                    }
                }
                assert forall|j: int| 0 <= j < b implies (#[trigger] scored[j]).1
                    < scored[b].1 by {
                    assert(before[j].1 < before[b].1);
                }
                assert(is_best(scored, b));
            } else {
                assert forall|j: int| 0 <= j < n implies (#[trigger] scored[j]).1
                    < scored[n].1 by {
                    assert(before[j].1 <= before[b].1);
                }
                assert(is_best(scored, n));
            }
        }
        let k = choose|k: int| #[trigger] is_best(scored, k) && by_score(scored)[0] == scored[k];
        assert forall|i: int| #[trigger] is_best(scored, i) implies by_score(scored)[0]
            == scored[i] by {
            assert(scored[i].1 <= scored[k].1 && scored[k].1 <= scored[i].1);
            assert(i == k);
        }
    }
}

/// The word that a ranking begins with is one of those that are ranked.
pub proof fn lemma_best_is_ranked(scored: Seq<(Seq<char>, i64)>)
    requires
        scored.len() > 0,
    ensures
        words_in(scored).contains(by_score(scored)[0].0),
{
    lemma_by_score(scored);
    let i = choose|i: int| #[trigger] is_best(scored, i);
    assert(words_in(scored)[i] == by_score(scored)[0].0);
}

/// The score that `MaxComboEliminationsScorer::score_word` gives to a word.
pub uninterp spec fn combo_score(trace: ComboTrace, word: Seq<char>) -> i64;

/// What a guesser tells its scorer: each guess that was accepted, with the words that were
/// possible after it.
pub open spec fn combo_updates(bank: Seq<Seq<char>>, turns: Seq<Turn>) -> Seq<
    (Seq<char>, Seq<Seq<char>>),
>
    decreases turns.len(),
{
    if turns.len() == 0 {
        Seq::empty()
    } else {
        let before = combo_updates(bank, turns.drop_last());
        if accepts(bank, turns.drop_last(), turns.last()) {
            before.push((turns.last().guess, possible_after(bank, turns)))
        } else {
            before
        }
    }
}

/// Whether a turn can be told to a guesser for words of `length` bytes: the guess is no longer
/// than them, and no letter that has a result occurs again behind the last result.
pub open spec fn turn_fits(length: nat, guess: Seq<char>, n: nat) -> bool {
    &&& byte_len(guess) <= length <= 255
    &&& forall|k: int, j: int|
        0 <= k < guess.len() && k < n && 0 <= j < guess.len() && #[trigger] guess[k]
            == #[trigger] guess[j] ==> byte_len(guess.take(j)) < n
}

/// Whether a turn with `n` results can be told to a guesser for words of `length` bytes.
pub fn fits_turn(length: usize, guess: &[char], n: usize) -> (r: bool)
    ensures
        r == turn_fits(length as nat, guess@, n as nat),
{
    if byte_length(guess) > length as u128 || length > 255 {
        return false;
    }
    let mut offset: u128 = 0;
    let mut j: usize = 0;
    while j < guess.len()
        invariant
            j <= guess@.len(),
            byte_len(guess@) <= length <= 255,
            offset == byte_len(guess@.take(j as int)),
            offset <= 4 * j,
            forall|k: int, i: int|
                0 <= k < guess@.len() && k < n && 0 <= i < j && #[trigger] guess@[k]
                    == #[trigger] guess@[i] ==> byte_len(guess@.take(i)) < n,
        decreases guess@.len() - j,
    {
        let mut k: usize = 0;
        while k < guess.len() && k < n
            invariant
                j < guess@.len(),
                k <= guess@.len(),
                offset == byte_len(guess@.take(j as int)),
                forall|i: int|
                    0 <= i < k && #[trigger] guess@[i] == guess@[j as int] ==> offset < n,
            decreases guess@.len() - k,
        {
            if guess[k] == guess[j] && offset >= n as u128 {
                assert(guess@[k as int] == guess@[j as int]);
                return false;
            }
            k = k + 1;
        }
        assert(guess@.take(j + 1).drop_last() == guess@.take(j as int));
        offset = offset + char_width(guess[j]) as u128;
        j = j + 1;
    }
    true
}

/// Whether every turn is what the word `objective` answers, all of them ASCII words of one
/// length.
pub open spec fn answered_by(turns: Seq<Turn>, objective: Seq<char>) -> bool {
    &&& is_ascii_text(objective)
    &&& forall|i: int|
        0 <= i < turns.len() ==> is_ascii_text((#[trigger] turns[i]).guess) && turns[i].guess.len()
            == objective.len() && turns[i].results == answer(objective, turns[i].guess)
}

/// The scorer of `rs_wordle_solver` that looks one guess ahead.
#[verifier::external_type_specification]
#[verifier::external_body]
pub struct ExMaxEliminationsScorer(MaxEliminationsScorer);

/// The scorer of `rs_wordle_solver` that looks two guesses ahead.
#[verifier::external_type_specification]
#[verifier::external_body]
pub struct ExMaxComboEliminationsScorer(MaxComboEliminationsScorer);

/// The words that a scorer that looks one guess ahead was made from.
pub uninterp spec fn elimination_words(scorer: MaxEliminationsScorer) -> Seq<Seq<char>>;

/// What a scorer that looks two guesses ahead was made from and told.
pub uninterp spec fn combo_trace(scorer: MaxComboEliminationsScorer) -> ComboTrace;

/// `MaxEliminationsScorer::new` makes a scorer for the words of a bank.
pub assume_specification[ MaxEliminationsScorer::new ](all_words: WordBank) -> (r:
    MaxEliminationsScorer)
    ensures
        elimination_words(r) == bank_words(all_words),
;

/// `MaxComboEliminationsScorer::new` makes a scorer for the words of a bank, and never fails.
#[verifier::external_body]
pub(crate) fn combo_scorer(bank: WordBank, from: GuessFrom, threshold: usize) -> (r: Result<
    MaxComboEliminationsScorer,
    WordleError,
>)
    ensures
        match r {
            Ok(scorer) => combo_trace(scorer) == (ComboTrace {
                from,
                threshold,
                bank: bank_words(bank),
                updates: Seq::empty(),
            }),
            Err(_) => false,
        },
{
    let from = match from {
        GuessFrom::AllUnguessedWords => rs_wordle_solver::GuessFrom::AllUnguessedWords,
        GuessFrom::PossibleWords => rs_wordle_solver::GuessFrom::PossibleWords,
    };
    MaxComboEliminationsScorer::new(bank, from, threshold).map_err(
        |e| match e {
            rs_wordle_solver::WordleError::WordLength(n) => WordleError::WordLength(n),
            rs_wordle_solver::WordleError::InvalidResults => WordleError::InvalidResults,
            rs_wordle_solver::WordleError::IoError(e) => WordleError::IoError(e.to_string()),
        },
    )
}

/// The clone of a scorer was made from and told the same.
pub assume_specification[ <MaxComboEliminationsScorer as Clone>::clone ](
    scorer: &MaxComboEliminationsScorer,
) -> (r: MaxComboEliminationsScorer)
    ensures
        combo_trace(r) == combo_trace(*scorer),
;

/// `MaxComboEliminationsScorer::update` takes note of a guess and of the words that are possible
/// after it. The restrictions that it is handed are not looked at.
#[verifier::external_body]
pub(crate) fn combo_update(
    scorer: &mut MaxComboEliminationsScorer,
    guess: &str,
    possible: &[Arc<str>],
)
    requires
        forall|i: int|
            0 <= i < possible@.len() ==> combo_trace(*old(scorer)).bank.contains(
                #[trigger] possible@[i]@,
            ),
        possible@.len() <= combo_trace(*old(scorer)).bank.len(),
    ensures
        combo_trace(*final(scorer)) == (ComboTrace {
            updates: combo_trace(*old(scorer)).updates.push(
                (guess@, Seq::new(possible@.len(), |i: int| possible@[i]@)),
            ),
            ..combo_trace(*old(scorer))
        }),
{
    let restrictions = rs_wordle_solver::details::WordRestrictions::new(0);
    let _ = scorer.update(guess, &restrictions, possible);
}

/// `MaxComboEliminationsScorer::score_word` scores a word by what the scorer was made from and
/// told; no score is negative.
#[verifier::external_body]
pub(crate) fn combo_score_word(scorer: &MaxComboEliminationsScorer, word: &str) -> (score: i64)
    requires
        combo_trace(*scorer).can_score(word@),
    ensures
        score == combo_score(combo_trace(*scorer), word@),
        score >= 0,
{
    scorer.score_word(&Arc::from(word))
}

/// The scores that a list of words and scores gives: the last one of each word.
pub open spec fn score_map(scores: Seq<(String, i64)>) -> Map<Seq<char>, i64>
    decreases scores.len(),
{
    if scores.len() == 0 {
        Map::empty()
    } else {
        score_map(scores.drop_last()).insert(scores.last().0@, scores.last().1)
    }
}

/// A `MaxScoreGuesser` that scores words by the words that one guess is
/// expected to rule out.
#[verifier::external_body]
pub struct CheapGuesser {
    inner: MaxScoreGuesser<MaxEliminationsScorer>,
}

/// What a guesser that scores words by the words that one guess is
/// expected to rule out was made from, told and asked.
pub uninterp spec fn cheap_trace(guesser: CheapGuesser) -> Trace;

/// The number of words above which a guesser of this kind looks for the best one in parallel.
pub uninterp spec fn cheap_limit(guesser: CheapGuesser) -> nat;

impl CheapGuesser {
    /// `MaxScoreGuesser::new` makes a guesser that was told nothing yet: every word of the bank
    /// is possible.
    #[verifier::external_body]
    pub(crate) fn new(from: GuessFrom, bank: WordBank, scorer: MaxEliminationsScorer) -> (r:
        CheapGuesser)
        requires
            elimination_words(scorer) == bank_words(bank),
        ensures
            cheap_trace(r) == Trace::fresh(
                Scoring::Eliminations,
                from,
                bank_words(bank),
            ),
            possible_after(cheap_trace(r).bank, cheap_trace(r).turns) == bank_words(bank),
    {
        let from = match from {
            GuessFrom::AllUnguessedWords => rs_wordle_solver::GuessFrom::AllUnguessedWords,
            GuessFrom::PossibleWords => rs_wordle_solver::GuessFrom::PossibleWords,
        };
        CheapGuesser { inner: MaxScoreGuesser::new(from, bank, scorer) }
    }

    /// `MaxScoreGuesser::update` takes note of a turn. It accepts the turn or finds that it
    /// contradicts the turns before it. Words that are possible afterwards were possible before,
    /// and a turn that is not accepted rules no word out. As long as some possible word gives all
    /// the results that were told, these results are accepted, no such word is ruled out, and of
    /// the ASCII words no other is left.
    #[verifier::external_body]
    pub(crate) fn update(&mut self, result: &GuessResult) -> (r: Result<(), WordleError>)
        requires
            turn_fits(
                length_of(cheap_trace(*old(self)).bank),
                result.guess@,
                result.results@.len(),
            ),
        ensures
            cheap_trace(*final(self)) == cheap_trace(*old(self)).told(
                result.guess@,
                result.results@,
            ),
            match r {
                Ok(()) => accepts(
                    cheap_trace(*old(self)).bank,
                    cheap_trace(*old(self)).turns,
                    Turn { guess: result.guess@, results: result.results@ },
                ),
                Err(e) => e == WordleError::InvalidResults && !accepts(
                    cheap_trace(*old(self)).bank,
                    cheap_trace(*old(self)).turns,
                    Turn { guess: result.guess@, results: result.results@ },
                ),
            },
            cheap_trace(*old(self)).settles(result.guess@, result.results@, r),
            cheap_limit(*final(self)) == cheap_limit(*old(self)),
    {
        let results = result.results.iter().map(
            |l| match l {
                LetterResult::Correct => rs_wordle_solver::LetterResult::Correct,
                LetterResult::PresentNotHere => rs_wordle_solver::LetterResult::PresentNotHere,
                LetterResult::NotPresent => rs_wordle_solver::LetterResult::NotPresent,
            },
        ).collect();
        self.inner.update(&rs_wordle_solver::GuessResult { guess: result.guess, results }).map_err(
            |e| match e {
                rs_wordle_solver::WordleError::WordLength(n) => WordleError::WordLength(n),
                rs_wordle_solver::WordleError::InvalidResults => WordleError::InvalidResults,
                rs_wordle_solver::WordleError::IoError(e) => WordleError::IoError(e.to_string()),
            },
        )
    }

    /// `MaxScoreGuesser::possible_words` gives the words that can still be the objective.
    #[verifier::external_body]
    pub(crate) fn possible_words(&self) -> (r: &[Arc<str>])
        ensures
            r@.len() == possible_after(cheap_trace(*self).bank, cheap_trace(*self).turns).len(),
            forall|i: int|
                0 <= i < r@.len() ==> (#[trigger] r@[i])@ == possible_after(
                    cheap_trace(*self).bank,
                    cheap_trace(*self).turns,
                )[i],
    {
        self.inner.possible_words()
    }

    /// `MaxScoreGuesser::select_top_n_guesses` gives the best `n` guesses of the guesser's own set
    /// of words, or all of them if there are fewer, in the order of their scores. A guess has the
    /// score that was handed over for it. The ranking stays as it is until something else is told,
    /// handed over or asked.
    #[verifier::external_body]
    pub(crate) fn select_top_n_guesses(&mut self, n: usize) -> (r: Vec<ScoredGuess>)
        requires
            cheap_trace(*old(self)).scorable(),
            cheap_trace(*old(self)).in_range(),
        ensures
            cheap_trace(*final(self)) == cheap_trace(*old(self)).selecting(
                cheap_trace(*old(self)).from,
            ),
            candidates(cheap_trace(*final(self)), cheap_trace(*old(self)).from) == candidates(
                cheap_trace(*old(self)),
                cheap_trace(*old(self)).from,
            ),
            cheap_trace(*old(self)).offers(n, r@),
            cheap_trace(*final(self)).draws_from(cheap_trace(*old(self)).from),
            cheap_trace(*final(self)).above_least(cheap_trace(*old(self)).from),
            cheap_trace(*final(self)).own_scores(),
            cheap_limit(*final(self)) == cheap_limit(*old(self)),
            cheap_trace(*final(self)).scoring == Scoring::Eliminations,
    {
        self.inner.select_top_n_guesses(n).into_iter().map(
            |g| ScoredGuess { score: g.score, guess: g.guess.to_string() },
        ).collect()
    }

    /// `Guesser::select_next_guess` chooses from the guesser's own set of words: the first word
    /// with the highest score. Where every score is the least `i64`, it does so only if there are
    /// enough words to look in parallel, and else chooses none.
    #[verifier::external_body]
    pub(crate) fn select_next_guess(&mut self) -> (r: Option<Arc<str>>)
        requires
            cheap_trace(*old(self)).scorable(),
        ensures
            cheap_trace(*final(self)) == cheap_trace(*old(self)).selecting(
                cheap_trace(*old(self)).from,
            ),
            candidates(cheap_trace(*final(self)), cheap_trace(*old(self)).from) == candidates(
                cheap_trace(*old(self)),
                cheap_trace(*old(self)).from,
            ),
            match r {
                Some(w) => cheap_trace(*old(self)).chooses(
                    cheap_trace(*old(self)).from,
                    cheap_limit(*old(self)),
                    Some(w@),
                ),
                None => cheap_trace(*old(self)).chooses(
                    cheap_trace(*old(self)).from,
                    cheap_limit(*old(self)),
                    None,
                ),
            },
            r matches Some(w) ==> cheap_trace(*old(self)).bank.contains(w@),
            cheap_trace(*final(self)).draws_from(cheap_trace(*old(self)).from),
            cheap_trace(*final(self)).above_least(cheap_trace(*old(self)).from),
            cheap_trace(*final(self)).own_scores(),
            cheap_limit(*final(self)) == cheap_limit(*old(self)),
    {
        self.inner.select_next_guess()
    }

    /// `Guesser::select_next_guess_from` chooses from the given set of words: the first word with
    /// the highest score. Where every score is the least `i64`, it does so only if there are enough
    /// words to look in parallel, and else chooses none.
    #[verifier::external_body]
    pub(crate) fn select_next_guess_from(&mut self, from: GuessFrom) -> (r: Option<Arc<str>>)
        requires
            cheap_trace(*old(self)).scorable(),
        ensures
            cheap_trace(*final(self)) == cheap_trace(*old(self)).selecting(from),
            candidates(cheap_trace(*final(self)), from) == candidates(
                cheap_trace(*old(self)),
                from,
            ),
            match r {
                Some(w) => cheap_trace(*old(self)).chooses(from, cheap_limit(*old(self)), Some(w@)),
                None => cheap_trace(*old(self)).chooses(from, cheap_limit(*old(self)), None),
            },
            r matches Some(w) ==> cheap_trace(*old(self)).bank.contains(w@),
            cheap_trace(*final(self)).draws_from(from),
            cheap_trace(*final(self)).above_least(from),
            cheap_trace(*final(self)).own_scores(),
            cheap_limit(*final(self)) == cheap_limit(*old(self)),
    {
        let from = match from {
            GuessFrom::AllUnguessedWords => rs_wordle_solver::GuessFrom::AllUnguessedWords,
            GuessFrom::PossibleWords => rs_wordle_solver::GuessFrom::PossibleWords,
        };
        self.inner.select_next_guess_from(from)
    }
}

/// A `MaxScoreGuesser` that scores words by the words that two guesses
/// are expected to rule out.
#[verifier::external_body]
pub struct ThoroughGuesser {
    inner: MaxScoreGuesser<MaxComboEliminationsScorer>,
}

/// What a guesser that scores words by the words that two guesses
/// are expected to rule out was made from, told and asked.
pub uninterp spec fn thorough_trace(guesser: ThoroughGuesser) -> Trace;

/// The number of words above which a guesser of this kind looks for the best one in parallel.
pub uninterp spec fn thorough_limit(guesser: ThoroughGuesser) -> nat;

impl ThoroughGuesser {
    /// `MaxScoreGuesser::new` makes a guesser that was told nothing yet: every word of the bank
    /// is possible.
    #[verifier::external_body]
    pub(crate) fn new(from: GuessFrom, bank: WordBank, scorer: MaxComboEliminationsScorer) -> (r:
        ThoroughGuesser)
        requires
            combo_trace(scorer).bank == bank_words(bank),
            combo_trace(scorer).updates.len() == 0,
        ensures
            thorough_trace(r) == Trace::fresh(
                Scoring::Combo {
                    from: combo_trace(scorer).from,
                    threshold: combo_trace(scorer).threshold,
                },
                from,
                bank_words(bank),
            ),
            possible_after(thorough_trace(r).bank, thorough_trace(r).turns) == bank_words(bank),
    {
        let from = match from {
            GuessFrom::AllUnguessedWords => rs_wordle_solver::GuessFrom::AllUnguessedWords,
            GuessFrom::PossibleWords => rs_wordle_solver::GuessFrom::PossibleWords,
        };
        ThoroughGuesser { inner: MaxScoreGuesser::new(from, bank, scorer) }
    }

    /// `MaxScoreGuesser::update` takes note of a turn. It accepts the turn or finds that it
    /// contradicts the turns before it. Words that are possible afterwards were possible before,
    /// and a turn that is not accepted rules no word out. As long as some possible word gives all
    /// the results that were told, these results are accepted, no such word is ruled out, and of
    /// the ASCII words no other is left.
    #[verifier::external_body]
    pub(crate) fn update(&mut self, result: &GuessResult) -> (r: Result<(), WordleError>)
        requires
            turn_fits(
                length_of(thorough_trace(*old(self)).bank),
                result.guess@,
                result.results@.len(),
            ),
        ensures
            thorough_trace(*final(self)) == thorough_trace(*old(self)).told(
                result.guess@,
                result.results@,
            ),
            match r {
                Ok(()) => accepts(
                    thorough_trace(*old(self)).bank,
                    thorough_trace(*old(self)).turns,
                    Turn { guess: result.guess@, results: result.results@ },
                ),
                Err(e) => e == WordleError::InvalidResults && !accepts(
                    thorough_trace(*old(self)).bank,
                    thorough_trace(*old(self)).turns,
                    Turn { guess: result.guess@, results: result.results@ },
                ),
            },
            thorough_trace(*old(self)).settles(result.guess@, result.results@, r),
            thorough_limit(*final(self)) == thorough_limit(*old(self)),
    {
        let results = result.results.iter().map(
            |l| match l {
                LetterResult::Correct => rs_wordle_solver::LetterResult::Correct,
                LetterResult::PresentNotHere => rs_wordle_solver::LetterResult::PresentNotHere,
                LetterResult::NotPresent => rs_wordle_solver::LetterResult::NotPresent,
            },
        ).collect();
        self.inner.update(&rs_wordle_solver::GuessResult { guess: result.guess, results }).map_err(
            |e| match e {
                rs_wordle_solver::WordleError::WordLength(n) => WordleError::WordLength(n),
                rs_wordle_solver::WordleError::InvalidResults => WordleError::InvalidResults,
                rs_wordle_solver::WordleError::IoError(e) => WordleError::IoError(e.to_string()),
            },
        )
    }

    /// `MaxScoreGuesser::possible_words` gives the words that can still be the objective.
    #[verifier::external_body]
    pub(crate) fn possible_words(&self) -> (r: &[Arc<str>])
        ensures
            r@.len() == possible_after(
                thorough_trace(*self).bank,
                thorough_trace(*self).turns,
            ).len(),
            forall|i: int|
                0 <= i < r@.len() ==> (#[trigger] r@[i])@ == possible_after(
                    thorough_trace(*self).bank,
                    thorough_trace(*self).turns,
                )[i],
    {
        self.inner.possible_words()
    }

    /// `MaxScoreGuesser::select_top_n_guesses` gives the best `n` guesses of the guesser's own set
    /// of words, or all of them if there are fewer, in the order of their scores. A guess has the
    /// score that was handed over for it, or else the one that its scorer gives. The ranking stays
    /// as it is until something else is told, handed over or asked.
    #[verifier::external_body]
    pub(crate) fn select_top_n_guesses(&mut self, n: usize) -> (r: Vec<ScoredGuess>)
        requires
            thorough_trace(*old(self)).scorable(),
            thorough_trace(*old(self)).in_range(),
        ensures
            thorough_trace(*final(self)) == thorough_trace(*old(self)).selecting(
                thorough_trace(*old(self)).from,
            ),
            candidates(thorough_trace(*final(self)), thorough_trace(*old(self)).from) == candidates(
                thorough_trace(*old(self)),
                thorough_trace(*old(self)).from,
            ),
            thorough_trace(*old(self)).offers(n, r@),
            thorough_trace(*final(self)).draws_from(thorough_trace(*old(self)).from),
            thorough_trace(*final(self)).above_least(thorough_trace(*old(self)).from),
            thorough_trace(*final(self)).own_scores(),
            thorough_limit(*final(self)) == thorough_limit(*old(self)),
    {
        self.inner.select_top_n_guesses(n).into_iter().map(
            |g| ScoredGuess { score: g.score, guess: g.guess.to_string() },
        ).collect()
    }

    /// `Guesser::select_next_guess` chooses from the guesser's own set of words: the first word
    /// with the highest score. Where every score is the least `i64`, it does so only if there are
    /// enough words to look in parallel, and else chooses none.
    #[verifier::external_body]
    pub(crate) fn select_next_guess(&mut self) -> (r: Option<Arc<str>>)
        requires
            thorough_trace(*old(self)).scorable(),
        ensures
            thorough_trace(*final(self)) == thorough_trace(*old(self)).selecting(
                thorough_trace(*old(self)).from,
            ),
            candidates(thorough_trace(*final(self)), thorough_trace(*old(self)).from) == candidates(
                thorough_trace(*old(self)),
                thorough_trace(*old(self)).from,
            ),
            match r {
                Some(w) => thorough_trace(*old(self)).chooses(
                    thorough_trace(*old(self)).from,
                    thorough_limit(*old(self)),
                    Some(w@),
                ),
                None => thorough_trace(*old(self)).chooses(
                    thorough_trace(*old(self)).from,
                    thorough_limit(*old(self)),
                    None,
                ),
            },
            r matches Some(w) ==> thorough_trace(*old(self)).bank.contains(w@),
            thorough_trace(*final(self)).draws_from(thorough_trace(*old(self)).from),
            thorough_trace(*final(self)).above_least(thorough_trace(*old(self)).from),
            thorough_trace(*final(self)).own_scores(),
            thorough_limit(*final(self)) == thorough_limit(*old(self)),
    {
        self.inner.select_next_guess()
    }

    /// `Guesser::select_next_guess_from` chooses from the given set of words: the first word with
    /// the highest score. Where every score is the least `i64`, it does so only if there are enough
    /// words to look in parallel, and else chooses none.
    #[verifier::external_body]
    pub(crate) fn select_next_guess_from(&mut self, from: GuessFrom) -> (r: Option<Arc<str>>)
        requires
            thorough_trace(*old(self)).scorable(),
        ensures
            thorough_trace(*final(self)) == thorough_trace(*old(self)).selecting(from),
            candidates(thorough_trace(*final(self)), from) == candidates(
                thorough_trace(*old(self)),
                from,
            ),
            match r {
                Some(w) => thorough_trace(*old(self)).chooses(
                    from,
                    thorough_limit(*old(self)),
                    Some(w@),
                ),
                None => thorough_trace(*old(self)).chooses(
                    from,
                    thorough_limit(*old(self)),
                    None,
                ),
            },
            r matches Some(w) ==> thorough_trace(*old(self)).bank.contains(w@),
            thorough_trace(*final(self)).draws_from(from),
            thorough_trace(*final(self)).above_least(from),
            thorough_trace(*final(self)).own_scores(),
            thorough_limit(*final(self)) == thorough_limit(*old(self)),
    {
        let from = match from {
            GuessFrom::AllUnguessedWords => rs_wordle_solver::GuessFrom::AllUnguessedWords,
            GuessFrom::PossibleWords => rs_wordle_solver::GuessFrom::PossibleWords,
        };
        self.inner.select_next_guess_from(from)
    }

    /// `MaxScoreGuesser::with_scores` takes the scores over: they count until the next turn. Where
    /// a word is named twice, its last score counts.
    #[verifier::external_body]
    pub(crate) fn with_scores(self, scores: &Vec<(String, i64)>) -> (r: ThoroughGuesser)
        requires
            thorough_trace(self).scorable(),
        ensures
            thorough_trace(r) == thorough_trace(self).scored(score_map(scores@)),
            thorough_limit(r) == thorough_limit(self),
    {
        let scores = scores.iter().map(|s| (Arc::from(s.0.as_str()), s.1)).collect();
        ThoroughGuesser { inner: self.inner.with_scores(&scores) }
    }

    /// The clone of a guesser was made from, told and asked the same, and looks in parallel above
    /// the same number of words.
    #[verifier::external_body]
    pub(crate) fn duplicate(&self) -> (r: ThoroughGuesser)
        ensures
            thorough_trace(r) == thorough_trace(*self),
            thorough_limit(r) == thorough_limit(*self),
    {
        ThoroughGuesser { inner: self.inner.clone() }
    }
}

}
