//! What holds of guessers and games: what they are made of, told and asked, and what they list.

use crate::bake::Baker;
use crate::bank::{bank_words, length_of, one_length};
use crate::dispatch::{thorough_scoring, GuesserDispatch, COMBO_THRESHOLD};
use crate::entry::Entry;
use crate::guesser::{
    accepts, answered_by, by_score, candidates, combo_updates, lemma_by_score, possible_after,
    ranked_in, turn_fits, Ask, ComboTrace, GuessFrom, ScoredGuess, Scoring, Trace, Turn,
};
use crate::laws_of_text::lemma_ascii_text;
use crate::laws_of_words::{begins, lemma_all_ascii, lemma_slots};
use crate::letters::LetterResult;
use crate::play::{Game, MAX_INDEX, WORD_LENGTH};
use crate::response::{answer, slots, WordleError};
use crate::solve::{solvable, Solver};
use crate::text::{byte_len, is_ascii_text};
use vstd::prelude::*;

verus! {

/// A thorough score looks for the best second guess among all words that were not guessed yet, as
/// long as more than 256 words are possible.
pub proof fn lemma_thorough_scoring()
    ensures
        thorough_scoring() matches Scoring::Combo { from, threshold } && from
            == GuessFrom::AllUnguessedWords && threshold == 256,
        COMBO_THRESHOLD == 256,
{
}

/// A game by hand is over words of five letters, and names places up to the fourth.
pub proof fn lemma_game_by_hand()
    ensures
        WORD_LENGTH == 5,
        MAX_INDEX == 4,
{
}

/// A guesser that says that it scores words thoroughly, or cheaply, does so.
pub proof fn lemma_kinds(guesser: GuesserDispatch)
    requires
        guesser.wf(),
    ensures
        guesser is Cheap ==> guesser.trace().scoring is Eliminations,
        guesser is Thorough ==> (guesser.trace().scoring matches Scoring::Combo { from, threshold }
            && from == GuessFrom::AllUnguessedWords && threshold == 256),
{
}

/// A state that is baked scores words as a thorough guesser does.
pub proof fn lemma_baker_scores(baker: Baker)
    requires
        baker.wf(),
    ensures
        baker.combo() == (ComboTrace {
            from: GuessFrom::AllUnguessedWords,
            threshold: 256,
            bank: bank_words(baker.bank),
            updates: combo_updates(bank_words(baker.bank), baker.trace().turns),
        }),
{
}

/// A scorer is told each turn that is accepted, with its guess and the words that are possible
/// after it, and no turn that is not.
pub proof fn lemma_scorer_told(bank: Seq<Seq<char>>, turns: Seq<Turn>, turn: Turn)
    ensures
        combo_updates(bank, Seq::empty()).len() == 0,
        accepts(bank, turns, turn) ==> combo_updates(bank, turns.push(turn)).len()
            == combo_updates(bank, turns).len() + 1 && combo_updates(
            bank,
            turns.push(turn),
        ).drop_last() == combo_updates(bank, turns) && combo_updates(
            bank,
            turns.push(turn),
        ).last().0 == turn.guess && combo_updates(bank, turns.push(turn)).last().1
            == possible_after(bank, turns.push(turn)),
        !accepts(bank, turns, turn) ==> combo_updates(bank, turns.push(turn)) == combo_updates(
            bank,
            turns,
        ),
{
    assert(turns.push(turn).drop_last() =~= turns);
    if accepts(bank, turns, turn) {
        assert(combo_updates(bank, turns.push(turn)).drop_last() =~= combo_updates(bank, turns));
    }
}

/// A word gives all results that were told if it gives those of the last turn and of the turns
/// before it.
pub proof fn lemma_answered_by(turns: Seq<Turn>, turn: Turn, word: Seq<char>)
    ensures
        answered_by(Seq::empty(), word) <==> is_ascii_text(word),
        answered_by(turns.push(turn), word) <==> answered_by(turns, word) && is_ascii_text(
            turn.guess,
        ) && turn.guess.len() == word.len() && turn.results == answer(word, turn.guess),
{
    let all = turns.push(turn);
    assert forall|i: int| 0 <= i < turns.len() implies #[trigger] turns[i] == all[i] by {}
    assert(all[turns.len() as int] == turn);
    if answered_by(all, word) {
        assert forall|i: int| 0 <= i < turns.len() implies is_ascii_text(
            (#[trigger] turns[i]).guess,
        ) && turns[i].guess.len() == word.len() && turns[i].results == answer(
            word,
            turns[i].guess,
        ) by {
            assert(all[i] == turns[i]);
        }
    }
}

/// A turn that is told to a guesser is noted as it is, at the end of its turns, and what was asked
/// before it no longer counts.
pub proof fn lemma_told(trace: Trace, guess: Seq<char>, results: Seq<LetterResult>)
    ensures
        trace.told(guess, results).turns.len() == trace.turns.len() + 1,
        trace.told(guess, results).turns.last().guess == guess,
        trace.told(guess, results).turns.last().results == results,
        trace.told(guess, results).turns.drop_last() == trace.turns,
        trace.told(guess, results).asked.len() == 0,
        trace.told(guess, results).given() == Map::<Seq<char>, i64>::empty(),
        trace.told(guess, results).bank == trace.bank,
        trace.told(guess, results).from == trace.from,
        trace.told(guess, results).scoring == trace.scoring,
{
    assert(trace.told(guess, results).turns.drop_last() =~= trace.turns);
}

/// To ask for a guess is noted with the set of words that it is asked from, and changes no score
/// that was handed over.
pub proof fn lemma_selected(trace: Trace, from: GuessFrom)
    ensures
        trace.selecting(from).asked == trace.asked.push(Ask::Select(from)),
        trace.selecting(from).given() == trace.given(),
        trace.selecting(from).turns == trace.turns,
        trace.selecting(from).bank == trace.bank,
        trace.selecting(from).from == trace.from,
        trace.selecting(from).scoring == trace.scoring,
        trace.selecting(from).possible() == trace.possible(),
{
    assert(trace.selecting(from).asked.drop_last() =~= trace.asked);
}

/// Scores that are handed over take the place of all that were handed over before.
pub proof fn lemma_scored(trace: Trace, scores: Map<Seq<char>, i64>)
    ensures
        trace.scored(scores).given() == scores,
        trace.scored(scores).turns == trace.turns,
        trace.scored(scores).bank == trace.bank,
        trace.scored(scores).from == trace.from,
        trace.scored(scores).scoring == trace.scoring,
        trace.scored(scores).possible() == trace.possible(),
{
    assert(trace.scored(scores).asked.last() == Ask::Scores(scores));
}

/// A new guesser was told and asked nothing.
pub proof fn lemma_fresh(scoring: Scoring, from: GuessFrom, bank: Seq<Seq<char>>)
    ensures
        Trace::fresh(scoring, from, bank).turns.len() == 0,
        Trace::fresh(scoring, from, bank).asked.len() == 0,
        Trace::fresh(scoring, from, bank).given() == Map::<Seq<char>, i64>::empty(),
        Trace::fresh(scoring, from, bank).bank == bank,
        Trace::fresh(scoring, from, bank).from == from,
        Trace::fresh(scoring, from, bank).scoring == scoring,
{
}

/// What is possible depends on the words and the turns, and on nothing else.
pub proof fn lemma_possible(a: Trace, b: Trace)
    ensures
        a.possible() == possible_after(a.bank, a.turns),
        a.bank == b.bank && a.turns == b.turns ==> a.possible() == b.possible(),
{
}

/// A turn is replied to by its own guess and results: it succeeds if it is accepted, and else the
/// results are said to be invalid and no word is ruled out.
pub proof fn lemma_settled(
    trace: Trace,
    guess: Seq<char>,
    results: Seq<LetterResult>,
    r: Result<(), WordleError>,
)
    requires
        trace.settles(guess, results, r),
    ensures
        r is Ok <==> accepts(trace.bank, trace.turns, Turn { guess, results }),
        r is Err ==> r == Err::<(), WordleError>(WordleError::InvalidResults),
        possible_after(
            trace.bank,
            trace.turns.push(Turn { guess, results }),
        ).to_multiset().subset_of(possible_after(trace.bank, trace.turns).to_multiset()),
        r is Err ==> possible_after(
            trace.bank,
            trace.turns.push(Turn { guess, results }),
        ).to_multiset() == possible_after(trace.bank, trace.turns).to_multiset(),
{
}

/// Whether `places` puts what is ranked into order: each word once, those with higher scores first,
/// and those with the same score as they were.
pub open spec fn orders(
    scored: Seq<(Seq<char>, i64)>,
    ranked: Seq<(Seq<char>, i64)>,
    places: Seq<int>,
) -> bool {
    &&& places.len() == ranked.len()
    &&& forall|i: int|
        0 <= i < ranked.len() ==> 0 <= (#[trigger] places[i]) < scored.len() && ranked[i]
            == scored[places[i]]
    &&& forall|i: int, j: int|
        0 <= i < j < ranked.len() ==> scored[#[trigger] places[i]].1
            > scored[#[trigger] places[j]].1 || (scored[places[i]].1 == scored[places[j]].1
            && places[i] < places[j])
}

/// One more word is put behind those that are not lower, and before the others.
proof fn lemma_ordered_in(
    scored: Seq<(Seq<char>, i64)>,
    ranked: Seq<(Seq<char>, i64)>,
    places: Seq<int>,
    n: int,
) -> (r: Seq<int>)
    requires
        orders(scored, ranked, places),
        0 <= n < scored.len(),
        forall|i: int| 0 <= i < places.len() ==> (#[trigger] places[i]) < n,
    ensures
        orders(scored, ranked_in(ranked, scored[n]), r),
        r.len() == places.len() + 1,
        forall|i: int| 0 <= i < r.len() ==> (#[trigger] r[i]) == n || places.contains(r[i]),
    decreases ranked.len(),
{
    let one = scored[n];
    let after = ranked_in(ranked, one);
    if ranked.len() > 0 && ranked.last().1 < one.1 {
        let last = ranked.len() - 1;
        let rest = ranked.drop_last();
        let fewer = places.drop_last();
        assert(orders(scored, rest, fewer)) by {
            assert forall|i: int| 0 <= i < rest.len() implies 0 <= (#[trigger] fewer[i])
                < scored.len() && rest[i] == scored[fewer[i]] by {
                assert(fewer[i] == places[i]);
            }
            assert forall|i: int, j: int| 0 <= i < j < rest.len() implies scored[
                #[trigger] fewer[i]].1 > scored[#[trigger] fewer[j]].1 || (scored[fewer[i]].1
                == scored[fewer[j]].1 && fewer[i] < fewer[j]) by {
                assert(fewer[i] == places[i] && fewer[j] == places[j]);
            }
        }
        assert forall|i: int| 0 <= i < fewer.len() implies (#[trigger] fewer[i]) < n by {
            assert(fewer[i] == places[i]);
        }
        let sub = lemma_ordered_in(scored, rest, fewer, n);
        let r = sub.push(places[last]);
        assert(after == ranked_in(rest, one).push(ranked.last()));
        assert forall|i: int| 0 <= i < r.len() implies (#[trigger] r[i]) == n || places.contains(
            r[i],
        ) by {
            if i < sub.len() {
                assert(r[i] == sub[i]);
                if sub[i] != n {
                    let k = choose|k: int| 0 <= k < fewer.len() && fewer[k] == sub[i];
                    assert(places[k] == r[i]);
                }
            } else {
                assert(places[last] == r[i]);
            }
        }
        assert forall|i: int| 0 <= i < after.len() implies 0 <= (#[trigger] r[i]) < scored.len()
            && after[i] == scored[r[i]] by {
            if i < sub.len() {
                assert(r[i] == sub[i]);
            } else {
                assert(0 <= places[last] < scored.len() && ranked[last] == scored[places[last]]);
            }
        }
        assert forall|i: int, j: int| 0 <= i < j < after.len() implies scored[#[trigger] r[i]].1
            > scored[#[trigger] r[j]].1 || (scored[r[i]].1 == scored[r[j]].1 && r[i] < r[j]) by {
            assert(r[i] == sub[i]);
            if j < sub.len() {
                assert(r[j] == sub[j]);
            } else if sub[i] != n {
                let k = choose|k: int| 0 <= k < fewer.len() && fewer[k] == sub[i];
                assert(places[k] == sub[i]);
                assert(scored[places[k]].1 > scored[places[last]].1 || (scored[places[k]].1
                    == scored[places[last]].1 && places[k] < places[last]));
            } else {
                assert(ranked[last] == scored[places[last]]);
            }
        }
        r
    } else {
        let r = places.push(n);
        assert(after == ranked.push(one));
        assert forall|i: int| 0 <= i < r.len() implies (#[trigger] r[i]) == n || places.contains(
            r[i],
        ) by {
            if i < places.len() {
                assert(r[i] == places[i]);
            }
        }
        assert forall|i: int| 0 <= i < after.len() implies 0 <= (#[trigger] r[i]) < scored.len()
            && after[i] == scored[r[i]] by {
            if i < places.len() {
                assert(r[i] == places[i]);
            }
        }
        assert forall|i: int, j: int| 0 <= i < j < after.len() implies scored[#[trigger] r[i]].1
            > scored[#[trigger] r[j]].1 || (scored[r[i]].1 == scored[r[j]].1 && r[i] < r[j]) by {
            assert(r[i] == places[i]);
            if j < places.len() {
                assert(r[j] == places[j]);
            } else {
                let last = ranked.len() - 1;
                assert(ranked[last] == scored[places[last]]);
                if i < last {
                    assert(scored[places[i]].1 > scored[places[last]].1 || (scored[places[i]].1
                        == scored[places[last]].1 && places[i] < places[last]));
                }
            }
        }
        r
    }
}

/// A ranking holds every word that is ranked once, those with higher scores first, and those with
/// the same score in the order in which they were.
pub proof fn lemma_ranking_order(scored: Seq<(Seq<char>, i64)>) -> (places: Seq<int>)
    ensures
        by_score(scored).len() == scored.len(),
        orders(scored, by_score(scored), places),
    decreases scored.len(),
{
    lemma_by_score(scored);
    if scored.len() == 0 {
        Seq::empty()
    } else {
        let n = scored.len() - 1;
        let before = scored.drop_last();
        let places = lemma_ranking_order(before);
        assert(orders(scored, by_score(before), places)) by {
            assert forall|i: int| 0 <= i < before.len() implies 0 <= (#[trigger] places[i])
                < scored.len() && by_score(before)[i] == scored[places[i]] by {
                assert(before[places[i]] == scored[places[i]]);
            }
            assert forall|i: int, j: int| 0 <= i < j < before.len() implies scored[
                #[trigger] places[i]].1 > scored[#[trigger] places[j]].1 || (scored[places[i]].1
                == scored[places[j]].1 && places[i] < places[j]) by {
                assert(before[places[i]] == scored[places[i]]);
                assert(before[places[j]] == scored[places[j]]);
            }
        }
        assert forall|i: int| 0 <= i < places.len() implies (#[trigger] places[i]) < n by {
            assert(0 <= places[i] < before.len());
        }
        lemma_ordered_in(scored, by_score(before), places, n)
    }
}

/// A list of the best `n` guesses is the beginning of the ranking of the guesser's own set of
/// words: `n` of them, or all if there are fewer.
pub proof fn lemma_offered(trace: Trace, n: usize, r: Seq<ScoredGuess>)
    requires
        trace.offers(n, r),
    ensures
        r.len() <= n,
        r.len() == n || r.len() == candidates(trace, trace.from).len(),
        r.len() <= candidates(trace, trace.from).len(),
        forall|i: int|
            0 <= i < r.len() ==> (#[trigger] r[i]).guess@ == by_score(
                candidates(trace, trace.from),
            )[i].0 && r[i].score == by_score(candidates(trace, trace.from))[i].1,
{
    lemma_by_score(candidates(trace, trace.from));
}

/// No guess is chosen only where every score is the least `i64` and the words are too few to be
/// looked at in parallel.
pub proof fn lemma_none_chosen(trace: Trace, from: GuessFrom, limit: nat)
    requires
        trace.chooses(from, limit, None),
    ensures
        candidates(trace, from).len() <= limit,
        forall|i: int|
            0 <= i < candidates(trace, from).len() ==> (#[trigger] candidates(trace, from)[i]).1
                == i64::MIN,
{
}

/// The beginning of an ASCII text is as long in bytes as in characters.
proof fn lemma_ascii_prefix(s: Seq<char>, j: int)
    requires
        is_ascii_text(s),
        0 <= j <= s.len(),
    ensures
        byte_len(s.take(j)) == j,
{
    let prefix = s.take(j);
    assert forall|i: int| 0 <= i < prefix.len() implies (#[trigger] prefix[i]) <= '\u{7f}' by {
        assert(s[i] <= '\u{7f}');
    }
    lemma_ascii_text(prefix);
}

/// Results can be told of an ASCII guess that is no longer than the words, of 255 letters at most,
/// unless a letter that has a result stands again where there is none.
pub proof fn lemma_turn_fits(length: nat, guess: Seq<char>, n: nat)
    requires
        is_ascii_text(guess),
    ensures
        turn_fits(length, guess, n) <==> guess.len() <= length && length <= 255 && forall|
            k: int,
            j: int,
        |
            0 <= k < n && k < guess.len() && n <= j < guess.len() ==> #[trigger] guess[k]
                != #[trigger] guess[j],
{
    lemma_ascii_text(guess);
    assert forall|j: int| 0 <= j <= guess.len() implies byte_len(#[trigger] guess.take(j)) == j by {
        lemma_ascii_prefix(guess, j);
    }
    if guess.len() <= length && length <= 255 && forall|k: int, j: int|
        0 <= k < n && k < guess.len() && n <= j < guess.len() ==> #[trigger] guess[k]
            != #[trigger] guess[j] {
        assert forall|k: int, j: int|
            0 <= k < guess.len() && k < n && 0 <= j < guess.len() && #[trigger] guess[k]
                == #[trigger] guess[j] implies byte_len(guess.take(j)) < n by {
            assert(byte_len(guess.take(j)) == j);
        }
    }
    if turn_fits(length, guess, n) {
        assert forall|k: int, j: int|
            0 <= k < n && k < guess.len() && n <= j < guess.len() implies #[trigger] guess[k]
            != #[trigger] guess[j] by {
            if guess[k] == guess[j] {
                assert(byte_len(guess.take(j)) == j);
            }
        }
    }
}

/// Results can be told of a guess that is no longer than the words, of 255 bytes at most, if every
/// byte at which a character begins that has a result has a result too.
pub proof fn lemma_turn_fits_in_bytes(length: nat, guess: Seq<char>, n: nat)
    ensures
        turn_fits(length, guess, n) <==> slots(guess).len() <= length && length <= 255 && forall|
            k: int,
            m: int,
        |
            0 <= k < n && k < guess.len() && 0 <= m < slots(guess).len() && #[trigger] slots(
                guess,
            )[m] == Some(#[trigger] guess[k]) ==> m < n,
{
    lemma_slots(guess);
    if turn_fits(length, guess, n) {
        assert forall|k: int, m: int|
            0 <= k < n && k < guess.len() && 0 <= m < slots(guess).len() && #[trigger] slots(
                guess,
            )[m] == Some(#[trigger] guess[k]) implies m < n by {
            assert(begins(guess, m));
            let j = choose|j: int| 0 <= j < guess.len() && byte_len(#[trigger] guess.take(j)) == m;
            assert(slots(guess)[m] == Some(guess[j]));
            assert(guess[k] == guess[j]);
        }
    }
    if slots(guess).len() <= length && length <= 255 && forall|k: int, m: int|
        0 <= k < n && k < guess.len() && 0 <= m < slots(guess).len() && #[trigger] slots(guess)[m]
            == Some(#[trigger] guess[k]) ==> m < n {
        assert forall|k: int, j: int|
            0 <= k < guess.len() && k < n && 0 <= j < guess.len() && #[trigger] guess[k]
                == #[trigger] guess[j] implies byte_len(guess.take(j)) < n by {
            let m = byte_len(guess.take(j)) as int;
            assert(slots(guess)[m] == Some(guess[k]));
        }
    }
}

/// A result for every byte of a guess can always be told, if that is as long as the words, of 255
/// bytes at most.
pub proof fn lemma_full_turn(length: nat, guess: Seq<char>)
    requires
        byte_len(guess) == length <= 255,
    ensures
        turn_fits(length, guess, length),
{
    crate::bake::lemma_full_turn_fits(length, guess, length);
}

/// Words are of one length if each takes as many bytes as the first one.
pub proof fn lemma_length_of(words: Seq<Seq<char>>)
    ensures
        words.len() == 0 ==> length_of(words) == 0,
        words.len() > 0 ==> length_of(words) == byte_len(words[0]),
        one_length(words) <==> forall|i: int, j: int|
            0 <= i < words.len() && 0 <= j < words.len() ==> byte_len(#[trigger] words[i])
                == byte_len(#[trigger] words[j]),
{
    if words.len() > 0 && forall|i: int, j: int|
        0 <= i < words.len() && 0 <= j < words.len() ==> byte_len(#[trigger] words[i]) == byte_len(
            #[trigger] words[j],
        ) {
        assert forall|i: int| 0 <= i < words.len() implies byte_len(#[trigger] words[i])
            == length_of(words) by {
            assert(byte_len(words[i]) == byte_len(words[0]));
        }
    }
}

/// Words of one length can be scored if they take 16 bytes at most. Where a score looks two guesses
/// ahead, over more words than its threshold, they must be ASCII words too.
pub proof fn lemma_scorable(trace: Trace)
    requires
        trace.bank.len() > 0,
    ensures
        (Trace { bank: Seq::empty(), ..trace }).scorable(),
        trace.scoring is Eliminations ==> (trace.scorable() <==> byte_len(trace.bank[0]) <= 16),
        trace.scoring matches Scoring::Combo { threshold, .. } ==> (trace.scorable() <==> byte_len(
            trace.bank[0],
        ) <= 16 && (trace.bank.len() > threshold ==> forall|i: int|
            0 <= i < trace.bank.len() ==> byte_len(#[trigger] trace.bank[i])
                == trace.bank[i].len())),
{
    lemma_all_ascii(trace.bank);
}

/// A list of words can be solved if they take 16 bytes at most, and are ASCII words if there are
/// more than 256 of them.
pub proof fn lemma_solvable(words: Seq<Seq<char>>)
    ensures
        words.len() == 0 ==> solvable(words),
        words.len() > 0 ==> (solvable(words) <==> byte_len(words[0]) <= 16 && (words.len() > 256
            ==> forall|i: int|
            0 <= i < words.len() ==> byte_len(#[trigger] words[i]) == words[i].len())),
{
    lemma_all_ascii(words);
}

/// A word can be scored two guesses ahead if it is as long as the words, of 16 bytes at most, and
/// an ASCII word if there are more words than the threshold.
pub proof fn lemma_can_score(combo: ComboTrace, word: Seq<char>)
    ensures
        combo.bank.len() == 0 ==> (combo.can_score(word) <==> word.len() == 0),
        combo.bank.len() > 0 ==> (combo.can_score(word) <==> byte_len(word) == byte_len(
            combo.bank[0],
        ) && byte_len(word) <= 16 && (combo.bank.len() > combo.threshold ==> byte_len(word)
            == word.len())),
{
    lemma_ascii_text(word);
    crate::text::lemma_byte_len_bounds(word);
}

/// A place is taken if it is one of the list, counted from one; a request for more if its number
/// can be counted on; and anything else always.
pub proof fn lemma_taken(game: Game, entry: Entry)
    ensures
        match entry {
            Entry::Index(p) => game.takes(entry) <==> 0 < p && p <= game.guesses@.len(),
            Entry::More(n) => game.takes(entry) <==> n <= usize::MAX - game.how_many_total,
            _ => game.takes(entry),
        },
{
}

/// A place is taken if it is one of the list, counted from one; a request for more if its number
/// can be counted on; and anything else always.
pub proof fn lemma_taken_by_solver(solver: Solver, entry: Entry)
    ensures
        match entry {
            Entry::Index(p) => solver.takes(entry) <==> 0 < p && p <= solver.guesses@.len(),
            Entry::More(n) => solver.takes(entry) <==> n <= usize::MAX - solver.how_many_total,
            _ => solver.takes(entry),
        },
{
}

/// The trace and the words of a game are those of its guesser and its bank.
pub proof fn lemma_game_is_its_guesser(game: Game, solver: Solver, baker: Baker)
    ensures
        game.trace() == game.guesser.trace(),
        game.words() == bank_words(game.bank),
        solver.trace() == crate::guesser::thorough_trace(solver.guesser),
        solver.words() == bank_words(solver.bank),
        baker.trace() == crate::guesser::thorough_trace(baker.guesser),
        baker.words() == bank_words(baker.bank),
        baker.limit() == crate::guesser::thorough_limit(baker.guesser),
        match game.guesser {
            GuesserDispatch::Cheap(g) => game.trace() == crate::guesser::cheap_trace(g),
            GuesserDispatch::Thorough(g) => game.trace() == crate::guesser::thorough_trace(g),
        },
{
}

}
