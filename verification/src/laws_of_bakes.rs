//! What holds of stored scores, of the places that they are stored in, and of what is left to do.

use crate::bake::{
    is_due, left_to_bake, missing_words, recorded, BakeTarget, Baker, Response, STORE_SECONDS,
};
use crate::guesser::{accepts, by_score, candidates, score_map, GuessFrom, Scoring, Turn};
use crate::laws_of_text::lemma_number_written;
use crate::letters::{marks_of, LetterResult};
use crate::scores::{shorter, side_by_side, usable, MISSING};
use crate::solve::{base_path, path_after, score_path_of};
use crate::text::{decimal, digits_value};
use vstd::prelude::*;

verus! {

/// A score that is missing is the least `i64`. It is used as the one above it, and any other score
/// as it is.
pub proof fn lemma_usable(score: i64)
    ensures
        MISSING == i64::MIN,
        usable(score) > i64::MIN,
        score > i64::MIN ==> usable(score) == score,
        score == i64::MIN ==> usable(score) == i64::MIN + 1,
{
}

/// Scores keep their order when they are used.
pub proof fn lemma_usable_keeps_order(a: i64, b: i64)
    requires
        a <= b,
    ensures
        usable(a) <= usable(b),
{
}

/// Words and scores stand side by side up to the end of the shorter list: the word and the score at
/// each place together, and none left out.
pub proof fn lemma_side_by_side(words: Seq<String>, scores: Seq<i64>, pairs: Seq<(String, i64)>)
    requires
        side_by_side(words, scores, pairs),
    ensures
        pairs.len() <= words.len(),
        pairs.len() <= scores.len(),
        pairs.len() == words.len() || pairs.len() == scores.len(),
        forall|i: int|
            0 <= i < pairs.len() ==> (#[trigger] pairs[i]).0@ == words[i]@ && pairs[i].1
                == scores[i],
{
}

/// A list of words and scores gives a score to the words that it names and to no others. One more
/// word and score at its end gives that score to that word, and changes no other.
pub proof fn lemma_score_map(pairs: Seq<(String, i64)>, one: (String, i64), word: Seq<char>)
    ensures
        score_map(pairs).contains_key(word) <==> exists|i: int|
            0 <= i < pairs.len() && (#[trigger] pairs[i]).0@ == word,
        score_map(pairs.push(one)).contains_key(one.0@),
        score_map(pairs.push(one))[one.0@] == one.1,
        word != one.0@ && score_map(pairs).contains_key(word) ==> score_map(pairs.push(one))[word]
            == score_map(pairs)[word],
    decreases pairs.len(),
{
    assert(pairs.push(one).drop_last() =~= pairs);
    if pairs.len() > 0 {
        let before = pairs.drop_last();
        lemma_score_map(before, one, word);
        if exists|i: int| 0 <= i < pairs.len() && (#[trigger] pairs[i]).0@ == word {
            let i = choose|i: int| 0 <= i < pairs.len() && (#[trigger] pairs[i]).0@ == word;
            if i < before.len() {
                assert(before[i].0@ == word);
            }
        }
        if score_map(pairs).contains_key(word) {
            if word == pairs.last().0@ {
                assert(pairs[pairs.len() - 1].0@ == word);
            } else {
                let i = choose|i: int| 0 <= i < before.len() && (#[trigger] before[i]).0@ == word;
                assert(pairs[i].0@ == word);
            }
        }
    }
}

/// The shorter one of two lengths is one of them, and not above the other.
pub proof fn lemma_shorter(a: nat, b: nat)
    ensures
        shorter(a, b) <= a,
        shorter(a, b) <= b,
        shorter(a, b) == a || shorter(a, b) == b,
{
}

/// The scores of a state are stored under its path, in `score`.
pub proof fn lemma_score_path(path: Seq<char>)
    ensures
        score_path_of(path).len() == path.len() + 6,
        score_path_of(path).take(path.len() as int) == path,
        score_path_of(path).skip(path.len() as int) == seq!['/', 's', 'c', 'o', 'r', 'e'],
{
    reveal_strlit("/score");
    assert(score_path_of(path).take(path.len() as int) =~= path);
    assert(score_path_of(path).skip(path.len() as int) =~= seq!['/', 's', 'c', 'o', 'r', 'e']);
}

/// The path of a state goes on by a stroke and the letters of the results that led to it; the first
/// state has a zero there.
pub proof fn lemma_path(path: Seq<char>, results: Seq<LetterResult>)
    ensures
        base_path() == seq!['/', '0'],
        path_after(path, results).len() == path.len() + 1 + results.len(),
        path_after(path, results).take(path.len() as int) == path,
        path_after(path, results)[path.len() as int] == '/',
        path_after(path, results).skip(path.len() as int + 1) == marks_of(results),
{
    reveal_strlit("/0");
    assert("/0"@ =~= seq!['/', '0']);
    assert(path_after(path, results).take(path.len() as int) =~= path);
    assert(path_after(path, results).skip(path.len() as int + 1) =~= marks_of(results));
}

/// A state is named by a zero before any guess, and else by the letters of its results. Its scores
/// are stored under its name, in `score`.
pub proof fn lemma_target(target: BakeTarget)
    ensures
        match target {
            BakeTarget::BaseState => target.name() == seq!['0'],
            BakeTarget::AfterResponse(_, results) => target.name() == marks_of(results@),
        },
        target.key().len() == target.name().len() + 7,
        target.key()[0] == '/',
        target.key().subrange(1, 1 + target.name().len() as int) == target.name(),
        target.key().skip(1 + target.name().len() as int) == seq!['/', 's', 'c', 'o', 'r', 'e'],
{
    reveal_strlit("/");
    reveal_strlit("0");
    reveal_strlit("/score");
    assert("0"@ =~= seq!['0']);
    assert(target.key().subrange(1, 1 + target.name().len() as int) =~= target.name());
    let rest = target.key().skip(1 + target.name().len() as int);
    assert(rest =~= seq!['/', 's', 'c', 'o', 'r', 'e']);
}

/// What is said before words are scored gives three numbers, in digits: how many were scored
/// before, how many there are, and how many are left; the first and the last add up to the second.
pub proof fn lemma_progress(target: BakeTarget, total: nat, left: nat) -> (said: (
    Seq<char>,
    Seq<char>,
    Seq<char>,
))
    requires
        left <= total,
    ensures
        target.progress(total, left) == "baked "@ + said.0 + "/"@ + said.1 + " for "@
            + target.name() + "; baking "@ + said.2 + " more..."@,
        digits_value(said.0) + digits_value(said.2) == digits_value(said.1),
        digits_value(said.1) == total,
        digits_value(said.2) == left,
        said.0 == decimal(digits_value(said.0)),
        said.1 == decimal(digits_value(said.1)),
        said.2 == decimal(digits_value(said.2)),
        target.already() == target.name() + " was already baked"@,
{
    lemma_number_written((total - left) as nat);
    lemma_number_written(total);
    lemma_number_written(left);
    (decimal((total - left) as nat), decimal(total), decimal(left))
}

/// Whether `places` are all the places below `n` at which a score is missing, in order.
pub open spec fn are_missing(scores: Seq<i64>, n: nat, places: Seq<int>) -> bool {
    &&& forall|k: int|
        0 <= k < places.len() ==> 0 <= (#[trigger] places[k]) < n && scores[places[k]] == i64::MIN
    &&& forall|k: int, m: int| 0 <= k < m < places.len() ==> #[trigger] places[k]
        < #[trigger] places[m]
    &&& forall|i: int| 0 <= i < n && #[trigger] scores[i] == i64::MIN ==> places.contains(i)
}

/// The words at the places at which a score is missing are those that are missing.
proof fn lemma_missing(words: Seq<Seq<char>>, scores: Seq<i64>, n: nat) -> (places: Seq<int>)
    requires
        n <= scores.len(),
    ensures
        are_missing(scores, n, places),
        missing_words(words, scores, n).len() == places.len(),
        forall|k: int|
            0 <= k < places.len() ==> #[trigger] missing_words(words, scores, n)[k]
                == words[places[k]],
    decreases n,
{
    if n == 0 {
        Seq::empty()
    } else {
        let before = lemma_missing(words, scores, (n - 1) as nat);
        if scores[n - 1] == i64::MIN {
            let places = before.push(n - 1);
            assert forall|i: int| 0 <= i < n && #[trigger] scores[i] == i64::MIN implies
                places.contains(i) by {
                if i < n - 1 {
                    let k = choose|k: int| 0 <= k < before.len() && before[k] == i;
                    assert(places[k] == i);
                } else {
                    assert(places[before.len() as int] == i);
                }
            }
            assert forall|k: int, m: int| 0 <= k < m < places.len() implies #[trigger] places[k]
                < #[trigger] places[m] by {
                assert(places[k] == before[k]);
                if m < before.len() {
                    assert(places[m] == before[m]);
                }
            }
            assert forall|k: int| 0 <= k < places.len() implies 0 <= (#[trigger] places[k]) < n
                && scores[places[k]] == i64::MIN by {
                if k < before.len() {
                    assert(places[k] == before[k]);
                }
            }
            assert forall|k: int| 0 <= k < places.len() implies #[trigger] missing_words(
                words,
                scores,
                n,
            )[k] == words[places[k]] by {
                if k < before.len() {
                    assert(places[k] == before[k]);
                    assert(missing_words(words, scores, (n - 1) as nat)[k] == words[before[k]]);
                }
            }
            places
        } else {
            assert forall|i: int| 0 <= i < n && #[trigger] scores[i] == i64::MIN implies
                before.contains(i) by {
                assert(i < n - 1);
            }
            assert forall|k: int| 0 <= k < before.len() implies 0 <= (#[trigger] before[k]) < n
                && scores[before[k]] == i64::MIN by {
                assert(before[k] < n - 1);
            }
            before
        }
    }
}

/// Unless all is done, the words that are left to be scored are those at the places at which a
/// score is missing, all of them, in order, and no others, wherever these places are.
pub proof fn lemma_left(words: Seq<Seq<char>>, scores: Seq<i64>) -> (places: Seq<int>)
    requires
        words.len() <= scores.len(),
    ensures
        are_missing(scores, words.len(), places),
        left_to_bake(words, scores, false).len() == places.len(),
        forall|k: int|
            0 <= k < places.len() ==> #[trigger] left_to_bake(words, scores, false)[k]
                == words[places[k]],
        left_to_bake(words, scores, true).len() == 0,
{
    lemma_missing(words, scores, words.len())
}

/// Where there are fewer scores than words, nothing is left of the words without a place for a
/// score.
pub proof fn lemma_left_of_fewer_scores(words: Seq<Seq<char>>, scores: Seq<i64>) -> (places: Seq<
    int,
>)
    requires
        scores.len() <= words.len(),
    ensures
        are_missing(scores, scores.len(), places),
        left_to_bake(words, scores, false).len() == places.len(),
        forall|k: int|
            0 <= k < places.len() ==> #[trigger] left_to_bake(words, scores, false)[k]
                == words[places[k]],
        left_to_bake(words, scores, true).len() == 0,
{
    lemma_missing(words, scores, scores.len())
}

/// A word whose score is missing is left, and one that no missing score belongs to is not.
pub proof fn lemma_left_words(words: Seq<Seq<char>>, scores: Seq<i64>, word: Seq<char>)
    requires
        words.len() == scores.len(),
    ensures
        left_to_bake(words, scores, false).contains(word) <==> exists|i: int|
            0 <= i < words.len() && #[trigger] words[i] == word && scores[i] == i64::MIN,
{
    let left = left_to_bake(words, scores, false);
    let places = lemma_left(words, scores);
    if left.contains(word) {
        let k = choose|k: int| 0 <= k < left.len() && left[k] == word;
        assert(left[k] == words[places[k]]);
        assert(0 <= places[k] < words.len() && scores[places[k]] == i64::MIN);
    }
    if exists|i: int| 0 <= i < words.len() && #[trigger] words[i] == word && scores[i] == i64::MIN {
        let i = choose|i: int|
            0 <= i < words.len() && #[trigger] words[i] == word && scores[i] == i64::MIN;
        assert(places.contains(i));
        let k = choose|k: int| 0 <= k < places.len() && places[k] == i;
        assert(left[k] == words[places[k]]);
    }
}

/// Scores are stored once more than ten seconds have passed, to the nanosecond, or if the clock was
/// set back.
pub proof fn lemma_due(secs: u64, nanos: u32)
    requires
        nanos < 1_000_000_000,
    ensures
        STORE_SECONDS == 10,
        is_due(None),
        is_due(Some((secs, nanos))) <==> secs * 1_000_000_000 + nanos > 10_000_000_000,
{
}

/// Without reports, scores stay as they are, and one more report changes its own place only.
pub proof fn lemma_recorded_next(
    scores: Seq<i64>,
    reports: Seq<(usize, i64)>,
    place: usize,
    score: i64,
)
    ensures
        recorded(scores, Seq::empty()) == scores,
        recorded(scores, reports.push((place, score))) == recorded(scores, reports).update(
            place as int,
            score,
        ),
{
    assert(reports.push((place, score)).drop_last() =~= reports);
}

/// What results lead to is the state in which the best guess was told with them: the first word
/// with the highest score of all words that were not guessed yet. It is inconsistent if that turn
/// is not accepted.
pub proof fn lemma_leads_to(
    baker: Baker,
    guess: Seq<char>,
    results: Seq<LetterResult>,
    response: Response,
)
    requires
        baker.leads_to(guess, results, response),
    ensures
        guess == by_score(candidates(baker.trace(), GuessFrom::AllUnguessedWords))[0].0,
        baker.words().contains(guess),
        response.state.trace().turns == baker.trace().turns.push(Turn { guess, results }),
        response.state.trace().bank == baker.trace().bank,
        response.state.trace().from == baker.trace().from,
        response.state.trace().scoring == baker.trace().scoring,
        response.state.trace().asked.len() == 0,
        response.inconsistent <==> !accepts(
            baker.words(),
            baker.trace().turns,
            Turn { guess, results },
        ),
{
}

/// The state before any guess is that of a new thorough guesser that chooses from all words not
/// guessed yet; it is never inconsistent.
pub proof fn lemma_base_state(words: Seq<Seq<char>>, r: Option<Response>)
    requires
        BakeTarget::BaseState.leads_from(words, r),
    ensures
        r matches Some(response) && !response.inconsistent && response.state.trace().turns.len()
            == 0 && response.state.trace().asked.len() == 0 && response.state.trace().bank == words
            && response.state.trace().from == GuessFrom::AllUnguessedWords && (
        response.state.trace().scoring matches Scoring::Combo { from, threshold } && from
            == GuessFrom::AllUnguessedWords && threshold == 256),
{
}

/// The state that results lead to is one that they lead to from the state that they are of, if that
/// state has a guess.
pub proof fn lemma_state_after(
    from: &Baker,
    results: &[LetterResult],
    words: Seq<Seq<char>>,
    r: Option<Response>,
)
    requires
        BakeTarget::AfterResponse(from, results).leads_from(words, r),
    ensures
        r is Some <==> from.trace().decides(GuessFrom::AllUnguessedWords, from.limit()),
        r matches Some(response) ==> response.state.words() == from.words() && exists|
            guess: Seq<char>,
        | #[trigger]
            from.leads_to(guess, results@, response),
{
}

}
