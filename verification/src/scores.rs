//! Scores that were computed beforehand, and the words that they belong to.

use crate::guesser::score_map;
use vstd::prelude::*;

verus! {

/// The score that stands for one that was not computed yet.
pub const MISSING: i64 = i64::MIN;

/// A stored score as it is used: one that is missing becomes the least score that can be ranked.
pub open spec fn usable(score: i64) -> i64 {
    if score == MISSING {
        (MISSING + 1) as i64
    } else {
        score
    }
}

/// The length of the shorter one of two lists.
pub open spec fn shorter(a: nat, b: nat) -> nat {
    if a <= b {
        a
    } else {
        b
    }
}

/// Whether `pairs` are the words and the scores of two lists side by side, up to the end of the
/// shorter one.
pub open spec fn side_by_side(
    words: Seq<String>,
    scores: Seq<i64>,
    pairs: Seq<(String, i64)>,
) -> bool {
    &&& pairs.len() == shorter(words.len(), scores.len())
    &&& forall|i: int|
        0 <= i < pairs.len() ==> (#[trigger] pairs[i]).0@ == words[i]@ && pairs[i].1 == scores[i]
}

/// The words and their scores, side by side.
pub fn pair_scores(words: &Vec<String>, scores: &Vec<i64>) -> (pairs: Vec<(String, i64)>)
    ensures
        side_by_side(words@, scores@, pairs@),
{
    let mut pairs: Vec<(String, i64)> = Vec::new();
    let mut i: usize = 0;
    while i < words.len() && i < scores.len()
        invariant
            i <= shorter(words@.len(), scores@.len()),
            pairs@.len() == i,
            forall|j: int|
                0 <= j < i ==> (#[trigger] pairs@[j]).0@ == words@[j]@ && pairs@[j].1 == scores@[j],
        decreases words@.len() - i,
    {
        pairs.push((words[i].clone(), scores[i]));
        i = i + 1;
    }
    pairs
}

/// The words and their stored scores, side by side, as they are used.
pub fn load_scores(words: &Vec<String>, stored: &Vec<i64>) -> (pairs: Vec<(String, i64)>)
    ensures
        side_by_side(words@, stored@.map_values(|s: i64| usable(s)), pairs@),
        forall|w: Seq<char>| #[trigger]
            score_map(pairs@).contains_key(w) ==> score_map(pairs@)[w] > i64::MIN,
{
    let mut pairs: Vec<(String, i64)> = Vec::new();
    let mut i: usize = 0;
    while i < words.len() && i < stored.len()
        invariant
            i <= shorter(words@.len(), stored@.len()),
            pairs@.len() == i,
            forall|j: int|
                0 <= j < i ==> (#[trigger] pairs@[j]).0@ == words@[j]@ && pairs@[j].1 == usable(
                    stored@[j],
                ),
        decreases words@.len() - i,
    {
        let score: i64 = if stored[i] == MISSING {
            MISSING + 1
        } else {
            stored[i]
        };
        pairs.push((words[i].clone(), score));
        i = i + 1;
    }
    proof {
        lemma_score_map_range(pairs@);
    }
    pairs
}

/// Where no pair holds the least `i64`, no word has it for its score.
proof fn lemma_score_map_range(pairs: Seq<(String, i64)>)
    requires
        forall|i: int| 0 <= i < pairs.len() ==> (#[trigger] pairs[i]).1 > i64::MIN,
    ensures
        forall|w: Seq<char>| #[trigger]
            score_map(pairs).contains_key(w) ==> score_map(pairs)[w] > i64::MIN,
    decreases pairs.len(),
{
    if pairs.len() > 0 {
        let before = pairs.drop_last();
        assert forall|i: int| 0 <= i < before.len() implies (#[trigger] before[i]).1 > i64::MIN by {
            assert(before[i] == pairs[i]);
        }
        lemma_score_map_range(before);
        assert(pairs.last() == pairs[pairs.len() - 1]);
        assert forall|w: Seq<char>| #[trigger] score_map(pairs).contains_key(w) implies score_map(
            pairs,
        )[w] > i64::MIN by {
            if w != pairs.last().0@ {
                assert(score_map(before).contains_key(w));
            }
        }
    }
}

/// Where every word of a list occurs once in it, each has the score beside it.
pub proof fn lemma_score_of_word(
    words: Seq<String>,
    scores: Seq<i64>,
    pairs: Seq<(String, i64)>,
    i: int,
)
    requires
        side_by_side(words, scores, pairs),
        0 <= i < pairs.len(),
        forall|j: int| 0 <= j < pairs.len() && j != i ==> (#[trigger] words[j])@ != words[i]@,
    ensures
        score_map(pairs).contains_key(words[i]@),
        score_map(pairs)[words[i]@] == scores[i],
    decreases pairs.len(),
{
    assert(pairs[i].0@ == words[i]@);
    if i < pairs.len() - 1 {
        let before = pairs.drop_last();
        assert(pairs.last() == pairs[pairs.len() - 1]);
        assert(words[pairs.len() - 1]@ != words[i]@);
        let n = before.len() as int;
        assert(side_by_side(words.take(n), scores.take(n), before)) by {
            assert forall|j: int| 0 <= j < before.len() implies (#[trigger] before[j]).0@
                == words.take(n)[j]@ && before[j].1 == scores.take(n)[j] by {
                assert(before[j] == pairs[j]);
            }
        }
        assert forall|j: int| 0 <= j < before.len() && j != i implies (#[trigger] words.take(n)[j])@
            != words.take(n)[i]@ by {
            assert(words[j]@ != words[i]@);
        }
        lemma_score_of_word(words.take(n), scores.take(n), before, i);
    }
}

/// The scores of the words are those beside them, whatever list of pairs says so.
pub proof fn lemma_score_map_unique(
    words: Seq<String>,
    scores: Seq<i64>,
    a: Seq<(String, i64)>,
    b: Seq<(String, i64)>,
)
    requires
        side_by_side(words, scores, a),
        side_by_side(words, scores, b),
    ensures
        score_map(a) == score_map(b),
{
    lemma_same_score_map(a, b);
}

/// Pairs of the same words and scores give the same scores.
proof fn lemma_same_score_map(a: Seq<(String, i64)>, b: Seq<(String, i64)>)
    requires
        a.len() == b.len(),
        forall|i: int|
            0 <= i < a.len() ==> (#[trigger] a[i]).0@ == (#[trigger] b[i]).0@ && a[i].1 == b[i].1,
    ensures
        score_map(a) == score_map(b),
    decreases a.len(),
{
    if a.len() > 0 {
        let n = a.len() - 1;
        assert(a[n].0@ == b[n].0@ && a[n].1 == b[n].1);
        assert forall|i: int| 0 <= i < n implies (#[trigger] a.drop_last()[i]).0@ == (
        #[trigger] b.drop_last()[i]).0@ && a.drop_last()[i].1 == b.drop_last()[i].1 by {
            assert(a[i].0@ == b[i].0@ && a[i].1 == b[i].1);
        }
        lemma_same_score_map(a.drop_last(), b.drop_last());
    }
}

}
