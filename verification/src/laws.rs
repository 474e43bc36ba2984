//! What holds of games, guesses and baked scores as a whole.

use crate::bake::{
    left_to_bake, lemma_left_to_bake, missing_words, recorded, BakeTarget, Baker, Response,
};
use crate::bank::{all_ascii, holds_but_case, lemma_text_order, pieces, sorted_lines, text_order};
use crate::dispatch::GuesserDispatch;
use crate::entry::{all_letters, entry_is, more_request, Entry};
use crate::guesser::{
    answered_by, candidates, combo_score, is_best, lemma_by_score, ranking, score_map, ComboTrace,
    GuessFrom, ScoredGuess, Trace, Turn,
};
use crate::letters::{
    mark_of, marks_of, outcome_chars, outcome_is, result_of_mark, results_of, LetterResult, Outcome,
};
use crate::report::lines_of;
use crate::response::{answer, slots, WordleError};
use crate::scores::{
    lemma_score_map_unique, lemma_score_of_word, side_by_side, usable, MISSING,
};
use crate::solve::{base_path, path_after, score_path_of};
use crate::text::{
    all_digits, ascii_lowered, byte_len, decimal, digits_value, is_ascii_letter, is_ascii_text,
    is_digit, is_white_space, lemma_byte_len_bounds, parsed_usize, same_but_case, trimmed, width,
};
use vstd::prelude::*;
use vstd::relations::sorted_by;
use vstd::seq_lib::lemma_sorted_unique;

verus! {

/// A line end behind a text that has no white space at its two ends is no part of what was typed.
pub proof fn lemma_trimmed_line(s: Seq<char>)
    requires
        s.len() > 0,
        !is_white_space(s.first()),
        !is_white_space(s.last()),
    ensures
        trimmed(s.push('\n')) == s,
{
    let line = s.push('\n');
    assert(line.first() == s.first());
    assert(line.drop_last() == s);
    assert(trimmed(s) == s);
}

/// The digits of a number are read back as the number.
pub proof fn lemma_decimal(n: nat)
    ensures
        all_digits(decimal(n)),
        digits_value(decimal(n)) == n,
    decreases n,
{
    let s = decimal(n);
    if n < 10 {
        assert(s.drop_last() == Seq::<char>::empty());
        assert(digits_value(s.drop_last()) == 0);
    } else {
        lemma_decimal(n / 10);
        assert(s.drop_last() == decimal(n / 10));
        assert forall|i: int| 0 <= i < s.len() implies is_digit(#[trigger] s[i]) by {
            if i < s.len() - 1 {
                assert(s[i] == decimal(n / 10)[i]);
            }
        }
    }
}

/// Who types the number of a line of a list, up to the last number that can be typed, names the
/// guess in that line.
pub proof fn lemma_number_names_line(
    i: nat,
    word_length: nat,
    max_index: usize,
    words: Seq<Seq<char>>,
    entry: Entry,
)
    requires
        i + 1 <= max_index,
        entry_is(decimal(i + 1).push('\n'), word_length, max_index, words, entry),
    ensures
        entry == Entry::Index((i + 1) as usize),
{
    let s = decimal(i + 1);
    lemma_decimal(i + 1);
    assert(is_digit(s[0]) && is_digit(s[s.len() - 1]));
    lemma_trimmed_line(s);
    assert(more_request(s) is None);
    assert(parsed_usize(s) == Some((i + 1) as usize));
}

/// Every word of the bank that is made of ASCII letters can be typed, in large and in small
/// letters.
pub proof fn lemma_words_can_be_typed(
    word: Seq<char>,
    typed: Seq<char>,
    max_index: usize,
    words: Seq<Seq<char>>,
    entry: Entry,
)
    requires
        words.contains(word),
        word.len() > 0,
        all_letters(typed),
        same_but_case(word, typed),
        entry_is(typed.push('\n'), byte_len(word), max_index, words, entry),
    ensures
        entry matches Entry::Word(chosen) && chosen@ == typed,
{
    assert(ascii_lowered(word).len() == word.len());
    assert(ascii_lowered(typed).len() == typed.len());
    assert(is_ascii_letter(typed[0]));
    assert(is_ascii_letter(typed[typed.len() - 1]));
    lemma_trimmed_line(typed);
    assert(more_request(typed) is None);
    assert(!is_digit(typed[0]));
    assert(parsed_usize(typed) is None);
    assert(is_ascii_text(typed)) by {
        assert forall|i: int| 0 <= i < typed.len() implies #[trigger] typed[i] <= '\u{7f}' by {
            assert(is_ascii_letter(typed[i]));
        }
    }
    assert(is_ascii_text(word)) by {
        assert forall|i: int| 0 <= i < word.len() implies #[trigger] word[i] <= '\u{7f}' by {
            assert(ascii_lowered(word)[i] == ascii_lowered(typed)[i]);
            assert(is_ascii_letter(typed[i]));
        }
    }
    lemma_byte_len_bounds(typed);
    lemma_byte_len_bounds(word);
    let i = choose|i: int| 0 <= i < words.len() && words[i] == word;
    assert(same_but_case(words[i], typed));
    assert(holds_but_case(words, typed));
}

/// The letters that are shown for results are read back as the results, whatever stands behind
/// them.
pub proof fn lemma_marks_are_read_back(
    results: Seq<LetterResult>,
    rest: Seq<char>,
    outcome: Outcome,
)
    requires
        results.len() > 0,
        outcome_is(marks_of(results) + rest, results.len(), outcome),
    ensures
        outcome matches Outcome::Results(read) && read@ == results,
{
    let line = marks_of(results) + rest;
    let chars = outcome_chars(line, results.len());
    assert(chars == marks_of(results));
    assert forall|i: int| 0 <= i < chars.len() implies result_of_mark(
        #[trigger] chars[i],
    ) == Some(results[i]) by {
        assert(chars[i] == mark_of(results[i]));
    }
    assert(results_of(chars) == results);
}

/// Results that are shown in the same letters are the same.
pub proof fn lemma_marks_differ(a: Seq<LetterResult>, b: Seq<LetterResult>)
    requires
        marks_of(a) == marks_of(b),
    ensures
        a == b,
{
    assert(marks_of(a).len() == a.len() && marks_of(b).len() == b.len());
    assert forall|i: int| 0 <= i < a.len() implies #[trigger] a[i] == b[i] by {
        assert(marks_of(a)[i] == mark_of(a[i]));
        assert(marks_of(b)[i] == mark_of(b[i]));
    }
}

/// The scores of two states are stored in one place only if it is the same state: the one before
/// any guess, or the one that the same results lead to.
pub proof fn lemma_keys_differ(a: BakeTarget, b: BakeTarget)
    requires
        a.key() == b.key(),
    ensures
        match (a, b) {
            (BakeTarget::BaseState, BakeTarget::BaseState) => true,
            (BakeTarget::AfterResponse(_, r), BakeTarget::AfterResponse(_, s)) => r@ == s@,
            _ => false,
        },
{
    reveal_strlit("/");
    reveal_strlit("0");
    reveal_strlit("/score");
    assert(a.key().len() == a.name().len() + 7 && b.key().len() == b.name().len() + 7);
    assert forall|i: int| 0 <= i < a.name().len() implies #[trigger] a.name()[i] == b.name()[i] by {
        assert(a.key()[i + 1] == a.name()[i]);
        assert(b.key()[i + 1] == b.name()[i]);
    }
    assert(a.name() == b.name());
    match (a, b) {
        (BakeTarget::AfterResponse(_, r), BakeTarget::AfterResponse(_, s)) => {
            lemma_marks_differ(r@, s@);
        },
        (BakeTarget::AfterResponse(_, r), BakeTarget::BaseState) => {
            assert(marks_of(r@)[0] == mark_of(r@[0]));
        },
        (BakeTarget::BaseState, BakeTarget::AfterResponse(_, s)) => {
            assert(marks_of(s@)[0] == mark_of(s@[0]));
        },
        _ => {},
    }
}

/// A game looks for the scores of its first state, and of the one after the best first guess,
/// where they were stored when they were baked.
pub proof fn lemma_baked_scores_are_found(from: &Baker, results: &[LetterResult])
    ensures
        BakeTarget::BaseState.key() == score_path_of(base_path()),
        BakeTarget::AfterResponse(from, results).key() == score_path_of(
            path_after(Seq::empty(), results@),
        ),
{
    reveal_strlit("/");
    reveal_strlit("0");
    reveal_strlit("/0");
    assert("/"@ + "0"@ == "/0"@);
    assert("/"@ == Seq::<char>::empty().push('/'));
}

/// An ASCII text takes one byte for each letter.
pub proof fn lemma_ascii_slots(s: Seq<char>)
    requires
        is_ascii_text(s),
    ensures
        slots(s).len() == s.len(),
        forall|i: int| 0 <= i < s.len() ==> #[trigger] slots(s)[i] == Some(s[i]),
    decreases s.len(),
{
    if s.len() > 0 {
        assert forall|i: int| 0 <= i < s.len() - 1 implies #[trigger] s.drop_last()[i]
            <= '\u{7f}' by {
            assert(s[i] <= '\u{7f}');
        }
        lemma_ascii_slots(s.drop_last());
        assert(s[s.len() - 1] <= '\u{7f}');
        assert(slots(s) =~= slots(s.drop_last()).push(Some(s.last())));
        assert forall|i: int| 0 <= i < s.len() implies #[trigger] slots(s)[i] == Some(s[i]) by {
            if i < s.len() - 1 {
                assert(slots(s)[i] == slots(s.drop_last())[i]);
            }
        }
    }
}

/// A text that takes as many bytes as it has letters is an ASCII text.
proof fn lemma_slots_ascii(s: Seq<char>)
    requires
        forall|i: int| 0 <= i < slots(s).len() ==> (#[trigger] slots(s)[i]) is Some,
    ensures
        is_ascii_text(s),
    decreases s.len(),
{
    if s.len() > 0 {
        let before = slots(s.drop_last());
        if width(s.last()) > 1 {
            assert(slots(s)[slots(s).len() - 1] is None);
        }
        assert(slots(s) =~= before.push(Some(s.last())));
        assert forall|i: int| 0 <= i < before.len() implies (#[trigger] before[i]) is Some by {
            assert(slots(s)[i] == before[i]);
        }
        lemma_slots_ascii(s.drop_last());
        assert forall|i: int| 0 <= i < s.len() implies #[trigger] s[i] <= '\u{7f}' by {
            if i < s.len() - 1 {
                assert(s.drop_last()[i] == s[i]);
            }
        }
    }
}

/// There is a letter or the rest of one for each byte of a text.
proof fn lemma_slots_len(s: Seq<char>)
    ensures
        slots(s).len() == byte_len(s),
    decreases s.len(),
{
    if s.len() > 0 {
        lemma_slots_len(s.drop_last());
    }
}

/// Of the ASCII words of its length, only the objective word itself is answered by nothing but
/// correct letters.
pub proof fn lemma_solved_by_objective(objective: Seq<char>, guess: Seq<char>)
    requires
        is_ascii_text(guess),
        byte_len(objective) == byte_len(guess),
    ensures
        guess == objective <==> forall|i: int|
            0 <= i < guess.len() ==> #[trigger] answer(objective, guess)[i]
                == LetterResult::Correct,
{
    let results = answer(objective, guess);
    lemma_ascii_slots(guess);
    lemma_slots_len(objective);
    lemma_slots_len(guess);
    if guess == objective {
        assert forall|i: int| 0 <= i < guess.len() implies #[trigger] results[i]
            == LetterResult::Correct by {
            assert(slots(guess)[i] == Some(guess[i]));
        }
    }
    if forall|i: int| 0 <= i < guess.len() ==> #[trigger] results[i] == LetterResult::Correct {
        assert forall|i: int| 0 <= i < slots(objective).len() implies #[trigger] slots(objective)[i]
            == Some(guess[i]) by {
            assert(results[i] == LetterResult::Correct);
            assert(slots(guess)[i] == Some(guess[i]));
        }
        lemma_slots_ascii(objective);
        lemma_ascii_slots(objective);
        assert forall|i: int| 0 <= i < guess.len() implies #[trigger] guess[i] == objective[i] by {
            assert(slots(objective)[i] == Some(objective[i]));
        }
        assert(guess == objective);
    }
}

/// Whether the turns so far are the answers of `target`, which is possible.
pub open spec fn plays_against(trace: Trace, target: Seq<char>) -> bool {
    trace.possible().contains(target) && answered_by(trace.turns, target)
}

/// In a game that has just begun, every ASCII word of the bank can be the target.
pub proof fn lemma_any_target(trace: Trace, target: Seq<char>)
    requires
        trace.turns.len() == 0,
        trace.possible() == trace.bank,
        trace.bank.contains(target),
        is_ascii_text(target),
    ensures
        plays_against(trace, target),
{
}

/// The answer of the target to a guess of its length is never taken for a contradiction, and the
/// target stays possible.
pub proof fn lemma_target_stays_possible(
    trace: Trace,
    target: Seq<char>,
    guess: Seq<char>,
    r: Result<(), WordleError>,
)
    requires
        plays_against(trace, target),
        is_ascii_text(guess),
        byte_len(guess) == byte_len(target),
        trace.settles(guess, answer(target, guess), r),
    ensures
        r is Ok,
        plays_against(trace.told(guess, answer(target, guess)), target),
{
    let after = trace.told(guess, answer(target, guess));
    lemma_byte_len_bounds(guess);
    lemma_byte_len_bounds(target);
    assert forall|i: int| 0 <= i < after.turns.len() implies is_ascii_text(
        (#[trigger] after.turns[i]).guess,
    ) && after.turns[i].guess.len() == target.len() && after.turns[i].results == answer(
        target,
        after.turns[i].guess,
    ) by {
        if i < trace.turns.len() {
            assert(after.turns[i] == trace.turns[i]);
        }
    }
    assert(answered_by(after.turns, target));
}

/// Whether the possible words of a game are those ASCII words of its bank that give all the
/// results that were told.
pub open spec fn possible_are_true(trace: Trace) -> bool {
    forall|w: Seq<char>| #[trigger]
        trace.bank.contains(w) && is_ascii_text(w) ==> (trace.possible().contains(w)
            <==> answered_by(trace.turns, w))
}

/// In a game that has just begun, the possible words are all words.
pub proof fn lemma_all_words_are_true(trace: Trace)
    requires
        trace.turns.len() == 0,
        trace.possible() == trace.bank,
    ensures
        possible_are_true(trace),
{
}

/// In a game against a target, the possible words stay exactly those that give all the results
/// that were told.
pub proof fn lemma_possible_stay_true(
    trace: Trace,
    target: Seq<char>,
    guess: Seq<char>,
    r: Result<(), WordleError>,
)
    requires
        plays_against(trace, target),
        possible_are_true(trace),
        is_ascii_text(guess),
        byte_len(guess) == byte_len(target),
        trace.settles(guess, answer(target, guess), r),
    ensures
        possible_are_true(trace.told(guess, answer(target, guess))),
{
    let after = trace.told(guess, answer(target, guess));
    lemma_target_stays_possible(trace, target, guess, r);
    assert forall|w: Seq<char>| #[trigger]
        after.bank.contains(w) && is_ascii_text(w) implies (after.possible().contains(w)
        <==> answered_by(after.turns, w)) by {
        assert(trace.possible().contains(target));
        if answered_by(after.turns, w) {
            assert forall|i: int| 0 <= i < trace.turns.len() implies is_ascii_text(
                (#[trigger] trace.turns[i]).guess,
            ) && trace.turns[i].guess.len() == w.len() && trace.turns[i].results == answer(
                w,
                trace.turns[i].guess,
            ) by {
                assert(after.turns[i] == trace.turns[i]);
            }
            assert(trace.bank.contains(w));
            assert(trace.possible().contains(w));
        }
    }
}

/// Who guesses the target has found it: of the ASCII words, no other stays possible.
pub proof fn lemma_target_guessed(trace: Trace, target: Seq<char>, r: Result<(), WordleError>)
    requires
        plays_against(trace, target),
        trace.settles(target, answer(target, target), r),
    ensures
        forall|w: Seq<char>| #[trigger]
            trace.told(target, answer(target, target)).possible().contains(w) && is_ascii_text(w)
                ==> w == target,
{
    let after = trace.told(target, answer(target, target));
    lemma_target_stays_possible(trace, target, target, r);
    assert forall|w: Seq<char>| #[trigger]
        after.possible().contains(w) && is_ascii_text(w) implies w == target by {
        assert(trace.possible().contains(target));
        assert(answered_by(after.turns, w));
        let last = after.turns[after.turns.len() - 1];
        assert(last == Turn { guess: target, results: answer(target, target) });
        assert(answer(w, target) == answer(target, target));
        lemma_byte_len_bounds(w);
        lemma_byte_len_bounds(target);
        lemma_solved_by_objective(target, target);
        lemma_solved_by_objective(w, target);
    }
}

/// Whether no word is possible more often than the bank holds it.
pub open spec fn within_bank(trace: Trace) -> bool {
    trace.possible().to_multiset().subset_of(trace.bank.to_multiset())
}

/// No turn makes a word possible, whatever its results.
pub proof fn lemma_possible_only_shrink(
    trace: Trace,
    guess: Seq<char>,
    results: Seq<LetterResult>,
    r: Result<(), WordleError>,
)
    requires
        within_bank(trace),
        trace.settles(guess, results, r),
    ensures
        within_bank(trace.told(guess, results)),
        trace.told(guess, results).possible().to_multiset().subset_of(
            trace.possible().to_multiset(),
        ),
{
}

/// A game over different ASCII words is over once the target is guessed.
pub proof fn lemma_target_ends_game(trace: Trace, target: Seq<char>, r: Result<(), WordleError>)
    requires
        plays_against(trace, target),
        within_bank(trace),
        all_ascii(trace.bank),
        trace.bank.no_duplicates(),
        trace.settles(target, answer(target, target), r),
    ensures
        trace.told(target, answer(target, target)).possible() == seq![target],
{
    broadcast use vstd::seq_lib::group_to_multiset_ensures;

    let after = trace.told(target, answer(target, target));
    let possible = after.possible();
    lemma_target_stays_possible(trace, target, target, r);
    lemma_target_guessed(trace, target, r);
    lemma_possible_only_shrink(trace, target, answer(target, target), r);
    trace.bank.lemma_multiset_has_no_duplicates();
    assert forall|w: Seq<char>| possible.to_multiset().contains(w) implies
        #[trigger] possible.to_multiset().count(w) == 1 by {
        assert(trace.bank.to_multiset().count(w) >= possible.to_multiset().count(w));
        assert(trace.bank.to_multiset().contains(w));
    }
    possible.lemma_multiset_has_no_duplicates_conv();
    assert forall|i: int| 0 <= i < possible.len() implies #[trigger] possible[i] == target by {
        assert(possible.contains(possible[i]));
        assert(trace.bank.to_multiset().count(possible[i]) > 0) by {
            assert(possible.to_multiset().count(possible[i]) > 0);
        }
        assert(trace.bank.contains(possible[i]));
    }
    if possible.len() > 1 {
        assert(possible[0] == possible[1]);
    }
    assert(possible =~= seq![target]);
}

/// A game against a target that is over has found it.
pub proof fn lemma_target_is_found(trace: Trace, target: Seq<char>)
    requires
        plays_against(trace, target),
        trace.possible().len() <= 1,
    ensures
        trace.possible() == seq![target],
{
    let i = choose|i: int| 0 <= i < trace.possible().len() && trace.possible()[i] == target;
    assert(trace.possible() =~= seq![target]);
}

/// A longer list of the best guesses begins with the shorter one: its lines go on where those of
/// the shorter one end.
pub proof fn lemma_more_goes_on(
    before: Trace,
    after: Trace,
    n: usize,
    m: usize,
    first: Seq<ScoredGuess>,
    more: Seq<ScoredGuess>,
)
    requires
        ranking(before) == ranking(after),
        n <= m,
        before.offers(n, first),
        after.offers(m, more),
    ensures
        first.len() <= more.len(),
        lines_of(first, 0) + lines_of(more, n as nat) == lines_of(more, 0),
{
    let shown = lines_of(first, 0) + lines_of(more, n as nat);
    assert forall|i: int| 0 <= i < shown.len() implies #[trigger] shown[i] == lines_of(
        more,
        0,
    )[i] by {
        if i < first.len() {
            assert(first[i].guess@ == more[i].guess@ && first[i].score == more[i].score);
        }
    }
    assert(shown =~= lines_of(more, 0));
}

/// The words of a text are its lines that hold anything, each as often as it occurs, in the order
/// of their characters.
pub proof fn lemma_sorted_lines(text: Seq<char>)
    ensures
        sorted_by(sorted_lines(text), text_order()),
        sorted_lines(text).to_multiset() == pieces(text, '\n').filter(
            |line: Seq<char>| line.len() > 0,
        ).to_multiset(),
        forall|i: int|
            0 <= i < sorted_lines(text).len() ==> (#[trigger] sorted_lines(text)[i]).len() > 0,
{
    broadcast use vstd::seq_lib::group_to_multiset_ensures;

    let lines = pieces(text, '\n').filter(|line: Seq<char>| line.len() > 0);
    lemma_text_order();
    lines.lemma_sort_by_ensures(text_order());
    let sorted = sorted_lines(text);
    assert forall|i: int| 0 <= i < sorted.len() implies (#[trigger] sorted[i]).len() > 0 by {
        assert(sorted.to_multiset().count(sorted[i]) > 0);
        assert(lines.to_multiset().count(sorted[i]) > 0);
        let k = choose|k: int| 0 <= k < lines.len() && lines[k] == sorted[i];
        pieces(text, '\n').lemma_filter_pred(|line: Seq<char>| line.len() > 0, k);
    }
}

/// The order of the lines of a text makes no difference to its words.
pub proof fn lemma_line_order_is_free(a: Seq<char>, b: Seq<char>)
    requires
        pieces(a, '\n').filter(|line: Seq<char>| line.len() > 0).to_multiset() == pieces(
            b,
            '\n',
        ).filter(|line: Seq<char>| line.len() > 0).to_multiset(),
    ensures
        sorted_lines(a) == sorted_lines(b),
{
    lemma_sorted_lines(a);
    lemma_sorted_lines(b);
    lemma_text_order();
    lemma_sorted_unique(sorted_lines(a), sorted_lines(b), text_order());
}

/// Whether no score stands before one that is missing.
pub open spec fn missing_come_first(scores: Seq<i64>) -> bool {
    forall|i: int, j: int|
        0 <= i < j < scores.len() && #[trigger] scores[j] == MISSING ==> #[trigger] scores[i]
            == MISSING
}

/// Where the missing scores come first, the words without a score are the first words.
proof fn lemma_missing_prefix(words: Seq<Seq<char>>, scores: Seq<i64>, n: nat)
    requires
        missing_come_first(scores),
        n <= scores.len(),
        n <= words.len(),
    ensures
        missing_words(words, scores, n).len() <= n,
        forall|i: int|
            0 <= i < missing_words(words, scores, n).len() ==> #[trigger] missing_words(
                words,
                scores,
                n,
            )[i] == words[i],
        forall|i: int|
            0 <= i < n ==> (#[trigger] scores[i] == MISSING <==> i < missing_words(
                words,
                scores,
                n,
            ).len()),
    decreases n,
{
    if n > 0 {
        let before = missing_words(words, scores, (n - 1) as nat);
        lemma_missing_prefix(words, scores, (n - 1) as nat);
        if scores[n - 1] == MISSING && before.len() < n - 1 {
            assert(scores[before.len() as int] == MISSING);
        }
    }
}

/// Whether the reports give the score in a state of each of the words, whatever their order.
pub open spec fn reports_on(
    state: ComboTrace,
    words: Seq<Seq<char>>,
    reports: Seq<(usize, i64)>,
) -> bool {
    &&& forall|k: int|
        0 <= k < reports.len() ==> (#[trigger] reports[k]).0 < words.len() && reports[k].1
            == combo_score(state, words[reports[k].0 as int])
    &&& forall|i: int| 0 <= i < words.len() ==> #[trigger] reported(reports, i)
}

/// Whether there is a report for a place.
pub open spec fn reported(reports: Seq<(usize, i64)>, i: int) -> bool {
    exists|k: int| 0 <= k < reports.len() && (#[trigger] reports[k]).0 == i
}

/// A place holds what was reported for it, or else what it held before.
proof fn lemma_recorded(
    state: ComboTrace,
    words: Seq<Seq<char>>,
    scores: Seq<i64>,
    reports: Seq<(usize, i64)>,
)
    requires
        words.len() <= scores.len(),
        forall|k: int|
            0 <= k < reports.len() ==> (#[trigger] reports[k]).0 < words.len() && reports[k].1
                == combo_score(state, words[reports[k].0 as int]),
    ensures
        recorded(scores, reports).len() == scores.len(),
        forall|k: int|
            0 <= k < reports.len() ==> recorded(scores, reports)[(#[trigger] reports[k]).0 as int]
                == reports[k].1,
        forall|i: int|
            words.len() <= i < scores.len() ==> #[trigger] recorded(scores, reports)[i]
                == scores[i],
    decreases reports.len(),
{
    if reports.len() > 0 {
        let before = reports.drop_last();
        assert forall|k: int| 0 <= k < before.len() implies (#[trigger] before[k]).0 < words.len()
            && before[k].1 == combo_score(state, words[before[k].0 as int]) by {
            assert(before[k] == reports[k]);
        }
        lemma_recorded(state, words, scores, before);
        assert(reports.last() == reports[reports.len() - 1]);
        assert forall|k: int| 0 <= k < reports.len() implies recorded(
            scores,
            reports,
        )[(#[trigger] reports[k]).0 as int] == reports[k].1 by {
            if k < before.len() {
                assert(before[k] == reports[k]);
            }
        }
    }
}

/// Once every score is reported, each place below the number of words that were left holds the
/// score of the word that stands there among those that were left, and every other place holds
/// what it held before. Where a word with a score stands before one without, such a score may stand
/// beside another word than its own.
pub proof fn lemma_bake_records(
    state: Baker,
    words: Seq<Seq<char>>,
    scores: Seq<i64>,
    done: bool,
    reports: Seq<(usize, i64)>,
)
    requires
        reports_on(state.combo(), left_to_bake(words, scores, done), reports),
    ensures
        left_to_bake(words, scores, done).len() <= scores.len(),
        recorded(scores, reports).len() == scores.len(),
        forall|k: int|
            0 <= k < scores.len() ==> #[trigger] recorded(scores, reports)[k] == if k
                < left_to_bake(words, scores, done).len() {
                combo_score(state.combo(), left_to_bake(words, scores, done)[k])
            } else {
                scores[k]
            },
{
    let left = left_to_bake(words, scores, done);
    lemma_left_to_bake(words, scores, done);
    lemma_recorded(state.combo(), left, scores, reports);
    assert forall|k: int| 0 <= k < scores.len() implies #[trigger] recorded(scores, reports)[k]
        == if k < left.len() {
        combo_score(state.combo(), left[k])
    } else {
        scores[k]
    } by {
        if k < left.len() {
            assert(reported(reports, k));
            let m = choose|m: int| 0 <= m < reports.len() && (#[trigger] reports[m]).0 == k;
            assert(recorded(scores, reports)[reports[m].0 as int] == reports[m].1);
        }
    }
}

/// A bake in which the missing scores come first, as they do when none is there yet, gives each
/// word without a score the one that it has in the state, and leaves the other scores as they
/// are. The order in which the scores are reported makes no difference.
pub proof fn lemma_bake_completes(
    state: Baker,
    words: Seq<Seq<char>>,
    scores: Seq<i64>,
    reports: Seq<(usize, i64)>,
)
    requires
        words.len() == scores.len(),
        missing_come_first(scores),
        reports_on(state.combo(), left_to_bake(words, scores, false), reports),
    ensures
        recorded(scores, reports).len() == scores.len(),
        forall|i: int|
            0 <= i < scores.len() ==> #[trigger] recorded(scores, reports)[i] == if scores[i]
                == MISSING {
                combo_score(state.combo(), words[i])
            } else {
                scores[i]
            },
{
    let left = left_to_bake(words, scores, false);
    lemma_missing_prefix(words, scores, words.len());
    lemma_bake_records(state, words, scores, false, reports);
    assert forall|i: int| 0 <= i < scores.len() implies #[trigger] recorded(scores, reports)[i]
        == if scores[i] == MISSING {
        combo_score(state.combo(), words[i])
    } else {
        scores[i]
    } by {
        if i < left.len() {
            assert(left[i] == words[i]);
        }
    }
}

/// A state whose words, all different, were baked from nothing is given for each of them the very
/// score that it would compute itself.
pub proof fn lemma_baked_scores_are_true(
    state: Baker,
    words: Seq<String>,
    texts: Seq<Seq<char>>,
    scores: Seq<i64>,
    reports: Seq<(usize, i64)>,
    pairs: Seq<(String, i64)>,
    i: int,
)
    requires
        texts == words.map_values(|w: String| w@),
        texts.no_duplicates(),
        words.len() == scores.len(),
        forall|j: int| 0 <= j < scores.len() ==> #[trigger] scores[j] == MISSING,
        reports_on(state.combo(), left_to_bake(texts, scores, false), reports),
        side_by_side(words, recorded(scores, reports), pairs),
        0 <= i < words.len(),
    ensures
        score_map(pairs).contains_key(words[i]@),
        score_map(pairs)[words[i]@] == combo_score(state.combo(), words[i]@),
{
    lemma_bake_completes(state, texts, scores, reports);
    assert forall|j: int| 0 <= j < pairs.len() && j != i implies (#[trigger] words[j])@
        != words[i]@ by {
        assert(texts[j] == words[j]@ && texts[i] == words[i]@);
    }
    lemma_score_of_word(words, recorded(scores, reports), pairs, i);
    assert(recorded(scores, reports)[i] == combo_score(state.combo(), texts[i]));
}

/// Scores that are all there are given to a game as they were given to the state that was baked.
pub proof fn lemma_loaded_scores_are_the_baked_ones(
    words: Seq<String>,
    scores: Seq<i64>,
    baked: Seq<(String, i64)>,
    loaded: Seq<(String, i64)>,
)
    requires
        forall|i: int| 0 <= i < scores.len() ==> #[trigger] scores[i] != MISSING,
        side_by_side(words, scores, baked),
        side_by_side(words, scores.map_values(|s: i64| usable(s)), loaded),
    ensures
        score_map(loaded) == score_map(baked),
{
    assert(scores.map_values(|s: i64| usable(s)) =~= scores);
    lemma_score_map_unique(words, scores, baked, loaded);
}

/// A game that was given the scores that the first state was baked with, makes the best guess of
/// its list and is told some results is in the very state that was baked for these results.
pub proof fn lemma_game_reaches_baked_state(
    base: Baker,
    results: Seq<LetterResult>,
    response: Response,
    n: usize,
    listed: Seq<ScoredGuess>,
)
    requires
        base.wf(),
        base.trace().offers(n, listed),
        listed.len() > 0,
        exists|guess: Seq<char>| #[trigger] base.leads_to(guess, results, response),
    ensures
        base.leads_to(listed[0].guess@, results, response),
        base.trace().selecting(GuessFrom::AllUnguessedWords).told(listed[0].guess@, results)
            == response.state.trace(),
{
    let guess = choose|guess: Seq<char>| #[trigger] base.leads_to(guess, results, response);
    assert(listed[0].guess@ == ranking(base.trace())[0].0);
    assert(base.leads_to(guess, results, response));
}

/// What a game looks for after two best guesses or more was never baked.
pub proof fn lemma_later_states_are_not_baked(
    path: Seq<char>,
    a: Seq<LetterResult>,
    b: Seq<LetterResult>,
    target: BakeTarget,
)
    ensures
        score_path_of(path_after(path_after(path, a), b)) != target.key(),
{
    reveal_strlit("/");
    reveal_strlit("0");
    reveal_strlit("/score");
    let later = score_path_of(path_after(path_after(path, a), b));
    let place = path.len() + 1 + a.len();
    assert(later[place as int] == '/');
    assert(later.len() == place + 1 + b.len() + 6);
    if later == target.key() {
        assert(target.key().len() == target.name().len() + 7);
        assert(target.key()[place as int] == target.name()[place - 1]);
        match target {
            BakeTarget::AfterResponse(_, results) => {
                assert(marks_of(results@)[place - 1] == mark_of(
                    results@[place - 1],
                ));
            },
            BakeTarget::BaseState => {},
        }
    }
}

/// Whether two guessers are of one kind and were made from, told and asked the same, as a guesser
/// and its clone are.
pub open spec fn alike(a: GuesserDispatch, b: GuesserDispatch) -> bool {
    &&& a.same_kind(b)
    &&& a.trace() == b.trace()
    &&& a.limit() == b.limit()
}

/// Whether a guesser became `after` when something was told to it or asked of it that leads to
/// `trace`.
pub open spec fn becomes(before: GuesserDispatch, after: GuesserDispatch, trace: Trace) -> bool {
    after.same_kind(before) && after.trace() == trace && after.limit() == before.limit()
}

/// A guesser and its clone, told the same turn, give the same reply and are alike afterwards.
pub proof fn lemma_clone_updates_alike(
    a: GuesserDispatch,
    b: GuesserDispatch,
    guess: Seq<char>,
    results: Seq<LetterResult>,
    after_a: GuesserDispatch,
    after_b: GuesserDispatch,
    r: Result<(), WordleError>,
    s: Result<(), WordleError>,
)
    requires
        alike(a, b),
        becomes(a, after_a, a.trace().told(guess, results)),
        becomes(b, after_b, b.trace().told(guess, results)),
        a.trace().settles(guess, results, r),
        b.trace().settles(guess, results, s),
    ensures
        r == s,
        alike(after_a, after_b),
{
    match (r, s) {
        (Ok(x), Ok(y)) => {
            assert(x == y);
        },
        _ => {},
    }
}

/// A guesser and its clone, asked for a guess from the same set of words, choose the same one, and
/// are alike afterwards; so they do when asked for one from their own set.
pub proof fn lemma_clone_chooses_alike(
    a: GuesserDispatch,
    b: GuesserDispatch,
    from: GuessFrom,
    after_a: GuesserDispatch,
    after_b: GuesserDispatch,
    r: Option<Seq<char>>,
    s: Option<Seq<char>>,
)
    requires
        alike(a, b),
        becomes(a, after_a, a.trace().selecting(from)),
        becomes(b, after_b, b.trace().selecting(from)),
        a.trace().chooses(from, a.limit(), r),
        b.trace().chooses(from, b.limit(), s),
    ensures
        r == s,
        alike(after_a, after_b),
{
}

/// A guesser and its clone, asked for as many guesses, list the same guesses with the same scores
/// in the same order, and are alike afterwards.
pub proof fn lemma_clone_lists_alike(
    a: GuesserDispatch,
    b: GuesserDispatch,
    n: usize,
    after_a: GuesserDispatch,
    after_b: GuesserDispatch,
    r: Seq<ScoredGuess>,
    s: Seq<ScoredGuess>,
)
    requires
        alike(a, b),
        becomes(a, after_a, a.trace().selecting(a.trace().from)),
        becomes(b, after_b, b.trace().selecting(b.trace().from)),
        a.trace().offers(n, r),
        b.trace().offers(n, s),
    ensures
        r.len() == s.len(),
        forall|i: int|
            0 <= i < r.len() ==> (#[trigger] r[i]).guess@ == (#[trigger] s[i]).guess@ && r[i].score
                == s[i].score,
        alike(after_a, after_b),
{
}

/// The guess that is chosen is the first one with the highest score, as soon as one score is above
/// the least `i64`; whatever the guesser, there is one then.
pub proof fn lemma_chosen_is_best(
    trace: Trace,
    from: GuessFrom,
    limit: nat,
    place: int,
    r: Option<Seq<char>>,
)
    requires
        is_best(candidates(trace, from), place),
        candidates(trace, from)[place].1 > i64::MIN,
        trace.chooses(from, limit, r),
    ensures
        r == Some(candidates(trace, from)[place].0),
{
    lemma_by_score(candidates(trace, from));
}

/// The guess from the guesser's own set of words is the first one of its list.
pub proof fn lemma_chosen_is_listed_first(
    trace: Trace,
    limit: nat,
    n: usize,
    r: Option<Seq<char>>,
    listed: Seq<ScoredGuess>,
)
    requires
        trace.chooses(trace.from, limit, r),
        r is Some,
        n > 0,
        trace.offers(n, listed),
    ensures
        listed.len() > 0,
        r == Some(listed[0].guess@),
{
    lemma_by_score(candidates(trace, trace.from));
}

}
