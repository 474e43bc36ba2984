//! Scores that are computed beforehand: for the state before any guess, and for each state that
//! the best first guess can lead to.

use crate::bank::{bank_words, length_of, one_length};
use crate::dispatch::{thorough_scoring, COMBO_THRESHOLD};
use crate::guesser::{
    accepts, combo_score, combo_score_word, combo_scorer, combo_trace, combo_update, combo_updates,
    candidates, score_map, thorough_limit, thorough_trace, turn_fits, words_in, ComboTrace,
    GuessFrom, Scoring, ThoroughGuesser, Trace, Turn,
};
use crate::letters::{marks, marks_of, GuessResult, LetterResult};
use crate::scores::{shorter, MISSING};
use crate::solve::{solvable, thorough_guesser};
use crate::text::{ascii_text, byte_len, byte_length, chars_of, decimal, push_decimal};
use rs_wordle_solver::scorers::MaxComboEliminationsScorer;
use rs_wordle_solver::WordBank;
use vstd::pervasive::unreached;
use vstd::prelude::*;

verus! {

/// A guesser in some state of the game, together with a scorer that was told the same.
pub struct Baker {
    /// The words of the game.
    pub bank: WordBank,
    pub guesser: ThoroughGuesser,
    pub scorer: MaxComboEliminationsScorer,
}

impl Baker {
    /// The words of the game.
    pub open spec fn words(self) -> Seq<Seq<char>> {
        bank_words(self.bank)
    }

    /// What the guesser was made from, told and asked.
    pub open spec fn trace(self) -> Trace {
        thorough_trace(self.guesser)
    }

    /// What a scorer in this state was told.
    pub open spec fn combo(self) -> ComboTrace {
        self.trace().combo(GuessFrom::AllUnguessedWords, COMBO_THRESHOLD)
    }

    /// The number of words above which the guesser looks for the best one in parallel.
    pub open spec fn limit(self) -> nat {
        thorough_limit(self.guesser)
    }

    /// Whether the guesser and the scorer are ones for the words of the game, the scorer was told
    /// what the guesser tells its own, and no word is possible more often than the game holds it.
    pub open spec fn wf(self) -> bool {
        &&& self.trace().bank == self.words()
        &&& self.trace().from == GuessFrom::AllUnguessedWords
        &&& self.trace().scoring == thorough_scoring()
        &&& combo_trace(self.scorer) == self.combo()
        &&& one_length(self.words())
        &&& self.trace().possible().to_multiset().subset_of(self.words().to_multiset())
    }

    /// The state before any guess.
    pub fn new(bank: WordBank) -> (r: Baker)
        ensures
            r.wf(),
            r.bank == bank,
            r.trace() == Trace::fresh(
                Scoring::Combo { from: GuessFrom::AllUnguessedWords, threshold: 256 },
                GuessFrom::AllUnguessedWords,
                bank_words(bank),
            ),
            r.trace().possible() == bank_words(bank),
    {
        let guesser = thorough_guesser(&bank);
        let scorer = match combo_scorer(
            bank.clone(),
            GuessFrom::AllUnguessedWords,
            COMBO_THRESHOLD,
        ) {
            Ok(scorer) => scorer,
            Err(_) => unreached(),
        };
        // The words of a bank are all of one length.
        let _length: usize = bank.word_length();
        Baker { bank, guesser, scorer }
    }

    /// Whether a word can be scored in this state.
    pub fn can_score(&self, word: &str) -> (r: bool)
        requires
            self.wf(),
        ensures
            r == self.combo().can_score(word@),
    {
        let chars = chars_of(word);
        let length: usize = self.bank.word_length();
        byte_length(&chars) == length as u128 && length <= 16 && (self.bank.len() <= COMBO_THRESHOLD
            || ascii_text(&chars))
    }

    /// The score of a word in this state.
    pub fn score_word(&self, word: &str) -> (score: i64)
        requires
            self.wf(),
            self.combo().can_score(word@),
        ensures
            score == combo_score(self.combo(), word@),
            score >= 0,
    {
        combo_score_word(&self.scorer, word)
    }

    /// The report on one of the words that are left: its place among them, and its score.
    pub fn report(&self, left: &Vec<String>, place: usize) -> (r: (usize, i64))
        requires
            self.wf(),
            place < left@.len(),
            self.combo().can_score(left@[place as int]@),
        ensures
            r.0 == place,
            r.1 == combo_score(self.combo(), left@[place as int]@),
    {
        (place, self.score_word(left[place].as_str()))
    }

    /// The state with scores for its words.
    pub fn with_scores(self, scores: &Vec<(String, i64)>) -> (r: Baker)
        requires
            self.wf(),
            solvable(self.words()),
        ensures
            r.wf(),
            r.bank == self.bank,
            r.limit() == self.limit(),
            r.trace() == self.trace().scored(score_map(scores@)),
    {
        let r = Baker {
            bank: self.bank,
            guesser: self.guesser.with_scores(scores),
            scorer: self.scorer,
        };
        assert(r.trace().possible() == self.trace().possible());
        assert(r.combo() == self.combo());
        r
    }

    /// The state that the results of the best guess lead to, and whether they contradict what was
    /// known before. There is none where no word stands out as the guess.
    pub fn after_response(&self, results: &[LetterResult]) -> (r: Option<Response>)
        requires
            self.wf(),
            solvable(self.words()),
            results@.len() == length_of(self.words()),
        ensures
            r is Some <==> self.trace().decides(GuessFrom::AllUnguessedWords, self.limit()),
            self.is_base() ==> r is Some,
            r matches Some(response) ==> response.state.wf() && response.state.words()
                == self.words() && exists|guess: Seq<char>| #[trigger]
                self.leads_to(guess, results@, response),
    {
        let mut guesser = self.guesser.duplicate();
        let mut scorer = self.scorer.clone();
        let length: usize = self.bank.word_length();
        let choice = guesser.select_next_guess();
        proof {
            if self.is_base() {
                lemma_base_has_guess(thorough_trace(guesser));
                assert(thorough_trace(guesser).in_range()) by {
                    assert(thorough_trace(guesser).asked.drop_last() == self.trace().asked);
                    assert(thorough_trace(guesser).given() == self.trace().given());
                }
                assert(candidates(self.trace(), GuessFrom::AllUnguessedWords)[0].1 > i64::MIN);
            }
        }
        let guess = match choice {
            Some(guess) => guess,
            None => {
                return None;
            },
        };
        let word: &str = &guess;
        proof {
            assert(word@ == guess@);
            assert(self.words().contains(word@));
            lemma_full_turn_fits(length as nat, word@, results@.len());
        }
        let ghost before = thorough_trace(guesser);
        let mut copied: Vec<LetterResult> = Vec::new();
        let mut i: usize = 0;
        while i < results.len()
            invariant
                i <= results@.len(),
                copied@ == results@.take(i as int),
            decreases results@.len() - i,
        {
            copied.push(results[i]);
            i = i + 1;
        }
        assert(copied@ == results@);
        let told = guesser.update(&GuessResult { guess: word, results: copied });
        let ghost turn = Turn { guess: word@, results: results@ };
        proof {
            let after = thorough_trace(guesser);
            assert(after == before.told(word@, results@));
            assert(before.possible() == self.trace().possible());
            assert(after.turns.drop_last() == self.trace().turns);
            assert(after.turns.last() == turn);
            lemma_possible_within(after.possible(), self.words());
        }
        let inconsistent: bool = match told {
            Ok(()) => {
                let possible = guesser.possible_words();
                proof {
                    assert forall|i: int| 0 <= i < possible@.len() implies combo_trace(
                        scorer,
                    ).bank.contains(#[trigger] possible@[i]@) by {
                        assert(possible@[i]@ == thorough_trace(guesser).possible()[i]);
                    }
                    assert(Seq::new(possible@.len(), |i: int| possible@[i]@) == thorough_trace(
                        guesser,
                    ).possible());
                }
                combo_update(&mut scorer, word, possible);
                false
            },
            Err(_) => true,
        };
        let state = Baker { bank: self.bank.clone(), guesser, scorer };
        let response = Response { state, inconsistent };
        proof {
            let updates = combo_updates(self.words(), self.trace().turns);
            assert(state.trace().turns.drop_last() == self.trace().turns);
            assert(state.trace().turns.last() == turn);
            assert(state.combo().updates == if inconsistent {
                updates
            } else {
                updates.push((word@, state.trace().possible()))
            });
            assert(combo_trace(state.scorer) == state.combo());
            assert(self.leads_to(word@, results@, response));
        }
        Some(response)
    }

    /// Whether this is the state before any guess of a game that holds some word and none twice,
    /// with scores that can be ranked.
    pub open spec fn is_base(self) -> bool {
        &&& self.trace().in_range()
        &&& self.trace().turns.len() == 0
        &&& self.trace().possible() == self.words()
        &&& self.words().len() > 0
        &&& self.words().no_duplicates()
    }

    /// Whether `response` is what the results of a guess, the best one, lead to.
    pub open spec fn leads_to(
        self,
        guess: Seq<char>,
        results: Seq<LetterResult>,
        response: Response,
    ) -> bool {
        &&& self.words().contains(guess)
        &&& self.trace().chooses(GuessFrom::AllUnguessedWords, self.limit(), Some(guess))
        &&& response.state.limit() == self.limit()
        &&& response.state.trace() == self.trace().selecting(GuessFrom::AllUnguessedWords).told(
            guess,
            results,
        )
        &&& response.inconsistent == !accepts(
            self.words(),
            self.trace().turns,
            Turn { guess, results },
        )
    }
}

/// The state that the results of a guess lead to, and whether they contradict what was known
/// before.
pub struct Response {
    pub state: Baker,
    pub inconsistent: bool,
}

/// A turn with a result for every byte of its guess can be told.
pub proof fn lemma_full_turn_fits(length: nat, guess: Seq<char>, n: nat)
    requires
        byte_len(guess) == length <= 255,
        n == length,
    ensures
        turn_fits(length, guess, n),
{
    assert forall|k: int, j: int|
        0 <= k < guess.len() && k < n && 0 <= j < guess.len() && #[trigger] guess[k]
            == #[trigger] guess[j] implies byte_len(guess.take(j)) < n by {
        lemma_prefix_bytes(guess, j);
    }
}

/// What stands before a character takes fewer bytes than the whole.
proof fn lemma_prefix_bytes(s: Seq<char>, j: int)
    requires
        0 <= j < s.len(),
    ensures
        byte_len(s.take(j)) < byte_len(s),
    decreases s.len(),
{
    if j < s.len() - 1 {
        lemma_prefix_bytes(s.drop_last(), j);
        assert(s.drop_last().take(j) == s.take(j));
    } else {
        assert(s.take(j) == s.drop_last());
    }
}

/// There is a guess before any guess was made.
proof fn lemma_base_has_guess(trace: Trace)
    requires
        trace.draws_from(GuessFrom::AllUnguessedWords),
        trace.turns.len() == 0,
        trace.possible() == trace.bank,
        trace.bank.len() > 0,
        trace.bank.no_duplicates(),
    ensures
        candidates(trace, GuessFrom::AllUnguessedWords).len() > 0,
{
    let words = words_in(candidates(trace, GuessFrom::AllUnguessedWords));
    if words != trace.bank {
        assert(trace.bank.contains(trace.bank[0]));
        assert(words.contains(trace.bank[0]));
    }
}

/// Words of which none occurs more often than in a list are words of the list, and no more than
/// it holds.
proof fn lemma_possible_within(possible: Seq<Seq<char>>, words: Seq<Seq<char>>)
    requires
        possible.to_multiset().subset_of(words.to_multiset()),
    ensures
        possible.len() <= words.len(),
        forall|i: int| 0 <= i < possible.len() ==> words.contains(#[trigger] possible[i]),
{
    broadcast use vstd::seq_lib::group_to_multiset_ensures;

    let others = words.to_multiset().sub(possible.to_multiset());
    assert(others.len() == words.to_multiset().len() - possible.to_multiset().len());
    assert forall|i: int| 0 <= i < possible.len() implies words.contains(
        #[trigger] possible[i],
    ) by {
        assert(possible.to_multiset().count(possible[i]) > 0);
        assert(words.to_multiset().count(possible[i]) > 0);
    }
}

/// The state whose scores are baked: the one before any guess, or the one that results of the
/// best guess in another state lead to.
#[derive(Clone, Copy)]
pub enum BakeTarget<'o> {
    BaseState,
    AfterResponse(&'o Baker, &'o [LetterResult]),
}

/// The name of a state whose scores are baked.
pub struct BakeTargetIdent<'o>(pub BakeTarget<'o>);

impl<'o> BakeTarget<'o> {
    /// The name of the state: a zero before any guess, or else the letters for the results.
    pub open spec fn name(self) -> Seq<char> {
        match self {
            BakeTarget::BaseState => "0"@,
            BakeTarget::AfterResponse(_, results) => marks_of(results@),
        }
    }

    /// Where the scores of the state are stored.
    pub open spec fn key(self) -> Seq<char> {
        "/"@ + self.name() + "/score"@
    }

    /// The name of the state.
    pub fn ident(&self) -> (r: BakeTargetIdent<'o>)
        ensures
            r.0 == *self,
    {
        BakeTargetIdent(*self)
    }

    /// Where the scores of the state are stored.
    pub fn score_key(&self) -> (s: String)
        ensures
            s@ == self.key(),
    {
        let mut s = "/".to_owned();
        s.append(self.ident().to_string().as_str());
        s.append("/score");
        s
    }

    /// What is said when the state has no scores yet.
    pub fn creating_note(&self) -> (s: String)
        ensures
            s@ == "creating array "@ + self.key(),
    {
        let mut s = "creating array ".to_owned();
        s.append(self.score_key().as_str());
        s
    }

    /// What is said before the words of the state that are left are scored.
    pub fn progress_note(&self, total: u64, left: u64) -> (s: String)
        requires
            left <= total,
        ensures
            s@ == self.progress(total as nat, left as nat),
    {
        let mut s = "baked ".to_owned();
        push_decimal(&mut s, total - left);
        s.append("/");
        push_decimal(&mut s, total);
        s.append(" for ");
        s.append(self.ident().to_string().as_str());
        s.append("; baking ");
        push_decimal(&mut s, left);
        s.append(" more...");
        s
    }

    /// What is said once the words of the state are scored.
    pub fn done_note(&self) -> (s: String)
        ensures
            s@ == "baked scores done for state "@ + self.name(),
    {
        let mut s = "baked scores done for state ".to_owned();
        s.append(self.ident().to_string().as_str());
        s
    }

    /// What is said when no word of the state is left to be scored.
    pub fn already_note(&self) -> (s: String)
        ensures
            s@ == self.already(),
    {
        let mut s = self.ident().to_string();
        s.append(" was already baked");
        s
    }

    /// Whether results can be told in the state that they are of: there is one for each letter,
    /// and the words of that state can be scored.
    pub open spec fn reachable(self) -> bool {
        self matches BakeTarget::AfterResponse(from, results) ==> from.wf() && solvable(
            from.words(),
        ) && results@.len() == length_of(from.words())
    }

    /// Whether `r` is the state itself: for the one before any guess, that of a new game with the
    /// given words, and for the others what the results of the best guess lead to. There is none
    /// where no word stands out as the guess.
    pub open spec fn leads_from(self, words: Seq<Seq<char>>, r: Option<Response>) -> bool {
        &&& r matches Some(response) ==> response.state.wf()
        &&& match self {
            BakeTarget::BaseState => {
                &&& r matches Some(response)
                &&& !response.inconsistent
                &&& response.state.words() == words
                &&& response.state.trace().possible() == words
                &&& response.state.trace() == Trace::fresh(
                    Scoring::Combo { from: GuessFrom::AllUnguessedWords, threshold: 256 },
                    GuessFrom::AllUnguessedWords,
                    words,
                )
            },
            BakeTarget::AfterResponse(from, results) => {
                &&& r is Some <==> from.trace().decides(
                    GuessFrom::AllUnguessedWords,
                    from.limit(),
                )
                &&& from.is_base() ==> r is Some
                &&& r matches Some(response) ==> response.state.words() == from.words()
                    && exists|guess: Seq<char>| #[trigger]
                    from.leads_to(guess, results@, response)
            },
        }
    }

    /// The state itself, and whether the results that lead to it contradict what was known
    /// before.
    pub fn state(&self, bank: &WordBank) -> (r: Option<Response>)
        requires
            self.reachable(),
        ensures
            self.leads_from(bank_words(*bank), r),
    {
        match self {
            BakeTarget::BaseState => Some(
                Response { state: Baker::new(bank.clone()), inconsistent: false },
            ),
            BakeTarget::AfterResponse(from, results) => from.after_response(results),
        }
    }
}

/// What there is to do for a state.
pub enum Work {
    /// No word is left to be scored; this is said of it.
    Nothing(String),
    /// These words are left to be scored, and so many were scored before; this is said of it.
    Score { words: Vec<String>, before: u64, note: String },
}

/// A state that is baked, and what there is to do for it.
pub struct Plan {
    pub response: Response,
    pub work: Work,
}

impl<'o> BakeTarget<'o> {
    /// What is said before the words of the state that are left are scored.
    pub open spec fn progress(self, total: nat, left: nat) -> Seq<char> {
        "baked "@ + decimal((total - left) as nat) + "/"@ + decimal(total) + " for "@ + self.name()
            + "; baking "@ + decimal(left) + " more..."@
    }

    /// What is said when no word of the state is left to be scored.
    pub open spec fn already(self) -> Seq<char> {
        self.name() + " was already baked"@
    }

    /// Plans the bake of the state, given the words, the scores that they have so far, and
    /// whether all is done. There is no plan where no word stands out as the guess that results
    /// could be of.
    pub fn plan(
        &self,
        bank: &WordBank,
        words: &Vec<String>,
        scores: &Vec<i64>,
        done: bool,
        total: u64,
    ) -> (r: Option<Plan>)
        requires
            self.reachable(),
            left_to_bake(words.deep_view(), scores@, done).len() <= total,
        ensures
            self.leads_from(
                bank_words(*bank),
                match r {
                    Some(plan) => Some(plan.response),
                    None => None,
                },
            ),
            r matches Some(plan) ==> ({
                let left = left_to_bake(words.deep_view(), scores@, done);
                match plan.work {
                    Work::Nothing(note) => left.len() == 0 && note@ == self.already(),
                    Work::Score { words, before, note } => {
                        &&& left.len() > 0
                        &&& words.deep_view() == left
                        &&& before == total - left.len()
                        &&& note@ == self.progress(total as nat, left.len())
                    },
                }
            }),
    {
        let todo = unbaked(words, scores, done);
        assert(todo.deep_view().len() == todo@.len());
        let response = match self.state(bank) {
            Some(response) => response,
            None => {
                return None;
            },
        };
        let work = if todo.len() == 0 {
            Work::Nothing(self.already_note())
        } else {
            let n: u64 = todo.len() as u64;
            let note = self.progress_note(total, n);
            Work::Score { words: todo, before: total - n, note }
        };
        Some(Plan { response, work })
    }
}

impl<'o> BakeTargetIdent<'o> {
    /// The name, written out.
    pub fn to_string(&self) -> (s: String)
        ensures
            s@ == self.0.name(),
    {
        match self.0 {
            BakeTarget::BaseState => "0".to_owned(),
            BakeTarget::AfterResponse(_, results) => marks(results),
        }
    }
}

/// The first `n` words that have no score yet, in order.
pub open spec fn missing_words(words: Seq<Seq<char>>, scores: Seq<i64>, n: nat) -> Seq<Seq<char>>
    decreases n,
{
    if n == 0 {
        Seq::empty()
    } else {
        let before = missing_words(words, scores, (n - 1) as nat);
        if scores[n - 1] == MISSING {
            before.push(words[n - 1])
        } else {
            before
        }
    }
}

/// The words that are left to be scored: those without a score, or none if all is done.
pub open spec fn left_to_bake(words: Seq<Seq<char>>, scores: Seq<i64>, done: bool) -> Seq<
    Seq<char>,
> {
    if done {
        Seq::empty()
    } else {
        missing_words(words, scores, shorter(words.len(), scores.len()))
    }
}

/// No more words are left to be scored than there are.
pub proof fn lemma_left_to_bake(words: Seq<Seq<char>>, scores: Seq<i64>, done: bool)
    ensures
        left_to_bake(words, scores, done).len() <= shorter(words.len(), scores.len()),
{
    lemma_missing_words(words, scores, shorter(words.len(), scores.len()));
}

/// No more words are without a score than are looked at.
proof fn lemma_missing_words(words: Seq<Seq<char>>, scores: Seq<i64>, n: nat)
    ensures
        missing_words(words, scores, n).len() <= n,
    decreases n,
{
    if n > 0 {
        lemma_missing_words(words, scores, (n - 1) as nat);
    }
}

/// The words that are left to be scored.
pub fn unbaked(words: &Vec<String>, scores: &Vec<i64>, done: bool) -> (r: Vec<String>)
    ensures
        r.deep_view() == left_to_bake(words.deep_view(), scores@, done),
{
    let mut r: Vec<String> = Vec::new();
    if done {
        assert(r.deep_view() == Seq::<Seq<char>>::empty());
        return r;
    }
    let mut i: usize = 0;
    while i < words.len() && i < scores.len()
        invariant
            i <= shorter(words@.len(), scores@.len()),
            r.deep_view() == missing_words(words.deep_view(), scores@, i as nat),
        decreases words@.len() - i,
    {
        if scores[i] == MISSING {
            let ghost before = r.deep_view();
            r.push(words[i].clone());
            assert(words.deep_view()[i as int] == words@[i as int]@);
            assert(r.deep_view() == before.push(words@[i as int]@));
        }
        i = i + 1;
    }
    r
}

/// The scores once each of the reports, a place and the score at it, was taken over.
pub open spec fn recorded(scores: Seq<i64>, reports: Seq<(usize, i64)>) -> Seq<i64>
    decreases reports.len(),
{
    if reports.len() == 0 {
        scores
    } else {
        recorded(scores, reports.drop_last()).update(reports.last().0 as int, reports.last().1)
    }
}

/// How many seconds pass before the scores so far are stored again.
pub const STORE_SECONDS: u64 = 10;

/// Whether the scores so far are to be stored, given the seconds and nanoseconds since they were
/// stored last: they are if that was too long ago, or if the clock was set back.
pub open spec fn is_due(elapsed: Option<(u64, u32)>) -> bool {
    match elapsed {
        Some((secs, nanos)) => secs > STORE_SECONDS || (secs == STORE_SECONDS && nanos > 0),
        None => true,
    }
}

/// Whether the scores so far are to be stored, given the seconds and nanoseconds since they were
/// stored last.
pub fn store_due(elapsed: Option<(u64, u32)>) -> (r: bool)
    ensures
        r == is_due(elapsed),
{
    match elapsed {
        Some((secs, nanos)) => secs > STORE_SECONDS || (secs == STORE_SECONDS && nanos > 0),
        None => true,
    }
}

/// Takes the score at a place over into the list of scores, and says whether the list is to be
/// stored, given the seconds and nanoseconds since it was stored last.
pub fn record(scores: &mut Vec<i64>, place: usize, score: i64, elapsed: Option<(u64, u32)>) -> (due:
    bool)
    requires
        place < old(scores)@.len(),
    ensures
        final(scores)@ == old(scores)@.update(place as int, score),
        due == is_due(elapsed),
{
    scores.set(place, score);
    store_due(elapsed)
}

}
