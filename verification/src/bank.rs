//! The words of the game: a list of words, one on each line, and the bank made of them.

use crate::response::WordleError;
use crate::text::{
    ascii_lowered, ascii_text, byte_len, chars_of, is_ascii_text, lower, same_but_case, same_chars,
    trimmed,
};
use rs_wordle_solver::WordBank;
use vstd::prelude::*;
use vstd::relations::{sorted_by, total_ordering};
use vstd::seq_lib::lemma_sorted_unique;
use vstd::utf8::{decode_utf8, valid_utf8};

verus! {

/// The bank of words of `rs_wordle_solver`.
#[verifier::external_type_specification]
#[verifier::external_body]
pub struct ExWordBank(WordBank);

/// The words that a bank holds, in order.
pub uninterp spec fn bank_words(bank: WordBank) -> Seq<Seq<char>>;

/// A text in small letters, as `str::to_lowercase` gives it.
pub uninterp spec fn lowered(s: Seq<char>) -> Seq<char>;

/// A word as a bank holds it: without white space around it and in small letters.
pub open spec fn normal(word: Seq<char>) -> Seq<char> {
    let inner = trimmed(word);
    if is_ascii_text(inner) {
        ascii_lowered(inner)
    } else {
        lowered(inner)
    }
}

/// The words that a bank takes from a list: each in its normal form, the empty ones left out.
pub open spec fn normal_words(words: Seq<Seq<char>>) -> Seq<Seq<char>> {
    words.map_values(|w: Seq<char>| normal(w)).filter(|w: Seq<char>| w.len() > 0)
}

/// The length of the words of a list in bytes: that of the first one, or zero if there is none.
pub open spec fn length_of(words: Seq<Seq<char>>) -> nat {
    if words.len() == 0 {
        0
    } else {
        byte_len(words[0])
    }
}

/// Whether the words of a list are all of one length.
pub open spec fn one_length(words: Seq<Seq<char>>) -> bool {
    forall|i: int| 0 <= i < words.len() ==> byte_len(#[trigger] words[i]) == length_of(words)
}

/// Whether all words of a list are ASCII words.
pub open spec fn all_ascii(words: Seq<Seq<char>>) -> bool {
    forall|i: int| 0 <= i < words.len() ==> is_ascii_text(#[trigger] words[i])
}

/// `WordBank::from_iterator` trims each word and turns it into small letters, leaves the empty
/// ones out and keeps the others in order. It fails when some word differs in length from the
/// first one.
#[verifier::external_body]
fn bank_from_iterator(words: &Vec<String>) -> (r: Result<WordBank, WordleError>)
    ensures
        match r {
            Ok(bank) => one_length(normal_words(words.deep_view())) && bank_words(bank)
                == normal_words(words.deep_view()),
            Err(e) => !one_length(normal_words(words.deep_view())) && (
            e matches WordleError::WordLength(n) && n == length_of(
                normal_words(words.deep_view()),
            )),
        },
        r matches Ok(bank) ==> forall|i: int|
            0 <= i < words@.len() && !is_ascii_text(trimmed((#[trigger] words@[i])@)) && lowered(
                trimmed(words@[i]@),
            ).len() > 0 ==> bank_words(bank).contains(lowered(trimmed(words@[i]@))),
{
    WordBank::from_iterator(words.iter()).map_err(
        |e| match e {
            rs_wordle_solver::WordleError::WordLength(n) => WordleError::WordLength(n),
            rs_wordle_solver::WordleError::InvalidResults => WordleError::InvalidResults,
            rs_wordle_solver::WordleError::IoError(e) => WordleError::IoError(e.to_string()),
        },
    )
}

/// What stands before, between and behind the separators in `s`.
pub open spec fn pieces<T>(s: Seq<T>, separator: T) -> Seq<Seq<T>>
    decreases s.len(),
{
    if s.len() == 0 {
        seq![Seq::<T>::empty()]
    } else {
        let before = pieces(s.drop_last(), separator);
        if s.last() == separator {
            before.push(Seq::empty())
        } else {
            before.drop_last().push(before.last().push(s.last()))
        }
    }
}

/// The lines of a file as text, up to the first one that is not UTF-8.
pub open spec fn leading_text(lines: Seq<Seq<u8>>) -> Seq<Seq<char>>
    decreases lines.len(),
{
    if lines.len() == 0 || !valid_utf8(lines.first()) {
        Seq::empty()
    } else {
        seq![decode_utf8(lines.first())] + leading_text(lines.drop_first())
    }
}

/// The words that a bank takes from the bytes of a file with one word on each line, as far as
/// they are text.
pub open spec fn file_words(bytes: Seq<u8>) -> Seq<Seq<char>> {
    normal_words(leading_text(pieces(bytes, 10u8)))
}

/// Whether every line of a file is text.
pub open spec fn is_text_file(bytes: Seq<u8>) -> bool {
    leading_text(pieces(bytes, 10u8)).len() == pieces(bytes, 10u8).len()
}

/// `WordBank::from_reader` reads one word off each line, trims it, turns it into small letters
/// and leaves the empty ones out. It stops with an error at the first word that differs in
/// length from the first one, or at the first line that is not UTF-8. The wording of the latter
/// error is left open.
#[verifier::external_body]
fn bank_from_reader(bytes: &[u8]) -> (r: Result<WordBank, WordleError>)
    ensures
        match r {
            Ok(bank) => is_text_file(bytes@) && one_length(file_words(bytes@)) && bank_words(bank)
                == file_words(bytes@),
            Err(WordleError::WordLength(n)) => !one_length(file_words(bytes@)) && n == length_of(
                file_words(bytes@),
            ),
            Err(WordleError::IoError(_)) => !is_text_file(bytes@) && one_length(file_words(bytes@)),
            Err(WordleError::InvalidResults) => false,
        },
{
    WordBank::from_reader(std::io::Cursor::new(bytes)).map_err(
        |e| match e {
            rs_wordle_solver::WordleError::WordLength(n) => WordleError::WordLength(n),
            rs_wordle_solver::WordleError::InvalidResults => WordleError::InvalidResults,
            rs_wordle_solver::WordleError::IoError(e) => WordleError::IoError(e.to_string()),
        },
    )
}

/// The clone of a bank holds the same words.
pub assume_specification[ <WordBank as Clone>::clone ](bank: &WordBank) -> (r: WordBank)
    ensures
        bank_words(r) == bank_words(*bank),
;

/// `WordBank::word_length` is the length in bytes that all words of the bank have, and zero for
/// a bank without words.
pub assume_specification[ WordBank::word_length ](bank: &WordBank) -> (n: usize)
    ensures
        n == length_of(bank_words(*bank)),
        forall|i: int|
            0 <= i < bank_words(*bank).len() ==> n == byte_len(#[trigger] bank_words(*bank)[i]),
;

/// `WordBank::len` is the number of words in the bank.
pub assume_specification[ WordBank::len ](bank: &WordBank) -> (n: usize)
    ensures
        n == bank_words(*bank).len(),
;

/// The word at a place of the bank, through its `Deref` to a slice.
#[verifier::external_body]
fn bank_word(bank: &WordBank, i: usize) -> (word: &str)
    requires
        i < bank_words(*bank).len(),
    ensures
        word@ == bank_words(*bank)[i as int],
{
    &bank[i]
}

/// `konst::string::split` gives what stands before, between and behind the delimiters.
#[verifier::external_body]
fn split(text: &str, delimiter: char) -> (r: Vec<String>)
    ensures
        r.deep_view() == pieces(text@, delimiter),
{
    let mut r = Vec::new();
    let mut rest = konst::string::split(text, delimiter);
    while let Some(piece) = rest.next() {
        r.push(piece.to_owned());
    }
    r
}

/// Whether `a` comes before `b` in the order of their characters, or is the same.
pub open spec fn text_le(a: Seq<char>, b: Seq<char>) -> bool
    decreases a.len(),
{
    if a.len() == 0 {
        true
    } else if b.len() == 0 {
        false
    } else {
        a.first() < b.first() || (a.first() == b.first() && text_le(a.drop_first(), b.drop_first()))
    }
}

/// The order of texts by their characters.
pub open spec fn text_order() -> spec_fn(Seq<char>, Seq<char>) -> bool {
    |a: Seq<char>, b: Seq<char>| text_le(a, b)
}

proof fn lemma_text_le_antisymmetric(a: Seq<char>, b: Seq<char>)
    requires
        text_le(a, b),
        text_le(b, a),
    ensures
        a == b,
    decreases a.len(),
{
    if a.len() > 0 && b.len() > 0 {
        lemma_text_le_antisymmetric(a.drop_first(), b.drop_first());
        assert(a == seq![a.first()] + a.drop_first());
        assert(b == seq![b.first()] + b.drop_first());
    }
}

proof fn lemma_text_le_transitive(a: Seq<char>, b: Seq<char>, c: Seq<char>)
    requires
        text_le(a, b),
        text_le(b, c),
    ensures
        text_le(a, c),
    decreases a.len(),
{
    if a.len() > 0 && a.first() == b.first() && b.first() == c.first() {
        lemma_text_le_transitive(a.drop_first(), b.drop_first(), c.drop_first());
    }
}

proof fn lemma_text_le_total(a: Seq<char>, b: Seq<char>)
    ensures
        text_le(a, a),
        text_le(a, b) || text_le(b, a),
    decreases a.len(),
{
    if a.len() > 0 {
        lemma_text_le_total(
            a.drop_first(),
            if b.len() > 0 {
                b.drop_first()
            } else {
                b
            },
        );
    }
}

/// The order of texts by their characters is a total order.
pub proof fn lemma_text_order()
    ensures
        total_ordering(text_order()),
{
    assert forall|a: Seq<char>| #[trigger] text_order()(a, a) by {
        lemma_text_le_total(a, a);
    }
    assert forall|a: Seq<char>, b: Seq<char>| #[trigger] text_order()(a, b)
        && #[trigger] text_order()(b, a) implies a == b by {
        lemma_text_le_antisymmetric(a, b);
    }
    assert forall|a: Seq<char>, b: Seq<char>, c: Seq<char>| #[trigger] text_order()(a, b)
        && #[trigger] text_order()(b, c) implies text_order()(a, c) by {
        lemma_text_le_transitive(a, b, c);
    }
    assert forall|a: Seq<char>, b: Seq<char>| #[trigger] text_order()(a, b)
        || #[trigger] text_order()(b, a) by {
        lemma_text_le_total(a, b);
    }
}

/// `slice::sort_unstable` puts strings into the order of their characters.
#[verifier::external_body]
fn sort(words: &mut Vec<String>)
    ensures
        final(words).deep_view().to_multiset() == old(words).deep_view().to_multiset(),
        sorted_by(final(words).deep_view(), text_order()),
{
    words.sort_unstable()
}

/// The lines of a text that hold anything, in the order of their characters.
pub open spec fn sorted_lines(text: Seq<char>) -> Seq<Seq<char>> {
    pieces(text, '\n').filter(|line: Seq<char>| line.len() > 0).sort_by(text_order())
}

/// The words of a text with one word on each line: its lines in order, the empty ones left out.
pub fn words(text: &str) -> (r: Vec<String>)
    ensures
        r.deep_view() == sorted_lines(text@),
{
    let lines = split(text, '\n');
    let ghost pred = |line: Seq<char>| line.len() > 0;
    let mut r: Vec<String> = Vec::new();
    let mut i: usize = 0;
    while i < lines.len()
        invariant
            i <= lines@.len(),
            pred == (|line: Seq<char>| line.len() > 0),
            r.deep_view() == lines.deep_view().take(i as int).filter(pred),
        decreases lines@.len() - i,
    {
        reveal(Seq::filter);
        let ghost before = r.deep_view();
        let line = lines[i].clone();
        assert(lines.deep_view().take(i + 1).drop_last() == lines.deep_view().take(i as int));
        assert(lines.deep_view()[i as int] == line@);
        if !line.as_str().is_empty() {
            r.push(line);
            assert(r.deep_view() == before.push(line@));
        }
        i = i + 1;
    }
    assert(lines.deep_view().take(lines@.len() as int) == lines.deep_view());
    let ghost unsorted = r.deep_view();
    sort(&mut r);
    proof {
        lemma_text_order();
        unsorted.lemma_sort_by_ensures(text_order());
        lemma_sorted_unique(r.deep_view(), unsorted.sort_by(text_order()), text_order());
    }
    r
}

/// Whether `r` is the bank of the given words, or says why there is none.
pub open spec fn is_bank_of(words: Seq<Seq<char>>, r: Result<WordBank, WordleError>) -> bool {
    let kept = normal_words(words);
    match r {
        Ok(bank) => one_length(kept) && bank_words(bank) == kept,
        Err(e) => !one_length(kept) && e == WordleError::WordLength(length_of(kept) as usize)
            && length_of(kept) <= usize::MAX,
    }
}

/// The bank of the given words.
pub fn bank_of(words: &Vec<String>) -> (r: Result<WordBank, WordleError>)
    ensures
        is_bank_of(words.deep_view(), r),
{
    bank_from_iterator(words)
}

/// The bank of the words of a text with one word on each line.
pub fn word_bank(text: &str) -> (r: Result<WordBank, WordleError>)
    ensures
        is_bank_of(sorted_lines(text@), r),
{
    bank_of(&words(text))
}

/// The bank of the words of a file with one word on each line, in the order of the file.
pub fn read_bank(bytes: &[u8]) -> (r: Result<WordBank, WordleError>)
    ensures
        match r {
            Ok(bank) => is_text_file(bytes@) && one_length(file_words(bytes@)) && bank_words(bank)
                == file_words(bytes@),
            Err(WordleError::WordLength(n)) => !one_length(file_words(bytes@)) && n == length_of(
                file_words(bytes@),
            ),
            Err(WordleError::IoError(_)) => !is_text_file(bytes@) && one_length(file_words(bytes@)),
            Err(WordleError::InvalidResults) => false,
        },
{
    bank_from_reader(bytes)
}

/// Whether a bank holds `word`.
pub fn bank_holds(bank: &WordBank, word: &[char]) -> (r: bool)
    ensures
        r == bank_words(*bank).contains(word@),
{
    let mut i: usize = 0;
    while i < bank.len()
        invariant
            i <= bank_words(*bank).len(),
            forall|j: int| 0 <= j < i ==> #[trigger] bank_words(*bank)[j] != word@,
        decreases bank_words(*bank).len() - i,
    {
        if same_chars(&chars_of(bank_word(bank, i)), word) {
            return true;
        }
        i = i + 1;
    }
    false
}

/// Whether some word of a list is `word`, but for the case of ASCII letters.
pub open spec fn holds_but_case(words: Seq<Seq<char>>, word: Seq<char>) -> bool {
    exists|i: int| 0 <= i < words.len() && same_but_case(#[trigger] words[i], word)
}

/// Whether a bank holds `word`, but for the case of ASCII letters.
pub fn bank_holds_but_case(bank: &WordBank, word: &[char]) -> (r: bool)
    ensures
        r == holds_but_case(bank_words(*bank), word@),
{
    let low = lower(word);
    let mut i: usize = 0;
    while i < bank.len()
        invariant
            i <= bank_words(*bank).len(),
            low@ == ascii_lowered(word@),
            forall|j: int| 0 <= j < i ==> !same_but_case(#[trigger] bank_words(*bank)[j], word@),
        decreases bank_words(*bank).len() - i,
    {
        let here = lower(&chars_of(bank_word(bank, i)));
        if same_chars(&here, &low) {
            assert(same_but_case(bank_words(*bank)[i as int], word@));
            return true;
        }
        i = i + 1;
    }
    false
}

/// Whether all words of a bank are ASCII words.
pub fn bank_is_ascii(bank: &WordBank) -> (r: bool)
    ensures
        r == all_ascii(bank_words(*bank)),
{
    let mut i: usize = 0;
    while i < bank.len()
        invariant
            i <= bank_words(*bank).len(),
            forall|j: int| 0 <= j < i ==> is_ascii_text(#[trigger] bank_words(*bank)[j]),
        decreases bank_words(*bank).len() - i,
    {
        if !ascii_text(&chars_of(bank_word(bank, i))) {
            return false;
        }
        i = i + 1;
    }
    true
}

}
