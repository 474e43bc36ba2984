//! What holds of words, of the lists that they come in, and of the answers to them.

use crate::bank::{
    all_ascii, bank_words, file_words, is_bank_of, is_text_file, leading_text, lowered, normal,
    normal_words, pieces, text_le, text_order,
};
use crate::laws_of_text::lemma_ascii_text;
use crate::letters::LetterResult;
use crate::response::{answer, answer_index, slots, strays, WordleError};
use crate::text::{ascii_lowered, byte_len, is_ascii_text, trimmed};
use rs_wordle_solver::WordBank;
use vstd::prelude::*;
use vstd::utf8::{decode_utf8, valid_utf8};

verus! {

/// Texts with a separator between each two of them.
pub open spec fn joined<T>(parts: Seq<Seq<T>>, separator: T) -> Seq<T>
    decreases parts.len(),
{
    if parts.len() == 0 {
        Seq::empty()
    } else if parts.len() == 1 {
        parts[0]
    } else {
        joined(parts.drop_last(), separator).push(separator) + parts.last()
    }
}

/// The pieces of a text hold no separator, and with separators between them they are the text.
pub proof fn lemma_pieces<T>(s: Seq<T>, separator: T)
    ensures
        pieces(s, separator).len() > 0,
        forall|i: int|
            0 <= i < pieces(s, separator).len() ==> !(#[trigger] pieces(s, separator)[i]).contains(
                separator,
            ),
        joined(pieces(s, separator), separator) == s,
    decreases s.len(),
{
    let parts = pieces(s, separator);
    if s.len() == 0 {
        assert(joined(parts, separator) =~= s);
    } else {
        let before = pieces(s.drop_last(), separator);
        lemma_pieces(s.drop_last(), separator);
        if s.last() == separator {
            assert(parts.drop_last() =~= before);
            assert(joined(parts, separator) =~= s.drop_last().push(separator));
            assert(s =~= s.drop_last().push(separator));
            assert forall|i: int| 0 <= i < parts.len() implies !(#[trigger] parts[i]).contains(
                separator,
            ) by {
                if i < before.len() {
                    assert(parts[i] == before[i]);
                }
            }
        } else {
            let last = before.last().push(s.last());
            assert(parts.drop_last() =~= before.drop_last());
            assert(parts.last() == last);
            assert(s =~= s.drop_last().push(s.last()));
            if before.len() == 1 {
                assert(joined(before, separator) == before[0]);
                assert(joined(parts, separator) == parts[0]);
                assert(joined(parts, separator) =~= s);
            } else {
                let front = joined(before.drop_last(), separator).push(separator);
                assert(joined(before, separator) == front + before.last());
                assert(joined(parts, separator) == front + last);
                assert(front + last =~= (front + before.last()).push(s.last()));
            }
            assert forall|i: int| 0 <= i < parts.len() implies !(#[trigger] parts[i]).contains(
                separator,
            ) by {
                if i < parts.len() - 1 {
                    assert(parts[i] == before[i]);
                } else {
                    assert(!before[before.len() - 1].contains(separator));
                    if last.contains(separator) {
                        let k = choose|k: int| 0 <= k < last.len() && last[k] == separator;
                        assert(before.last()[k] == separator);
                    }
                }
            }
        }
    }
}

/// Whether two texts are the same up to a place, and the first one has the lower code there.
pub open spec fn lower_at(a: Seq<char>, b: Seq<char>, place: int) -> bool {
    &&& 0 <= place < a.len()
    &&& place < b.len()
    &&& a.take(place) == b.take(place)
    &&& (a[place] as int) < (b[place] as int)
}

/// A text comes before another if that one begins with it, or if it has the lower code at the first
/// place at which they differ.
pub proof fn lemma_text_le(a: Seq<char>, b: Seq<char>)
    ensures
        text_order()(a, b) == text_le(a, b),
        text_le(a, b) <==> (a.len() <= b.len() && b.take(a.len() as int) == a) || exists|k: int|
            #[trigger] lower_at(a, b, k),
    decreases a.len(),
{
    if a.len() == 0 {
        assert(b.take(0) =~= a);
    } else if b.len() > 0 {
        let x = a.drop_first();
        let y = b.drop_first();
        lemma_text_le(x, y);
        if a[0] == b[0] {
            if x.len() <= y.len() && y.take(x.len() as int) == x {
                assert forall|i: int| 0 <= i < a.len() implies b[i] == a[i] by {
                    if i > 0 {
                        assert(y.take(x.len() as int)[i - 1] == x[i - 1]);
                    }
                }
                assert(b.take(a.len() as int) =~= a);
            }
            if a.len() <= b.len() && b.take(a.len() as int) == a {
                assert forall|i: int| 0 <= i < x.len() implies y[i] == x[i] by {
                    assert(b.take(a.len() as int)[i + 1] == a[i + 1]);
                }
                assert(y.take(x.len() as int) =~= x);
            }
            if exists|k: int| #[trigger] lower_at(x, y, k) {
                let k = choose|k: int| #[trigger] lower_at(x, y, k);
                assert forall|i: int| 0 <= i < k + 1 implies a[i] == b[i] by {
                    if i > 0 {
                        assert(x.take(k)[i - 1] == y.take(k)[i - 1]);
                    }
                }
                assert(a.take(k + 1) =~= b.take(k + 1));
                assert(lower_at(a, b, k + 1));
            }
            if exists|k: int| #[trigger] lower_at(a, b, k) {
                let k = choose|k: int| #[trigger] lower_at(a, b, k);
                assert forall|i: int| 0 <= i < k - 1 implies x[i] == y[i] by {
                    assert(a.take(k)[i + 1] == b.take(k)[i + 1]);
                }
                assert(x.take(k - 1) =~= y.take(k - 1));
                assert(lower_at(x, y, k - 1));
            }
        } else {
            if a[0] < b[0] {
                assert(a.take(0) =~= b.take(0));
                assert(lower_at(a, b, 0));
            } else {
                if a.len() <= b.len() && b.take(a.len() as int) == a {
                    assert(b.take(a.len() as int)[0] == a[0]);
                }
                if exists|k: int| #[trigger] lower_at(a, b, k) {
                    let k = choose|k: int| #[trigger] lower_at(a, b, k);
                    if k > 0 {
                        assert(a.take(k)[0] == b.take(k)[0]);
                    }
                }
            }
        }
    }
}

/// A word is held without the white space around it and in small letters.
pub proof fn lemma_normal(word: Seq<char>)
    ensures
        is_ascii_text(trimmed(word)) ==> normal(word) == ascii_lowered(trimmed(word)),
        !is_ascii_text(trimmed(word)) ==> normal(word) == lowered(trimmed(word)),
{
}

/// A bank takes the words of two lists one after the other.
pub proof fn lemma_normal_words_joined(a: Seq<Seq<char>>, b: Seq<Seq<char>>)
    ensures
        normal_words(a + b) == normal_words(a) + normal_words(b),
{
    let f = |w: Seq<char>| normal(w);
    let keep = |w: Seq<char>| w.len() > 0;
    assert((a + b).map_values(f) =~= a.map_values(f) + b.map_values(f));
    Seq::filter_distributes_over_add(a.map_values(f), b.map_values(f), keep);
}

/// A bank takes a word in its normal form, unless nothing is left of it.
pub proof fn lemma_normal_words_one(word: Seq<char>)
    ensures
        normal_words(seq![word]) == if normal(word).len() > 0 {
            seq![normal(word)]
        } else {
            Seq::empty()
        },
{
    reveal(Seq::filter);
    let f = |w: Seq<char>| normal(w);
    let keep = |w: Seq<char>| w.len() > 0;
    let one = seq![word].map_values(f);
    assert(one =~= seq![normal(word)]);
    assert(one.drop_last() =~= Seq::<Seq<char>>::empty());
    assert(one.drop_last().filter(keep) =~= Seq::<Seq<char>>::empty());
    assert(one.filter(keep) =~= if normal(word).len() > 0 {
        seq![normal(word)]
    } else {
        Seq::empty()
    });
}

/// There is a bank of words if they all take as many bytes, and it holds them all in order. Else it
/// is said how many bytes the first one takes, and some word takes another number.
pub proof fn lemma_bank_of(words: Seq<Seq<char>>, r: Result<WordBank, WordleError>)
    requires
        is_bank_of(words, r),
    ensures
        match r {
            Ok(bank) => {
                &&& bank_words(bank) == normal_words(words)
                &&& forall|i: int, j: int|
                    0 <= i < bank_words(bank).len() && 0 <= j < bank_words(bank).len() ==> byte_len(
                        #[trigger] bank_words(bank)[i],
                    ) == byte_len(#[trigger] bank_words(bank)[j])
            },
            Err(e) => {
                &&& normal_words(words).len() > 0
                &&& e matches WordleError::WordLength(n) && n == byte_len(normal_words(words)[0])
                    && exists|i: int|
                    0 <= i < normal_words(words).len() && byte_len(
                        #[trigger] normal_words(words)[i],
                    ) != n
            },
        },
{
}

/// The lines that count are those before the first one that is no text.
proof fn lemma_leading_text(lines: Seq<Seq<u8>>) -> (n: int)
    ensures
        0 <= n <= lines.len(),
        forall|i: int| 0 <= i < n ==> valid_utf8(#[trigger] lines[i]),
        n < lines.len() ==> !valid_utf8(lines[n]),
        leading_text(lines) == Seq::new(n as nat, |i: int| decode_utf8(lines[i])),
    decreases lines.len(),
{
    if lines.len() == 0 || !valid_utf8(lines.first()) {
        assert(leading_text(lines) =~= Seq::new(0, |i: int| decode_utf8(lines[i])));
        0
    } else {
        let rest = lines.drop_first();
        let n = lemma_leading_text(rest) + 1;
        assert forall|i: int| 0 <= i < n implies valid_utf8(#[trigger] lines[i]) by {
            if i > 0 {
                assert(lines[i] == rest[i - 1]);
            }
        }
        assert(leading_text(lines) =~= Seq::new(n as nat, |i: int| decode_utf8(lines[i])));
        n
    }
}

/// The words of a file are those of its lines, which end at the bytes 10, up to the first line that
/// is no UTF-8 text; a text file has no such line.
pub proof fn lemma_file_words(bytes: Seq<u8>) -> (n: int)
    ensures
        0 <= n <= pieces(bytes, 10u8).len(),
        forall|i: int| 0 <= i < n ==> valid_utf8(#[trigger] pieces(bytes, 10u8)[i]),
        n < pieces(bytes, 10u8).len() ==> !valid_utf8(pieces(bytes, 10u8)[n]),
        file_words(bytes) == normal_words(
            Seq::new(n as nat, |i: int| decode_utf8(pieces(bytes, 10u8)[i])),
        ),
        is_text_file(bytes) <==> n == pieces(bytes, 10u8).len(),
{
    lemma_leading_text(pieces(bytes, 10u8))
}

/// The words of a list are ASCII words if each takes one byte for each character.
pub proof fn lemma_all_ascii(words: Seq<Seq<char>>)
    ensures
        all_ascii(words) <==> forall|i: int|
            0 <= i < words.len() ==> byte_len(#[trigger] words[i]) == words[i].len(),
{
    assert forall|i: int| 0 <= i < words.len() implies (is_ascii_text(#[trigger] words[i])
        <==> byte_len(words[i]) == words[i].len()) by {
        lemma_ascii_text(words[i]);
    }
}

/// How often a character stands among the first `n` of a text.
pub open spec fn occurs(s: Seq<char>, c: char, n: int) -> nat
    decreases n,
{
    if n <= 0 {
        0
    } else {
        occurs(s, c, n - 1) + if s[n - 1] == c {
            1nat
        } else {
            0
        }
    }
}

/// How often a character stands among the first `n` of a guess and is marked correct or present.
pub open spec fn found(guess: Seq<char>, results: Seq<LetterResult>, c: char, n: int) -> nat
    decreases n,
{
    if n <= 0 {
        0
    } else {
        found(guess, results, c, n - 1) + if guess[n - 1] == c && !(results[n - 1] is NotPresent) {
            1nat
        } else {
            0
        }
    }
}

/// How often a character stands at the same place in both texts, among the first `n`.
spec fn shared(a: Seq<char>, b: Seq<char>, c: char, n: int) -> nat
    decreases n,
{
    if n <= 0 {
        0
    } else {
        shared(a, b, c, n - 1) + if a[n - 1] == c && b[n - 1] == c {
            1nat
        } else {
            0
        }
    }
}

/// A character of one text stands at the same place of the other, or it does not.
proof fn lemma_strays(a: Seq<char>, b: Seq<char>, c: char, n: int)
    requires
        is_ascii_text(a),
        is_ascii_text(b),
        a.len() == b.len(),
        n <= a.len(),
    ensures
        occurs(a, c, n) == shared(a, b, c, n) + strays(slots(a), slots(b), c, n),
    decreases n,
{
    crate::laws::lemma_ascii_slots(a);
    crate::laws::lemma_ascii_slots(b);
    if n > 0 {
        lemma_strays(a, b, c, n - 1);
        assert(slots(a)[n - 1] == Some(a[n - 1]));
        assert(slots(b)[n - 1] == Some(b[n - 1]));
    }
}

/// Where a character stands in both texts does not depend on which one is looked at first.
proof fn lemma_shared(a: Seq<char>, b: Seq<char>, c: char, n: int)
    ensures
        shared(a, b, c, n) == shared(b, a, c, n),
    decreases n,
{
    if n > 0 {
        lemma_shared(a, b, c, n - 1);
    }
}

/// The marks of a character are those in their place, and then as many as the objective word has
/// left.
proof fn lemma_found(objective: Seq<char>, guess: Seq<char>, c: char, n: int)
    requires
        is_ascii_text(objective),
        is_ascii_text(guess),
        objective.len() == guess.len(),
        0 <= n <= guess.len(),
    ensures
        found(guess, answer(objective, guess), c, n) == shared(objective, guess, c, n) + ({
            let seen = strays(slots(guess), slots(objective), c, n);
            let left = strays(slots(objective), slots(guess), c, objective.len() as int);
            if seen <= left {
                seen
            } else {
                left
            }
        }),
    decreases n,
{
    crate::laws::lemma_ascii_slots(objective);
    crate::laws::lemma_ascii_slots(guess);
    if n > 0 {
        lemma_found(objective, guess, c, n - 1);
        assert(slots(guess)[n - 1] == Some(guess[n - 1]));
        assert(slots(objective)[n - 1] == Some(objective[n - 1]));
    }
}

/// An answer has a result for each letter of the guess. A letter is correct if the objective word
/// has it at the same place. Of each letter, as many are correct or present as both words have of
/// it. Of those that are not correct, the ones that are present come before the others.
pub proof fn lemma_answer(objective: Seq<char>, guess: Seq<char>)
    requires
        is_ascii_text(objective),
        is_ascii_text(guess),
        objective.len() == guess.len(),
    ensures
        answer(objective, guess).len() == guess.len(),
        forall|i: int|
            0 <= i < guess.len() ==> ((#[trigger] answer(objective, guess)[i]) is Correct
                <==> guess[i] == objective[i]),
        forall|c: char|
            #![trigger found(guess, answer(objective, guess), c, guess.len() as int)]
            ({
                let marked = found(guess, answer(objective, guess), c, guess.len() as int);
                let asked = occurs(guess, c, guess.len() as int);
                let there = occurs(objective, c, objective.len() as int);
                marked == if asked <= there {
                    asked
                } else {
                    there
                }
            }),
        forall|i: int, j: int|
            0 <= i < j < guess.len() && guess[i] == guess[j] && (#[trigger] answer(
                objective,
                guess,
            )[i]) is NotPresent ==> !((#[trigger] answer(objective, guess)[j]) is PresentNotHere),
{
    let results = answer(objective, guess);
    let n = guess.len() as int;
    crate::laws::lemma_ascii_slots(objective);
    crate::laws::lemma_ascii_slots(guess);
    assert forall|i: int| 0 <= i < guess.len() implies ((#[trigger] results[i]) is Correct
        <==> guess[i] == objective[i]) by {
        assert(slots(guess)[i] == Some(guess[i]));
        assert(slots(objective)[i] == Some(objective[i]));
    }
    assert forall|c: char|
        #![trigger found(guess, results, c, n)]
        ({
            let marked = found(guess, results, c, n);
            let asked = occurs(guess, c, n);
            let there = occurs(objective, c, n);
            marked == if asked <= there {
                asked
            } else {
                there
            }
        }) by {
        lemma_found(objective, guess, c, n);
        lemma_strays(guess, objective, c, n);
        lemma_strays(objective, guess, c, n);
        lemma_shared(objective, guess, c, n);
    }
    assert forall|i: int, j: int|
        0 <= i < j < guess.len() && guess[i] == guess[j] && (
        #[trigger] results[i]) is NotPresent implies !((
    #[trigger] results[j]) is PresentNotHere) by {
        assert(slots(guess)[i] == Some(guess[i]));
        assert(slots(guess)[j] == Some(guess[j]));
        lemma_strays_grow(slots(guess), slots(objective), guess[i], i, j);
    }
}

/// What was counted stays counted.
proof fn lemma_strays_grow(a: Seq<Option<char>>, b: Seq<Option<char>>, c: char, i: int, j: int)
    requires
        i <= j,
    ensures
        strays(a, b, c, i) <= strays(a, b, c, j),
    decreases j - i,
{
    if i < j {
        lemma_strays_grow(a, b, c, i, j - 1);
    }
}

/// There is a slot for each byte of a text. The one at which a character begins holds it, and the
/// others hold none.
pub proof fn lemma_slots(s: Seq<char>)
    ensures
        slots(s).len() == byte_len(s),
        forall|k: int|
            0 <= k < s.len() ==> byte_len(#[trigger] s.take(k)) < slots(s).len()
                && slots(s)[byte_len(s.take(k)) as int] == Some(s[k]),
        forall|m: int|
            0 <= m < slots(s).len() && (#[trigger] slots(s)[m]) is Some ==> begins(s, m),
    decreases s.len(),
{
    if s.len() > 0 {
        let before = s.drop_last();
        let n = s.len() - 1;
        lemma_slots(before);
        assert(s.take(n) =~= before);
        assert forall|k: int| 0 <= k < s.len() implies byte_len(#[trigger] s.take(k)) < slots(
            s,
        ).len() && slots(s)[byte_len(s.take(k)) as int] == Some(s[k]) by {
            if k < n {
                assert(before.take(k) =~= s.take(k));
                assert(slots(before)[byte_len(before.take(k)) as int] == Some(before[k]));
            }
        }
        assert forall|m: int| 0 <= m < slots(s).len() && (#[trigger] slots(s)[m]) is Some implies
            begins(s, m) by {
            if m < slots(before).len() {
                assert(slots(s)[m] == slots(before)[m]);
                let k = choose|k: int|
                    0 <= k < before.len() && byte_len(#[trigger] before.take(k)) == m;
                assert(before.take(k) =~= s.take(k));
            } else {
                assert(m == byte_len(s.take(n)));
            }
        }
    }
}

/// Whether a character begins at a byte of a text.
pub open spec fn begins(s: Seq<char>, m: int) -> bool {
    exists|k: int| 0 <= k < s.len() && byte_len(#[trigger] s.take(k)) == m
}

/// How many of the first `n` slots hold a character.
pub open spec fn held(s: Seq<Option<char>>, c: char, n: int) -> nat
    decreases n,
{
    if n <= 0 {
        0
    } else {
        held(s, c, n - 1) + if s[n - 1] == Some(c) {
            1nat
        } else {
            0
        }
    }
}

/// How many of the first `n` slots of a guess hold a character and are marked correct or present.
pub open spec fn marked(
    guess: Seq<Option<char>>,
    results: Seq<LetterResult>,
    c: char,
    n: int,
) -> nat
    decreases n,
{
    if n <= 0 {
        0
    } else {
        marked(guess, results, c, n - 1) + if guess[n - 1] == Some(c) && !(
        results[n - 1] is NotPresent) {
            1nat
        } else {
            0
        }
    }
}

/// How many of the first `n` slots hold a character in both texts.
spec fn both(a: Seq<Option<char>>, b: Seq<Option<char>>, c: char, n: int) -> nat
    decreases n,
{
    if n <= 0 {
        0
    } else {
        both(a, b, c, n - 1) + if a[n - 1] == Some(c) && b[n - 1] == Some(c) {
            1nat
        } else {
            0
        }
    }
}

/// A slot that holds a character does so in the other text too, or it does not.
proof fn lemma_held(a: Seq<Option<char>>, b: Seq<Option<char>>, c: char, n: int)
    ensures
        held(a, c, n) == both(a, b, c, n) + strays(a, b, c, n),
        both(a, b, c, n) == both(b, a, c, n),
    decreases n,
{
    if n > 0 {
        lemma_held(a, b, c, n - 1);
    }
}

/// The slots of a character that are marked are those in their place, and then as many as the
/// objective word has left.
proof fn lemma_marked(objective: Seq<char>, guess: Seq<char>, c: char, n: int)
    requires
        0 <= n <= slots(guess).len(),
    ensures
        marked(slots(guess), answer(objective, guess), c, n) == both(
            slots(objective),
            slots(guess),
            c,
            n,
        ) + ({
            let seen = strays(slots(guess), slots(objective), c, n);
            let left = strays(
                slots(objective),
                slots(guess),
                c,
                slots(objective).len() as int,
            );
            if seen <= left {
                seen
            } else {
                left
            }
        }),
    decreases n,
{
    if n > 0 {
        lemma_marked(objective, guess, c, n - 1);
    }
}

/// An answer has a result for each byte of the guess, whatever its characters. A byte is correct
/// if a character begins there, and the same one in the objective word. Of each character, as many
/// are correct or present as both words have of it, and of those that are not correct, the ones
/// that are present come first. A byte at which no character begins is not present.
pub proof fn lemma_answer_in_bytes(objective: Seq<char>, guess: Seq<char>)
    requires
        byte_len(objective) == byte_len(guess),
    ensures
        answer(objective, guess).len() == byte_len(guess),
        forall|i: int|
            0 <= i < slots(guess).len() ==> ((#[trigger] answer(objective, guess)[i]) is Correct
                <==> slots(guess)[i] is Some && slots(guess)[i] == slots(objective)[i]),
        forall|i: int|
            0 <= i < slots(guess).len() && slots(guess)[i] is None ==> (#[trigger] answer(
                objective,
                guess,
            )[i]) is NotPresent,
        forall|c: char|
            #![trigger marked(slots(guess), answer(objective, guess), c, slots(guess).len() as int)]
            ({
                let n = slots(guess).len() as int;
                let asked = held(slots(guess), c, n);
                let there = held(slots(objective), c, n);
                marked(slots(guess), answer(objective, guess), c, n) == if asked <= there {
                    asked
                } else {
                    there
                }
            }),
        forall|i: int, j: int|
            0 <= i < j < slots(guess).len() && slots(guess)[i] == slots(guess)[j] && (
            #[trigger] answer(objective, guess)[i]) is NotPresent ==> !((#[trigger] answer(
                objective,
                guess,
            )[j]) is PresentNotHere),
{
    let results = answer(objective, guess);
    let n = slots(guess).len() as int;
    lemma_slots(objective);
    lemma_slots(guess);
    assert forall|c: char|
        #![trigger marked(slots(guess), results, c, n)]
        ({
            let asked = held(slots(guess), c, n);
            let there = held(slots(objective), c, n);
            marked(slots(guess), results, c, n) == if asked <= there {
                asked
            } else {
                there
            }
        }) by {
        lemma_marked(objective, guess, c, n);
        lemma_held(slots(guess), slots(objective), c, n);
        lemma_held(slots(objective), slots(guess), c, n);
    }
    assert forall|i: int, j: int|
        0 <= i < j < slots(guess).len() && slots(guess)[i] == slots(guess)[j] && (
        #[trigger] results[i]) is NotPresent implies !((
    #[trigger] results[j]) is PresentNotHere) by {
        match slots(guess)[i] {
            Some(c) => {
                lemma_strays_grow(slots(guess), slots(objective), c, i, j);
            },
            None => {},
        }
    }
}

/// Whether a result comes before another when answers are counted through: black before yellow,
/// and yellow before green.
pub open spec fn sooner(a: LetterResult, b: LetterResult) -> bool {
    match a {
        LetterResult::NotPresent => !(b is NotPresent),
        LetterResult::PresentNotHere => b is Correct,
        LetterResult::Correct => false,
    }
}

/// Of two answers, the one with the sooner result at the first place at which they differ comes
/// first.
pub proof fn lemma_answers_in_order(a: Seq<LetterResult>, b: Seq<LetterResult>, place: int)
    requires
        a.len() == b.len(),
        0 <= place < a.len(),
        a.take(place) == b.take(place),
        sooner(a[place], b[place]),
    ensures
        answer_index(a) < answer_index(b),
    decreases a.len(),
{
    let x = a.drop_last();
    let y = b.drop_last();
    if place < x.len() {
        assert(x.take(place) =~= a.take(place));
        assert(y.take(place) =~= b.take(place));
        lemma_answers_in_order(x, y, place);
    } else {
        assert(x =~= a.take(place));
        assert(y =~= b.take(place));
    }
}

}
