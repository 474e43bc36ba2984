//! What holds of white space, numbers, letters and lengths in bytes.

use crate::text::{
    ascii_lower, ascii_lowered, byte_len, decimal, digits_value, is_ascii_letter, is_ascii_text,
    is_white_space, parsed_usize, same_but_case, signed_decimal, trimmed, width,
};
use vstd::arithmetic::power::pow;
use vstd::prelude::*;
use vstd::utf8::{char_is_scalar, encode_scalar, encode_utf8};

verus! {

/// White space is what Unicode gives the property `White_Space`: 25 characters.
pub proof fn lemma_white_space(c: char)
    ensures
        is_white_space(c) <==> set![
            0x9int,
            0xa,
            0xb,
            0xc,
            0xd,
            0x20,
            0x85,
            0xa0,
            0x1680,
            0x2000,
            0x2001,
            0x2002,
            0x2003,
            0x2004,
            0x2005,
            0x2006,
            0x2007,
            0x2008,
            0x2009,
            0x200a,
            0x2028,
            0x2029,
            0x202f,
            0x205f,
            0x3000,
        ].contains(c as int),
{
}

/// What is left of a text when it is trimmed is a part of it with nothing but white space around
/// it, and with none at its own two ends.
pub proof fn lemma_trimmed(s: Seq<char>) -> (ends: (int, int))
    ensures
        0 <= ends.0 <= ends.1 <= s.len(),
        trimmed(s) == s.subrange(ends.0, ends.1),
        forall|i: int| 0 <= i < ends.0 ==> is_white_space(#[trigger] s[i]),
        forall|i: int| ends.1 <= i < s.len() ==> is_white_space(#[trigger] s[i]),
        ends.0 < ends.1 ==> !is_white_space(s[ends.0]) && !is_white_space(s[ends.1 - 1]),
    decreases s.len(),
{
    if s.len() > 0 && is_white_space(s.first()) {
        let inner = s.drop_first();
        let ends = lemma_trimmed(inner);
        assert(inner.subrange(ends.0, ends.1) =~= s.subrange(ends.0 + 1, ends.1 + 1));
        assert forall|i: int| 0 <= i < ends.0 + 1 implies is_white_space(#[trigger] s[i]) by {
            if i > 0 {
                assert(s[i] == inner[i - 1]);
            }
        }
        assert forall|i: int| ends.1 + 1 <= i < s.len() implies is_white_space(#[trigger] s[i]) by {
            assert(s[i] == inner[i - 1]);
        }
        (ends.0 + 1, ends.1 + 1)
    } else if s.len() > 0 && is_white_space(s.last()) {
        let inner = s.drop_last();
        let ends = lemma_trimmed(inner);
        assert(inner.subrange(ends.0, ends.1) =~= s.subrange(ends.0, ends.1));
        assert forall|i: int| 0 <= i < ends.0 implies is_white_space(#[trigger] s[i]) by {
            assert(s[i] == inner[i]);
        }
        assert forall|i: int| ends.1 <= i < s.len() implies is_white_space(#[trigger] s[i]) by {
            if i < inner.len() {
                assert(s[i] == inner[i]);
            }
        }
        ends
    } else {
        assert(s.subrange(0, s.len() as int) =~= s);
        (0, s.len() as int)
    }
}

/// A digit writes its own value.
pub proof fn lemma_one_digit(c: char)
    requires
        '0' <= c <= '9',
    ensures
        digits_value(seq![c]) == c as int - 48,
{
    assert(seq![c].drop_last() =~= Seq::<char>::empty());
    assert(digits_value(seq![c].drop_last()) == 0);
    assert(seq![c].last() == c);
}

/// Digits in front of others count ten times as much for each digit behind them.
pub proof fn lemma_digits_joined(a: Seq<char>, b: Seq<char>)
    ensures
        digits_value(a + b) == digits_value(a) * pow(10, b.len()) + digits_value(b),
    decreases b.len(),
{
    reveal(pow);
    if b.len() == 0 {
        assert(a + b =~= a);
    } else {
        let rest = b.drop_last();
        lemma_digits_joined(a, rest);
        assert((a + b).drop_last() =~= a + rest);
        assert((a + b).last() == b.last());
        let v = digits_value(a) as int;
        let p = pow(10, rest.len());
        assert(pow(10, b.len()) == 10 * p);
        assert((v * p + digits_value(rest)) * 10 == v * (10 * p) + digits_value(rest) * 10)
            by (nonlinear_arith);
    }
}

/// A number is written in digits that are worth the number, without a zero in front.
pub proof fn lemma_number_written(n: nat)
    ensures
        decimal(n).len() > 0,
        forall|i: int| 0 <= i < decimal(n).len() ==> '0' <= #[trigger] decimal(n)[i] <= '9',
        digits_value(decimal(n)) == n,
        decimal(n).len() > 1 ==> decimal(n)[0] != '0',
        n > 0 ==> decimal(n)[0] != '0',
    decreases n,
{
    let s = decimal(n);
    if n < 10 {
        assert(s.drop_last() =~= Seq::<char>::empty());
        assert(digits_value(s.drop_last()) == 0);
    } else {
        lemma_number_written(n / 10);
        assert(s.drop_last() =~= decimal(n / 10));
        assert forall|i: int| 0 <= i < s.len() implies '0' <= #[trigger] s[i] <= '9' by {
            if i < s.len() - 1 {
                assert(s[i] == decimal(n / 10)[i]);
            }
        }
        assert(s[0] == decimal(n / 10)[0]);
    }
}

/// Different numbers are written differently.
pub proof fn lemma_numbers_differ(n: nat, m: nat)
    requires
        decimal(n) == decimal(m),
    ensures
        n == m,
{
    lemma_number_written(n);
    lemma_number_written(m);
}

/// A number with a sign is written as the number is, behind a minus sign if it is below zero.
pub proof fn lemma_signed_number_written(n: int)
    ensures
        n >= 0 ==> signed_decimal(n) == decimal(n as nat),
        n < 0 ==> signed_decimal(n)[0] == '-' && signed_decimal(n).skip(1) == decimal((-n) as nat),
        n < 0 ==> signed_decimal(n).len() == decimal((-n) as nat).len() + 1,
{
    if n < 0 {
        assert(signed_decimal(n).skip(1) =~= decimal((-n) as nat));
    }
}

/// Digits that fit are read as the number that they write, with a plus sign or without.
pub proof fn lemma_number_read(digits: Seq<char>)
    requires
        digits.len() > 0,
        forall|i: int| 0 <= i < digits.len() ==> '0' <= #[trigger] digits[i] <= '9',
        digits_value(digits) <= usize::MAX,
    ensures
        parsed_usize(digits) == Some(digits_value(digits) as usize),
        parsed_usize(seq!['+'] + digits) == Some(digits_value(digits) as usize),
{
    assert(digits[0] != '+');
    assert((seq!['+'] + digits).drop_first() =~= digits);
}

/// Nothing but digits that fit, with a plus sign or without, is read as a number.
pub proof fn lemma_read_as_number(s: Seq<char>) -> (digits: Seq<char>)
    requires
        parsed_usize(s) is Some,
    ensures
        s == digits || s == seq!['+'] + digits,
        digits.len() > 0,
        forall|i: int| 0 <= i < digits.len() ==> '0' <= #[trigger] digits[i] <= '9',
        parsed_usize(s) == Some(digits_value(digits) as usize),
        digits_value(digits) <= usize::MAX,
{
    if s.len() > 0 && s[0] == '+' {
        let digits = s.drop_first();
        assert(s =~= seq!['+'] + digits);
        assert forall|i: int| 0 <= i < digits.len() implies '0' <= #[trigger] digits[i] <= '9' by {
            assert(crate::text::is_digit(digits[i]));
        }
        digits
    } else {
        assert forall|i: int| 0 <= i < s.len() implies '0' <= #[trigger] s[i] <= '9' by {
            assert(crate::text::is_digit(s[i]));
        }
        s
    }
}

/// The 26 ASCII capitals become the small letters 32 places on, and nothing else changes.
pub proof fn lemma_lower(c: char)
    ensures
        65 <= c as int <= 90 ==> ascii_lower(c) as int == c as int + 32,
        !(65 <= c as int <= 90) ==> ascii_lower(c) == c,
        is_ascii_letter(c) <==> 65 <= c as int <= 90 || 97 <= c as int <= 122,
{
}

/// A text is turned into small letters place by place.
pub proof fn lemma_lowered(s: Seq<char>)
    ensures
        ascii_lowered(s).len() == s.len(),
        forall|i: int|
            0 <= i < s.len() ==> #[trigger] ascii_lowered(s)[i] as int == if 65 <= s[i] as int
                <= 90 {
                s[i] as int + 32
            } else {
                s[i] as int
            },
        ascii_lowered(ascii_lowered(s)) == ascii_lowered(s),
{
    assert(ascii_lowered(ascii_lowered(s)) =~= ascii_lowered(s));
}

/// Whether two characters are the same, or the capital and the small form of one ASCII letter.
pub open spec fn one_letter(a: char, b: char) -> bool {
    ||| a == b
    ||| 65 <= a as int <= 90 && b as int == a as int + 32
    ||| 65 <= b as int <= 90 && a as int == b as int + 32
}

/// Two texts are the same but for their case if they are so at every place.
pub proof fn lemma_same_but_case(a: Seq<char>, b: Seq<char>)
    ensures
        same_but_case(a, b) <==> a.len() == b.len() && forall|i: int|
            0 <= i < a.len() ==> one_letter(#[trigger] a[i], b[i]),
{
    lemma_lowered(a);
    lemma_lowered(b);
    if same_but_case(a, b) {
        assert(a.len() == b.len());
        assert forall|i: int| 0 <= i < a.len() implies one_letter(#[trigger] a[i], b[i]) by {
            assert(ascii_lowered(a)[i] == ascii_lowered(b)[i]);
        }
    }
    if a.len() == b.len() && forall|i: int|
        0 <= i < a.len() ==> one_letter(#[trigger] a[i], b[i]) {
        assert forall|i: int| 0 <= i < a.len() implies ascii_lowered(a)[i] == ascii_lowered(
            b,
        )[i] by {
            assert(one_letter(a[i], b[i]));
            assert(ascii_lowered(a)[i] as int == ascii_lowered(b)[i] as int);
        }
        assert(ascii_lowered(a) =~= ascii_lowered(b));
    }
}

/// The length of a text in bytes is that of its UTF-8 encoding.
pub proof fn lemma_byte_len_is_encoded(s: Seq<char>)
    ensures
        byte_len(s) == encode_utf8(s).len(),
    decreases s.len(),
{
    if s.len() > 0 {
        lemma_byte_len_is_encoded(s.drop_first());
        lemma_byte_len_first(s);
        lemma_width_is_encoded(s[0]);
    }
}

/// The width of a character is the length of its UTF-8 encoding.
proof fn lemma_width_is_encoded(c: char)
    ensures
        encode_scalar(c as u32).len() == width(c),
{
    let code = c as u32;
    char_is_scalar(c);
    assert(code as int == c as int);
    assert(c <= '\u{7f}' <==> code <= 0x7f);
    assert(c <= '\u{7ff}' <==> code <= 0x7ff);
    assert(c <= '\u{ffff}' <==> code <= 0xffff);
}

/// The first character adds its width to the length of the rest.
proof fn lemma_byte_len_first(s: Seq<char>)
    requires
        s.len() > 0,
    ensures
        byte_len(s) == width(s[0]) + byte_len(s.drop_first()),
    decreases s.len(),
{
    if s.len() == 1 {
        assert(s.drop_last() =~= Seq::<char>::empty());
        assert(s.drop_first() =~= Seq::<char>::empty());
        assert(byte_len(s.drop_last()) == 0);
    } else {
        lemma_byte_len_first(s.drop_last());
        assert(s.drop_last().drop_first() =~= s.drop_first().drop_last());
        assert(s.drop_first().last() == s.last());
    }
}

/// An ASCII text holds no code from 128 on, and takes as many bytes as it has characters.
pub proof fn lemma_ascii_text(s: Seq<char>)
    ensures
        is_ascii_text(s) <==> forall|i: int| 0 <= i < s.len() ==> (#[trigger] s[i]) as int <= 127,
        is_ascii_text(s) <==> byte_len(s) == s.len(),
    decreases s.len(),
{
    crate::text::lemma_byte_len_bounds(s);
    if s.len() > 0 {
        let before = s.drop_last();
        lemma_ascii_text(before);
        crate::text::lemma_byte_len_bounds(before);
        if byte_len(s) == s.len() {
            assert forall|i: int| 0 <= i < s.len() implies (#[trigger] s[i]) <= '\u{7f}' by {
                if i < before.len() {
                    assert(before[i] == s[i]);
                }
            }
        }
    }
}

}
