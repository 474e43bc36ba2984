use wordle::letters::LetterResult::{self, Correct, NotPresent, PresentNotHere};
use wordle::letters::{marks, parse_outcome, result_of, Outcome};
use wordle::text::{
    ascii_text, byte_length, chars_of, lower, lower_char, parse_usize, push_decimal,
    push_signed_decimal, same_chars, string_of, trim, white_space,
};

#[test]
fn white_space_is_that_of_unicode() {
    for code in 0..=0x10ffff_u32 {
        if let Some(c) = char::from_u32(code) {
            assert_eq!(white_space(c), c.is_whitespace(), "{code:x}");
        }
    }
}

#[test]
fn trim_takes_white_space_off_both_ends() {
    for text in ["", " ", "a", " a b \t\n", "\u{a0}x\u{3000}", "no", "\r\n", "x \u{200b} "] {
        assert_eq!(string_of(&trim(&chars_of(text))), text.trim());
    }
}

#[test]
fn numbers_are_read_as_str_parse_reads_them() {
    for text in [
        "", "+", "-", "0", "-0", "007", "+5", "++5", "12a", " 1", "1_000", "\u{661}",
        "18446744073709551615", "18446744073709551616", "99999999999999999999999",
    ] {
        assert_eq!(parse_usize(&chars_of(text)), text.parse::<usize>().ok(), "{text}");
    }
}

#[test]
fn numbers_are_written_as_format_writes_them() {
    for n in [0, 7, 10, 99, 100, 1234567890, u64::MAX] {
        let mut s = String::from("n=");
        push_decimal(&mut s, n);
        assert_eq!(s, format!("n={n}"));
    }
    for n in [0, -1, 42, -1000, i64::MAX, i64::MIN] {
        let mut s = String::new();
        push_signed_decimal(&mut s, n);
        assert_eq!(s, n.to_string());
    }
}

#[test]
fn written_numbers_are_read_back() {
    for n in [0_usize, 1, 9, 10, 11, 4096, usize::MAX] {
        let mut s = String::new();
        push_decimal(&mut s, n as u64);
        assert_eq!(parse_usize(&chars_of(&s)), Some(n));
    }
}

#[test]
fn only_ascii_capitals_are_lowered() {
    assert_eq!(string_of(&lower(&chars_of("AbZ\u{c4}1"))), "abz\u{c4}1");
    assert_eq!(lower_char('Q'), 'q');
    assert_eq!(lower_char('['), '[');
}

#[test]
fn bytes_are_counted_as_str_len_counts_them() {
    for text in ["", "abc", "\u{e4}b", "\u{20ac}", "\u{1f600}x"] {
        assert_eq!(byte_length(&chars_of(text)), text.len() as u128);
        assert_eq!(ascii_text(&chars_of(text)), text.is_ascii());
    }
}

#[test]
fn same_characters() {
    assert!(same_chars(&chars_of("abc"), &chars_of("abc")));
    assert!(!same_chars(&chars_of("abc"), &chars_of("abd")));
    assert!(!same_chars(&chars_of("abc"), &chars_of("ab")));
}

#[test]
fn outcomes_in_either_case() {
    assert_eq!(
        parse_outcome("bYgBy\n", 5),
        Outcome::Results(vec![NotPresent, PresentNotHere, Correct, NotPresent, PresentNotHere]),
    );
}

#[test]
fn outcome_beyond_the_word_is_not_read() {
    assert_eq!(parse_outcome("ggx\n", 2), Outcome::Results(vec![LetterResult::Correct; 2]));
}

#[test]
fn outcome_too_short_holds_the_line_end() {
    assert_eq!(parse_outcome("gg\n", 5), Outcome::Unreadable);
    assert_eq!(parse_outcome("\n", 5), Outcome::Unreadable);
}

#[test]
fn outcome_too_short_at_the_end_of_input_is_read() {
    assert_eq!(parse_outcome("gg", 5), Outcome::Results(vec![LetterResult::Correct; 2]));
    assert_eq!(parse_outcome("", 5), Outcome::EndOfInput);
}

#[test]
fn outcome_with_another_letter() {
    assert_eq!(parse_outcome("ggrgg\n", 5), Outcome::Unreadable);
    assert_eq!(result_of('r'), None);
}

#[test]
fn marks_are_read_back() {
    let results = vec![PresentNotHere, NotPresent, Correct];
    assert_eq!(marks(&results), "ybg");
    assert_eq!(parse_outcome(&(marks(&results) + " and so on\n"), 3), Outcome::Results(results));
}
