use rs_wordle_solver::WordBank;
use wordle::bank::{
    bank_holds, bank_holds_but_case, bank_is_ascii, bank_of, read_bank, word_bank, words,
};
use wordle::entry::{interpret, parse_more, Entry};
use wordle::response::WordleError;
use wordle::text::chars_of;

fn listed(bank: &WordBank) -> Vec<&str> {
    bank.iter().map(|w| &**w).collect()
}

fn strings(words: &[&str]) -> Vec<String> {
    words.iter().map(|w| w.to_string()).collect()
}

fn bank(words: &[&str]) -> WordBank {
    bank_of(&strings(words)).unwrap()
}

#[test]
fn words_of_a_text() {
    assert_eq!(words("dog\ncat\n\nbat\ncat"), ["bat", "cat", "cat", "dog"]);
    assert_eq!(words("\n\n"), Vec::<String>::new());
    assert_eq!(words("b \na"), ["a", "b "]);
    assert_eq!(
        words("\u{1f600}\n\u{e4}\nz\nA\nab\na"),
        ["A", "a", "ab", "z", "\u{e4}", "\u{1f600}"],
    );
}

#[test]
fn order_of_lines_makes_no_difference() {
    assert_eq!(words("dog\ncat\nbat"), words("bat\n\ndog\ncat\n"));
    assert_eq!(word_bank("dog\ncat").unwrap(), word_bank("cat\ndog\n").unwrap());
}

#[test]
fn bank_of_a_text() {
    assert_eq!(listed(&word_bank("dog\nCat \n\nbat").unwrap()), ["cat", "bat", "dog"]);
}

#[test]
fn words_of_a_bank_are_normal() {
    assert_eq!(listed(&bank(&[" CRANE\t", "", "  ", "brane"])), ["crane", "brane"]);
    assert_eq!(listed(&bank(&["\u{c4}B"])), ["\u{e4}b"]);
    assert_eq!(listed(&bank(&[])), Vec::<&str>::new());
}

#[test]
fn words_of_different_length() {
    assert_eq!(
        bank_of(&strings(&["crane", "brane", "cat"])).unwrap_err(),
        WordleError::WordLength(5),
    );
    assert_eq!(bank_of(&strings(&["\u{e4}b", "ab"])).unwrap_err(), WordleError::WordLength(3));
    assert_eq!(word_bank("crane\ncat").unwrap_err(), WordleError::WordLength(3) );
}

#[test]
fn bank_of_a_file() {
    assert_eq!(listed(&read_bank(b"dog\r\nCat\n\nbat").unwrap()), ["dog", "cat", "bat"]);
    assert_eq!(listed(&read_bank(b"").unwrap()), Vec::<&str>::new());
}

#[test]
fn file_with_words_of_different_length() {
    assert_eq!(read_bank(b"crane\ncat\n\xff").unwrap_err(), WordleError::WordLength(5));
}

#[test]
fn file_that_is_no_text() {
    assert!(matches!(read_bank(b"crane\n\xff\ncat").unwrap_err(), WordleError::IoError(_)));
}

#[test]
fn words_in_a_bank() {
    let bank = bank(&["crane", "brane"]);
    assert!(bank_holds(&bank, &chars_of("brane")));
    assert!(!bank_holds(&bank, &chars_of("Brane")));
    assert!(bank_holds_but_case(&bank, &chars_of("BRANE")));
    assert!(!bank_holds_but_case(&bank, &chars_of("drane")));
    assert!(bank_is_ascii(&bank));
    assert!(!bank_is_ascii(&bank_of(&strings(&["\u{e4}b", "abc"])).unwrap()));
}

#[test]
fn entries() {
    let bank = bank(&["crane", "brane"]);
    let read = |line: &str| interpret(line, 5, 4, &bank);
    assert_eq!(read(""), Entry::EndOfInput);
    assert_eq!(read("\n"), Entry::Nothing);
    assert_eq!(read(" 3\n"), Entry::Index(3));
    assert_eq!(read("+4"), Entry::Index(4));
    assert_eq!(read("0\n"), Entry::Index(0));
    assert_eq!(read("5\n"), Entry::Nothing);
    assert_eq!(read("crane\n"), Entry::Word("crane".to_string()));
    assert_eq!(read("CraNE\r\n"), Entry::Word("CraNE".to_string()));
    assert_eq!(read("drane\n"), Entry::Nothing);
    assert_eq!(read("cran\n"), Entry::Nothing);
    assert_eq!(read("!more 12\n"), Entry::More(12));
    assert_eq!(read("!more\n"), Entry::Nothing);
    assert_eq!(read("!more  12\n"), Entry::Nothing);
    assert_eq!(read("!less 12\n"), Entry::Nothing);
}

#[test]
fn requests_for_more() {
    assert_eq!(parse_more(&chars_of("!more 0")), Some(0));
    assert_eq!(parse_more(&chars_of("!more +3")), Some(3));
    assert_eq!(parse_more(&chars_of("more 3")), None);
    assert_eq!(parse_more(&chars_of("!more 3 4")), None);
    assert_eq!(parse_more(&chars_of("! more 3")), None);
}

#[test]
fn words_are_typed_in_either_case() {
    let bank = bank(&["crane", "brane"]);
    for typed in ["crane", "CRANE", "cRaNe"] {
        assert_eq!(interpret(&format!("{typed}\n"), 5, 4, &bank), Entry::Word(typed.to_string()));
    }
}
