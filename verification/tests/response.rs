use wordle::letters::{marks, LetterResult};
use wordle::response::{all_answers, simulate, WordleError};

fn answer(objective: &str, guess: &str) -> String {
    let result = simulate(objective, guess).unwrap();
    assert_eq!(result.guess, guess);
    marks(&result.results)
}

/// Correct letters first, then the letters that are left over from the beginning on.
fn by_hand(objective: &[u8], guess: &[u8]) -> String {
    let mut left: Vec<u8> = Vec::new();
    let mut marks = vec!['b'; guess.len()];
    for i in 0..guess.len() {
        if guess[i] == objective[i] {
            marks[i] = 'g';
        } else {
            left.push(objective[i]);
        }
    }
    for i in 0..guess.len() {
        if marks[i] == 'b' {
            if let Some(at) = left.iter().position(|c| *c == guess[i]) {
                left.remove(at);
                marks[i] = 'y';
            }
        }
    }
    marks.into_iter().collect()
}

#[test]
fn repeated_letters() {
    assert_eq!(answer("mesas", "sassy"), "yygbb");
    assert_eq!(answer("abbey", "babes"), "yyggb");
}

#[test]
fn letters_of_more_than_one_byte() {
    assert_eq!(answer("\u{e4}b", "\u{e4}b"), "gbg");
    assert_eq!(answer("b\u{e4}", "\u{e4}b"), "yby");
}

#[test]
fn every_answer_among_short_words() {
    let mut words = Vec::new();
    for a in *b"abc" {
        for b in *b"abc" {
            for c in *b"abc" {
                for d in *b"abc" {
                    words.push([a, b, c, d]);
                }
            }
        }
    }
    for objective in &words {
        for guess in &words {
            let o = std::str::from_utf8(objective).unwrap();
            let g = std::str::from_utf8(guess).unwrap();
            assert_eq!(answer(o, g), by_hand(objective, guess), "{o} {g}");
        }
    }
}

#[test]
fn only_the_objective_is_all_correct() {
    assert_eq!(answer("crane", "crane"), "ggggg");
    assert_ne!(answer("crane", "brane"), "ggggg");
}

#[test]
fn guesses_of_different_length() {
    assert_eq!(simulate("crane", "cranes").unwrap_err(), WordleError::WordLength(5));
    assert_eq!(simulate("\u{e4}b", "ab").unwrap_err(), WordleError::WordLength(3));
}

#[test]
fn answers_in_order() {
    let all: Vec<String> = all_answers(2).iter().map(|r| marks(r)).collect();
    assert_eq!(all, ["bb", "by", "bg", "yb", "yy", "yg", "gb", "gy", "gg"]);
}

#[test]
fn one_answer_to_an_empty_guess() {
    assert_eq!(all_answers(0), vec![Vec::<LetterResult>::new()]);
}

#[test]
fn every_answer_once() {
    let mut all: Vec<String> = all_answers(5).iter().map(|r| marks(r)).collect();
    assert_eq!(all.len(), 243);
    all.sort();
    all.dedup();
    assert_eq!(all.len(), 243);
    assert!(all.contains(&answer("mesas", "sassy")));
}
