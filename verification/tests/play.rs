use rs_wordle_solver::WordBank;
use wordle::bank::bank_of;
use wordle::dispatch::GuesserDispatch;
use wordle::entry::Entry;
use wordle::guesser::{fits_turn, GuessFrom};
use wordle::letters::{parse_outcome, GuessResult, LetterResult, Outcome};
use wordle::play::{Game, Reply};
use wordle::report::{
    end_line, end_of_rounds, listing, phase_line, rest_note, rounds_line, time_report, Verdict,
};
use wordle::response::{simulate, WordleError};
use wordle::text::chars_of;

fn bank(words: &[&str]) -> WordBank {
    bank_of(&words.iter().map(|w| w.to_string()).collect()).unwrap()
}

fn results(marks: &str) -> Vec<LetterResult> {
    match parse_outcome(marks, marks.len()) {
        Outcome::Results(results) => results,
        other => panic!("{other:?}"),
    }
}

fn possible(guesser: &GuesserDispatch) -> Vec<&str> {
    let mut words: Vec<&str> = guesser.possible_words().iter().map(|w| &**w).collect();
    words.sort();
    words
}

/// Different words of two letters.
fn many(n: usize) -> WordBank {
    let mut words = Vec::new();
    for a in 'a'..='z' {
        for b in 'a'..='z' {
            words.push(format!("{a}{b}"));
        }
    }
    words.truncate(n);
    bank_of(&words).unwrap()
}

#[test]
fn best_guesses_first() {
    for thorough in [false, true] {
        let bank = bank(&["doily", "crane", "brane"]);
        let mut guesser = GuesserDispatch::new(&bank, thorough);
        assert!(guesser.can_score(&bank));
        let guesses = guesser.select_top_n_guesses(10);
        let shown: Vec<(&str, i64)> = guesses.iter().map(|g| (g.guess.as_str(), g.score)).collect();
        assert_eq!(shown, [("crane", 2000), ("brane", 2000), ("doily", 1333)]);
        assert_eq!(guesser.select_top_n_guesses(1).len(), 1);
        assert_eq!(guesser.select_next_guess().as_deref(), Some("crane"));
    }
}

#[test]
fn thorough_scores_look_further() {
    let bank = many(257);
    let mut cheap = GuesserDispatch::new(&bank, false);
    let mut thorough = GuesserDispatch::new(&bank, true);
    let first_cheap = &cheap.select_top_n_guesses(1)[0];
    let first_thorough = &thorough.select_top_n_guesses(1)[0];
    assert!(first_thorough.score > first_cheap.score);
    let fewer = many(256);
    let mut cheap = GuesserDispatch::new(&fewer, false);
    let mut thorough = GuesserDispatch::new(&fewer, true);
    assert_eq!(cheap.select_top_n_guesses(9), thorough.select_top_n_guesses(9));
}

#[test]
fn guesses_are_chosen_from_a_set() {
    let bank = bank(&["aaaab", "aaaac", "aaaad", "bcdef"]);
    let mut guesser = GuesserDispatch::new(&bank, false);
    guesser.update(&GuessResult { guess: "zzzzz", results: results("bbbbb") }).unwrap();
    assert_eq!(
        guesser.select_next_guess_from(GuessFrom::AllUnguessedWords).as_deref(),
        Some("bcdef"),
    );
    guesser.update(&GuessResult { guess: "aaaaz", results: results("ggggb") }).unwrap();
    assert_eq!(possible(&guesser), ["aaaab", "aaaac", "aaaad"]);
    assert_eq!(
        guesser.select_next_guess_from(GuessFrom::AllUnguessedWords).as_deref(),
        Some("bcdef"),
    );
    let chosen = guesser.select_next_guess_from(GuessFrom::PossibleWords).unwrap();
    assert!(chosen.starts_with("aaaa"));
}

#[test]
fn no_guess_in_an_empty_bank() {
    let bank = bank(&[]);
    let mut guesser = GuesserDispatch::new(&bank, true);
    assert_eq!(guesser.select_next_guess(), None);
    assert_eq!(guesser.select_next_guess_from(GuessFrom::PossibleWords), None);
    assert_eq!(guesser.select_top_n_guesses(3), vec![]);
}

#[test]
fn turns_rule_words_out() {
    for thorough in [false, true] {
        let bank = bank(&["crane", "brane", "doily", "crank"]);
        let mut guesser = GuesserDispatch::new(&bank, thorough);
        let told = guesser.update(&GuessResult { guess: "crank", results: results("ggggb") });
        assert_eq!(told, Ok(()));
        assert_eq!(possible(&guesser), ["crane"]);
    }
}

#[test]
fn contradictions_are_found() {
    for thorough in [false, true] {
        let bank = bank(&["crane", "brane", "doily"]);
        let mut guesser = GuesserDispatch::new(&bank, thorough);
        guesser.update(&GuessResult { guess: "crane", results: results("bbbbb") }).unwrap();
        assert_eq!(possible(&guesser), ["doily"]);
        let told = guesser.update(&GuessResult { guess: "crane", results: results("ggggg") });
        assert_eq!(told, Err(WordleError::InvalidResults));
        assert_eq!(possible(&guesser), ["doily"]);
    }
}

#[test]
fn turns_that_can_be_told() {
    assert!(fits_turn(5, &chars_of("crane"), 5));
    assert!(fits_turn(5, &chars_of("crane"), 2));
    assert!(!fits_turn(5, &chars_of("eerie"), 2));
    assert!(fits_turn(5, &chars_of("eerie"), 0));
    assert!(!fits_turn(5, &chars_of("cranes"), 5));
    assert!(!fits_turn(256, &chars_of("crane"), 5));
}

#[test]
fn words_that_cannot_be_scored() {
    let long = bank(&["abcdefghijklmnopq"]);
    assert!(!GuesserDispatch::new(&long, false).can_score(&long));
    let mut words: Vec<String> = many(257).iter().map(|w| format!("{w}c")).collect();
    words.push("\u{e4}b".to_string());
    let mixed = bank_of(&words).unwrap();
    assert!(GuesserDispatch::new(&mixed, false).can_score(&mixed));
    assert!(!GuesserDispatch::new(&mixed, true).can_score(&mixed));
}

#[test]
fn a_game_is_solved() {
    let mut game = Game::new(bank(&["doily", "crane", "brane"]), false, 1, 2);
    assert!(game.is_running() && game.can_score());
    assert_eq!(game.phase(), "first guess");
    assert_eq!(game.begin_round(), ["1. crane (2000)"]);
    let entry = game.read_guess("!more 1\n");
    assert!(game.can_take(&entry));
    // The list goes on behind the number for later rounds, from the first round on.
    assert_eq!(game.take(entry), Reply::Listed(vec!["3. doily (1333)".to_string()]));
    assert_eq!(game.take(Entry::Nothing), Reply::Again);
    assert!(!game.can_take(&game.read_guess("2\n")));
    let entry = game.read_guess("1\n");
    assert!(game.can_take(&entry));
    assert_eq!(game.take(entry), Reply::Chosen("crane".to_string()));
    let outcome = game.read_outcome("bgggg\n");
    assert_eq!(outcome, Outcome::Results(results("bgggg")));
    assert!(game.can_tell(&results("bgggg")));
    assert_eq!(game.tell(results("bgggg")), Ok(()));
    assert!(!game.is_running());
    assert_eq!(game.phase(), "next guess");
    assert_eq!(game.verdict(), Verdict::Solved("brane".to_string()));
    assert_eq!(end_line(&game.verdict()), "the game is solved: brane");
}

#[test]
fn more_goes_on_where_the_list_ends() {
    let mut game = Game::new(bank(&["doily", "crane", "brane"]), true, 2, 2);
    assert_eq!(game.begin_round(), ["1. crane (2000)", "2. brane (2000)"]);
    assert_eq!(game.take(Entry::More(7)), Reply::Listed(vec!["3. doily (1333)".to_string()]));
    assert_eq!(game.take(Entry::More(7)), Reply::Listed(vec![]));
}

#[test]
fn a_later_round() {
    let mut game = Game::new(bank(&["aaaab", "aaaac", "aaaad", "bcdef"]), false, 1, 10);
    assert_eq!(game.begin_round().len(), 1);
    assert_eq!(game.take(Entry::Word("AAAAZ".to_string())), Reply::Chosen("AAAAZ".to_string()));
    assert_eq!(game.tell(results("bbbbb")), Ok(()));
    assert!(game.is_running());
    assert_eq!(game.begin_round().len(), 4);
    assert_eq!(game.take(Entry::EndOfInput), Reply::Quit);
}

#[test]
fn a_game_is_inconsistent() {
    let mut game = Game::new(bank(&["doily", "crane", "brane"]), false, 1, 2);
    game.begin_round();
    game.take(Entry::Index(1));
    assert_eq!(game.tell(results("ggggb")), Ok(()));
    assert_eq!(game.verdict(), Verdict::Inconsistent);
    assert_eq!(end_line(&game.verdict()), "game is inconsistent :(");
}

#[test]
fn entries_that_cannot_be_taken() {
    let mut game = Game::new(bank(&["doily", "crane", "brane"]), false, 3, 2);
    game.begin_round();
    assert!(!game.can_take(&Entry::Index(0)));
    assert!(game.can_take(&Entry::Index(3)));
    assert!(!game.can_take(&Entry::Index(4)));
    assert!(!game.can_take(&Entry::More(usize::MAX)));
    assert!(game.can_take(&Entry::More(usize::MAX - 2)));
    assert_eq!(game.read_guess("5\n"), Entry::Nothing);
}

#[test]
fn results_that_cannot_be_told() {
    let mut game = Game::new(bank(&["eerie", "crane", "brane"]), false, 3, 2);
    game.begin_round();
    game.take(Entry::Word("eerie".to_string()));
    assert!(game.can_tell(&results("bbbbb")));
    assert!(!game.can_tell(&results("bb")));
}

#[test]
fn reports() {
    assert_eq!(time_report("init", 61, 0), "init in 1m 1s");
    assert_eq!(time_report("updated state", 0, 1_500_000), "updated state in 1ms 500us");
    assert_eq!(phase_line("next guess", "2s"), "next guess in 2s");
    assert_eq!(rest_note(7, 3).as_deref(), Some("and 4 more..."));
    assert_eq!(rest_note(3, 3).as_deref(), Some("and 0 more..."));
    assert_eq!(rest_note(2, 3), None);
    assert_eq!(listing(&vec![], 0), Vec::<String>::new());
}

#[test]
fn rounds_are_counted() {
    let solved = Verdict::Solved("crane".to_string());
    assert_eq!(end_of_rounds(&solved, 1), "the game is solved in 1 round: crane");
    assert_eq!(end_of_rounds(&solved, 4), "the game is solved in 4 rounds: crane");
    assert_eq!(end_of_rounds(&Verdict::Inconsistent, 4), "game is inconsistent :(");
    assert_eq!(rounds_line(&solved, "no time"), "the game is solved in no time: crane");
}

#[test]
fn possible_words_are_those_that_answer_alike() {
    let mut words = Vec::new();
    for a in 'a'..='c' {
        for b in 'a'..='c' {
            for c in 'a'..='c' {
                words.push(format!("{a}{b}{c}"));
            }
        }
    }
    let bank = bank_of(&words).unwrap();
    let answers: Vec<Vec<Vec<LetterResult>>> = words
        .iter()
        .map(|o| words.iter().map(|g| simulate(o, g).unwrap().results).collect())
        .collect();
    for target in 0..words.len() {
        for first in 0..words.len() {
            for second in 0..words.len() {
                let mut guesser = GuesserDispatch::new(&bank, (first + second) % 2 == 0);
                let mut left: Vec<usize> = (0..words.len()).collect();
                for guess in [first, second] {
                    let results = answers[target][guess].clone();
                    left.retain(|w| answers[*w][guess] == results);
                    let told = guesser.update(&GuessResult { guess: &words[guess], results });
                    assert_eq!(told, Ok(()));
                    let expected: Vec<&str> = left.iter().map(|w| words[*w].as_str()).collect();
                    assert_eq!(possible(&guesser), expected);
                }
            }
        }
    }
}

#[test]
fn a_game_ends_with_the_target() {
    let words = ["abaca", "bacab", "cabba", "abcba", "accca"];
    for target in words {
        for first in words {
            let bank = bank(&words);
            let mut guesser = GuesserDispatch::new(&bank, true);
            for guess in [first, target] {
                let results = simulate(target, guess).unwrap().results;
                guesser.update(&GuessResult { guess, results }).unwrap();
            }
            assert_eq!(possible(&guesser), [target]);
        }
    }
}

#[test]
fn equal_guessers_reply_alike() {
    for thorough in [false, true] {
        let bank = bank(&["crane", "brane", "doily", "drane"]);
        let mut a = GuesserDispatch::new(&bank, thorough);
        let mut b = GuesserDispatch::new(&bank, thorough);
        assert_eq!(a.select_top_n_guesses(3), b.select_top_n_guesses(3));
        assert_eq!(a.select_next_guess(), b.select_next_guess());
        let turn = GuessResult { guess: "doily", results: results("bbbbb") };
        assert_eq!(a.update(&turn), b.update(&turn));
        assert_eq!(possible(&a), possible(&b));
        let from = GuessFrom::AllUnguessedWords;
        assert_eq!(a.select_next_guess_from(from), b.select_next_guess_from(from));
        let turn = GuessResult { guess: "doily", results: results("ggggg") };
        assert_eq!(a.update(&turn), Err(WordleError::InvalidResults));
        assert_eq!(b.update(&turn), Err(WordleError::InvalidResults));
    }
}

#[test]
fn the_kind_of_a_guesser_stays() {
    let bank = bank(&["crane", "brane", "doily"]);
    let mut guesser = GuesserDispatch::new(&bank, true);
    guesser.select_top_n_guesses(1);
    guesser.update(&GuessResult { guess: "crane", results: results("bbbbb") }).unwrap();
    assert!(matches!(guesser, GuesserDispatch::Thorough(_)));
    assert!(matches!(GuesserDispatch::new(&bank, false), GuesserDispatch::Cheap(_)));
}

#[test]
fn the_first_of_the_best_is_chosen() {
    let bank = bank(&["doily", "brane", "crane"]);
    let mut guesser = GuesserDispatch::new(&bank, false);
    let listed = guesser.select_top_n_guesses(3);
    assert_eq!(listed[0].guess, "brane");
    assert_eq!(listed[0].score, listed[1].score);
    assert_eq!(guesser.select_next_guess().as_deref(), Some("brane"));
    let chosen = guesser.select_next_guess_from(GuessFrom::PossibleWords);
    assert_eq!(chosen.as_deref(), Some("brane"));
}
