use rs_wordle_solver::WordBank;
use wordle::bake::{record, store_due, unbaked, BakeTarget, Baker, Work};
use wordle::bank::bank_of;
use wordle::entry::Entry;
use wordle::letters::{marks, parse_outcome, LetterResult, Outcome};
use wordle::play::Reply;
use wordle::response::{all_answers, WordleError};
use wordle::scores::{load_scores, pair_scores, MISSING};
use wordle::solve::{can_solve, score_path, simulation_target, Next, Solver};

const WORDS: [&str; 3] = ["doily", "crane", "brane"];

fn strings(words: &[&str]) -> Vec<String> {
    words.iter().map(|w| w.to_string()).collect()
}

fn bank(words: &[&str]) -> WordBank {
    bank_of(&strings(words)).unwrap()
}

fn results(marks: &str) -> Vec<LetterResult> {
    match parse_outcome(marks, marks.len()) {
        Outcome::Results(results) => results,
        other => panic!("{other:?}"),
    }
}

fn solver(stored: &[i64], first_n: usize, next_n: usize) -> Solver {
    let scores = load_scores(&strings(&WORDS), &stored.to_vec());
    Solver::new(bank(&WORDS), &scores, first_n, next_n)
}

#[test]
fn stored_scores_are_paired_with_words() {
    let pairs = load_scores(&strings(&WORDS), &vec![5, MISSING, 7, 9]);
    assert_eq!(
        pairs,
        [
            ("doily".to_string(), 5),
            ("crane".to_string(), i64::MIN + 1),
            ("brane".to_string(), 7),
        ],
    );
    assert_eq!(load_scores(&strings(&WORDS), &vec![5]), [("doily".to_string(), 5)]);
    assert_eq!(pair_scores(&strings(&["a"]), &vec![MISSING, 2]), [("a".to_string(), i64::MIN)]);
}

#[test]
fn paths_of_scores() {
    assert_eq!(score_path("/0"), "/0/score");
    assert_eq!(score_path("/bygbb"), "/bygbb/score");
}

#[test]
fn words_that_can_be_solved() {
    assert!(can_solve(&bank(&WORDS)));
    assert!(!can_solve(&bank(&["abcdefghijklmnopq"])));
    let mut words: Vec<String> = (100..400).map(|n| n.to_string()).collect();
    assert!(can_solve(&bank_of(&words).unwrap()));
    words.push("\u{e4}b".to_string());
    assert!(!can_solve(&bank_of(&words).unwrap()));
}

#[test]
fn targets_of_a_simulation() {
    let bank = bank(&WORDS);
    assert_eq!(simulation_target("CRAne", &bank).as_deref(), Some("crane"));
    assert_eq!(simulation_target("drane", &bank), None);
}

#[test]
fn a_round_opens_with_baked_scores() {
    let mut solver = solver(&[5, MISSING, 7], 1, 10);
    assert!(solver.is_running());
    assert_eq!(solver.bake_path, "/0");
    assert_eq!(solver.phase(), "first guess");
    let opening = solver.begin_round().unwrap();
    assert_eq!(opening.lines, ["1. brane (7)"]);
    assert_eq!(opening.rest.as_deref(), Some("and 2 more..."));
    assert_eq!(solver.bake_path, "");
    assert_eq!(solver.prompt(), "round 1, enter your guess (word or index) or !more <x>: ");
    assert_eq!(
        solver.take(Entry::More(2)),
        Reply::Listed(strings(&["2. doily (5)", "3. crane (-9223372036854775807)"])),
    );
    assert_eq!(solver.read_guess("3\n"), Entry::Index(3));
    assert_eq!(solver.take(Entry::Index(3)), Reply::Chosen("crane".to_string()));
    assert_eq!(solver.best, "brane");
}

#[test]
fn words_without_a_score_are_scored() {
    let scores = load_scores(&strings(&["doily"]), &vec![1_000_000]);
    let mut solver = Solver::new(bank(&WORDS), &scores, 3, 3);
    assert_eq!(
        solver.begin_round().unwrap().lines,
        ["1. doily (1000000)", "2. crane (2000)", "3. brane (2000)"],
    );
}

#[test]
fn no_round_without_guesses() {
    assert!(solver(&[5, 6, 7], 0, 10).begin_round().is_none());
}

#[test]
fn entries_that_a_solver_cannot_take() {
    let mut solver = solver(&[5, 6, 7], 5, 10);
    solver.begin_round().unwrap();
    assert_eq!(solver.read_guess("4\n"), Entry::Index(4));
    assert!(!solver.can_take(&Entry::Index(4)));
    assert!(!solver.can_take(&Entry::Index(0)));
    assert!(solver.can_take(&Entry::Index(3)));
    assert!(!solver.can_take(&Entry::More(usize::MAX)));
    assert_eq!(solver.take(Entry::Nothing), Reply::Again);
    assert_eq!(solver.take(Entry::EndOfInput), Reply::Quit);
}

#[test]
fn a_simulated_game() {
    let mut solver = solver(&[9, 6, 7], 1, 10);
    let target = simulation_target("Crane", &solver.bank).unwrap();
    solver.begin_round().unwrap();
    solver.take(Entry::Index(1));
    let answer = solver.simulated(&target).unwrap();
    assert_eq!(marks(&answer), "bbbbb");
    assert!(solver.can_tell(&answer));
    assert_eq!(solver.tell(answer), Ok(Next::Load("/bbbbb".to_string())));
    assert!(solver.is_running());
    assert_eq!(solver.phase(), "next guess");

    let scores = load_scores(&strings(&WORDS), &vec![1, 2, 3]);
    let mut solver = solver.use_scores(&scores);
    assert_eq!(solver.begin_round().unwrap().lines, ["1. brane (3)", "2. crane (2)"]);
    assert_eq!(solver.bake_path, "/bbbbb");
    assert_eq!(solver.prompt(), "round 2, enter your guess (word or index) or !more <x>: ");
    solver.take(Entry::Word("crane".to_string()));
    let answer = solver.simulated(&target).unwrap();
    assert_eq!(answer, results("ggggg"));
    assert_eq!(solver.tell(answer), Ok(Next::Finished));
    assert!(!solver.is_running());
    assert_eq!(solver.end_line(), "the game is solved in 3 rounds: crane");
}

#[test]
fn the_baked_states_are_left() {
    let mut solver = solver(&[9, 6, 7], 3, 10);
    solver.begin_round().unwrap();
    solver.take(Entry::Word("zzzzz".to_string()));
    assert_eq!(solver.tell(results("bbbbb")), Ok(Next::Unbaked));
    assert_eq!(solver.bake_path, "");
}

#[test]
fn a_simulated_guess_of_another_length() {
    let mut solver = solver(&[9, 6, 7], 3, 10);
    solver.begin_round().unwrap();
    solver.take(Entry::Word("cranes".to_string()));
    assert_eq!(solver.simulated("crane"), Err(WordleError::WordLength(5)));
    assert!(!solver.can_tell(&results("bbbbb")));
}

#[test]
fn a_solver_finds_a_contradiction() {
    let mut solver = solver(&[9, 6, 7], 3, 10);
    solver.begin_round().unwrap();
    solver.take(Entry::Word("zzzzz".to_string()));
    solver.tell(results("bbbbb")).unwrap();
    solver.begin_round().unwrap();
    solver.take(Entry::Word("zzzzz".to_string()));
    assert_eq!(solver.tell(results("ggggg")), Err(WordleError::InvalidResults));
}

#[test]
fn a_solver_without_a_possible_word() {
    let mut solver = solver(&[9, 6, 7], 3, 10);
    solver.begin_round().unwrap();
    solver.take(Entry::Word("crane".to_string()));
    assert_eq!(solver.read_outcome("ggggb\n"), Outcome::Results(results("ggggb")));
    assert_eq!(solver.tell(results("ggggb")), Ok(Next::Finished));
    assert_eq!(solver.end_line(), "game is inconsistent :(");
}

#[test]
fn states_have_names_and_keys() {
    let baker = Baker::new(bank(&WORDS));
    let base = BakeTarget::BaseState;
    assert_eq!(base.ident().to_string(), "0");
    assert_eq!(base.score_key(), score_path("/0"));
    assert_eq!(base.creating_note(), "creating array /0/score");
    let after_results = results("bygbb");
    let after = BakeTarget::AfterResponse(&baker, &after_results);
    assert_eq!(after.ident().to_string(), "bygbb");
    assert_eq!(after.score_key(), "/bygbb/score");
    assert_eq!(after.progress_note(10, 4), "baked 6/10 for bygbb; baking 4 more...");
    assert_eq!(after.done_note(), "baked scores done for state bygbb");
    assert_eq!(after.already_note(), "bygbb was already baked");
}

#[test]
fn a_game_finds_the_scores_that_were_baked() {
    let mut solver = solver(&[9, 6, 7], 1, 10);
    let baker = Baker::new(bank(&WORDS));
    assert_eq!(score_path(&solver.bake_path), BakeTarget::BaseState.score_key());
    solver.begin_round().unwrap();
    solver.take(Entry::Index(1));
    let told = results("bbbbb");
    match solver.tell(told.clone()) {
        Ok(Next::Load(path)) => {
            assert_eq!(score_path(&path), BakeTarget::AfterResponse(&baker, &told).score_key());
        }
        other => panic!("{other:?}"),
    }
}

#[test]
fn keys_differ() {
    let baker = Baker::new(bank(&WORDS));
    let mut keys: Vec<String> = all_answers(3)
        .iter()
        .map(|r| BakeTarget::AfterResponse(&baker, r).score_key())
        .collect();
    keys.push(BakeTarget::BaseState.score_key());
    keys.sort();
    keys.dedup();
    assert_eq!(keys.len(), 28);
}

#[test]
fn words_are_scored() {
    let baker = Baker::new(bank(&WORDS));
    assert!(baker.can_score("crane"));
    assert_eq!(baker.score_word("crane"), 2000);
    assert_eq!(baker.score_word("doily"), 1333);
    assert_eq!(baker.score_word("zzzzz"), 0);
    assert!(!baker.can_score("cranes"));
}

#[test]
fn words_are_scored_two_guesses_ahead() {
    let words: Vec<String> = (100..357).map(|n| n.to_string()).collect();
    let bank = bank_of(&words).unwrap();
    let baker = Baker::new(bank);
    assert!(!baker.can_score("\u{e4}b"));
    // One guess cannot rule out more than all words but those that share its result.
    let share = |guess: &str| {
        let mut eliminated = 0_u64;
        for objective in &words {
            let result = wordle::response::simulate(objective, guess).unwrap().results;
            eliminated += words
                .iter()
                .filter(|w| wordle::response::simulate(w, guess).unwrap().results != result)
                .count() as u64;
        }
        (eliminated as f64 / words.len() as f64 * 1000.0) as i64
    };
    assert!(baker.score_word("123") > share("123"));
}

#[test]
fn an_ascii_word_is_scored_among_others() {
    let mut words: Vec<String> = (100..357).map(|n| n.to_string()).collect();
    words.push("\u{e4}1".to_string());
    words.push("1\u{e4}".to_string());
    let baker = Baker::new(bank_of(&words).unwrap());
    assert!(baker.can_score("121") && !baker.can_score("\u{e4}1"));
    assert!(baker.score_word("121") > 0);
    assert!(baker.score_word("111") > 0);
}

#[test]
fn the_base_state() {
    let bank = bank(&WORDS);
    let response = BakeTarget::BaseState.state(&bank).unwrap();
    assert!(!response.inconsistent);
    assert_eq!(response.state.score_word("crane"), 2000);
}

#[test]
fn a_state_after_results() {
    let bank = bank(&["crane", "brane", "drane", "doily"]);
    let base = Baker::new(bank.clone());
    let told = results("bgggg");
    let response = BakeTarget::AfterResponse(&base, &told).state(&bank).unwrap();
    assert!(!response.inconsistent);
    // Two words are left, and each guess that tells them apart is worth one of them.
    assert_eq!(response.state.score_word("drane"), 1000);
    assert_eq!(response.state.score_word("doily"), 1000);
    assert_eq!(response.state.score_word("crane"), 0);
    // The state that it came from is as it was.
    assert_eq!(base.score_word("crane"), Baker::new(bank).score_word("crane"));
}

#[test]
fn a_state_after_the_best_guess_by_scores() {
    let bank = bank(&WORDS);
    let scores = pair_scores(&strings(&WORDS), &vec![9, 1, 2]);
    let base = Baker::new(bank).with_scores(&scores);
    let response = base.after_response(&results("bbbbb")).unwrap();
    // The best guess was the first word, which leaves the two others.
    assert_eq!(response.state.score_word("crane"), 1000);
    assert_eq!(response.state.score_word("zzzzz"), 0);
}

#[test]
fn an_inconsistent_state() {
    let bank = bank(&["aaaaa"]);
    let base = Baker::new(bank);
    let response = base.after_response(&results("yyyyy")).unwrap();
    assert!(response.inconsistent);
}

#[test]
fn no_state_without_a_guess() {
    let bank = bank(&[]);
    let base = Baker::new(bank);
    assert!(base.after_response(&[]).is_none());
}

#[test]
fn words_left_to_bake() {
    let words = strings(&WORDS);
    assert_eq!(unbaked(&words, &vec![MISSING, 3, MISSING], false), ["doily", "brane"]);
    assert_eq!(unbaked(&words, &vec![MISSING, 3, MISSING], true), Vec::<String>::new());
    assert_eq!(unbaked(&words, &vec![MISSING], false), ["doily"]);
    assert_eq!(unbaked(&words, &vec![1, 2, 3], false), Vec::<String>::new());
}

#[test]
fn a_bake_from_nothing_completes_in_any_order() {
    let words = strings(&WORDS);
    let baker = Baker::new(bank(&WORDS));
    let mut scores = vec![MISSING; 3];
    let left = unbaked(&words, &scores, false);
    for i in [2, 0, 1] {
        assert!(!record(&mut scores, i, baker.score_word(&left[i]), Some((3, 0))));
    }
    assert_eq!(scores, [1333, 2000, 2000]);
    assert_eq!(unbaked(&words, &scores, false), Vec::<String>::new());
    let baked = baker.with_scores(&pair_scores(&words, &scores));
    assert!(!baked.after_response(&results("bgggg")).unwrap().inconsistent);
}

#[test]
fn a_bake_goes_on_where_missing_scores_come_first() {
    let words = strings(&WORDS);
    let baker = Baker::new(bank(&WORDS));
    let mut scores = vec![MISSING, MISSING, 77];
    let left = unbaked(&words, &scores, false);
    for i in 0..left.len() {
        assert!(record(&mut scores, i, baker.score_word(&left[i]), None));
    }
    assert_eq!(scores, [1333, 2000, 77]);
}

#[test]
fn scores_are_stored_every_ten_seconds() {
    assert!(!store_due(Some((9, 999_999_999))));
    assert!(!store_due(Some((10, 0))));
    assert!(store_due(Some((10, 1))));
    assert!(store_due(Some((11, 0))));
    assert!(store_due(None));
}

#[test]
fn a_plan_with_words_left() {
    let bank = bank(&WORDS);
    let words = strings(&WORDS);
    let plan = BakeTarget::BaseState.plan(&bank, &words, &vec![MISSING, 4, MISSING], false, 3);
    match plan.unwrap().work {
        Work::Score { words, before, note } => {
            assert_eq!(words, ["doily", "brane"]);
            assert_eq!(before, 1);
            assert_eq!(note, "baked 1/3 for 0; baking 2 more...");
        }
        Work::Nothing(note) => panic!("{note}"),
    }
}

#[test]
fn a_plan_with_nothing_left() {
    let bank = bank(&WORDS);
    let words = strings(&WORDS);
    let base = Baker::new(bank.clone());
    let told = results("bbbbb");
    let target = BakeTarget::AfterResponse(&base, &told);
    let plan = target.plan(&bank, &words, &vec![MISSING; 3], true, 3).unwrap();
    assert!(!plan.response.inconsistent);
    assert!(matches!(plan.work, Work::Nothing(note) if note == "bbbbb was already baked"));
}

#[test]
fn no_plan_without_a_guess() {
    let bank = bank(&[]);
    let base = Baker::new(bank.clone());
    let target = BakeTarget::AfterResponse(&base, &[]);
    assert!(target.plan(&bank, &vec![], &vec![], false, 0).is_none());
}

#[test]
fn a_game_reaches_the_state_that_was_baked() {
    let words = strings(&WORDS);
    let stored = vec![9, 1, 2];
    let base = Baker::new(bank(&WORDS)).with_scores(&pair_scores(&words, &stored));
    let told = results("bbbbb");
    let state = BakeTarget::AfterResponse(&base, &told).state(&bank(&WORDS)).unwrap().state;

    let mut solver = solver(&stored, 1, 3);
    solver.begin_round().unwrap();
    solver.take(Entry::Index(1));
    solver.tell(told).unwrap();
    // Without the baked scores, the game scores its words as the baked state does.
    for guess in 0..solver.begin_round().unwrap().lines.len() {
        let shown = &solver.guesses[guess];
        assert_eq!(shown.score, state.score_word(&shown.guess));
    }
}

#[test]
fn later_states_are_not_baked() {
    let mut solver = solver(&[9, 6, 7], 1, 10);
    solver.bake_path = "/bbbbb".to_string();
    solver.first_guess = false;
    solver.begin_round().unwrap();
    solver.take(Entry::Index(1));
    assert_eq!(solver.tell(results("bbbbb")), Ok(Next::Load("/bbbbb/bbbbb".to_string())));
}

#[test]
fn guessed_words_are_not_offered_again() {
    let words = ["aaaab", "aaaac", "aaaad", "bcdef", "zzzzz"];
    let mut solver = Solver::new(bank(&words), &vec![], 9, 9);
    assert_eq!(solver.begin_round().unwrap().lines.len(), 5);
    solver.take(Entry::Word("zzzzz".to_string()));
    assert_eq!(solver.tell(results("bbbbb")), Ok(Next::Unbaked));
    solver.begin_round().unwrap();
    let mut offered: Vec<&str> = solver.guesses.iter().map(|g| g.guess.as_str()).collect();
    offered.sort();
    assert_eq!(offered, ["aaaab", "aaaac", "aaaad", "bcdef"]);
    // With two words left, only they are offered.
    solver.take(Entry::Word("aaaab".to_string()));
    assert_eq!(solver.tell(results("ggggb")), Ok(Next::Unbaked));
    assert_eq!(solver.begin_round().unwrap().lines.len(), 2);
}

#[test]
fn a_base_state_has_a_guess() {
    for words in [&["ab"][..], &["ab", "cd"], &["ab", "cd", "ef"]] {
        let base = Baker::new(bank(words));
        assert!(base.after_response(&results("bb")).is_some());
    }
}

#[test]
fn one_score_is_enough_for_a_guess() {
    let words = ["doily", "crane", "brane", "grane"];
    // The third word is the only one with a score, and so the guess.
    let scores = pair_scores(&strings(&words), &vec![MISSING, MISSING, -5, MISSING]);
    let base = Baker::new(bank(&words)).with_scores(&scores);
    let state = base.after_response(&results("bgggg")).unwrap().state;
    // Two words are left, which the guess does not tell apart.
    assert_eq!(state.score_word("crane"), 1000);
    assert_eq!(state.score_word("grane"), 1000);
    assert_eq!(state.score_word("brane"), 0);
}

#[test]
fn a_report_names_the_place_among_the_words_left() {
    let words = strings(&WORDS);
    let baker = Baker::new(bank(&WORDS));
    let left = unbaked(&words, &vec![7, MISSING, MISSING], false);
    assert!(baker.can_score(&left[0]));
    assert_eq!(baker.report(&left, 0), (0, 2000));
    assert_eq!(baker.report(&left, 1), (1, baker.score_word("brane")));
}

#[test]
fn scores_are_recorded_by_the_place_among_the_words_left() {
    let words = strings(&WORDS);
    let baker = Baker::new(bank(&WORDS));
    let mut scores = vec![7, MISSING, MISSING];
    let left = unbaked(&words, &scores, false);
    for k in 0..left.len() {
        let (place, score) = baker.report(&left, k);
        record(&mut scores, place, score, Some((0, 0)));
    }
    assert_eq!(scores, [2000, 2000, MISSING]);
}
