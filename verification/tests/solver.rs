use wordle::{word_from_str, Error, Mark, Wordle, WordleState};

fn words(list: &[&str]) -> Vec<String> {
    list.iter().map(|w| w.to_string()).collect()
}

#[test]
fn word_from_str_accepts_five_letters() {
    let w = word_from_str("crate").unwrap();
    assert_eq!(w, *b"crate");
}

#[test]
fn word_from_str_rejects_other_lengths() {
    assert_eq!(word_from_str("abcd"), Err(Error::MalformedWord));
    assert_eq!(word_from_str("abcdef"), Err(Error::MalformedWord));
    assert_eq!(word_from_str(""), Err(Error::MalformedWord));
}

#[test]
fn new_rejects_malformed_entries() {
    let e = Wordle::new(words(&["crate", "gr"]), "crate");
    assert!(matches!(e, Err(Error::MalformedWord)));
    let e = Wordle::new(words(&["crate"]), "abcdef");
    assert!(matches!(e, Err(Error::MalformedWord)));
}

#[test]
fn simulate_is_deterministic() {
    let guess = word_from_str("raise").unwrap();
    let answer = word_from_str("crate").unwrap();
    let first = wordle::simulate(&guess, &answer);
    let second = wordle::simulate(&guess, &answer);
    assert_eq!(first, second);
}

#[test]
fn simulate_raise_against_crate() {
    let guess = word_from_str("raise").unwrap();
    let answer = word_from_str("crate").unwrap();
    let pattern = wordle::simulate(&guess, &answer);
    assert_eq!(
        pattern,
        vec![Mark::Present, Mark::Present, Mark::Absent, Mark::Absent, Mark::Correct]
    );
}

#[test]
fn filtering_after_raise_keeps_only_consistent_words() {
    let list = ["raise", "slate", "crate", "plate", "grate"];
    let engine = Wordle::new(words(&list), "crate").unwrap();
    let guess = word_from_str("raise").unwrap();
    let answer = word_from_str("crate").unwrap();
    let (state, _pattern) = engine.evaluate(&guess, &answer);
    let keep: Vec<bool> = list
        .iter()
        .map(|w| Wordle::check_word(&state, &word_from_str(w).unwrap()))
        .collect();
    // "raise" itself is excluded; only "crate" and "grate" survive.
    assert_eq!(keep, vec![false, false, true, false, true]);
}

#[test]
fn fold_surfaces_contradictions() {
    let state = WordleState {
        known: [None; 5],
        contains: Vec::new(),
        not_contains: Vec::new(),
    };
    let guess = word_from_str("aaaab").unwrap();
    // The same letter marked both present and absent is a contradiction.
    let pattern = vec![Mark::Present, Mark::Absent, Mark::Absent, Mark::Absent, Mark::Absent];
    assert!(matches!(
        wordle::fold(&state, &guess, &pattern),
        Err(Error::InconsistentState)
    ));
}

#[test]
fn fold_accumulates_feedback() {
    let state = WordleState {
        known: [None; 5],
        contains: Vec::new(),
        not_contains: Vec::new(),
    };
    let guess = word_from_str("raise").unwrap();
    let pattern = vec![Mark::Present, Mark::Present, Mark::Absent, Mark::Absent, Mark::Correct];
    let folded = wordle::fold(&state, &guess, &pattern).unwrap();
    assert_eq!(folded.known, [None, None, None, None, Some(b'e')]);
    assert_eq!(folded.contains, vec![b'r', b'a']);
    assert_eq!(folded.not_contains, vec![b'i', b's']);
}

#[test]
fn pool_shrinks_monotonically() {
    let list = ["raise", "slate", "crate", "plate", "grate"];
    let answer = word_from_str("crate").unwrap();
    let mut engine = Wordle::new(words(&list), "crate").unwrap();
    let mut alive = list.len();
    for opener in ["slate", "raise", "crate"] {
        let guess = word_from_str(opener).unwrap();
        let (state, _pattern) = engine.evaluate(&guess, &answer);
        engine.update_state(state);
        let now = list
            .iter()
            .filter(|w| Wordle::check_word(&engine.state, &word_from_str(w).unwrap()))
            .count();
        assert!(now <= alive);
        alive = now;
        // The true answer stays consistent at every turn.
        assert!(Wordle::check_word(&engine.state, &answer));
    }
}

#[test]
fn solve_single_word_list() {
    let mut engine = Wordle::new(words(&["apple"]), "apple").unwrap();
    assert_eq!(engine.solve(), Ok(("apple".to_string(), 1)));
}

#[test]
fn solve_finds_the_answer() {
    let list = ["raise", "slate", "crate", "plate", "grate"];
    let mut engine = Wordle::new(words(&list), "crate").unwrap();
    // After the opening guess the pool is {"crate", "grate"}; both remaining
    // candidates split it perfectly, so the earlier one, the answer, is
    // guessed next.
    assert_eq!(engine.solve(), Ok(("crate".to_string(), 2)));
}

#[test]
fn solve_with_custom_opening_guess() {
    let list = ["raise", "slate", "crate", "plate", "grate"];
    let mut engine = Wordle::new(words(&list), "crate").unwrap();
    let opening = word_from_str("slate").unwrap();
    assert_eq!(
        engine.solve_with_opening(&opening),
        Ok(("crate".to_string(), 2))
    );
}

#[test]
fn solve_converges_for_every_answer() {
    let list = [
        "raise", "slate", "crate", "plate", "grate", "aback", "sweet", "crumb", "nymph", "fjord",
    ];
    for answer in list {
        let mut engine = Wordle::new(words(&list), answer).unwrap();
        let (solution, count) = engine.solve().unwrap();
        assert_eq!(solution, answer);
        assert!(count >= 1);
        assert!(count <= list.len() + 1);
    }
}

#[test]
fn solve_fails_when_answer_is_missing() {
    let mut engine = Wordle::new(words(&["slate", "crate"]), "nymph").unwrap();
    assert_eq!(engine.solve(), Err(Error::UnsolvableAnswer));
}

#[test]
fn solve_with_duplicate_entries_can_exhaust_candidates() {
    // Two copies of the answer can never be told apart, so the pool never
    // reaches size one; once both copies are guessed no candidate is left.
    let mut engine = Wordle::new(words(&["apple", "apple"]), "apple").unwrap();
    assert_eq!(engine.solve(), Err(Error::EmptyPool));
}

#[test]
fn current_state_starts_empty() {
    let list = ["raise", "slate", "crate", "plate", "grate"];
    let engine = Wordle::new(words(&list), "crate").unwrap();
    let state = engine.current_state();
    assert_eq!(state.known, [None; 5]);
    assert!(state.contains.is_empty());
    assert!(state.not_contains.is_empty());
    // Under the empty state every word is still possible.
    for w in list {
        assert!(Wordle::check_word(state, &word_from_str(w).unwrap()));
    }
}

#[test]
fn guess_on_empty_pool_fails() {
    let engine = Wordle::new(Vec::new(), "crate").unwrap();
    assert_eq!(engine.guess(), Err(Error::EmptyPool));
}

#[test]
fn guess_breaks_ties_by_pool_order() {
    let engine = Wordle::new(words(&["aaaaa", "bbbbb"]), "aaaaa").unwrap();
    // Both guesses split the pool perfectly; the first one is kept.
    assert_eq!(engine.guess(), Ok(*b"aaaaa"));
}

#[test]
fn guess_prefers_strictly_better_splits() {
    // "aabbb" pins the answer down for every hypothetical answer, while
    // "aaaaa" cannot tell itself apart from "aabbb"; the better word wins
    // even though it comes later in the pool.
    let engine = Wordle::new(words(&["aaaaa", "aabbb", "ccccc"]), "ccccc").unwrap();
    assert_eq!(engine.guess(), Ok(*b"aabbb"));
}
