use corpus_gen::{alphabetic_runs, draw_target, frequent_words, pick_random_word, seed, Error};

fn corpus(lines: &[&str]) -> Vec<String> {
    lines.iter().map(|l| l.to_string()).collect()
}

#[test]
fn word_filter_keeps_frequent_words() {
    let lines = corpus(&["cat cat dog", "dog bird", "cat"]);
    let words = frequent_words(&lines, 2, 3);
    assert_eq!(words, vec!["cat".to_string(), "dog".to_string()]);
}

#[test]
fn token_boundaries_are_non_alphabetic() {
    let runs = alphabetic_runs("X15 rocket-ship");
    assert_eq!(runs, vec!["X".to_string(), "rocket".to_string(), "ship".to_string()]);
    let lines = corpus(&["X15 rocket-ship"]);
    assert_eq!(frequent_words(&lines, 1, 3), vec!["rocket".to_string(), "ship".to_string()]);
}

#[test]
fn runs_of_an_empty_or_separator_line() {
    assert!(alphabetic_runs("").is_empty());
    assert!(alphabetic_runs("12 -- 34 !").is_empty());
    assert_eq!(alphabetic_runs("héllo, wörld"), vec!["héllo".to_string(), "wörld".to_string()]);
}

#[test]
fn words_are_lowercased_before_counting() {
    let lines = corpus(&["Cat CAT cat", "Dog"]);
    assert_eq!(frequent_words(&lines, 3, 1), vec!["cat".to_string()]);
    assert_eq!(frequent_words(&lines, 1, 1), vec!["cat".to_string(), "dog".to_string()]);
}

#[test]
fn length_counts_utf8_bytes() {
    let lines = corpus(&["éé ab"]);
    assert_eq!(frequent_words(&lines, 1, 3), vec!["éé".to_string()]);
}

#[test]
fn pick_is_reproducible_for_a_draw_index() {
    let lines = corpus(&["alpha beta gamma delta", "epsilon zeta eta theta", "iota kappa lambda"]);
    let a = pick_random_word("2021", &lines, "alice", 1, 3, 0).unwrap();
    let b = pick_random_word("2021", &lines, "alice", 1, 3, 0).unwrap();
    assert_eq!(a, b);
    let c = pick_random_word("2021", &lines, "alice", 1, 3, 1).unwrap();
    let d = pick_random_word("2021", &lines, "alice", 1, 3, 1).unwrap();
    assert_eq!(c, d);
    let vocabulary = frequent_words(&lines, 1, 3);
    assert!(vocabulary.contains(&a));
    assert!(vocabulary.contains(&c));
}

#[test]
fn pick_uses_the_drawn_position() {
    let lines = corpus(&["alpha beta gamma delta", "epsilon zeta eta theta"]);
    let vocabulary = frequent_words(&lines, 1, 3);
    for nth in 0..5 {
        let target = draw_target(seed("bob", "2021"), vocabulary.len(), nth);
        let word = pick_random_word("2021", &lines, "bob", 1, 3, nth).unwrap();
        assert_eq!(word, vocabulary[target]);
    }
}

#[test]
fn draw_target_is_in_range_and_reproducible() {
    let s = seed("u", "k");
    for nth in 0..20 {
        let t = draw_target(s, 7, nth);
        assert!(t < 7);
        assert_eq!(t, draw_target(s, 7, nth));
    }
    assert_eq!(draw_target(s, 1, 3), 0);
}

#[test]
fn short_words_give_empty_selection() {
    let lines = corpus(&["a bb cc a", "bb a"]);
    let r = pick_random_word("s", &lines, "u", 1, 3, 0);
    assert!(matches!(r, Err(Error::EmptySelection)));
}

#[test]
fn rare_words_give_empty_selection() {
    let lines = corpus(&["cat dog bird", "fish"]);
    let r = pick_random_word("s", &lines, "u", 2, 3, 0);
    assert!(r.unwrap_err().is_empty_selection());
    let r = pick_random_word("s", &Vec::new(), "u", 1, 1, 0);
    assert!(matches!(r, Err(Error::EmptySelection)));
}
