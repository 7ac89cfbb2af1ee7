use std::collections::BTreeSet;

use letter_boxed_solver::words::{builtin_words, SolveError, BUILTIN_LEN};
use letter_boxed_solver::LetterBoxed;

fn letters_of(sides: &[&str]) -> BTreeSet<char> {
    sides.iter().flat_map(|s| s.chars()).collect()
}

fn covered(chain: &[&str]) -> BTreeSet<char> {
    chain.iter().flat_map(|w| w.chars()).collect()
}

#[test]
fn test_1() {
    let b = LetterBoxed::load_board(&["OAL", "NUK", "CET", "RPI"]);
    let results = b.solve_with_builtin_list(&[], 3, 25).unwrap();
    assert!(!results.is_empty());
    for r in results {
        assert!(b.validate(&r.0));
    }
}

#[test]
fn test_2() {
    let b = LetterBoxed::load_board(&["ELZ", "IVA", "RYU", "CTH"]);
    let results = b.solve_with_builtin_list(&[], 3, 25).unwrap();
    assert!(!results.is_empty());
    for r in results {
        assert!(b.validate(&r.0));
    }
}

#[test]
fn test_3() {
    let b = LetterBoxed::load_board(&["RTF", "USY", "HIA", "OEB"]);
    let results = b.solve_with_builtin_list(&[], 2, 25).unwrap();
    assert!(!results.is_empty());
    for r in results {
        assert!(b.validate(&r.0));
    }
}

#[test]
fn test_4() {
    let b = LetterBoxed::load_board(&["RTF", "USY", "HIA", "OEB"]);
    let results = b.solve_with_builtin_list(&["STATUTORY"], 2, 25).unwrap();
    assert!(!results.is_empty());
    for r in results {
        assert!(b.validate(&r.0));
    }
}

#[test]
fn example_board_has_two_word_solution() {
    let sides = ["ELZ", "IVA", "RYU", "CTH"];
    let b = LetterBoxed::load_board(&sides);
    let results = b.solve_with_builtin_list(&[], 4, 25).unwrap();
    let n = letters_of(&sides).len();
    assert_eq!(n, 12);
    assert!(results
        .iter()
        .any(|r| r.0 == vec!["VEHICULAR", "RITZILY"] && r.1 == n));
    for r in &results {
        assert!(b.validate(&r.0));
        assert_eq!(r.1, n);
        assert_eq!(covered(&r.0), letters_of(&sides));
    }
}

#[test]
fn exact_result_on_small_list() {
    let b = LetterBoxed::load_board(&["ELZ", "IVA", "RYU", "CTH"]);
    let words = ["VEHICULAR", "RITZILY"];
    let results = b.solve(&words, &[], 2, 25);
    assert_eq!(results, vec![(vec!["VEHICULAR", "RITZILY"], 12)]);
}

#[test]
fn depth_too_small_gives_best_effort() {
    let b = LetterBoxed::load_board(&["ELZ", "IVA", "RYU", "CTH"]);
    let words = ["VEHICULAR", "RITZILY"];
    let results = b.solve(&words, &[], 1, 25);
    assert_eq!(results, vec![(vec!["VEHICULAR"], 9)]);
}

#[test]
fn depth_zero_gives_start_letter_only() {
    let b = LetterBoxed::load_board(&["ELZ", "IVA", "RYU", "CTH"]);
    let words = ["VEHICULAR", "RITZILY"];
    let results = b.solve(&words, &[], 0, 25);
    assert_eq!(results, vec![(Vec::<&str>::new(), 1)]);
}

#[test]
fn no_eligible_words_gives_empty_best_effort() {
    let b = LetterBoxed::load_board(&["ELZ", "IVA", "RYU", "CTH"]);
    let words = ["QQQ", "AT", "ELL", "XYZZY"];
    let results = b.solve(&words, &[], 5, 25);
    assert_eq!(results, vec![(Vec::<&str>::new(), 0)]);
}

#[test]
fn no_eligible_words_with_prefix_keeps_seed_coverage() {
    let b = LetterBoxed::load_board(&["ELZ", "IVA", "RYU", "CTH"]);
    let words = ["QQQ", "VEHICULAR"];
    let results = b.solve(&words, &[1], 5, 25);
    assert_eq!(results, vec![(vec!["VEHICULAR"], 9)]);
}

#[test]
fn resumes_from_prior_indices() {
    let b = LetterBoxed::load_board(&["ELZ", "IVA", "RYU", "CTH"]);
    let words = ["RITZILY", "VEHICULAR", "RACY"];
    let results = b.solve(&words, &[1], 3, 25);
    assert_eq!(results, vec![(vec!["VEHICULAR", "RITZILY"], 12)]);
}

#[test]
fn prior_word_chain_is_kept() {
    let sides = ["RTF", "USY", "HIA", "OEB"];
    let b = LetterBoxed::load_board(&sides);
    let results = b.solve_with_builtin_list(&["STATUTORY"], 3, 25).unwrap();
    assert!(!results.is_empty());
    for r in &results {
        assert_eq!(r.0[0], "STATUTORY");
        assert!(b.validate(&r.0));
    }
}

#[test]
fn max_results_limits_full_solutions() {
    let sides = ["ELZ", "IVA", "RYU", "CTH"];
    let b = LetterBoxed::load_board(&sides);
    let all = b.solve_with_builtin_list(&[], 3, 1000).unwrap();
    let one = b.solve_with_builtin_list(&[], 3, 1).unwrap();
    assert!(all.len() >= 1);
    assert_eq!(one.len(), 1);
    assert_eq!(one[0], all[0]);
}

#[test]
fn results_come_shortest_first() {
    let b = LetterBoxed::load_board(&["OAL", "NUK", "CET", "RPI"]);
    let results = b.solve_with_builtin_list(&[], 3, 25).unwrap();
    for pair in results.windows(2) {
        assert!(pair[0].0.len() <= pair[1].0.len());
    }
}

#[test]
fn unknown_prior_word_is_an_error() {
    let b = LetterBoxed::load_board(&["RTF", "USY", "HIA", "OEB"]);
    let r = b.solve_with_builtin_list(&["STATUTORY", "NOTAWORD"], 2, 25);
    assert_eq!(r, Err(SolveError::UnknownPriorWord(1)));
}

#[test]
fn prior_word_lookup_is_case_sensitive() {
    let b = LetterBoxed::load_board(&["RTF", "USY", "HIA", "OEB"]);
    let r = b.solve_with_builtin_list(&["statutory"], 2, 25);
    assert_eq!(r, Err(SolveError::UnknownPriorWord(0)));
}

#[test]
fn empty_last_prior_word_is_an_error() {
    let b = LetterBoxed::load_board(&["ELZ", "IVA", "RYU", "CTH"]);
    let words = ["VEHICULAR", ""];
    let r = b.solve_with_words(&words, &["VEHICULAR", ""], 2, 25);
    assert_eq!(r, Err(SolveError::EmptyPriorWord));
}

#[test]
fn solve_with_words_finds_prior_by_text() {
    let b = LetterBoxed::load_board(&["ELZ", "IVA", "RYU", "CTH"]);
    let words = ["RITZILY", "VEHICULAR"];
    let r = b.solve_with_words(&words, &["VEHICULAR"], 2, 25).unwrap();
    assert_eq!(r, vec![(vec!["VEHICULAR", "RITZILY"], 12)]);
}

#[test]
fn validate_accepts_example_solution() {
    let b = LetterBoxed::load_board(&["ELZ", "IVA", "RYU", "CTH"]);
    assert!(b.validate(&["VEHICULAR", "RITZILY"]));
    assert!(b.validate(&[]));
    assert!(b.validate(&["VEHICULAR"]));
}

#[test]
fn validate_rejects_broken_chain() {
    let b = LetterBoxed::load_board(&["ELZ", "IVA", "RYU", "CTH"]);
    assert!(!b.validate(&["RITZILY", "VEHICULAR"]));
}

#[test]
fn validate_rejects_same_side_step() {
    let b = LetterBoxed::load_board(&["ELZ", "IVA", "RYU", "CTH"]);
    assert!(!b.validate(&["VAR"]));
    assert!(!b.validate(&["ELL"]));
}

#[test]
fn validate_ignores_coverage() {
    let b = LetterBoxed::load_board(&["ELZ", "IVA", "RYU", "CTH"]);
    assert!(b.validate(&["RITZILY"]));
}

#[test]
fn side_order_does_not_matter() {
    let a = LetterBoxed::load_board(&["ELZ", "IVA", "RYU", "CTH"]);
    let b = LetterBoxed::load_board(&["CTH", "RYU", "ELZ", "IVA"]);
    let words = ["VEHICULAR", "RITZILY", "VAR", "ZITHER"];
    assert_eq!(a.solve(&words, &[], 3, 25), b.solve(&words, &[], 3, 25));
    assert_eq!(a.validate(&["VEHICULAR", "RITZILY"]), b.validate(&["VEHICULAR", "RITZILY"]));
}

#[test]
fn builtin_list_has_its_length() {
    assert_eq!(builtin_words().len(), BUILTIN_LEN);
}

#[test]
fn no_eligible_words_gives_zero_count() {
    let b = LetterBoxed::load_board(&["OAL", "NUK", "CET", "RPI"]);
    let words = ["AB", "OAK", "ZZZ"];
    assert_eq!(b.solve(&words, &[], 3, 25), vec![(Vec::<&str>::new(), 0)]);
}

#[test]
fn zero_max_results_gives_one_entry() {
    let b = LetterBoxed::load_board(&["ELZ", "IVA", "RYU", "CTH"]);
    let words = ["VEHICULAR", "RITZILY"];
    assert_eq!(b.solve(&words, &[], 2, 0), vec![(vec!["VEHICULAR", "RITZILY"], 12)]);
}

#[test]
fn builtin_list_holds_played_word() {
    assert!(builtin_words().contains(&"STATUTORY"));
    assert!(!builtin_words().contains(&"NOTAWORD"));
}
