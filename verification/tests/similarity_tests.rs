use parser_core::similarity::{calculate_similarity, longest_common_subsequence};

fn score(input: &str, pattern: &str) -> f64 {
    calculate_similarity(input, pattern) as f64 / 1000.0
}

#[test]
fn similarity_test_exact_match() {
    assert!((score("open desktop", "open desktop") - 1.0).abs() < 0.001);
}

#[test]
fn test_substring_match() {
    assert!(score("open desktop folder", "open desktop") > 0.9);
}

#[test]
fn test_token_overlap() {
    let s = score("open downloads folder", "open downloads");
    assert!(s > 0.7);
}

#[test]
fn similarity_test_no_match() {
    let s = score("hello world", "open desktop");
    assert!(s < 0.3);
}

#[test]
fn identical_nonempty_strings_score_perfect() {
    assert_eq!(calculate_similarity("list all processes", "list all processes"), 1000);
}

#[test]
fn empty_pattern_scores_zero() {
    assert_eq!(calculate_similarity("anything at all", ""), 0);
    assert_eq!(calculate_similarity("", ""), 0);
}

#[test]
fn similarity_is_asymmetric() {
    let ab = calculate_similarity("open desktop folder", "open desktop");
    let ba = calculate_similarity("open desktop", "open desktop folder");
    assert_eq!(ab, 1000);
    assert_ne!(ab, ba);
}

#[test]
fn case_insensitive_containment_scores_950() {
    assert_eq!(calculate_similarity("OPEN DESKTOP", "open desktop"), 950);
}

#[test]
fn whitespace_only_pattern_scores_zero() {
    assert_eq!(calculate_similarity("open desktop", "   "), 0);
}

#[test]
fn lcs_counts_common_subsequence() {
    assert_eq!(longest_common_subsequence("abcde", "ace"), 3);
    assert_eq!(longest_common_subsequence("", "ace"), 0);
    assert_eq!(longest_common_subsequence("abc", ""), 0);
    assert_eq!(longest_common_subsequence("abc", "abc"), 3);
}

#[test]
fn partial_token_overlap_scores_between_bands() {
    // Pattern tokens: {open, downloads}; input supplies only "open", so
    // the overlap is 1/2 and the early exit does not apply.
    let s = calculate_similarity("open documents", "open downloads");
    assert!(s < 950);
    assert!(s > 0);
}

#[test]
fn low_overlap_takes_early_exit() {
    // One pattern token of four occurs in the input: overlap 1/4 < 3/10,
    // so the score is 600 * 1 / 4 = 150.
    let s = calculate_similarity("alpha", "alpha beta gamma delta");
    assert_eq!(s, 150);
}
