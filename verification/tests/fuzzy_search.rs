use comfysort_engine::search::fuzzy_score;

#[test]
fn fuzzy_score_orders_consecutive_matches_higher() {
    let consecutive = fuzzy_score("wonyoung", "wony").expect("match");
    let scattered = fuzzy_score("walk_on_yonsei_uni", "wony").expect("match");
    assert!(consecutive > scattered, "{consecutive} should beat {scattered}");
}

#[test]
fn fuzzy_score_returns_none_when_chars_out_of_order() {
    assert!(fuzzy_score("wonyoung", "ynow").is_none());
}

#[test]
fn fuzzy_prefers_consecutive_substring_over_scattered_path_chars() {
    let target = fuzzy_score("groups/itzy/ryumommy", "ryum").expect("match");
    let scattered = fuzzy_score("r-y-u-m-scattered/path", "ryum").expect("match");
    assert!(target > scattered, "ryumommy ({target}) should beat scattered ({scattered})");
}

#[test]
fn empty_query_scores_zero() {
    assert_eq!(fuzzy_score("anything", ""), Some(0));
    assert_eq!(fuzzy_score("", ""), Some(0));
}

#[test]
fn query_longer_than_candidate_is_no_match() {
    assert_eq!(fuzzy_score("ab", "abc"), None);
}

#[test]
fn exact_scores_of_small_candidates() {
    // "a" at the start: 1 + 8 (boundary) + 4 (first) = 13; 13 * 100 - 1.
    assert_eq!(fuzzy_score("a", "a"), Some(1299));
    // "ab": 13 for 'a', then 'b' consecutive: 1 + 10 = 11; 24 * 100 - 2.
    assert_eq!(fuzzy_score("ab", "ab"), Some(2398));
    // "xa": 'a' after 'x' is neither consecutive nor at a boundary: 1; 100 - 2.
    assert_eq!(fuzzy_score("xa", "a"), Some(98));
    // "x_a": 'a' after '_' is at a boundary: 1 + 8 = 9; 900 - 3.
    assert_eq!(fuzzy_score("x_a", "a"), Some(897));
}

#[test]
fn best_alignment_is_taken() {
    // 'b' can align at index 1 (consecutive with 'a') or 3; the best wins.
    assert_eq!(fuzzy_score("abxb", "ab"), Some(2396));
}
