use git_graph_tui::search::{fuzzy_search_branches, insert_ranked, FuzzySearchResult};
use git_graph_tui::widgets::{calculate_dropdown_height, fitting_chars};

#[test]
fn test_empty_query_returns_empty() {
    let branches = vec![(0, "main".to_string()), (1, "feature/test".to_string())];
    let results = fuzzy_search_branches("", &branches);
    assert!(results.is_empty());
}

#[test]
fn test_exact_match() {
    let branches = vec![(0, "main".to_string()), (1, "feature/test".to_string())];
    let results = fuzzy_search_branches("main", &branches);
    assert!(!results.is_empty());
    assert_eq!(results[0].branch_idx, 0);
}

#[test]
fn test_fuzzy_match() {
    let branches = vec![
        (0, "main".to_string()),
        (1, "feature/auth".to_string()),
        (2, "feature/search".to_string()),
    ];
    let results = fuzzy_search_branches("feat", &branches);
    assert!(results.len() >= 2);
    assert!(results.iter().any(|r| r.branch_idx == 1));
    assert!(results.iter().any(|r| r.branch_idx == 2));
}

#[test]
fn test_typo_tolerance() {
    let branches = vec![(0, "main".to_string()), (1, "feature/auth".to_string())];
    let results = fuzzy_search_branches("featre", &branches);
    assert!(!results.is_empty());
    assert!(results.iter().any(|r| r.branch_idx == 1));
}

#[test]
fn test_no_match() {
    let branches = vec![(0, "main".to_string()), (1, "develop".to_string())];
    let results = fuzzy_search_branches("xyz123", &branches);
    assert!(results.is_empty());
}

#[test]
fn test_results_sorted_by_score() {
    let branches = vec![
        (0, "abc".to_string()),
        (1, "abcd".to_string()),
        (2, "abcde".to_string()),
    ];
    let results = fuzzy_search_branches("abc", &branches);
    for i in 1..results.len() {
        assert!(results[i - 1].score >= results[i].score);
    }
}

#[test]
fn matched_positions_are_reported() {
    let branches = vec![(0, "develop".to_string()), (1, "main".to_string())];
    let results = fuzzy_search_branches("mn", &branches);
    assert_eq!(results.len(), 1);
    assert_eq!(results[0].branch_idx, 1);
    assert_eq!(results[0].matched_indices, vec![0, 3]);
}

fn result(idx: usize, score: i64) -> FuzzySearchResult {
    FuzzySearchResult { branch_idx: idx, score, matched_indices: Vec::new() }
}

#[test]
fn insert_ranked_orders_by_score_then_index() {
    let mut rs = Vec::new();
    insert_ranked(&mut rs, result(3, 10));
    insert_ranked(&mut rs, result(1, 10));
    insert_ranked(&mut rs, result(2, 50));
    insert_ranked(&mut rs, result(0, -4));
    let order: Vec<usize> = rs.iter().map(|r| r.branch_idx).collect();
    assert_eq!(order, vec![2, 1, 3, 0]);
}

#[test]
fn dropdown_height_counts_visible_results() {
    assert_eq!(calculate_dropdown_height(0), 4);
    assert_eq!(calculate_dropdown_height(1), 6);
    assert_eq!(calculate_dropdown_height(7), 12);
    assert_eq!(calculate_dropdown_height(30), 12);
}

#[test]
fn fitting_chars_stops_at_the_first_misfit() {
    assert_eq!(fitting_chars(&[1, 1, 2, 1], 3), 2);
    assert_eq!(fitting_chars(&[1, 1, 1], 3), 3);
    assert_eq!(fitting_chars(&[2, 1], 1), 0);
    assert_eq!(fitting_chars(&[], 5), 0);
}
