use ffs::rank::{rank_and_threshold, threshold, Candidate, ScoredCandidate};
use ffs::search::{FuzzySearchAlgorithm, SearchError};

fn cand(name: &str, path: &str) -> Candidate {
    Candidate {
        name: name.to_string(),
        full_path: path.to_string(),
    }
}

fn triples(hits: &[ScoredCandidate]) -> Vec<(u32, String, String)> {
    hits.iter()
        .map(|h| (h.score, h.name.clone(), h.full_path.clone()))
        .collect()
}

#[test]
fn threshold_follows_the_length_brackets() {
    assert_eq!(threshold(4), 1);
    assert_eq!(threshold(7), 3);
    assert_eq!(threshold(12), 6);
}

#[test]
fn threshold_of_the_empty_query_is_zero() {
    assert_eq!(threshold(0), 0);
}

#[test]
fn rank_query_mian_keeps_only_main() {
    let candidates = vec![
        cand("main", "./main.rs"),
        cand("maintenance", "./maintenance.rs"),
        cand("domain", "./domain.rs"),
    ];
    let query = "mian".to_string();
    let hits = rank_and_threshold(
        &query,
        candidates,
        FuzzySearchAlgorithm::DamerauLevenshtein,
    )
    .unwrap();
    assert_eq!(
        triples(&hits),
        vec![(1, "main".to_string(), "./main.rs".to_string())]
    );
}

#[test]
fn rank_is_sorted_ascending_and_within_threshold() {
    let candidates = vec![
        cand("ba", "./1"),
        cand("ab", "./2"),
        cand("abc", "./3"),
        cand("b", "./4"),
        cand("xyz", "./5"),
    ];
    let query = "ab".to_string();
    let hits = rank_and_threshold(
        &query,
        candidates,
        FuzzySearchAlgorithm::DamerauLevenshtein,
    )
    .unwrap();
    let t = threshold(2);
    for w in hits.windows(2) {
        assert!(w[0].score <= w[1].score);
    }
    for h in &hits {
        assert!(h.score <= t);
    }
    // "xyz" is three edits away from "ab", above the threshold of 1.
    assert!(hits.iter().all(|h| h.name != "xyz"));
}

#[test]
fn rank_keeps_equal_scores_in_input_order() {
    let candidates = vec![
        cand("ba", "./first"),
        cand("ab", "./exact"),
        cand("abc", "./second"),
        cand("b", "./third"),
    ];
    let query = "ab".to_string();
    let hits = rank_and_threshold(
        &query,
        candidates,
        FuzzySearchAlgorithm::DamerauLevenshtein,
    )
    .unwrap();
    assert_eq!(
        triples(&hits),
        vec![
            (0, "ab".to_string(), "./exact".to_string()),
            (1, "ba".to_string(), "./first".to_string()),
            (1, "abc".to_string(), "./second".to_string()),
            (1, "b".to_string(), "./third".to_string()),
        ]
    );
}

#[test]
fn rank_of_no_candidates_is_empty_for_any_algorithm() {
    let query = "ab".to_string();
    let hits = rank_and_threshold(&query, Vec::new(), FuzzySearchAlgorithm::BITAP).unwrap();
    assert!(hits.is_empty());
}

#[test]
fn rank_surfaces_a_scoring_failure() {
    let query = "ab".to_string();
    let r = rank_and_threshold(
        &query,
        vec![cand("ab", "./x")],
        FuzzySearchAlgorithm::LEVENSHTEIN,
    );
    assert_eq!(
        r.unwrap_err(),
        SearchError::UnsupportedAlgorithm(FuzzySearchAlgorithm::LEVENSHTEIN)
    );
}

#[test]
fn zero_length_query_keeps_only_exact_matches() {
    let candidates = vec![cand("", "./empty"), cand("a", "./a")];
    let query = String::new();
    let hits = rank_and_threshold(
        &query,
        candidates,
        FuzzySearchAlgorithm::DamerauLevenshtein,
    )
    .unwrap();
    assert_eq!(triples(&hits), vec![(0, String::new(), "./empty".to_string())]);
}
