use ffs::rank::{Candidate, ScoredCandidate};
use ffs::select::{exact_match_hits, masked_zero_hits, pick_candidate};
use ffs::walk::classify_file;

fn cand(name: &str, path: &str) -> Candidate {
    Candidate {
        name: name.to_string(),
        full_path: path.to_string(),
    }
}

fn triples(hits: &[ScoredCandidate]) -> Vec<(u32, String, String)> {
    hits.iter()
        .map(|h| (h.score, h.name.clone(), h.full_path.clone()))
        .collect()
}

#[test]
fn exact_match_keeps_equal_names_with_score_zero() {
    let candidates = vec![
        cand("main", "./a/main.rs"),
        cand("domain", "./domain.rs"),
        cand("main", "./b/main.rs"),
    ];
    let query = "main".to_string();
    let hits = exact_match_hits(&query, candidates);
    assert_eq!(
        triples(&hits),
        vec![
            (0, "main".to_string(), "./a/main.rs".to_string()),
            (0, "main".to_string(), "./b/main.rs".to_string()),
        ]
    );
}

#[test]
fn exact_match_of_nothing_is_empty() {
    let query = "main".to_string();
    assert!(exact_match_hits(&query, Vec::new()).is_empty());
    let hits = exact_match_hits(&query, vec![cand("other", "./other.rs")]);
    assert!(hits.is_empty());
}

#[test]
fn masked_hits_follow_the_mask_in_order() {
    let candidates = vec![
        cand("alpha", "./alpha.rs"),
        cand("beta", "./beta.rs"),
        cand("gamma", "./gamma.rs"),
    ];
    let keep = vec![true, false, true];
    let hits = masked_zero_hits(candidates, &keep);
    assert_eq!(
        triples(&hits),
        vec![
            (0, "alpha".to_string(), "./alpha.rs".to_string()),
            (0, "gamma".to_string(), "./gamma.rs".to_string()),
        ]
    );
}

#[test]
fn pick_candidate_accepts_one_based_numbers_in_range() {
    let hits = vec![
        ScoredCandidate {
            score: 0,
            name: "a".to_string(),
            full_path: "./a".to_string(),
        },
        ScoredCandidate {
            score: 1,
            name: "b".to_string(),
            full_path: "./b".to_string(),
        },
    ];
    assert_eq!(pick_candidate(&hits, 1), Some(0));
    assert_eq!(pick_candidate(&hits, 2), Some(1));
    assert_eq!(pick_candidate(&hits, 0), None);
    assert_eq!(pick_candidate(&hits, 3), None);
}

#[test]
fn classify_splits_at_the_last_dot() {
    let none: Vec<String> = Vec::new();
    assert_eq!(
        classify_file("main.rs", &none, &none),
        Some("main".to_string())
    );
    assert_eq!(
        classify_file("archive.tar.gz", &none, &none),
        Some("archive.tar".to_string())
    );
}

#[test]
fn classify_without_a_dot_keeps_an_empty_raw_name() {
    let none: Vec<String> = Vec::new();
    assert_eq!(classify_file("Makefile", &none, &none), Some(String::new()));
}

#[test]
fn classify_respects_the_exclude_set() {
    let exclude = vec!["rs".to_string(), "lock".to_string()];
    let none: Vec<String> = Vec::new();
    assert_eq!(classify_file("main.rs", &exclude, &none), None);
    assert_eq!(
        classify_file("notes.txt", &exclude, &none),
        Some("notes".to_string())
    );
}

#[test]
fn classify_focus_takes_precedence_over_exclude() {
    let exclude = vec!["rs".to_string()];
    let focus = vec!["rs".to_string()];
    assert_eq!(
        classify_file("main.rs", &exclude, &focus),
        Some("main".to_string())
    );
    assert_eq!(classify_file("notes.txt", &exclude, &focus), None);
}
