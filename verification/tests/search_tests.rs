use ffs::distance::damerau_levenshtein_distance;
use ffs::search::{score_fuzzy_search, FuzzySearchAlgorithm, SearchError};

#[test]
fn test_damerau_levenshtein_distance() {
    assert_eq!(
        damerau_levenshtein_distance("irks".to_string(), "risk".to_string()),
        2
    );
    assert_eq!(
        damerau_levenshtein_distance("geeks".to_string(), "forgeeks".to_string()),
        3
    );
}

#[test]
fn distance_of_a_string_to_itself_is_zero() {
    assert_eq!(
        damerau_levenshtein_distance("main".to_string(), "main".to_string()),
        0
    );
    assert_eq!(
        damerau_levenshtein_distance(String::new(), String::new()),
        0
    );
}

#[test]
fn distance_is_symmetric_on_fixtures() {
    let pairs = [
        ("irks", "risk"),
        ("geeks", "forgeeks"),
        ("mian", "maintenance"),
        ("", "abc"),
        ("kitten", "sitting"),
    ];
    for (a, b) in pairs {
        assert_eq!(
            damerau_levenshtein_distance(a.to_string(), b.to_string()),
            damerau_levenshtein_distance(b.to_string(), a.to_string())
        );
    }
}

#[test]
fn transposition_counts_as_one_edit() {
    assert_eq!(
        damerau_levenshtein_distance("ab".to_string(), "ba".to_string()),
        1
    );
    assert_eq!(
        damerau_levenshtein_distance("mian".to_string(), "main".to_string()),
        1
    );
}

#[test]
fn distance_from_empty_is_the_other_length() {
    assert_eq!(
        damerau_levenshtein_distance(String::new(), "ba".to_string()),
        2
    );
    assert_eq!(
        damerau_levenshtein_distance("abcd".to_string(), String::new()),
        4
    );
}

#[test]
fn distance_compares_unicode_scalars() {
    // One substitution: 'e' vs 'é', counted as one character each.
    assert_eq!(
        damerau_levenshtein_distance("héllo".to_string(), "hello".to_string()),
        1
    );
}

#[test]
fn score_fuzzy_search_runs_the_implemented_algorithm() {
    assert_eq!(
        score_fuzzy_search(
            "irks".to_string(),
            "risk".to_string(),
            FuzzySearchAlgorithm::DamerauLevenshtein
        ),
        Ok(2)
    );
}

#[test]
fn score_fuzzy_search_rejects_unimplemented_algorithms() {
    for alg in [
        FuzzySearchAlgorithm::LEVENSHTEIN,
        FuzzySearchAlgorithm::BITAP,
        FuzzySearchAlgorithm::JaroWinkler,
    ] {
        assert_eq!(
            score_fuzzy_search("a".to_string(), "b".to_string(), alg),
            Err(SearchError::UnsupportedAlgorithm(alg))
        );
    }
}

#[test]
fn search_error_message_is_human_readable() {
    let e = SearchError::UnsupportedAlgorithm(FuzzySearchAlgorithm::BITAP);
    assert_eq!(e.message(), "Algorithm not implemented");
}
