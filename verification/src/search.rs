//! Scoring dispatch: the set of fuzzy matching algorithms a caller may ask
//! for, and the scorer entry point that runs the one implemented variant.

use vstd::prelude::*;

use vstd::string::StringExecFns;

use crate::distance::damerau_levenshtein_distance;
use crate::distance::dl_distance;

verus! {

/// The fuzzy matching variants a caller can request. Only
/// `DamerauLevenshtein` has an implementation; asking for any other variant
/// fails with `SearchError::UnsupportedAlgorithm`.
#[derive(Debug, Clone, Copy, PartialEq, Eq)]
pub enum FuzzySearchAlgorithm {
    LEVENSHTEIN,
    DamerauLevenshtein,
    BITAP,
    JaroWinkler,
}

/// Why a search operation failed.
#[derive(Debug, Clone, Copy, PartialEq, Eq)]
pub enum SearchError {
    /// The requested fuzzy search algorithm has no implementation.
    UnsupportedAlgorithm(FuzzySearchAlgorithm),
}

impl SearchError {
    /// A human-readable description of the error.
    pub fn message(&self) -> (s: String)
        ensures
            s@ == "Algorithm not implemented"@,
    {
        String::from_str("Algorithm not implemented")
    }
}

/// Scores the similarity between a query and a file name with the requested
/// fuzzy search algorithm. Lower is better; 0 is a perfect match.
pub fn score_fuzzy_search(query: String, file_name: String, scorer: FuzzySearchAlgorithm) -> (r:
    Result<u32, SearchError>)
    requires
        query@.len() < u32::MAX,
        file_name@.len() < u32::MAX,
    ensures
        match scorer {
            FuzzySearchAlgorithm::DamerauLevenshtein => r matches Ok(d) && d == dl_distance(
                query@,
                file_name@,
            ),
            _ => r == Err::<u32, SearchError>(SearchError::UnsupportedAlgorithm(scorer)),
        },
{
    match scorer {
        FuzzySearchAlgorithm::DamerauLevenshtein => Ok(
            damerau_levenshtein_distance(query, file_name),
        ),
        _ => Err(SearchError::UnsupportedAlgorithm(scorer)),
    }
}

} // verus!
