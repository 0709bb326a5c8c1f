//! Result selection outside the interactive browser: exact matching, turning
//! a caller-supplied keep/drop decision per candidate into a score-0 result
//! set, and validating a numeric pick against a result list.

use vstd::prelude::*;

use crate::rank::Candidate;
use crate::rank::ScoredCandidate;
use crate::rank::ScoredModel;

verus! {

/// The model of `c` as a perfect hit: score 0.
pub open spec fn zero_model(c: Candidate) -> ScoredModel {
    ScoredModel { score: 0, name: c.name@, path: c.full_path@ }
}

/// The candidates whose keep flag is set, in input order, each as a hit with
/// score 0.
pub open spec fn zero_hits_spec(cands: Seq<Candidate>, keep: Seq<bool>) -> Seq<ScoredModel>
    recommends
        keep.len() == cands.len(),
    decreases cands.len(),
{
    if cands.len() == 0 {
        Seq::empty()
    } else {
        let rest = zero_hits_spec(cands.drop_last(), keep.drop_last());
        if keep.last() {
            rest.push(zero_model(cands.last()))
        } else {
            rest
        }
    }
}

/// The candidates whose name equals the query, in input order, each as a hit
/// with score 0.
pub open spec fn exact_hits_spec(query: Seq<char>, cands: Seq<Candidate>) -> Seq<ScoredModel>
    decreases cands.len(),
{
    if cands.len() == 0 {
        Seq::empty()
    } else {
        let rest = exact_hits_spec(query, cands.drop_last());
        if cands.last().name@ == query {
            rest.push(zero_model(cands.last()))
        } else {
            rest
        }
    }
}

/// Keeps the candidates whose keep flag is set, in input order, as hits with
/// score 0. The caller decides the flags; matching modes that bypass scoring
/// (a regular expression over the name, say) feed their verdicts in here.
pub fn masked_zero_hits(candidates: Vec<Candidate>, keep: &Vec<bool>) -> (hits: Vec<
    ScoredCandidate,
>)
    requires
        keep@.len() == candidates@.len(),
    ensures
        hits.deep_view() == zero_hits_spec(candidates@, keep@),
{
    let ghost cands0 = candidates@;
    let mut hits: Vec<ScoredCandidate> = Vec::new();
    let mut i: usize = 0;
    while i < candidates.len()
        invariant
            i <= cands0.len(),
            candidates@ == cands0,
            keep@.len() == cands0.len(),
            hits.deep_view() == zero_hits_spec(cands0.take(i as int), keep@.take(i as int)),
        decreases cands0.len() - i,
    {
        let ghost prev = hits.deep_view();
        if keep[i] {
            hits.push(
                ScoredCandidate {
                    score: 0,
                    name: candidates[i].name.clone(),
                    full_path: candidates[i].full_path.clone(),
                },
            );
        }
        proof {
            assert(cands0.take(i + 1).drop_last() =~= cands0.take(i as int));
            assert(keep@.take(i + 1).drop_last() =~= keep@.take(i as int));
            assert(cands0.take(i + 1).last() == cands0[i as int]);
            assert(keep@.take(i + 1).last() == keep@[i as int]);
            if keep@[i as int] {
                assert(hits@.len() == prev.len() + 1);
                assert(hits.deep_view().len() == prev.len() + 1);
                assert(hits.deep_view()[prev.len() as int] == zero_model(cands0[i as int]));
                assert(hits.deep_view() =~= prev.push(zero_model(cands0[i as int])));
            }
        }
        i += 1;
    }
    proof {
        assert(cands0.take(cands0.len() as int) =~= cands0);
        assert(keep@.take(cands0.len() as int) =~= keep@);
    }
    hits
}

/// Keeps the candidates whose name equals the query exactly, in input order,
/// as hits with score 0.
pub fn exact_match_hits(query: &String, candidates: Vec<Candidate>) -> (hits: Vec<ScoredCandidate>)
    ensures
        hits.deep_view() == exact_hits_spec(query@, candidates@),
{
    let ghost q = query@;
    let ghost cands0 = candidates@;
    let mut hits: Vec<ScoredCandidate> = Vec::new();
    let mut i: usize = 0;
    while i < candidates.len()
        invariant
            i <= cands0.len(),
            candidates@ == cands0,
            q == query@,
            hits.deep_view() == exact_hits_spec(q, cands0.take(i as int)),
        decreases cands0.len() - i,
    {
        let ghost prev = hits.deep_view();
        if candidates[i].name == *query {
            hits.push(
                ScoredCandidate {
                    score: 0,
                    name: candidates[i].name.clone(),
                    full_path: candidates[i].full_path.clone(),
                },
            );
        }
        proof {
            assert(cands0.take(i + 1).drop_last() =~= cands0.take(i as int));
            assert(cands0.take(i + 1).last() == cands0[i as int]);
            if cands0[i as int].name@ == q {
                assert(hits@.len() == prev.len() + 1);
                assert(hits.deep_view().len() == prev.len() + 1);
                assert(hits.deep_view()[prev.len() as int] == zero_model(cands0[i as int]));
                assert(hits.deep_view() =~= prev.push(zero_model(cands0[i as int])));
            }
        }
        i += 1;
    }
    proof {
        assert(cands0.take(cands0.len() as int) =~= cands0);
    }
    hits
}

/// Turns a one-based result number, as typed at the selection prompt, into an
/// index into `hits`: numbers outside `1 ..= hits.len()` select nothing.
pub fn pick_candidate(hits: &Vec<ScoredCandidate>, number: usize) -> (r: Option<usize>)
    ensures
        r == (if 1 <= number <= hits@.len() {
            Some((number - 1) as usize)
        } else {
            None::<usize>
        }),
{
    if 1 <= number && number <= hits.len() {
        Some(number - 1)
    } else {
        None
    }
}

} // verus!
