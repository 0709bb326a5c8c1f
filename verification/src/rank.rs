//! Ranking: scores every candidate against the query, stable-sorts ascending
//! by score, and keeps the prefix of candidates whose score stays within a
//! length-adaptive threshold.

use vstd::prelude::*;

use crate::distance::dl_distance;
use crate::search::FuzzySearchAlgorithm;
use crate::search::SearchError;
use crate::search::score_fuzzy_search;

verus! {

/// One file eligible for matching: its name with the extension stripped, and
/// the path that opens it.
#[derive(Debug)]
pub struct Candidate {
    /// File name without its extension suffix.
    pub name: String,
    /// Full path of the file.
    pub full_path: String,
}

/// A candidate together with its distance from the query. Lower is better;
/// 0 means an exact match.
#[derive(Debug)]
pub struct ScoredCandidate {
    /// Distance between the query and `name`.
    pub score: u32,
    /// File name without its extension suffix.
    pub name: String,
    /// Full path of the file.
    pub full_path: String,
}

/// The mathematical image of a [`ScoredCandidate`].
pub ghost struct ScoredModel {
    /// Distance between the query and `name`.
    pub score: nat,
    /// Characters of the file name.
    pub name: Seq<char>,
    /// Characters of the full path.
    pub path: Seq<char>,
}

impl View for ScoredCandidate {
    type V = ScoredModel;

    open spec fn view(&self) -> ScoredModel {
        ScoredModel { score: self.score as nat, name: self.name@, path: self.full_path@ }
    }
}

impl DeepView for ScoredCandidate {
    type V = ScoredModel;

    open spec fn deep_view(&self) -> ScoredModel {
        self@
    }
}

/// The maximum score admitted into the result set for a query of `len`
/// characters: the ceiling of a quarter of the length for short queries, of
/// thirty-five hundredths up to ten characters, and of forty-five hundredths
/// beyond that.
pub open spec fn threshold_spec(len: nat) -> nat {
    if len <= 4 {
        // ceiling of len / 4
        ((len + 3) / 4) as nat
    } else if len <= 10 {
        // ceiling of 35 * len / 100
        ((7 * len + 19) / 20) as nat
    } else {
        // ceiling of 45 * len / 100
        ((9 * len + 19) / 20) as nat
    }
}

/// The threshold for a query of `query_len` characters.
pub fn threshold(query_len: usize) -> (t: u32)
    requires
        query_len <= u32::MAX,
    ensures
        t == threshold_spec(query_len as nat),
{
    let len = query_len as u64;
    if len <= 4 {
        ((len + 3) / 4) as u32
    } else if len <= 10 {
        ((7 * len + 19) / 20) as u32
    } else {
        ((9 * len + 19) / 20) as u32
    }
}

/// The model of one candidate scored against the query.
pub open spec fn scored_model(query: Seq<char>, c: Candidate) -> ScoredModel {
    ScoredModel { score: dl_distance(query, c.name@), name: c.name@, path: c.full_path@ }
}

/// The models of all candidates, each scored against the query, in input
/// order.
pub open spec fn scored_models(query: Seq<char>, cands: Seq<Candidate>) -> Seq<ScoredModel> {
    cands.map_values(|c: Candidate| scored_model(query, c))
}

/// Scores never decrease along the sequence.
pub open spec fn sorted_by_score(s: Seq<ScoredModel>) -> bool {
    forall|i: int, j: int| 0 <= i < j < s.len() ==> s[i].score <= s[j].score
}

/// Holds of the models whose score is exactly `v`.
pub open spec fn score_is(v: nat) -> spec_fn(ScoredModel) -> bool {
    |m: ScoredModel| m.score == v
}

/// Holds of the models whose score is at most `t`.
pub open spec fn score_within(t: nat) -> spec_fn(ScoredModel) -> bool {
    |m: ScoredModel| m.score <= t
}

/// Inserts `x` after every element whose score is at most `x.score`: the
/// insertion step of a stable insertion sort.
pub open spec fn insert_sorted(s: Seq<ScoredModel>, x: ScoredModel) -> Seq<ScoredModel>
    decreases s.len(),
{
    if s.len() == 0 {
        seq![x]
    } else if s.last().score <= x.score {
        s.push(x)
    } else {
        insert_sorted(s.drop_last(), x).push(s.last())
    }
}

/// Stable sort ascending by score: inserting the elements left to right keeps
/// equal-score elements in their original order.
pub open spec fn sort_stable(s: Seq<ScoredModel>) -> Seq<ScoredModel>
    decreases s.len(),
{
    if s.len() == 0 {
        Seq::empty()
    } else {
        insert_sorted(sort_stable(s.drop_last()), s.last())
    }
}

/// What ranking returns: every candidate scored against the query, the whole
/// stable-sorted ascending by score, cut down to the models whose score stays
/// within the threshold for the query's length.
pub open spec fn ranked_spec(query: Seq<char>, cands: Seq<Candidate>) -> Seq<ScoredModel> {
    sort_stable(scored_models(query, cands)).filter(score_within(threshold_spec(query.len())))
}

/// Where the scan of the exec insertion step ends: past every element whose
/// score is at most `x.score`, counted from the right.
spec fn insertion_point(s: Seq<ScoredModel>, x: ScoredModel) -> int
    decreases s.len(),
{
    if s.len() == 0 {
        0
    } else if s.last().score <= x.score {
        s.len() as int
    } else {
        insertion_point(s.drop_last(), x)
    }
}

/// On a sorted sequence the insertion point splits the elements with score at
/// most `x.score` from those strictly above it.
proof fn lemma_insertion_point(s: Seq<ScoredModel>, x: ScoredModel)
    requires
        sorted_by_score(s),
    ensures
        0 <= insertion_point(s, x) <= s.len(),
        forall|k: int| 0 <= k < insertion_point(s, x) ==> s[k].score <= x.score,
        forall|k: int| insertion_point(s, x) <= k < s.len() ==> s[k].score > x.score,
    decreases s.len(),
{
    if s.len() == 0 {
    } else if s.last().score <= x.score {
        assert forall|k: int| 0 <= k < s.len() implies s[k].score <= x.score by {
            if k < s.len() - 1 {
                assert(s[k].score <= s[s.len() - 1].score);
            }
        }
    } else {
        lemma_insertion_point(s.drop_last(), x);
        let ip = insertion_point(s, x);
        assert(ip == insertion_point(s.drop_last(), x));
        assert forall|k: int| 0 <= k < ip implies s[k].score <= x.score by {
            assert(s.drop_last()[k] == s[k]);
        }
        assert forall|k: int| ip <= k < s.len() implies s[k].score > x.score by {
            if k < s.len() - 1 {
                assert(s.drop_last()[k] == s[k]);
            } else {
                assert(s[k] == s.last());
            }
        }
    }
}

/// Inserting at a position that splits the low scores from the strictly
/// higher ones is exactly what `insert_sorted` does.
proof fn lemma_insert_sorted_at(s: Seq<ScoredModel>, x: ScoredModel, pos: int)
    requires
        0 <= pos <= s.len(),
        forall|k: int| 0 <= k < pos ==> s[k].score <= x.score,
        forall|k: int| pos <= k < s.len() ==> s[k].score > x.score,
    ensures
        insert_sorted(s, x) == s.take(pos) + seq![x] + s.skip(pos),
    decreases s.len(),
{
    if s.len() == 0 {
        assert(insert_sorted(s, x) =~= s.take(pos) + seq![x] + s.skip(pos));
    } else if s.last().score <= x.score {
        assert(pos == s.len());
        assert(s.push(x) =~= s.take(pos) + seq![x] + s.skip(pos));
    } else {
        assert(pos < s.len());
        lemma_insert_sorted_at(s.drop_last(), x, pos);
        assert(insert_sorted(s.drop_last(), x).push(s.last()) =~= s.take(pos) + seq![x] + s.skip(
            pos,
        ));
    }
}

/// Inserting into a sorted sequence keeps it sorted and grows it by one.
proof fn lemma_insert_sorted_sorted(s: Seq<ScoredModel>, x: ScoredModel)
    requires
        sorted_by_score(s),
    ensures
        insert_sorted(s, x).len() == s.len() + 1,
        sorted_by_score(insert_sorted(s, x)),
{
    let pos = insertion_point(s, x);
    lemma_insertion_point(s, x);
    lemma_insert_sorted_at(s, x, pos);
    let t = insert_sorted(s, x);
    assert forall|i: int, j: int| 0 <= i < j < t.len() implies t[i].score <= t[j].score by {
        if i < pos {
            assert(t[i] == s[i]);
        } else if i == pos {
            assert(t[i] == x);
        } else {
            assert(t[i] == s[i - 1]);
        }
        if j < pos {
            assert(t[j] == s[j]);
        } else if j == pos {
            assert(t[j] == x);
        } else {
            assert(t[j] == s[j - 1]);
        }
    }
}

/// A stable sort keeps the length and sorts the scores.
pub proof fn lemma_sort_stable_sorted(s: Seq<ScoredModel>)
    ensures
        sort_stable(s).len() == s.len(),
        sorted_by_score(sort_stable(s)),
    decreases s.len(),
{
    if s.len() > 0 {
        lemma_sort_stable_sorted(s.drop_last());
        lemma_insert_sorted_sorted(sort_stable(s.drop_last()), s.last());
    }
}

/// Filtering commutes with `push` the obvious way.
proof fn lemma_filter_push(s: Seq<ScoredModel>, x: ScoredModel, pred: spec_fn(ScoredModel) -> bool)
    ensures
        s.push(x).filter(pred) == (if pred(x) {
            s.filter(pred).push(x)
        } else {
            s.filter(pred)
        }),
{
    reveal(Seq::filter);
    let t = s.push(x);
    assert(t.drop_last() =~= s);
    assert(t.last() == x);
    assert(t.len() == s.len() + 1);
}

/// Inserting `x` with `insert_sorted` appends it to the subsequence of
/// elements sharing its score and leaves every other score class unchanged:
/// the heart of stability.
proof fn lemma_insert_sorted_filter(s: Seq<ScoredModel>, x: ScoredModel, v: nat)
    ensures
        insert_sorted(s, x).filter(score_is(v)) == (if x.score == v {
            s.filter(score_is(v)).push(x)
        } else {
            s.filter(score_is(v))
        }),
    decreases s.len(),
{
    reveal(Seq::filter);
    let pred = score_is(v);
    if s.len() == 0 {
        assert(s =~= Seq::<ScoredModel>::empty());
        assert(Seq::<ScoredModel>::empty().push(x) =~= seq![x]);
        lemma_filter_push(Seq::<ScoredModel>::empty(), x, pred);
    } else if s.last().score <= x.score {
        lemma_filter_push(s, x, pred);
    } else {
        lemma_insert_sorted_filter(s.drop_last(), x, v);
        lemma_filter_push(insert_sorted(s.drop_last(), x), s.last(), pred);
        lemma_filter_push(s.drop_last(), s.last(), pred);
        assert(s.drop_last().push(s.last()) =~= s);
    }
}

/// A stable sort reorders nothing within one score class: the subsequence of
/// models at any given score is the same before and after sorting.
pub proof fn lemma_sort_stable_filter(s: Seq<ScoredModel>, v: nat)
    ensures
        sort_stable(s).filter(score_is(v)) == s.filter(score_is(v)),
    decreases s.len(),
{
    reveal(Seq::filter);
    if s.len() > 0 {
        lemma_sort_stable_filter(s.drop_last(), v);
        lemma_insert_sorted_filter(sort_stable(s.drop_last()), s.last(), v);
        lemma_filter_push(s.drop_last(), s.last(), score_is(v));
        assert(s.drop_last().push(s.last()) =~= s);
    }
}

/// On a sorted sequence, keeping the scores within `t` is the same as taking
/// the prefix before the first score above `t`: the early exit of the
/// threshold cut drops nothing that qualifies.
proof fn lemma_sorted_cut(s: Seq<ScoredModel>, t: nat, i: int)
    requires
        sorted_by_score(s),
        0 <= i <= s.len(),
        forall|k: int| 0 <= k < i ==> s[k].score <= t,
        forall|k: int| i <= k < s.len() ==> s[k].score > t,
    ensures
        s.filter(score_within(t)) == s.take(i),
    decreases s.len(),
{
    reveal(Seq::filter);
    if s.len() == 0 {
        assert(s.take(i) =~= s.filter(score_within(t)));
    } else if i == s.len() {
        lemma_filter_push(s.drop_last(), s.last(), score_within(t));
        assert(s.drop_last().push(s.last()) =~= s);
        lemma_sorted_cut(s.drop_last(), t, i - 1);
        assert(s.drop_last().take(i - 1) =~= s.drop_last());
        assert(s.drop_last().push(s.last()) =~= s.take(i));
    } else {
        lemma_filter_push(s.drop_last(), s.last(), score_within(t));
        assert(s.drop_last().push(s.last()) =~= s);
        lemma_sorted_cut(s.drop_last(), t, i);
        assert(s.drop_last().take(i) =~= s.take(i));
    }
}

/// Where a sorted sequence first exceeds `t`, counted from the right.
spec fn cut_point(s: Seq<ScoredModel>, t: nat) -> int
    decreases s.len(),
{
    if s.len() == 0 {
        0
    } else if s.last().score > t {
        cut_point(s.drop_last(), t)
    } else {
        s.len() as int
    }
}

/// On a sorted sequence the cut point splits the scores within `t` from those
/// strictly above it.
proof fn lemma_cut_point(s: Seq<ScoredModel>, t: nat)
    requires
        sorted_by_score(s),
    ensures
        0 <= cut_point(s, t) <= s.len(),
        forall|k: int| 0 <= k < cut_point(s, t) ==> s[k].score <= t,
        forall|k: int| cut_point(s, t) <= k < s.len() ==> s[k].score > t,
    decreases s.len(),
{
    if s.len() == 0 {
    } else if s.last().score > t {
        lemma_cut_point(s.drop_last(), t);
        let cp = cut_point(s, t);
        assert(cp == cut_point(s.drop_last(), t));
        assert forall|k: int| 0 <= k < cp implies s[k].score <= t by {
            assert(s.drop_last()[k] == s[k]);
        }
        assert forall|k: int| cp <= k < s.len() implies s[k].score > t by {
            if k < s.len() - 1 {
                assert(s.drop_last()[k] == s[k]);
            } else {
                assert(s[k] == s.last());
            }
        }
    } else {
        assert forall|k: int| 0 <= k < s.len() implies s[k].score <= t by {
            if k < s.len() - 1 {
                assert(s[k].score <= s[s.len() - 1].score);
            }
        }
    }
}

/// Filtering for one score class commutes through the threshold cut: classes
/// within the threshold pass unharmed, classes above it vanish.
proof fn lemma_filter_within_is(s: Seq<ScoredModel>, t: nat, v: nat)
    ensures
        v <= t ==> s.filter(score_within(t)).filter(score_is(v)) == s.filter(score_is(v)),
        v > t ==> s.filter(score_within(t)).filter(score_is(v)) == Seq::<ScoredModel>::empty(),
    decreases s.len(),
{
    reveal(Seq::filter);
    if s.len() == 0 {
        assert(s.filter(score_within(t)) =~= Seq::<ScoredModel>::empty());
        assert(Seq::<ScoredModel>::empty().filter(score_is(v)) =~= Seq::<ScoredModel>::empty());
    } else {
        lemma_filter_within_is(s.drop_last(), t, v);
        lemma_filter_push(s.drop_last(), s.last(), score_within(t));
        lemma_filter_push(s.drop_last(), s.last(), score_is(v));
        assert(s.drop_last().push(s.last()) =~= s);
        lemma_filter_push(s.drop_last().filter(score_within(t)), s.last(), score_is(v));
    }
}

/// The ranked result is sorted ascending by score and admits no score above
/// the threshold for the query's length.
pub proof fn lemma_rank_sorted_within(query: Seq<char>, cands: Seq<Candidate>)
    ensures
        sorted_by_score(ranked_spec(query, cands)),
        forall|k: int|
            0 <= k < ranked_spec(query, cands).len() ==> ranked_spec(query, cands)[k].score
                <= threshold_spec(query.len()),
{
    let sm = scored_models(query, cands);
    let ss = sort_stable(sm);
    let t = threshold_spec(query.len());
    lemma_sort_stable_sorted(sm);
    lemma_cut_point(ss, t);
    lemma_sorted_cut(ss, t, cut_point(ss, t));
}

/// Stability and completeness of ranking, score class by score class: for any
/// score `v` within the threshold, the ranked result contains exactly the
/// candidates scoring `v`, in their input order; no candidate scoring above
/// the threshold survives. Together with sortedness this pins the ranked
/// result down completely.
pub proof fn lemma_rank_stable(query: Seq<char>, cands: Seq<Candidate>, v: nat)
    ensures
        v <= threshold_spec(query.len()) ==> ranked_spec(query, cands).filter(score_is(v))
            == scored_models(query, cands).filter(score_is(v)),
        v > threshold_spec(query.len()) ==> ranked_spec(query, cands).filter(score_is(v))
            == Seq::<ScoredModel>::empty(),
{
    let sm = scored_models(query, cands);
    let t = threshold_spec(query.len());
    lemma_filter_within_is(sort_stable(sm), t, v);
    lemma_sort_stable_filter(sm, v);
}

/// Scores every candidate against `query` with the requested algorithm, in
/// input order. A scoring failure aborts the walk and surfaces the error.
fn score_all(
    query: &String,
    candidates: &Vec<Candidate>,
    scorer: FuzzySearchAlgorithm,
) -> (r: Result<Vec<ScoredCandidate>, SearchError>)
    requires
        query@.len() < u32::MAX,
        forall|k: int|
            0 <= k < candidates@.len() ==> (#[trigger] candidates@[k]).name@.len() < u32::MAX,
    ensures
        (scorer is DamerauLevenshtein || candidates@.len() == 0) ==> (r matches Ok(scored)
            && scored.deep_view() == scored_models(query@, candidates@)),
        !(scorer is DamerauLevenshtein) && candidates@.len() > 0 ==> r == Err::<
            Vec<ScoredCandidate>,
            SearchError,
        >(SearchError::UnsupportedAlgorithm(scorer)),
{
    let ghost q = query@;
    let ghost cands0 = candidates@;
    let mut scored: Vec<ScoredCandidate> = Vec::new();
    let mut i: usize = 0;
    while i < candidates.len()
        invariant
            i <= cands0.len(),
            candidates@ == cands0,
            q == query@,
            query@.len() < u32::MAX,
            forall|k: int| 0 <= k < cands0.len() ==> (#[trigger] cands0[k]).name@.len() < u32::MAX,
            i > 0 ==> scorer is DamerauLevenshtein,
            scored.deep_view() == scored_models(q, cands0.take(i as int)),
        decreases cands0.len() - i,
    {
        let ghost prev = scored.deep_view();
        match score_fuzzy_search(query.clone(), candidates[i].name.clone(), scorer) {
            Ok(d) => {
                scored.push(
                    ScoredCandidate {
                        score: d,
                        name: candidates[i].name.clone(),
                        full_path: candidates[i].full_path.clone(),
                    },
                );
            },
            Err(e) => {
                return Err(e);
            },
        }
        proof {
            assert(prev.len() == i as int);
            assert(scored.deep_view().len() == i + 1);
            assert(scored@[i as int]@.score == dl_distance(q, cands0[i as int].name@));
            let next = scored_models(q, cands0.take(i + 1));
            assert forall|j: int| 0 <= j < i + 1 implies scored.deep_view()[j] == next[j] by {
                assert(next[j] == scored_model(q, cands0.take(i + 1)[j]));
                if j < i {
                    assert(scored.deep_view()[j] == prev[j]);
                    assert(prev[j] == scored_models(q, cands0.take(i as int))[j]);
                    assert(scored_models(q, cands0.take(i as int))[j] == scored_model(
                        q,
                        cands0.take(i as int)[j],
                    ));
                }
            }
            assert(scored.deep_view() =~= next);
        }
        i += 1;
    }
    proof {
        assert(cands0.take(cands0.len() as int) =~= cands0);
    }
    Ok(scored)
}

/// Stable insertion sort of the scored candidates, ascending by score.
fn sort_by_score(scored: Vec<ScoredCandidate>) -> (s: Vec<ScoredCandidate>)
    ensures
        s.deep_view() == sort_stable(scored.deep_view()),
        sorted_by_score(s.deep_view()),
{
    let ghost sm = scored.deep_view();
    let mut rest = scored;
    let mut sorted_v: Vec<ScoredCandidate> = Vec::new();
    while rest.len() > 0
        invariant
            rest@.len() <= sm.len(),
            sorted_v@.len() + rest@.len() == sm.len(),
            sorted_v.deep_view() == sort_stable(sm.take(sm.len() - rest@.len())),
            rest.deep_view() == sm.skip(sm.len() - rest@.len()),
            sorted_by_score(sorted_v.deep_view()),
        decreases rest@.len(),
    {
        let ghost k = sm.len() - rest@.len();
        let ghost dv = sorted_v.deep_view();
        let ghost prev_rest = rest.deep_view();
        let ghost prev_rest_v = rest@;
        let x = rest.remove(0);
        proof {
            assert(prev_rest.len() == prev_rest_v.len());
            assert(x.deep_view() == prev_rest[0]);
            assert(prev_rest[0] == sm[k as int]);
            assert(rest@ =~= prev_rest_v.skip(1));
            assert forall|j: int| 0 <= j < rest@.len() implies rest.deep_view()[j] == sm.skip(
                k as int + 1,
            )[j] by {
                assert(rest.deep_view()[j] == rest@[j]@);
                assert(rest@[j] == prev_rest_v[j + 1]);
                assert(prev_rest[j + 1] == prev_rest_v[j + 1]@);
                assert(prev_rest[j + 1] == sm.skip(k as int)[j + 1]);
            }
            assert(rest.deep_view() =~= sm.skip(k as int + 1));
        }
        let mut pos = sorted_v.len();
        while pos > 0 && sorted_v[pos - 1].score > x.score
            invariant
                pos <= sorted_v@.len(),
                dv == sorted_v.deep_view(),
                forall|j: int| pos <= j < dv.len() ==> #[trigger] dv[j].score > x@.score,
            decreases pos,
        {
            proof {
                assert(dv[pos - 1] == sorted_v@[pos - 1]@);
            }
            pos -= 1;
        }
        proof {
            assert forall|j: int| 0 <= j < pos implies dv[j].score <= x@.score by {
                assert(dv[pos - 1] == sorted_v@[pos - 1]@);
                if j < pos - 1 {
                    assert(dv[j].score <= dv[pos - 1].score);
                }
            }
            lemma_insert_sorted_at(dv, x@, pos as int);
            lemma_insert_sorted_sorted(dv, x@);
        }
        sorted_v.insert(pos, x);
        proof {
            assert(x.deep_view() == x@);
            assert(sorted_v.deep_view() =~= dv.take(pos as int) + seq![x@] + dv.skip(pos as int));
            assert(sm.take(k as int + 1).drop_last() =~= sm.take(k as int));
            assert(sm.take(k as int + 1).last() == sm[k as int]);
        }
    }
    proof {
        assert(sm.take(sm.len() as int) =~= sm);
    }
    sorted_v
}

/// Keeps the leading run of results whose score stays within `t`. On a
/// sorted input the run holds exactly the results scoring within `t`: the
/// sorted tail past the first score above `t` cannot qualify.
fn cut_within(sorted_v: Vec<ScoredCandidate>, t: u32) -> (hits: Vec<ScoredCandidate>)
    requires
        sorted_by_score(sorted_v.deep_view()),
    ensures
        hits.deep_view() == sorted_v.deep_view().filter(score_within(t as nat)),
{
    let ghost ss = sorted_v.deep_view();
    let mut rest2 = sorted_v;
    let mut hits: Vec<ScoredCandidate> = Vec::new();
    while rest2.len() > 0 && rest2[0].score <= t
        invariant
            sorted_by_score(ss),
            hits@.len() + rest2@.len() == ss.len(),
            hits.deep_view() + rest2.deep_view() == ss,
            forall|j: int| 0 <= j < hits@.len() ==> #[trigger] hits.deep_view()[j].score <= t as nat,
        decreases rest2@.len(),
    {
        let ghost prev_hits = hits.deep_view();
        let ghost prev_rest2 = rest2.deep_view();
        let c = rest2.remove(0);
        proof {
            assert(c.deep_view() == prev_rest2[0]);
        }
        hits.push(c);
        proof {
            assert(hits.deep_view() =~= prev_hits.push(c@));
            assert(rest2.deep_view() =~= prev_rest2.skip(1));
            assert(hits.deep_view() + rest2.deep_view() =~= prev_hits + prev_rest2);
            assert forall|j: int| 0 <= j < hits@.len() implies #[trigger] hits.deep_view()[j].score
                <= t as nat by {
                if j < prev_hits.len() {
                    assert(hits.deep_view()[j] == prev_hits[j]);
                } else {
                    assert(hits.deep_view()[j] == c@);
                    assert(c@ == prev_rest2[0]);
                }
            }
        }
    }
    proof {
        let cut = hits@.len() as int;
        assert forall|j: int| cut <= j < ss.len() implies ss[j].score > t as nat by {
            assert(ss[cut] == rest2.deep_view()[0]);
            assert(rest2.deep_view()[0] == rest2@[0]@);
            assert(ss[cut].score > t as nat);
            if j > cut {
                assert(ss[cut].score <= ss[j].score);
            }
        }
        lemma_sorted_cut(ss, t as nat, cut);
        assert(hits.deep_view() =~= ss.take(cut));
    }
    hits
}

/// Scores every candidate against `query` with the requested algorithm,
/// stable-sorts the scored candidates ascending by score, and keeps the
/// leading run whose score stays within the threshold for the query's length
/// (the sorted tail past the first score above the threshold cannot qualify).
///
/// An empty candidate list yields the empty result for any algorithm. A
/// scoring failure — an algorithm without an implementation, with at least
/// one candidate to score — aborts the whole ranking and surfaces the error.
pub fn rank_and_threshold(
    query: &String,
    candidates: Vec<Candidate>,
    scorer: FuzzySearchAlgorithm,
) -> (r: Result<Vec<ScoredCandidate>, SearchError>)
    requires
        query@.len() < u32::MAX,
        forall|k: int|
            0 <= k < candidates@.len() ==> (#[trigger] candidates@[k]).name@.len() < u32::MAX,
    ensures
        (scorer is DamerauLevenshtein || candidates@.len() == 0) ==> (r matches Ok(hits)
            && hits.deep_view() == ranked_spec(query@, candidates@)),
        !(scorer is DamerauLevenshtein) && candidates@.len() > 0 ==> r == Err::<
            Vec<ScoredCandidate>,
            SearchError,
        >(SearchError::UnsupportedAlgorithm(scorer)),
        r matches Ok(hits) ==> sorted_by_score(hits.deep_view()),
        r matches Ok(hits) ==> forall|k: int|
            0 <= k < hits.deep_view().len() ==> #[trigger] hits.deep_view()[k].score
                <= threshold_spec(query@.len()),
{
    let scored = match score_all(query, &candidates, scorer) {
        Ok(scored) => scored,
        Err(e) => {
            return Err(e);
        },
    };
    let sorted_v = sort_by_score(scored);
    let qlen = query.as_str().unicode_len();
    let t = threshold(qlen);
    let ghost ss = sorted_v.deep_view();
    let hits = cut_within(sorted_v, t);
    proof {
        let tt = threshold_spec(query@.len());
        lemma_cut_point(ss, tt);
        lemma_sorted_cut(ss, tt, cut_point(ss, tt));
    }
    Ok(hits)
}

} // verus!
