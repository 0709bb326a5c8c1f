//! The Damerau–Levenshtein edit distance: a mathematical definition by the
//! standard dynamic-programming recurrence, its basic laws, and a verified
//! table-filling implementation.
//!
//! Comparison is over Unicode scalar values, case-sensitive, without
//! normalization. The four unit-cost operations are insertion, deletion,
//! substitution, and transposition of two adjacent characters.

use vstd::prelude::*;

use vstd::string::StrSliceExecFns;

verus! {

/// The smaller of two naturals.
pub open spec fn min_nat(x: nat, y: nat) -> nat {
    if x <= y {
        x
    } else {
        y
    }
}

/// The smallest of three naturals.
pub open spec fn min3_nat(x: nat, y: nat, z: nat) -> nat {
    min_nat(x, min_nat(y, z))
}

/// Damerau–Levenshtein distance between two character sequences, defined by
/// the dynamic-programming recurrence on the sequences' last characters:
/// erase a character of either side (cost 1), substitute the last characters
/// (cost 1, free when they match), or, when the two last characters of each
/// side form a transposed pair, swap them (cost 1).
pub open spec fn dl_distance(a: Seq<char>, b: Seq<char>) -> nat
    decreases a.len() + b.len(),
{
    if a.len() == 0 {
        b.len()
    } else if b.len() == 0 {
        a.len()
    } else {
        let base = if a.last() == b.last() {
            dl_distance(a.drop_last(), b.drop_last())
        } else {
            1 + min3_nat(
                dl_distance(a.drop_last(), b),
                dl_distance(a, b.drop_last()),
                dl_distance(a.drop_last(), b.drop_last()),
            )
        };
        if a.len() >= 2 && b.len() >= 2 && a.last() == b[b.len() - 2] && a[a.len() - 2]
            == b.last() {
            min_nat(base, dl_distance(a.take(a.len() - 2), b.take(b.len() - 2)) + 1)
        } else {
            base
        }
    }
}

/// The distance never exceeds the longer sequence's length: substituting the
/// overlap and erasing or inserting the rest always suffices.
pub proof fn lemma_dl_distance_bound(a: Seq<char>, b: Seq<char>)
    ensures
        dl_distance(a, b) <= a.len() || dl_distance(a, b) <= b.len(),
        dl_distance(a, b) <= a.len() + b.len(),
    decreases a.len() + b.len(),
{
    if a.len() == 0 || b.len() == 0 {
    } else {
        lemma_dl_distance_bound(a.drop_last(), b.drop_last());
        lemma_dl_distance_bound(a.drop_last(), b);
        lemma_dl_distance_bound(a, b.drop_last());
    }
}

/// Every string is at distance 0 from itself.
pub proof fn lemma_distance_self(a: Seq<char>)
    ensures
        dl_distance(a, a) == 0,
    decreases a.len(),
{
    if a.len() > 0 {
        lemma_distance_self(a.drop_last());
    }
}

/// The distance is symmetric: each edit operation has an inverse of the same
/// cost, and the recurrence mirrors itself under swapping the arguments.
pub proof fn lemma_distance_symmetric(a: Seq<char>, b: Seq<char>)
    ensures
        dl_distance(a, b) == dl_distance(b, a),
    decreases a.len() + b.len(),
{
    if a.len() > 0 && b.len() > 0 {
        lemma_distance_symmetric(a.drop_last(), b.drop_last());
        lemma_distance_symmetric(a.drop_last(), b);
        lemma_distance_symmetric(a, b.drop_last());
        if a.len() >= 2 && b.len() >= 2 {
            lemma_distance_symmetric(a.take(a.len() - 2), b.take(b.len() - 2));
        }
    }
}

/// The characters of a string slice, gathered into a vector.
fn chars_vec(s: &str) -> (r: Vec<char>)
    ensures
        r@ == s@,
{
    let n = s.unicode_len();
    let mut r: Vec<char> = Vec::new();
    let mut i: usize = 0;
    while i < n
        invariant
            i <= n,
            n == s@.len(),
            r@ == s@.take(i as int),
        decreases n - i,
    {
        r.push(s.get_char(i));
        proof {
            assert(s@.take(i as int).push(s@[i as int]) =~= s@.take(i + 1));
        }
        i += 1;
    }
    proof {
        assert(s@.take(n as int) =~= s@);
    }
    r
}

/// The recurrence for one cell of the distance table, phrased over prefix
/// lengths `i` and `j` of the two full sequences.
spec fn dl_cell(a: Seq<char>, b: Seq<char>, i: int, j: int) -> nat {
    let base = if a[i - 1] == b[j - 1] {
        dl_distance(a.take(i - 1), b.take(j - 1))
    } else {
        1 + min3_nat(
            dl_distance(a.take(i - 1), b.take(j)),
            dl_distance(a.take(i), b.take(j - 1)),
            dl_distance(a.take(i - 1), b.take(j - 1)),
        )
    };
    if i >= 2 && j >= 2 && a[i - 1] == b[j - 2] && a[i - 2] == b[j - 1] {
        min_nat(base, dl_distance(a.take(i - 2), b.take(j - 2)) + 1)
    } else {
        base
    }
}

/// One cell of the distance table follows from its three (or four)
/// neighbours exactly as the recurrence on last characters dictates.
proof fn lemma_dl_step(a: Seq<char>, b: Seq<char>, i: int, j: int)
    requires
        1 <= i <= a.len(),
        1 <= j <= b.len(),
    ensures
        dl_distance(a.take(i), b.take(j)) == dl_cell(a, b, i, j),
{
    let ai = a.take(i);
    let bj = b.take(j);
    assert(ai.drop_last() =~= a.take(i - 1));
    assert(bj.drop_last() =~= b.take(j - 1));
    assert(ai.last() == a[i - 1]);
    assert(bj.last() == b[j - 1]);
    if i >= 2 && j >= 2 {
        assert(ai.take(ai.len() - 2) =~= a.take(i - 2));
        assert(bj.take(bj.len() - 2) =~= b.take(j - 2));
        assert(ai[ai.len() - 2] == a[i - 2]);
        assert(bj[bj.len() - 2] == b[j - 2]);
    }
}

/// Computes the Damerau–Levenshtein distance between two strings by filling
/// the full dynamic-programming table row by row.
pub fn damerau_levenshtein_distance(query: String, file_name: String) -> (r: u32)
    requires
        query@.len() < u32::MAX,
        file_name@.len() < u32::MAX,
    ensures
        r == dl_distance(query@, file_name@),
{
    let a = chars_vec(query.as_str());
    let b = chars_vec(file_name.as_str());
    let n = a.len();
    let m = b.len();

    let mut dp: Vec<Vec<u32>> = Vec::new();

    // Row 0: distance from the empty prefix of the query is the prefix
    // length of the file name.
    let mut row0: Vec<u32> = Vec::new();
    let mut j: usize = 0;
    while j <= m
        invariant
            j <= m + 1,
            m == b@.len(),
            m < u32::MAX,
            row0@.len() == j,
            forall|c: int| 0 <= c < j ==> row0@[c] == dl_distance(a@.take(0), b@.take(c)),
        decreases m + 1 - j,
    {
        proof {
            assert(a@.take(0).len() == 0);
            assert(b@.take(j as int).len() == j);
        }
        row0.push(j as u32);
        j += 1;
    }
    dp.push(row0);

    let mut i: usize = 1;
    while i <= n
        invariant
            1 <= i <= n + 1,
            n == a@.len(),
            n < u32::MAX,
            m == b@.len(),
            m < u32::MAX,
            dp@.len() == i,
            forall|r: int| 0 <= r < i ==> (#[trigger] dp@[r])@.len() == m + 1,
            forall|r: int, c: int|
                0 <= r < i && 0 <= c <= m ==> #[trigger] dp@[r]@[c] == dl_distance(
                    a@.take(r),
                    b@.take(c),
                ),
        decreases n + 1 - i,
    {
        let mut row: Vec<u32> = Vec::new();
        proof {
            assert(b@.take(0).len() == 0);
            assert(a@.take(i as int).len() == i);
        }
        row.push(i as u32);
        let mut j: usize = 1;
        while j <= m
            invariant
                1 <= i <= n,
                1 <= j <= m + 1,
                n == a@.len(),
                n < u32::MAX,
                m == b@.len(),
                m < u32::MAX,
                dp@.len() == i,
                forall|r: int| 0 <= r < i ==> (#[trigger] dp@[r])@.len() == m + 1,
                forall|r: int, c: int|
                    0 <= r < i && 0 <= c <= m ==> #[trigger] dp@[r]@[c] == dl_distance(
                        a@.take(r),
                        b@.take(c),
                    ),
                row@.len() == j,
                forall|c: int|
                    0 <= c < j ==> row@[c] == dl_distance(a@.take(i as int), b@.take(c)),
            decreases m + 1 - j,
        {
            proof {
                lemma_dl_step(a@, b@, i as int, j as int);
                lemma_dl_distance_bound(a@.take(i - 1), b@.take(j - 1));
                lemma_dl_distance_bound(a@.take(i as int), b@.take(j as int));
            }
            let prev_row = &dp[i - 1];
            let mut cell: u32 = if a[i - 1] == b[j - 1] {
                prev_row[j - 1]
            } else {
                let mut t = prev_row[j];
                if prev_row[j - 1] < t {
                    t = prev_row[j - 1];
                }
                if row[j - 1] < t {
                    t = row[j - 1];
                }
                t + 1
            };
            if i >= 2 && j >= 2 && a[i - 1] == b[j - 2] && a[i - 2] == b[j - 1] {
                proof {
                    lemma_dl_distance_bound(a@.take(i - 2), b@.take(j - 2));
                }
                let two_back = &dp[i - 2];
                let alt = two_back[j - 2] + 1;
                if alt < cell {
                    cell = alt;
                }
            }
            row.push(cell);
            j += 1;
        }
        dp.push(row);
        i += 1;
    }
    proof {
        assert(a@.take(n as int) =~= a@);
        assert(b@.take(m as int) =~= b@);
    }
    dp[n][m]
}

} // verus!
