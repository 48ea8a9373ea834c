use vstd::prelude::*;

verus! {

/// Largest magnitude a vector component may have. Keeping components within
/// this bound lets every squared Euclidean distance over at most `MAX_DIMS`
/// components fit in a `u64`.
pub const COORD_BOUND: i64 = 1048576;

/// Largest number of components a vector may have.
pub const MAX_DIMS: usize = 65536;

/// Largest value one squared component difference can take:
/// `(2 * COORD_BOUND) ^ 2`.
pub const MAX_SQ_DIFF: u64 = 4398046511104;

pub open spec fn coord_ok(x: i64) -> bool {
    -COORD_BOUND <= x <= COORD_BOUND
}

pub open spec fn coords_ok(s: Seq<i64>) -> bool {
    forall|i: int| 0 <= i < s.len() ==> coord_ok(#[trigger] s[i])
}

pub open spec fn sq(x: int) -> int {
    x * x
}

/// Sum of squared component differences over the first `n` components.
pub open spec fn dist2_upto(a: Seq<i64>, b: Seq<i64>, n: int) -> int
    decreases n,
{
    if n <= 0 {
        0
    } else {
        dist2_upto(a, b, n - 1) + sq(a[n - 1] - b[n - 1])
    }
}

/// Squared Euclidean distance between two vectors of equal length. The graph
/// orders neighbors by this value; since the square root is monotone, the
/// ordering agrees with the Euclidean distance ordering.
pub open spec fn dist2(a: Seq<i64>, b: Seq<i64>) -> int {
    dist2_upto(a, b, a.len() as int)
}

pub proof fn lemma_sq_nonneg(x: int)
    ensures
        sq(x) >= 0,
{
    assert(x * x >= 0) by (nonlinear_arith);
}

pub proof fn lemma_sq_bound(x: int, b: int)
    requires
        -b <= x <= b,
        0 <= b,
    ensures
        sq(x) <= b * b,
{
    assert(x * x <= b * b) by (nonlinear_arith)
        requires
            -b <= x <= b,
            0 <= b,
    ;
}

pub proof fn lemma_dist2_upto_bounds(a: Seq<i64>, b: Seq<i64>, n: int)
    requires
        0 <= n <= a.len(),
        n <= b.len(),
        coords_ok(a),
        coords_ok(b),
    ensures
        0 <= dist2_upto(a, b, n) <= n * (MAX_SQ_DIFF as int),
    decreases n,
{
    if n > 0 {
        lemma_dist2_upto_bounds(a, b, n - 1);
        lemma_sq_nonneg(a[n - 1] - b[n - 1]);
        lemma_sq_bound(a[n - 1] - b[n - 1], 2 * COORD_BOUND);
        assert((n - 1) * (MAX_SQ_DIFF as int) + MAX_SQ_DIFF as int == n * (MAX_SQ_DIFF as int))
            by (nonlinear_arith);
    }
}

/// The squared distance is symmetric.
pub proof fn lemma_dist2_sym(a: Seq<i64>, b: Seq<i64>, n: int)
    ensures
        dist2_upto(a, b, n) == dist2_upto(b, a, n),
    decreases n,
{
    if n > 0 {
        lemma_dist2_sym(a, b, n - 1);
        assert(sq(a[n - 1] - b[n - 1]) == sq(b[n - 1] - a[n - 1])) by (nonlinear_arith);
    }
}

/// A vector is at squared distance zero from itself.
pub proof fn lemma_dist2_self_zero(a: Seq<i64>, n: int)
    ensures
        dist2_upto(a, a, n) == 0,
    decreases n,
{
    if n > 0 {
        lemma_dist2_self_zero(a, n - 1);
    }
}

/// The metric abstraction: graph logic orders candidates by a metric value
/// and never looks inside it, so further metrics can be added here without
/// touching the graph code. Only Euclidean is provided.
#[derive(Clone, Copy, Debug, PartialEq, Eq, Structural)]
pub enum Metric {
    Euclidean,
}

pub open spec fn metric_dist(m: Metric, a: Seq<i64>, b: Seq<i64>) -> int {
    match m {
        Metric::Euclidean => dist2(a, b),
    }
}

/// Squared Euclidean distance between two equal-length vectors.
pub fn distance(a: &Vec<i64>, b: &Vec<i64>) -> (d: u64)
    requires
        a@.len() == b@.len(),
        a@.len() <= MAX_DIMS,
        coords_ok(a@),
        coords_ok(b@),
    ensures
        d == dist2(a@, b@),
{
    let n = a.len();
    let mut acc: u64 = 0;
    let mut i: usize = 0;
    while i < n
        invariant
            0 <= i <= n,
            n == a@.len(),
            n == b@.len(),
            n <= MAX_DIMS,
            coords_ok(a@),
            coords_ok(b@),
            acc == dist2_upto(a@, b@, i as int),
            acc <= i * (MAX_SQ_DIFF as int),
        decreases n - i,
    {
        assert(coord_ok(a@[i as int]));
        assert(coord_ok(b@[i as int]));
        let diff: i64 = a[i] - b[i];
        proof {
            lemma_sq_nonneg(diff as int);
            lemma_sq_bound(diff as int, 2 * COORD_BOUND);
            lemma_dist2_upto_bounds(a@, b@, i as int);
            assert((i as int) * (MAX_SQ_DIFF as int) + MAX_SQ_DIFF as int == (i + 1) * (
            MAX_SQ_DIFF as int)) by (nonlinear_arith);
            assert((i + 1) * (MAX_SQ_DIFF as int) <= (MAX_DIMS as int) * (MAX_SQ_DIFF as int))
                by (nonlinear_arith)
                requires
                    i + 1 <= MAX_DIMS as int,
            ;
        }
        let sqd: i64 = diff * diff;
        acc = acc + (sqd as u64);
        i = i + 1;
    }
    acc
}

/// Distance under a chosen metric.
pub fn metric_distance(m: Metric, a: &Vec<i64>, b: &Vec<i64>) -> (d: u64)
    requires
        a@.len() == b@.len(),
        a@.len() <= MAX_DIMS,
        coords_ok(a@),
        coords_ok(b@),
    ensures
        d == metric_dist(m, a@, b@),
{
    match m {
        Metric::Euclidean => distance(a, b),
    }
}

} // verus!
