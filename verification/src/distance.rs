//! Distance families over fixed-point vectors.

use vstd::prelude::*;

verus! {

/// A metric family: a distance between two vectors of equal dimension.
///
/// The distance is a function of the two vectors alone, so that the builder
/// and the searcher rank candidates alike.
pub trait DistanceFamily {
    /// The distance between `a` and `b`.
    spec fn spec_distance(a: Seq<i32>, b: Seq<i32>) -> u64;

    /// Computes the distance between `a` and `b`.
    fn distance(a: &[i32], b: &[i32]) -> (d: u64)
        requires
            a@.len() == b@.len(),
        ensures
            d == Self::spec_distance(a@, b@),
    ;
}

/// The absolute difference of two coordinates.
pub open spec fn gap(x: i32, y: i32) -> int {
    if x >= y {
        x - y
    } else {
        y - x
    }
}

/// The sum of the absolute differences of the first `upto` coordinates.
pub open spec fn gap_sum(a: Seq<i32>, b: Seq<i32>, upto: int) -> int
    decreases upto,
{
    if upto <= 0 {
        0
    } else {
        gap_sum(a, b, upto - 1) + gap(a[upto - 1], b[upto - 1])
    }
}

/// The sum of the squared differences of the first `upto` coordinates.
pub open spec fn square_sum(a: Seq<i32>, b: Seq<i32>, upto: int) -> int
    decreases upto,
{
    if upto <= 0 {
        0
    } else {
        square_sum(a, b, upto - 1) + gap(a[upto - 1], b[upto - 1]) * gap(a[upto - 1], b[upto - 1])
    }
}

/// `x`, or the largest `u64` if `x` is larger.
pub open spec fn saturated(x: int) -> u64 {
    if x >= u64::MAX {
        u64::MAX
    } else if x <= 0 {
        0
    } else {
        x as u64
    }
}

/// Neither sum is negative.
pub proof fn lemma_sums_nonnegative(a: Seq<i32>, b: Seq<i32>, upto: int)
    ensures
        gap_sum(a, b, upto) >= 0,
        square_sum(a, b, upto) >= 0,
    decreases upto,
{
    if upto > 0 {
        lemma_sums_nonnegative(a, b, upto - 1);
        let g = gap(a[upto - 1], b[upto - 1]);
        assert(g * g >= 0) by (nonlinear_arith);
    }
}

/// Both sums are symmetric in the two vectors, and zero between a vector and
/// itself.
pub proof fn lemma_sums_symmetric(a: Seq<i32>, b: Seq<i32>, upto: int)
    ensures
        gap_sum(a, b, upto) == gap_sum(b, a, upto),
        square_sum(a, b, upto) == square_sum(b, a, upto),
        gap_sum(a, a, upto) == 0,
        square_sum(a, a, upto) == 0,
    decreases upto,
{
    if upto > 0 {
        lemma_sums_symmetric(a, b, upto - 1);
        let own = gap(a[upto - 1], a[upto - 1]);
        assert(own * own == 0) by (nonlinear_arith)
            requires
                own == 0,
        ;
    }
}

fn coordinate_gap(x: i32, y: i32) -> (g: u64)
    ensures
        g == gap(x, y),
        g <= 0xffff_ffff,
{
    let wide_x: i64 = x as i64;
    let wide_y: i64 = y as i64;
    if wide_x >= wide_y {
        (wide_x - wide_y) as u64
    } else {
        (wide_y - wide_x) as u64
    }
}

fn saturating_sum(acc: u64, term: u64) -> (s: u64)
    ensures
        s == saturated(acc + term),
{
    if term > u64::MAX - acc {
        u64::MAX
    } else {
        acc + term
    }
}

/// Manhattan distance: the sum of the absolute coordinate differences,
/// saturating at the largest `u64`.
pub struct L1;

/// Squared Euclidean distance: the sum of the squared coordinate
/// differences, saturating at the largest `u64`.
pub struct L2;

impl DistanceFamily for L1 {
    open spec fn spec_distance(a: Seq<i32>, b: Seq<i32>) -> u64 {
        saturated(gap_sum(a, b, a.len() as int))
    }

    fn distance(a: &[i32], b: &[i32]) -> (d: u64) {
        let mut acc: u64 = 0;
        let mut i: usize = 0;
        while i < a.len()
            invariant
                0 <= i <= a@.len(),
                a@.len() == b@.len(),
                acc == saturated(gap_sum(a@, b@, i as int)),
            decreases a.len() - i,
        {
            proof {
                lemma_sums_nonnegative(a@, b@, i as int);
            }
            let g = coordinate_gap(a[i], b[i]);
            acc = saturating_sum(acc, g);
            i += 1;
        }
        acc
    }
}

impl DistanceFamily for L2 {
    open spec fn spec_distance(a: Seq<i32>, b: Seq<i32>) -> u64 {
        saturated(square_sum(a, b, a.len() as int))
    }

    fn distance(a: &[i32], b: &[i32]) -> (d: u64) {
        let mut acc: u64 = 0;
        let mut i: usize = 0;
        while i < a.len()
            invariant
                0 <= i <= a@.len(),
                a@.len() == b@.len(),
                acc == saturated(square_sum(a@, b@, i as int)),
            decreases a.len() - i,
        {
            proof {
                lemma_sums_nonnegative(a@, b@, i as int);
            }
            let g = coordinate_gap(a[i], b[i]);
            assert(g * g <= 0xffff_ffff * 0xffff_ffff) by (nonlinear_arith)
                requires
                    0 <= g <= 0xffff_ffff,
            ;
            acc = saturating_sum(acc, g * g);
            i += 1;
        }
        acc
    }
}

/// The Manhattan and the squared Euclidean distance do not depend on the
/// order of two vectors of equal dimension, and a vector is at distance zero
/// from itself.
pub proof fn lemma_distances_symmetric(a: Seq<i32>, b: Seq<i32>)
    requires
        a.len() == b.len(),
    ensures
        L1::spec_distance(a, b) == L1::spec_distance(b, a),
        L2::spec_distance(a, b) == L2::spec_distance(b, a),
        L1::spec_distance(a, a) == 0,
        L2::spec_distance(a, a) == 0,
{
    lemma_sums_symmetric(a, b, a.len() as int);
}

} // verus!
