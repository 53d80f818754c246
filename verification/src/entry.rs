//! Selection of the entry point: the node nearest to the centroid of the
//! indexed vectors.

use crate::distance::DistanceFamily;
use crate::vectors::{uniform, Vectors};
use vstd::arithmetic::div_mod::{lemma_fundamental_div_mod, lemma_fundamental_div_mod_converse};
use vstd::prelude::*;

verus! {

/// The sum of coordinate `d` over the first `n` vectors.
pub open spec fn column_sum(vectors: Seq<Seq<i32>>, n: int, d: int) -> int
    decreases n,
{
    if n <= 0 {
        0
    } else {
        column_sum(vectors, n - 1, d) + vectors[n - 1][d]
    }
}

/// The centroid of the first `n` vectors: in each coordinate the mean,
/// rounded down.
pub open spec fn centroid(vectors: Seq<Seq<i32>>, n: int, dims: int) -> Seq<i32> {
    Seq::new(dims as nat, |d: int| (column_sum(vectors, n, d) / n) as i32)
}

/// The node among the first `n` that is nearest to `target`; among equally
/// near nodes, the one with the smallest id.
pub open spec fn nearest<D: DistanceFamily>(
    vectors: Seq<Seq<i32>>,
    target: Seq<i32>,
    n: int,
) -> usize
    decreases n,
{
    if n <= 1 {
        0
    } else {
        let best = nearest::<D>(vectors, target, n - 1);
        if D::spec_distance(target, vectors[n - 1]) < D::spec_distance(
            target,
            vectors[best as int],
        ) {
            (n - 1) as usize
        } else {
            best
        }
    }
}

/// The entry point of an index over the first `n` vectors: the node nearest
/// to their centroid, or node zero where there is no vector.
pub open spec fn entry_point<D: DistanceFamily>(
    vectors: Seq<Seq<i32>>,
    n: int,
    dims: int,
) -> usize {
    if n <= 0 {
        0
    } else {
        nearest::<D>(vectors, centroid(vectors, n, dims), n)
    }
}

/// The nearest node is one of the first `n`, no node among them is nearer to
/// the target, and none with a smaller id is as near.
pub proof fn lemma_nearest<D: DistanceFamily>(vectors: Seq<Seq<i32>>, target: Seq<i32>, n: int)
    requires
        1 <= n <= usize::MAX,
    ensures
        nearest::<D>(vectors, target, n) < n,
        forall|i: int|
            0 <= i < n ==> D::spec_distance(target, vectors[nearest::<D>(vectors, target, n) as int])
                <= D::spec_distance(target, #[trigger] vectors[i]),
        forall|i: int|
            0 <= i < nearest::<D>(vectors, target, n) ==> D::spec_distance(
                target,
                vectors[nearest::<D>(vectors, target, n) as int],
            ) < D::spec_distance(target, #[trigger] vectors[i]),
    decreases n,
{
    if n > 1 {
        lemma_nearest::<D>(vectors, target, n - 1);
    }
}

/// Each column sum of `n` coordinates lies within `n` times the range of a
/// coordinate.
pub proof fn lemma_column_sum_bounds(vectors: Seq<Seq<i32>>, n: int, d: int)
    requires
        0 <= n,
    ensures
        -0x8000_0000 * n <= column_sum(vectors, n, d) <= 0x7fff_ffff * n,
    decreases n,
{
    if n > 0 {
        lemma_column_sum_bounds(vectors, n - 1, d);
    }
}

/// Computes the centroid of the first `n` vectors.
pub fn compute_centroid(vectors: &Vectors, n: usize) -> (center: Vec<i32>)
    requires
        1 <= n <= vectors@.len(),
    ensures
        center@ == centroid(vectors@, n as int, vectors.spec_dims()),
        center@.len() == vectors.spec_dims(),
{
    let dims = vectors.dims();
    let total = vectors.len();
    let mut center: Vec<i32> = Vec::new();
    let mut d: usize = 0;
    while d < dims
        invariant
            0 <= d <= dims,
            dims == vectors.spec_dims(),
            1 <= n <= vectors@.len(),
            uniform(vectors@, vectors.spec_dims()),
            center@.len() == d,
            forall|c: int|
                0 <= c < d ==> #[trigger] center@[c] == (column_sum(vectors@, n as int, c) / (
                n as int)) as i32,
        decreases dims - d,
    {
        let mut acc: u128 = 0;
        let mut i: usize = 0;
        while i < n
            invariant
                0 <= i <= n,
                0 <= d < dims,
                dims == vectors.spec_dims(),
                1 <= n <= vectors@.len(),
                acc == column_sum(vectors@, i as int, d as int) + 0x8000_0000 * i,
                acc <= 0xffff_ffff * i,
            decreases n - i,
        {
            let row = vectors.row(i);
            let shifted: i64 = row[d] as i64 + 0x8000_0000i64;
            assert(0xffff_ffff * (i + 1) <= 0xffff_ffff * 0x1_0000_0000_0000_0000) by (nonlinear_arith)
                requires
                    i + 1 <= 0x1_0000_0000_0000_0000,
            ;
            acc = acc + shifted as u128;
            i += 1;
        }
        let count: u128 = n as u128;
        let q: u128 = acc / count;
        proof {
            let s = column_sum(vectors@, n as int, d as int);
            let m = n as int;
            lemma_column_sum_bounds(vectors@, m, d as int);
            lemma_fundamental_div_mod(s, m);
            assert((s / m + 0x8000_0000) * m + s % m == acc) by (nonlinear_arith)
                requires
                    s == m * (s / m) + s % m,
                    acc == s + 0x8000_0000 * m,
            ;
            lemma_fundamental_div_mod_converse(acc as int, m, s / m + 0x8000_0000, s % m);
            assert(q == s / m + 0x8000_0000);
            assert(q <= 0xffff_ffff) by (nonlinear_arith)
                requires
                    q == acc as int / m,
                    acc <= 0xffff_ffff * m,
                    m >= 1,
                    acc as int == (acc as int / m) * m + (acc as int % m),
                    0 <= acc as int % m,
            ;
        }
        let mean: i32 = (q as i64 - 0x8000_0000i64) as i32;
        center.push(mean);
        d += 1;
    }
    assert(center@ =~= centroid(vectors@, n as int, vectors.spec_dims()));
    center
}

/// Finds the node among the first `n` that is nearest to `target`.
pub fn find_nearest<D: DistanceFamily>(vectors: &Vectors, target: &[i32], n: usize) -> (best: usize)
    requires
        1 <= n <= vectors@.len(),
        target@.len() == vectors.spec_dims(),
    ensures
        best == nearest::<D>(vectors@, target@, n as int),
        best < n,
{
    let mut best: usize = 0;
    let mut best_dist = D::distance(target, vectors.row(0));
    let mut i: usize = 1;
    while i < n
        invariant
            1 <= i <= n <= vectors@.len(),
            target@.len() == vectors.spec_dims(),
            best == nearest::<D>(vectors@, target@, i as int),
            best < i,
            best_dist == D::spec_distance(target@, vectors@[best as int]),
        decreases n - i,
    {
        let dist = D::distance(target, vectors.row(i));
        if dist < best_dist {
            best = i;
            best_dist = dist;
        }
        i += 1;
    }
    best
}

/// Selects the entry point of an index over the first `n` vectors.
pub fn select_entry<D: DistanceFamily>(vectors: &Vectors, n: usize) -> (entry: usize)
    requires
        n <= vectors@.len(),
    ensures
        entry == entry_point::<D>(vectors@, n as int, vectors.spec_dims()),
        n > 0 ==> entry < n,
{
    if n == 0 {
        return 0;
    }
    let center = compute_centroid(vectors, n);
    find_nearest::<D>(vectors, center.as_slice(), n)
}

} // verus!
