//! Robust pruning: diversity-aware selection of a bounded neighbour list.

use crate::candidates::{has_id, ids_below, Candidate};
use crate::distance::DistanceFamily;
use crate::graph::links_ok;
use crate::options::Alpha;
use crate::vectors::Vectors;
use vstd::prelude::*;

verus! {

/// The margin test: a candidate at distance `between` from a selected
/// neighbour and at distance `away` from the pivot is dominated under the
/// threshold `num / den` when `between * (num / den) <= away`.
pub open spec fn within_margin(between: u64, away: u64, num: int, den: int) -> bool {
    between * num <= away * den
}

/// The selected neighbour `p` dominates candidate `c`.
pub open spec fn dominates<D: DistanceFamily>(
    vectors: Seq<Seq<i32>>,
    num: int,
    den: int,
    p: Candidate,
    c: Candidate,
) -> bool {
    within_margin(
        D::spec_distance(vectors[p.id as int], vectors[c.id as int]),
        c.dist,
        num,
        den,
    )
}

/// The candidates among the first `upto` of `rest` that `p` does not
/// dominate, in their order.
pub open spec fn survivors<D: DistanceFamily>(
    vectors: Seq<Seq<i32>>,
    num: int,
    den: int,
    p: Candidate,
    rest: Seq<Candidate>,
    upto: int,
) -> Seq<Candidate>
    decreases upto,
{
    if upto <= 0 {
        Seq::empty()
    } else {
        let prev = survivors::<D>(vectors, num, den, p, rest, upto - 1);
        if dominates::<D>(vectors, num, den, p, rest[upto - 1]) {
            prev
        } else {
            prev.push(rest[upto - 1])
        }
    }
}

/// The neighbour list that robust pruning selects: as long as fewer than `r`
/// nodes are chosen and candidates remain, the first remaining candidate is
/// chosen and every other candidate that it dominates is discarded.
pub open spec fn prune<D: DistanceFamily>(
    vectors: Seq<Seq<i32>>,
    num: int,
    den: int,
    r: int,
    cands: Seq<Candidate>,
    chosen: Seq<usize>,
) -> Seq<usize>
    decreases cands.len(),
{
    if cands.len() == 0 || chosen.len() >= r {
        chosen
    } else {
        let p = cands[0];
        let rest = cands.drop_first();
        proof {
            lemma_survivors::<D>(vectors, num, den, p, rest, rest.len() as int);
        }
        prune::<D>(
            vectors,
            num,
            den,
            r,
            survivors::<D>(vectors, num, den, p, rest, rest.len() as int),
            chosen.push(p.id),
        )
    }
}

/// The survivors are no more than the candidates looked at, and each of
/// them is one of those candidates.
pub proof fn lemma_survivors<D: DistanceFamily>(
    vectors: Seq<Seq<i32>>,
    num: int,
    den: int,
    p: Candidate,
    rest: Seq<Candidate>,
    upto: int,
)
    requires
        0 <= upto <= rest.len(),
    ensures
        survivors::<D>(vectors, num, den, p, rest, upto).len() <= upto,
        forall|i: int|
            0 <= i < survivors::<D>(vectors, num, den, p, rest, upto).len() ==> exists|j: int|
                0 <= j < upto && rest[j] == #[trigger] survivors::<D>(
                    vectors,
                    num,
                    den,
                    p,
                    rest,
                    upto,
                )[i],
    decreases upto,
{
    if upto > 0 {
        lemma_survivors::<D>(vectors, num, den, p, rest, upto - 1);
        let prev = survivors::<D>(vectors, num, den, p, rest, upto - 1);
        let cur = survivors::<D>(vectors, num, den, p, rest, upto);
        assert forall|i: int| 0 <= i < cur.len() implies exists|j: int|
            0 <= j < upto && rest[j] == #[trigger] cur[i] by {
            if i < prev.len() {
                let j = choose|j: int| 0 <= j < upto - 1 && rest[j] == prev[i];
                assert(rest[j] == cur[i]);
            } else {
                assert(rest[upto - 1] == cur[i]);
            }
        }
    }
}

/// The survivors are the candidates that `p` does not dominate: the filter
/// of the candidates looked at by that test.
pub proof fn lemma_survivors_filter<D: DistanceFamily>(
    vectors: Seq<Seq<i32>>,
    num: int,
    den: int,
    p: Candidate,
    rest: Seq<Candidate>,
    upto: int,
)
    requires
        0 <= upto <= rest.len(),
    ensures
        survivors::<D>(vectors, num, den, p, rest, upto) == rest.take(upto).filter(
            |c: Candidate| !dominates::<D>(vectors, num, den, p, c),
        ),
    decreases upto,
{
    let keep = |c: Candidate| !dominates::<D>(vectors, num, den, p, c);
    reveal(Seq::filter);
    if upto > 0 {
        lemma_survivors_filter::<D>(vectors, num, den, p, rest, upto - 1);
        assert(rest.take(upto).drop_last() =~= rest.take(upto - 1));
        assert(rest.take(upto).last() == rest[upto - 1]);
    } else {
        assert(rest.take(upto) =~= Seq::<Candidate>::empty());
    }
}

/// A node among the survivors was among the candidates.
pub proof fn lemma_survivors_ids<D: DistanceFamily>(
    vectors: Seq<Seq<i32>>,
    num: int,
    den: int,
    p: Candidate,
    rest: Seq<Candidate>,
    id: usize,
)
    requires
        has_id(survivors::<D>(vectors, num, den, p, rest, rest.len() as int), id),
    ensures
        has_id(rest, id),
{
    let kept = survivors::<D>(vectors, num, den, p, rest, rest.len() as int);
    lemma_survivors::<D>(vectors, num, den, p, rest, rest.len() as int);
    let i = choose|i: int| 0 <= i < kept.len() && (#[trigger] kept[i]).id == id;
    let j = choose|j: int| 0 <= j < rest.len() && rest[j] == kept[i];
    assert(rest[j].id == id);
}

/// Pruning keeps what was chosen before as a prefix, never selects more than
/// `r` nodes, and every node it adds is the node of some candidate.
pub proof fn lemma_prune<D: DistanceFamily>(
    vectors: Seq<Seq<i32>>,
    num: int,
    den: int,
    r: int,
    cands: Seq<Candidate>,
    chosen: Seq<usize>,
)
    requires
        chosen.len() <= r,
    ensures
        chosen.len() <= prune::<D>(vectors, num, den, r, cands, chosen).len() <= r,
        prune::<D>(vectors, num, den, r, cands, chosen).len() <= chosen.len() + cands.len(),
        forall|i: int|
            0 <= i < chosen.len() ==> #[trigger] prune::<D>(vectors, num, den, r, cands, chosen)[i]
                == chosen[i],
        forall|i: int|
            chosen.len() <= i < prune::<D>(vectors, num, den, r, cands, chosen).len() ==> has_id(
                cands,
                #[trigger] prune::<D>(vectors, num, den, r, cands, chosen)[i],
            ),
    decreases cands.len(),
{
    if !(cands.len() == 0 || chosen.len() >= r) {
        let p = cands[0];
        let rest = cands.drop_first();
        let kept = survivors::<D>(vectors, num, den, p, rest, rest.len() as int);
        let next = chosen.push(p.id);
        lemma_survivors::<D>(vectors, num, den, p, rest, rest.len() as int);
        lemma_prune::<D>(vectors, num, den, r, kept, next);
        let out = prune::<D>(vectors, num, den, r, cands, chosen);
        assert forall|i: int| 0 <= i < chosen.len() implies #[trigger] out[i] == chosen[i] by {
            assert(next[i] == chosen[i]);
        }
        assert forall|i: int| chosen.len() <= i < out.len() implies has_id(
            cands,
            #[trigger] out[i],
        ) by {
            if i == chosen.len() {
                assert(out[i] == next[i]);
                assert(cands[0].id == out[i]);
            } else {
                assert(has_id(kept, out[i]));
                lemma_survivors_ids::<D>(vectors, num, den, p, rest, out[i]);
                let j = choose|j: int| 0 <= j < rest.len() && (#[trigger] rest[j]).id == out[i];
                assert(cands[j + 1].id == out[i]);
            }
        }
    }
}

/// With room for at least one neighbour and at least one candidate, pruning
/// selects the first candidate first.
pub proof fn lemma_prune_takes_first<D: DistanceFamily>(
    vectors: Seq<Seq<i32>>,
    num: int,
    den: int,
    r: int,
    cands: Seq<Candidate>,
)
    requires
        r >= 1,
        cands.len() >= 1,
    ensures
        prune::<D>(vectors, num, den, r, cands, Seq::empty()).len() >= 1,
        prune::<D>(vectors, num, den, r, cands, Seq::empty())[0] == cands[0].id,
{
    let p = cands[0];
    let rest = cands.drop_first();
    let kept = survivors::<D>(vectors, num, den, p, rest, rest.len() as int);
    let next = Seq::<usize>::empty().push(p.id);
    lemma_prune::<D>(vectors, num, den, r, kept, next);
    assert(next[0] == p.id);
}

/// Pruning candidates that are nodes below `n` other than `pivot` yields a
/// neighbour list that is fit for `pivot` in a graph of `n` nodes.
pub proof fn lemma_prune_links<D: DistanceFamily>(
    vectors: Seq<Seq<i32>>,
    num: int,
    den: int,
    r: int,
    cands: Seq<Candidate>,
    pivot: usize,
    n: int,
)
    requires
        r >= 0,
        ids_below(cands, n),
        !has_id(cands, pivot),
    ensures
        links_ok(prune::<D>(vectors, num, den, r, cands, Seq::empty()), pivot as int, n, r),
{
    let out = prune::<D>(vectors, num, den, r, cands, Seq::empty());
    lemma_prune::<D>(vectors, num, den, r, cands, Seq::empty());
    assert forall|j: int| 0 <= j < out.len() implies (#[trigger] out[j]) < n && out[j] != pivot by {
        assert(has_id(cands, out[j]));
        let k = choose|k: int| 0 <= k < cands.len() && (#[trigger] cands[k]).id == out[j];
        assert(cands[k].id < n);
    }
}

fn is_within_margin(between: u64, away: u64, alpha: Alpha) -> (b: bool)
    ensures
        b == within_margin(between, away, alpha.spec_num(), alpha.spec_den()),
{
    let num = alpha.num();
    let den = alpha.den();
    assert(between * num <= 0xffff_ffff_ffff_ffff * 0xffff_ffff) by (nonlinear_arith)
        requires
            0 <= between <= 0xffff_ffff_ffff_ffff,
            0 <= num <= 0xffff_ffff,
    ;
    assert(away * den <= 0xffff_ffff_ffff_ffff * 0xffff_ffff) by (nonlinear_arith)
        requires
            0 <= away <= 0xffff_ffff_ffff_ffff,
            0 <= den <= 0xffff_ffff,
    ;
    (between as u128) * (num as u128) <= (away as u128) * (den as u128)
}

/// Selects at most `r` neighbours from `cands`, which are ordered by their
/// distance to the pivot: the nearest remaining candidate is taken, and every
/// other candidate that it dominates under `alpha` is discarded, until `r`
/// are taken or none remains.
pub fn robust_prune<D: DistanceFamily>(
    vectors: &Vectors,
    alpha: Alpha,
    r: usize,
    cands: Vec<Candidate>,
) -> (chosen: Vec<usize>)
    requires
        ids_below(cands@, vectors@.len() as int),
    ensures
        chosen@ == prune::<D>(
            vectors@,
            alpha.spec_num(),
            alpha.spec_den(),
            r as int,
            cands@,
            Seq::empty(),
        ),
{
    let ghost num = alpha.spec_num();
    let ghost den = alpha.spec_den();
    let mut pool = cands;
    let mut chosen: Vec<usize> = Vec::new();
    while pool.len() > 0 && chosen.len() < r
        invariant
            ids_below(pool@, vectors@.len() as int),
            num == alpha.spec_num(),
            den == alpha.spec_den(),
            prune::<D>(vectors@, num, den, r as int, pool@, chosen@) == prune::<D>(
                vectors@,
                num,
                den,
                r as int,
                cands@,
                Seq::empty(),
            ),
        decreases pool@.len(),
    {
        let p = pool[0];
        let ghost rest = pool@.drop_first();
        let mut kept: Vec<Candidate> = Vec::new();
        let mut j: usize = 1;
        while j < pool.len()
            invariant
                1 <= j <= pool@.len(),
                rest == pool@.drop_first(),
                p == pool@[0],
                ids_below(pool@, vectors@.len() as int),
                ids_below(kept@, vectors@.len() as int),
                num == alpha.spec_num(),
                den == alpha.spec_den(),
                kept@ == survivors::<D>(vectors@, num, den, p, rest, j - 1),
            decreases pool.len() - j,
        {
            let c = pool[j];
            assert(rest[j - 1] == c);
            let between = D::distance(vectors.row(p.id), vectors.row(c.id));
            if !is_within_margin(between, c.dist, alpha) {
                kept.push(c);
            }
            j += 1;
        }
        proof {
            lemma_survivors::<D>(vectors@, num, den, p, rest, rest.len() as int);
        }
        chosen.push(p.id);
        pool = kept;
    }
    chosen
}

} // verus!
