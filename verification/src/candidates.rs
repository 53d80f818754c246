//! Candidates: a node together with its distance to a pivot vector, and
//! sequences of candidates kept in ascending order.

use vstd::prelude::*;

verus! {

/// A node and its distance to the pivot of the search at hand.
#[derive(Clone, Copy, Debug, PartialEq, Eq, Structural)]
pub struct Candidate {
    /// Distance from the pivot to the node's vector.
    pub dist: u64,
    /// The node.
    pub id: usize,
}

/// The order of candidates: nearer first, and among equally near ones the
/// smaller id first.
pub open spec fn precedes(a: Candidate, b: Candidate) -> bool {
    a.dist < b.dist || (a.dist == b.dist && a.id < b.id)
}

/// Every candidate precedes all that come after it.
pub open spec fn ascending(s: Seq<Candidate>) -> bool {
    forall|i: int, j: int| 0 <= i < j < s.len() ==> precedes(#[trigger] s[i], #[trigger] s[j])
}

/// Some candidate of `s` stands for node `id`.
pub open spec fn has_id(s: Seq<Candidate>, id: usize) -> bool {
    exists|i: int| 0 <= i < s.len() && (#[trigger] s[i]).id == id
}

/// Every candidate of `s` is a node below `n`.
pub open spec fn ids_below(s: Seq<Candidate>, n: int) -> bool {
    forall|i: int| 0 <= i < s.len() ==> (#[trigger] s[i]).id < n
}

/// The first index at or after `from` whose candidate does not precede `c`,
/// or the length of `s` if there is none.
pub open spec fn slot_from(s: Seq<Candidate>, c: Candidate, from: int) -> int
    decreases s.len() - from,
{
    if 0 <= from < s.len() && precedes(s[from], c) {
        slot_from(s, c, from + 1)
    } else {
        from
    }
}

/// Where `c` belongs in `s`.
pub open spec fn slot(s: Seq<Candidate>, c: Candidate) -> int {
    slot_from(s, c, 0)
}

/// `s` with `c` put where it belongs.
pub open spec fn place(s: Seq<Candidate>, c: Candidate) -> Seq<Candidate> {
    s.insert(slot(s, c), c)
}

/// The first `limit` candidates of `s`, or all of them if there are fewer.
pub open spec fn front(s: Seq<Candidate>, limit: int) -> Seq<Candidate> {
    if limit <= 0 {
        Seq::empty()
    } else if limit < s.len() {
        s.take(limit)
    } else {
        s
    }
}

/// The candidates among the first `upto` of `s` that do not stand for `id`,
/// in their order.
pub open spec fn without_id(s: Seq<Candidate>, id: usize, upto: int) -> Seq<Candidate>
    decreases upto,
{
    if upto <= 0 || upto > s.len() {
        Seq::empty()
    } else if s[upto - 1].id == id {
        without_id(s, id, upto - 1)
    } else {
        without_id(s, id, upto - 1).push(s[upto - 1])
    }
}

/// The slot lies between `from` and the end; everything from `from` up to it
/// precedes `c`, and what stands at it does not.
pub proof fn lemma_slot_from(s: Seq<Candidate>, c: Candidate, from: int)
    requires
        0 <= from <= s.len(),
    ensures
        from <= slot_from(s, c, from) <= s.len(),
        forall|k: int| from <= k < slot_from(s, c, from) ==> precedes(#[trigger] s[k], c),
        slot_from(s, c, from) < s.len() ==> !precedes(s[slot_from(s, c, from)], c),
    decreases s.len() - from,
{
    if from < s.len() && precedes(s[from], c) {
        lemma_slot_from(s, c, from + 1);
    }
}

/// Placing a candidate lengthens the sequence by one and keeps every other
/// candidate, those before the slot at their index and the others one later.
pub proof fn lemma_place_index(s: Seq<Candidate>, c: Candidate)
    ensures
        0 <= slot(s, c) <= s.len(),
        place(s, c).len() == s.len() + 1,
        place(s, c)[slot(s, c)] == c,
        forall|i: int| 0 <= i < slot(s, c) ==> #[trigger] place(s, c)[i] == s[i],
        forall|i: int| slot(s, c) < i <= s.len() ==> #[trigger] place(s, c)[i] == s[i - 1],
{
    lemma_slot_from(s, c, 0);
    s.insert_ensures(slot(s, c), c);
    let p = place(s, c);
    assert forall|i: int| slot(s, c) < i <= s.len() implies #[trigger] p[i] == s[i - 1] by {
        assert(p[(i - 1) + 1] == s[i - 1]);
    }
}

/// An ascending sequence stays ascending when a candidate for a node that is
/// not yet in it is placed.
pub proof fn lemma_place_ascending(s: Seq<Candidate>, c: Candidate)
    requires
        ascending(s),
        !has_id(s, c.id),
    ensures
        ascending(place(s, c)),
{
    lemma_slot_from(s, c, 0);
    lemma_place_index(s, c);
    let k = slot(s, c);
    let p = place(s, c);
    assert forall|i: int, j: int| 0 <= i < j < p.len() implies precedes(
        #[trigger] p[i],
        #[trigger] p[j],
    ) by {
        if j < k {
            assert(precedes(s[i], s[j]));
        } else if j == k {
            assert(precedes(s[i], c));
        } else if i == k {
            // c stands before s[j - 1], which the slot's candidate does not follow
            assert(!precedes(s[k], c));
            assert(s[k].id != c.id);
            assert(precedes(c, s[k]));
            if j - 1 > k {
                assert(precedes(s[k], s[j - 1]));
            }
        } else if i < k {
            assert(precedes(s[i], s[j - 1]));
        } else {
            assert(precedes(s[i - 1], s[j - 1]));
        }
    }
}

/// After placing `c`, the nodes present are those present before and `c.id`.
pub proof fn lemma_place_has_id(s: Seq<Candidate>, c: Candidate, id: usize)
    ensures
        has_id(place(s, c), id) <==> (has_id(s, id) || id == c.id),
{
    lemma_place_index(s, c);
    let k = slot(s, c);
    let p = place(s, c);
    if has_id(s, id) {
        let i = choose|i: int| 0 <= i < s.len() && (#[trigger] s[i]).id == id;
        if i < k {
            assert(p[i].id == id);
        } else {
            assert(p[i + 1] == s[i]);
            assert(p[i + 1].id == id);
        }
    }
    if id == c.id {
        assert(p[k].id == id);
    }
    if has_id(p, id) {
        let i = choose|i: int| 0 <= i < p.len() && (#[trigger] p[i]).id == id;
        if i < k {
            assert(s[i].id == id);
        } else if i > k {
            assert(s[i - 1].id == id);
        }
    }
}

/// Placing a candidate whose node is below `n` keeps all nodes below `n`.
pub proof fn lemma_place_ids_below(s: Seq<Candidate>, c: Candidate, n: int)
    requires
        ids_below(s, n),
        c.id < n,
    ensures
        ids_below(place(s, c), n),
{
    lemma_place_index(s, c);
    let k = slot(s, c);
    let p = place(s, c);
    assert forall|i: int| 0 <= i < p.len() implies (#[trigger] p[i]).id < n by {
        if i < k {
            assert(p[i] == s[i]);
        } else if i > k {
            assert(p[i] == s[i - 1]);
        }
    }
}

/// What `without_id` keeps: no candidate for `id`, only candidates of `s`,
/// still in ascending order.
pub proof fn lemma_without_id(s: Seq<Candidate>, id: usize, upto: int)
    requires
        0 <= upto <= s.len(),
    ensures
        without_id(s, id, upto).len() <= upto,
        !has_id(without_id(s, id, upto), id),
        forall|i: int|
            0 <= i < without_id(s, id, upto).len() ==> exists|j: int|
                0 <= j < upto && s[j] == #[trigger] without_id(s, id, upto)[i],
        ascending(s) ==> ascending(without_id(s, id, upto)),
    decreases upto,
{
    if upto > 0 {
        lemma_without_id(s, id, upto - 1);
        let prev = without_id(s, id, upto - 1);
        let cur = without_id(s, id, upto);
        if s[upto - 1].id != id {
            assert forall|i: int| 0 <= i < cur.len() implies exists|j: int|
                0 <= j < upto && s[j] == #[trigger] cur[i] by {
                if i < prev.len() {
                    let j = choose|j: int| 0 <= j < upto - 1 && s[j] == prev[i];
                    assert(s[j] == cur[i]);
                } else {
                    assert(s[upto - 1] == cur[i]);
                }
            }
            if ascending(s) {
                assert forall|i: int, j: int| 0 <= i < j < cur.len() implies precedes(
                    #[trigger] cur[i],
                    #[trigger] cur[j],
                ) by {
                    if j < prev.len() {
                        assert(precedes(prev[i], prev[j]));
                    } else {
                        let k = choose|k: int| 0 <= k < upto - 1 && s[k] == prev[i];
                        assert(precedes(s[k], s[upto - 1]));
                    }
                }
            }
        }
    }
}

/// `without_id` is the filter of the candidates looked at by their node.
pub proof fn lemma_without_id_filter(s: Seq<Candidate>, id: usize, upto: int)
    requires
        0 <= upto <= s.len(),
    ensures
        without_id(s, id, upto) == s.take(upto).filter(|c: Candidate| c.id != id),
    decreases upto,
{
    reveal(Seq::filter);
    if upto > 0 {
        lemma_without_id_filter(s, id, upto - 1);
        assert(s.take(upto).drop_last() =~= s.take(upto - 1));
        assert(s.take(upto).last() == s[upto - 1]);
    } else {
        assert(s.take(upto) =~= Seq::<Candidate>::empty());
    }
}

/// Puts `c` where it belongs in `v`.
pub fn insert_candidate(v: &mut Vec<Candidate>, c: Candidate)
    ensures
        final(v)@ == place(old(v)@, c),
{
    let mut i: usize = 0;
    while i < v.len() && (v[i].dist < c.dist || (v[i].dist == c.dist && v[i].id < c.id))
        invariant
            0 <= i <= v.len(),
            slot_from(v@, c, 0) == slot_from(v@, c, i as int),
        decreases v.len() - i,
    {
        i += 1;
    }
    v.insert(i, c);
}

/// The candidates among the first `limit` of `v` that do not stand for `id`.
pub fn frontier_without(v: &Vec<Candidate>, limit: usize, id: usize) -> (out: Vec<Candidate>)
    ensures
        out@ == without_id(v@, id, front(v@, limit as int).len() as int),
{
    let upto: usize = if limit < v.len() {
        limit
    } else {
        v.len()
    };
    let mut out: Vec<Candidate> = Vec::new();
    let mut i: usize = 0;
    while i < upto
        invariant
            0 <= i <= upto <= v.len(),
            out@ == without_id(v@, id, i as int),
        decreases upto - i,
    {
        if v[i].id != id {
            out.push(v[i]);
        }
        i += 1;
    }
    out
}

} // verus!
