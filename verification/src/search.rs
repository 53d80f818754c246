//! Greedy beam search over the graph store.

use crate::candidates::{
    ascending, front, has_id, ids_below, insert_candidate, lemma_place_ascending,
    lemma_place_has_id, lemma_place_index, place, precedes, Candidate,
};
use crate::distance::DistanceFamily;
use crate::graph::Graph;
use crate::vectors::Vectors;
use vstd::prelude::*;

verus! {

/// Node `id` with its distance to `query`.
pub open spec fn measured<D: DistanceFamily>(
    vectors: Seq<Seq<i32>>,
    query: Seq<i32>,
    id: usize,
) -> Candidate {
    Candidate { dist: D::spec_distance(query, vectors[id as int]), id }
}

/// The visited list after the first `upto` nodes of `nbrs` were looked at:
/// each one that was not yet visited is measured and placed.
pub open spec fn visit<D: DistanceFamily>(
    vectors: Seq<Seq<i32>>,
    query: Seq<i32>,
    visited: Seq<Candidate>,
    nbrs: Seq<usize>,
    upto: int,
) -> Seq<Candidate>
    decreases upto,
{
    if upto <= 0 {
        visited
    } else {
        let prev = visit::<D>(vectors, query, visited, nbrs, upto - 1);
        let q = nbrs[upto - 1];
        if has_id(prev, q) {
            prev
        } else {
            place(prev, measured::<D>(vectors, query, q))
        }
    }
}

/// The index, at or after `from`, of the nearest visited candidate within
/// the frontier of width `limit` that was not expanded yet. Where there is
/// none, the result is the end of the frontier.
pub open spec fn next_open(
    visited: Seq<Candidate>,
    expanded: Seq<bool>,
    limit: int,
    from: int,
) -> int
    decreases visited.len() - from,
{
    if 0 <= from < visited.len() && from < limit && expanded[visited[from].id as int] {
        next_open(visited, expanded, limit, from + 1)
    } else {
        from
    }
}

/// The visited list once the search has run from the given state for at most
/// `fuel` expansions. Each expansion takes the nearest unexpanded candidate
/// of the frontier and visits its out-neighbours; the frontier is the first
/// `limit` candidates of the visited list.
pub open spec fn explore<D: DistanceFamily>(
    adj: Seq<Seq<usize>>,
    vectors: Seq<Seq<i32>>,
    query: Seq<i32>,
    limit: int,
    visited: Seq<Candidate>,
    expanded: Seq<bool>,
    fuel: nat,
) -> Seq<Candidate>
    decreases fuel,
{
    let i = next_open(visited, expanded, limit, 0);
    if fuel == 0 || i >= limit || i >= visited.len() {
        visited
    } else {
        let p = visited[i].id;
        explore::<D>(
            adj,
            vectors,
            query,
            limit,
            visit::<D>(vectors, query, visited, adj[p as int], adj[p as int].len() as int),
            expanded.update(p as int, true),
            (fuel - 1) as nat,
        )
    }
}

/// All candidates that a greedy beam search of width `limit` visits when it
/// starts at `entry` and heads for `query`, nearest first.
pub open spec fn greedy<D: DistanceFamily>(
    adj: Seq<Seq<usize>>,
    vectors: Seq<Seq<i32>>,
    entry: usize,
    query: Seq<i32>,
    limit: int,
) -> Seq<Candidate> {
    explore::<D>(
        adj,
        vectors,
        query,
        limit,
        seq![measured::<D>(vectors, query, entry)],
        Seq::new(adj.len(), |i: int| false),
        adj.len(),
    )
}

/// Every neighbour named anywhere in the graph is a node of the graph.
pub open spec fn in_range(adj: Seq<Seq<usize>>) -> bool {
    forall|p: int, j: int|
        0 <= p < adj.len() && 0 <= j < adj[p].len() ==> (#[trigger] adj[p][j]) < adj.len()
}

/// A visited list is sound for a graph of `n` nodes when it is ascending and
/// each of its candidates is one of the nodes with its true distance to the
/// query.
pub open spec fn sound<D: DistanceFamily>(
    s: Seq<Candidate>,
    vectors: Seq<Seq<i32>>,
    query: Seq<i32>,
    n: int,
) -> bool {
    &&& ascending(s)
    &&& forall|i: int|
        0 <= i < s.len() ==> (#[trigger] s[i]).id < n && s[i] == measured::<D>(
            vectors,
            query,
            s[i].id,
        )
}

/// `seen` marks exactly the nodes that stand in `visited`.
pub open spec fn tracks(seen: Seq<bool>, visited: Seq<Candidate>) -> bool {
    forall|id: usize|
        #![trigger has_id(visited, id)]
        #![trigger seen[id as int]]
        id < seen.len() ==> (seen[id as int] <==> has_id(visited, id))
}

/// Placing the measurement of a node that is not yet visited keeps a visited
/// list sound.
pub proof fn lemma_place_sound<D: DistanceFamily>(
    s: Seq<Candidate>,
    vectors: Seq<Seq<i32>>,
    query: Seq<i32>,
    n: int,
    id: usize,
)
    requires
        sound::<D>(s, vectors, query, n),
        id < n,
        !has_id(s, id),
    ensures
        sound::<D>(place(s, measured::<D>(vectors, query, id)), vectors, query, n),
{
    let c = measured::<D>(vectors, query, id);
    lemma_place_ascending(s, c);
    lemma_place_index(s, c);
    let p = place(s, c);
    assert forall|i: int| 0 <= i < p.len() implies (#[trigger] p[i]).id < n && p[i]
        == measured::<D>(vectors, query, p[i].id) by {
        if i < crate::candidates::slot(s, c) {
            assert(p[i] == s[i]);
        } else if i > crate::candidates::slot(s, c) {
            assert(p[i] == s[i - 1]);
        }
    }
}

/// Node `id` is among the first `upto` nodes of `nbrs`.
pub open spec fn listed(nbrs: Seq<usize>, upto: int, id: usize) -> bool {
    exists|j: int| 0 <= j < upto && (#[trigger] nbrs[j]) == id
}

/// Visiting nodes of the graph keeps a visited list sound, never drops a
/// candidate, and adds exactly the nodes looked at.
pub proof fn lemma_visit<D: DistanceFamily>(
    vectors: Seq<Seq<i32>>,
    query: Seq<i32>,
    visited: Seq<Candidate>,
    nbrs: Seq<usize>,
    upto: int,
    n: int,
)
    requires
        sound::<D>(visited, vectors, query, n),
        0 <= upto <= nbrs.len(),
        forall|j: int| 0 <= j < nbrs.len() ==> (#[trigger] nbrs[j]) < n,
    ensures
        sound::<D>(visit::<D>(vectors, query, visited, nbrs, upto), vectors, query, n),
        visit::<D>(vectors, query, visited, nbrs, upto).len() >= visited.len(),
        forall|id: usize|
            #![trigger has_id(visit::<D>(vectors, query, visited, nbrs, upto), id)]
            has_id(visit::<D>(vectors, query, visited, nbrs, upto), id) <==> (has_id(visited, id)
                || listed(nbrs, upto, id)),
    decreases upto,
{
    if upto > 0 {
        lemma_visit::<D>(vectors, query, visited, nbrs, upto - 1, n);
        let prev = visit::<D>(vectors, query, visited, nbrs, upto - 1);
        let cur = visit::<D>(vectors, query, visited, nbrs, upto);
        let q = nbrs[upto - 1];
        if !has_id(prev, q) {
            lemma_place_sound::<D>(prev, vectors, query, n, q);
            lemma_place_index(prev, measured::<D>(vectors, query, q));
        }
        assert forall|id: usize| #![trigger has_id(cur, id)]
            has_id(cur, id) <==> (has_id(visited, id) || listed(nbrs, upto, id)) by {
            assert(has_id(prev, id) <==> (has_id(visited, id) || listed(nbrs, upto - 1, id)));
            if !has_id(prev, q) {
                lemma_place_has_id(prev, measured::<D>(vectors, query, q), id);
            }
            assert(has_id(cur, id) <==> (has_id(prev, id) || id == q));
            if listed(nbrs, upto - 1, id) {
                let j = choose|j: int| 0 <= j < upto - 1 && (#[trigger] nbrs[j]) == id;
                assert(0 <= j < upto && nbrs[j] == id);
            }
            if id == q {
                assert(0 <= upto - 1 < upto && nbrs[upto - 1] == id);
            }
            if listed(nbrs, upto, id) {
                let j = choose|j: int| 0 <= j < upto && (#[trigger] nbrs[j]) == id;
                if j < upto - 1 {
                    assert(0 <= j < upto - 1 && nbrs[j] == id);
                }
            }
        }
    } else {
        assert forall|id: usize| !listed(nbrs, upto, id) by {}
    }
}

/// A search that starts from a sound visited list ends with one.
pub proof fn lemma_explore_sound<D: DistanceFamily>(
    adj: Seq<Seq<usize>>,
    vectors: Seq<Seq<i32>>,
    query: Seq<i32>,
    limit: int,
    visited: Seq<Candidate>,
    expanded: Seq<bool>,
    fuel: nat,
)
    requires
        in_range(adj),
        sound::<D>(visited, vectors, query, adj.len() as int),
    ensures
        sound::<D>(
            explore::<D>(adj, vectors, query, limit, visited, expanded, fuel),
            vectors,
            query,
            adj.len() as int,
        ),
        explore::<D>(adj, vectors, query, limit, visited, expanded, fuel).len() >= visited.len(),
    decreases fuel,
{
    let i = next_open(visited, expanded, limit, 0);
    if !(fuel == 0 || i >= limit || i >= visited.len()) {
        lemma_next_open(visited, expanded, limit, 0);
        let p = visited[i].id;
        let nbrs = adj[p as int];
        assert forall|j: int| 0 <= j < nbrs.len() implies (#[trigger] nbrs[j]) < adj.len() by {
            assert(adj[p as int][j] < adj.len());
        }
        lemma_visit::<D>(vectors, query, visited, nbrs, nbrs.len() as int, adj.len() as int);
        lemma_explore_sound::<D>(
            adj,
            vectors,
            query,
            limit,
            visit::<D>(vectors, query, visited, nbrs, nbrs.len() as int),
            expanded.update(p as int, true),
            (fuel - 1) as nat,
        );
    }
}

/// The list of a single measured node is sound.
pub proof fn lemma_single_sound<D: DistanceFamily>(
    vectors: Seq<Seq<i32>>,
    query: Seq<i32>,
    n: int,
    id: usize,
)
    requires
        id < n,
    ensures
        sound::<D>(seq![measured::<D>(vectors, query, id)], vectors, query, n),
        has_id(seq![measured::<D>(vectors, query, id)], id),
{
    let s = seq![measured::<D>(vectors, query, id)];
    assert(s[0].id == id);
}

/// What a greedy search visits is sound and holds at least the entry point.
pub proof fn lemma_greedy_sound<D: DistanceFamily>(
    adj: Seq<Seq<usize>>,
    vectors: Seq<Seq<i32>>,
    entry: usize,
    query: Seq<i32>,
    limit: int,
)
    requires
        in_range(adj),
        entry < adj.len(),
    ensures
        sound::<D>(
            greedy::<D>(adj, vectors, entry, query, limit),
            vectors,
            query,
            adj.len() as int,
        ),
        greedy::<D>(adj, vectors, entry, query, limit).len() >= 1,
{
    lemma_single_sound::<D>(vectors, query, adj.len() as int, entry);
    lemma_explore_sound::<D>(
        adj,
        vectors,
        query,
        limit,
        seq![measured::<D>(vectors, query, entry)],
        Seq::new(adj.len(), |i: int| false),
        adj.len(),
    );
}

/// The next open index lies between `from` and the end of the visited list.
pub proof fn lemma_next_open(visited: Seq<Candidate>, expanded: Seq<bool>, limit: int, from: int)
    requires
        0 <= from <= visited.len(),
    ensures
        from <= next_open(visited, expanded, limit, from) <= visited.len(),
    decreases visited.len() - from,
{
    if from < visited.len() && from < limit && expanded[visited[from].id as int] {
        lemma_next_open(visited, expanded, limit, from + 1);
    }
}

fn cleared(n: usize) -> (flags: Vec<bool>)
    ensures
        flags@ == Seq::new(n as nat, |i: int| false),
{
    let mut flags: Vec<bool> = Vec::new();
    let mut i: usize = 0;
    while i < n
        invariant
            0 <= i <= n,
            flags@.len() == i,
            forall|k: int| 0 <= k < i ==> !(#[trigger] flags@[k]),
        decreases n - i,
    {
        flags.push(false);
        i += 1;
    }
    assert(flags@ =~= Seq::new(n as nat, |i: int| false));
    flags
}

fn first_open(visited: &Vec<Candidate>, expanded: &Vec<bool>, limit: usize) -> (i: usize)
    requires
        ids_below(visited@, expanded@.len() as int),
    ensures
        i == next_open(visited@, expanded@, limit as int, 0),
        i <= visited@.len(),
{
    let mut i: usize = 0;
    while i < visited.len() && i < limit && expanded[visited[i].id]
        invariant
            0 <= i <= visited@.len(),
            ids_below(visited@, expanded@.len() as int),
            next_open(visited@, expanded@, limit as int, 0) == next_open(
                visited@,
                expanded@,
                limit as int,
                i as int,
            ),
        decreases visited.len() - i,
    {
        i += 1;
    }
    i
}

fn visit_neighbors<D: DistanceFamily>(
    vectors: &Vectors,
    query: &[i32],
    visited: &mut Vec<Candidate>,
    seen: &mut Vec<bool>,
    nbrs: &Vec<usize>,
)
    requires
        old(seen)@.len() <= vectors@.len(),
        forall|j: int| 0 <= j < nbrs@.len() ==> (#[trigger] nbrs@[j]) < old(seen)@.len(),
        query@.len() == vectors.spec_dims(),
        tracks(old(seen)@, old(visited)@),
        sound::<D>(old(visited)@, vectors@, query@, old(seen)@.len() as int),
    ensures
        final(visited)@ == visit::<D>(vectors@, query@, old(visited)@, nbrs@, nbrs@.len() as int),
        final(seen)@.len() == old(seen)@.len(),
        tracks(final(seen)@, final(visited)@),
        sound::<D>(final(visited)@, vectors@, query@, old(seen)@.len() as int),
{
    let mut j: usize = 0;
    while j < nbrs.len()
        invariant
            0 <= j <= nbrs@.len(),
            seen@.len() == old(seen)@.len() <= vectors@.len(),
            forall|k: int| 0 <= k < nbrs@.len() ==> (#[trigger] nbrs@[k]) < seen@.len(),
            query@.len() == vectors.spec_dims(),
            tracks(seen@, visited@),
            sound::<D>(visited@, vectors@, query@, seen@.len() as int),
            visited@ == visit::<D>(vectors@, query@, old(visited)@, nbrs@, j as int),
        decreases nbrs.len() - j,
    {
        let q = nbrs[j];
        assert(seen@[q as int] <==> has_id(visited@, q));
        if !seen[q] {
            let dist = D::distance(query, vectors.row(q));
            let c = Candidate { dist, id: q };
            proof {
                lemma_place_sound::<D>(visited@, vectors@, query@, seen@.len() as int, q);
                assert forall|id: usize| id < seen@.len() implies (seen@.update(
                    q as int,
                    true,
                )[id as int] <==> has_id(place(visited@, c), id)) by {
                    lemma_place_has_id(visited@, c, id);
                    assert(seen@[id as int] <==> has_id(visited@, id));
                }
            }
            insert_candidate(visited, c);
            seen.set(q, true);
        }
        j += 1;
    }
}

/// Runs a greedy beam search of width `limit` from `entry` towards `query`
/// and returns every candidate it visited, nearest first.
pub fn greedy_search<D: DistanceFamily>(
    graph: &Graph,
    vectors: &Vectors,
    entry: usize,
    query: &[i32],
    limit: usize,
) -> (visited: Vec<Candidate>)
    requires
        in_range(graph@),
        graph@.len() <= vectors@.len(),
        entry < graph@.len(),
        query@.len() == vectors.spec_dims(),
    ensures
        visited@ == greedy::<D>(graph@, vectors@, entry, query@, limit as int),
        sound::<D>(visited@, vectors@, query@, graph@.len() as int),
        visited@.len() >= 1,
{
    let n = graph.len();
    let mut visited: Vec<Candidate> = Vec::new();
    let first = Candidate { dist: D::distance(query, vectors.row(entry)), id: entry };
    visited.push(first);
    let mut seen = cleared(n);
    seen.set(entry, true);
    let mut expanded = cleared(n);
    proof {
        assert(visited@ =~= seq![measured::<D>(vectors@, query@, entry)]);
        lemma_single_sound::<D>(vectors@, query@, n as int, entry);
        lemma_greedy_sound::<D>(graph@, vectors@, entry, query@, limit as int);
        assert forall|id: usize| id < seen@.len() implies (seen@[id as int] <==> has_id(
            visited@,
            id,
        )) by {
            if has_id(visited@, id) {
                let i = choose|i: int| 0 <= i < visited@.len() && (#[trigger] visited@[i]).id == id;
                assert(i == 0);
            }
        }
    }
    let mut fuel = n;
    let mut i = first_open(&visited, &expanded, limit);
    while fuel > 0 && i < limit && i < visited.len()
        invariant
            in_range(graph@),
            graph@.len() == n <= vectors@.len(),
            query@.len() == vectors.spec_dims(),
            seen@.len() == n,
            expanded@.len() == n,
            tracks(seen@, visited@),
            sound::<D>(visited@, vectors@, query@, n as int),
            i == next_open(visited@, expanded@, limit as int, 0),
            i <= visited@.len(),
            explore::<D>(
                graph@,
                vectors@,
                query@,
                limit as int,
                visited@,
                expanded@,
                fuel as nat,
            ) == greedy::<D>(graph@, vectors@, entry, query@, limit as int),
        decreases fuel,
    {
        let p = visited[i].id;
        let nbrs = graph.neighbors(p);
        assert forall|j: int| 0 <= j < nbrs@.len() implies (#[trigger] nbrs@[j]) < n by {
            assert(graph@[p as int][j] < graph@.len());
        }
        expanded.set(p, true);
        visit_neighbors::<D>(vectors, query, &mut visited, &mut seen, nbrs);
        fuel -= 1;
        i = first_open(&visited, &expanded, limit);
    }
    visited
}

/// The candidates among the first `upto` of `visited` whose flag is set, in
/// their order.
pub open spec fn admitted(visited: Seq<Candidate>, flags: Seq<bool>, upto: int) -> Seq<Candidate>
    decreases upto,
{
    if upto <= 0 {
        Seq::empty()
    } else if flags[upto - 1] {
        admitted(visited, flags, upto - 1).push(visited[upto - 1])
    } else {
        admitted(visited, flags, upto - 1)
    }
}

/// A candidate as a search hands it out: its distance and its id.
pub open spec fn outward(c: Candidate) -> (u64, u64) {
    (c.dist, c.id as u64)
}

/// The answer of a search: the first `k` admitted candidates of the visited
/// list, each as a pair of distance and id.
pub open spec fn answer(visited: Seq<Candidate>, flags: Seq<bool>, k: int) -> Seq<(u64, u64)> {
    front(admitted(visited, flags, visited.len() as int), k).map_values(
        |c: Candidate| outward(c),
    )
}

/// The flags that admit every one of `len` candidates.
pub open spec fn accept_all(len: nat) -> Seq<bool> {
    Seq::new(len, |i: int| true)
}

/// Candidate `c` is one of the first `upto` of `visited` and its flag is set.
pub open spec fn flagged(visited: Seq<Candidate>, flags: Seq<bool>, upto: int, c: Candidate) -> bool {
    exists|i: int| 0 <= i < upto && (#[trigger] flags[i]) && visited[i] == c
}

/// The admitted candidates are no more than those looked at, and each one is
/// a flagged candidate of the visited list; they come in the order of the
/// visited list.
pub proof fn lemma_admitted(visited: Seq<Candidate>, flags: Seq<bool>, upto: int)
    requires
        0 <= upto <= visited.len(),
        flags.len() == visited.len(),
    ensures
        admitted(visited, flags, upto).len() <= upto,
        forall|m: int|
            0 <= m < admitted(visited, flags, upto).len() ==> flagged(
                visited,
                flags,
                upto,
                #[trigger] admitted(visited, flags, upto)[m],
            ),
        ascending(visited) ==> ascending(admitted(visited, flags, upto)),
    decreases upto,
{
    if upto > 0 {
        lemma_admitted(visited, flags, upto - 1);
        let prev = admitted(visited, flags, upto - 1);
        let cur = admitted(visited, flags, upto);
        assert forall|m: int| 0 <= m < cur.len() implies flagged(
            visited,
            flags,
            upto,
            #[trigger] cur[m],
        ) by {
            if m < prev.len() {
                assert(flagged(visited, flags, upto - 1, prev[m]));
                let i = choose|i: int|
                    0 <= i < upto - 1 && (#[trigger] flags[i]) && visited[i] == prev[m];
                assert(0 <= i < upto && flags[i] && visited[i] == cur[m]);
            } else {
                assert(flags[upto - 1] && visited[upto - 1] == cur[m]);
            }
        }
        if flags[upto - 1] && ascending(visited) {
            assert forall|a: int, b: int| 0 <= a < b < cur.len() implies precedes(
                #[trigger] cur[a],
                #[trigger] cur[b],
            ) by {
                if b < prev.len() {
                    assert(precedes(prev[a], prev[b]));
                } else {
                    assert(flagged(visited, flags, upto - 1, prev[a]));
                    let i = choose|i: int|
                        0 <= i < upto - 1 && (#[trigger] flags[i]) && visited[i] == prev[a];
                    assert(precedes(visited[i], visited[upto - 1]));
                }
            }
        }
    }
}

/// Where every candidate is admitted, the admitted candidates are the
/// candidates looked at.
pub proof fn lemma_admitted_all(visited: Seq<Candidate>, upto: int)
    requires
        0 <= upto <= visited.len(),
    ensures
        admitted(visited, accept_all(visited.len()), upto) == visited.take(upto),
    decreases upto,
{
    if upto > 0 {
        lemma_admitted_all(visited, upto - 1);
        assert(visited.take(upto - 1).push(visited[upto - 1]) =~= visited.take(upto));
    } else {
        assert(visited.take(upto) =~= Seq::<Candidate>::empty());
    }
}

/// The answer of a search is ordered and free of repetition: it holds at
/// most `k` pairs, each the true distance and the id of a node; of two pairs
/// the earlier one is nearer, or as near and of smaller id; and no id occurs
/// twice.
pub proof fn lemma_answer_ordered<D: DistanceFamily>(
    visited: Seq<Candidate>,
    flags: Seq<bool>,
    k: int,
    vectors: Seq<Seq<i32>>,
    query: Seq<i32>,
    n: int,
)
    requires
        sound::<D>(visited, vectors, query, n),
        flags.len() == visited.len(),
        0 <= k,
    ensures
        answer(visited, flags, k).len() <= k,
        answer(visited, flags, k).len() <= visited.len(),
        forall|m: int|
            0 <= m < answer(visited, flags, k).len() ==> {
                let pair = #[trigger] answer(visited, flags, k)[m];
                &&& pair.1 < n
                &&& pair.0 == D::spec_distance(query, vectors[pair.1 as int])
            },
        forall|a: int, b: int|
            0 <= a < b < answer(visited, flags, k).len() ==> {
                let first = #[trigger] answer(visited, flags, k)[a];
                let second = #[trigger] answer(visited, flags, k)[b];
                &&& first.0 < second.0 || (first.0 == second.0 && first.1 < second.1)
                &&& first.1 != second.1
            },
{
    let len = visited.len() as int;
    let chosen = admitted(visited, flags, len);
    lemma_admitted(visited, flags, len);
    let out = answer(visited, flags, k);
    assert forall|m: int| 0 <= m < out.len() implies {
        let pair = #[trigger] out[m];
        &&& pair.1 < n
        &&& pair.0 == D::spec_distance(query, vectors[pair.1 as int])
    } by {
        assert(out[m] == outward(chosen[m]));
        assert(flagged(visited, flags, len, chosen[m]));
        let i = choose|i: int| 0 <= i < len && (#[trigger] flags[i]) && visited[i] == chosen[m];
        assert(visited[i] == measured::<D>(vectors, query, visited[i].id));
    }
    assert forall|a: int, b: int| 0 <= a < b < out.len() implies {
        let first = #[trigger] out[a];
        let second = #[trigger] out[b];
        &&& first.0 < second.0 || (first.0 == second.0 && first.1 < second.1)
        &&& first.1 != second.1
    } by {
        assert(out[a] == outward(chosen[a]));
        assert(out[b] == outward(chosen[b]));
        assert(precedes(chosen[a], chosen[b]));
        assert(flagged(visited, flags, len, chosen[a]));
        assert(flagged(visited, flags, len, chosen[b]));
        let i = choose|i: int| 0 <= i < len && (#[trigger] flags[i]) && visited[i] == chosen[a];
        let j = choose|j: int| 0 <= j < len && (#[trigger] flags[j]) && visited[j] == chosen[b];
        assert(visited[i] == measured::<D>(vectors, query, visited[i].id));
        assert(visited[j] == measured::<D>(vectors, query, visited[j].id));
    }
}

/// With a predicate that admits every candidate, the answer is the first `k`
/// visited candidates: as many as were visited, or `k` if that is fewer.
pub proof fn lemma_answer_accept_all(visited: Seq<Candidate>, k: int)
    requires
        0 <= k,
    ensures
        answer(visited, accept_all(visited.len()), k) == front(visited, k).map_values(
            |c: Candidate| outward(c),
        ),
        answer(visited, accept_all(visited.len()), k).len() == if k < visited.len() {
            k
        } else {
            visited.len() as int
        },
{
    lemma_admitted_all(visited, visited.len() as int);
    assert(visited.take(visited.len() as int) =~= visited);
}

/// The predicate filters the answer and nothing else: whatever it admits, a
/// search visits the same candidates, and the answer under a predicate that
/// admits everything is never shorter than under any other.
pub proof fn lemma_accept_all_answers_most(visited: Seq<Candidate>, flags: Seq<bool>, k: int)
    requires
        flags.len() == visited.len(),
        0 <= k,
    ensures
        answer(visited, flags, k).len() <= answer(visited, accept_all(visited.len()), k).len(),
        admitted(visited, flags, visited.len() as int).len() <= admitted(
            visited,
            accept_all(visited.len()),
            visited.len() as int,
        ).len(),
{
    lemma_admitted(visited, flags, visited.len() as int);
    lemma_answer_accept_all(visited, k);
    lemma_admitted_all(visited, visited.len() as int);
}

/// Picks the answer out of the visited list: the first `k` candidates whose
/// flag is set, nearest first.
pub fn select_admitted(visited: &Vec<Candidate>, flags: &Vec<bool>, k: usize) -> (out: Vec<
    (u64, u64),
>)
    requires
        flags@.len() == visited@.len(),
    ensures
        out@ == answer(visited@, flags@, k as int),
{
    let mut out: Vec<(u64, u64)> = Vec::new();
    let mut i: usize = 0;
    while i < visited.len()
        invariant
            0 <= i <= visited@.len(),
            flags@.len() == visited@.len(),
            out@ == front(admitted(visited@, flags@, i as int), k as int).map_values(
                |c: Candidate| outward(c),
            ),
        decreases visited.len() - i,
    {
        let ghost prev = admitted(visited@, flags@, i as int);
        let ghost cur = admitted(visited@, flags@, i + 1);
        proof {
            lemma_admitted(visited@, flags@, i as int);
        }
        if flags[i] && out.len() < k {
            let c = visited[i];
            out.push((c.dist, c.id as u64));
            assert(front(cur, k as int) =~= front(prev, k as int).push(c));
            assert(front(cur, k as int).map_values(|c: Candidate| outward(c)) =~= front(
                prev,
                k as int,
            ).map_values(|c: Candidate| outward(c)).push(outward(c)));
        } else {
            assert(front(cur, k as int) =~= front(prev, k as int));
        }
        i += 1;
    }
    out
}

} // verus!
