//! What a search can find: with a frontier wide enough to hold every node,
//! the greedy search visits exactly the nodes that are reachable from the
//! entry point.

use crate::candidates::{has_id, precedes, Candidate};
use crate::distance::DistanceFamily;
use crate::search::{
    accept_all, answer, explore, greedy, in_range, lemma_answer_accept_all, lemma_next_open,
    lemma_single_sound, lemma_visit, listed, measured, next_open, sound, visit,
};
use vstd::prelude::*;
use vstd::seq_lib::seq_to_set_is_finite;
use vstd::set_lib::{lemma_int_range, lemma_len_subset, set_int_range};

verus! {

/// The graph has an edge from node `path[i]` to node `path[i + 1]`.
pub open spec fn step(adj: Seq<Seq<usize>>, path: Seq<usize>, i: int) -> bool {
    adj[path[i] as int].contains(path[i + 1])
}

/// `path` leads along edges of the graph from `from` to `to`.
pub open spec fn is_path(adj: Seq<Seq<usize>>, path: Seq<usize>, from: usize, to: usize) -> bool {
    &&& path.len() >= 1
    &&& path[0] == from
    &&& path[path.len() - 1] == to
    &&& forall|i: int| 0 <= i < path.len() ==> (#[trigger] path[i]) < adj.len()
    &&& forall|i: int| 0 <= i < path.len() - 1 ==> #[trigger] step(adj, path, i)
}

/// Node `to` can be reached from node `from` along edges of the graph.
pub open spec fn reaches(adj: Seq<Seq<usize>>, from: usize, to: usize) -> bool {
    exists|path: Seq<usize>| is_path(adj, path, from, to)
}

/// The nodes that can be reached from `entry`.
pub open spec fn reachable(adj: Seq<Seq<usize>>, entry: usize) -> Set<usize> {
    Set::new(|x: usize| reaches(adj, entry, x))
}

/// All out-neighbours of node `p` were visited.
pub open spec fn covered(adj: Seq<Seq<usize>>, visited: Seq<Candidate>, p: int) -> bool {
    forall|j: int| 0 <= j < adj[p].len() ==> has_id(visited, #[trigger] adj[p][j])
}

/// Every expanded node was visited together with all its out-neighbours.
pub open spec fn closed_under(
    adj: Seq<Seq<usize>>,
    visited: Seq<Candidate>,
    expanded: Seq<bool>,
) -> bool {
    forall|p: int|
        0 <= p < adj.len() && #[trigger] expanded[p] ==> has_id(visited, p as usize) && covered(
            adj,
            visited,
            p,
        )
}

/// The number of nodes among the first `upto` that were not expanded.
pub open spec fn unexpanded(expanded: Seq<bool>, upto: int) -> nat
    decreases upto,
{
    if upto <= 0 {
        0
    } else if expanded[upto - 1] {
        unexpanded(expanded, upto - 1)
    } else {
        unexpanded(expanded, upto - 1) + 1
    }
}

/// The state of a search that can still expand every unexpanded node:
/// what was visited is sound, holds the entry point and only reachable nodes,
/// and is closed under the edges of the expanded nodes.
pub open spec fn on_course<D: DistanceFamily>(
    adj: Seq<Seq<usize>>,
    vectors: Seq<Seq<i32>>,
    entry: usize,
    query: Seq<i32>,
    visited: Seq<Candidate>,
    expanded: Seq<bool>,
    fuel: nat,
) -> bool {
    &&& sound::<D>(visited, vectors, query, adj.len() as int)
    &&& expanded.len() == adj.len()
    &&& has_id(visited, entry)
    &&& forall|x: usize| has_id(visited, x) ==> reaches(adj, entry, x)
    &&& closed_under(adj, visited, expanded)
    &&& unexpanded(expanded, adj.len() as int) <= fuel
}

/// Every node reaches itself.
pub proof fn lemma_reaches_self(adj: Seq<Seq<usize>>, x: usize)
    requires
        x < adj.len(),
    ensures
        reaches(adj, x, x),
{
    let path = seq![x];
    assert(is_path(adj, path, x, x));
}

/// What reaches a node reaches its out-neighbours.
pub proof fn lemma_reaches_step(adj: Seq<Seq<usize>>, from: usize, via: usize, to: usize)
    requires
        reaches(adj, from, via),
        adj[via as int].contains(to),
        to < adj.len(),
    ensures
        reaches(adj, from, to),
{
    let path = choose|path: Seq<usize>| is_path(adj, path, from, via);
    let longer = path.push(to);
    assert forall|i: int| 0 <= i < longer.len() - 1 implies #[trigger] step(adj, longer, i) by {
        if i < path.len() - 1 {
            assert(step(adj, path, i));
        }
    }
    assert(is_path(adj, longer, from, to));
}

/// Where none of the first `upto` nodes is unexpanded, all are expanded.
pub proof fn lemma_all_expanded(expanded: Seq<bool>, upto: int)
    requires
        0 <= upto <= expanded.len(),
        unexpanded(expanded, upto) == 0,
    ensures
        forall|p: int| 0 <= p < upto ==> #[trigger] expanded[p],
    decreases upto,
{
    if upto > 0 {
        lemma_all_expanded(expanded, upto - 1);
    }
}

/// Expanding a node that was not expanded leaves one unexpanded node less.
pub proof fn lemma_expand_one(expanded: Seq<bool>, p: int, upto: int)
    requires
        0 <= p < expanded.len(),
        0 <= upto <= expanded.len(),
        !expanded[p],
    ensures
        unexpanded(expanded.update(p, true), upto) == if p < upto {
            unexpanded(expanded, upto) - 1
        } else {
            unexpanded(expanded, upto) as int
        },
        p < upto ==> unexpanded(expanded, upto) >= 1,
    decreases upto,
{
    if upto > 0 {
        lemma_expand_one(expanded, p, upto - 1);
    }
}

/// Every candidate before the next open one is expanded, and the next open
/// one, if it lies within the frontier, is not.
pub proof fn lemma_next_open_scan(
    visited: Seq<Candidate>,
    expanded: Seq<bool>,
    limit: int,
    from: int,
)
    requires
        0 <= from <= visited.len(),
    ensures
        forall|k: int|
            from <= k < next_open(visited, expanded, limit, from) ==> expanded[(
            #[trigger] visited[k]).id as int],
        next_open(visited, expanded, limit, from) < visited.len() && next_open(
            visited,
            expanded,
            limit,
            from,
        ) < limit ==> !expanded[visited[next_open(visited, expanded, limit, from)].id as int],
    decreases visited.len() - from,
{
    if from < visited.len() && from < limit && expanded[visited[from].id as int] {
        lemma_next_open_scan(visited, expanded, limit, from + 1);
    }
}

/// A sound list holds no node twice, so it is no longer than the graph has
/// nodes.
pub proof fn lemma_sound_length<D: DistanceFamily>(
    visited: Seq<Candidate>,
    vectors: Seq<Seq<i32>>,
    query: Seq<i32>,
    n: int,
)
    requires
        sound::<D>(visited, vectors, query, n),
        0 <= n,
    ensures
        visited.len() <= n,
        visited.map_values(|c: Candidate| c.id).no_duplicates(),
{
    let ids = visited.map_values(|c: Candidate| c.id as int);
    let nodes = visited.map_values(|c: Candidate| c.id);
    assert forall|i: int, j: int| 0 <= i < ids.len() && 0 <= j < ids.len() && i != j implies ids[i]
        != ids[j] && nodes[i] != nodes[j] by {
        assert(visited[i] == measured::<D>(vectors, query, visited[i].id));
        assert(visited[j] == measured::<D>(vectors, query, visited[j].id));
        if i < j {
            assert(precedes(visited[i], visited[j]));
        } else {
            assert(precedes(visited[j], visited[i]));
        }
    }
    ids.unique_seq_to_set();
    lemma_int_range(0, n);
    assert forall|x: int| ids.to_set().contains(x) implies set_int_range(0, n).contains(x) by {
        let i = choose|i: int| 0 <= i < ids.len() && ids[i] == x;
        assert(visited[i].id < n);
    }
    lemma_len_subset(ids.to_set(), set_int_range(0, n));
}

/// Where every visited node is expanded, every node of a path that starts at
/// a visited node is visited.
pub proof fn lemma_path_visited(
    adj: Seq<Seq<usize>>,
    visited: Seq<Candidate>,
    expanded: Seq<bool>,
    path: Seq<usize>,
    upto: int,
)
    requires
        expanded.len() == adj.len(),
        closed_under(adj, visited, expanded),
        forall|x: usize| has_id(visited, x) && x < adj.len() ==> expanded[x as int],
        path.len() >= 1,
        has_id(visited, path[0]),
        forall|i: int| 0 <= i < path.len() ==> (#[trigger] path[i]) < adj.len(),
        forall|i: int| 0 <= i < path.len() - 1 ==> #[trigger] step(adj, path, i),
        0 <= upto < path.len(),
    ensures
        has_id(visited, path[upto]),
    decreases upto,
{
    if upto > 0 {
        lemma_path_visited(adj, visited, expanded, path, upto - 1);
        let p = path[upto - 1];
        assert(step(adj, path, upto - 1));
        assert(expanded[p as int]);
        assert(covered(adj, visited, p as int));
        let j = choose|j: int| 0 <= j < adj[p as int].len() && adj[p as int][j] == path[upto];
        assert(has_id(visited, adj[p as int][j]));
    }
}

/// A search that is on course, with a frontier that has room for every node,
/// ends having visited exactly the nodes that the entry point reaches.
pub proof fn lemma_explore_reaches<D: DistanceFamily>(
    adj: Seq<Seq<usize>>,
    vectors: Seq<Seq<i32>>,
    entry: usize,
    query: Seq<i32>,
    limit: int,
    visited: Seq<Candidate>,
    expanded: Seq<bool>,
    fuel: nat,
)
    requires
        in_range(adj),
        limit >= adj.len(),
        on_course::<D>(adj, vectors, entry, query, visited, expanded, fuel),
    ensures
        forall|x: usize|
            has_id(explore::<D>(adj, vectors, query, limit, visited, expanded, fuel), x)
                <==> reaches(adj, entry, x),
    decreases fuel,
{
    let n = adj.len() as int;
    let i = next_open(visited, expanded, limit, 0);
    lemma_next_open(visited, expanded, limit, 0);
    lemma_next_open_scan(visited, expanded, limit, 0);
    lemma_sound_length::<D>(visited, vectors, query, n);
    if fuel == 0 || i >= limit || i >= visited.len() {
        assert forall|x: usize| has_id(visited, x) && x < adj.len() implies expanded[x as int] by {
            if fuel == 0 {
                lemma_all_expanded(expanded, n);
            } else {
                let k = choose|k: int| 0 <= k < visited.len() && (#[trigger] visited[k]).id == x;
                assert(expanded[visited[k].id as int]);
            }
        }
        assert forall|x: usize| reaches(adj, entry, x) implies has_id(visited, x) by {
            let path = choose|path: Seq<usize>| is_path(adj, path, entry, x);
            lemma_path_visited(adj, visited, expanded, path, path.len() - 1);
        }
    } else {
        let p = visited[i].id;
        let nbrs = adj[p as int];
        let next = visit::<D>(vectors, query, visited, nbrs, nbrs.len() as int);
        let marked = expanded.update(p as int, true);
        assert forall|j: int| 0 <= j < nbrs.len() implies (#[trigger] nbrs[j]) < n by {
            assert(adj[p as int][j] < adj.len());
        }
        lemma_visit::<D>(vectors, query, visited, nbrs, nbrs.len() as int, n);
        lemma_expand_one(expanded, p as int, n);
        assert(has_id(visited, p));
        assert forall|x: usize| has_id(next, x) implies reaches(adj, entry, x) by {
            if !has_id(visited, x) {
                assert(listed(nbrs, nbrs.len() as int, x));
                let j = choose|j: int| 0 <= j < nbrs.len() && (#[trigger] nbrs[j]) == x;
                assert(nbrs[j] == x);
                lemma_reaches_step(adj, entry, p, x);
            }
        }
        assert forall|q: int| 0 <= q < adj.len() && #[trigger] marked[q] implies has_id(
            next,
            q as usize,
        ) && covered(adj, next, q) by {
            if q == p {
                assert forall|j: int| 0 <= j < adj[q].len() implies has_id(
                    next,
                    #[trigger] adj[q][j],
                ) by {
                    assert(nbrs[j] == adj[q][j]);
                    assert(listed(nbrs, nbrs.len() as int, adj[q][j]));
                }
            } else {
                assert(expanded[q]);
                assert(covered(adj, visited, q));
                assert forall|j: int| 0 <= j < adj[q].len() implies has_id(
                    next,
                    #[trigger] adj[q][j],
                ) by {
                    assert(has_id(visited, adj[q][j]));
                }
            }
        }
        lemma_explore_reaches::<D>(
            adj,
            vectors,
            entry,
            query,
            limit,
            next,
            marked,
            (fuel - 1) as nat,
        );
    }
}

/// With a search list that has room for every node, a greedy search visits
/// exactly the nodes that the entry point reaches, each once.
pub proof fn lemma_greedy_reaches<D: DistanceFamily>(
    adj: Seq<Seq<usize>>,
    vectors: Seq<Seq<i32>>,
    entry: usize,
    query: Seq<i32>,
    limit: int,
)
    requires
        in_range(adj),
        entry < adj.len(),
        limit >= adj.len(),
    ensures
        forall|x: usize|
            has_id(greedy::<D>(adj, vectors, entry, query, limit), x) <==> reaches(adj, entry, x),
        reachable(adj, entry).finite(),
        greedy::<D>(adj, vectors, entry, query, limit).len() == reachable(adj, entry).len(),
{
    let n = adj.len() as int;
    let first = seq![measured::<D>(vectors, query, entry)];
    let blank = Seq::new(adj.len(), |i: int| false);
    lemma_single_sound::<D>(vectors, query, n, entry);
    lemma_reaches_self(adj, entry);
    assert forall|x: usize| has_id(first, x) implies reaches(adj, entry, x) by {
        let k = choose|k: int| 0 <= k < first.len() && (#[trigger] first[k]).id == x;
        assert(first[k].id == entry);
    }
    lemma_blank_unexpanded(adj.len(), n);
    assert(on_course::<D>(adj, vectors, entry, query, first, blank, adj.len()));
    lemma_explore_reaches::<D>(adj, vectors, entry, query, limit, first, blank, adj.len());
    let found = greedy::<D>(adj, vectors, entry, query, limit);
    crate::search::lemma_greedy_sound::<D>(adj, vectors, entry, query, limit);
    lemma_sound_length::<D>(found, vectors, query, n);
    let ids = found.map_values(|c: Candidate| c.id);
    ids.unique_seq_to_set();
    seq_to_set_is_finite(ids);
    assert forall|x: usize| ids.to_set().contains(x) <==> reachable(adj, entry).contains(x) by {
        if ids.to_set().contains(x) {
            let k = choose|k: int| 0 <= k < ids.len() && ids[k] == x;
            assert(found[k].id == x);
            assert(has_id(found, x));
        }
        if reachable(adj, entry).contains(x) {
            assert(has_id(found, x));
            let k = choose|k: int| 0 <= k < found.len() && (#[trigger] found[k]).id == x;
            assert(ids[k] == x);
        }
    }
    assert(ids.to_set() =~= reachable(adj, entry));
}

/// Where no node is expanded, the first `upto` nodes are all unexpanded.
pub proof fn lemma_blank_unexpanded(len: nat, upto: int)
    requires
        0 <= upto <= len,
    ensures
        unexpanded(Seq::new(len, |i: int| false), upto) == upto,
    decreases upto,
{
    if upto > 0 {
        lemma_blank_unexpanded(len, upto - 1);
    }
}

/// With a predicate that admits everything and a search list that has room
/// for every node, a search for `k` vectors answers with as many as the entry
/// point reaches, or with `k` if that is fewer.
pub proof fn lemma_accept_all_finds_reachable<D: DistanceFamily>(
    adj: Seq<Seq<usize>>,
    vectors: Seq<Seq<i32>>,
    entry: usize,
    query: Seq<i32>,
    limit: int,
    k: int,
)
    requires
        in_range(adj),
        entry < adj.len(),
        limit >= adj.len(),
        0 <= k,
    ensures
        reachable(adj, entry).finite(),
        answer(
            greedy::<D>(adj, vectors, entry, query, limit),
            accept_all(greedy::<D>(adj, vectors, entry, query, limit).len()),
            k,
        ).len() == if k < reachable(adj, entry).len() {
            k
        } else {
            reachable(adj, entry).len() as int
        },
{
    lemma_greedy_reaches::<D>(adj, vectors, entry, query, limit);
    lemma_answer_accept_all(greedy::<D>(adj, vectors, entry, query, limit), k);
}

/// The bound on the number of expansions never cuts a search short: a
/// search that may expand as often as there are unexpanded nodes stops only
/// when no unexpanded candidate remains in the frontier, so that more
/// expansions would change nothing.
pub proof fn lemma_fuel_suffices<D: DistanceFamily>(
    adj: Seq<Seq<usize>>,
    vectors: Seq<Seq<i32>>,
    query: Seq<i32>,
    limit: int,
    visited: Seq<Candidate>,
    expanded: Seq<bool>,
    fuel: nat,
    more: nat,
)
    requires
        in_range(adj),
        sound::<D>(visited, vectors, query, adj.len() as int),
        expanded.len() == adj.len(),
        unexpanded(expanded, adj.len() as int) <= fuel,
    ensures
        explore::<D>(adj, vectors, query, limit, visited, expanded, fuel + more) == explore::<D>(
            adj,
            vectors,
            query,
            limit,
            visited,
            expanded,
            fuel,
        ),
    decreases fuel,
{
    let n = adj.len() as int;
    let i = next_open(visited, expanded, limit, 0);
    lemma_next_open(visited, expanded, limit, 0);
    lemma_next_open_scan(visited, expanded, limit, 0);
    if i < limit && i < visited.len() {
        let p = visited[i].id;
        if fuel == 0 {
            lemma_all_expanded(expanded, n);
            assert(expanded[p as int]);
        } else {
            let nbrs = adj[p as int];
            assert forall|j: int| 0 <= j < nbrs.len() implies (#[trigger] nbrs[j]) < n by {
                assert(adj[p as int][j] < adj.len());
            }
            lemma_visit::<D>(vectors, query, visited, nbrs, nbrs.len() as int, n);
            lemma_expand_one(expanded, p as int, n);
            lemma_fuel_suffices::<D>(
                adj,
                vectors,
                query,
                limit,
                visit::<D>(vectors, query, visited, nbrs, nbrs.len() as int),
                expanded.update(p as int, true),
                (fuel - 1) as nat,
                more,
            );
            assert(((fuel + more) - 1) as nat == (fuel - 1) as nat + more);
        }
    }
}

/// A greedy search runs to its end: it stops when no unexpanded candidate
/// remains in the frontier, and no allowance of further expansions would let
/// it visit anything else.
pub proof fn lemma_greedy_runs_to_the_end<D: DistanceFamily>(
    adj: Seq<Seq<usize>>,
    vectors: Seq<Seq<i32>>,
    entry: usize,
    query: Seq<i32>,
    limit: int,
    more: nat,
)
    requires
        in_range(adj),
        entry < adj.len(),
    ensures
        explore::<D>(
            adj,
            vectors,
            query,
            limit,
            seq![measured::<D>(vectors, query, entry)],
            Seq::new(adj.len(), |i: int| false),
            adj.len() + more,
        ) == greedy::<D>(adj, vectors, entry, query, limit),
{
    lemma_single_sound::<D>(vectors, query, adj.len() as int, entry);
    lemma_blank_unexpanded(adj.len(), adj.len() as int);
    lemma_fuel_suffices::<D>(
        adj,
        vectors,
        query,
        limit,
        seq![measured::<D>(vectors, query, entry)],
        Seq::new(adj.len(), |i: int| false),
        adj.len(),
        more,
    );
}

} // verus!
