//! Construction of the graph: every node is linked to a pruned selection of
//! the candidates that a greedy search for its own vector finds, and each
//! selected neighbour gets an edge back.

use crate::candidates::{
    front, frontier_without, has_id, ids_below, insert_candidate, lemma_without_id, without_id,
    Candidate,
};
use crate::distance::DistanceFamily;
use crate::graph::{edgeless, links_ok, well_formed, Graph};
use crate::options::Alpha;
use crate::prune::{lemma_prune_links, prune, robust_prune};
use crate::search::{
    greedy, greedy_search, in_range, lemma_greedy_sound, lemma_visit, listed, sound, visit,
};
use crate::vectors::Vectors;
use vstd::prelude::*;

verus! {

/// The nodes `ids`, each once, ordered by their distance to node `pivot`.
pub open spec fn ranked<D: DistanceFamily>(
    vectors: Seq<Seq<i32>>,
    pivot: usize,
    ids: Seq<usize>,
) -> Seq<Candidate> {
    visit::<D>(vectors, vectors[pivot as int], Seq::empty(), ids, ids.len() as int)
}

/// The graph after the edge `p -> v` was asked for: nothing changes if it is
/// there already; it is appended if `p` has room; otherwise the neighbours of
/// `p` together with `v` are pruned around `p` down to the degree bound.
pub open spec fn relinked<D: DistanceFamily>(
    adj: Seq<Seq<usize>>,
    vectors: Seq<Seq<i32>>,
    num: int,
    den: int,
    r: int,
    p: usize,
    v: usize,
) -> Seq<Seq<usize>> {
    let list = adj[p as int];
    if list.contains(v) {
        adj
    } else if list.len() < r {
        adj.update(p as int, list.push(v))
    } else {
        adj.update(
            p as int,
            prune::<D>(vectors, num, den, r, ranked::<D>(vectors, p, list.push(v)), Seq::empty()),
        )
    }
}

/// The graph after the first `upto` nodes of `nbrs` got their edge back to
/// `v`.
pub open spec fn back_linked<D: DistanceFamily>(
    adj: Seq<Seq<usize>>,
    vectors: Seq<Seq<i32>>,
    num: int,
    den: int,
    r: int,
    nbrs: Seq<usize>,
    v: usize,
    upto: int,
) -> Seq<Seq<usize>>
    decreases upto,
{
    if upto <= 0 {
        adj
    } else {
        relinked::<D>(
            back_linked::<D>(adj, vectors, num, den, r, nbrs, v, upto - 1),
            vectors,
            num,
            den,
            r,
            nbrs[upto - 1],
            v,
        )
    }
}

/// The out-neighbours chosen for node `v`: the frontier of a greedy search
/// for the vector of `v`, without `v` itself, pruned around `v`.
pub open spec fn selection<D: DistanceFamily>(
    adj: Seq<Seq<usize>>,
    vectors: Seq<Seq<i32>>,
    entry: usize,
    num: int,
    den: int,
    r: int,
    l: int,
    v: usize,
) -> Seq<usize> {
    let visited = greedy::<D>(adj, vectors, entry, vectors[v as int], l);
    let cands = without_id(visited, v, front(visited, l).len() as int);
    prune::<D>(vectors, num, den, r, cands, Seq::empty())
}

/// The graph after node `v` was linked: its out-neighbours are replaced by
/// its selection, and every selected neighbour gets an edge back to `v`.
pub open spec fn linked<D: DistanceFamily>(
    adj: Seq<Seq<usize>>,
    vectors: Seq<Seq<i32>>,
    entry: usize,
    num: int,
    den: int,
    r: int,
    l: int,
    v: usize,
) -> Seq<Seq<usize>> {
    let nbrs = selection::<D>(adj, vectors, entry, num, den, r, l, v);
    back_linked::<D>(adj.update(v as int, nbrs), vectors, num, den, r, nbrs, v, nbrs.len() as int)
}

/// The graph after one pass has linked the nodes `0..upto` in ascending
/// order.
pub open spec fn pass<D: DistanceFamily>(
    adj: Seq<Seq<usize>>,
    vectors: Seq<Seq<i32>>,
    entry: usize,
    num: int,
    den: int,
    r: int,
    l: int,
    upto: int,
) -> Seq<Seq<usize>>
    decreases upto,
{
    if upto <= 0 {
        adj
    } else {
        linked::<D>(
            pass::<D>(adj, vectors, entry, num, den, r, l, upto - 1),
            vectors,
            entry,
            num,
            den,
            r,
            l,
            (upto - 1) as usize,
        )
    }
}

/// The graph that construction yields for the first `n` vectors: starting
/// without edges, one pass with the threshold one gives rough connectivity,
/// and a second pass with the threshold `num / den` refines it.
pub open spec fn constructed<D: DistanceFamily>(
    vectors: Seq<Seq<i32>>,
    n: int,
    entry: usize,
    num: int,
    den: int,
    r: int,
    l: int,
) -> Seq<Seq<usize>> {
    pass::<D>(
        pass::<D>(edgeless(n as nat), vectors, entry, 1, 1, r, l, n),
        vectors,
        entry,
        num,
        den,
        r,
        l,
        n,
    )
}

/// A well-formed graph names only its own nodes.
pub proof fn lemma_well_formed_in_range(adj: Seq<Seq<usize>>, r: int)
    requires
        well_formed(adj, r),
    ensures
        in_range(adj),
{
    assert forall|p: int, j: int| 0 <= p < adj.len() && 0 <= j < adj[p].len() implies (
    #[trigger] adj[p][j]) < adj.len() by {
        assert(links_ok(adj[p], p, adj.len() as int, r));
    }
}

/// Replacing one neighbour list of a well-formed graph by a fit one leaves a
/// well-formed graph.
pub proof fn lemma_update_well_formed(adj: Seq<Seq<usize>>, r: int, p: int, list: Seq<usize>)
    requires
        well_formed(adj, r),
        0 <= p < adj.len(),
        links_ok(list, p, adj.len() as int, r),
    ensures
        well_formed(adj.update(p, list), r),
{
    let next = adj.update(p, list);
    assert forall|q: int| 0 <= q < next.len() implies links_ok(
        #[trigger] next[q],
        q,
        next.len() as int,
        r,
    ) by {
        if q != p {
            assert(links_ok(adj[q], q, adj.len() as int, r));
        }
    }
}

/// Ranking nodes of the graph around a pivot gives a sound list of exactly
/// those nodes.
pub proof fn lemma_ranked<D: DistanceFamily>(
    vectors: Seq<Seq<i32>>,
    pivot: usize,
    ids: Seq<usize>,
    n: int,
)
    requires
        forall|j: int| 0 <= j < ids.len() ==> (#[trigger] ids[j]) < n,
    ensures
        sound::<D>(ranked::<D>(vectors, pivot, ids), vectors, vectors[pivot as int], n),
        ids_below(ranked::<D>(vectors, pivot, ids), n),
        forall|id: usize|
            #![trigger has_id(ranked::<D>(vectors, pivot, ids), id)]
            has_id(ranked::<D>(vectors, pivot, ids), id) <==> ids.contains(id),
{
    let empty = Seq::<Candidate>::empty();
    lemma_visit::<D>(vectors, vectors[pivot as int], empty, ids, ids.len() as int, n);
    let out = ranked::<D>(vectors, pivot, ids);
    assert forall|id: usize| #![trigger has_id(out, id)] has_id(out, id) <==> ids.contains(id) by {
        assert(!has_id(empty, id));
        assert(has_id(out, id) <==> listed(ids, ids.len() as int, id));
        if listed(ids, ids.len() as int, id) {
            let j = choose|j: int| 0 <= j < ids.len() && (#[trigger] ids[j]) == id;
            assert(ids[j] == id);
        }
        if ids.contains(id) {
            let j = choose|j: int| 0 <= j < ids.len() && ids[j] == id;
            assert(0 <= j < ids.len() && ids[j] == id);
        }
    }
}

/// Asking for a back-edge keeps the graph well-formed: also where the list of
/// `p` was full and had to be pruned again, `p` has at most `r` neighbours.
pub proof fn lemma_relinked_well_formed<D: DistanceFamily>(
    adj: Seq<Seq<usize>>,
    vectors: Seq<Seq<i32>>,
    num: int,
    den: int,
    r: int,
    p: usize,
    v: usize,
)
    requires
        well_formed(adj, r),
        p < adj.len(),
        v < adj.len(),
        p != v,
    ensures
        relinked::<D>(adj, vectors, num, den, r, p, v).len() == adj.len(),
        well_formed(relinked::<D>(adj, vectors, num, den, r, p, v), r),
        relinked::<D>(adj, vectors, num, den, r, p, v)[p as int].len() <= r,
{
    let n = adj.len() as int;
    let list = adj[p as int];
    assert(links_ok(list, p as int, n, r));
    if list.contains(v) {
    } else if list.len() < r {
        lemma_update_well_formed(adj, r, p as int, list.push(v));
    } else {
        let ids = list.push(v);
        assert forall|j: int| 0 <= j < ids.len() implies (#[trigger] ids[j]) < n && ids[j] != p by {
            if j < list.len() {
                assert(ids[j] == list[j]);
            }
        }
        lemma_ranked::<D>(vectors, p, ids, n);
        let cands = ranked::<D>(vectors, p, ids);
        if has_id(cands, p) {
            assert(ids.contains(p));
            let j = choose|j: int| 0 <= j < ids.len() && ids[j] == p;
            assert(ids[j] != p);
        }
        lemma_prune_links::<D>(vectors, num, den, r, cands, p, n);
        lemma_update_well_formed(
            adj,
            r,
            p as int,
            prune::<D>(vectors, num, den, r, cands, Seq::empty()),
        );
    }
}

/// The selection for node `v` is a fit neighbour list for `v`.
pub proof fn lemma_selection_links<D: DistanceFamily>(
    adj: Seq<Seq<usize>>,
    vectors: Seq<Seq<i32>>,
    entry: usize,
    num: int,
    den: int,
    r: int,
    l: int,
    v: usize,
)
    requires
        well_formed(adj, r),
        r >= 0,
        entry < adj.len(),
        v < adj.len(),
    ensures
        links_ok(
            selection::<D>(adj, vectors, entry, num, den, r, l, v),
            v as int,
            adj.len() as int,
            r,
        ),
{
    lemma_well_formed_in_range(adj, r);
    lemma_greedy_sound::<D>(adj, vectors, entry, vectors[v as int], l);
    let visited = greedy::<D>(adj, vectors, entry, vectors[v as int], l);
    let upto = front(visited, l).len() as int;
    lemma_without_id(visited, v, upto);
    let cands = without_id(visited, v, upto);
    assert forall|i: int| 0 <= i < cands.len() implies (#[trigger] cands[i]).id < adj.len() by {
        let j = choose|j: int| 0 <= j < upto && visited[j] == cands[i];
        assert(visited[j].id < adj.len());
    }
    lemma_prune_links::<D>(vectors, num, den, r, cands, v, adj.len() as int);
}

/// Giving the selected neighbours their edges back keeps the graph
/// well-formed.
pub proof fn lemma_back_linked_well_formed<D: DistanceFamily>(
    adj: Seq<Seq<usize>>,
    vectors: Seq<Seq<i32>>,
    num: int,
    den: int,
    r: int,
    nbrs: Seq<usize>,
    v: usize,
    upto: int,
)
    requires
        well_formed(adj, r),
        v < adj.len(),
        0 <= upto <= nbrs.len(),
        forall|j: int| 0 <= j < nbrs.len() ==> (#[trigger] nbrs[j]) < adj.len() && nbrs[j] != v,
    ensures
        back_linked::<D>(adj, vectors, num, den, r, nbrs, v, upto).len() == adj.len(),
        well_formed(back_linked::<D>(adj, vectors, num, den, r, nbrs, v, upto), r),
    decreases upto,
{
    if upto > 0 {
        lemma_back_linked_well_formed::<D>(adj, vectors, num, den, r, nbrs, v, upto - 1);
        lemma_relinked_well_formed::<D>(
            back_linked::<D>(adj, vectors, num, den, r, nbrs, v, upto - 1),
            vectors,
            num,
            den,
            r,
            nbrs[upto - 1],
            v,
        );
    }
}

/// Linking a node keeps the graph well-formed.
pub proof fn lemma_linked_well_formed<D: DistanceFamily>(
    adj: Seq<Seq<usize>>,
    vectors: Seq<Seq<i32>>,
    entry: usize,
    num: int,
    den: int,
    r: int,
    l: int,
    v: usize,
)
    requires
        well_formed(adj, r),
        r >= 0,
        entry < adj.len(),
        v < adj.len(),
    ensures
        linked::<D>(adj, vectors, entry, num, den, r, l, v).len() == adj.len(),
        well_formed(linked::<D>(adj, vectors, entry, num, den, r, l, v), r),
{
    lemma_selection_links::<D>(adj, vectors, entry, num, den, r, l, v);
    let nbrs = selection::<D>(adj, vectors, entry, num, den, r, l, v);
    lemma_update_well_formed(adj, r, v as int, nbrs);
    lemma_back_linked_well_formed::<D>(
        adj.update(v as int, nbrs),
        vectors,
        num,
        den,
        r,
        nbrs,
        v,
        nbrs.len() as int,
    );
}

/// A pass over a well-formed graph leaves a well-formed graph: after it,
/// every node has at most `r` out-neighbours.
pub proof fn lemma_pass_well_formed<D: DistanceFamily>(
    adj: Seq<Seq<usize>>,
    vectors: Seq<Seq<i32>>,
    entry: usize,
    num: int,
    den: int,
    r: int,
    l: int,
    upto: int,
)
    requires
        well_formed(adj, r),
        r >= 0,
        entry < adj.len(),
        0 <= upto <= adj.len(),
        adj.len() <= usize::MAX,
    ensures
        pass::<D>(adj, vectors, entry, num, den, r, l, upto).len() == adj.len(),
        well_formed(pass::<D>(adj, vectors, entry, num, den, r, l, upto), r),
    decreases upto,
{
    if upto > 0 {
        lemma_pass_well_formed::<D>(adj, vectors, entry, num, den, r, l, upto - 1);
        lemma_linked_well_formed::<D>(
            pass::<D>(adj, vectors, entry, num, den, r, l, upto - 1),
            vectors,
            entry,
            num,
            den,
            r,
            l,
            (upto - 1) as usize,
        );
    }
}

/// The constructed graph has `n` nodes and is well-formed: every node has at
/// most `r` out-neighbours, all of them other nodes of the graph.
pub proof fn lemma_constructed_well_formed<D: DistanceFamily>(
    vectors: Seq<Seq<i32>>,
    n: int,
    entry: usize,
    num: int,
    den: int,
    r: int,
    l: int,
)
    requires
        0 <= n <= usize::MAX,
        r >= 0,
        entry < n,
    ensures
        constructed::<D>(vectors, n, entry, num, den, r, l).len() == n,
        well_formed(constructed::<D>(vectors, n, entry, num, den, r, l), r),
        forall|p: int|
            0 <= p < n ==> (#[trigger] constructed::<D>(vectors, n, entry, num, den, r, l)[p]).len()
                <= r,
{
    let start = edgeless(n as nat);
    assert(well_formed(start, r));
    lemma_pass_well_formed::<D>(start, vectors, entry, 1, 1, r, l, n);
    let rough = pass::<D>(start, vectors, entry, 1, 1, r, l, n);
    lemma_pass_well_formed::<D>(rough, vectors, entry, num, den, r, l, n);
    let done = constructed::<D>(vectors, n, entry, num, den, r, l);
    assert forall|p: int| 0 <= p < n implies (#[trigger] done[p]).len() <= r by {
        assert(links_ok(done[p], p, n, r));
    }
}

fn holds(list: &Vec<usize>, v: usize) -> (b: bool)
    ensures
        b == list@.contains(v),
{
    let mut i: usize = 0;
    while i < list.len()
        invariant
            0 <= i <= list@.len(),
            forall|k: int| 0 <= k < i ==> list@[k] != v,
        decreases list.len() - i,
    {
        if list[i] == v {
            return true;
        }
        i += 1;
    }
    false
}

fn stands_in(list: &Vec<Candidate>, id: usize) -> (b: bool)
    ensures
        b == has_id(list@, id),
{
    let mut i: usize = 0;
    while i < list.len()
        invariant
            0 <= i <= list@.len(),
            forall|k: int| 0 <= k < i ==> (#[trigger] list@[k]).id != id,
        decreases list.len() - i,
    {
        if list[i].id == id {
            return true;
        }
        i += 1;
    }
    false
}

fn duplicate(list: &Vec<usize>) -> (out: Vec<usize>)
    ensures
        out@ == list@,
{
    let mut out: Vec<usize> = Vec::new();
    let mut i: usize = 0;
    while i < list.len()
        invariant
            0 <= i <= list@.len(),
            out@ == list@.take(i as int),
        decreases list.len() - i,
    {
        out.push(list[i]);
        assert(list@.take(i as int).push(list@[i as int]) =~= list@.take(i + 1));
        i += 1;
    }
    assert(list@.take(list@.len() as int) =~= list@);
    out
}

/// Orders the nodes `ids`, each once, by their distance to node `pivot`.
pub fn rank_neighbors<D: DistanceFamily>(vectors: &Vectors, pivot: usize, ids: &Vec<usize>) -> (out:
    Vec<Candidate>)
    requires
        pivot < vectors@.len(),
        forall|j: int| 0 <= j < ids@.len() ==> (#[trigger] ids@[j]) < vectors@.len(),
    ensures
        out@ == ranked::<D>(vectors@, pivot, ids@),
{
    let mut out: Vec<Candidate> = Vec::new();
    let mut j: usize = 0;
    while j < ids.len()
        invariant
            0 <= j <= ids@.len(),
            pivot < vectors@.len(),
            forall|k: int| 0 <= k < ids@.len() ==> (#[trigger] ids@[k]) < vectors@.len(),
            out@ == visit::<D>(
                vectors@,
                vectors@[pivot as int],
                Seq::empty(),
                ids@,
                j as int,
            ),
        decreases ids.len() - j,
    {
        let q = ids[j];
        if !stands_in(&out, q) {
            let dist = D::distance(vectors.row(pivot), vectors.row(q));
            insert_candidate(&mut out, Candidate { dist, id: q });
        }
        j += 1;
    }
    out
}

/// Asks for the edge `p -> v`. Where `p` is full, its neighbours and `v` are
/// pruned around `p`, so that `p` ends with at most `r` out-neighbours.
pub fn add_back_edge<D: DistanceFamily>(
    graph: &mut Graph,
    vectors: &Vectors,
    alpha: Alpha,
    r: usize,
    p: usize,
    v: usize,
)
    requires
        well_formed(old(graph)@, r as int),
        old(graph)@.len() <= vectors@.len(),
        p < old(graph)@.len(),
        v < old(graph)@.len(),
        p != v,
    ensures
        final(graph)@ == relinked::<D>(
            old(graph)@,
            vectors@,
            alpha.spec_num(),
            alpha.spec_den(),
            r as int,
            p,
            v,
        ),
        well_formed(final(graph)@, r as int),
        final(graph)@.len() == old(graph)@.len(),
        final(graph)@[p as int].len() <= r,
{
    proof {
        lemma_relinked_well_formed::<D>(
            graph@,
            vectors@,
            alpha.spec_num(),
            alpha.spec_den(),
            r as int,
            p,
            v,
        );
    }
    let list = graph.neighbors(p);
    if holds(list, v) {
        return ;
    }
    if list.len() < r {
        graph.push_neighbor(p, v);
        return ;
    }
    let mut ids = duplicate(list);
    ids.push(v);
    proof {
        assert(links_ok(graph@[p as int], p as int, graph@.len() as int, r as int));
        assert forall|j: int| 0 <= j < ids@.len() implies (#[trigger] ids@[j]) < graph@.len() by {
            if j < ids@.len() - 1 {
                assert(ids@[j] == graph@[p as int][j]);
            }
        }
        lemma_ranked::<D>(vectors@, p, ids@, graph@.len() as int);
    }
    let cands = rank_neighbors::<D>(vectors, p, &ids);
    let pruned = robust_prune::<D>(vectors, alpha, r, cands);
    graph.set_neighbors(p, pruned);
}

/// Links node `v` into the graph: a greedy search for its vector gives the
/// candidates, pruning selects its out-neighbours among them, and each
/// selected neighbour gets an edge back.
pub fn link_node<D: DistanceFamily>(
    graph: &mut Graph,
    vectors: &Vectors,
    entry: usize,
    alpha: Alpha,
    r: usize,
    l: usize,
    v: usize,
)
    requires
        well_formed(old(graph)@, r as int),
        old(graph)@.len() <= vectors@.len(),
        entry < old(graph)@.len(),
        v < old(graph)@.len(),
    ensures
        final(graph)@ == linked::<D>(
            old(graph)@,
            vectors@,
            entry,
            alpha.spec_num(),
            alpha.spec_den(),
            r as int,
            l as int,
            v,
        ),
        well_formed(final(graph)@, r as int),
        final(graph)@.len() == old(graph)@.len(),
{
    let ghost num = alpha.spec_num();
    let ghost den = alpha.spec_den();
    let ghost before = graph@;
    proof {
        lemma_well_formed_in_range(graph@, r as int);
        lemma_selection_links::<D>(before, vectors@, entry, num, den, r as int, l as int, v);
    }
    let visited = greedy_search::<D>(graph, vectors, entry, vectors.row(v), l);
    let cands = frontier_without(&visited, l, v);
    proof {
        let upto = front(visited@, l as int).len() as int;
        lemma_without_id(visited@, v, upto);
        assert forall|i: int| 0 <= i < cands@.len() implies (#[trigger] cands@[i]).id
            < vectors@.len() by {
            let j = choose|j: int| 0 <= j < upto && visited@[j] == cands@[i];
            assert(visited@[j].id < graph@.len());
        }
    }
    let nbrs = robust_prune::<D>(vectors, alpha, r, cands);
    let list = duplicate(&nbrs);
    assert(list@ == selection::<D>(before, vectors@, entry, num, den, r as int, l as int, v));
    proof {
        lemma_update_well_formed(before, r as int, v as int, list@);
    }
    graph.set_neighbors(v, nbrs);
    let mut j: usize = 0;
    while j < list.len()
        invariant
            0 <= j <= list@.len(),
            num == alpha.spec_num(),
            den == alpha.spec_den(),
            graph@.len() == before.len() <= vectors@.len(),
            v < graph@.len(),
            well_formed(graph@, r as int),
            links_ok(list@, v as int, before.len() as int, r as int),
            graph@ == back_linked::<D>(
                before.update(v as int, list@),
                vectors@,
                num,
                den,
                r as int,
                list@,
                v,
                j as int,
            ),
        decreases list.len() - j,
    {
        add_back_edge::<D>(graph, vectors, alpha, r, list[j], v);
        j += 1;
    }
}

/// Runs one pass: links every node, in ascending order of id.
pub fn run_pass<D: DistanceFamily>(
    graph: &mut Graph,
    vectors: &Vectors,
    entry: usize,
    alpha: Alpha,
    r: usize,
    l: usize,
)
    requires
        well_formed(old(graph)@, r as int),
        old(graph)@.len() <= vectors@.len(),
        entry < old(graph)@.len(),
    ensures
        final(graph)@ == pass::<D>(
            old(graph)@,
            vectors@,
            entry,
            alpha.spec_num(),
            alpha.spec_den(),
            r as int,
            l as int,
            old(graph)@.len() as int,
        ),
        well_formed(final(graph)@, r as int),
        final(graph)@.len() == old(graph)@.len(),
{
    let n = graph.len();
    let mut v: usize = 0;
    while v < n
        invariant
            0 <= v <= n,
            n == old(graph)@.len(),
            graph@.len() == n <= vectors@.len(),
            entry < n,
            well_formed(graph@, r as int),
            graph@ == pass::<D>(
                old(graph)@,
                vectors@,
                entry,
                alpha.spec_num(),
                alpha.spec_den(),
                r as int,
                l as int,
                v as int,
            ),
        decreases n - v,
    {
        link_node::<D>(graph, vectors, entry, alpha, r, l, v);
        v += 1;
    }
}

} // verus!
