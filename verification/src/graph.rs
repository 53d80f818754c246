//! The graph store: for every node an ordered list of out-neighbours.

use vstd::prelude::*;

verus! {

/// A neighbour list of node `p` in a graph of `n` nodes with degree bound
/// `r`: at most `r` nodes, each of the graph and none of them `p` itself.
pub open spec fn links_ok(list: Seq<usize>, p: int, n: int, r: int) -> bool {
    &&& list.len() <= r
    &&& forall|j: int| 0 <= j < list.len() ==> (#[trigger] list[j]) < n && list[j] != p
}

/// Every node's neighbour list respects the degree bound `r` and names only
/// other nodes of the graph.
pub open spec fn well_formed(adj: Seq<Seq<usize>>, r: int) -> bool {
    forall|p: int| 0 <= p < adj.len() ==> links_ok(#[trigger] adj[p], p, adj.len() as int, r)
}

/// The graph of `n` nodes without any edge.
pub open spec fn edgeless(n: nat) -> Seq<Seq<usize>> {
    Seq::new(n, |p: int| Seq::<usize>::empty())
}

/// The adjacency lists of a directed graph whose nodes are `0..len`.
pub struct Graph {
    lists: Vec<Vec<usize>>,
}

impl View for Graph {
    type V = Seq<Seq<usize>>;

    closed spec fn view(&self) -> Seq<Seq<usize>> {
        Seq::new(self.lists@.len(), |p: int| self.lists@[p]@)
    }
}

impl Graph {
    /// A graph of `n` nodes without any edge.
    pub fn new(n: usize) -> (g: Graph)
        ensures
            g@ == edgeless(n as nat),
    {
        let mut lists: Vec<Vec<usize>> = Vec::new();
        let mut i: usize = 0;
        while i < n
            invariant
                0 <= i <= n,
                lists@.len() == i,
                forall|p: int| 0 <= p < i ==> (#[trigger] lists@[p])@ == Seq::<usize>::empty(),
            decreases n - i,
        {
            lists.push(Vec::new());
            i += 1;
        }
        let g = Graph { lists };
        assert(g@ =~= edgeless(n as nat));
        g
    }

    /// A graph with the given adjacency lists.
    pub fn from_lists(lists: Vec<Vec<usize>>) -> (g: Graph)
        ensures
            g@.len() == lists@.len(),
            forall|p: int| 0 <= p < lists@.len() ==> #[trigger] g@[p] == lists@[p]@,
    {
        Graph { lists }
    }

    /// The number of nodes.
    pub fn len(&self) -> (n: usize)
        ensures
            n == self@.len(),
    {
        self.lists.len()
    }

    /// The out-neighbours of node `p`.
    pub fn neighbors(&self, p: usize) -> (list: &Vec<usize>)
        requires
            p < self@.len(),
        ensures
            list@ == self@[p as int],
    {
        &self.lists[p]
    }

    /// Replaces the out-neighbours of node `p`.
    pub fn set_neighbors(&mut self, p: usize, list: Vec<usize>)
        requires
            p < old(self)@.len(),
        ensures
            final(self)@ == old(self)@.update(p as int, list@),
    {
        self.lists.set(p, list);
        assert(self@ =~= old(self)@.update(p as int, list@));
    }

    /// Appends `v` to the out-neighbours of node `p`.
    pub fn push_neighbor(&mut self, p: usize, v: usize)
        requires
            p < old(self)@.len(),
        ensures
            final(self)@ == old(self)@.update(p as int, old(self)@[p as int].push(v)),
    {
        let mut list: Vec<usize> = Vec::new();
        self.lists.set_and_swap(p, &mut list);
        list.push(v);
        self.lists.set(p, list);
        assert(self@ =~= old(self)@.update(p as int, old(self)@[p as int].push(v)));
    }
}

} // verus!
