//! The index: planning its storage, building or loading its graph, and
//! searching it.

use crate::builder::{constructed, lemma_constructed_well_formed, lemma_well_formed_in_range, run_pass};
use crate::candidates::Candidate;
use crate::distance::DistanceFamily;
use crate::entry::{entry_point, select_entry};
use crate::error::VamanaError;
use crate::graph::{links_ok, well_formed, Graph};
use crate::layout::{
    decode, encode, fetch_words, holds_graph, image, layout_bytes, layout_words,
    lemma_image_round_trip, plan, planned, store_words, stored_entry, stored_graph,
};
use crate::options::{Alpha, IndexOptions, Memmap, VamanaOptions};
use crate::search::{
    admitted, answer, flagged, greedy, greedy_search, lemma_admitted, lemma_answer_ordered,
    select_admitted, sound,
};
use crate::storage::{words, Storage, StoragePreallocator};
use crate::vectors::Vectors;
use core::marker::PhantomData;
use std::sync::Arc;
use vstd::prelude::*;

verus! {

/// Why `prebuild` fails on the given options with `reserved` bytes already
/// reserved of `limit`, if it does.
pub open spec fn prebuild_error(options: IndexOptions, reserved: int, limit: int) -> Option<
    VamanaError,
> {
    match planned(options.capacity, options.algorithm.r) {
        Err(e) => Some(e),
        Ok(bytes) => if reserved + bytes > limit {
            Some(VamanaError::StorageExhausted)
        } else {
            None
        },
    }
}

/// Why `build` fails, if it does: the layout cannot be planned, the region is
/// of another storage mode or too small, or more vectors are named than the
/// index has room for or than the dataset holds.
pub open spec fn build_error(
    options: IndexOptions,
    region_mode: Memmap,
    region_len: int,
    dataset_len: int,
    n: usize,
) -> Option<VamanaError> {
    match planned(options.capacity, options.algorithm.r) {
        Err(e) => Some(e),
        Ok(bytes) => if region_mode != options.algorithm.memmap {
            Some(VamanaError::LayoutMismatch)
        } else if region_len < bytes {
            Some(VamanaError::StorageTooSmall)
        } else if n > options.capacity {
            Some(VamanaError::CapacityExceeded)
        } else if n > dataset_len {
            Some(VamanaError::IdOutOfRange)
        } else {
            None
        },
    }
}

/// The words of a region that belong to the layout of the given options.
pub open spec fn region_image(options: IndexOptions, region: Seq<u8>) -> Seq<u64> {
    words(region, layout_words(options.capacity as int, options.algorithm.r as int))
}

/// Why `load` fails, if it does: the layout cannot be planned, the region is
/// of another storage mode or too small, it does not hold a well-formed graph
/// laid out for these options, or the graph has more nodes than the dataset
/// has vectors.
pub open spec fn load_error(
    options: IndexOptions,
    region_mode: Memmap,
    region: Seq<u8>,
    dataset_len: int,
) -> Option<VamanaError> {
    match planned(options.capacity, options.algorithm.r) {
        Err(e) => Some(e),
        Ok(bytes) => if region_mode != options.algorithm.memmap {
            Some(VamanaError::LayoutMismatch)
        } else if region.len() < bytes {
            Some(VamanaError::StorageTooSmall)
        } else if !holds_graph(
            region_image(options, region),
            options.capacity as int,
            options.algorithm.r as int,
        ) {
            Some(VamanaError::LayoutMismatch)
        } else if region_image(options, region)[2] > dataset_len {
            Some(VamanaError::IdOutOfRange)
        } else {
            None
        },
    }
}

/// The candidates that a search of the given graph for `query` visits,
/// nearest first. An index without nodes has nothing to visit.
pub open spec fn visited_by<D: DistanceFamily>(
    adj: Seq<Seq<usize>>,
    vectors: Seq<Seq<i32>>,
    entry: usize,
    l: int,
    query: Seq<i32>,
) -> Seq<Candidate> {
    if adj.len() == 0 {
        Seq::empty()
    } else {
        greedy::<D>(adj, vectors, entry, query, l)
    }
}

/// The verdicts `flags` are what `filter` gave for the candidates of
/// `visited`, one each.
pub open spec fn judged<F: Fn(u64) -> bool>(
    filter: F,
    visited: Seq<Candidate>,
    flags: Seq<bool>,
) -> bool {
    &&& flags.len() == visited.len()
    &&& forall|i: int|
        0 <= i < visited.len() ==> call_ensures(filter, (visited[i].id as u64,), #[trigger] flags[i])
}

/// A graph index over a dataset of vectors, for the distance family `D`.
pub struct Vamana<D: DistanceFamily> {
    graph: Graph,
    entry: usize,
    vectors: Arc<Vectors>,
    capacity: usize,
    options: VamanaOptions,
    family: PhantomData<D>,
}

impl<D: DistanceFamily> Vamana<D> {
    #[verifier::type_invariant]
    spec fn valid(self) -> bool {
        &&& well_formed(self.graph@, self.options.r as int)
        &&& self.graph@.len() <= self.vectors@.len()
        &&& if self.graph@.len() == 0 {
            self.entry == 0
        } else {
            self.entry < self.graph@.len()
        }
    }

    /// The out-neighbour lists of the nodes.
    pub closed spec fn spec_graph(self) -> Seq<Seq<usize>> {
        self.graph@
    }

    /// The node at which every search starts.
    pub closed spec fn spec_entry(self) -> usize {
        self.entry
    }

    /// The dataset that the index is built over.
    pub closed spec fn spec_vectors(self) -> Seq<Seq<i32>> {
        self.vectors@
    }

    /// The number of dimensions of the dataset.
    pub closed spec fn spec_dims(self) -> int {
        self.vectors.spec_dims()
    }

    /// The number of nodes that the layout has room for.
    pub closed spec fn spec_capacity(self) -> usize {
        self.capacity
    }

    /// The options that the index was built or loaded with.
    pub closed spec fn spec_options(self) -> VamanaOptions {
        self.options
    }

    /// The candidates that a search for `query` visits, nearest first. The
    /// admission predicate has no part in it.
    pub open spec fn spec_visited(self, query: Seq<i32>) -> Seq<Candidate> {
        visited_by::<D>(
            self.spec_graph(),
            self.spec_vectors(),
            self.spec_entry(),
            self.spec_options().l as int,
            query,
        )
    }

    /// Reserves the storage footprint of an index with the given options: a
    /// header, a neighbour count for each of `capacity` nodes and `r`
    /// neighbour slots for each. Nothing is reserved where there is room for
    /// no node or no edge, or where the footprint cannot be had.
    pub fn prebuild(storage: &mut StoragePreallocator, options: IndexOptions) -> (res: Result<
        (),
        VamanaError,
    >)
        ensures
            final(storage).spec_limit() == old(storage).spec_limit(),
            match prebuild_error(
                options,
                old(storage).spec_reserved(Memmap::Ram) + old(storage).spec_reserved(Memmap::Disk),
                old(storage).spec_limit(),
            ) {
                Some(e) => res == Err::<(), VamanaError>(e) && *final(storage) == *old(storage),
                None => {
                    &&& res == Ok::<(), VamanaError>(())
                    &&& final(storage).spec_reserved(options.algorithm.memmap) == old(
                        storage,
                    ).spec_reserved(options.algorithm.memmap) + layout_bytes(
                        options.capacity as int,
                        options.algorithm.r as int,
                    )
                    &&& forall|other: Memmap|
                        other != options.algorithm.memmap ==> final(storage).spec_reserved(other)
                            == old(storage).spec_reserved(other)
                },
            },
    {
        let bytes = match plan(options.capacity, options.algorithm.r) {
            Ok(bytes) => bytes,
            Err(e) => {
                return Err(e);
            },
        };
        match storage.reserve(options.algorithm.memmap, bytes) {
            Ok(()) => Ok(()),
            Err(e) => Err(e),
        }
    }

    /// Builds the index over the first `n` vectors of the dataset and
    /// persists it in the region.
    ///
    /// The entry point is the node nearest to the centroid. The graph is
    /// constructed in two passes over the nodes in ascending order, the first
    /// with the threshold one and the second with the configured threshold.
    /// Every node ends with at most `r` out-neighbours. The image of the
    /// graph is written into the words of the layout; the region keeps its
    /// size, and no byte behind the layout changes.
    pub fn build(storage: &mut Storage, options: IndexOptions, vectors: Arc<Vectors>, n: usize) -> (res:
        Result<Self, VamanaError>)
        ensures
            final(storage)@.len() == old(storage)@.len(),
            final(storage).spec_memmap() == old(storage).spec_memmap(),
            match build_error(
                options,
                old(storage).spec_memmap(),
                old(storage)@.len() as int,
                vectors@.len() as int,
                n,
            ) {
                Some(e) => res matches Err(err) && err == e && final(storage)@ == old(storage)@,
                None => res matches Ok(index) && {
                    &&& index.spec_vectors() == vectors@
                    &&& index.spec_dims() == vectors.spec_dims()
                    &&& index.spec_capacity() == options.capacity
                    &&& index.spec_options() == options.algorithm
                    &&& index.spec_entry() == entry_point::<D>(
                        vectors@,
                        n as int,
                        vectors.spec_dims(),
                    )
                    &&& index.spec_graph() == constructed::<D>(
                        vectors@,
                        n as int,
                        index.spec_entry(),
                        options.algorithm.alpha.spec_num(),
                        options.algorithm.alpha.spec_den(),
                        options.algorithm.r as int,
                        options.algorithm.l as int,
                    )
                    &&& index.spec_graph().len() == n
                    &&& if n == 0 {
                        index.spec_entry() == 0
                    } else {
                        index.spec_entry() < n
                    }
                    &&& well_formed(index.spec_graph(), options.algorithm.r as int)
                    &&& forall|p: int|
                        0 <= p < n ==> (#[trigger] index.spec_graph()[p]).len()
                            <= options.algorithm.r
                    &&& region_image(options, final(storage)@) == image(
                        index.spec_graph(),
                        index.spec_entry(),
                        options.capacity as int,
                        options.algorithm.r as int,
                    )
                    &&& forall|b: int|
                        layout_bytes(options.capacity as int, options.algorithm.r as int) <= b < old(
                            storage,
                        )@.len() ==> #[trigger] final(storage)@[b] == old(storage)@[b]
                },
            },
    {
        let capacity = options.capacity;
        let r = options.algorithm.r;
        let l = options.algorithm.l;
        let alpha = options.algorithm.alpha;
        let bytes = match plan(capacity, r) {
            Ok(bytes) => bytes,
            Err(e) => {
                return Err(e);
            },
        };
        if storage.memmap() != options.algorithm.memmap {
            return Err(VamanaError::LayoutMismatch);
        }
        if storage.len() < bytes {
            return Err(VamanaError::StorageTooSmall);
        }
        if n > capacity {
            return Err(VamanaError::CapacityExceeded);
        }
        if n > vectors.len() {
            return Err(VamanaError::IdOutOfRange);
        }
        let entry = select_entry::<D>(&vectors, n);
        let mut graph = Graph::new(n);
        assert(well_formed(graph@, r as int));
        if n > 0 {
            run_pass::<D>(&mut graph, &vectors, entry, Alpha::one(), r, l);
            run_pass::<D>(&mut graph, &vectors, entry, alpha, r, l);
            proof {
                lemma_constructed_well_formed::<D>(
                    vectors@,
                    n as int,
                    entry,
                    alpha.spec_num(),
                    alpha.spec_den(),
                    r as int,
                    l as int,
                );
            }
        }
        let image = encode(&graph, entry, capacity, r);
        store_words(storage, &image);
        proof {
            assert forall|p: int| 0 <= p < n implies (#[trigger] graph@[p]).len() <= r by {
                assert(links_ok(graph@[p], p, n as int, r as int));
            }
        }
        Ok(Vamana { graph, entry, vectors, capacity, options: options.algorithm, family: PhantomData })
    }

    /// Attaches to an index that was persisted in the region, without any
    /// construction work. The region must have been laid out for the same
    /// capacity and degree bound and hold a well-formed graph; it is not
    /// changed.
    pub fn load(storage: &mut Storage, options: IndexOptions, vectors: Arc<Vectors>, save: ()) -> (res:
        Result<Self, VamanaError>)
        ensures
            *final(storage) == *old(storage),
            match load_error(
                options,
                old(storage).spec_memmap(),
                old(storage)@,
                vectors@.len() as int,
            ) {
                Some(e) => res matches Err(err) && err == e,
                None => res matches Ok(index) && {
                    &&& index.spec_vectors() == vectors@
                    &&& index.spec_dims() == vectors.spec_dims()
                    &&& index.spec_capacity() == options.capacity
                    &&& index.spec_options() == options.algorithm
                    &&& index.spec_entry() == stored_entry(region_image(options, old(storage)@))
                    &&& index.spec_graph() == stored_graph(
                        region_image(options, old(storage)@),
                        options.capacity as int,
                        options.algorithm.r as int,
                    )
                    &&& if index.spec_graph().len() == 0 {
                        index.spec_entry() == 0
                    } else {
                        index.spec_entry() < index.spec_graph().len()
                    }
                    &&& well_formed(index.spec_graph(), options.algorithm.r as int)
                },
            },
    {
        let capacity = options.capacity;
        let r = options.algorithm.r;
        let bytes = match plan(capacity, r) {
            Ok(bytes) => bytes,
            Err(e) => {
                return Err(e);
            },
        };
        if storage.memmap() != options.algorithm.memmap {
            return Err(VamanaError::LayoutMismatch);
        }
        if storage.len() < bytes {
            return Err(VamanaError::StorageTooSmall);
        }
        let image = fetch_words(storage, bytes / 8);
        match decode(&image, capacity, r) {
            None => Err(VamanaError::LayoutMismatch),
            Some((graph, entry)) => {
                if graph.len() > vectors.len() {
                    return Err(VamanaError::IdOutOfRange);
                }
                Ok(
                    Vamana {
                        graph,
                        entry,
                        vectors,
                        capacity,
                        options: options.algorithm,
                        family: PhantomData,
                    },
                )
            },
        }
    }

    /// Reserved for incremental growth of the graph, which the index does not
    /// support: nothing is inserted and nothing changes, and the call
    /// succeeds for every id.
    pub fn insert(&self, insert: usize) -> (res: Result<(), VamanaError>)
        ensures
            res == Ok::<(), VamanaError>(()),
    {
        Ok(())
    }

    /// Runs the greedy beam search for `target` from the entry point and
    /// returns every candidate it visited, nearest first. This is all the
    /// work of a search but the admission of candidates.
    pub fn visit(&self, target: &[i32]) -> (res: Result<Vec<Candidate>, VamanaError>)
        ensures
            target@.len() != self.spec_dims() ==> res == Err::<Vec<Candidate>, VamanaError>(
                VamanaError::DimensionMismatch,
            ),
            target@.len() == self.spec_dims() ==> (res matches Ok(visited) && visited@
                == self.spec_visited(target@) && sound::<D>(
                visited@,
                self.spec_vectors(),
                target@,
                self.spec_graph().len() as int,
            )),
    {
        proof {
            use_type_invariant(self);
        }
        if target.len() != self.vectors.dims() {
            return Err(VamanaError::DimensionMismatch);
        }
        if self.graph.len() == 0 {
            return Ok(Vec::new());
        }
        proof {
            lemma_well_formed_in_range(self.graph@, self.options.r as int);
        }
        Ok(greedy_search::<D>(&self.graph, &self.vectors, self.entry, target, self.options.l))
    }

    /// Searches for the `k` admitted vectors nearest to `target`.
    ///
    /// A greedy beam search from the entry point visits candidates; `filter`
    /// is asked once about each visited candidate and decides only whether it
    /// is handed out, never where the search goes. The answer holds the first
    /// `k` admitted candidates, nearest first, each as distance and id.
    pub fn search<F: Fn(u64) -> bool>(&self, target: Box<[i32]>, k: usize, filter: F) -> (res: Result<
        Vec<(u64, u64)>,
        VamanaError,
    >)
        requires
            forall|id: u64| call_requires(filter, (id,)),
        ensures
            target@.len() != self.spec_dims() ==> res == Err::<Vec<(u64, u64)>, VamanaError>(
                VamanaError::DimensionMismatch,
            ),
            target@.len() == self.spec_dims() ==> (res matches Ok(found) && exists|
                flags: Seq<bool>,
            |
                #![trigger judged(filter, self.spec_visited(target@), flags)]
                judged(filter, self.spec_visited(target@), flags) && found@ == answer(
                    self.spec_visited(target@),
                    flags,
                    k as int,
                )),
            res matches Ok(found) ==> found@.len() <= k && forall|m: int|
                0 <= m < found@.len() ==> call_ensures(filter, ((#[trigger] found@[m]).1,), true),
            res matches Ok(found) ==> forall|m: int|
                0 <= m < found@.len() ==> (#[trigger] found@[m]).1 < self.spec_graph().len()
                    && found@[m].0 == D::spec_distance(
                    target@,
                    self.spec_vectors()[found@[m].1 as int],
                ),
            res matches Ok(found) ==> forall|a: int, b: int|
                0 <= a < b < found@.len() ==> ((#[trigger] found@[a]).0 < (#[trigger] found@[b]).0 || (
                found@[a].0 == found@[b].0 && found@[a].1 < found@[b].1)) && found@[a].1
                    != found@[b].1,
    {
        let visited = match self.visit(&target) {
            Ok(visited) => visited,
            Err(e) => {
                return Err(e);
            },
        };
        assert(visited@ == self.spec_visited(target@));
        let mut flags: Vec<bool> = Vec::new();
        let mut i: usize = 0;
        while i < visited.len()
            invariant
                0 <= i <= visited@.len(),
                flags@.len() == i,
                forall|id: u64| call_requires(filter, (id,)),
                forall|j: int|
                    0 <= j < i ==> call_ensures(
                        filter,
                        (visited@[j].id as u64,),
                        #[trigger] flags@[j],
                    ),
            decreases visited.len() - i,
        {
            let verdict = filter(visited[i].id as u64);
            flags.push(verdict);
            i += 1;
        }
        let found = select_admitted(&visited, &flags, k);
        proof {
            lemma_answer_ordered::<D>(
                visited@,
                flags@,
                k as int,
                self.spec_vectors(),
                target@,
                self.spec_graph().len() as int,
            );
            assert(judged(filter, self.spec_visited(target@), flags@));
            let chosen = admitted(visited@, flags@, visited@.len() as int);
            lemma_admitted(visited@, flags@, visited@.len() as int);
            assert forall|m: int| 0 <= m < found@.len() implies call_ensures(
                filter,
                ((#[trigger] found@[m]).1,),
                true,
            ) by {
                let c = chosen[m];
                assert(flagged(visited@, flags@, visited@.len() as int, c));
                let j = choose|j: int|
                    0 <= j < visited@.len() && (#[trigger] flags@[j]) && visited@[j] == c;
                assert(call_ensures(filter, (visited@[j].id as u64,), flags@[j]));
            }
        }
        Ok(found)
    }

    /// Whether the index takes up vectors after it was built. It does not:
    /// `insert` is a placeholder.
    pub fn supports_insert(&self) -> (b: bool)
        ensures
            !b,
    {
        false
    }

    /// The number of nodes that the layout has room for.
    pub fn capacity(&self) -> (c: usize)
        ensures
            c == self.spec_capacity(),
    {
        self.capacity
    }

    /// The options that the index was built or loaded with.
    pub fn options(&self) -> (o: VamanaOptions)
        ensures
            o == self.spec_options(),
    {
        self.options
    }

    /// The number of nodes of the graph.
    pub fn len(&self) -> (n: usize)
        ensures
            n == self.spec_graph().len(),
    {
        self.graph.len()
    }

    /// The node at which every search starts.
    pub fn entry(&self) -> (e: usize)
        ensures
            e == self.spec_entry(),
    {
        self.entry
    }

    /// The out-neighbours of node `id`, which are at most `r`; none for an id
    /// that is no node.
    pub fn neighbors(&self, id: usize) -> (list: Vec<usize>)
        ensures
            id < self.spec_graph().len() ==> list@ == self.spec_graph()[id as int],
            id >= self.spec_graph().len() ==> list@ == Seq::<usize>::empty(),
            list@.len() <= self.spec_options().r,
    {
        proof {
            use_type_invariant(self);
        }
        let mut list: Vec<usize> = Vec::new();
        if id < self.graph.len() {
            let stored = self.graph.neighbors(id);
            assert(links_ok(self.graph@[id as int], id as int, self.graph@.len() as int, self.options.r as int));
            let mut j: usize = 0;
            while j < stored.len()
                invariant
                    0 <= j <= stored@.len(),
                    list@ == stored@.take(j as int),
                decreases stored.len() - j,
            {
                list.push(stored[j]);
                assert(stored@.take(j as int).push(stored@[j as int]) =~= stored@.take(j + 1));
                j += 1;
            }
            assert(stored@.take(stored@.len() as int) =~= stored@);
        }
        list
    }
}

/// A region of at least as many bytes as `prebuild` reserved, in the mode in
/// which it reserved them, is one that `build` accepts: on it, a build fails
/// only where more vectors are named than the index has room for or than the
/// dataset holds, and so it never needs a byte that was not reserved.
pub proof fn lemma_reserved_region_suffices(
    options: IndexOptions,
    reserved: int,
    limit: int,
    region_len: int,
    dataset_len: int,
    n: usize,
)
    requires
        0 <= reserved,
        prebuild_error(options, reserved, limit) is None,
        region_len >= reserved + layout_bytes(
            options.capacity as int,
            options.algorithm.r as int,
        ),
    ensures
        build_error(options, options.algorithm.memmap, region_len, dataset_len, n) is None <==> (n
            <= options.capacity && n <= dataset_len),
        build_error(options, options.algorithm.memmap, region_len, dataset_len, n) matches Some(e)
            ==> e == VamanaError::CapacityExceeded || e == VamanaError::IdOutOfRange,
{
}

/// Reloading gives the built index back: where a region holds the image
/// that a build wrote, a load from it succeeds, the loaded index has the
/// graph and the entry point of the built one, and with the same dataset and
/// search list size every search visits the same candidates and, for the
/// same verdicts of the predicate, gives the same answer.
pub proof fn lemma_reload_searches_alike<D: DistanceFamily>(
    built: Vamana<D>,
    loaded: Vamana<D>,
    options: IndexOptions,
    region: Seq<u8>,
    dataset_len: int,
    query: Seq<i32>,
)
    requires
        planned(options.capacity, options.algorithm.r) is Ok,
        region.len() >= layout_bytes(options.capacity as int, options.algorithm.r as int),
        well_formed(built.spec_graph(), options.algorithm.r as int),
        built.spec_graph().len() <= options.capacity,
        built.spec_graph().len() <= dataset_len,
        if built.spec_graph().len() == 0 {
            built.spec_entry() == 0
        } else {
            built.spec_entry() < built.spec_graph().len()
        },
        region_image(options, region) == image(
            built.spec_graph(),
            built.spec_entry(),
            options.capacity as int,
            options.algorithm.r as int,
        ),
        loaded.spec_graph() == stored_graph(
            region_image(options, region),
            options.capacity as int,
            options.algorithm.r as int,
        ),
        loaded.spec_entry() == stored_entry(region_image(options, region)),
        loaded.spec_vectors() == built.spec_vectors(),
        loaded.spec_options().l == built.spec_options().l,
    ensures
        load_error(options, options.algorithm.memmap, region, dataset_len) is None,
        loaded.spec_graph() == built.spec_graph(),
        loaded.spec_entry() == built.spec_entry(),
        loaded.spec_visited(query) == built.spec_visited(query),
        forall|flags: Seq<bool>, k: int|
            #![trigger answer(loaded.spec_visited(query), flags, k)]
            answer(loaded.spec_visited(query), flags, k) == answer(
                built.spec_visited(query),
                flags,
                k,
            ),
{
    lemma_image_round_trip(
        built.spec_graph(),
        built.spec_entry(),
        options.capacity as int,
        options.algorithm.r as int,
    );
}

} // verus!
