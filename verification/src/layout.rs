//! The storage layout of an index: a header, one neighbour count per node
//! and `r` neighbour slots per node, all in words.

use crate::error::VamanaError;
use crate::graph::{links_ok, well_formed, Graph};
use crate::storage::{lemma_patched, word_at, words, Storage};
use vstd::arithmetic::div_mod::lemma_fundamental_div_mod_converse;
use vstd::prelude::*;

verus! {

/// The number of words of the header: capacity, degree bound, number of
/// nodes and entry point.
pub const HEADER_WORDS: usize = 4;

/// The number of words of the layout for `capacity` nodes of degree bound
/// `r`.
pub open spec fn layout_words(capacity: int, r: int) -> int {
    4 + capacity + capacity * r
}

/// The number of bytes of the layout for `capacity` nodes of degree bound
/// `r`.
pub open spec fn layout_bytes(capacity: int, r: int) -> int {
    8 * layout_words(capacity, r)
}

/// The footprint in bytes that the planner reserves, or why there is none:
/// a graph needs room for a node and for an edge, and its layout must fit in
/// the address space.
pub open spec fn planned(capacity: usize, r: usize) -> Result<usize, VamanaError> {
    if capacity == 0 {
        Err(VamanaError::ZeroCapacity)
    } else if r == 0 {
        Err(VamanaError::ZeroDegree)
    } else if layout_bytes(capacity as int, r as int) > usize::MAX {
        Err(VamanaError::LayoutOverflow)
    } else {
        Ok(layout_bytes(capacity as int, r as int) as usize)
    }
}

/// The word of the image that holds the number of neighbours of node `p`.
pub open spec fn degree_word(adj: Seq<Seq<usize>>, p: int) -> u64 {
    if 0 <= p < adj.len() {
        adj[p].len() as u64
    } else {
        0
    }
}

/// The word of the image that holds neighbour `j` of node `p`; unused slots
/// hold zero.
pub open spec fn slot_word(adj: Seq<Seq<usize>>, p: int, j: int) -> u64 {
    if 0 <= p < adj.len() && 0 <= j < adj[p].len() {
        adj[p][j] as u64
    } else {
        0
    }
}

/// Word `k` of the image of a graph.
pub open spec fn image_word(
    adj: Seq<Seq<usize>>,
    entry: usize,
    capacity: int,
    r: int,
    k: int,
) -> u64 {
    if k == 0 {
        capacity as u64
    } else if k == 1 {
        r as u64
    } else if k == 2 {
        adj.len() as u64
    } else if k == 3 {
        entry as u64
    } else if k < 4 + capacity {
        degree_word(adj, k - 4)
    } else {
        slot_word(adj, (k - 4 - capacity) / r, (k - 4 - capacity) % r)
    }
}

/// The image of a graph and its entry point in a layout for `capacity`
/// nodes of degree bound `r`.
pub open spec fn image(adj: Seq<Seq<usize>>, entry: usize, capacity: int, r: int) -> Seq<u64> {
    Seq::new(layout_words(capacity, r) as nat, |k: int| image_word(adj, entry, capacity, r, k))
}

/// The index of the word that holds neighbour `j` of node `p`.
pub open spec fn slot_index(capacity: int, r: int, p: int, j: int) -> int {
    4 + capacity + p * r + j
}

/// The neighbour list of node `p` that an image holds.
pub open spec fn stored_list(image: Seq<u64>, capacity: int, r: int, p: int) -> Seq<usize> {
    Seq::new(image[4 + p] as nat, |j: int| image[slot_index(capacity, r, p, j)] as usize)
}

/// The graph that an image holds.
pub open spec fn stored_graph(image: Seq<u64>, capacity: int, r: int) -> Seq<Seq<usize>> {
    Seq::new(image[2] as nat, |p: int| stored_list(image, capacity, r, p))
}

/// The entry point that an image holds.
pub open spec fn stored_entry(image: Seq<u64>) -> usize {
    image[3] as usize
}

/// The stored neighbour list of node `p` is one that a graph of `n` nodes of
/// degree bound `r` can have.
pub open spec fn list_fits(image: Seq<u64>, capacity: int, r: int, n: int, p: int) -> bool {
    &&& image[4 + p] <= r
    &&& forall|j: int|
        0 <= j < image[4 + p] ==> (#[trigger] image[slot_index(capacity, r, p, j)]) < n
            && image[slot_index(capacity, r, p, j)] != p
}

/// The image was laid out for `capacity` nodes of degree bound `r` and holds
/// a well-formed graph with an entry point among its nodes.
pub open spec fn holds_graph(image: Seq<u64>, capacity: int, r: int) -> bool {
    &&& image.len() == layout_words(capacity, r)
    &&& image[0] == capacity
    &&& image[1] == r
    &&& image[2] <= capacity
    &&& if image[2] == 0 {
        image[3] == 0
    } else {
        image[3] < image[2]
    }
    &&& forall|p: int| 0 <= p < image[2] ==> #[trigger] list_fits(image, capacity, r, image[2] as int, p)
}

/// The slot of neighbour `j` of node `p` lies within the layout, behind the
/// header and the counts, and holds that neighbour in the image of a graph.
pub proof fn lemma_slot(
    adj: Seq<Seq<usize>>,
    entry: usize,
    capacity: int,
    r: int,
    p: int,
    j: int,
)
    requires
        0 <= p < capacity,
        0 <= j < r,
    ensures
        4 + capacity <= slot_index(capacity, r, p, j) < layout_words(capacity, r),
        image_word(adj, entry, capacity, r, slot_index(capacity, r, p, j)) == slot_word(adj, p, j),
{
    assert(0 <= p * r && p * r + r <= capacity * r) by (nonlinear_arith)
        requires
            0 <= p < capacity,
            0 <= r,
    ;
    lemma_fundamental_div_mod_converse(p * r + j, r, p, j);
}

/// What the image of a well-formed graph holds is that graph and its entry
/// point.
pub proof fn lemma_image_round_trip(adj: Seq<Seq<usize>>, entry: usize, capacity: int, r: int)
    requires
        well_formed(adj, r),
        adj.len() <= capacity <= usize::MAX,
        1 <= r <= usize::MAX,
        layout_words(capacity, r) <= usize::MAX,
        if adj.len() == 0 {
            entry == 0
        } else {
            entry < adj.len()
        },
    ensures
        holds_graph(image(adj, entry, capacity, r), capacity, r),
        stored_graph(image(adj, entry, capacity, r), capacity, r) == adj,
        stored_entry(image(adj, entry, capacity, r)) == entry,
{
    let img = image(adj, entry, capacity, r);
    let n = adj.len() as int;
    assert(capacity * r >= 0) by (nonlinear_arith)
        requires
            capacity >= 0,
            r >= 0,
    ;
    assert(img[2] == n);
    assert forall|p: int| 0 <= p < n implies #[trigger] list_fits(img, capacity, r, n, p)
        && stored_list(img, capacity, r, p) == adj[p] by {
        let list = adj[p];
        assert(links_ok(list, p, n, r));
        assert(img[4 + p] == image_word(adj, entry, capacity, r, 4 + p));
        assert(img[4 + p] == list.len());
        assert forall|j: int| 0 <= j < list.len() implies (#[trigger] img[slot_index(
            capacity,
            r,
            p,
            j,
        )]) == list[j] by {
            lemma_slot(adj, entry, capacity, r, p, j);
            let k = slot_index(capacity, r, p, j);
            assert(img[k] == image_word(adj, entry, capacity, r, k));
        }
        assert forall|j: int| 0 <= j < img[4 + p] implies (#[trigger] img[slot_index(
            capacity,
            r,
            p,
            j,
        )]) < n && img[slot_index(capacity, r, p, j)] != p by {
            assert(list[j] < n && list[j] != p);
        }
        let got = stored_list(img, capacity, r, p);
        assert(got.len() == list.len());
        assert forall|j: int| 0 <= j < got.len() implies got[j] == list[j] by {
            assert(img[slot_index(capacity, r, p, j)] == list[j]);
        }
        assert(got =~= list);
    }
    let back = stored_graph(img, capacity, r);
    assert(back.len() == adj.len());
    assert forall|p: int| 0 <= p < back.len() implies back[p] == adj[p] by {
        assert(list_fits(img, capacity, r, n, p));
    }
    assert(back =~= adj);
}

/// Computes the footprint in bytes of the layout for `capacity` nodes of
/// degree bound `r`.
pub fn plan(capacity: usize, r: usize) -> (res: Result<usize, VamanaError>)
    ensures
        res == planned(capacity, r),
{
    if capacity == 0 {
        return Err(VamanaError::ZeroCapacity);
    }
    if r == 0 {
        return Err(VamanaError::ZeroDegree);
    }
    assert(capacity * r >= 0) by (nonlinear_arith)
        requires
            capacity >= 0,
            r >= 0,
    ;
    let slots = match capacity.checked_mul(r) {
        Some(s) => s,
        None => {
            return Err(VamanaError::LayoutOverflow);
        },
    };
    let body = match slots.checked_add(capacity) {
        Some(s) => s,
        None => {
            return Err(VamanaError::LayoutOverflow);
        },
    };
    let total = match body.checked_add(HEADER_WORDS) {
        Some(s) => s,
        None => {
            return Err(VamanaError::LayoutOverflow);
        },
    };
    match total.checked_mul(8) {
        Some(bytes) => Ok(bytes),
        None => Err(VamanaError::LayoutOverflow),
    }
}

/// Encodes a graph and its entry point as the words of its layout.
pub fn encode(graph: &Graph, entry: usize, capacity: usize, r: usize) -> (out: Vec<u64>)
    requires
        well_formed(graph@, r as int),
        graph@.len() <= capacity,
        1 <= r,
        layout_words(capacity as int, r as int) <= usize::MAX,
    ensures
        out@ == image(graph@, entry, capacity as int, r as int),
{
    let n = graph.len();
    let ghost adj = graph@;
    let ghost cap = capacity as int;
    let ghost deg = r as int;
    assert(cap * deg >= 0) by (nonlinear_arith)
        requires
            cap >= 0,
            deg >= 0,
    ;
    let mut out: Vec<u64> = Vec::new();
    out.push(capacity as u64);
    out.push(r as u64);
    out.push(n as u64);
    out.push(entry as u64);
    let mut p: usize = 0;
    while p < capacity
        invariant
            0 <= p <= capacity,
            n == adj.len(),
            adj == graph@,
            cap == capacity,
            deg == r,
            out@.len() == 4 + p,
            forall|k: int| 0 <= k < out@.len() ==> #[trigger] out@[k] == image_word(adj, entry, cap, deg, k),
        decreases capacity - p,
    {
        let count: u64 = if p < n {
            graph.neighbors(p).len() as u64
        } else {
            0
        };
        out.push(count);
        p += 1;
    }
    let mut p: usize = 0;
    while p < capacity
        invariant
            0 <= p <= capacity,
            n == adj.len(),
            adj == graph@,
            cap == capacity,
            deg == r,
            1 <= deg,
            cap * deg >= 0,
            layout_words(cap, deg) <= usize::MAX,
            well_formed(adj, deg),
            out@.len() == 4 + cap + p * deg,
            forall|k: int| 0 <= k < out@.len() ==> #[trigger] out@[k] == image_word(adj, entry, cap, deg, k),
        decreases capacity - p,
    {
        let mut j: usize = 0;
        while j < r
            invariant
                0 <= j <= r,
                0 <= p < capacity,
                n == adj.len(),
                adj == graph@,
                cap == capacity,
                deg == r,
                1 <= deg,
                well_formed(adj, deg),
                out@.len() == slot_index(cap, deg, p as int, j as int),
                forall|k: int|
                    0 <= k < out@.len() ==> #[trigger] out@[k] == image_word(adj, entry, cap, deg, k),
            decreases r - j,
        {
            let word: u64 = if p < n {
                let list = graph.neighbors(p);
                if j < list.len() {
                    list[j] as u64
                } else {
                    0
                }
            } else {
                0
            };
            proof {
                lemma_slot(adj, entry, cap, deg, p as int, j as int);
            }
            out.push(word);
            j += 1;
        }
        assert(p * deg + deg == (p + 1) * deg) by (nonlinear_arith);
        p += 1;
    }
    assert(out@ =~= image(adj, entry, cap, deg));
    out
}

/// Writes `image` into the first words of the region. The rest of the region
/// and its size do not change.
pub fn store_words(storage: &mut Storage, image: &Vec<u64>)
    requires
        8 * image@.len() <= old(storage)@.len(),
    ensures
        final(storage)@.len() == old(storage)@.len(),
        final(storage).spec_memmap() == old(storage).spec_memmap(),
        words(final(storage)@, image@.len() as int) == image@,
        forall|b: int|
            8 * image@.len() <= b < old(storage)@.len() ==> #[trigger] final(storage)@[b] == old(
                storage,
            )@[b],
{
    let mut k: usize = 0;
    while k < image.len()
        invariant
            0 <= k <= image@.len(),
            8 * image@.len() <= old(storage)@.len(),
            storage@.len() == old(storage)@.len(),
            storage.spec_memmap() == old(storage).spec_memmap(),
            forall|i: int| 0 <= i < k ==> #[trigger] word_at(storage@, i) == image@[i],
            forall|b: int|
                8 * k <= b < old(storage)@.len() ==> #[trigger] storage@[b] == old(storage)@[b],
        decreases image.len() - k,
    {
        proof {
            lemma_patched(storage@, k as int, image@[k as int]);
        }
        storage.write_word(k, image[k]);
        k += 1;
    }
    assert(words(storage@, image@.len() as int) =~= image@);
}

/// Reads the first `count` words of the region.
pub fn fetch_words(storage: &Storage, count: usize) -> (image: Vec<u64>)
    requires
        8 * count <= storage@.len(),
    ensures
        image@ == words(storage@, count as int),
{
    let mut image: Vec<u64> = Vec::new();
    let mut k: usize = 0;
    while k < count
        invariant
            0 <= k <= count,
            8 * count <= storage@.len(),
            image@.len() == k,
            forall|i: int| 0 <= i < k ==> #[trigger] image@[i] == word_at(storage@, i),
        decreases count - k,
    {
        image.push(storage.read_word(k));
        k += 1;
    }
    assert(image@ =~= words(storage@, count as int));
    image
}

/// Decodes the graph and the entry point that an image holds, provided the
/// image was laid out for `capacity` nodes of degree bound `r` and holds a
/// well-formed graph.
pub fn decode(image: &Vec<u64>, capacity: usize, r: usize) -> (res: Option<(Graph, usize)>)
    requires
        image@.len() == layout_words(capacity as int, r as int),
    ensures
        res is Some <==> holds_graph(image@, capacity as int, r as int),
        res matches Some((graph, entry)) ==> graph@ == stored_graph(
            image@,
            capacity as int,
            r as int,
        ) && entry == stored_entry(image@) && well_formed(graph@, r as int),
{
    let ghost cap = capacity as int;
    let ghost deg = r as int;
    assert(cap * deg >= 0) by (nonlinear_arith)
        requires
            cap >= 0,
            deg >= 0,
    ;
    let total = image.len();
    assert(layout_words(cap, deg) == total);
    if image[0] != capacity as u64 || image[1] != r as u64 || image[2] > capacity as u64 {
        return None;
    }
    let n: usize = image[2] as usize;
    if (n == 0 && image[3] != 0) || (n != 0 && image[3] >= n as u64) {
        return None;
    }
    let entry: usize = image[3] as usize;
    let mut lists: Vec<Vec<usize>> = Vec::new();
    let mut p: usize = 0;
    while p < n
        invariant
            0 <= p <= n <= capacity,
            cap == capacity,
            deg == r,
            cap * deg >= 0,
            n == image@[2],
            image@.len() == layout_words(cap, deg) <= usize::MAX,
            lists@.len() == p,
            forall|q: int| 0 <= q < p ==> #[trigger] list_fits(image@, cap, deg, n as int, q),
            forall|q: int| 0 <= q < p ==> (#[trigger] lists@[q])@ == stored_list(image@, cap, deg, q),
        decreases n - p,
    {
        let count_word = image[HEADER_WORDS + p];
        if count_word > r as u64 {
            assert(!list_fits(image@, cap, deg, n as int, p as int));
            return None;
        }
        let count: usize = count_word as usize;
        assert(0 <= p * deg && p * deg + deg <= cap * deg) by (nonlinear_arith)
            requires
                0 <= p < cap,
                0 <= deg,
        ;
        let base: usize = HEADER_WORDS + capacity + p * r;
        let mut list: Vec<usize> = Vec::new();
        let mut j: usize = 0;
        while j < count
            invariant
                0 <= j <= count <= r,
                0 <= p < n <= capacity,
                cap == capacity,
                deg == r,
                n == image@[2],
                count == image@[4 + p],
                image@.len() == layout_words(cap, deg) <= usize::MAX,
                base == slot_index(cap, deg, p as int, 0),
                base + deg <= image@.len(),
                list@.len() == j,
                forall|i: int|
                    0 <= i < j ==> (#[trigger] image@[slot_index(cap, deg, p as int, i)]) < n
                        && image@[slot_index(cap, deg, p as int, i)] != p,
                forall|i: int|
                    0 <= i < j ==> #[trigger] list@[i] == image@[slot_index(cap, deg, p as int, i)]
                        as usize,
            decreases count - j,
        {
            let word = image[base + j];
            assert(base + j == slot_index(cap, deg, p as int, j as int));
            if word >= n as u64 || word == p as u64 {
                assert(!list_fits(image@, cap, deg, n as int, p as int));
                return None;
            }
            list.push(word as usize);
            j += 1;
        }
        assert(list@ =~= stored_list(image@, cap, deg, p as int));
        assert(list_fits(image@, cap, deg, n as int, p as int));
        lists.push(list);
        p += 1;
    }
    let graph = Graph::from_lists(lists);
    proof {
        let adj = stored_graph(image@, cap, deg);
        assert(graph@ =~= adj);
        assert forall|q: int| 0 <= q < adj.len() implies links_ok(
            #[trigger] adj[q],
            q,
            adj.len() as int,
            deg,
        ) by {
            assert(list_fits(image@, cap, deg, n as int, q));
            let list = adj[q];
            assert(0 <= q * deg && q * deg + deg <= cap * deg) by (nonlinear_arith)
                requires
                    0 <= q < cap,
                    0 <= deg,
            ;
            assert forall|i: int| 0 <= i < list.len() implies (#[trigger] list[i]) < n && list[i]
                != q by {
                assert(image@[slot_index(cap, deg, q, i)] < n);
            }
        }
    }
    Some((graph, entry))
}

} // verus!
