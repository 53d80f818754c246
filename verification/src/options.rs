//! Configuration of an index: storage mode, degree bound, pruning threshold
//! and search list size.

use vstd::prelude::*;

verus! {

/// Where the adjacency structure lives for the life of the index.
#[derive(Clone, Copy, Debug, PartialEq, Eq, Structural)]
pub enum Memmap {
    /// Fully resident in process memory.
    Ram,
    /// Paged from disk by the operating system.
    Disk,
}

/// The pruning diversity threshold, a ratio `num / den` that is at least one.
#[derive(Clone, Copy, Debug, PartialEq, Eq, Structural)]
pub struct Alpha {
    num: u32,
    den: u32,
}

impl Alpha {
    #[verifier::type_invariant]
    spec fn valid(self) -> bool {
        0 < self.den <= self.num
    }

    /// The numerator of the ratio.
    pub closed spec fn spec_num(self) -> int {
        self.num as int
    }

    /// The denominator of the ratio.
    pub closed spec fn spec_den(self) -> int {
        self.den as int
    }

    /// The ratio `num / den`, if it is a threshold of at least one.
    pub fn new(num: u32, den: u32) -> (r: Option<Alpha>)
        ensures
            r is Some <==> 0 < den <= num,
            r matches Some(a) ==> a.spec_num() == num && a.spec_den() == den,
    {
        if 0 < den && den <= num {
            Some(Alpha { num, den })
        } else {
            None
        }
    }

    /// The threshold one, under which pruning keeps the fewest edges.
    pub fn one() -> (a: Alpha)
        ensures
            a.spec_num() == 1,
            a.spec_den() == 1,
    {
        Alpha { num: 1, den: 1 }
    }

    /// The numerator, which is never below the denominator.
    pub fn num(&self) -> (n: u32)
        ensures
            n == self.spec_num(),
            self.spec_den() <= n,
    {
        proof {
            use_type_invariant(self);
        }
        self.num
    }

    /// The denominator, which is never zero.
    pub fn den(&self) -> (d: u32)
        ensures
            d == self.spec_den(),
            0 < d <= self.spec_num(),
    {
        proof {
            use_type_invariant(self);
        }
        self.den
    }
}

/// The options of the graph index itself.
#[derive(Clone, Copy, Debug)]
pub struct VamanaOptions {
    /// Storage mode of the adjacency structure.
    pub memmap: Memmap,
    /// Out-degree bound of every node.
    pub r: usize,
    /// Pruning diversity threshold.
    pub alpha: Alpha,
    /// Search list size: the width of the candidate frontier.
    pub l: usize,
}

impl VamanaOptions {
    /// The storage mode used when none is given: resident.
    pub fn default_memmap() -> (m: Memmap)
        ensures
            m == Memmap::Ram,
    {
        Memmap::Ram
    }

    /// The degree bound used when none is given.
    pub fn default_r() -> (r: usize)
        ensures
            r == 50,
    {
        50
    }

    /// The pruning threshold used when none is given: six fifths.
    pub fn default_alpha() -> (a: Alpha)
        ensures
            a.spec_num() == 6,
            a.spec_den() == 5,
    {
        Alpha { num: 6, den: 5 }
    }

    /// The search list size used when none is given.
    pub fn default_l() -> (l: usize)
        ensures
            l == 70,
    {
        70
    }
}

impl Default for VamanaOptions {
    fn default() -> (o: VamanaOptions)
        ensures
            o.memmap == Memmap::Ram,
            o.r == 50,
            o.alpha.spec_num() == 6,
            o.alpha.spec_den() == 5,
            o.l == 70,
    {
        VamanaOptions {
            memmap: VamanaOptions::default_memmap(),
            r: VamanaOptions::default_r(),
            alpha: VamanaOptions::default_alpha(),
            l: VamanaOptions::default_l(),
        }
    }
}

/// The options of an index as a whole: how many vectors it has room for, and
/// how its graph is built and searched.
#[derive(Clone, Copy, Debug)]
pub struct IndexOptions {
    /// The largest number of vectors the storage layout can hold.
    pub capacity: usize,
    /// The options of the graph.
    pub algorithm: VamanaOptions,
}

} // verus!
