//! The storage substrate as the engine sees it: a reservation made before
//! any data exists, and a byte region of fixed size that is read and written
//! in little-endian words.

use crate::error::VamanaError;
use crate::options::Memmap;
use vstd::bytes::{
    lemma_auto_spec_u64_to_from_le_bytes, spec_u64_from_le_bytes, spec_u64_to_le_bytes,
    u64_from_le_bytes, u64_to_le_bytes,
};
use vstd::prelude::*;
use vstd::slice::slice_subrange;

verus! {

/// The number of bytes of a word.
pub const WORD_BYTES: usize = 8;

/// The word that starts at byte `8 * index`.
pub open spec fn word_at(bytes: Seq<u8>, index: int) -> u64 {
    spec_u64_from_le_bytes(bytes.subrange(8 * index, 8 * index + 8))
}

/// The first `count` words of `bytes`.
pub open spec fn words(bytes: Seq<u8>, count: int) -> Seq<u64> {
    Seq::new(count as nat, |i: int| word_at(bytes, i))
}

/// `bytes` with the word at `index` replaced by `value`.
pub open spec fn patched(bytes: Seq<u8>, index: int, value: u64) -> Seq<u8> {
    bytes.subrange(0, 8 * index) + spec_u64_to_le_bytes(value) + bytes.subrange(
        8 * index + 8,
        bytes.len() as int,
    )
}

/// Replacing a word changes that word and no other, and keeps the length.
pub proof fn lemma_patched(bytes: Seq<u8>, index: int, value: u64)
    requires
        0 <= index,
        8 * index + 8 <= bytes.len(),
    ensures
        patched(bytes, index, value).len() == bytes.len(),
        word_at(patched(bytes, index, value), index) == value,
        forall|j: int|
            0 <= j && 8 * j + 8 <= bytes.len() && j != index ==> #[trigger] word_at(
                patched(bytes, index, value),
                j,
            ) == word_at(bytes, j),
        forall|b: int|
            0 <= b < bytes.len() && !(8 * index <= b < 8 * index + 8) ==> #[trigger] patched(
                bytes,
                index,
                value,
            )[b] == bytes[b],
{
    lemma_auto_spec_u64_to_from_le_bytes();
    let next = patched(bytes, index, value);
    assert(next.subrange(8 * index, 8 * index + 8) =~= spec_u64_to_le_bytes(value));
    assert forall|j: int| 0 <= j && 8 * j + 8 <= bytes.len() && j != index implies #[trigger] word_at(
        next,
        j,
    ) == word_at(bytes, j) by {
        assert(next.subrange(8 * j, 8 * j + 8) =~= bytes.subrange(8 * j, 8 * j + 8));
    }
}

/// A reservation of storage, made before any data exists. It records how many
/// bytes were asked for in each storage mode, up to a limit that the substrate
/// can provide.
pub struct StoragePreallocator {
    limit: usize,
    ram: usize,
    disk: usize,
}

impl StoragePreallocator {
    #[verifier::type_invariant]
    spec fn valid(self) -> bool {
        self.ram + self.disk <= self.limit
    }

    /// The number of bytes that the substrate can provide.
    pub closed spec fn spec_limit(self) -> int {
        self.limit as int
    }

    /// The number of bytes reserved so far in the given mode.
    pub closed spec fn spec_reserved(self, memmap: Memmap) -> int {
        match memmap {
            Memmap::Ram => self.ram as int,
            Memmap::Disk => self.disk as int,
        }
    }

    /// A reservation of nothing yet, on a substrate that can provide `limit`
    /// bytes.
    pub fn new(limit: usize) -> (p: StoragePreallocator)
        ensures
            p.spec_limit() == limit,
            p.spec_reserved(Memmap::Ram) == 0,
            p.spec_reserved(Memmap::Disk) == 0,
    {
        StoragePreallocator { limit, ram: 0, disk: 0 }
    }

    /// The number of bytes that the substrate can provide.
    pub fn limit(&self) -> (n: usize)
        ensures
            n == self.spec_limit(),
    {
        self.limit
    }

    /// The number of bytes reserved so far in the given mode.
    pub fn reserved(&self, memmap: Memmap) -> (n: usize)
        ensures
            n == self.spec_reserved(memmap),
            self.spec_reserved(Memmap::Ram) + self.spec_reserved(Memmap::Disk)
                <= self.spec_limit(),
    {
        proof {
            use_type_invariant(self);
        }
        match memmap {
            Memmap::Ram => self.ram,
            Memmap::Disk => self.disk,
        }
    }

    /// Reserves `bytes` more bytes in the given mode, unless the substrate
    /// cannot provide them; then nothing changes.
    pub fn reserve(&mut self, memmap: Memmap, bytes: usize) -> (r: Result<(), VamanaError>)
        ensures
            final(self).spec_limit() == old(self).spec_limit(),
            r is Ok <==> old(self).spec_reserved(Memmap::Ram) + old(self).spec_reserved(
                Memmap::Disk,
            ) + bytes <= old(self).spec_limit(),
            r is Ok ==> final(self).spec_reserved(memmap) == old(self).spec_reserved(memmap)
                + bytes,
            r is Ok ==> forall|other: Memmap|
                other != memmap ==> final(self).spec_reserved(other) == old(self).spec_reserved(
                    other,
                ),
            r is Err ==> r == Err::<(), VamanaError>(VamanaError::StorageExhausted) && *final(self)
                == *old(self),
    {
        proof {
            use_type_invariant(&*self);
        }
        if bytes > self.limit - self.ram - self.disk {
            return Err(VamanaError::StorageExhausted);
        }
        match memmap {
            Memmap::Ram => {
                self.ram = self.ram + bytes;
            },
            Memmap::Disk => {
                self.disk = self.disk + bytes;
            },
        }
        Ok(())
    }
}

/// A region of storage of fixed size, in one storage mode.
pub struct Storage {
    memmap: Memmap,
    bytes: Vec<u8>,
}

impl View for Storage {
    type V = Seq<u8>;

    closed spec fn view(&self) -> Seq<u8> {
        self.bytes@
    }
}

impl Storage {
    /// The storage mode of the region.
    pub closed spec fn spec_memmap(self) -> Memmap {
        self.memmap
    }

    /// A zeroed region of as many bytes as were reserved in the given mode.
    pub fn allocate(plan: &StoragePreallocator, memmap: Memmap) -> (s: Storage)
        ensures
            s.spec_memmap() == memmap,
            s@.len() == plan.spec_reserved(memmap),
            forall|b: int| 0 <= b < s@.len() ==> #[trigger] s@[b] == 0,
    {
        let size = plan.reserved(memmap);
        let mut bytes: Vec<u8> = Vec::new();
        let mut i: usize = 0;
        while i < size
            invariant
                0 <= i <= size,
                bytes@.len() == i,
                forall|b: int| 0 <= b < i ==> #[trigger] bytes@[b] == 0,
            decreases size - i,
        {
            bytes.push(0u8);
            i += 1;
        }
        Storage { memmap, bytes }
    }

    /// The region that holds exactly the given bytes.
    pub fn from_bytes(memmap: Memmap, bytes: Vec<u8>) -> (s: Storage)
        ensures
            s.spec_memmap() == memmap,
            s@ == bytes@,
    {
        Storage { memmap, bytes }
    }

    /// The bytes of the region.
    pub fn into_bytes(self) -> (bytes: Vec<u8>)
        ensures
            bytes@ == self@,
    {
        self.bytes
    }

    /// The bytes of the region.
    pub fn as_bytes(&self) -> (bytes: &[u8])
        ensures
            bytes@ == self@,
    {
        self.bytes.as_slice()
    }

    /// The storage mode of the region.
    pub fn memmap(&self) -> (m: Memmap)
        ensures
            m == self.spec_memmap(),
    {
        self.memmap
    }

    /// The size of the region in bytes.
    pub fn len(&self) -> (n: usize)
        ensures
            n == self@.len(),
    {
        self.bytes.len()
    }

    /// Reads the word at `index`.
    pub fn read_word(&self, index: usize) -> (value: u64)
        requires
            8 * index + 8 <= self@.len(),
        ensures
            value == word_at(self@, index as int),
    {
        let size = self.bytes.len();
        assert(8 * index + 8 <= size);
        let start = index * WORD_BYTES;
        u64_from_le_bytes(slice_subrange(self.bytes.as_slice(), start, start + WORD_BYTES))
    }

    /// Writes the word at `index`. No other byte changes, and the region
    /// keeps its size.
    pub fn write_word(&mut self, index: usize, value: u64)
        requires
            8 * index + 8 <= old(self)@.len(),
        ensures
            final(self)@ == patched(old(self)@, index as int, value),
            final(self)@.len() == old(self)@.len(),
            final(self).spec_memmap() == old(self).spec_memmap(),
    {
        let size = self.bytes.len();
        assert(8 * index + 8 <= size);
        let start = index * WORD_BYTES;
        let encoded = u64_to_le_bytes(value);
        let mut k: usize = 0;
        while k < WORD_BYTES
            invariant
                0 <= k <= 8,
                start == 8 * index,
                start + 8 <= old(self)@.len(),
                encoded@.len() == 8,
                self.memmap == old(self).memmap,
                self.bytes@.len() == old(self)@.len(),
                forall|b: int| 0 <= b < start ==> #[trigger] self.bytes@[b] == old(self)@[b],
                forall|b: int| start <= b < start + k ==> #[trigger] self.bytes@[b] == encoded@[b - start],
                forall|b: int|
                    start + k <= b < old(self)@.len() ==> #[trigger] self.bytes@[b] == old(self)@[b],
            decreases 8 - k,
        {
            self.bytes.set(start + k, encoded[k]);
            k += 1;
        }
        assert(self@ =~= patched(old(self)@, index as int, value));
    }
}

} // verus!
