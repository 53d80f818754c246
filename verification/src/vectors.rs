//! The vector dataset: fixed-point vectors of one dimension, keyed by id.

use crate::error::VamanaError;
use vstd::prelude::*;

verus! {

/// Every row of `rows` has `dims` coordinates.
pub open spec fn uniform(rows: Seq<Seq<i32>>, dims: int) -> bool {
    forall|i: int| 0 <= i < rows.len() ==> (#[trigger] rows[i]).len() == dims
}

/// A dataset of vectors that all have the same number of dimensions. The id
/// of a vector is its position.
pub struct Vectors {
    dims: usize,
    rows: Vec<Vec<i32>>,
}

impl View for Vectors {
    type V = Seq<Seq<i32>>;

    closed spec fn view(&self) -> Seq<Seq<i32>> {
        Seq::new(self.rows@.len(), |i: int| self.rows@[i]@)
    }
}

impl Vectors {
    #[verifier::type_invariant]
    spec fn valid(self) -> bool {
        forall|i: int| 0 <= i < self.rows@.len() ==> (#[trigger] self.rows@[i])@.len() == self.dims
    }

    /// The number of dimensions of every vector of the dataset.
    pub closed spec fn spec_dims(self) -> int {
        self.dims as int
    }

    /// An empty dataset of vectors with `dims` dimensions.
    pub fn new(dims: usize) -> (v: Vectors)
        ensures
            v@ == Seq::<Seq<i32>>::empty(),
            v.spec_dims() == dims,
    {
        let v = Vectors { dims, rows: Vec::new() };
        assert(v@ =~= Seq::<Seq<i32>>::empty());
        v
    }

    /// The number of dimensions of every vector of the dataset.
    pub fn dims(&self) -> (d: usize)
        ensures
            d == self.spec_dims(),
    {
        self.dims
    }

    /// The number of vectors, all of which have the dataset's dimension.
    pub fn len(&self) -> (n: usize)
        ensures
            n == self@.len(),
            uniform(self@, self.spec_dims()),
    {
        proof {
            use_type_invariant(self);
        }
        self.rows.len()
    }

    /// Appends a vector and returns its id, unless it has another number of
    /// dimensions than the dataset.
    pub fn push(&mut self, vector: Vec<i32>) -> (r: Result<usize, VamanaError>)
        ensures
            final(self).spec_dims() == old(self).spec_dims(),
            vector@.len() == old(self).spec_dims() ==> r == Ok::<usize, VamanaError>(
                old(self)@.len() as usize,
            ) && final(self)@ == old(self)@.push(vector@),
            vector@.len() != old(self).spec_dims() ==> r == Err::<usize, VamanaError>(
                VamanaError::DimensionMismatch,
            ) && final(self)@ == old(self)@,
    {
        proof {
            use_type_invariant(&*self);
        }
        if vector.len() != self.dims {
            return Err(VamanaError::DimensionMismatch);
        }
        let id = self.rows.len();
        let mut taken = Vectors { dims: self.dims, rows: Vec::new() };
        core::mem::swap(self, &mut taken);
        let Vectors { dims, rows } = taken;
        let mut rows = rows;
        rows.push(vector);
        *self = Vectors { dims, rows };
        assert(self@ =~= old(self)@.push(vector@));
        Ok(id)
    }

    /// The vector with the given id, if the dataset holds one.
    pub fn get(&self, id: usize) -> (r: Option<&[i32]>)
        ensures
            id < self@.len() ==> r.is_some() && r.unwrap()@ == self@[id as int] && r.unwrap()@.len()
                == self.spec_dims(),
            id >= self@.len() ==> r.is_none(),
    {
        proof {
            use_type_invariant(self);
        }
        if id < self.rows.len() {
            Some(self.rows[id].as_slice())
        } else {
            None
        }
    }

    /// The vector with the given id.
    pub fn row(&self, id: usize) -> (r: &[i32])
        requires
            id < self@.len(),
        ensures
            r@ == self@[id as int],
            r@.len() == self.spec_dims(),
    {
        proof {
            use_type_invariant(self);
        }
        self.rows[id].as_slice()
    }
}

} // verus!
