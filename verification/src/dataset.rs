//! A non-empty collection of equally long vectors.
use vstd::prelude::*;
use crate::types::VectorError;

verus! {

/// Index of the first vector whose length differs from the first one's.
pub open spec fn is_first_mismatch<T>(vectors: Seq<Vec<T>>, i: int) -> bool {
    &&& 0 <= i < vectors.len()
    &&& vectors[i].len() != vectors[0].len()
    &&& forall|j: int| 0 <= j < i ==> #[trigger] vectors[j].len() == vectors[0].len()
}

/// All vectors are as long as the first one.
pub open spec fn rectangular<T>(vectors: Seq<Vec<T>>) -> bool {
    forall|j: int| 0 <= j < vectors.len() ==> #[trigger] vectors[j].len() == vectors[0].len()
}

/// A non-empty dataset whose rows all have the same dimension.
#[derive(Debug)]
pub struct Dataset<T> {
    vectors: Vec<Vec<T>>,
    dimension: usize,
}

impl<T> Dataset<T> {
    #[verifier::type_invariant]
    spec fn well_formed(&self) -> bool {
        &&& self.vectors.len() > 0
        &&& forall|j: int| 0 <= j < self.vectors.len() ==> #[trigger] self.vectors[j].len() == self.dimension
    }

    /// The rows of the dataset.
    pub closed spec fn rows(&self) -> Seq<Vec<T>> {
        self.vectors@
    }

    /// The length every row has.
    pub closed spec fn dim(&self) -> nat {
        self.dimension as nat
    }

    /// Builds a dataset from its rows.
    ///
    /// Fails with `EmptyDataset` when there are no rows, and with
    /// `DimensionMismatch` naming the first row whose length differs from the
    /// first row's.
    pub fn try_new(vectors: Vec<Vec<T>>) -> (r: Result<Self, VectorError>)
        ensures
            vectors.len() == 0 ==> r == Err::<Self, VectorError>(VectorError::EmptyDataset),
            vectors.len() > 0 ==> match r {
                Ok(ds) => rectangular(vectors@) && ds.rows() == vectors@ && ds.dim() == vectors@[0].len(),
                Err(VectorError::DimensionMismatch { expected, actual }) => exists|i: int|
                    is_first_mismatch(vectors@, i) && expected == vectors@[0].len() && actual
                        == vectors@[i].len(),
                Err(_) => false,
            },
            r is Ok <==> vectors.len() > 0 && rectangular(vectors@),
    {
        if vectors.len() == 0 {
            return Err(VectorError::EmptyDataset);
        }
        let dimension = vectors[0].len();
        let mut i: usize = 0;
        while i < vectors.len()
            invariant
                i <= vectors.len(),
                vectors.len() > 0,
                dimension == vectors@[0].len(),
                forall|j: int| 0 <= j < i ==> #[trigger] vectors@[j].len() == dimension,
            decreases vectors.len() - i,
        {
            if vectors[i].len() != dimension {
                let actual = vectors[i].len();
                assert(is_first_mismatch(vectors@, i as int));
                proof {
                    assert(!rectangular(vectors@));
                }
                return Err(VectorError::DimensionMismatch { expected: dimension, actual });
            }
            i = i + 1;
        }
        Ok(Dataset { vectors, dimension })
    }

    /// The number of rows.
    pub fn len(&self) -> (n: usize)
        ensures
            n == self.rows().len(),
            n > 0,
            forall|j: int| 0 <= j < n ==> #[trigger] self.rows()[j].len() == self.dim(),
    {
        proof {
            use_type_invariant(self);
        }
        self.vectors.len()
    }

    /// Always false: a dataset has at least one row.
    pub fn is_empty(&self) -> (e: bool)
        ensures
            e == (self.rows().len() == 0),
            !e,
            forall|j: int| 0 <= j < self.rows().len() ==> #[trigger] self.rows()[j].len() == self.dim(),
    {
        proof {
            use_type_invariant(self);
        }
        self.vectors.len() == 0
    }

    /// The length every row has.
    pub fn dimension(&self) -> (d: usize)
        ensures
            d == self.dim(),
            forall|j: int| 0 <= j < self.rows().len() ==> #[trigger] self.rows()[j].len() == d,
    {
        proof {
            use_type_invariant(self);
        }
        self.dimension
    }

    /// Row `row`.
    pub fn vector(&self, row: usize) -> (v: &[T])
        requires
            row < self.rows().len(),
        ensures
            v@ == self.rows()[row as int]@,
            v@.len() == self.dim(),
    {
        proof {
            use_type_invariant(self);
            assert(self.vectors[row as int].len() == self.dimension);
        }
        self.vectors[row].as_slice()
    }

    /// All rows.
    pub fn vectors(&self) -> (v: &[Vec<T>])
        ensures
            v@ == self.rows(),
            v@.len() > 0,
            forall|j: int| 0 <= j < v@.len() ==> #[trigger] v@[j].len() == self.dim(),
    {
        proof {
            use_type_invariant(self);
        }
        self.vectors.as_slice()
    }

    /// The dimension check that a query passes before it is searched for:
    /// its length must equal the dataset's dimension.
    pub fn check_query_len(&self, len: usize) -> (r: Result<(), VectorError>)
        ensures
            r == if len == self.dim() {
                Ok::<(), VectorError>(())
            } else {
                Err(VectorError::DimensionMismatch { expected: self.dim() as usize, actual: len })
            },
    {
        if len != self.dimension {
            return Err(VectorError::DimensionMismatch { expected: self.dimension, actual: len });
        }
        Ok(())
    }
}

impl<T: Clone> Clone for Dataset<T> {
    /// A dataset whose rows are clones of these rows, in the same order.
    fn clone(&self) -> (c: Self)
        ensures
            c.dim() == self.dim(),
            c.rows().len() == self.rows().len(),
            forall|j: int| 0 <= j < self.rows().len() ==> cloned::<Vec<T>>(self.rows()[j], #[trigger] c.rows()[j]),
    {
        proof {
            use_type_invariant(self);
        }
        let vectors = self.vectors.clone();
        proof {
            assert forall|j: int| 0 <= j < vectors.len() implies #[trigger] vectors[j].len() == self.dimension by {
                assert(cloned::<Vec<T>>(self.vectors[j], vectors[j]));
            }
        }
        Dataset { vectors, dimension: self.dimension }
    }
}

} // verus!
