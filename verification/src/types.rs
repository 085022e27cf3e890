use vstd::prelude::*;

verus! {

/// The distance functions an index can be built with.
#[derive(Clone, Copy, Debug, PartialEq, Eq, Structural)]
pub enum Metric {
    Euclidean,
    Cosine,
    DotProduct,
}

/// Errors reported by the dataset and the indexes.
#[derive(Clone, Copy, Debug, PartialEq, Eq)]
pub enum VectorError {
    EmptyDataset,
    EmptyVector,
    DimensionMismatch { expected: usize, actual: usize },
    ZeroNorm { vector: usize },
    NonFiniteValue { vector: usize, dimension: usize },
    InvalidConfig(&'static str),
}

} // verus!
