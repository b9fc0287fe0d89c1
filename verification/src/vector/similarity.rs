//! How vectors are compared.

use vstd::prelude::*;

verus! {

/// How vectors are compared: the greater the number, the more alike.
#[derive(Clone, Copy, Debug, PartialEq, Eq, Structural)]
pub enum VectorSimilarity {
    /// The cosine of the angle.
    Cosine,
    /// The inner product.
    Dot,
    /// The square of the Euclidean distance, negated.
    Euclidean,
}

impl From<crate::schema::VectorSimilarity> for VectorSimilarity {
    fn from(sim: crate::schema::VectorSimilarity) -> (s: Self) {
        match sim {
            crate::schema::VectorSimilarity::Cosine => VectorSimilarity::Cosine,
            crate::schema::VectorSimilarity::L2 => VectorSimilarity::Euclidean,
            crate::schema::VectorSimilarity::InnerProduct => VectorSimilarity::Dot,
        }
    }
}

impl vstd::std_specs::convert::FromSpecImpl<crate::schema::VectorSimilarity> for VectorSimilarity {
    open spec fn obeys_from_spec() -> bool {
        true
    }

    open spec fn from_spec(sim: crate::schema::VectorSimilarity) -> Self {
        match sim {
            crate::schema::VectorSimilarity::Cosine => VectorSimilarity::Cosine,
            crate::schema::VectorSimilarity::L2 => VectorSimilarity::Euclidean,
            crate::schema::VectorSimilarity::InnerProduct => VectorSimilarity::Dot,
        }
    }
}

} // verus!
