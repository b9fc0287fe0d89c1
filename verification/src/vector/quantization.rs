//! How vectors are stored.
//!
//! A component of a vector is a single-precision number. It is handled by its 32 bits, and stored
//! as four bytes, the low-order byte first.

use vstd::prelude::*;

use crate::vector::similarity::VectorSimilarity;

verus! {

/// How the components of a vector are stored.
#[derive(Clone, Copy, Debug, PartialEq, Eq, Structural)]
pub enum QuantizationType {
    /// As they are, in single precision.
    F32,
    /// As scaled 8-bit integers; not available yet.
    ScalarQuantizationI8,
    /// As 8-bit integers after a rotation; not available yet.
    TurboQuantI8,
}

/// Byte number `i` of four bytes of a word, the low-order byte first.
pub open spec fn word_byte(word: u32, i: int) -> u8 {
    if i == 0 {
        (word % 0x100) as u8
    } else if i == 1 {
        (word / 0x100 % 0x100) as u8
    } else if i == 2 {
        (word / 0x1_0000 % 0x100) as u8
    } else {
        (word / 0x100_0000) as u8
    }
}

/// The bytes of a vector.
pub open spec fn vector_bytes(vector: Seq<u32>) -> Seq<u8> {
    Seq::new(4 * vector.len(), |i: int| word_byte(vector[i / 4], i % 4))
}

/// The word that four bytes stand for.
pub open spec fn word_of(a: u8, b: u8, c: u8, d: u8) -> u32 {
    (a + 0x100 * b + 0x1_0000 * c + 0x100_0000 * d) as u32
}

/// The vector that bytes stand for.
pub open spec fn bytes_vector(bytes: Seq<u8>) -> Seq<u32> {
    Seq::new(
        bytes.len() / 4,
        |i: int| word_of(bytes[4 * i], bytes[4 * i + 1], bytes[4 * i + 2], bytes[4 * i + 3]),
    )
}

/// Vectors stored in single precision.
#[derive(Clone, Copy, Debug, PartialEq, Eq, Structural)]
pub struct F32Quantization {
    pub dim: usize,
    pub similarity: VectorSimilarity,
}

impl F32Quantization {
    /// Vectors of a dimension, compared in a given way.
    pub fn new(dim: usize, similarity: VectorSimilarity) -> (q: Self)
        ensures
            q.dim == dim,
            q.similarity == similarity,
    {
        F32Quantization { dim, similarity }
    }

    /// The bytes of a vector.
    pub fn encode(&self, vector: &[u32]) -> (bytes: Vec<u8>)
        ensures
            bytes@ == vector_bytes(vector@),
    {
        let mut bytes: Vec<u8> = Vec::new();
        let ghost all = vector_bytes(vector@);
        let mut i: usize = 0;
        while i < vector.len()
            invariant
                i <= vector@.len(),
                all == vector_bytes(vector@),
                bytes@ == all.take(4 * i),
            decreases vector@.len() - i,
        {
            let word: u32 = vector[i];
            bytes.push((word % 0x100) as u8);
            bytes.push((word / 0x100 % 0x100) as u8);
            bytes.push((word / 0x1_0000 % 0x100) as u8);
            bytes.push((word / 0x100_0000) as u8);
            assert(bytes@ =~= all.take(4 * (i + 1))) by {
                assert(all[4 * i] == word_byte(word, 0));
                assert(all[4 * i + 1] == word_byte(word, 1));
                assert(all[4 * i + 2] == word_byte(word, 2));
                assert(all[4 * i + 3] == word_byte(word, 3));
            }
            i = i + 1;
        }
        assert(all.take(4 * i) =~= all);
        bytes
    }

    /// The vector that bytes stand for.
    pub fn decode(&self, bytes: &[u8]) -> (vector: Vec<u32>)
        requires
            bytes@.len() % 4 == 0,
        ensures
            vector@ == bytes_vector(bytes@),
    {
        let mut vector: Vec<u32> = Vec::new();
        let n: usize = bytes.len() / 4;
        let ghost all = bytes_vector(bytes@);
        let mut i: usize = 0;
        while i < n
            invariant
                i <= n,
                n == bytes@.len() / 4,
                4 * n <= usize::MAX,
                all == bytes_vector(bytes@),
                vector@ == all.take(i as int),
            decreases n - i,
        {
            let a: u32 = bytes[4 * i] as u32;
            let b: u32 = bytes[4 * i + 1] as u32;
            let c: u32 = bytes[4 * i + 2] as u32;
            let d: u32 = bytes[4 * i + 3] as u32;
            vector.push(a + 0x100 * b + 0x1_0000 * c + 0x100_0000 * d);
            assert(vector@ =~= all.take(i + 1));
            i = i + 1;
        }
        assert(all.take(i as int) =~= all);
        vector
    }

    /// The dimension of the vectors.
    pub fn dim(&self) -> (dim: usize)
        ensures
            dim == self.dim,
    {
        self.dim
    }

    /// The number of bytes of a vector.
    pub fn bytes_per_vector(&self) -> (n: usize)
        requires
            self.dim * 4 <= usize::MAX,
        ensures
            n == self.dim * 4,
    {
        self.dim * 4
    }
}

/// A vector that is stored is read again as it was, and takes four bytes for each component.
pub proof fn law_vector_round_trip(vector: Seq<u32>)
    ensures
        bytes_vector(vector_bytes(vector)) == vector,
        vector_bytes(vector).len() == 4 * vector.len(),
{
    let bytes = vector_bytes(vector);
    assert forall|i: int| 0 <= i < vector.len() implies (#[trigger] bytes_vector(bytes)[i]) == vector[i] by {
        let word = vector[i];
        assert(bytes[4 * i] == word_byte(word, 0));
        assert(bytes[4 * i + 1] == word_byte(word, 1));
        assert(bytes[4 * i + 2] == word_byte(word, 2));
        assert(bytes[4 * i + 3] == word_byte(word, 3));
        let (a, b, c, d) = (word % 0x100, word / 0x100 % 0x100, word / 0x1_0000 % 0x100, word / 0x100_0000);
        assert(a + 0x100 * b + 0x1_0000 * c + 0x100_0000 * d == word);
    }
    assert(bytes_vector(bytes) =~= vector);
}

/// Bytes of whole components are those of the vector that they stand for.
pub proof fn law_decoded_vector_was_written(bytes: Seq<u8>)
    requires
        bytes.len() % 4 == 0,
    ensures
        vector_bytes(bytes_vector(bytes)) == bytes,
        bytes_vector(bytes).len() * 4 == bytes.len(),
{
    let vector = bytes_vector(bytes);
    let written = vector_bytes(vector);
    assert(written.len() == bytes.len());
    assert forall|i: int| 0 <= i < bytes.len() implies written[i] == bytes[i] by {
        let k = i / 4;
        assert(vector[k] == word_of(bytes[4 * k], bytes[4 * k + 1], bytes[4 * k + 2], bytes[4 * k + 3]));
        lemma_bytes_of_word(bytes[4 * k], bytes[4 * k + 1], bytes[4 * k + 2], bytes[4 * k + 3]);
        assert(i == 4 * k + i % 4);
        assert(i % 4 == 0 || i % 4 == 1 || i % 4 == 2 || i % 4 == 3);
    }
    assert(written =~= bytes);
}

proof fn lemma_bytes_of_word(a: u8, b: u8, c: u8, d: u8)
    ensures
        word_byte(word_of(a, b, c, d), 0) == a,
        word_byte(word_of(a, b, c, d), 1) == b,
        word_byte(word_of(a, b, c, d), 2) == c,
        word_byte(word_of(a, b, c, d), 3) == d,
{
    let w = word_of(a, b, c, d);
    assert(w == a + 0x100 * b + 0x1_0000 * c + 0x100_0000 * d);
    assert(w / 0x100 == b + 0x100 * c + 0x1_0000 * d);
    assert(w / 0x1_0000 == c + 0x100 * d);
    assert(w / 0x100_0000 == d);
}

} // verus!
