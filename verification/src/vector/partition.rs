//! Partitions: a centroid, the number of vectors around it, and the vectors that were deleted.

use std::collections::HashSet;

use vstd::prelude::*;

verus! {

/// The number of a partition.
pub type PartitionId = u32;

/// The number of a partition of vectors.
pub type VectorPartitionId = PartitionId;

/// A partition.
#[derive(Debug)]
pub struct Partition {
    pub id: PartitionId,
    pub centroid: Vec<u32>,
    pub vector_count: u64,
    pub tombstones: HashSet<u64>,
}

/// The model of a partition.
pub struct PartitionView {
    pub id: PartitionId,
    pub centroid: Seq<u32>,
    pub vector_count: u64,
    pub tombstones: Set<u64>,
}

impl View for Partition {
    type V = PartitionView;

    open spec fn view(&self) -> PartitionView {
        PartitionView {
            id: self.id,
            centroid: self.centroid@,
            vector_count: self.vector_count,
            tombstones: self.tombstones@,
        }
    }
}

impl Partition {
    /// A partition without vectors.
    pub fn new(id: PartitionId, centroid: Vec<u32>) -> (p: Self)
        ensures
            p@ == (PartitionView { id, centroid: centroid@, vector_count: 0, tombstones: Set::empty() }),
    {
        broadcast use vstd::std_specs::hash::group_hash_axioms;

        Partition { id, centroid, vector_count: 0, tombstones: HashSet::new() }
    }

    /// Counts a vector that was added.
    pub fn add_vector(&mut self, doc_id: u64)
        ensures
            final(self)@ == (PartitionView {
                vector_count: old(self)@.vector_count.wrapping_add(1),
                ..old(self)@
            }),
    {
        self.vector_count = self.vector_count.wrapping_add(1);
    }

    /// Marks the vector of a document as deleted. The number of vectors stays.
    pub fn delete_vector(&mut self, doc_id: u64)
        ensures
            final(self)@ == (PartitionView { tombstones: old(self)@.tombstones.insert(doc_id), ..old(self)@ }),
    {
        broadcast use vstd::std_specs::hash::group_hash_axioms;

        self.tombstones.insert(doc_id);
    }

    /// The number of vectors that were added.
    pub fn vector_count(&self) -> (n: u64)
        ensures
            n == self@.vector_count,
    {
        self.vector_count
    }

    /// Whether the vector of a document is marked as deleted.
    pub fn is_tombstoned(&self, doc_id: u64) -> (r: bool)
        ensures
            r == self@.tombstones.contains(doc_id),
    {
        broadcast use vstd::std_specs::hash::group_hash_axioms;

        self.tombstones.contains(&doc_id)
    }

    /// Moves the centroid.
    pub fn update_centroid(&mut self, new_centroid: Vec<u32>)
        ensures
            final(self)@ == (PartitionView { centroid: new_centroid@, ..old(self)@ }),
    {
        self.centroid = new_centroid;
    }

    /// The centroid.
    pub fn centroid(&self) -> (centroid: &Vec<u32>)
        ensures
            centroid@ == self@.centroid,
    {
        &self.centroid
    }
}

} // verus!
