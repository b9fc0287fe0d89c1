//! Vectors: partitions around centroids, in which the nearest neighbours of a query are looked
//! for.
//!
//! A vector is handled by the bits of its components. How alike vectors are is floating-point
//! arithmetic; it comes in as keys that order as the similarities do.

pub mod clustering;
pub mod ivf_index;
pub mod partition;
pub mod quantization;
pub mod similarity;

use vstd::prelude::*;

pub use ivf_index::{CentroidTable, IvfIndex};
pub use partition::{PartitionId, VectorPartitionId};
pub use quantization::{F32Quantization, QuantizationType};

use crate::index::document::{is_vector_value, numbers_of, vector_numbers, SchemalessDoc};
use crate::json::{Json, JsonNumber};
use crate::rank::{is_last_maximum, is_top, last_maximum};
use crate::storage::entry::view_entries;
use crate::storage::key::{LsmKey, LsmValue, NS_VEC};
use clustering::{cluster_count, is_cluster_count};
use ivf_index::{partitions_at, IvfView};
use partition::PartitionView;
use quantization::{bytes_vector, vector_bytes};
use similarity::VectorSimilarity;

verus! {

/// How a vector engine works.
#[derive(Clone, Copy, Debug, PartialEq, Eq, Structural)]
pub struct VectorConfig {
    /// The dimension of the vectors.
    pub vector_dim: usize,
    /// How vectors are compared.
    pub similarity: VectorSimilarity,
    /// How vectors are stored.
    pub quantization: QuantizationType,
    /// The number of partitions in which a query looks.
    pub nprobe: usize,
    /// The number of vectors from which a partition is too large.
    pub max_partition_size: u64,
}

impl Default for VectorConfig {
    fn default() -> (c: Self)
        ensures
            c == (VectorConfig {
                vector_dim: 128,
                similarity: VectorSimilarity::Cosine,
                quantization: QuantizationType::F32,
                nprobe: 10,
                max_partition_size: 10000,
            }),
    {
        VectorConfig {
            vector_dim: 128,
            similarity: VectorSimilarity::Cosine,
            quantization: QuantizationType::F32,
            nprobe: 10,
            max_partition_size: 10000,
        }
    }
}

/// Why a vector engine refuses.
#[derive(Clone, Copy, Debug, PartialEq, Eq, Structural)]
pub enum VectorError {
    /// The way to store vectors is not available.
    QuantizationUnavailable,
    /// There are no samples to find centroids with.
    NoSamples,
    /// There are no centroids yet.
    NotInitialized,
    /// A vector has another dimension than the engine's vectors.
    DimensionMismatch { expected: usize, got: usize },
}

/// The vector engine.
#[derive(Debug)]
pub struct VectorEngine {
    ivf: IvfIndex,
    quantization: F32Quantization,
    config: VectorConfig,
    initialized: bool,
}

/// The model of a vector engine.
pub struct EngineView {
    pub ivf: IvfView,
    pub config: VectorConfig,
    pub initialized: bool,
}

impl View for VectorEngine {
    type V = EngineView;

    closed spec fn view(&self) -> EngineView {
        EngineView { ivf: self.ivf@, config: self.config, initialized: self.initialized }
    }
}

/// Why an engine refuses a vector with a number of components, if it does.
pub open spec fn refusal(e: EngineView, len: nat) -> Option<VectorError> {
    if !e.initialized {
        Some(VectorError::NotInitialized)
    } else if len != e.config.vector_dim {
        Some(VectorError::DimensionMismatch { expected: e.config.vector_dim, got: len as usize })
    } else {
        None
    }
}

/// The number of the partition number `i` that comes behind a number.
pub open spec fn nth_partition(start: PartitionId, i: nat) -> PartitionId {
    ((start + i) % 0x1_0000_0000) as u32
}

/// The centroids, each with the number of its partition, from a number on.
pub open spec fn numbered(start: PartitionId, centroids: Seq<Seq<u32>>) -> Seq<(PartitionId, Seq<u32>)> {
    Seq::new(centroids.len(), |i: int| (nth_partition(start, i as nat), centroids[i]))
}

/// The partitions after partitions around centroids have been added, from a number on.
pub open spec fn with_partitions(
    partitions: Map<PartitionId, PartitionView>,
    start: PartitionId,
    centroids: Seq<Seq<u32>>,
) -> Map<PartitionId, PartitionView>
    decreases centroids.len(),
{
    if centroids.len() == 0 {
        partitions
    } else {
        let id = nth_partition(start, (centroids.len() - 1) as nat);
        with_partitions(partitions, start, centroids.drop_last()).insert(
            id,
            PartitionView { id, centroid: centroids.last(), vector_count: 0, tombstones: Set::empty() },
        )
    }
}

/// The models of a list of centroids.
pub open spec fn view_list(s: Seq<Vec<u32>>) -> Seq<Seq<u32>> {
    Seq::new(s.len(), |i: int| s[i]@)
}

/// The stored entry of the vector of a document in a partition.
pub open spec fn vector_entry(partition: PartitionId, doc_id: u64, vector: Seq<u32>) -> (LsmKey, Option<Seq<u8>>) {
    (
        LsmKey { namespace: NS_VEC, partition_or_segment: partition, doc_id, lsn: 0 },
        Some(vector_bytes(vector)),
    )
}

/// The partition is that of the centroid with the greatest key; of the last one, if there are
/// several.
pub open spec fn is_nearest_partition(
    centroids: Seq<(PartitionId, Seq<u32>)>,
    keys: Seq<u64>,
    partition: PartitionId,
) -> bool {
    exists|i: int| #[trigger] is_last_maximum(keys, i) && partition == centroids[i].0
}

/// A vector and the keys that order the centroids by how alike they are to it.
#[derive(Debug)]
pub struct KeyedVector {
    pub vector: Vec<u32>,
    pub keys: Vec<u64>,
}

/// Every vector that is not refused has a key for every centroid.
pub open spec fn keys_fit(e: EngineView, vectors: Seq<KeyedVector>) -> bool {
    forall|i: int|
        0 <= i < vectors.len() && refusal(e, (#[trigger] vectors[i]).vector@.len()) is None ==> vectors[i].keys@.len()
            == e.ivf.centroids.len()
}

/// The first of several vectors that an engine refuses, and why.
pub open spec fn is_first_refusal(e: EngineView, vectors: Seq<KeyedVector>, i: int, error: VectorError) -> bool {
    &&& 0 <= i < vectors.len()
    &&& refusal(e, vectors[i].vector@.len()) == Some(error)
    &&& forall|j: int| 0 <= j < i ==> refusal(e, (#[trigger] vectors[j]).vector@.len()) is None
}

/// The entries store the vectors of a document, each in the partition of the nearest centroid;
/// no vector is refused.
pub open spec fn are_vector_entries(
    e: EngineView,
    doc_id: u64,
    vectors: Seq<KeyedVector>,
    partitions: Seq<PartitionId>,
    entries: Seq<(LsmKey, Option<Seq<u8>>)>,
) -> bool {
    &&& partitions.len() == vectors.len()
    &&& entries.len() == vectors.len()
    &&& forall|i: int| 0 <= i < vectors.len() ==> refusal(e, (#[trigger] vectors[i]).vector@.len()) is None
    &&& forall|i: int|
        0 <= i < vectors.len() ==> is_nearest_partition(e.ivf.centroids, vectors[i].keys@, #[trigger] partitions[i])
    &&& forall|i: int|
        0 <= i < vectors.len() ==> (#[trigger] entries[i]) == vector_entry(partitions[i], doc_id, vectors[i].vector@)
}

/// A stored vector of a partition is passed over: it was deleted.
pub open spec fn passed_over(partition: Option<PartitionView>, entry: (LsmKey, Option<Seq<u8>>)) -> bool {
    entry.1 is None || (partition matches Some(p) && p.tombstones.contains(entry.0.doc_id))
}

/// The partition with a number, if it is there.
pub open spec fn partition_with(e: EngineView, id: PartitionId) -> Option<PartitionView> {
    if e.ivf.partitions.contains_key(id) {
        Some(e.ivf.partitions[id])
    } else {
        None
    }
}

/// The vectors of a partition that a query is compared with, each with its document.
pub open spec fn candidates_of(
    partition: Option<PartitionView>,
    entries: Seq<(LsmKey, Option<Seq<u8>>)>,
) -> Seq<(u64, Seq<u32>)>
    decreases entries.len(),
{
    if entries.len() == 0 {
        Seq::empty()
    } else {
        let before = candidates_of(partition, entries.drop_last());
        if passed_over(partition, entries.last()) {
            before
        } else {
            before.push((entries.last().0.doc_id, bytes_vector(entries.last().1->0)))
        }
    }
}

/// Every stored vector of a partition that is not passed over has whole components.
pub open spec fn decodable(e: EngineView, id: PartitionId, entries: Seq<(LsmKey, LsmValue)>) -> bool {
    forall|i: int|
        0 <= i < entries.len() && !passed_over(partition_with(e, id), #[trigger] view_entries(entries)[i]) ==> (
        entries[i].1@->0).len() % 4 == 0
}

/// The candidates of several partitions, partition by partition.
pub open spec fn joined_candidates(
    e: EngineView,
    partitions: Seq<PartitionId>,
    scans: Seq<Vec<(LsmKey, LsmValue)>>,
) -> Seq<(u64, Seq<u32>)>
    decreases partitions.len(),
{
    if partitions.len() == 0 {
        Seq::empty()
    } else {
        let k = partitions.len() - 1;
        joined_candidates(e, partitions.drop_last(), scans) + candidates_of(
            partition_with(e, partitions[k]),
            view_entries(scans[k]@),
        )
    }
}

/// The models of a list of candidates.
pub open spec fn view_candidates(s: Seq<(u64, Vec<u32>)>) -> Seq<(u64, Seq<u32>)> {
    Seq::new(s.len(), |i: int| (s[i].0, s[i].1@))
}

/// The vectors of a document, field by field.
pub open spec fn doc_vectors(doc: Seq<(Seq<char>, Json)>) -> Seq<Seq<JsonNumber>>
    decreases doc.len(),
{
    if doc.len() == 0 {
        Seq::empty()
    } else {
        let before = doc_vectors(doc.drop_last());
        if is_vector_value(doc.last().1) {
            before.push(numbers_of(doc.last().1))
        } else {
            before
        }
    }
}

/// The models of a list of vectors.
pub open spec fn view_numbers(s: Seq<Vec<JsonNumber>>) -> Seq<Seq<JsonNumber>> {
    Seq::new(s.len(), |i: int| s[i]@)
}

/// The vectors of a document: of every field whose value is an array of numbers that is not
/// empty, its numbers. One number is enough here, though a field is inferred to be a vector only
/// if there are more.
pub fn document_vectors(doc: &SchemalessDoc) -> (out: Vec<Vec<JsonNumber>>)
    requires
        doc.wf(),
    ensures
        view_numbers(out@) == doc_vectors(doc@),
{
    let mut out: Vec<Vec<JsonNumber>> = Vec::new();
    let ghost all = doc@;
    let mut i: usize = 0;
    assert(all.take(0) =~= Seq::<(Seq<char>, Json)>::empty());
    assert(view_numbers(out@) =~= Seq::<Seq<JsonNumber>>::empty());
    while i < doc.fields.len()
        invariant
            i <= doc@.len(),
            doc.wf(),
            all == doc@,
            view_numbers(out@) == doc_vectors(all.take(i as int)),
        decreases doc@.len() - i,
    {
        let value = doc.fields.value_at(i);
        let ghost before = view_numbers(out@);
        proof {
            assert(all.take(i + 1).drop_last() =~= all.take(i as int));
            assert(all.take(i + 1).last().1 == value@);
        }
        if let Some(numbers) = vector_numbers(value) {
            out.push(numbers);
            assert(view_numbers(out@) =~= before.push(numbers@));
        }
        i = i + 1;
    }
    assert(all.take(i as int) =~= all);
    out
}

impl VectorEngine {
    /// Once there are centroids, the table holds at least one.
    pub open spec fn wf(&self) -> bool {
        self@.initialized ==> self@.ivf.centroids.len() > 0
    }

    /// An engine without centroids. Vectors can only be stored in single precision so far.
    pub fn new(config: VectorConfig) -> (r: Result<Self, VectorError>)
        ensures
            match config.quantization {
                QuantizationType::F32 => {
                    &&& r matches Ok(e)
                    &&& e.wf()
                    &&& e@.config == config
                    &&& !e@.initialized
                    &&& e@.ivf.partitions == Map::<PartitionId, PartitionView>::empty()
                    &&& e@.ivf.centroids == Seq::<(PartitionId, Seq<u32>)>::empty()
                    &&& e@.ivf.next_partition_id == 0
                },
                _ => r matches Err(e) && e == VectorError::QuantizationUnavailable,
            },
    {
        match config.quantization {
            QuantizationType::F32 => {
                let quantization = F32Quantization::new(config.vector_dim, config.similarity);
                Ok(VectorEngine { ivf: IvfIndex::new(), quantization, config, initialized: false })
            },
            _ => Err(VectorError::QuantizationUnavailable),
        }
    }

    /// How the engine works.
    pub fn config(&self) -> (config: &VectorConfig)
        ensures
            *config == self@.config,
    {
        &self.config
    }

    /// The partitions and the centroids.
    pub fn ivf(&self) -> (ivf: &IvfIndex)
        ensures
            ivf@ == self@.ivf,
    {
        &self.ivf
    }

    /// The number of centroids for a number of samples: one more than its whole square root.
    /// Without samples there are none to find.
    pub fn centroid_count(samples: usize) -> (r: Result<usize, VectorError>)
        ensures
            samples == 0 ==> (r matches Err(e) && e == VectorError::NoSamples),
            samples > 0 ==> (r matches Ok(k) && is_cluster_count(samples as nat, k as nat)),
    {
        if samples == 0 {
            return Err(VectorError::NoSamples);
        }
        Ok(cluster_count(samples))
    }

    /// Adds a partition around each centroid, and lets them be the centroids from now on.
    pub fn initialize_centroids(&mut self, centroids: Vec<Vec<u32>>)
        requires
            old(self).wf(),
            centroids@.len() > 0,
        ensures
            final(self).wf(),
            final(self)@.initialized,
            final(self)@.config == old(self)@.config,
            ({
                let start = old(self)@.ivf.next_partition_id;
                let all = view_list(centroids@);
                &&& final(self)@.ivf.centroids == numbered(start, all)
                &&& final(self)@.ivf.partitions == with_partitions(old(self)@.ivf.partitions, start, all)
                &&& final(self)@.ivf.next_partition_id == nth_partition(start, all.len())
            }),
    {
        let mut table = CentroidTable::new();
        let ghost start = self.ivf@.next_partition_id;
        let ghost before = self.ivf@.partitions;
        let ghost all = view_list(centroids@);
        let mut i: usize = 0;
        assert(table@ =~= numbered(start, all).take(0));
        assert(all.take(0) =~= Seq::<Seq<u32>>::empty());
        while i < centroids.len()
            invariant
                i <= centroids@.len(),
                all == view_list(centroids@),
                self.config == old(self).config,
                self.quantization == old(self).quantization,
                table@ == numbered(start, all).take(i as int),
                self.ivf@.next_partition_id == nth_partition(start, i as nat),
                self.ivf@.partitions == with_partitions(before, start, all.take(i as int)),
            decreases centroids@.len() - i,
        {
            let copy = centroids[i].clone();
            assert(copy@ =~= all[i as int]);
            let kept = centroids[i].clone();
            assert(kept@ =~= all[i as int]);
            let id: PartitionId = self.ivf.add_partition(copy);
            table.add(id, kept);
            proof {
                assert(table@ =~= numbered(start, all).take(i + 1));
                assert(all.take(i + 1).drop_last() =~= all.take(i as int));
            }
            i = i + 1;
        }
        assert(all.take(i as int) =~= all);
        assert(numbered(start, all).take(i as int) =~= numbered(start, all));
        self.ivf.update_centroid_table(table);
        self.initialized = true;
    }

    /// Refuses a vector while there are no centroids, and a vector of another dimension.
    pub fn check_vector(&self, len: usize) -> (r: Result<(), VectorError>)
        ensures
            match refusal(self@, len as nat) {
                Some(e) => r matches Err(f) && f == e,
                None => r is Ok,
            },
    {
        if !self.initialized {
            return Err(VectorError::NotInitialized);
        }
        if len != self.config.vector_dim {
            return Err(VectorError::DimensionMismatch { expected: self.config.vector_dim, got: len });
        }
        Ok(())
    }

    /// The entry that stores the vector of a document, and the partition that it goes to: that of
    /// the centroid that is most alike to it; of those that are equally alike, of the last one.
    /// `keys` order the centroids by how alike they are to the vector.
    pub fn prepare_add_vector(&self, doc_id: u64, vector: &[u32], keys: &Vec<u64>) -> (r: Result<
        ((LsmKey, LsmValue), VectorPartitionId),
        VectorError,
    >)
        requires
            self.wf(),
            refusal(self@, vector@.len()) is None ==> keys@.len() == self@.ivf.centroids.len(),
        ensures
            match refusal(self@, vector@.len()) {
                Some(e) => r matches Err(f) && f == e,
                None => {
                    &&& r matches Ok(out)
                    &&& is_nearest_partition(self@.ivf.centroids, keys@, out.1)
                    &&& ((out.0).0, (out.0).1@) == vector_entry(out.1, doc_id, vector@)
                },
            },
    {
        self.check_vector(vector.len())?;
        let i: usize = last_maximum(keys);
        assert(is_last_maximum(keys@, i as int));
        let id: PartitionId = self.ivf.centroid_table.entries[i].0;
        let bytes = self.quantization.encode(vector);
        Ok(((LsmKey::vec(id, doc_id), LsmValue::Data(bytes)), id))
    }

    /// Counts a vector that was added to a partition.
    pub fn update_partition_count(&mut self, doc_id: u64, partition_id: VectorPartitionId)
        requires
            old(self).wf(),
        ensures
            final(self).wf(),
            final(self)@.config == old(self)@.config,
            final(self)@.initialized == old(self)@.initialized,
            final(self)@.ivf.centroids == old(self)@.ivf.centroids,
            final(self)@.ivf.next_partition_id == old(self)@.ivf.next_partition_id,
            ({
                let before = old(self)@.ivf.partitions;
                final(self)@.ivf.partitions == if before.contains_key(partition_id) {
                    before.insert(
                        partition_id,
                        PartitionView {
                            vector_count: before[partition_id].vector_count.wrapping_add(1),
                            ..before[partition_id]
                        },
                    )
                } else {
                    before
                }
            }),
    {
        self.ivf.count_vector(partition_id, doc_id);
    }

    /// Marks the vector of a document in a partition as deleted.
    pub fn delete_vector(&mut self, doc_id: u64, partition_id: VectorPartitionId)
        requires
            old(self).wf(),
        ensures
            final(self).wf(),
            final(self)@.config == old(self)@.config,
            final(self)@.initialized == old(self)@.initialized,
            final(self)@.ivf.centroids == old(self)@.ivf.centroids,
            final(self)@.ivf.next_partition_id == old(self)@.ivf.next_partition_id,
            ({
                let before = old(self)@.ivf.partitions;
                final(self)@.ivf.partitions == if before.contains_key(partition_id) {
                    before.insert(
                        partition_id,
                        PartitionView {
                            tombstones: before[partition_id].tombstones.insert(doc_id),
                            ..before[partition_id]
                        },
                    )
                } else {
                    before
                }
            }),
    {
        self.ivf.delete_vector(partition_id, doc_id);
    }

    /// The partitions in which a query looks: those of the centroids that are most alike to it,
    /// the most alike first. `keys` order the centroids by how alike they are to the query.
    pub fn begin_search(&self, query_len: usize, keys: &Vec<u64>) -> (r: Result<Vec<PartitionId>, VectorError>)
        requires
            refusal(self@, query_len as nat) is None ==> keys@.len() == self@.ivf.centroids.len(),
        ensures
            match refusal(self@, query_len as nat) {
                Some(e) => r matches Err(f) && f == e,
                None => r matches Ok(out) && exists|order: Seq<usize>|
                    is_top(keys@, order, self@.config.nprobe as nat) && out@ == #[trigger] partitions_at(
                        self@.ivf.centroids,
                        order,
                    ),
            },
    {
        self.check_vector(query_len)?;
        Ok(self.ivf.centroid_table.find_nearest(keys, self.config.nprobe))
    }

    /// The entries that store the vectors of a document, and the partitions that they go to. The
    /// first vector that is refused is an error.
    pub fn prepare_add_document(&self, doc_id: u64, vectors: &Vec<KeyedVector>) -> (r: Result<
        (Vec<(LsmKey, LsmValue)>, Vec<VectorPartitionId>),
        VectorError,
    >)
        requires
            self.wf(),
            keys_fit(self@, vectors@),
        ensures
            match r {
                Ok(out) => are_vector_entries(self@, doc_id, vectors@, out.1@, view_entries(out.0@)),
                Err(e) => exists|i: int| #[trigger] is_first_refusal(self@, vectors@, i, e),
            },
    {
        let mut entries: Vec<(LsmKey, LsmValue)> = Vec::new();
        let mut partitions: Vec<VectorPartitionId> = Vec::new();
        let mut i: usize = 0;
        while i < vectors.len()
            invariant
                self.wf(),
                i <= vectors@.len(),
                entries@.len() == i,
                partitions@.len() == i,
                keys_fit(self@, vectors@),
                forall|j: int| 0 <= j < i ==> refusal(self@, (#[trigger] vectors@[j]).vector@.len()) is None,
                forall|j: int|
                    0 <= j < i ==> is_nearest_partition(
                        self@.ivf.centroids,
                        vectors@[j].keys@,
                        #[trigger] partitions@[j],
                    ),
                forall|j: int|
                    0 <= j < i ==> ((#[trigger] entries@[j]).0, entries@[j].1@) == vector_entry(
                        partitions@[j],
                        doc_id,
                        vectors@[j].vector@,
                    ),
            decreases vectors@.len() - i,
        {
            match self.prepare_add_vector(doc_id, vectors[i].vector.as_slice(), &vectors[i].keys) {
                Ok((entry, id)) => {
                    entries.push(entry);
                    partitions.push(id);
                },
                Err(e) => {
                    assert(is_first_refusal(self@, vectors@, i as int, e));
                    return Err(e);
                },
            }
            i = i + 1;
        }
        Ok((entries, partitions))
    }

    /// The vectors of a partition that a query is compared with, out of what is stored in it:
    /// those that were not deleted, each with its document.
    pub fn candidates(&self, partition_id: PartitionId, entries: &Vec<(LsmKey, LsmValue)>) -> (out: Vec<
        (u64, Vec<u32>),
    >)
        requires
            decodable(self@, partition_id, entries@),
        ensures
            view_candidates(out@) == candidates_of(partition_with(self@, partition_id), view_entries(entries@)),
    {
        let mut out: Vec<(u64, Vec<u32>)> = Vec::new();
        let ghost all = view_entries(entries@);
        let ghost p = partition_with(self@, partition_id);
        let partition = self.ivf.get_partition(partition_id);
        let mut i: usize = 0;
        assert(all.take(0) =~= Seq::<(LsmKey, Option<Seq<u8>>)>::empty());
        assert(view_candidates(out@) =~= Seq::<(u64, Seq<u32>)>::empty());
        while i < entries.len()
            invariant
                i <= entries@.len(),
                all == view_entries(entries@),
                match partition {
                    Some(q) => p == Some(q@),
                    None => p is None,
                },
                forall|j: int|
                    0 <= j < entries@.len() && !passed_over(p, #[trigger] all[j]) ==> (entries@[j].1@->0).len() % 4
                        == 0,
                view_candidates(out@) == candidates_of(p, all.take(i as int)),
            decreases entries@.len() - i,
        {
            let doc_id: u64 = entries[i].0.doc_id;
            let ghost before = view_candidates(out@);
            proof {
                assert(all.take(i + 1).drop_last() =~= all.take(i as int));
                assert(all.take(i + 1).last() == all[i as int]);
            }
            let deleted: bool = match partition {
                Some(q) => q.is_tombstoned(doc_id),
                None => false,
            };
            if !deleted {
                if let LsmValue::Data(bytes) = &entries[i].1 {
                    assert(!passed_over(p, all[i as int]));
                    let vector = self.quantization.decode(bytes.as_slice());
                    out.push((doc_id, vector));
                    assert(view_candidates(out@) =~= before.push((doc_id, bytes_vector(bytes@))));
                }
            }
            i = i + 1;
        }
        assert(all.take(i as int) =~= all);
        out
    }

    /// The vectors of several partitions that a query is compared with, partition by partition.
    /// `scans` holds what is stored in each of them.
    pub fn all_candidates(
        &self,
        partitions: &Vec<PartitionId>,
        scans: &Vec<Vec<(LsmKey, LsmValue)>>,
    ) -> (out: Vec<(u64, Vec<u32>)>)
        requires
            scans@.len() == partitions@.len(),
            forall|k: int| 0 <= k < scans@.len() ==> decodable(self@, partitions@[k], (#[trigger] scans@[k])@),
        ensures
            view_candidates(out@) == joined_candidates(self@, partitions@, scans@),
            forall|k: int|
                0 <= k < partitions@.len() ==> is_run_of(
                    candidates_of(partition_with(self@, #[trigger] partitions@[k]), view_entries(scans@[k]@)),
                    view_candidates(out@),
                ),
    {
        let mut out: Vec<(u64, Vec<u32>)> = Vec::new();
        let mut k: usize = 0;
        assert(partitions@.take(0) =~= Seq::<PartitionId>::empty());
        assert(view_candidates(out@) =~= Seq::<(u64, Seq<u32>)>::empty());
        while k < partitions.len()
            invariant
                k <= partitions@.len(),
                scans@.len() == partitions@.len(),
                forall|j: int| 0 <= j < scans@.len() ==> decodable(self@, partitions@[j], (#[trigger] scans@[j])@),
                view_candidates(out@) == joined_candidates(self@, partitions@.take(k as int), scans@),
            decreases partitions@.len() - k,
        {
            assert(decodable(self@, partitions@[k as int], scans@[k as int]@));
            let mut more = self.candidates(partitions[k], &scans[k]);
            let ghost before = out@;
            let ghost added = more@;
            out.append(&mut more);
            proof {
                assert(view_candidates(out@) =~= view_candidates(before) + view_candidates(added));
                assert(partitions@.take(k + 1).drop_last() =~= partitions@.take(k as int));
            }
            k = k + 1;
        }
        assert(partitions@.take(k as int) =~= partitions@);
        assert forall|j: int| 0 <= j < partitions@.len() implies is_run_of(
            candidates_of(partition_with(self@, #[trigger] partitions@[j]), view_entries(scans@[j]@)),
            view_candidates(out@),
        ) by {
            lemma_run_of_candidates(self@, partitions@, scans@, j);
        }
        out
    }

    /// The number of partitions.
    pub fn partition_count(&self) -> (n: usize)
        ensures
            n == self@.ivf.partitions.dom().len(),
    {
        self.ivf.partition_count()
    }

    /// Whether there are centroids.
    pub fn is_initialized(&self) -> (r: bool)
        ensures
            r == self@.initialized,
    {
        self.initialized
    }
}

/// A vector that is stored is a candidate with its document again, unless it was deleted.
pub proof fn law_stored_vector_is_candidate(
    partition: Option<PartitionView>,
    id: PartitionId,
    doc_id: u64,
    vector: Seq<u32>,
)
    ensures
        candidates_of(partition, seq![vector_entry(id, doc_id, vector)]) == if partition matches Some(p)
            && p.tombstones.contains(doc_id) {
            Seq::empty()
        } else {
            seq![(doc_id, vector)]
        },
{
    let entries = seq![vector_entry(id, doc_id, vector)];
    assert(entries.drop_last() =~= Seq::<(LsmKey, Option<Seq<u8>>)>::empty());
    assert(candidates_of(partition, entries.drop_last()) =~= Seq::<(u64, Seq<u32>)>::empty());
    quantization::law_vector_round_trip(vector);
    assert(Seq::<(u64, Seq<u32>)>::empty().push((doc_id, vector)) =~= seq![(doc_id, vector)]);
}

/// The numbers of fresh partitions follow on each other: as long as they do not run over, the
/// partitions that were there keep theirs and stay, and none is given twice.
pub proof fn law_fresh_partitions_keep_the_others(
    partitions: Map<PartitionId, PartitionView>,
    start: PartitionId,
    centroids: Seq<Seq<u32>>,
)
    requires
        start + centroids.len() <= 0x1_0000_0000,
        forall|id: PartitionId| #[trigger] partitions.contains_key(id) ==> id < start,
    ensures
        forall|id: PartitionId|
            partitions.contains_key(id) ==> #[trigger] with_partitions(partitions, start, centroids).contains_key(id)
                && with_partitions(partitions, start, centroids)[id] == partitions[id],
        forall|i: int|
            0 <= i < centroids.len() ==> with_partitions(partitions, start, centroids).contains_key(
                (#[trigger] numbered(start, centroids)[i]).0,
            ) && with_partitions(partitions, start, centroids)[numbered(start, centroids)[i].0] == (PartitionView {
                id: (start + i) as u32,
                centroid: centroids[i],
                vector_count: 0,
                tombstones: Set::empty(),
            }),
        forall|id: PartitionId| #[trigger]
            with_partitions(partitions, start, centroids).contains_key(id) ==> partitions.contains_key(id) || start
                <= id < start + centroids.len(),
    decreases centroids.len(),
{
    if centroids.len() > 0 {
        let init = centroids.drop_last();
        law_fresh_partitions_keep_the_others(partitions, start, init);
        let before = with_partitions(partitions, start, init);
        let after = with_partitions(partitions, start, centroids);
        assert forall|id: PartitionId| partitions.contains_key(id) implies #[trigger] after.contains_key(id)
            && after[id] == partitions[id] by {
            assert(id < start);
            assert(before.contains_key(id));
        }
        assert forall|i: int| 0 <= i < centroids.len() implies with_partitions(
            partitions,
            start,
            centroids,
        ).contains_key((#[trigger] numbered(start, centroids)[i]).0) && with_partitions(
            partitions,
            start,
            centroids,
        )[numbered(start, centroids)[i].0] == (PartitionView {
            id: (start + i) as u32,
            centroid: centroids[i],
            vector_count: 0,
            tombstones: Set::empty(),
        }) by {
            if i < init.len() {
                assert(numbered(start, init)[i] == numbered(start, centroids)[i]);
                assert(before.contains_key(numbered(start, init)[i].0));
            }
        }
    }
}

/// An entry of a partition stands for a candidate: it holds a vector, and its document was not
/// deleted from the partition.
pub open spec fn stands_for(
    partition: Option<PartitionView>,
    entry: (LsmKey, Option<Seq<u8>>),
    candidate: (u64, Seq<u32>),
) -> bool {
    &&& entry.1 is Some
    &&& partition is Some ==> !(partition->0).tombstones.contains(entry.0.doc_id)
    &&& candidate == (entry.0.doc_id, bytes_vector(entry.1->0))
}

/// The candidates of a partition are the vectors that are stored in it, but for those of the
/// documents that were deleted from it: none is lost and none comes from elsewhere. What is stored
/// later comes later.
pub proof fn law_candidates_are_stored_vectors(
    partition: Option<PartitionView>,
    entries: Seq<(LsmKey, Option<Seq<u8>>)>,
    more: Seq<(LsmKey, Option<Seq<u8>>)>,
    candidate: (u64, Seq<u32>),
)
    ensures
        candidates_of(partition, entries).contains(candidate) <==> exists|i: int|
            0 <= i < entries.len() && stands_for(partition, #[trigger] entries[i], candidate),
        candidates_of(partition, entries + more) == candidates_of(partition, entries) + candidates_of(partition, more),
{
    lemma_candidate_is_stored(partition, entries, candidate);
    lemma_candidates_joined(partition, entries, more);
}

proof fn lemma_candidate_is_stored(
    partition: Option<PartitionView>,
    entries: Seq<(LsmKey, Option<Seq<u8>>)>,
    candidate: (u64, Seq<u32>),
)
    ensures
        candidates_of(partition, entries).contains(candidate) <==> exists|i: int|
            0 <= i < entries.len() && stands_for(partition, #[trigger] entries[i], candidate),
    decreases entries.len(),
{
    if entries.len() > 0 {
        let init = entries.drop_last();
        let n = entries.len() - 1;
        let before = candidates_of(partition, init);
        let out = candidates_of(partition, entries);
        lemma_candidate_is_stored(partition, init, candidate);
        if out.contains(candidate) {
            let k = choose|k: int| 0 <= k < out.len() && out[k] == candidate;
            if k < before.len() {
                assert(before[k] == candidate);
                assert(before.contains(candidate));
                let i = choose|i: int| 0 <= i < init.len() && stands_for(partition, #[trigger] init[i], candidate);
                assert(entries[i] == init[i]);
            } else {
                assert(stands_for(partition, entries[n], candidate));
            }
        }
        if exists|i: int| 0 <= i < entries.len() && stands_for(partition, #[trigger] entries[i], candidate) {
            let i = choose|i: int| 0 <= i < entries.len() && stands_for(partition, #[trigger] entries[i], candidate);
            if i < n {
                assert(init[i] == entries[i]);
                assert(before.contains(candidate));
                let k = choose|k: int| 0 <= k < before.len() && before[k] == candidate;
                assert(out[k] == candidate);
            } else {
                assert(out[out.len() - 1] == candidate);
            }
        }
    }
}

proof fn lemma_candidates_joined(
    partition: Option<PartitionView>,
    entries: Seq<(LsmKey, Option<Seq<u8>>)>,
    more: Seq<(LsmKey, Option<Seq<u8>>)>,
)
    ensures
        candidates_of(partition, entries + more) == candidates_of(partition, entries) + candidates_of(partition, more),
    decreases more.len(),
{
    let all = entries + more;
    if more.len() == 0 {
        assert(all =~= entries);
        assert(candidates_of(partition, entries) + candidates_of(partition, more) =~= candidates_of(partition, entries));
    } else {
        assert(all.drop_last() =~= entries + more.drop_last());
        assert(all.last() == more.last());
        lemma_candidates_joined(partition, entries, more.drop_last());
        assert(candidates_of(partition, all) =~= candidates_of(partition, entries) + candidates_of(partition, more));
    }
}

/// A vector is among the candidates of several partitions exactly if it is among those of one of
/// them, whichever that is; the candidates of each partition stand together.
pub proof fn law_candidates_of_every_partition(
    e: EngineView,
    partitions: Seq<PartitionId>,
    scans: Seq<Vec<(LsmKey, LsmValue)>>,
    candidate: (u64, Seq<u32>),
)
    requires
        partitions.len() == scans.len(),
    ensures
        joined_candidates(e, partitions, scans).contains(candidate) <==> exists|k: int|
            0 <= k < partitions.len() && candidates_of(
                partition_with(e, #[trigger] partitions[k]),
                view_entries(scans[k]@),
            ).contains(candidate),
        joined_candidates(e, partitions, scans).contains(candidate) <==> exists|k: int, i: int|
            0 <= k < partitions.len() && 0 <= i < scans[k]@.len() && stands_for(
                partition_with(e, #[trigger] partitions[k]),
                #[trigger] view_entries(scans[k]@)[i],
                candidate,
            ),
        forall|k: int|
            0 <= k < partitions.len() ==> is_run_of(
                candidates_of(partition_with(e, #[trigger] partitions[k]), view_entries(scans[k]@)),
                joined_candidates(e, partitions, scans),
            ),
{
    lemma_joined_candidate(e, partitions, scans, candidate);
    if joined_candidates(e, partitions, scans).contains(candidate) {
        let k = choose|k: int|
            0 <= k < partitions.len() && candidates_of(
                partition_with(e, #[trigger] partitions[k]),
                view_entries(scans[k]@),
            ).contains(candidate);
        lemma_candidate_is_stored(partition_with(e, partitions[k]), view_entries(scans[k]@), candidate);
    }
    if exists|k: int, i: int|
        0 <= k < partitions.len() && 0 <= i < scans[k]@.len() && stands_for(
            partition_with(e, #[trigger] partitions[k]),
            #[trigger] view_entries(scans[k]@)[i],
            candidate,
        ) {
        let (k, i) = choose|k: int, i: int|
            0 <= k < partitions.len() && 0 <= i < scans[k]@.len() && stands_for(
                partition_with(e, #[trigger] partitions[k]),
                #[trigger] view_entries(scans[k]@)[i],
                candidate,
            );
        lemma_candidate_is_stored(partition_with(e, partitions[k]), view_entries(scans[k]@), candidate);
    }
    assert forall|k: int| 0 <= k < partitions.len() implies is_run_of(
        candidates_of(partition_with(e, #[trigger] partitions[k]), view_entries(scans[k]@)),
        joined_candidates(e, partitions, scans),
    ) by {
        lemma_run_of_candidates(e, partitions, scans, k);
    }
}

/// The candidates stand together in a longer list.
pub open spec fn is_run_of(run: Seq<(u64, Seq<u32>)>, all: Seq<(u64, Seq<u32>)>) -> bool {
    exists|at: int| 0 <= at && at + run.len() <= all.len() && #[trigger] all.subrange(at, at + run.len()) == run
}

proof fn lemma_run_of_candidates(
    e: EngineView,
    partitions: Seq<PartitionId>,
    scans: Seq<Vec<(LsmKey, LsmValue)>>,
    k: int,
)
    requires
        0 <= k < partitions.len() <= scans.len(),
    ensures
        is_run_of(
            candidates_of(partition_with(e, partitions[k]), view_entries(scans[k]@)),
            joined_candidates(e, partitions, scans),
        ),
    decreases partitions.len(),
{
    let init = partitions.drop_last();
    let n = partitions.len() - 1;
    let run = candidates_of(partition_with(e, partitions[k]), view_entries(scans[k]@));
    let before = joined_candidates(e, init, scans);
    let out = joined_candidates(e, partitions, scans);
    if k < n {
        lemma_run_of_candidates(e, init, scans, k);
        assert(init[k] == partitions[k]);
        let at = choose|at: int|
            0 <= at && at + run.len() <= before.len() && #[trigger] before.subrange(at, at + run.len()) == run;
        assert(out.subrange(at, at + run.len()) =~= before.subrange(at, at + run.len()));
    } else {
        let at = before.len() as int;
        assert(out.subrange(at, at + run.len()) =~= run);
    }
}

proof fn lemma_joined_candidate(
    e: EngineView,
    partitions: Seq<PartitionId>,
    scans: Seq<Vec<(LsmKey, LsmValue)>>,
    candidate: (u64, Seq<u32>),
)
    requires
        partitions.len() <= scans.len(),
    ensures
        joined_candidates(e, partitions, scans).contains(candidate) <==> exists|k: int|
            0 <= k < partitions.len() && candidates_of(
                partition_with(e, #[trigger] partitions[k]),
                view_entries(scans[k]@),
            ).contains(candidate),
    decreases partitions.len(),
{
    if partitions.len() > 0 {
        let init = partitions.drop_last();
        let n = partitions.len() - 1;
        let before = joined_candidates(e, init, scans);
        let added = candidates_of(partition_with(e, partitions[n]), view_entries(scans[n]@));
        let out = joined_candidates(e, partitions, scans);
        lemma_joined_candidate(e, init, scans, candidate);
        if out.contains(candidate) {
            let j = choose|j: int| 0 <= j < out.len() && out[j] == candidate;
            if j < before.len() {
                assert(before[j] == candidate);
                assert(before.contains(candidate));
                let k = choose|k: int|
                    0 <= k < init.len() && candidates_of(
                        partition_with(e, #[trigger] init[k]),
                        view_entries(scans[k]@),
                    ).contains(candidate);
                assert(partitions[k] == init[k]);
            } else {
                assert(added[j - before.len()] == candidate);
                assert(added.contains(candidate));
            }
        }
        if exists|k: int|
            0 <= k < partitions.len() && candidates_of(
                partition_with(e, #[trigger] partitions[k]),
                view_entries(scans[k]@),
            ).contains(candidate) {
            let k = choose|k: int|
                0 <= k < partitions.len() && candidates_of(
                    partition_with(e, #[trigger] partitions[k]),
                    view_entries(scans[k]@),
                ).contains(candidate);
            if k < n {
                assert(init[k] == partitions[k]);
                assert(before.contains(candidate));
                let j = choose|j: int| 0 <= j < before.len() && before[j] == candidate;
                assert(out[j] == candidate);
            } else {
                let j = choose|j: int| 0 <= j < added.len() && added[j] == candidate;
                assert(out[before.len() + j] == candidate);
            }
        }
    }
}

/// The vectors of a document are the numbers of those of its fields that hold a list of numbers
/// that is not empty: none of these fields is passed over, no other value is a vector, and the
/// vectors of fields that come later come later.
pub proof fn law_document_vectors_are_number_lists(
    doc: Seq<(Seq<char>, Json)>,
    more: Seq<(Seq<char>, Json)>,
    vector: Seq<JsonNumber>,
)
    ensures
        doc_vectors(doc).contains(vector) <==> exists|i: int|
            0 <= i < doc.len() && holds_vector((#[trigger] doc[i]).1, vector),
        doc_vectors(doc + more) == doc_vectors(doc) + doc_vectors(more),
{
    lemma_document_vector(doc, vector);
    lemma_document_vectors_joined(doc, more);
}

/// The value is a list of the given numbers, of which there is one at least.
pub open spec fn holds_vector(value: Json, vector: Seq<JsonNumber>) -> bool {
    &&& vector.len() > 0
    &&& value == Json::Array(Seq::new(vector.len(), |i: int| Json::Number(vector[i])))
}

proof fn lemma_document_vector(doc: Seq<(Seq<char>, Json)>, vector: Seq<JsonNumber>)
    ensures
        doc_vectors(doc).contains(vector) <==> exists|i: int|
            0 <= i < doc.len() && holds_vector((#[trigger] doc[i]).1, vector),
    decreases doc.len(),
{
    if doc.len() > 0 {
        let init = doc.drop_last();
        let n = doc.len() - 1;
        let before = doc_vectors(init);
        let out = doc_vectors(doc);
        lemma_document_vector(init, vector);
        lemma_vector_value(doc[n].1, vector);
        if out.contains(vector) {
            let k = choose|k: int| 0 <= k < out.len() && out[k] == vector;
            if k < before.len() {
                assert(before[k] == vector);
                assert(before.contains(vector));
                let i = choose|i: int| 0 <= i < init.len() && holds_vector((#[trigger] init[i]).1, vector);
                assert(doc[i] == init[i]);
            } else {
                assert(holds_vector(doc[n].1, vector));
            }
        }
        if exists|i: int| 0 <= i < doc.len() && holds_vector((#[trigger] doc[i]).1, vector) {
            let i = choose|i: int| 0 <= i < doc.len() && holds_vector((#[trigger] doc[i]).1, vector);
            if i < n {
                assert(init[i] == doc[i]);
                assert(before.contains(vector));
                let k = choose|k: int| 0 <= k < before.len() && before[k] == vector;
                assert(out[k] == vector);
            } else {
                assert(out[out.len() - 1] == vector);
            }
        }
    }
}

proof fn lemma_vector_value(value: Json, vector: Seq<JsonNumber>)
    ensures
        holds_vector(value, vector) <==> is_vector_value(value) && numbers_of(value) == vector,
{
    if holds_vector(value, vector) {
        assert(numbers_of(value) =~= vector);
    }
    if is_vector_value(value) && numbers_of(value) == vector {
        assert(value->Array_0 =~= Seq::new(vector.len(), |i: int| Json::Number(vector[i])));
    }
}

proof fn lemma_document_vectors_joined(doc: Seq<(Seq<char>, Json)>, more: Seq<(Seq<char>, Json)>)
    ensures
        doc_vectors(doc + more) == doc_vectors(doc) + doc_vectors(more),
    decreases more.len(),
{
    let all = doc + more;
    if more.len() == 0 {
        assert(all =~= doc);
        assert(doc_vectors(doc) + doc_vectors(more) =~= doc_vectors(doc));
    } else {
        assert(all.drop_last() =~= doc + more.drop_last());
        assert(all.last() == more.last());
        lemma_document_vectors_joined(doc, more.drop_last());
        assert(doc_vectors(all) =~= doc_vectors(doc) + doc_vectors(more));
    }
}

/// Which vectors an engine takes: once it has centroids, those of its dimension, whatever they are.
/// Before that it takes none, and it tells the two refusals apart.
pub proof fn law_vectors_of_the_dimension_are_taken(e: EngineView, len: nat)
    requires
        len <= usize::MAX,
    ensures
        refusal(e, len) is None <==> e.initialized && len == e.config.vector_dim,
        refusal(e, len) == Some(VectorError::NotInitialized) <==> !e.initialized,
        e.initialized && len != e.config.vector_dim ==> refusal(e, len) == Some(
            VectorError::DimensionMismatch { expected: e.config.vector_dim, got: len as usize },
        ),
{
}

/// A vector of a document that was deleted from a partition is no candidate of it, however often it
/// is stored there; the deletion touches no other document.
pub proof fn law_deleted_vector_is_no_candidate(
    partition: PartitionView,
    entries: Seq<(LsmKey, Option<Seq<u8>>)>,
    deleted: u64,
    candidate: (u64, Seq<u32>),
)
    ensures
        ({
            let after = PartitionView { tombstones: partition.tombstones.insert(deleted), ..partition };
            candidates_of(Some(after), entries).contains(candidate) <==> candidate.0 != deleted && candidates_of(
                Some(partition),
                entries,
            ).contains(candidate)
        }),
{
    let after = PartitionView { tombstones: partition.tombstones.insert(deleted), ..partition };
    lemma_candidate_is_stored(Some(after), entries, candidate);
    lemma_candidate_is_stored(Some(partition), entries, candidate);
    if candidates_of(Some(after), entries).contains(candidate) {
        let i = choose|i: int| 0 <= i < entries.len() && stands_for(Some(after), #[trigger] entries[i], candidate);
        assert(stands_for(Some(partition), entries[i], candidate));
    }
    if candidate.0 != deleted && candidates_of(Some(partition), entries).contains(candidate) {
        let i = choose|i: int| 0 <= i < entries.len() && stands_for(Some(partition), #[trigger] entries[i], candidate);
        assert(stands_for(Some(after), entries[i], candidate));
    }
}

/// Every vector of a document is stored, under the document's number and so that it is read again,
/// in the partition of a centroid that none is more alike to.
pub proof fn law_every_vector_is_stored(
    e: EngineView,
    doc_id: u64,
    vectors: Seq<KeyedVector>,
    partitions: Seq<PartitionId>,
    entries: Seq<(LsmKey, Option<Seq<u8>>)>,
    i: int,
)
    requires
        are_vector_entries(e, doc_id, vectors, partitions, entries),
        0 <= i < vectors.len(),
    ensures
        entries.len() == vectors.len(),
        partitions.len() == vectors.len(),
        entries[i].0.doc_id == doc_id,
        entries[i].0.namespace == NS_VEC,
        entries[i].0.partition_or_segment == partitions[i],
        entries[i].1 is Some && bytes_vector(entries[i].1->0) == vectors[i].vector@,
        exists|c: int|
            0 <= c < vectors[i].keys@.len() && partitions[i] == e.ivf.centroids[c].0 && forall|d: int|
                0 <= d < vectors[i].keys@.len() ==> (#[trigger] vectors[i].keys@[d]) <= (#[trigger] vectors[i].keys@[c]),
{
    let keys = vectors[i].keys@;
    quantization::law_vector_round_trip(vectors[i].vector@);
    assert(entries[i] == vector_entry(partitions[i], doc_id, vectors[i].vector@));
    assert(is_nearest_partition(e.ivf.centroids, keys, partitions[i]));
    let c = choose|c: int| #[trigger] is_last_maximum(keys, c) && partitions[i] == e.ivf.centroids[c].0;
    assert(0 <= c < keys.len());
    assert forall|d: int| 0 <= d < keys.len() implies (#[trigger] keys[d]) <= keys[c] by {}
}

/// A query looks in the partitions of the centroids that are most alike to it: if it does not look
/// in that of a centroid, it looks in as many as it may, all of them at least as alike.
pub proof fn law_best_partitions_are_searched(
    centroids: Seq<(PartitionId, Seq<u32>)>,
    keys: Seq<u64>,
    order: Seq<usize>,
    nprobe: nat,
    c: usize,
)
    requires
        is_top(keys, order, nprobe),
        keys.len() == centroids.len(),
        c < centroids.len(),
    ensures
        partitions_at(centroids, order).contains(centroids[c as int].0) || (partitions_at(centroids, order).len()
            == nprobe && forall|x: int|
            0 <= x < order.len() ==> keys[(#[trigger] order[x]) as int] >= keys[c as int]),
        forall|x: int|
            0 <= x < order.len() ==> (#[trigger] partitions_at(centroids, order)[x]) == centroids[order[x] as int].0,
{
    let out = partitions_at(centroids, order);
    if order.contains(c) {
        let x = choose|x: int| 0 <= x < order.len() && order[x] == c;
        assert(out[x] == centroids[c as int].0);
    } else {
        if order.len() < nprobe {
            lemma_all_taken(keys, order, nprobe, c);
        }
    }
}

proof fn lemma_all_taken(keys: Seq<u64>, order: Seq<usize>, k: nat, c: usize)
    requires
        is_top(keys, order, k),
        order.len() < k,
        c < keys.len(),
    ensures
        order.contains(c),
{
    if !order.contains(c) {
        let places = order.map_values(|i: usize| i as int);
        let taken = places.to_set();
        let all = vstd::set_lib::set_int_range(0, keys.len() as int);
        assert forall|x: int, y: int| 0 <= x < y < places.len() implies places[x] != places[y] by {
            assert(crate::rank::ranks_before(keys, order[x] as int, order[y] as int));
        }
        places.unique_seq_to_set();
        vstd::set_lib::lemma_int_range(0, keys.len() as int);
        assert forall|i: int| taken.contains(i) implies all.contains(i) && i != c as int by {
            let x = choose|x: int| 0 <= x < places.len() && places[x] == i;
            assert(order[x] < keys.len());
            assert(order.contains(order[x]));
        }
        vstd::set_lib::lemma_len_subset(taken.insert(c as int), all);
    }
}

} // verus!
