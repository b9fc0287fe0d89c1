//! The partitions of a vector index and the table of their centroids.

use std::collections::HashMap;

use vstd::prelude::*;

use crate::rank::{is_top, top_ranked};
use crate::storage::entry::view_entries;
use crate::storage::key::{LsmKey, LsmValue};
use crate::vector::partition::{Partition, PartitionId, PartitionView};

verus! {

/// The centroids and the partitions around them.
#[derive(Debug)]
pub struct CentroidTable {
    pub entries: Vec<(PartitionId, Vec<u32>)>,
}

/// The models of the entries of a table.
pub open spec fn view_centroids(s: Seq<(PartitionId, Vec<u32>)>) -> Seq<(PartitionId, Seq<u32>)> {
    Seq::new(s.len(), |i: int| (s[i].0, s[i].1@))
}

impl View for CentroidTable {
    type V = Seq<(PartitionId, Seq<u32>)>;

    open spec fn view(&self) -> Seq<(PartitionId, Seq<u32>)> {
        view_centroids(self.entries@)
    }
}

/// The partitions at positions of a table.
pub open spec fn partitions_at(table: Seq<(PartitionId, Seq<u32>)>, order: Seq<usize>) -> Seq<PartitionId> {
    Seq::new(order.len(), |i: int| table[order[i] as int].0)
}

impl CentroidTable {
    /// A table without centroids.
    pub fn new() -> (t: Self)
        ensures
            t@ == Seq::<(PartitionId, Seq<u32>)>::empty(),
    {
        let t = CentroidTable { entries: Vec::new() };
        assert(t@ =~= Seq::<(PartitionId, Seq<u32>)>::empty());
        t
    }

    /// Adds a centroid.
    pub fn add(&mut self, partition_id: PartitionId, centroid: Vec<u32>)
        ensures
            final(self)@ == old(self)@.push((partition_id, centroid@)),
    {
        let ghost before = self@;
        self.entries.push((partition_id, centroid));
        assert(self@ =~= before.push((partition_id, centroid@)));
    }

    /// The partitions of the `nprobe` centroids that are most alike to a query, the most alike
    /// first; of those that are equally alike the one that was added first comes first. `keys`
    /// order the centroids by how alike they are.
    pub fn find_nearest(&self, keys: &Vec<u64>, nprobe: usize) -> (out: Vec<PartitionId>)
        requires
            keys@.len() == self@.len(),
        ensures
            exists|order: Seq<usize>|
                is_top(keys@, order, nprobe as nat) && out@ == #[trigger] partitions_at(self@, order),
    {
        let order = top_ranked(keys, nprobe);
        let mut out: Vec<PartitionId> = Vec::new();
        let mut i: usize = 0;
        while i < order.len()
            invariant
                i <= order@.len(),
                keys@.len() == self@.len(),
                is_top(keys@, order@, nprobe as nat),
                out@ == partitions_at(self@, order@).take(i as int),
            decreases order@.len() - i,
        {
            assert(order@[i as int] < keys@.len());
            out.push(self.entries[order[i]].0);
            assert(out@ =~= partitions_at(self@, order@).take(i + 1));
            i = i + 1;
        }
        assert(partitions_at(self@, order@).take(i as int) =~= partitions_at(self@, order@));
        out
    }
}

impl Default for CentroidTable {
    fn default() -> (t: Self)
        ensures
            t@ == Seq::<(PartitionId, Seq<u32>)>::empty(),
    {
        CentroidTable::new()
    }
}

/// The model of a vector index.
pub struct IvfView {
    pub partitions: Map<PartitionId, PartitionView>,
    pub centroids: Seq<(PartitionId, Seq<u32>)>,
    pub next_partition_id: PartitionId,
}

/// The partitions of a vector index.
#[derive(Debug)]
pub struct IvfIndex {
    pub partitions: HashMap<PartitionId, Partition>,
    pub centroid_table: CentroidTable,
    pub next_partition_id: PartitionId,
}

impl View for IvfIndex {
    type V = IvfView;

    open spec fn view(&self) -> IvfView {
        IvfView {
            partitions: self.partitions@.map_values(|p: Partition| p@),
            centroids: self.centroid_table@,
            next_partition_id: self.next_partition_id,
        }
    }
}

/// The vectors among stored entries: deletions are passed over.
pub open spec fn stored_vectors(entries: Seq<(LsmKey, Option<Seq<u8>>)>) -> Seq<(u64, Seq<u8>)>
    decreases entries.len(),
{
    if entries.len() == 0 {
        Seq::empty()
    } else {
        let before = stored_vectors(entries.drop_last());
        match entries.last().1 {
            Some(bytes) => before.push((entries.last().0.doc_id, bytes)),
            None => before,
        }
    }
}

/// The models of a list of vectors.
pub open spec fn view_vectors(s: Seq<(u64, Vec<u8>)>) -> Seq<(u64, Seq<u8>)> {
    Seq::new(s.len(), |i: int| (s[i].0, s[i].1@))
}

impl IvfIndex {
    /// An index without partitions.
    pub fn new() -> (ivf: Self)
        ensures
            ivf@.partitions == Map::<PartitionId, PartitionView>::empty(),
            ivf@.centroids == Seq::<(PartitionId, Seq<u32>)>::empty(),
            ivf@.next_partition_id == 0,
    {
        broadcast use vstd::std_specs::hash::group_hash_axioms;

        let ivf = IvfIndex {
            partitions: HashMap::new(),
            centroid_table: CentroidTable::new(),
            next_partition_id: 0,
        };
        assert(ivf@.partitions =~= Map::<PartitionId, PartitionView>::empty());
        ivf
    }

    /// Adds a partition around a centroid, and says which number it has. The table of the
    /// centroids stays as it is.
    pub fn add_partition(&mut self, centroid: Vec<u32>) -> (id: PartitionId)
        ensures
            id == old(self)@.next_partition_id,
            final(self)@.next_partition_id == id.wrapping_add(1),
            final(self)@.centroids == old(self)@.centroids,
            final(self)@.partitions == old(self)@.partitions.insert(
                id,
                PartitionView { id, centroid: centroid@, vector_count: 0, tombstones: Set::empty() },
            ),
    {
        broadcast use vstd::std_specs::hash::group_hash_axioms;

        let ghost before = self@.partitions;
        let id: PartitionId = self.next_partition_id;
        self.next_partition_id = id.wrapping_add(1);
        let partition = Partition::new(id, centroid);
        let ghost p = partition@;
        self.partitions.insert(id, partition);
        assert(self@.partitions =~= before.insert(id, p));
        id
    }

    /// The vectors of a partition, as document and bytes, out of what is stored in it.
    pub fn scan_partition(&self, entries: &Vec<(LsmKey, LsmValue)>) -> (out: Vec<(u64, Vec<u8>)>)
        ensures
            view_vectors(out@) == stored_vectors(view_entries(entries@)),
    {
        let mut out: Vec<(u64, Vec<u8>)> = Vec::new();
        let ghost all = view_entries(entries@);
        let mut i: usize = 0;
        assert(all.take(0) =~= Seq::<(LsmKey, Option<Seq<u8>>)>::empty());
        assert(view_vectors(out@) =~= Seq::<(u64, Seq<u8>)>::empty());
        while i < entries.len()
            invariant
                i <= entries@.len(),
                all == view_entries(entries@),
                view_vectors(out@) == stored_vectors(all.take(i as int)),
            decreases entries@.len() - i,
        {
            let ghost before = view_vectors(out@);
            proof {
                assert(all.take(i + 1).drop_last() =~= all.take(i as int));
                assert(all.take(i + 1).last() == (entries@[i as int].0, entries@[i as int].1@));
            }
            if let LsmValue::Data(bytes) = &entries[i].1 {
                let copy = bytes.clone();
                assert(copy@ =~= bytes@);
                out.push((entries[i].0.doc_id, copy));
                assert(view_vectors(out@) =~= before.push((entries@[i as int].0.doc_id, bytes@)));
            }
            i = i + 1;
        }
        assert(all.take(i as int) =~= all);
        out
    }

    /// The number of partitions.
    pub fn partition_count(&self) -> (n: usize)
        ensures
            n == self@.partitions.dom().len(),
    {
        broadcast use vstd::std_specs::hash::group_hash_axioms;

        assert(self@.partitions.dom() =~= self.partitions@.dom());
        self.partitions.len()
    }

    /// The partition with a number.
    pub fn get_partition(&self, id: PartitionId) -> (r: Option<&Partition>)
        ensures
            r is Some <==> self@.partitions.contains_key(id),
            r matches Some(p) ==> p@ == self@.partitions[id],
    {
        broadcast use vstd::std_specs::hash::group_hash_axioms;

        self.partitions.get(&id)
    }

    /// Replaces the table of the centroids.
    pub fn update_centroid_table(&mut self, new_table: CentroidTable)
        ensures
            final(self)@ == (IvfView { centroids: new_table@, ..old(self)@ }),
    {
        self.centroid_table = new_table;
    }

    /// Counts a vector that was added to a partition. A partition that is not there is no error.
    pub fn count_vector(&mut self, id: PartitionId, doc_id: u64)
        ensures
            final(self)@.centroids == old(self)@.centroids,
            final(self)@.next_partition_id == old(self)@.next_partition_id,
            ({
                let before = old(self)@.partitions;
                final(self)@.partitions == if before.contains_key(id) {
                    before.insert(
                        id,
                        PartitionView { vector_count: before[id].vector_count.wrapping_add(1), ..before[id] },
                    )
                } else {
                    before
                }
            }),
    {
        broadcast use vstd::std_specs::hash::group_hash_axioms;

        let ghost before = self@.partitions;
        if let Some(mut p) = self.partitions.remove(&id) {
            assert(before.contains_key(id) && before[id] == p@);
            p.add_vector(doc_id);
            let ghost counted = p@;
            self.partitions.insert(id, p);
            assert(self@.partitions =~= before.insert(id, counted));
        } else {
            assert(self@.partitions =~= before);
        }
    }

    /// Marks the vector of a document in a partition as deleted. A partition that is not there
    /// is no error.
    pub fn delete_vector(&mut self, id: PartitionId, doc_id: u64)
        ensures
            final(self)@.centroids == old(self)@.centroids,
            final(self)@.next_partition_id == old(self)@.next_partition_id,
            ({
                let before = old(self)@.partitions;
                final(self)@.partitions == if before.contains_key(id) {
                    before.insert(
                        id,
                        PartitionView { tombstones: before[id].tombstones.insert(doc_id), ..before[id] },
                    )
                } else {
                    before
                }
            }),
    {
        broadcast use vstd::std_specs::hash::group_hash_axioms;

        let ghost before = self@.partitions;
        if let Some(mut p) = self.partitions.remove(&id) {
            assert(before.contains_key(id) && before[id] == p@);
            p.delete_vector(doc_id);
            let ghost marked = p@;
            self.partitions.insert(id, p);
            assert(self@.partitions =~= before.insert(id, marked));
        } else {
            assert(self@.partitions =~= before);
        }
    }
}

impl Default for IvfIndex {
    fn default() -> (ivf: Self)
        ensures
            ivf@.partitions == Map::<PartitionId, PartitionView>::empty(),
            ivf@.centroids == Seq::<(PartitionId, Seq<u32>)>::empty(),
            ivf@.next_partition_id == 0,
    {
        IvfIndex::new()
    }
}

/// The vectors among stored entries are those of the entries that are no deletions, each with its
/// document: none of them is lost, none comes from elsewhere, and they keep their order.
pub proof fn law_stored_vectors_are_values(
    entries: Seq<(LsmKey, Option<Seq<u8>>)>,
    more: Seq<(LsmKey, Option<Seq<u8>>)>,
    doc_id: u64,
    bytes: Seq<u8>,
)
    ensures
        stored_vectors(entries).contains((doc_id, bytes)) <==> exists|i: int|
            0 <= i < entries.len() && (#[trigger] entries[i]).0.doc_id == doc_id && entries[i].1 == Some(bytes),
        stored_vectors(entries + more) == stored_vectors(entries) + stored_vectors(more),
{
    lemma_stored_vector(entries, doc_id, bytes);
    lemma_stored_vectors_joined(entries, more);
}

proof fn lemma_stored_vector(entries: Seq<(LsmKey, Option<Seq<u8>>)>, doc_id: u64, bytes: Seq<u8>)
    ensures
        stored_vectors(entries).contains((doc_id, bytes)) <==> exists|i: int|
            0 <= i < entries.len() && (#[trigger] entries[i]).0.doc_id == doc_id && entries[i].1 == Some(bytes),
    decreases entries.len(),
{
    if entries.len() > 0 {
        let init = entries.drop_last();
        let n = entries.len() - 1;
        let before = stored_vectors(init);
        let out = stored_vectors(entries);
        lemma_stored_vector(init, doc_id, bytes);
        if out.contains((doc_id, bytes)) {
            let k = choose|k: int| 0 <= k < out.len() && out[k] == (doc_id, bytes);
            if k < before.len() {
                assert(before[k] == (doc_id, bytes));
                assert(before.contains((doc_id, bytes)));
                let i = choose|i: int|
                    0 <= i < init.len() && (#[trigger] init[i]).0.doc_id == doc_id && init[i].1 == Some(bytes);
                assert(entries[i] == init[i]);
            } else {
                assert(entries[n].0.doc_id == doc_id);
            }
        }
        if exists|i: int|
            0 <= i < entries.len() && (#[trigger] entries[i]).0.doc_id == doc_id && entries[i].1 == Some(bytes) {
            let i = choose|i: int|
                0 <= i < entries.len() && (#[trigger] entries[i]).0.doc_id == doc_id && entries[i].1 == Some(bytes);
            if i < n {
                assert(init[i] == entries[i]);
                assert(before.contains((doc_id, bytes)));
                let k = choose|k: int| 0 <= k < before.len() && before[k] == (doc_id, bytes);
                assert(out[k] == (doc_id, bytes));
            } else {
                assert(out[out.len() - 1] == (doc_id, bytes));
            }
        }
    }
}

proof fn lemma_stored_vectors_joined(
    entries: Seq<(LsmKey, Option<Seq<u8>>)>,
    more: Seq<(LsmKey, Option<Seq<u8>>)>,
)
    ensures
        stored_vectors(entries + more) == stored_vectors(entries) + stored_vectors(more),
    decreases more.len(),
{
    let all = entries + more;
    if more.len() == 0 {
        assert(all =~= entries);
        assert(stored_vectors(entries) + stored_vectors(more) =~= stored_vectors(entries));
    } else {
        assert(all.drop_last() =~= entries + more.drop_last());
        assert(all.last() == more.last());
        lemma_stored_vectors_joined(entries, more.drop_last());
        assert(stored_vectors(all) =~= stored_vectors(entries) + stored_vectors(more));
    }
}

} // verus!
