//! The storage engine: it coordinates the log, the table in memory, the sorted tables and the
//! manifest.
//!
//! The engine decides; its caller moves the bytes. A write is handed out as a record for the
//! log together with the entries that are applied to memory once the record is written. A
//! read that memory cannot answer asks for blocks of one table after the other. A flush and a
//! compaction hand out the entries of the table that is to be written.

use std::collections::HashSet;

use vstd::prelude::*;

pub use super::io_backend::IoBackendKind;
pub use super::key::{
    LsmKey, LsmValue, NS_DOC, NS_LEXICAL_POSTING, NS_LEXICAL_STATS, NS_META, NS_VEC,
};
pub use super::memtable::MemTable;

use super::compaction::merge_entries;
use crate::text::{decimal4, padded_text};
use super::entry::{entry_bytes, last_value, view_entries, Entry};
use super::key::{key_less, Slot, ValueError};
use super::layers::{
    adds_unseen, all_layers, disk_layers, has_doc, is_layer_scan, is_layered_scan, is_merged, layer_entry,
    read_value, Layer,
};
use super::layers::{lemma_listing_layer, lemma_memory_layer, lemma_scan_extends};
use super::manifest::{describes, max_table_id, real_tables, without_ids, Manifest, SSTableMeta};
use super::memtable::{is_full_listing, latest};
use super::sstable::{
    covers_range, decode_blocks, index_sorted, is_prefix_scan, prefix_high, prefix_low, slot_high, slot_low,
    view_blocks, SSTable,
};
use super::sstable::{keep_last_of_prefix, read_blocks};
use super::wal::{
    after_append, appends, entries_with_lsn, key_with_lsn, max_lsn, recover_log, view_records, wrapping_sum, Wal,
    WalAppend, WalOp, WalOpView, WalRecord, WalRecordView, WalState, WalSync,
};

verus! {

/// The configuration of an engine.
#[derive(Debug)]
pub struct LsmConfig {
    /// The table in memory is flushed once its size is above this.
    pub memtable_max_bytes: u64,
    /// The tables on disk are merged once there are this many.
    pub sstable_compact_threshold: usize,
    /// When the log is synchronised.
    pub wal_sync: WalSync,
    /// Which backend does the input and output.
    pub io_backend: IoBackendKind,
}

impl Clone for LsmConfig {
    fn clone(&self) -> (c: Self)
        ensures
            c == *self,
    {
        LsmConfig {
            memtable_max_bytes: self.memtable_max_bytes,
            sstable_compact_threshold: self.sstable_compact_threshold,
            wal_sync: self.wal_sync.clone(),
            io_backend: self.io_backend,
        }
    }
}

impl Default for LsmConfig {
    fn default() -> (c: Self)
        ensures
            c == (LsmConfig {
                memtable_max_bytes: 67_108_864,
                sstable_compact_threshold: 4,
                wal_sync: WalSync::EveryCommit,
                io_backend: IoBackendKind::AsyncFs,
            }),
    {
        LsmConfig {
            memtable_max_bytes: 67_108_864,
            sstable_compact_threshold: 4,
            wal_sync: WalSync::EveryCommit,
            io_backend: IoBackendKind::AsyncFs,
        }
    }
}

/// A table in memory after a list of entries has been inserted, one after the other.
pub open spec fn insert_all(m: Map<LsmKey, Option<Seq<u8>>>, es: Seq<Entry>) -> Map<LsmKey, Option<Seq<u8>>>
    decreases es.len(),
{
    if es.len() == 0 {
        m
    } else {
        insert_all(m, es.drop_last()).insert(es.last().0, es.last().1)
    }
}

/// The estimated size of a table in memory after a list of entries has been inserted.
pub open spec fn bytes_after(bytes: u64, es: Seq<Entry>) -> u64
    decreases es.len(),
{
    if es.len() == 0 {
        bytes
    } else {
        wrapping_sum(bytes_after(bytes, es.drop_last()) as nat, entry_bytes(es.last()).len())
    }
}

/// What replaying a record inserts. Deletions are of documents in partition 0.
pub open spec fn record_entries(rec: WalRecordView) -> Seq<Entry> {
    match rec.op {
        WalOpView::Put { key, value } => seq![(key, value)],
        WalOpView::BatchPut { entries } => entries_with_lsn(entries, rec.lsn),
        WalOpView::Delete { namespace, doc_id } => seq![
            (LsmKey { namespace, partition_or_segment: 0, doc_id, lsn: rec.lsn }, None::<Seq<u8>>),
        ],
        WalOpView::PartitionSplit { .. } => Seq::empty(),
        WalOpView::Checkpoint { .. } => Seq::empty(),
    }
}

/// What replaying a list of records inserts.
pub open spec fn replay_entries(records: Seq<WalRecordView>) -> Seq<Entry>
    decreases records.len(),
{
    if records.len() == 0 {
        Seq::empty()
    } else {
        replay_entries(records.drop_last()) + record_entries(records.last())
    }
}

/// The sequence number of the last checkpoint among the records; `known` if there is none.
pub open spec fn last_checkpoint(records: Seq<WalRecordView>, known: u64) -> u64
    decreases records.len(),
{
    if records.len() == 0 {
        known
    } else if let WalOpView::Checkpoint { last_applied_lsn } = records.last().op {
        last_applied_lsn
    } else {
        last_checkpoint(records.drop_last(), known)
    }
}

/// The state of an engine.
pub struct EngineState {
    pub mem: Map<LsmKey, Option<Seq<u8>>>,
    pub mem_bytes: u64,
    pub flushing: Option<Map<LsmKey, Option<Seq<u8>>>>,
    pub tables: Seq<SSTable>,
    pub wal: WalState,
    pub config: LsmConfig,
    pub next_sstable_id: u64,
    pub dir: Seq<char>,
    pub manifest: Manifest,
}

/// The storage engine.
pub struct LsmEngine {
    memtable: MemTable,
    flushing: Option<MemTable>,
    sstables: Vec<SSTable>,
    wal: Wal,
    config: LsmConfig,
    next_sstable_id: u64,
    dir: String,
    manifest: Manifest,
}

impl View for LsmEngine {
    type V = EngineState;

    closed spec fn view(&self) -> EngineState {
        EngineState {
            mem: self.memtable@,
            mem_bytes: self.memtable.spec_bytes(),
            flushing: match self.flushing {
                Some(f) => Some(f@),
                None => None,
            },
            tables: self.sstables@,
            wal: self.wal@,
            config: self.config,
            next_sstable_id: self.next_sstable_id,
            dir: self.dir@,
            manifest: self.manifest,
        }
    }
}

/// A write whose record is to be written before it takes effect.
pub struct PendingWrite {
    /// The record for the log.
    pub append: WalAppend,
    /// The entries that are applied to memory, carrying the sequence number of the record.
    pub entries: Vec<(LsmKey, LsmValue)>,
    /// What is added to the size of the table in memory when it is held against the limit.
    pub extra_bytes: u64,
}

/// What a batch of writes asks for.
pub enum BatchStep {
    /// Nothing is to be written; the next write will get this sequence number.
    Nothing { next_lsn: u64 },
    /// The batch is to be written as one record.
    Write(PendingWrite),
}

/// How a read goes on.
pub enum GetStep {
    /// The slot was found.
    Found(LsmValue),
    /// The slot is nowhere.
    Missing,
    /// The blocks from `first` up to `end` of a table have to be read.
    Read { table: usize, first: usize, end: usize },
}

/// A table in memory that is to be written to disk.
pub struct FlushJob {
    /// The id of the new table.
    pub id: u64,
    /// The name of its file.
    pub file_name: String,
    /// Its entries, in ascending order.
    pub entries: Vec<(LsmKey, LsmValue)>,
}

/// The name of the file of a table.
pub open spec fn table_name(id: u64) -> Seq<char> {
    "sstable-"@ + decimal4(id as nat) + ".bin"@
}

/// The name of the file of a table.
pub fn table_file_name(id: u64) -> (name: String)
    ensures
        name@ == table_name(id),
{
    let mut name = "sstable-".to_string();
    name.append(padded_text(id).as_str());
    name.append(".bin");
    name
}

/// Copies of entries, carrying the given sequence number.
fn with_lsn(entries: &Vec<(LsmKey, LsmValue)>, lsn: u64) -> (out: Vec<(LsmKey, LsmValue)>)
    ensures
        view_entries(out@) == entries_with_lsn(view_entries(entries@), lsn),
{
    let mut out: Vec<(LsmKey, LsmValue)> = Vec::new();
    let mut i: usize = 0;
    while i < entries.len()
        invariant
            i <= entries@.len(),
            out@.len() == i,
            forall|j: int|
                0 <= j < i ==> (#[trigger] out@[j]).0 == key_with_lsn(entries@[j].0, lsn) && out@[j].1@
                    == entries@[j].1@,
        decreases entries@.len() - i,
    {
        let k = entries[i].0;
        let key = LsmKey {
            namespace: k.namespace,
            partition_or_segment: k.partition_or_segment,
            doc_id: k.doc_id,
            lsn,
        };
        out.push((key, entries[i].1.clone()));
        i = i + 1;
    }
    assert(view_entries(out@) =~= entries_with_lsn(view_entries(entries@), lsn));
    out
}

/// Inserts entries one after the other.
fn insert_entries(t: &mut MemTable, entries: &Vec<(LsmKey, LsmValue)>)
    ensures
        final(t)@ == insert_all(old(t)@, view_entries(entries@)),
        final(t).spec_bytes() == bytes_after(old(t).spec_bytes(), view_entries(entries@)),
{
    let ghost es = view_entries(entries@);
    let mut i: usize = 0;
    assert(es.take(0) =~= Seq::<Entry>::empty());
    while i < entries.len()
        invariant
            i <= entries@.len(),
            es == view_entries(entries@),
            t@ == insert_all(old(t)@, es.take(i as int)),
            t.spec_bytes() == bytes_after(old(t).spec_bytes(), es.take(i as int)),
        decreases entries@.len() - i,
    {
        t.insert(entries[i].0, entries[i].1.clone());
        proof {
            let e = es[i as int];
            assert(es.take(i + 1).drop_last() =~= es.take(i as int));
            assert(es.take(i + 1).last() == e);
            super::key::lemma_key_bytes_len(e.0);
            assert(entry_bytes(e).len() == 21 + super::key::value_bytes(e.1).len());
        }
        i = i + 1;
    }
    assert(es.take(i as int) =~= es);
}

/// Applies a record to the table in memory.
fn replay_record(t: &mut MemTable, rec: &WalRecord)
    ensures
        final(t)@ == insert_all(old(t)@, record_entries(rec@)),
        final(t).spec_bytes() == bytes_after(old(t).spec_bytes(), record_entries(rec@)),
{
    match &rec.op {
        WalOp::Put { key, value } => {
            let mut entries: Vec<(LsmKey, LsmValue)> = Vec::new();
            entries.push((*key, value.clone()));
            assert(view_entries(entries@) =~= record_entries(rec@));
            insert_entries(t, &entries);
        },
        WalOp::BatchPut { entries } => {
            let stamped_entries = with_lsn(entries, rec.lsn);
            insert_entries(t, &stamped_entries);
        },
        WalOp::Delete { namespace, doc_id } => {
            let mut entries: Vec<(LsmKey, LsmValue)> = Vec::new();
            let key = LsmKey { namespace: *namespace, partition_or_segment: 0, doc_id: *doc_id, lsn: rec.lsn };
            entries.push((key, LsmValue::Tombstone));
            assert(view_entries(entries@) =~= record_entries(rec@));
            insert_entries(t, &entries);
        },
        WalOp::PartitionSplit { .. } => {},
        WalOp::Checkpoint { .. } => {},
    }
}

/// Inserting a concatenation is inserting one part after the other.
pub proof fn lemma_insert_all_concat(m: Map<LsmKey, Option<Seq<u8>>>, bytes: u64, a: Seq<Entry>, b: Seq<Entry>)
    ensures
        insert_all(m, a + b) == insert_all(insert_all(m, a), b),
        bytes_after(bytes, a + b) == bytes_after(bytes_after(bytes, a), b),
    decreases b.len(),
{
    if b.len() == 0 {
        assert(a + b =~= a);
    } else {
        assert((a + b).drop_last() =~= a + b.drop_last());
        lemma_insert_all_concat(m, bytes, a, b.drop_last());
    }
}

/// The entries of the blocks of each table, or the first error, the newest table being read
/// first. Tables are listed from the oldest to the newest.
pub open spec fn decode_tables(tables: Seq<Seq<Seq<u8>>>) -> Result<Seq<Seq<Entry>>, ValueError>
    decreases tables.len(),
{
    if tables.len() == 0 {
        Ok(Seq::empty())
    } else {
        match decode_blocks(tables.last()) {
            Err(e) => Err(e),
            Ok(es) => match decode_tables(tables.drop_last()) {
                Err(e) => Err(e),
                Ok(rest) => Ok(rest.push(es)),
            },
        }
    }
}

/// The contents of the blocks of each table.
pub open spec fn view_tables(tables: Seq<Vec<Vec<u8>>>) -> Seq<Seq<Seq<u8>>> {
    Seq::new(tables.len(), |i: int| view_blocks(tables[i]@))
}

/// How a read goes on with the tables below number `n`: with the blocks of the newest of them,
/// or not at all.
pub open spec fn reads_below(step: GetStep, tables: Seq<SSTable>, n: int, slot: Slot) -> bool {
    if n == 0 {
        step is Missing
    } else {
        let t = tables[n - 1];
        step matches GetStep::Read { table, first, end } && table == n - 1 && first <= end <= t.index@.len() && (
        index_sorted(t.index@) ==> covers_range(
            t.index@,
            t.min_key,
            t.max_key,
            slot_low(slot),
            slot_high(slot),
            first as int,
            end as int,
        ))
    }
}

/// What memory says of a slot.
pub open spec fn memory_value(s: EngineState, slot: Slot) -> Option<Option<Seq<u8>>> {
    if latest(s.mem, slot) is Some {
        latest(s.mem, slot)
    } else {
        match s.flushing {
            Some(f) => latest(f, slot),
            None => None,
        }
    }
}

/// The number of bytes that a list of entries takes, as the table in memory estimates it.
fn batch_bytes(entries: &Vec<(LsmKey, LsmValue)>) -> (n: u64)
    ensures
        n == bytes_after(0, view_entries(entries@)),
{
    broadcast use crate::bytes::lemma_be_bytes_len;

    let ghost es = view_entries(entries@);
    let mut n: u64 = 0;
    let mut i: usize = 0;
    assert(es.take(0) =~= Seq::<Entry>::empty());
    while i < entries.len()
        invariant
            i <= entries@.len(),
            es == view_entries(entries@),
            n == bytes_after(0, es.take(i as int)),
        decreases entries@.len() - i,
    {
        broadcast use crate::bytes::lemma_be_bytes_len;

        let value_len: u64 = match &entries[i].1 {
            LsmValue::Data(b) => (b.len() as u64).wrapping_add(5),
            LsmValue::Tombstone => 1,
        };
        proof {
            let e = es[i as int];
            assert(es.take(i + 1).drop_last() =~= es.take(i as int));
            assert(es.take(i + 1).last() == e);
            super::key::lemma_key_bytes_len(e.0);
        }
        n = n.wrapping_add(value_len.wrapping_add(21));
        i = i + 1;
    }
    assert(es.take(i as int) =~= es);
    n
}

/// Adds to a scan what a further layer says of documents that were not seen yet.
fn add_layer(out: &mut Vec<(LsmKey, LsmValue)>, seen: &mut HashSet<u64>, scan: &Vec<(LsmKey, LsmValue)>)
    requires
        forall|d: u64| #[trigger] old(seen)@.contains(d) <==> has_doc(view_entries(old(out)@), d),
        super::entry::entries_sorted(view_entries(scan@)),
        forall|x: int, y: int|
            0 <= x < y < scan@.len() ==> (#[trigger] scan@[x]).0.doc_id != (#[trigger] scan@[y]).0.doc_id,
    ensures
        forall|d: u64| #[trigger] final(seen)@.contains(d) <==> has_doc(view_entries(final(out)@), d),
        adds_unseen(view_entries(final(out)@), view_entries(old(out)@), view_entries(scan@)),
{
    broadcast use vstd::std_specs::hash::group_hash_axioms;

    let ghost acc = view_entries(out@);
    let ghost sc = view_entries(scan@);
    let mut i: usize = 0;
    while i < scan.len()
        invariant
            i <= scan@.len(),
            sc == view_entries(scan@),
            super::entry::entries_sorted(sc),
            forall|x: int, y: int|
                0 <= x < y < scan@.len() ==> (#[trigger] scan@[x]).0.doc_id != (#[trigger] scan@[y]).0.doc_id,
            forall|d: u64| #[trigger] seen@.contains(d) <==> has_doc(view_entries(out@), d),
            acc.len() <= out@.len(),
            forall|x: int| 0 <= x < acc.len() ==> (#[trigger] view_entries(out@)[x]) == acc[x],
            forall|x: int|
                acc.len() <= x < out@.len() ==> sc.take(i as int).contains(#[trigger] view_entries(out@)[x])
                    && !has_doc(acc, view_entries(out@)[x].0.doc_id),
            forall|x: int, y: int|
                acc.len() <= x < y < out@.len() ==> key_less(
                    (#[trigger] view_entries(out@)[x]).0,
                    (#[trigger] view_entries(out@)[y]).0,
                ),
            forall|z: int|
                0 <= z < i ==> has_doc(acc, (#[trigger] sc[z]).0.doc_id) || view_entries(out@).contains(sc[z]),
        decreases scan@.len() - i,
    {
        broadcast use vstd::std_specs::hash::group_hash_axioms;

        let key = scan[i].0;
        let ghost before = out@;
        let ghost old_seen = seen@;
        let fresh: bool = seen.insert(key.doc_id);
        proof {
            assert(sc[i as int].0 == key);
            assert(fresh == !has_doc(view_entries(before), key.doc_id));
            assert forall|x: int| acc.len() <= x < before.len() implies sc.take(i + 1).contains(
                #[trigger] view_entries(before)[x],
            ) by {
                let e = view_entries(before)[x];
                assert(sc.take(i as int).contains(e));
                let z = choose|z: int| 0 <= z < i && sc.take(i as int)[z] == e;
                assert(sc.take(i + 1)[z] == e);
            }
        }
        if fresh {
            let value = scan[i].1.clone();
            out.push((key, value));
            proof {
                let n = before.len() as int;
                assert(view_entries(out@) =~= view_entries(before).push(sc[i as int]));
                assert(sc.take(i + 1)[i as int] == sc[i as int]);
                assert(view_entries(out@)[n].0.doc_id == key.doc_id);
                if has_doc(acc, key.doc_id) {
                    let x = choose|x: int| 0 <= x < acc.len() && (#[trigger] acc[x]).0.doc_id == key.doc_id;
                    assert(view_entries(before)[x].0.doc_id == key.doc_id);
                }
                assert forall|x: int| acc.len() <= x < n implies key_less(
                    (#[trigger] view_entries(out@)[x]).0,
                    view_entries(out@)[n].0,
                ) by {
                    let e = view_entries(before)[x];
                    assert(view_entries(out@)[x] == e);
                    assert(sc.take(i as int).contains(e));
                    let z = choose|z: int| 0 <= z < i && sc.take(i as int)[z] == e;
                    assert(sc[z] == e);
                    assert(key_less(sc[z].0, sc[i as int].0));
                }
                assert forall|d: u64| #[trigger] seen@.contains(d) <==> has_doc(view_entries(out@), d) by {
                    if has_doc(view_entries(before), d) {
                        let x = choose|x: int|
                            0 <= x < before.len() && (#[trigger] view_entries(before)[x]).0.doc_id == d;
                        assert(view_entries(out@)[x].0.doc_id == d);
                    }
                    if has_doc(view_entries(out@), d) && d != key.doc_id {
                        let x = choose|x: int|
                            0 <= x < out@.len() && (#[trigger] view_entries(out@)[x]).0.doc_id == d;
                        assert(view_entries(before)[x].0.doc_id == d);
                    }
                }
                assert forall|z: int| 0 <= z < i + 1 implies has_doc(acc, (#[trigger] sc[z]).0.doc_id) || view_entries(
                    out@,
                ).contains(sc[z]) by {
                    if z < i && !has_doc(acc, sc[z].0.doc_id) {
                        let x = choose|x: int| 0 <= x < before.len() && view_entries(before)[x] == sc[z];
                        assert(view_entries(out@)[x] == sc[z]);
                    } else if z == i {
                        assert(view_entries(out@)[n] == sc[z]);
                    }
                }
            }
        } else {
            proof {
                assert(seen@ =~= old_seen);
                let x = choose|x: int|
                    0 <= x < before.len() && (#[trigger] view_entries(before)[x]).0.doc_id == key.doc_id;
                if x < acc.len() {
                    assert(acc[x].0.doc_id == key.doc_id);
                } else {
                    let e = view_entries(before)[x];
                    assert(sc.take(i as int).contains(e));
                    let z = choose|z: int| 0 <= z < i && sc.take(i as int)[z] == e;
                    assert(scan@[z].0 == e.0);
                    assert(scan@[z].0.doc_id != scan@[i as int].0.doc_id);
                }
            }
        }
        i = i + 1;
    }
    proof {
        let result = view_entries(out@);
        assert forall|x: int| acc.len() <= x < result.len() implies sc.contains(#[trigger] result[x]) && !has_doc(
            acc,
            result[x].0.doc_id,
        ) by {
            assert(sc.take(i as int).contains(result[x]));
            assert(sc.take(i as int) =~= sc);
        }
    }
}

/// A scan of a list of entries that covers a partition is a scan of any layer that says the
/// same of the partition's slots.
proof fn lemma_layer_scan(scan: Seq<Entry>, es: Seq<Entry>, layer: Layer, ns: u8, partition: u32)
    requires
        is_prefix_scan(scan, es, ns, partition),
        forall|slot: Slot|
            slot.namespace == ns && slot.partition == partition ==> #[trigger] super::entry::last_entry(es, slot)
                == layer_entry(layer, slot),
    ensures
        is_layer_scan(scan, layer, ns, partition),
        forall|x: int, y: int|
            0 <= x < y < scan.len() ==> (#[trigger] scan[x]).0.doc_id != (#[trigger] scan[y]).0.doc_id,
{
    assert forall|x: int| 0 <= x < scan.len() implies super::sstable::in_prefix(
        (#[trigger] scan[x]).0,
        ns,
        partition,
    ) && layer_entry(layer, scan[x].0.spec_slot()) == Some(scan[x]) by {
        assert(super::entry::last_entry(es, scan[x].0.spec_slot()) == Some(scan[x]));
    }
    assert forall|slot: Slot|
        slot.namespace == ns && slot.partition == partition && (#[trigger] layer_entry(layer, slot))
            is Some implies scan.contains(layer_entry(layer, slot)->0) by {
        assert(super::entry::last_entry(es, slot) == layer_entry(layer, slot));
    }
    assert forall|x: int, y: int| 0 <= x < y < scan.len() implies (#[trigger] scan[x]).0.doc_id != (
    #[trigger] scan[y]).0.doc_id by {
        assert(super::entry::last_entry(es, scan[x].0.spec_slot()) == Some(scan[x]));
        assert(super::entry::last_entry(es, scan[y].0.spec_slot()) == Some(scan[y]));
        assert(key_less(scan[x].0, scan[y].0));
        if scan[x].0.doc_id == scan[y].0.doc_id {
            assert(scan[x].0.spec_slot() == scan[y].0.spec_slot());
        }
    }
}

/// Scans a table in memory and adds what it says of documents that were not seen yet.
fn add_memory_layer(
    out: &mut Vec<(LsmKey, LsmValue)>,
    seen: &mut HashSet<u64>,
    t: &MemTable,
    ns: u8,
    partition: u32,
    layers: Ghost<Seq<Layer>>,
)
    requires
        forall|d: u64| #[trigger] old(seen)@.contains(d) <==> has_doc(view_entries(old(out)@), d),
        is_layered_scan(view_entries(old(out)@), layers@, ns, partition),
    ensures
        forall|d: u64| #[trigger] final(seen)@.contains(d) <==> has_doc(view_entries(final(out)@), d),
        is_layered_scan(view_entries(final(out)@), layers@.push(Layer::Memory(t@)), ns, partition),
{
    let listing = t.range_scan(ns, partition);
    let scan = keep_last_of_prefix(&listing, ns, partition);
    proof {
        let es = view_entries(listing@);
        let layer = Layer::Memory(t@);
        assert forall|slot: Slot|
            slot.namespace == ns && slot.partition == partition implies #[trigger] super::entry::last_entry(es, slot)
            == layer_entry(layer, slot) by {
            lemma_listing_layer(es, t@, prefix_low(ns, partition), prefix_high(ns, partition), slot);
        }
        lemma_layer_scan(view_entries(scan@), es, layer, ns, partition);
        assert forall|x: int, y: int| 0 <= x < y < scan@.len() implies (#[trigger] scan@[x]).0.doc_id != (
        #[trigger] scan@[y]).0.doc_id by {
            assert(view_entries(scan@)[x].0.doc_id != view_entries(scan@)[y].0.doc_id);
        }
    }
    let ghost acc = view_entries(out@);
    add_layer(out, seen, &scan);
    proof {
        lemma_scan_extends(
            view_entries(out@),
            acc,
            view_entries(scan@),
            layers@,
            Layer::Memory(t@),
            ns,
            partition,
        );
    }
}

/// Scans the entries of a table on disk and adds what they say of documents that were not seen
/// yet.
fn add_disk_layer(
    out: &mut Vec<(LsmKey, LsmValue)>,
    seen: &mut HashSet<u64>,
    entries: &Vec<(LsmKey, LsmValue)>,
    ns: u8,
    partition: u32,
    layers: Ghost<Seq<Layer>>,
)
    requires
        forall|d: u64| #[trigger] old(seen)@.contains(d) <==> has_doc(view_entries(old(out)@), d),
        is_layered_scan(view_entries(old(out)@), layers@, ns, partition),
    ensures
        forall|d: u64| #[trigger] final(seen)@.contains(d) <==> has_doc(view_entries(final(out)@), d),
        is_layered_scan(
            view_entries(final(out)@),
            layers@.push(Layer::Disk(view_entries(entries@))),
            ns,
            partition,
        ),
{
    let scan = keep_last_of_prefix(entries, ns, partition);
    proof {
        let es = view_entries(entries@);
        lemma_layer_scan(view_entries(scan@), es, Layer::Disk(es), ns, partition);
        assert forall|x: int, y: int| 0 <= x < y < scan@.len() implies (#[trigger] scan@[x]).0.doc_id != (
        #[trigger] scan@[y]).0.doc_id by {
            assert(view_entries(scan@)[x].0.doc_id != view_entries(scan@)[y].0.doc_id);
        }
    }
    let ghost acc = view_entries(out@);
    add_layer(out, seen, &scan);
    proof {
        lemma_scan_extends(
            view_entries(out@),
            acc,
            view_entries(scan@),
            layers@,
            Layer::Disk(view_entries(entries@)),
            ns,
            partition,
        );
    }
}

proof fn lemma_decode_tables_suffix(tables: Seq<Seq<Seq<u8>>>, n: int, done: Seq<Seq<Entry>>)
    requires
        0 <= n <= tables.len(),
        done.len() == tables.len() - n,
        forall|i: int|
            0 <= i < done.len() ==> decode_blocks(tables[n + i]) == Ok::<Seq<Entry>, ValueError>(#[trigger] done[i]),
    ensures
        match decode_tables(tables.take(n)) {
            Err(e) => decode_tables(tables) == Err::<Seq<Seq<Entry>>, ValueError>(e),
            Ok(rest) => decode_tables(tables) == Ok::<Seq<Seq<Entry>>, ValueError>(rest + done),
        },
    decreases done.len(),
{
    if done.len() == 0 {
        assert(tables.take(n) =~= tables);
        if let Ok(rest) = decode_tables(tables) {
            assert(rest + done =~= rest);
        }
    } else {
        let init = tables.drop_last();
        assert(tables.last() == tables[n + (done.len() - 1)]);
        assert(done[done.len() - 1] == done.last());
        assert forall|i: int| 0 <= i < done.drop_last().len() implies decode_blocks(init[n + i]) == Ok::<
            Seq<Entry>,
            ValueError,
        >(#[trigger] done.drop_last()[i]) by {
            assert(done.drop_last()[i] == done[i]);
            assert(init[n + i] == tables[n + i]);
        }
        assert(init.take(n) =~= tables.take(n));
        lemma_decode_tables_suffix(init, n, done.drop_last());
        if let Ok(rest) = decode_tables(tables.take(n)) {
            assert((rest + done.drop_last()).push(done.last()) =~= rest + done);
        }
    }
}

impl LsmEngine {
    /// An engine over an opened log, a manifest and the tables that the manifest lists: the
    /// contents of the log are replayed into memory.
    pub fn open(
        dir: String,
        config: LsmConfig,
        wal: Wal,
        manifest: Manifest,
        sstables: Vec<SSTable>,
        log: &[u8],
    ) -> (engine: Self)
        ensures
            ({
                let records = recover_log(log@);
                let entries = replay_entries(records);
                let s = engine@;
                &&& s.mem == insert_all(Map::empty(), entries)
                &&& s.mem_bytes == bytes_after(0, entries)
                &&& s.flushing is None
                &&& s.tables == sstables@
                &&& log@.len() == 0 ==> s.wal == wal@
                &&& log@.len() > 0 ==> s.wal == (WalState {
                    next_lsn: wrapping_sum(max_lsn(records) as nat, 1),
                    ..wal@
                })
                &&& s.config == config
                &&& s.next_sstable_id == max_table_id(manifest.sstables@) + 1
                &&& forall|i: int|
                    0 <= i < manifest.sstables@.len() ==> (#[trigger] manifest.sstables@[i]).id < s.next_sstable_id
                &&& s.dir == dir@
                &&& s.manifest == (Manifest {
                    last_checkpoint_lsn: last_checkpoint(records, manifest.last_checkpoint_lsn),
                    ..manifest
                })
            }),
    {
        let mut wal = wal;
        let mut manifest = manifest;
        let ghost known = manifest;
        let records = wal.recover(log);
        let next_sstable_id: u64 = manifest.max_sstable_id() as u64 + 1;
        let mut memtable = MemTable::new();
        let ghost all = view_records(records@);
        let mut i: usize = 0;
        assert(all.take(0) =~= Seq::<WalRecordView>::empty());
        while i < records.len()
            invariant
                i <= records@.len(),
                all == view_records(records@),
                memtable@ == insert_all(Map::empty(), replay_entries(all.take(i as int))),
                memtable.spec_bytes() == bytes_after(0, replay_entries(all.take(i as int))),
                manifest == (Manifest {
                    last_checkpoint_lsn: last_checkpoint(all.take(i as int), known.last_checkpoint_lsn),
                    ..known
                }),
            decreases records@.len() - i,
        {
            proof {
                assert(all.take(i + 1).drop_last() =~= all.take(i as int));
                assert(all.take(i + 1).last() == records@[i as int]@);
                lemma_insert_all_concat(
                    Map::empty(),
                    0,
                    replay_entries(all.take(i as int)),
                    record_entries(records@[i as int]@),
                );
            }
            replay_record(&mut memtable, &records[i]);
            match &records[i].op {
                WalOp::Checkpoint { last_applied_lsn } => {
                    manifest.last_checkpoint_lsn = *last_applied_lsn;
                },
                _ => {},
            }
            i = i + 1;
        }
        assert(all.take(i as int) =~= all);
        LsmEngine { memtable, flushing: None, sstables, wal, config, next_sstable_id, dir, manifest }
    }

    /// Inserts or updates an entry: hands out its record. The key gets the sequence number of
    /// the record.
    pub fn put(&mut self, key: LsmKey, value: LsmValue) -> (w: PendingWrite)
        ensures
            appends(old(self)@.wal, WalOpView::Put { key, value: value@ }, w.append),
            view_entries(w.entries@) == seq![(key_with_lsn(key, w.append.lsn), value@)],
            w.extra_bytes == 0,
            final(self)@ == (EngineState {
                wal: after_append(old(self)@.wal, w.append.record@.len()),
                ..old(self)@
            }),
    {
        let kept = value.clone();
        let append = self.wal.append(WalOp::Put { key, value });
        let stamped_key = LsmKey {
            namespace: key.namespace,
            partition_or_segment: key.partition_or_segment,
            doc_id: key.doc_id,
            lsn: append.lsn,
        };
        let mut entries: Vec<(LsmKey, LsmValue)> = Vec::new();
        entries.push((stamped_key, kept));
        assert(view_entries(entries@) =~= seq![(key_with_lsn(key, append.lsn), value@)]);
        PendingWrite { append, entries, extra_bytes: 0 }
    }

    /// Inserts or updates many entries: hands out one record for all of them. They share its
    /// sequence number. An empty batch asks for nothing.
    pub fn batch_put(&mut self, entries: Vec<(LsmKey, LsmValue)>) -> (step: BatchStep)
        ensures
            entries@.len() == 0 ==> final(self)@ == old(self)@ && (step matches BatchStep::Nothing { next_lsn }
                && next_lsn == old(self)@.wal.next_lsn),
            entries@.len() > 0 ==> (step matches BatchStep::Write(w) && appends(
                old(self)@.wal,
                WalOpView::BatchPut { entries: view_entries(entries@) },
                w.append,
            ) && view_entries(w.entries@) == entries_with_lsn(view_entries(entries@), w.append.lsn) && w.extra_bytes
                == bytes_after(0, view_entries(entries@)) && final(self)@ == (EngineState {
                wal: after_append(old(self)@.wal, w.append.record@.len()),
                ..old(self)@
            })),
    {
        if entries.len() == 0 {
            return BatchStep::Nothing { next_lsn: self.wal.next_lsn() };
        }
        let extra_bytes: u64 = batch_bytes(&entries);
        let lsn: u64 = self.wal.next_lsn();
        let stamped_entries = with_lsn(&entries, lsn);
        let append = self.wal.append_batch(entries);
        BatchStep::Write(PendingWrite { append, entries: stamped_entries, extra_bytes })
    }

    /// Deletes a document of a namespace: hands out the record. The deletion is entered in
    /// partition 0.
    pub fn delete(&mut self, namespace: u8, doc_id: u64) -> (w: PendingWrite)
        ensures
            appends(old(self)@.wal, WalOpView::Delete { namespace, doc_id }, w.append),
            view_entries(w.entries@) == seq![
                (LsmKey { namespace, partition_or_segment: 0, doc_id, lsn: w.append.lsn }, None::<Seq<u8>>),
            ],
            w.extra_bytes == 0,
            final(self)@ == (EngineState {
                wal: after_append(old(self)@.wal, w.append.record@.len()),
                ..old(self)@
            }),
    {
        let append = self.wal.append(WalOp::Delete { namespace, doc_id });
        let key = LsmKey { namespace, partition_or_segment: 0, doc_id, lsn: append.lsn };
        let mut entries: Vec<(LsmKey, LsmValue)> = Vec::new();
        entries.push((key, LsmValue::Tombstone));
        assert(view_entries(entries@) =~= seq![(key, None::<Seq<u8>>)]);
        PendingWrite { append, entries, extra_bytes: 0 }
    }

    /// Applies a write whose record has been written. Says whether the table in memory is now
    /// so large that it is to be flushed.
    pub fn apply(&mut self, entries: &Vec<(LsmKey, LsmValue)>, extra_bytes: u64) -> (flush: bool)
        ensures
            final(self)@ == (EngineState {
                mem: insert_all(old(self)@.mem, view_entries(entries@)),
                mem_bytes: bytes_after(old(self)@.mem_bytes, view_entries(entries@)),
                ..old(self)@
            }),
            flush == (final(self)@.mem_bytes + extra_bytes > old(self)@.config.memtable_max_bytes),
    {
        insert_entries(&mut self.memtable, entries);
        match self.memtable.approx_bytes().checked_add(extra_bytes) {
            Some(n) => n > self.config.memtable_max_bytes,
            None => true,
        }
    }

    /// How a read of a key's slot starts. The sequence number of the key is ignored.
    pub fn begin_get(&self, key: &LsmKey) -> (step: GetStep)
        ensures
            match memory_value(self@, key.spec_slot()) {
                Some(v) => step matches GetStep::Found(value) && value@ == v,
                None => reads_below(step, self@.tables, self@.tables.len() as int, key.spec_slot()),
            },
    {
        if let Some(value) = self.memtable.get(key) {
            return GetStep::Found(value);
        }
        if let Some(f) = &self.flushing {
            if let Some(value) = f.get(key) {
                return GetStep::Found(value);
            }
        }
        self.next_table(key, self.sstables.len())
    }

    /// How a read goes on with the tables below number `n`.
    fn next_table(&self, key: &LsmKey, n: usize) -> (step: GetStep)
        requires
            n <= self@.tables.len(),
        ensures
            reads_below(step, self@.tables, n as int, key.spec_slot()),
    {
        if n == 0 {
            return GetStep::Missing;
        }
        let (first, end): (usize, usize) = self.sstables[n - 1].blocks_for_key(key);
        GetStep::Read { table: n - 1, first, end }
    }

    /// How a read of a key's slot goes on after the blocks of a table have been read.
    pub fn resume_get(&self, key: &LsmKey, table: usize, blocks: &Vec<Vec<u8>>) -> (r: Result<GetStep, ValueError>)
        requires
            table < self@.tables.len(),
        ensures
            match decode_blocks(view_blocks(blocks@)) {
                Err(e) => r matches Err(f) && f == e,
                Ok(es) => r matches Ok(step) && match last_value(es, key.spec_slot()) {
                    Some(v) => step matches GetStep::Found(value) && value@ == v,
                    None => reads_below(step, self@.tables, table as int, key.spec_slot()),
                },
            },
    {
        match self.sstables[table].get(key, blocks) {
            Err(e) => Err(e),
            Ok(Some(value)) => Ok(GetStep::Found(value)),
            Ok(None) => Ok(self.next_table(key, table)),
        }
    }

    /// The blocks that have to be read of a table to scan a partition.
    pub fn blocks_for_prefix(&self, table: usize, ns: u8, partition: u32) -> (r: (usize, usize))
        requires
            table < self@.tables.len(),
        ensures
            ({
                let t = self@.tables[table as int];
                &&& r.0 <= r.1 <= t.index@.len()
                &&& index_sorted(t.index@) ==> covers_range(
                    t.index@,
                    t.min_key,
                    t.max_key,
                    prefix_low(ns, partition),
                    prefix_high(ns, partition),
                    r.0 as int,
                    r.1 as int,
                )
            }),
    {
        self.sstables[table].blocks_for_prefix(ns, partition)
    }

    /// Scans a partition: what reads of its slots see, deletions included. `blocks` holds, for
    /// each table, the blocks that were read of it.
    pub fn scan_prefix(&self, ns: u8, partition: u32, blocks: &Vec<Vec<Vec<u8>>>) -> (r: Result<
        Vec<(LsmKey, LsmValue)>,
        ValueError,
    >)
        ensures
            match decode_tables(view_tables(blocks@)) {
                Err(e) => r matches Err(f) && f == e,
                Ok(tables) => r matches Ok(out) && is_layered_scan(
                    view_entries(out@),
                    all_layers(self@.mem, self@.flushing, tables),
                    ns,
                    partition,
                ),
            },
    {
        broadcast use vstd::std_specs::hash::group_hash_axioms;

        let mut out: Vec<(LsmKey, LsmValue)> = Vec::new();
        let mut seen: HashSet<u64> = HashSet::new();
        let ghost mut layers = Seq::<Layer>::empty();
        assert(is_layered_scan(view_entries(out@), layers, ns, partition));
        add_memory_layer(&mut out, &mut seen, &self.memtable, ns, partition, Ghost(layers));
        proof {
            layers = layers.push(Layer::Memory(self.memtable@));
        }
        if let Some(f) = &self.flushing {
            add_memory_layer(&mut out, &mut seen, f, ns, partition, Ghost(layers));
            proof {
                layers = layers.push(Layer::Memory(f@));
            }
        }
        let ghost memory = layers;
        proof {
            let s = self@;
            match s.flushing {
                Some(f) => {
                    assert(memory =~= seq![Layer::Memory(s.mem), Layer::Memory(f)]);
                },
                None => {
                    assert(memory =~= seq![Layer::Memory(s.mem)]);
                },
            }
        }
        let ghost all = view_tables(blocks@);
        let ghost mut done = Seq::<Seq<Entry>>::empty();
        let mut n: usize = blocks.len();
        assert(memory + disk_layers(done) =~= memory);
        while n > 0
            invariant
                n <= blocks@.len(),
                all == view_tables(blocks@),
                done.len() == blocks@.len() - n,
                forall|i: int|
                    0 <= i < done.len() ==> decode_blocks(all[n + i]) == Ok::<Seq<Entry>, ValueError>(
                        #[trigger] done[i],
                    ),
                forall|d: u64| #[trigger] seen@.contains(d) <==> has_doc(view_entries(out@), d),
                is_layered_scan(view_entries(out@), memory + disk_layers(done), ns, partition),
            decreases n,
        {
            assert(all[n - 1] == view_blocks(blocks@[n - 1]@));
            match read_blocks(&blocks[n - 1]) {
                Err(e) => {
                    proof {
                        lemma_decode_tables_suffix(all, n as int, done);
                        assert(all.take(n as int).last() == all[n - 1]);
                    }
                    return Err(e);
                },
                Ok(entries) => {
                    let ghost es = view_entries(entries@);
                    add_disk_layer(
                        &mut out,
                        &mut seen,
                        &entries,
                        ns,
                        partition,
                        Ghost(memory + disk_layers(done)),
                    );
                    proof {
                        let next = seq![es] + done;
                        assert(disk_layers(next) =~= disk_layers(done).push(Layer::Disk(es)));
                        assert((memory + disk_layers(done)).push(Layer::Disk(es)) =~= memory + disk_layers(next));
                        assert forall|i: int| 0 <= i < next.len() implies decode_blocks(all[(n - 1) + i]) == Ok::<
                            Seq<Entry>,
                            ValueError,
                        >(#[trigger] next[i]) by {
                            if i > 0 {
                                assert(next[i] == done[i - 1]);
                                assert(all[n + (i - 1)] == all[(n - 1) + i]);
                            }
                        }
                        done = next;
                    }
                },
            }
            n = n - 1;
        }
        proof {
            lemma_decode_tables_suffix(all, 0, done);
            assert(all.take(0) =~= Seq::<Seq<Seq<u8>>>::empty());
            assert(Seq::<Seq<Entry>>::empty() + done =~= done);
        }
        Ok(out)
    }

    /// Sets the table in memory aside to be flushed, and hands out its entries. If it holds
    /// nothing, nothing happens.
    pub fn begin_flush(&mut self) -> (job: Option<FlushJob>)
        ensures
            old(self)@.mem == Map::<LsmKey, Option<Seq<u8>>>::empty() ==> job is None && final(self)@ == old(self)@,
            old(self)@.mem != Map::<LsmKey, Option<Seq<u8>>>::empty() ==> (job matches Some(j) && j.id
                == old(self)@.next_sstable_id && j.file_name@ == table_name(j.id) && is_full_listing(
                view_entries(j.entries@),
                old(self)@.mem,
            ) && final(self)@ == (EngineState {
                mem: Map::empty(),
                mem_bytes: 0,
                flushing: Some(old(self)@.mem),
                next_sstable_id: wrapping_sum(old(self)@.next_sstable_id as nat, 1),
                ..old(self)@
            })),
    {
        if self.memtable.is_empty() {
            return None;
        }
        let mut aside = MemTable::new();
        std::mem::swap(&mut aside, &mut self.memtable);
        let id: u64 = self.take_sstable_id();
        let entries = aside.iter();
        self.flushing = Some(aside);
        Some(FlushJob { id, file_name: table_file_name(id), entries })
    }

    /// Enters a table that was flushed in the manifest.
    pub fn record_table(&mut self, table: &SSTable, now: u64)
        ensures
            exists|meta: SSTableMeta| #[trigger]
                describes(meta, *table) && final(self)@.manifest.sstables@ == old(self)@.manifest.sstables@.push(meta),
            final(self)@.manifest.updated_at == now,
            final(self)@.manifest.same_but_tables(old(self)@.manifest),
            final(self)@ == (EngineState { manifest: final(self)@.manifest, ..old(self)@ }),
    {
        let meta = SSTableMeta::of(table);
        let ghost m = meta;
        self.manifest.add_sstable(meta, now);
        assert(describes(m, *table));
    }

    /// The flushed table is on disk: it takes the place of the one that was set aside. Says
    /// whether the tables on disk are now so many that they are to be merged.
    pub fn finish_flush(&mut self, table: SSTable) -> (compact: bool)
        ensures
            final(self)@ == (EngineState { tables: old(self)@.tables.push(table), flushing: None, ..old(self)@ }),
            compact == (old(self)@.tables.len() + 1 >= old(self)@.config.sstable_compact_threshold),
    {
        self.sstables.push(table);
        self.flushing = None;
        self.compaction_due()
    }

    /// Whether the tables on disk are so many that they are to be merged.
    pub fn compaction_due(&self) -> (r: bool)
        ensures
            r == (self@.tables.len() >= self@.config.sstable_compact_threshold),
    {
        self.sstables.len() >= self.config.sstable_compact_threshold
    }

    /// Merges all entries of the tables on disk, given from the oldest table to the newest, and
    /// hands out the table that is to be written. If nothing is left, there is none.
    pub fn begin_compaction(&mut self, all: &Vec<(LsmKey, LsmValue)>) -> (job: Option<FlushJob>)
        ensures
            all@.len() == 0 ==> job is None && final(self)@ == old(self)@,
            all@.len() > 0 ==> final(self)@ == (EngineState {
                next_sstable_id: wrapping_sum(old(self)@.next_sstable_id as nat, 1),
                ..old(self)@
            }),
            job matches Some(j) ==> j.id == old(self)@.next_sstable_id && j.file_name@ == table_name(j.id) && is_merged(
                view_entries(j.entries@),
                view_entries(all@),
            ) && j.entries@.len() > 0,
            job is None ==> is_merged(Seq::empty(), view_entries(all@)),
    {
        if all.len() == 0 {
            assert(is_merged(Seq::empty(), view_entries(all@))) by {
                let es = view_entries(all@);
                assert forall|slot: Slot| (#[trigger] super::layers::newest_entry(es, slot)) is None by {}
            }
            return None;
        }
        let id: u64 = self.take_sstable_id();
        let entries = merge_entries(all);
        if entries.len() == 0 {
            assert(view_entries(entries@) =~= Seq::<Entry>::empty());
            return None;
        }
        Some(FlushJob { id, file_name: table_file_name(id), entries })
    }

    /// The merged table takes the place of all tables. The manifest no longer lists the tables
    /// with the given ids.
    pub fn install_compaction(&mut self, ids: Vec<u32>, merged: Option<SSTable>, now: u64)
        ensures
            merged matches Some(t) ==> final(self)@.tables == seq![t] && exists|meta: SSTableMeta| #[trigger]
                describes(meta, t) && final(self)@.manifest.sstables@ == without_ids(
                    old(self)@.manifest.sstables@,
                    ids@,
                ).push(meta),
            merged is None ==> final(self)@.tables == Seq::<SSTable>::empty() && final(self)@.manifest.sstables@
                == real_tables(without_ids(old(self)@.manifest.sstables@, ids@)),
            final(self)@.manifest.updated_at == now,
            final(self)@.manifest.same_but_tables(old(self)@.manifest),
            final(self)@ == (EngineState {
                tables: final(self)@.tables,
                manifest: final(self)@.manifest,
                ..old(self)@
            }),
    {
        let mut tables: Vec<SSTable> = Vec::new();
        match merged {
            Some(table) => {
                let meta = SSTableMeta::of(&table);
                let ghost m = meta;
                assert(describes(m, table));
                tables.push(table);
                self.manifest.replace_sstables(ids, meta, now);
                self.sstables = tables;
                assert(self@.tables =~= seq![table]);
            },
            None => {
                let empty = SSTableMeta {
                    id: 0,
                    path: String::new(),
                    entry_count: 0,
                    min_key_bytes: [0u8; 21],
                    max_key_bytes: [0u8; 21],
                };
                let ghost placeholder = empty;
                let ghost kept = without_ids(self.manifest.sstables@, ids@);
                self.manifest.replace_sstables(ids, empty, now);
                proof {
                    assert(kept.push(placeholder).drop_last() =~= kept);
                    assert(!super::manifest::is_real_table(placeholder));
                }
                self.manifest.drop_placeholders();
                self.sstables = tables;
                assert(self@.tables =~= Seq::<SSTable>::empty());
            },
        }
    }

    /// Takes the next table id.
    fn take_sstable_id(&mut self) -> (id: u64)
        ensures
            id == old(self)@.next_sstable_id,
            final(self)@ == (EngineState {
                next_sstable_id: wrapping_sum(old(self)@.next_sstable_id as nat, 1),
                ..old(self)@
            }),
    {
        let id: u64 = self.next_sstable_id;
        self.next_sstable_id = id.wrapping_add(1);
        id
    }

    /// The log has been rotated.
    pub fn wal_rotated(&mut self)
        ensures
            final(self)@ == (EngineState { wal: WalState { size: 0, ..old(self)@.wal }, ..old(self)@ }),
    {
        self.wal.rotated();
    }

    /// The tables on disk, from the oldest to the newest.
    pub fn tables(&self) -> (tables: &Vec<SSTable>)
        ensures
            tables@ == self@.tables,
    {
        &self.sstables
    }

    /// The manifest.
    pub fn manifest(&self) -> (manifest: &Manifest)
        ensures
            *manifest == self@.manifest,
    {
        &self.manifest
    }

    /// The directory of the engine.
    pub fn dir(&self) -> (dir: &str)
        ensures
            dir@ == self@.dir,
    {
        self.dir.as_str()
    }

    /// The number of tables on disk.
    pub fn sstable_count(&self) -> (n: usize)
        ensures
            n == self@.tables.len(),
    {
        self.sstables.len()
    }

    /// An estimate of the size of the table in memory.
    pub fn memtable_bytes(&self) -> (n: u64)
        ensures
            n == self@.mem_bytes,
    {
        self.memtable.approx_bytes()
    }
}

/// The steps of a read lead to what the layers say: memory first, then one table after the
/// other, the newest first. `contents` holds the entries of each table.
pub proof fn law_get_reads_layers(s: EngineState, contents: Seq<Seq<Entry>>, n: int, slot: Slot)
    requires
        0 <= n <= contents.len(),
    ensures
        read_value(all_layers(s.mem, s.flushing, contents), slot) == if memory_value(s, slot) is Some {
            memory_value(s, slot)
        } else {
            read_value(disk_layers(contents), slot)
        },
        read_value(disk_layers(contents.take(n)), slot) == if n == 0 {
            None
        } else if last_value(contents[n - 1], slot) is Some {
            last_value(contents[n - 1], slot)
        } else {
            read_value(disk_layers(contents.take(n - 1)), slot)
        },
{
    let disk = disk_layers(contents);
    let first = Layer::Memory(s.mem);
    lemma_memory_layer(s.mem, slot);
    match s.flushing {
        Some(f) => {
            let second = Layer::Memory(f);
            lemma_memory_layer(f, slot);
            super::layers::lemma_read_concat(seq![first, second], disk, slot);
            assert(seq![first, second].drop_first() =~= seq![second]);
            super::layers::lemma_read_one(second, slot);
        },
        None => {
            super::layers::lemma_read_concat(seq![first], disk, slot);
            super::layers::lemma_read_one(first, slot);
        },
    }
    if n == 0 {
        assert(disk_layers(contents.take(0)) =~= Seq::<Layer>::empty());
    } else {
        assert(contents.take(n) =~= contents.take(n - 1).push(contents[n - 1]));
        super::layers::lemma_read_disk_push(contents.take(n - 1), contents[n - 1], slot);
    }
}

} // verus!
