//! The engine over time: writes, flushes, merges and recoveries keep reads in step with the
//! history of all writes.

use vstd::prelude::*;

use crate::storage::entry::{entries_sorted, last_entry, last_value, Entry};
use crate::storage::key::{key_at, LsmKey, Slot};
use crate::storage::layers::{
    all_entries, all_layers, chronological, disk_layers, is_merged, layer_entry, lsns_below, newest_entry, read_data,
    read_layers, Layer,
};
use crate::storage::layers::{
    law_flush_keeps_reads, law_merge_keeps_reads, law_read_your_write, lemma_empty_memory, lemma_listing_layer,
    lemma_memory_layer, lemma_read_concat, lemma_read_disk_push, lemma_read_one,
};
use crate::storage::lsm::{insert_all, lemma_insert_all_concat, record_entries, replay_entries};
use crate::storage::memtable::{
    greatest_key, has_version, is_full_listing, is_latest_lsn, latest, least_key,
};
use crate::storage::memtable::{lemma_latest_exists, lemma_latest_is};
use crate::storage::sstable::lemma_last_entry_member;
use crate::storage::wal::{
    entries_with_lsn, key_with_lsn, log_bytes, log_records, max_lsn, op_fits, ops_fit, parse_record_at,
    record_bytes, recover_log, WalOpView, WalRecordView,
};
use crate::storage::table_file::lemma_last_entry_concat;
use crate::storage::wal::{
    law_max_lsn_bounds, law_record_round_trip, law_recover_gives_back_appended, law_recover_skips_torn_record,
};

verus! {

/// What a logged operation writes under a sequence number.
pub open spec fn write_entries(op: WalOpView, lsn: u64) -> Seq<Entry> {
    match op {
        WalOpView::Put { key, value } => seq![(key_with_lsn(key, lsn), value)],
        WalOpView::BatchPut { entries } => entries_with_lsn(entries, lsn),
        WalOpView::Delete { namespace, doc_id } => seq![
            (LsmKey { namespace, partition_or_segment: 0, doc_id, lsn }, None::<Seq<u8>>),
        ],
        _ => Seq::empty(),
    }
}

/// What a list of operations writes, from a sequence number on.
pub open spec fn all_writes(first_lsn: u64, ops: Seq<WalOpView>) -> Seq<Entry>
    decreases ops.len(),
{
    if ops.len() == 0 {
        Seq::empty()
    } else {
        all_writes(first_lsn, ops.drop_last()) + write_entries(ops.last(), (first_lsn + ops.len() - 1) as u64)
    }
}

/// Replaying what was logged writes what the operations wrote.
pub proof fn law_replay_repeats_writes(first_lsn: u64, ops: Seq<WalOpView>)
    requires
        first_lsn + ops.len() <= u64::MAX,
    ensures
        replay_entries(log_records(first_lsn, ops)) == all_writes(first_lsn, ops),
    decreases ops.len(),
{
    let records = log_records(first_lsn, ops);
    if ops.len() > 0 {
        law_replay_repeats_writes(first_lsn, ops.drop_last());
        assert(records.drop_last() =~= log_records(first_lsn, ops.drop_last()));
        let lsn = (first_lsn + ops.len() - 1) as u64;
        assert(record_entries(records.last()) =~= write_entries(ops.last(), lsn));
    }
}

/// Recovery after a crash: the log gives back every operation that was written completely, and
/// replaying it fills memory with what these operations wrote.
pub proof fn law_recovery_restores_writes(
    first_lsn: u64,
    ops: Seq<WalOpView>,
    lsn: u64,
    torn: WalOpView,
    cut: int,
)
    requires
        ops_fit(ops),
        first_lsn + ops.len() <= u64::MAX,
        op_fits(torn),
        0 <= cut < record_bytes(lsn, torn).len(),
    ensures
        replay_entries(recover_log(log_bytes(first_lsn, ops) + record_bytes(lsn, torn).take(cut))) == all_writes(
            first_lsn,
            ops,
        ),
{
    law_recover_skips_torn_record(first_lsn, ops, lsn, torn, cut);
    law_replay_repeats_writes(first_lsn, ops);
}

/// The history of an engine: all that was written, what is in memory, what is on disk, and the
/// next sequence number.
pub struct History {
    pub all: Map<LsmKey, Option<Seq<u8>>>,
    pub mem: Map<LsmKey, Option<Seq<u8>>>,
    pub tables: Seq<Seq<Entry>>,
    pub next_lsn: int,
}

/// The data of the latest version of a slot.
pub open spec fn latest_data(m: Map<LsmKey, Option<Seq<u8>>>, slot: Slot) -> Option<Seq<u8>> {
    match latest(m, slot) {
        Some(v) => v,
        None => None,
    }
}

/// The table holds only what was written.
pub open spec fn was_written(h: History, t: Seq<Entry>) -> bool {
    forall|x: int|
        0 <= x < t.len() ==> h.all.contains_key((#[trigger] t[x]).0) && h.all[t[x].0] == t[x].1
}

/// No version of the slot on disk has a greater sequence number than the latest one in memory.
pub open spec fn memory_is_newest(h: History, slot: Slot) -> bool {
    forall|i: int, x: int|
        0 <= i < h.tables.len() && 0 <= x < h.tables[i].len() && (#[trigger] h.tables[i][x]).0.spec_slot() == slot
            && layer_entry(Layer::Memory(h.mem), slot) is Some ==> h.tables[i][x].0.lsn <= (layer_entry(
            Layer::Memory(h.mem),
            slot,
        )->0).0.lsn
}

/// Memory and disk hold only what was written, newer layers hold newer versions, and every read
/// yields the data of the latest write.
pub open spec fn consistent(h: History) -> bool {
    &&& lsns_below(h.all, h.next_lsn)
    &&& forall|k: LsmKey| #[trigger] h.mem.contains_key(k) ==> h.all.contains_key(k) && h.all[k] == h.mem[k]
    &&& forall|i: int| 0 <= i < h.tables.len() ==> was_written(h, #[trigger] h.tables[i])
    &&& forall|i: int| 0 <= i < h.tables.len() ==> entries_sorted(#[trigger] h.tables[i])
    &&& forall|slot: Slot| #[trigger] chronological(h.tables, slot)
    &&& forall|slot: Slot| #[trigger] memory_is_newest(h, slot)
    &&& forall|slot: Slot|
        #[trigger] read_data(all_layers(h.mem, None, h.tables), slot) == latest_data(h.all, slot)
}

/// An engine that has written nothing.
pub open spec fn no_history() -> History {
    History { all: Map::empty(), mem: Map::empty(), tables: Seq::empty(), next_lsn: 0 }
}

/// The history after a write under the next sequence number.
pub open spec fn after_write(h: History, es: Seq<Entry>) -> History {
    History { all: insert_all(h.all, es), mem: insert_all(h.mem, es), tables: h.tables, next_lsn: h.next_lsn + 1 }
}

/// The history after the table in memory has been flushed.
pub open spec fn after_flush(h: History, es: Seq<Entry>) -> History {
    History { mem: Map::empty(), tables: h.tables.push(es), ..h }
}

/// The history after the tables on disk have been merged.
pub open spec fn after_merge(h: History, out: Seq<Entry>) -> History {
    History {
        tables: if out.len() == 0 {
            Seq::empty()
        } else {
            seq![out]
        },
        ..h
    }
}

/// The history after the engine was closed, or crashed, and was opened again: memory holds what
/// the log gave back, which is all that was written.
pub open spec fn after_reopen(h: History) -> History {
    History { mem: h.all, ..h }
}

/// The table in memory that listed entries leave, where they all carry one sequence number that
/// is not below those in memory.
proof fn lemma_insert_all(m: Map<LsmKey, Option<Seq<u8>>>, es: Seq<Entry>, lsn: u64, slot: Slot)
    requires
        lsns_below(m, lsn as int),
        forall|i: int| 0 <= i < es.len() ==> (#[trigger] es[i]).0.lsn == lsn,
    ensures
        lsns_below(insert_all(m, es), lsn + 1),
        layer_entry(Layer::Memory(insert_all(m, es)), slot) == if last_entry(es, slot) is Some {
            last_entry(es, slot)
        } else {
            layer_entry(Layer::Memory(m), slot)
        },
    decreases es.len(),
{
    if es.len() > 0 {
        let init = es.drop_last();
        let (key, value) = es.last();
        assert(es.last() == es[es.len() - 1]);
        assert forall|i: int| 0 <= i < init.len() implies (#[trigger] init[i]).0.lsn == lsn by {
            assert(init[i] == es[i]);
        }
        lemma_insert_all(m, init, lsn, slot);
        let before = insert_all(m, init);
        let none = Seq::<Layer>::empty();
        law_read_your_write(before, none, key, value, slot);
        lemma_read_concat(seq![Layer::Memory(before.insert(key, value))], none, slot);
        lemma_read_one(Layer::Memory(before.insert(key, value)), slot);
        lemma_read_concat(seq![Layer::Memory(before)], none, slot);
        lemma_read_one(Layer::Memory(before), slot);
        assert(read_layers(none, slot) is None);
    }
}

/// What memory says through layers is what reads see first.
proof fn lemma_read_memory_first(mem: Map<LsmKey, Option<Seq<u8>>>, tables: Seq<Seq<Entry>>, slot: Slot)
    ensures
        read_layers(all_layers(mem, None, tables), slot) == if layer_entry(Layer::Memory(mem), slot) is Some {
            layer_entry(Layer::Memory(mem), slot)
        } else {
            read_layers(disk_layers(tables), slot)
        },
{
    lemma_read_concat(seq![Layer::Memory(mem)], disk_layers(tables), slot);
    lemma_read_one(Layer::Memory(mem), slot);
}

/// A batch of writes under one fresh sequence number is seen by reads: each slot yields its last
/// entry in the batch, and slots that are not in the batch yield what they did.
pub proof fn law_batch_is_visible(
    mem: Map<LsmKey, Option<Seq<u8>>>,
    tables: Seq<Seq<Entry>>,
    es: Seq<Entry>,
    lsn: u64,
    slot: Slot,
)
    requires
        lsns_below(mem, lsn as int),
        forall|i: int| 0 <= i < es.len() ==> (#[trigger] es[i]).0.lsn == lsn,
    ensures
        read_layers(all_layers(insert_all(mem, es), None, tables), slot) == if last_entry(es, slot) is Some {
            last_entry(es, slot)
        } else {
            read_layers(all_layers(mem, None, tables), slot)
        },
{
    lemma_insert_all(mem, es, lsn, slot);
    lemma_read_memory_first(mem, tables, slot);
    lemma_read_memory_first(insert_all(mem, es), tables, slot);
}

/// A new engine is consistent.
pub proof fn law_new_engine_is_consistent()
    ensures
        consistent(no_history()),
{
    let h = no_history();
    assert forall|slot: Slot| #[trigger] read_data(all_layers(h.mem, None, h.tables), slot) == latest_data(
        h.all,
        slot,
    ) by {
        lemma_read_memory_first(h.mem, h.tables, slot);
        assert(disk_layers(h.tables) =~= Seq::<Layer>::empty());
    }
}

/// What was inserted is there, and what was there before and not written again still is.
proof fn lemma_insert_all_content(m: Map<LsmKey, Option<Seq<u8>>>, big: Map<LsmKey, Option<Seq<u8>>>, es: Seq<Entry>)
    requires
        forall|k: LsmKey| #[trigger] m.contains_key(k) ==> big.contains_key(k) && big[k] == m[k],
    ensures
        forall|k: LsmKey| #[trigger]
            insert_all(m, es).contains_key(k) ==> insert_all(big, es).contains_key(k) && insert_all(big, es)[k]
                == insert_all(m, es)[k],
    decreases es.len(),
{
    if es.len() > 0 {
        let init = es.drop_last();
        lemma_insert_all_content(m, big, init);
        assert forall|k: LsmKey| #[trigger] insert_all(m, es).contains_key(k) implies insert_all(big, es).contains_key(
            k,
        ) && insert_all(big, es)[k] == insert_all(m, es)[k] by {
            if k != es.last().0 {
                assert(insert_all(m, init).contains_key(k));
            }
        }
    }
}

/// Entries under a fresh sequence number leave everything older as it is.
proof fn lemma_insert_all_keeps_older(m: Map<LsmKey, Option<Seq<u8>>>, es: Seq<Entry>, lsn: u64)
    requires
        forall|i: int| 0 <= i < es.len() ==> (#[trigger] es[i]).0.lsn == lsn,
    ensures
        forall|k: LsmKey| #[trigger]
            m.contains_key(k) && k.lsn < lsn ==> insert_all(m, es).contains_key(k) && insert_all(m, es)[k] == m[k],
    decreases es.len(),
{
    if es.len() > 0 {
        let init = es.drop_last();
        assert forall|i: int| 0 <= i < init.len() implies (#[trigger] init[i]).0.lsn == lsn by {
            assert(init[i] == es[i]);
        }
        assert(es.last() == es[es.len() - 1]);
        lemma_insert_all_keeps_older(m, init, lsn);
    }
}

/// A write keeps the engine consistent.
pub proof fn law_write_keeps_consistency(h: History, es: Seq<Entry>)
    requires
        consistent(h),
        0 <= h.next_lsn <= u64::MAX,
        forall|i: int| 0 <= i < es.len() ==> (#[trigger] es[i]).0.lsn == h.next_lsn,
    ensures
        consistent(after_write(h, es)),
{
    let lsn = h.next_lsn as u64;
    let g = after_write(h, es);
    assert(lsns_below(h.mem, lsn as int));
    lemma_insert_all_content(h.mem, h.all, es);
    lemma_insert_all_keeps_older(h.all, es, lsn);
    assert(lsns_below(g.all, g.next_lsn)) by {
        lemma_insert_all(h.all, es, lsn, Slot { namespace: 0, partition: 0, doc_id: 0 });
    }
    assert forall|i: int| 0 <= i < g.tables.len() implies was_written(g, #[trigger] g.tables[i]) by {
        let t = g.tables[i];
        assert(was_written(h, h.tables[i]));
        assert forall|x: int| 0 <= x < t.len() implies g.all.contains_key((#[trigger] t[x]).0) && g.all[t[x].0]
            == t[x].1 by {
            assert(h.all.contains_key(t[x].0));
        }
    }
    assert forall|slot: Slot| #[trigger] memory_is_newest(g, slot) by {
        lemma_insert_all(h.mem, es, lsn, slot);
        assert(memory_is_newest(h, slot));
        assert forall|i: int, x: int|
            0 <= i < g.tables.len() && 0 <= x < g.tables[i].len() && (#[trigger] g.tables[i][x]).0.spec_slot() == slot
                && layer_entry(Layer::Memory(g.mem), slot) is Some implies g.tables[i][x].0.lsn <= (layer_entry(
            Layer::Memory(g.mem),
            slot,
        )->0).0.lsn by {
            assert(was_written(h, h.tables[i]));
            assert(h.tables[i][x].0.spec_slot() == slot);
            if last_entry(es, slot) is Some {
                let k = lemma_last_entry_member(es, slot);
                assert(h.all.contains_key(h.tables[i][x].0));
            }
        }
    }
    assert forall|slot: Slot| #[trigger] chronological(g.tables, slot) by {
        assert(chronological(h.tables, slot));
    }
    assert forall|slot: Slot| #[trigger] read_data(all_layers(g.mem, None, g.tables), slot) == latest_data(
        g.all,
        slot,
    ) by {
        law_batch_is_visible(h.mem, h.tables, es, lsn, slot);
        lemma_insert_all(h.all, es, lsn, slot);
        assert(read_data(all_layers(h.mem, None, h.tables), slot) == latest_data(h.all, slot));
        lemma_memory_layer(g.all, slot);
        lemma_memory_layer(h.all, slot);
    }
}

/// A flush keeps the engine consistent.
pub proof fn law_flush_keeps_consistency(h: History, es: Seq<Entry>)
    requires
        consistent(h),
        is_full_listing(es, h.mem),
    ensures
        consistent(after_flush(h, es)),
{
    let g = after_flush(h, es);
    let n = h.tables.len();
    assert forall|i: int| 0 <= i < g.tables.len() implies was_written(g, #[trigger] g.tables[i]) by {
        if i < n {
            assert(was_written(h, h.tables[i]));
        } else {
            assert forall|x: int| 0 <= x < es.len() implies g.all.contains_key((#[trigger] es[x]).0) && g.all[es[x].0]
                == es[x].1 by {
                assert(h.mem.contains_key(es[x].0));
            }
        }
    }
    assert forall|i: int| 0 <= i < g.tables.len() implies entries_sorted(#[trigger] g.tables[i]) by {
        if i < n {
            assert(entries_sorted(h.tables[i]));
        }
    }
    assert forall|slot: Slot| #[trigger] chronological(g.tables, slot) by {
        assert(chronological(h.tables, slot));
        assert(memory_is_newest(h, slot));
        lemma_listing_layer(es, h.mem, least_key(), greatest_key(), slot);
        assert forall|i: int, j: int, x: int|
            0 <= i < j < g.tables.len() && 0 <= x < g.tables[i].len() && (#[trigger] g.tables[i][x]).0.spec_slot()
                == slot && (#[trigger] last_entry(g.tables[j], slot)) is Some implies g.tables[i][x].0.lsn <= (
        last_entry(g.tables[j], slot)->0).0.lsn by {
            assert(g.tables[i] == h.tables[i]);
            assert(h.tables[i][x].0.spec_slot() == slot);
            if j < n {
                assert(g.tables[j] == h.tables[j]);
                assert(last_entry(h.tables[j], slot) is Some);
            }
        }
    }
    assert forall|slot: Slot| #[trigger] read_data(all_layers(g.mem, None, g.tables), slot) == latest_data(
        g.all,
        slot,
    ) by {
        law_flush_keeps_reads(h.mem, h.tables, es, slot);
        assert(read_data(all_layers(h.mem, None, h.tables), slot) == latest_data(h.all, slot));
    }
}

/// A merge of the tables on disk keeps the engine consistent.
pub proof fn law_merge_keeps_consistency(h: History, out: Seq<Entry>)
    requires
        consistent(h),
        is_merged(out, all_entries(h.tables)),
    ensures
        consistent(after_merge(h, out)),
{
    let g = after_merge(h, out);
    let es = all_entries(h.tables);
    assert forall|x: int| 0 <= x < out.len() implies g.all.contains_key((#[trigger] out[x]).0) && g.all[out[x].0]
        == out[x].1 && exists|i: int, y: int|
        0 <= i < h.tables.len() && 0 <= y < h.tables[i].len() && #[trigger] h.tables[i][y] == out[x] by {
        let slot = out[x].0.spec_slot();
        assert(newest_entry(es, slot) == Some(out[x]));
        let i = choose|i: int| crate::storage::layers::is_newest_of(es, slot, i);
        let (t, y) = crate::storage::layers::lemma_flat_member(h.tables, i);
        assert(was_written(h, h.tables[t]));
        assert(h.tables[t][y] == out[x]);
    }
    assert forall|i: int| 0 <= i < g.tables.len() implies was_written(g, #[trigger] g.tables[i]) by {
        assert(g.tables[i] == out);
    }
    assert forall|i: int| 0 <= i < g.tables.len() implies entries_sorted(#[trigger] g.tables[i]) by {
        assert(g.tables[i] == out);
    }
    assert forall|slot: Slot| #[trigger] chronological(g.tables, slot) by {}
    assert forall|slot: Slot| #[trigger] memory_is_newest(g, slot) by {
        assert(memory_is_newest(h, slot));
        assert forall|i: int, x: int|
            0 <= i < g.tables.len() && 0 <= x < g.tables[i].len() && (#[trigger] g.tables[i][x]).0.spec_slot() == slot
                && layer_entry(Layer::Memory(g.mem), slot) is Some implies g.tables[i][x].0.lsn <= (layer_entry(
            Layer::Memory(g.mem),
            slot,
        )->0).0.lsn by {
            assert(g.tables[i] == out);
            let (t, y) = choose|t: int, y: int|
                0 <= t < h.tables.len() && 0 <= y < h.tables[t].len() && #[trigger] h.tables[t][y] == out[x];
            assert(h.tables[t][y].0.spec_slot() == slot);
        }
    }
    assert forall|slot: Slot| #[trigger] read_data(all_layers(g.mem, None, g.tables), slot) == latest_data(
        g.all,
        slot,
    ) by {
        assert(chronological(h.tables, slot));
        law_merge_keeps_reads(h.tables, out, slot);
        lemma_read_memory_first(h.mem, h.tables, slot);
        lemma_read_memory_first(g.mem, g.tables, slot);
        assert(read_data(all_layers(h.mem, None, h.tables), slot) == latest_data(h.all, slot));
        if out.len() == 0 {
            assert(disk_layers(g.tables) =~= Seq::<Layer>::empty());
            assert(disk_layers(seq![out]) =~= seq![Layer::Disk(out)]);
            lemma_read_one(Layer::Disk(out), slot);
        }
    }
}

/// Opening the engine again keeps it consistent: no write is lost.
pub proof fn law_reopen_keeps_consistency(h: History)
    requires
        consistent(h),
    ensures
        consistent(after_reopen(h)),
{
    let g = after_reopen(h);
    assert forall|i: int| 0 <= i < g.tables.len() implies was_written(g, #[trigger] g.tables[i]) by {
        assert(was_written(h, h.tables[i]));
    }
    assert forall|slot: Slot| #[trigger] memory_is_newest(g, slot) by {
        assert forall|i: int, x: int|
            0 <= i < g.tables.len() && 0 <= x < g.tables[i].len() && (#[trigger] g.tables[i][x]).0.spec_slot() == slot
                && layer_entry(Layer::Memory(g.mem), slot) is Some implies g.tables[i][x].0.lsn <= (layer_entry(
            Layer::Memory(g.mem),
            slot,
        )->0).0.lsn by {
            assert(was_written(h, h.tables[i]));
            let k = g.tables[i][x].0;
            assert(h.all.contains_key(k));
            assert(k == key_at(slot, k.lsn));
            let lsn = lemma_latest_exists(h.all, slot, k.lsn);
            lemma_latest_is(h.all, slot, lsn);
            let chosen = choose|l: u64| is_latest_lsn(h.all, slot, l);
            assert(is_latest_lsn(h.all, slot, chosen));
        }
    }
    assert forall|slot: Slot| #[trigger] chronological(g.tables, slot) by {
        assert(chronological(h.tables, slot));
    }
    assert forall|slot: Slot| #[trigger] read_data(all_layers(g.mem, None, g.tables), slot) == latest_data(
        g.all,
        slot,
    ) by {
        lemma_read_memory_first(g.mem, g.tables, slot);
        lemma_memory_layer(g.all, slot);
        if layer_entry(Layer::Memory(g.mem), slot) is None {
            lemma_read_memory_first(h.mem, h.tables, slot);
            if read_layers(disk_layers(g.tables), slot) is Some {
                lemma_disk_read_written(h, h.tables, slot);
            }
        }
    }
}

/// What a read sees on disk was written.
proof fn lemma_disk_read_written(h: History, tables: Seq<Seq<Entry>>, slot: Slot)
    requires
        forall|i: int| 0 <= i < tables.len() ==> was_written(h, #[trigger] tables[i]),
        read_layers(disk_layers(tables), slot) is Some,
    ensures
        has_version(h.all, slot),
    decreases tables.len(),
{
    if tables.len() == 0 {
        assert(disk_layers(tables) =~= Seq::<Layer>::empty());
    } else {
        let init = tables.drop_last();
        let t = tables.last();
        assert(tables =~= init.push(t));
        lemma_read_disk_push(init, t, slot);
        assert(was_written(h, tables[tables.len() - 1]));
        if last_entry(t, slot) is Some {
            let x = lemma_last_entry_member(t, slot);
            let k = t[x].0;
            assert(h.all.contains_key(k));
            assert(k == key_at(slot, k.lsn));
        } else {
            assert forall|i: int| 0 <= i < init.len() implies was_written(h, #[trigger] init[i]) by {
                assert(init[i] == tables[i]);
            }
            lemma_disk_read_written(h, init, slot);
        }
    }
}

/// What a recovered record writes carries the sequence number of the record.
proof fn lemma_recovered_lsns(buf: Seq<u8>)
    ensures
        forall|i: int, x: int|
            0 <= i < recover_log(buf).len() && 0 <= x < record_entries(recover_log(buf)[i]).len() ==> (
            #[trigger] record_entries(recover_log(buf)[i])[x]).0.lsn == recover_log(buf)[i].lsn,
    decreases buf.len(),
{
    reveal(parse_record_at);
    if let Ok(rec) = parse_record_at(buf) {
        let rest = buf.skip(rec.total_len as int);
        lemma_recovered_lsns(rest);
        let all = recover_log(buf);
        assert forall|i: int, x: int|
            0 <= i < all.len() && 0 <= x < record_entries(all[i]).len() implies (#[trigger] record_entries(
            all[i],
        )[x]).0.lsn == all[i].lsn by {
            if i > 0 {
                assert(all[i] == recover_log(rest)[i - 1]);
            }
        }
    }
}

proof fn lemma_replay_bound(records: Seq<WalRecordView>, bound: int)
    requires
        forall|i: int| 0 <= i < records.len() ==> (#[trigger] records[i]).lsn < bound,
        forall|i: int, x: int|
            0 <= i < records.len() && 0 <= x < record_entries(records[i]).len() ==> (#[trigger] record_entries(
                records[i],
            )[x]).0.lsn == records[i].lsn,
    ensures
        forall|x: int|
            0 <= x < replay_entries(records).len() ==> (#[trigger] replay_entries(records)[x]).0.lsn < bound,
    decreases records.len(),
{
    if records.len() > 0 {
        let init = records.drop_last();
        assert forall|i: int, x: int|
            0 <= i < init.len() && 0 <= x < record_entries(init[i]).len() implies (#[trigger] record_entries(
            init[i],
        )[x]).0.lsn == init[i].lsn by {
            assert(init[i] == records[i]);
            assert(record_entries(records[i])[x].0.lsn == records[i].lsn);
        }
        lemma_replay_bound(init, bound);
        let all = replay_entries(records);
        let n = replay_entries(init).len();
        assert forall|x: int| 0 <= x < all.len() implies (#[trigger] all[x]).0.lsn < bound by {
            if x >= n {
                assert(records[records.len() - 1] == records.last());
                assert(record_entries(records[records.len() - 1])[x - n] == all[x]);
            } else {
                assert(replay_entries(init)[x] == all[x]);
            }
        }
    }
}

proof fn lemma_insert_all_bound(m: Map<LsmKey, Option<Seq<u8>>>, es: Seq<Entry>, bound: int)
    requires
        lsns_below(m, bound),
        forall|x: int| 0 <= x < es.len() ==> (#[trigger] es[x]).0.lsn < bound,
    ensures
        lsns_below(insert_all(m, es), bound),
    decreases es.len(),
{
    if es.len() > 0 {
        assert forall|x: int| 0 <= x < es.drop_last().len() implies (#[trigger] es.drop_last()[x]).0.lsn < bound by {
            assert(es.drop_last()[x] == es[x]);
        }
        assert(es.last() == es[es.len() - 1]);
        lemma_insert_all_bound(m, es.drop_last(), bound);
    }
}

/// After recovery every version in memory has a sequence number that is not above the greatest
/// one of the log, so the next write is newer than all of them.
pub proof fn law_recovered_memory_is_older(log: Seq<u8>)
    ensures
        lsns_below(
            insert_all(Map::empty(), replay_entries(recover_log(log))),
            max_lsn(recover_log(log)) + 1,
        ),
{
    let records = recover_log(log);
    let bound = max_lsn(records) + 1;
    law_max_lsn_bounds(records);
    lemma_recovered_lsns(log);
    lemma_replay_bound(records, bound);
    lemma_insert_all_bound(Map::empty(), replay_entries(records), bound);
}

/// A batch is read: each of its entries that is the last one of its slot is what a read of the slot
/// sees, under the one sequence number of the batch, whatever number its key carried.
pub proof fn law_batch_put_is_read(
    mem: Map<LsmKey, Option<Seq<u8>>>,
    tables: Seq<Seq<Entry>>,
    entries: Seq<Entry>,
    lsn: u64,
    i: int,
)
    requires
        lsns_below(mem, lsn as int),
        0 <= i < entries.len(),
        last_entry(entries, entries[i].0.spec_slot()) == Some(entries[i]),
    ensures
        read_layers(
            all_layers(insert_all(mem, entries_with_lsn(entries, lsn)), None, tables),
            entries[i].0.spec_slot(),
        ) == Some((key_with_lsn(entries[i].0, lsn), entries[i].1)),
{
    let slot = entries[i].0.spec_slot();
    lemma_last_with_lsn(entries, lsn, slot);
    law_batch_is_visible(mem, tables, entries_with_lsn(entries, lsn), lsn, slot);
}

proof fn lemma_last_with_lsn(es: Seq<Entry>, lsn: u64, slot: Slot)
    ensures
        last_entry(entries_with_lsn(es, lsn), slot) == match last_entry(es, slot) {
            Some(e) => Some((key_with_lsn(e.0, lsn), e.1)),
            None => None,
        },
    decreases es.len(),
{
    let stamped = entries_with_lsn(es, lsn);
    if es.len() > 0 {
        assert(stamped.drop_last() =~= entries_with_lsn(es.drop_last(), lsn));
        lemma_last_with_lsn(es.drop_last(), lsn, slot);
    }
}

/// A deletion is read: a read of the slot sees the deletion, whether or not the slot had been
/// written, and reads of all other slots see what they saw.
pub proof fn law_delete_is_read(
    mem: Map<LsmKey, Option<Seq<u8>>>,
    tables: Seq<Seq<Entry>>,
    namespace: u8,
    doc_id: u64,
    lsn: u64,
    slot: Slot,
)
    requires
        lsns_below(mem, lsn as int),
    ensures
        ({
            let op = WalOpView::Delete { namespace, doc_id };
            let key = LsmKey { namespace, partition_or_segment: 0, doc_id, lsn };
            let after = all_layers(insert_all(mem, write_entries(op, lsn)), None, tables);
            read_layers(after, slot) == if slot == key.spec_slot() {
                Some((key, None::<Seq<u8>>))
            } else {
                read_layers(all_layers(mem, None, tables), slot)
            }
        }),
{
    let op = WalOpView::Delete { namespace, doc_id };
    let es = write_entries(op, lsn);
    law_batch_is_visible(mem, tables, es, lsn, slot);
    assert(es.drop_last() =~= Seq::<Entry>::empty());
    assert(last_entry(es.drop_last(), slot) is None);
}

/// A step in the life of an engine.
pub enum Step {
    /// An operation is logged and applied.
    Write(WalOpView),
    /// The table in memory is flushed; its entries are given.
    Flush(Seq<Entry>),
    /// The tables on disk are merged; what is left is given.
    Merge(Seq<Entry>),
    /// The log is rotated: from now on it holds only what is logged later.
    Rotate,
    /// The engine is closed and opened again, over the log that is given.
    Reopen(Seq<u8>),
}

/// An engine in the course of its life: its history, all operations that were logged, and whether
/// the log was rotated.
pub struct Life {
    pub h: History,
    pub ops: Seq<WalOpView>,
    pub rotated: bool,
}

/// The engine after it was opened over a log.
pub open spec fn opened_over(h: History, log: Seq<u8>) -> History {
    History {
        mem: insert_all(Map::empty(), replay_entries(recover_log(log))),
        next_lsn: if log.len() == 0 {
            0
        } else {
            max_lsn(recover_log(log)) + 1
        },
        ..h
    }
}

/// What a step does. An engine is opened again only over a log that was not rotated: what stood in
/// a log before it was rotated, and was not flushed, is not given back.
pub open spec fn takes_step(before: Life, step: Step, after: Life) -> bool {
    &&& after.rotated == (before.rotated || step is Rotate)
    &&& match step {
        Step::Write(op) => {
            &&& op_fits(op)
            &&& after.h == after_write(before.h, write_entries(op, before.h.next_lsn as u64))
            &&& after.ops == before.ops.push(op)
        },
        Step::Flush(es) => {
            &&& is_full_listing(es, before.h.mem)
            &&& after.h == after_flush(before.h, es)
            &&& after.ops == before.ops
        },
        Step::Merge(out) => {
            &&& is_merged(out, all_entries(before.h.tables))
            &&& after.h == after_merge(before.h, out)
            &&& after.ops == before.ops
        },
        Step::Rotate => {
            &&& after.h == before.h
            &&& after.ops == before.ops
        },
        Step::Reopen(log) => {
            &&& !before.rotated
            &&& log == log_bytes(0, before.ops)
            &&& after.h == opened_over(before.h, log)
            &&& after.ops == before.ops
        },
    }
}

/// A new engine.
pub open spec fn new_life() -> Life {
    Life { h: no_history(), ops: Seq::empty(), rotated: false }
}

/// The states of a new engine, from step to step.
pub open spec fn is_life(states: Seq<Life>, steps: Seq<Step>) -> bool {
    &&& states.len() == steps.len() + 1
    &&& states[0] == new_life()
    &&& forall|i: int| 0 <= i < steps.len() ==> takes_step(states[i], #[trigger] steps[i], states[i + 1])
}

/// The engine is consistent, and its history is that of the operations.
pub open spec fn in_step(s: Life) -> bool {
    &&& consistent(s.h)
    &&& ops_fit(s.ops)
    &&& s.h.next_lsn == s.ops.len()
    &&& s.h.all == insert_all(Map::empty(), all_writes(0, s.ops))
}

/// What an operation writes carries its sequence number.
proof fn lemma_written_lsns(op: WalOpView, lsn: u64)
    ensures
        forall|i: int| 0 <= i < write_entries(op, lsn).len() ==> (#[trigger] write_entries(op, lsn)[i]).0.lsn == lsn,
{
}

proof fn lemma_all_writes_push(ops: Seq<WalOpView>, op: WalOpView)
    ensures
        all_writes(0, ops.push(op)) == all_writes(0, ops) + write_entries(op, ops.len() as u64),
{
    assert(ops.push(op).drop_last() =~= ops);
}

/// Of what a list of operations wrote, each slot has the last entry.
proof fn lemma_all_writes_layer(first_lsn: u64, ops: Seq<WalOpView>, slot: Slot)
    requires
        first_lsn + ops.len() <= u64::MAX,
    ensures
        lsns_below(insert_all(Map::empty(), all_writes(first_lsn, ops)), first_lsn + ops.len()),
        layer_entry(Layer::Memory(insert_all(Map::empty(), all_writes(first_lsn, ops))), slot) == last_entry(
            all_writes(first_lsn, ops),
            slot,
        ),
    decreases ops.len(),
{
    if ops.len() == 0 {
        lemma_empty_memory(slot);
    } else {
        let init = ops.drop_last();
        let lsn = (first_lsn + ops.len() - 1) as u64;
        let es = write_entries(ops.last(), lsn);
        lemma_all_writes_layer(first_lsn, init, slot);
        lemma_written_lsns(ops.last(), lsn);
        lemma_insert_all_concat(Map::empty(), 0, all_writes(first_lsn, init), es);
        lemma_insert_all(insert_all(Map::empty(), all_writes(first_lsn, init)), es, lsn, slot);
        lemma_last_entry_concat(all_writes(first_lsn, init), es, slot);
    }
}

/// Opening an engine again over its log fills memory with all that was written, and goes on with
/// the sequence number that comes next.
proof fn lemma_reopened(s: Life)
    requires
        in_step(s),
        s.ops.len() <= u64::MAX,
    ensures
        opened_over(s.h, log_bytes(0, s.ops)) == after_reopen(s.h),
{
    let log = log_bytes(0, s.ops);
    let records = log_records(0, s.ops);
    law_recover_gives_back_appended(0, s.ops, Seq::empty());
    assert(log + Seq::<u8>::empty() =~= log);
    reveal(parse_record_at);
    assert(recover_log(Seq::<u8>::empty()) =~= Seq::<WalRecordView>::empty());
    assert(records + Seq::<WalRecordView>::empty() =~= records);
    law_replay_repeats_writes(0, s.ops);
    if s.ops.len() == 0 {
        assert(log.len() == 0);
    } else {
        law_record_round_trip(0, s.ops[0], Seq::empty());
        assert(op_fits(s.ops[0]));
        assert(log.len() > 0);
        law_max_lsn_bounds(records);
        let n = records.len() - 1;
        assert(records[n].lsn == n);
        let i = choose|i: int| 0 <= i < records.len() && (#[trigger] records[i]).lsn == max_lsn(records);
        assert(max_lsn(records) == n);
    }
}

/// A step keeps an engine in step with its operations.
pub proof fn lemma_step(before: Life, step: Step, after: Life)
    requires
        in_step(before),
        takes_step(before, step, after),
        before.ops.len() < u64::MAX,
    ensures
        in_step(after),
        before.ops.len() <= after.ops.len() <= before.ops.len() + 1,
{
    match step {
        Step::Write(op) => {
            let lsn = before.h.next_lsn as u64;
            lemma_written_lsns(op, lsn);
            law_write_keeps_consistency(before.h, write_entries(op, lsn));
            lemma_all_writes_push(before.ops, op);
            lemma_insert_all_concat(Map::empty(), 0, all_writes(0, before.ops), write_entries(op, lsn));
            assert forall|i: int| 0 <= i < after.ops.len() implies op_fits(#[trigger] after.ops[i]) by {
                if i < before.ops.len() {
                    assert(op_fits(before.ops[i]));
                }
            }
        },
        Step::Flush(es) => {
            law_flush_keeps_consistency(before.h, es);
        },
        Step::Merge(out) => {
            law_merge_keeps_consistency(before.h, out);
        },
        Step::Rotate => {},
        Step::Reopen(log) => {
            lemma_reopened(before);
            law_reopen_keeps_consistency(before.h);
        },
    }
}

proof fn lemma_life(states: Seq<Life>, steps: Seq<Step>, n: int)
    requires
        is_life(states, steps),
        steps.len() <= u64::MAX,
        0 <= n <= steps.len(),
    ensures
        in_step(states[n]),
        states[n].ops.len() <= n,
    decreases n,
{
    if n == 0 {
        law_new_engine_is_consistent();
    } else {
        lemma_life(states, steps, n - 1);
        assert(takes_step(states[n - 1], steps[n - 1], states[n]));
        lemma_step(states[n - 1], steps[n - 1], states[n]);
    }
}

/// What a read yields: after any sequence of writes, batches, deletions, flushes, merges, rotations
/// and reopenings over a log that was not rotated, a read of a slot yields the data that the last write to the slot stored, and nothing
/// if the slot was never written or deleted last. No other slot and no sequence number counts.
pub proof fn law_reads_yield_last_write(states: Seq<Life>, steps: Seq<Step>, slot: Slot)
    requires
        is_life(states, steps),
        steps.len() <= u64::MAX,
    ensures
        consistent(states.last().h),
        read_data(all_layers(states.last().h.mem, None, states.last().h.tables), slot) == match last_value(
            all_writes(0, states.last().ops),
            slot,
        ) {
            Some(v) => v,
            None => None,
        },
{
    lemma_life(states, steps, steps.len() as int);
    let s = states.last();
    lemma_all_writes_layer(0, s.ops, slot);
    lemma_memory_layer(s.h.all, slot);
    assert(read_data(all_layers(s.h.mem, None, s.h.tables), slot) == latest_data(s.h.all, slot));
}

/// A read of the slot sees the last entry that was written, and not only its data.
spec fn exact_at(s: Life, slot: Slot) -> bool {
    read_layers(all_layers(s.h.mem, None, s.h.tables), slot) == last_entry(all_writes(0, s.ops), slot)
}

proof fn lemma_exact_step(before: Life, step: Step, after: Life, slot: Slot)
    requires
        in_step(before),
        takes_step(before, step, after),
        before.ops.len() < u64::MAX,
        !(step is Merge),
        exact_at(before, slot) || (step matches Step::Write(op) && last_entry(
            write_entries(op, before.h.next_lsn as u64),
            slot,
        ) is Some),
    ensures
        exact_at(after, slot),
{
    match step {
        Step::Write(op) => {
            let lsn = before.h.next_lsn as u64;
            let es = write_entries(op, lsn);
            lemma_written_lsns(op, lsn);
            assert(lsns_below(before.h.mem, lsn as int));
            law_batch_is_visible(before.h.mem, before.h.tables, es, lsn, slot);
            lemma_all_writes_push(before.ops, op);
            lemma_last_entry_concat(all_writes(0, before.ops), es, slot);
        },
        Step::Flush(es) => {
            law_flush_keeps_reads(before.h.mem, before.h.tables, es, slot);
        },
        Step::Merge(_) => {},
        Step::Rotate => {},
        Step::Reopen(log) => {
            lemma_reopened(before);
            lemma_all_writes_layer(0, before.ops, slot);
            lemma_read_memory_first(after.h.mem, after.h.tables, slot);
            lemma_memory_layer(before.h.all, slot);
            if last_entry(all_writes(0, before.ops), slot) is None {
                lemma_read_memory_first(before.h.mem, before.h.tables, slot);
                if read_layers(disk_layers(after.h.tables), slot) is Some {
                    lemma_disk_read_written(before.h, before.h.tables, slot);
                }
            }
        },
    }
}

/// A deletion is read as such until the tables are merged: if the slot was written in step `k`, or
/// `k` is 0, and no step from there on merged the tables, a read of the slot sees the last entry
/// that was written, deletions included, with its sequence number.
pub proof fn law_unmerged_reads_see_last_entry(states: Seq<Life>, steps: Seq<Step>, k: int, slot: Slot)
    requires
        is_life(states, steps),
        steps.len() <= u64::MAX,
        0 <= k <= steps.len(),
        k > 0 ==> (steps[k - 1] matches Step::Write(op) && last_entry(
            write_entries(op, states[k - 1].h.next_lsn as u64),
            slot,
        ) is Some),
        forall|i: int| k <= i < steps.len() ==> !((#[trigger] steps[i]) is Merge),
    ensures
        read_layers(all_layers(states.last().h.mem, None, states.last().h.tables), slot) == last_entry(
            all_writes(0, states.last().ops),
            slot,
        ),
{
    lemma_unmerged(states, steps, k, steps.len() as int, slot);
}

proof fn lemma_unmerged(states: Seq<Life>, steps: Seq<Step>, k: int, n: int, slot: Slot)
    requires
        is_life(states, steps),
        steps.len() <= u64::MAX,
        0 <= k <= n <= steps.len(),
        k > 0 ==> (steps[k - 1] matches Step::Write(op) && last_entry(
            write_entries(op, states[k - 1].h.next_lsn as u64),
            slot,
        ) is Some),
        forall|i: int| k <= i < steps.len() ==> !((#[trigger] steps[i]) is Merge),
    ensures
        exact_at(states[n], slot),
    decreases n,
{
    if n == 0 {
        let h = no_history();
        lemma_read_memory_first(h.mem, h.tables, slot);
        lemma_empty_memory(slot);
        assert(disk_layers(h.tables) =~= Seq::<Layer>::empty());
    } else {
        lemma_life(states, steps, n - 1);
        assert(takes_step(states[n - 1], steps[n - 1], states[n]));
        if n > k {
            lemma_unmerged(states, steps, k, n - 1, slot);
        }
        lemma_exact_step(states[n - 1], steps[n - 1], states[n], slot);
    }
}

/// What a step writes.
pub open spec fn written_in(before: Life, step: Step) -> Seq<Entry> {
    match step {
        Step::Write(op) => write_entries(op, before.h.next_lsn as u64),
        _ => Seq::empty(),
    }
}

/// A write is read through the life of an engine: if step `k` wrote the slot and no later step did,
/// a read of the slot yields what step `k` stored under it, and nothing if that was a deletion.
pub proof fn law_reads_yield_write_of_step(states: Seq<Life>, steps: Seq<Step>, k: int, slot: Slot)
    requires
        is_life(states, steps),
        steps.len() <= u64::MAX,
        0 <= k < steps.len(),
        last_entry(written_in(states[k], steps[k]), slot) is Some,
        forall|i: int| k < i < steps.len() ==> last_entry(written_in(states[i], #[trigger] steps[i]), slot) is None,
    ensures
        read_data(all_layers(states.last().h.mem, None, states.last().h.tables), slot) == (last_entry(
            written_in(states[k], steps[k]),
            slot,
        )->0).1,
{
    law_reads_yield_last_write(states, steps, slot);
    lemma_last_written(states, steps, k, steps.len() as int, slot);
}

proof fn lemma_last_written(states: Seq<Life>, steps: Seq<Step>, k: int, n: int, slot: Slot)
    requires
        is_life(states, steps),
        steps.len() <= u64::MAX,
        0 <= k < n <= steps.len(),
        last_entry(written_in(states[k], steps[k]), slot) is Some,
        forall|i: int| k < i < steps.len() ==> last_entry(written_in(states[i], #[trigger] steps[i]), slot) is None,
    ensures
        last_entry(all_writes(0, states[n].ops), slot) == last_entry(written_in(states[k], steps[k]), slot),
    decreases n,
{
    let m = n - 1;
    lemma_life(states, steps, m);
    assert(takes_step(states[m], steps[m], states[n]));
    if let Step::Write(op) = steps[m] {
        lemma_all_writes_push(states[m].ops, op);
        lemma_last_entry_concat(all_writes(0, states[m].ops), written_in(states[m], steps[m]), slot);
    }
    if m > k {
        lemma_last_written(states, steps, k, m, slot);
    }
}

/// What the first operations wrote comes first, and then what the others wrote.
proof fn lemma_all_writes_split(ops: Seq<WalOpView>, r: int)
    requires
        0 <= r <= ops.len() <= u64::MAX,
    ensures
        all_writes(0, ops) == all_writes(0, ops.take(r)) + all_writes(r as u64, ops.skip(r)),
    decreases ops.len() - r,
{
    if r == ops.len() {
        assert(ops.take(r) =~= ops);
        assert(all_writes(0, ops) =~= all_writes(0, ops) + all_writes(r as u64, ops.skip(r)));
    } else {
        let init = ops.drop_last();
        let es = write_entries(ops.last(), (ops.len() - 1) as u64);
        assert(init.take(r) =~= ops.take(r));
        assert(init.skip(r) =~= ops.skip(r).drop_last());
        assert(ops.skip(r).last() == ops.last());
        if r < init.len() {
            lemma_all_writes_split(init, r);
        } else {
            assert(init.take(r) =~= init);
            assert(all_writes(r as u64, init.skip(r)) =~= Seq::<Entry>::empty());
        }
        assert(all_writes(0, ops) =~= all_writes(0, ops.take(r)) + all_writes(r as u64, ops.skip(r)));
    }
}

/// Opening an engine again over a log that was rotated after `r` operations, and so holds only the
/// others: a read of a slot yields what it did before, if the slot was written by one of the
/// others, or if memory held nothing of it, so that its last write had been flushed.
pub proof fn law_reopen_over_rotated_log(s: Life, r: int, slot: Slot)
    requires
        in_step(s),
        0 <= r <= s.ops.len() < u64::MAX,
        last_entry(all_writes(r as u64, s.ops.skip(r)), slot) is Some || layer_entry(Layer::Memory(s.h.mem), slot)
            is None,
    ensures
        ({
            let opened = opened_over(s.h, log_bytes(r as u64, s.ops.skip(r)));
            read_data(all_layers(opened.mem, None, opened.tables), slot) == read_data(
                all_layers(s.h.mem, None, s.h.tables),
                slot,
            )
        }),
{
    let first = r as u64;
    let later = s.ops.skip(r);
    let log = log_bytes(first, later);
    let opened = opened_over(s.h, log);
    let records = log_records(first, later);
    assert forall|i: int| 0 <= i < later.len() implies op_fits(#[trigger] later[i]) by {
        assert(op_fits(s.ops[r + i]));
    }
    law_recover_gives_back_appended(first, later, Seq::empty());
    assert(log + Seq::<u8>::empty() =~= log);
    reveal(parse_record_at);
    assert(recover_log(Seq::<u8>::empty()) =~= Seq::<WalRecordView>::empty());
    assert(records + Seq::<WalRecordView>::empty() =~= records);
    law_replay_repeats_writes(first, later);
    assert(opened.mem == insert_all(Map::empty(), all_writes(first, later)));
    lemma_all_writes_layer(first, later, slot);
    lemma_read_memory_first(opened.mem, opened.tables, slot);
    lemma_read_memory_first(s.h.mem, s.h.tables, slot);
    if last_entry(all_writes(first, later), slot) is Some {
        lemma_all_writes_split(s.ops, r);
        lemma_last_entry_concat(all_writes(0, s.ops.take(r)), all_writes(first, later), slot);
        lemma_all_writes_layer(0, s.ops, slot);
        lemma_memory_layer(s.h.all, slot);
        assert(read_data(all_layers(s.h.mem, None, s.h.tables), slot) == latest_data(s.h.all, slot));
    }
}

} // verus!
