//! What a read sees: the layers of the engine, from the newest to the oldest, and the
//! laws of reading through them.

use vstd::prelude::*;

use crate::sort::index_before;
use crate::storage::entry::{entries_sorted, is_newest, last_entry, Entry};
use crate::storage::key::{key_at, key_less, LsmKey, Slot};
use crate::storage::memtable::{
    greatest_key, has_version, is_full_listing, is_latest_lsn, is_listing, latest, least_key,
};
use crate::storage::memtable::{lemma_last_entry_at, lemma_latest_exists, lemma_latest_is};
use crate::storage::sstable::{in_prefix, slot_high, slot_low};
use crate::storage::sstable::lemma_last_entry_member;
use crate::storage::table_file::lemma_no_last_entry;

verus! {

/// A layer: a table in memory or one on disk.
pub enum Layer {
    Memory(Map<LsmKey, Option<Seq<u8>>>),
    Disk(Seq<Entry>),
}

/// What a layer says of a slot: its latest version.
pub open spec fn layer_entry(layer: Layer, slot: Slot) -> Option<Entry> {
    match layer {
        Layer::Memory(m) => if has_version(m, slot) {
            let key = key_at(slot, choose|lsn: u64| is_latest_lsn(m, slot, lsn));
            Some((key, m[key]))
        } else {
            None
        },
        Layer::Disk(es) => last_entry(es, slot),
    }
}

/// What a read of a slot sees: what the newest layer that has the slot says of it.
pub open spec fn read_layers(layers: Seq<Layer>, slot: Slot) -> Option<Entry>
    decreases layers.len(),
{
    if layers.len() == 0 {
        None
    } else if layer_entry(layers[0], slot) is Some {
        layer_entry(layers[0], slot)
    } else {
        read_layers(layers.drop_first(), slot)
    }
}

/// The value that a read of a slot sees; `Some(None)` is a deletion.
pub open spec fn read_value(layers: Seq<Layer>, slot: Slot) -> Option<Option<Seq<u8>>> {
    match read_layers(layers, slot) {
        Some(e) => Some(e.1),
        None => None,
    }
}

/// The bytes that a read of a slot yields: none if the slot was deleted or never written.
pub open spec fn read_data(layers: Seq<Layer>, slot: Slot) -> Option<Seq<u8>> {
    match read_layers(layers, slot) {
        Some(e) => e.1,
        None => None,
    }
}

/// The layers of tables on disk, from the newest to the oldest, where `tables` lists them from
/// the oldest to the newest.
pub open spec fn disk_layers(tables: Seq<Seq<Entry>>) -> Seq<Layer> {
    Seq::new(tables.len(), |i: int| Layer::Disk(tables[tables.len() - 1 - i]))
}

/// All layers: the table in memory, the one that is being flushed, and those on disk.
pub open spec fn all_layers(
    mem: Map<LsmKey, Option<Seq<u8>>>,
    flushing: Option<Map<LsmKey, Option<Seq<u8>>>>,
    tables: Seq<Seq<Entry>>,
) -> Seq<Layer> {
    match flushing {
        Some(f) => seq![Layer::Memory(mem), Layer::Memory(f)] + disk_layers(tables),
        None => seq![Layer::Memory(mem)] + disk_layers(tables),
    }
}

/// The latest version in memory is what the layer says.
pub proof fn lemma_memory_layer(m: Map<LsmKey, Option<Seq<u8>>>, slot: Slot)
    ensures
        latest(m, slot) == match layer_entry(Layer::Memory(m), slot) {
            Some(e) => Some(e.1),
            None => None,
        },
{
}

/// Reading through two stacks of layers: the second one counts where the first has nothing.
pub proof fn lemma_read_concat(a: Seq<Layer>, b: Seq<Layer>, slot: Slot)
    ensures
        read_layers(a + b, slot) == if read_layers(a, slot) is Some {
            read_layers(a, slot)
        } else {
            read_layers(b, slot)
        },
    decreases a.len(),
{
    if a.len() == 0 {
        assert(a + b =~= b);
    } else {
        assert((a + b).drop_first() =~= a.drop_first() + b);
        lemma_read_concat(a.drop_first(), b, slot);
    }
}

/// Reading through one layer.
pub proof fn lemma_read_one(layer: Layer, slot: Slot)
    ensures
        read_layers(seq![layer], slot) == layer_entry(layer, slot),
{
    assert(seq![layer].drop_first() =~= Seq::<Layer>::empty());
    assert(read_layers(Seq::<Layer>::empty(), slot) is None);
}

/// Reading through tables on disk, of which the newest is given last.
pub proof fn lemma_read_disk_push(tables: Seq<Seq<Entry>>, t: Seq<Entry>, slot: Slot)
    ensures
        read_layers(disk_layers(tables.push(t)), slot) == if last_entry(t, slot) is Some {
            last_entry(t, slot)
        } else {
            read_layers(disk_layers(tables), slot)
        },
{
    let all = disk_layers(tables.push(t));
    assert(all[0] == Layer::Disk(t));
    assert(all.drop_first() =~= disk_layers(tables));
}

/// A layer that holds nothing hides nothing.
pub proof fn lemma_empty_memory(slot: Slot)
    ensures
        layer_entry(Layer::Memory(Map::<LsmKey, Option<Seq<u8>>>::empty()), slot) is None,
{
}

/// A listing of a table in memory says the same of every slot that it covers as the table.
pub proof fn lemma_listing_layer(
    es: Seq<Entry>,
    m: Map<LsmKey, Option<Seq<u8>>>,
    lo: LsmKey,
    hi: LsmKey,
    slot: Slot,
)
    requires
        is_listing(es, m, lo, hi),
        !key_less(slot_low(slot), lo),
        !key_less(hi, slot_high(slot)),
    ensures
        layer_entry(Layer::Disk(es), slot) == layer_entry(Layer::Memory(m), slot),
{
    if has_version(m, slot) {
        let from = choose|lsn: u64| m.contains_key(#[trigger] key_at(slot, lsn));
        let lsn = lemma_latest_exists(m, slot, from);
        lemma_latest_is(m, slot, lsn);
        let chosen = choose|l: u64| is_latest_lsn(m, slot, l);
        assert(m.contains_key(key_at(slot, chosen)) && m.contains_key(key_at(slot, lsn)));
        let k = key_at(slot, lsn);
        let i = choose|i: int| 0 <= i < es.len() && (#[trigger] es[i]).0 == k;
        assert forall|j: int| i < j < es.len() implies (#[trigger] es[j]).0.spec_slot() != slot by {
            assert(key_less(es[i].0, es[j].0));
            if es[j].0.spec_slot() == slot {
                assert(es[j].0 == key_at(slot, es[j].0.lsn));
            }
        }
        lemma_last_entry_at(es, slot, i);
    } else {
        assert forall|i: int| 0 <= i < es.len() implies (#[trigger] es[i]).0.spec_slot() != slot by {
            if es[i].0.spec_slot() == slot {
                assert(es[i].0 == key_at(slot, es[i].0.lsn));
            }
        }
        lemma_no_last_entry(es, slot);
    }
}

/// Every version in the table has a sequence number below `bound`.
pub open spec fn lsns_below(m: Map<LsmKey, Option<Seq<u8>>>, bound: int) -> bool {
    forall|k: LsmKey| #[trigger] m.contains_key(k) ==> k.lsn < bound
}

/// Writing a slot makes reads of it see what was written, if no version in memory is newer.
/// Reads of other slots see what they saw.
pub proof fn law_read_your_write(
    mem: Map<LsmKey, Option<Seq<u8>>>,
    below: Seq<Layer>,
    key: LsmKey,
    value: Option<Seq<u8>>,
    other: Slot,
)
    requires
        lsns_below(mem, key.lsn + 1),
    ensures
        read_layers(seq![Layer::Memory(mem.insert(key, value))] + below, key.spec_slot()) == Some((key, value)),
        other != key.spec_slot() ==> read_layers(seq![Layer::Memory(mem.insert(key, value))] + below, other)
            == read_layers(seq![Layer::Memory(mem)] + below, other),
{
    let after = mem.insert(key, value);
    let slot = key.spec_slot();
    assert(key == key_at(slot, key.lsn));
    assert forall|l: u64| after.contains_key(#[trigger] key_at(slot, l)) implies l <= key.lsn by {}
    assert(is_latest_lsn(after, slot, key.lsn));
    lemma_latest_is(after, slot, key.lsn);
    let chosen = choose|l: u64| is_latest_lsn(after, slot, l);
    assert(after.contains_key(key_at(slot, chosen)));
    lemma_read_concat(seq![Layer::Memory(after)], below, slot);
    lemma_read_one(Layer::Memory(after), slot);
    if other != slot {
        lemma_insert_elsewhere(mem, key, value, other);
        lemma_read_concat(seq![Layer::Memory(after)], below, other);
        lemma_read_concat(seq![Layer::Memory(mem)], below, other);
        lemma_read_one(Layer::Memory(after), other);
        lemma_read_one(Layer::Memory(mem), other);
    }
}

/// Inserting under one slot changes nothing for another one.
pub proof fn lemma_insert_elsewhere(
    mem: Map<LsmKey, Option<Seq<u8>>>,
    key: LsmKey,
    value: Option<Seq<u8>>,
    other: Slot,
)
    requires
        other != key.spec_slot(),
    ensures
        layer_entry(Layer::Memory(mem.insert(key, value)), other) == layer_entry(Layer::Memory(mem), other),
{
    let after = mem.insert(key, value);
    assert forall|l: u64| after.contains_key(#[trigger] key_at(other, l)) == mem.contains_key(key_at(other, l)) by {
        assert(key_at(other, l) != key);
    }
    assert(has_version(after, other) == has_version(mem, other)) by {
        if has_version(mem, other) {
            let l = choose|l: u64| mem.contains_key(#[trigger] key_at(other, l));
            assert(after.contains_key(key_at(other, l)));
        }
        if has_version(after, other) {
            let l = choose|l: u64| after.contains_key(#[trigger] key_at(other, l));
            assert(mem.contains_key(key_at(other, l)));
        }
    }
    if has_version(mem, other) {
        let from = choose|l: u64| mem.contains_key(#[trigger] key_at(other, l));
        let lsn = lemma_latest_exists(mem, other, from);
        assert(is_latest_lsn(after, other, lsn)) by {
            assert forall|l: u64| after.contains_key(#[trigger] key_at(other, l)) implies l <= lsn by {
                assert(mem.contains_key(key_at(other, l)));
            }
        }
        let (a, b) = (choose|l: u64| is_latest_lsn(mem, other, l), choose|l: u64| is_latest_lsn(after, other, l));
        assert(mem.contains_key(key_at(other, a)) && mem.contains_key(key_at(other, lsn)));
        assert(after.contains_key(key_at(other, b)) && after.contains_key(key_at(other, lsn)));
    }
}

/// Flushing the table in memory changes no read: neither while it is being written, nor once
/// it is on disk.
pub proof fn law_flush_keeps_reads(
    mem: Map<LsmKey, Option<Seq<u8>>>,
    tables: Seq<Seq<Entry>>,
    es: Seq<Entry>,
    slot: Slot,
)
    requires
        is_full_listing(es, mem),
    ensures
        read_layers(all_layers(Map::empty(), Some(mem), tables), slot) == read_layers(
            all_layers(mem, None, tables),
            slot,
        ),
        read_layers(all_layers(Map::empty(), None, tables.push(es)), slot) == read_layers(
            all_layers(mem, None, tables),
            slot,
        ),
{
    let empty = Map::<LsmKey, Option<Seq<u8>>>::empty();
    let disk = disk_layers(tables);
    lemma_empty_memory(slot);
    lemma_listing_layer(es, mem, least_key(), greatest_key(), slot);
    lemma_read_concat(seq![Layer::Memory(mem)], disk, slot);
    lemma_read_one(Layer::Memory(mem), slot);
    lemma_read_concat(seq![Layer::Memory(empty), Layer::Memory(mem)], disk, slot);
    assert(seq![Layer::Memory(empty), Layer::Memory(mem)].drop_first() =~= seq![Layer::Memory(mem)]);
    lemma_read_concat(seq![Layer::Memory(empty)], disk_layers(tables.push(es)), slot);
    lemma_read_one(Layer::Memory(empty), slot);
    lemma_read_disk_push(tables, es, slot);
}

/// No version of the slot in an older table has a greater sequence number than the last one in
/// a newer table that has the slot. Tables are listed from the oldest to the newest.
pub open spec fn chronological(tables: Seq<Seq<Entry>>, slot: Slot) -> bool {
    forall|i: int, j: int, x: int|
        0 <= i < j < tables.len() && 0 <= x < tables[i].len() && (#[trigger] tables[i][x]).0.spec_slot() == slot && (
        #[trigger] last_entry(tables[j], slot)) is Some ==> tables[i][x].0.lsn <= (last_entry(
            tables[j],
            slot,
        )->0).0.lsn
}

/// All entries of the tables, from the oldest table to the newest.
pub open spec fn all_entries(tables: Seq<Seq<Entry>>) -> Seq<Entry> {
    crate::storage::table_file::flat(tables)
}

/// The keys of a list of entries.
pub open spec fn keys_of(es: Seq<Entry>) -> Seq<LsmKey> {
    Seq::new(es.len(), |i: int| es[i].0)
}

/// The entry of a slot with the greatest sequence number, the last one if there are several.
pub open spec fn newest_entry(es: Seq<Entry>, slot: Slot) -> Option<Entry> {
    if exists|i: int| is_newest_of(es, slot, i) {
        Some(es[choose|i: int| is_newest_of(es, slot, i)])
    } else {
        None
    }
}

/// Position `i` is that of the entry of the slot with the greatest sequence number, the last
/// one if there are several.
pub open spec fn is_newest_of(es: Seq<Entry>, slot: Slot, i: int) -> bool {
    &&& 0 <= i < es.len()
    &&& es[i].0.spec_slot() == slot
    &&& is_newest(keys_of(es), i)
}

/// There is at most one newest entry.
pub proof fn lemma_newest_unique(es: Seq<Entry>, slot: Slot, i: int)
    requires
        is_newest_of(es, slot, i),
    ensures
        newest_entry(es, slot) == Some(es[i]),
{
    let c = choose|c: int| is_newest_of(es, slot, c);
    if c != i {
        let keys = keys_of(es);
        assert(keys[c].spec_slot() == keys[i].spec_slot());
        assert(index_before(keys, c, i));
        assert(index_before(keys, i, c));
    }
}

/// A slot that occurs has a newest entry.
pub proof fn lemma_newest_exists(es: Seq<Entry>, slot: Slot, from: int) -> (i: int)
    requires
        0 <= from < es.len(),
        es[from].0.spec_slot() == slot,
    ensures
        is_newest_of(es, slot, i),
        es[from].0.lsn <= es[i].0.lsn,
    decreases u64::MAX - es[from].0.lsn, es.len() - from,
{
    let keys = keys_of(es);
    if is_newest(keys, from) {
        from
    } else {
        let j = choose|j: int|
            0 <= j < keys.len() && j != from && (#[trigger] keys[j]).spec_slot() == keys[from].spec_slot()
                && !index_before(keys, j, from);
        assert(keys[j] == es[j].0);
        assert(index_before(keys, from, j)) by {
            crate::sort::lemma_index_before_total(keys, from, j, j);
        }
        lemma_newest_exists(es, slot, j)
    }
}

/// `out` is what merging leaves of the entries: of each slot the newest entry, unless that is a
/// deletion, in ascending order.
pub open spec fn is_merged(out: Seq<Entry>, es: Seq<Entry>) -> bool {
    &&& entries_sorted(out)
    &&& forall|x: int|
        0 <= x < out.len() ==> newest_entry(es, (#[trigger] out[x]).0.spec_slot()) == Some(out[x]) && out[x].1 is Some
    &&& forall|slot: Slot|
        (#[trigger] newest_entry(es, slot)) is Some && (newest_entry(es, slot)->0).1 is Some ==> out.contains(
            newest_entry(es, slot)->0,
        )
    &&& forall|x: int, y: int|
        0 <= x < y < out.len() ==> (#[trigger] out[x]).0.spec_slot() != (#[trigger] out[y]).0.spec_slot()
}

/// What the merged entries say of a slot.
pub proof fn lemma_merged_lookup(out: Seq<Entry>, es: Seq<Entry>, slot: Slot)
    requires
        is_merged(out, es),
    ensures
        last_entry(out, slot) == if newest_entry(es, slot) is Some && (newest_entry(es, slot)->0).1 is Some {
            newest_entry(es, slot)
        } else {
            None
        },
{
    if newest_entry(es, slot) is Some && (newest_entry(es, slot)->0).1 is Some {
        let e = newest_entry(es, slot)->0;
        assert(out.contains(e));
        let x = choose|x: int| 0 <= x < out.len() && out[x] == e;
        let i = choose|i: int| is_newest_of(es, slot, i);
        assert(e.0.spec_slot() == slot);
        lemma_last_entry_at(out, slot, x);
    } else {
        assert forall|x: int| 0 <= x < out.len() implies (#[trigger] out[x]).0.spec_slot() != slot by {
            if out[x].0.spec_slot() == slot {
                assert(newest_entry(es, slot) == Some(out[x]));
            }
        }
        lemma_no_last_entry(out, slot);
    }
}

/// Where the tables are in chronological order and each is sorted, a read sees the newest of
/// all entries.
pub proof fn law_read_sees_newest(tables: Seq<Seq<Entry>>, slot: Slot)
    requires
        chronological(tables, slot),
        forall|i: int| 0 <= i < tables.len() ==> entries_sorted(#[trigger] tables[i]),
    ensures
        read_layers(disk_layers(tables), slot) == newest_entry(all_entries(tables), slot),
    decreases tables.len(),
{
    let es = all_entries(tables);
    if tables.len() == 0 {
        assert(disk_layers(tables) =~= Seq::<Layer>::empty());
    } else {
        let init = tables.drop_last();
        let t = tables.last();
        let before = all_entries(init);
        assert(tables =~= init.push(t));
        assert(es =~= before + t);
        lemma_read_disk_push(init, t, slot);
        assert(chronological(init, slot)) by {
            assert forall|i: int, j: int, x: int|
                0 <= i < j < init.len() && 0 <= x < init[i].len() && (#[trigger] init[i][x]).0.spec_slot() == slot && (
                #[trigger] last_entry(init[j], slot)) is Some implies init[i][x].0.lsn <= (last_entry(
                init[j],
                slot,
            )->0).0.lsn by {
                assert(init[i] == tables[i] && init[j] == tables[j]);
                assert(tables[i][x].0.spec_slot() == slot);
            }
        }
        law_read_sees_newest(init, slot);
        if last_entry(t, slot) is Some {
            let k = lemma_last_in_sorted(t, slot);
            let at = before.len() + k;
            assert(es[at] == t[k]);
            let keys = keys_of(es);
            assert forall|j: int|
                0 <= j < keys.len() && j != at && (#[trigger] keys[j]).spec_slot()
                    == keys[at].spec_slot() implies index_before(keys, j, at) by {
                if j < before.len() {
                    assert(es[j] == before[j]);
                    let (i, x) = lemma_flat_member(init, j);
                    assert(tables[i][x] == before[j]);
                    assert(last_entry(tables[tables.len() - 1], slot) == Some(t[k]));
                    assert(tables[i][x].0.lsn <= t[k].0.lsn);
                } else {
                    assert(es[j] == t[j - before.len()]);
                    if j > at {
                        assert(t[j - before.len()].0.spec_slot() == slot);
                        assert(false);
                    }
                    assert(key_less(t[j - before.len()].0, t[k].0));
                }
            }
            lemma_newest_unique(es, slot, at);
        } else {
            lemma_newest_of_prefix(before, t, slot);
        }
    }
}

/// The position of the last entry of a slot.
proof fn lemma_last_in_sorted(t: Seq<Entry>, slot: Slot) -> (k: int)
    requires
        last_entry(t, slot) is Some,
    ensures
        0 <= k < t.len(),
        t[k] == last_entry(t, slot)->0,
        t[k].0.spec_slot() == slot,
        forall|j: int| k < j < t.len() ==> (#[trigger] t[j]).0.spec_slot() != slot,
    decreases t.len(),
{
    if t.last().0.spec_slot() == slot {
        t.len() - 1
    } else {
        let k = lemma_last_in_sorted(t.drop_last(), slot);
        assert forall|j: int| k < j < t.len() implies (#[trigger] t[j]).0.spec_slot() != slot by {
            if j < t.len() - 1 {
                assert(t.drop_last()[j] == t[j]);
            }
        }
        k
    }
}

/// Every entry of all tables stands in one of them.
pub proof fn lemma_flat_member(tables: Seq<Seq<Entry>>, j: int) -> (r: (int, int))
    requires
        0 <= j < all_entries(tables).len(),
    ensures
        0 <= r.0 < tables.len(),
        0 <= r.1 < tables[r.0].len(),
        tables[r.0][r.1] == all_entries(tables)[j],
    decreases tables.len(),
{
    let init = tables.drop_last();
    let before = all_entries(init);
    if j < before.len() {
        let r = lemma_flat_member(init, j);
        assert(init[r.0] == tables[r.0]);
        r
    } else {
        (tables.len() - 1, j - before.len())
    }
}

/// A list in which a slot does not occur has no say in its newest entry.
proof fn lemma_newest_of_prefix(a: Seq<Entry>, b: Seq<Entry>, slot: Slot)
    requires
        last_entry(b, slot) is None,
    ensures
        newest_entry(a + b, slot) == newest_entry(a, slot),
{
    let es = a + b;
    let (ka, ke) = (keys_of(a), keys_of(es));
    assert forall|j: int| a.len() <= j < es.len() implies (#[trigger] es[j]).0.spec_slot() != slot by {
        assert(es[j] == b[j - a.len()]);
        lemma_none_means_absent(b, slot, j - a.len());
    }
    if exists|i: int| is_newest_of(a, slot, i) {
        let i = choose|i: int| is_newest_of(a, slot, i);
        assert(is_newest_of(es, slot, i)) by {
            assert forall|j: int|
                0 <= j < ke.len() && j != i && (#[trigger] ke[j]).spec_slot() == ke[i].spec_slot() implies index_before(
                ke,
                j,
                i,
            ) by {
                assert(es[j].0.spec_slot() == slot);
                assert(ka[j] == ke[j] && ka[i] == ke[i]);
                assert(index_before(ka, j, i));
            }
        }
        lemma_newest_unique(a, slot, i);
        lemma_newest_unique(es, slot, i);
    } else if exists|i: int| is_newest_of(es, slot, i) {
        let i = choose|i: int| is_newest_of(es, slot, i);
        assert(es[i] == a[i]);
        let n = lemma_newest_exists(a, slot, i);
        assert(false);
    }
}

proof fn lemma_none_means_absent(b: Seq<Entry>, slot: Slot, j: int)
    requires
        last_entry(b, slot) is None,
        0 <= j < b.len(),
    ensures
        b[j].0.spec_slot() != slot,
    decreases b.len(),
{
    if j < b.len() - 1 {
        assert(b.drop_last()[j] == b[j]);
        lemma_none_means_absent(b.drop_last(), slot, j);
    }
}

/// Merging all tables into one keeps the data that every read yields. Of a slot whose newest
/// entry is a deletion, nothing is left.
pub proof fn law_merge_keeps_reads(tables: Seq<Seq<Entry>>, out: Seq<Entry>, slot: Slot)
    requires
        chronological(tables, slot),
        forall|i: int| 0 <= i < tables.len() ==> entries_sorted(#[trigger] tables[i]),
        is_merged(out, all_entries(tables)),
    ensures
        read_data(disk_layers(seq![out]), slot) == read_data(disk_layers(tables), slot),
        read_layers(disk_layers(tables), slot) matches Some(e) && e.1 is Some ==> read_layers(
            disk_layers(seq![out]),
            slot,
        ) == read_layers(disk_layers(tables), slot),
        read_layers(disk_layers(tables), slot) matches Some(e) && e.1 is None ==> read_layers(
            disk_layers(seq![out]),
            slot,
        ) is None,
{
    law_read_sees_newest(tables, slot);
    lemma_merged_lookup(out, all_entries(tables), slot);
    assert(disk_layers(seq![out]) =~= seq![Layer::Disk(out)]);
    lemma_read_one(Layer::Disk(out), slot);
}

/// The number of the newest layer that has the slot; the number of layers if none has.
pub open spec fn layer_rank(layers: Seq<Layer>, slot: Slot) -> nat
    decreases layers.len(),
{
    if layers.len() == 0 || layer_entry(layers[0], slot) is Some {
        0
    } else {
        1 + layer_rank(layers.drop_first(), slot)
    }
}

/// `out` lists what reads of the slots of a partition see: first what the newest layer says,
/// then what the next one adds, and so on; within a layer in ascending order.
pub open spec fn is_layered_scan(out: Seq<Entry>, layers: Seq<Layer>, ns: u8, partition: u32) -> bool {
    &&& forall|x: int|
        0 <= x < out.len() ==> in_prefix((#[trigger] out[x]).0, ns, partition) && read_layers(
            layers,
            out[x].0.spec_slot(),
        ) == Some(out[x])
    &&& forall|x: int, y: int|
        0 <= x < y < out.len() ==> scan_before(layers, (#[trigger] out[x]).0, (#[trigger] out[y]).0)
    &&& forall|slot: Slot|
        slot.namespace == ns && slot.partition == partition && (#[trigger] read_layers(layers, slot)) is Some
            ==> out.contains(read_layers(layers, slot)->0)
}

/// The entry with key `a` comes before that with key `b` in a scan of the layers.
pub open spec fn scan_before(layers: Seq<Layer>, a: LsmKey, b: LsmKey) -> bool {
    let (ra, rb) = (layer_rank(layers, a.spec_slot()), layer_rank(layers, b.spec_slot()));
    ra < rb || (ra == rb && key_less(a, b))
}

/// `scan` lists what a layer says of the slots of a partition, in ascending order.
pub open spec fn is_layer_scan(scan: Seq<Entry>, layer: Layer, ns: u8, partition: u32) -> bool {
    &&& forall|x: int|
        0 <= x < scan.len() ==> in_prefix((#[trigger] scan[x]).0, ns, partition) && layer_entry(
            layer,
            scan[x].0.spec_slot(),
        ) == Some(scan[x])
    &&& entries_sorted(scan)
    &&& forall|slot: Slot|
        slot.namespace == ns && slot.partition == partition && (#[trigger] layer_entry(layer, slot)) is Some
            ==> scan.contains(layer_entry(layer, slot)->0)
}

/// Some entry is of the document.
pub open spec fn has_doc(es: Seq<Entry>, doc_id: u64) -> bool {
    exists|x: int| 0 <= x < es.len() && (#[trigger] es[x]).0.doc_id == doc_id
}

/// `out` is `acc` followed by the entries of `scan` whose documents do not occur in `acc`.
pub open spec fn adds_unseen(out: Seq<Entry>, acc: Seq<Entry>, scan: Seq<Entry>) -> bool {
    &&& acc.len() <= out.len()
    &&& forall|x: int| 0 <= x < acc.len() ==> (#[trigger] out[x]) == acc[x]
    &&& forall|x: int|
        acc.len() <= x < out.len() ==> scan.contains(#[trigger] out[x]) && !has_doc(acc, out[x].0.doc_id)
    &&& forall|x: int, y: int|
        acc.len() <= x < y < out.len() ==> key_less((#[trigger] out[x]).0, (#[trigger] out[y]).0)
    &&& forall|z: int|
        0 <= z < scan.len() ==> has_doc(acc, (#[trigger] scan[z]).0.doc_id) || out.contains(scan[z])
}

proof fn lemma_rank_push(layers: Seq<Layer>, layer: Layer, slot: Slot)
    ensures
        layer_rank(layers, slot) <= layers.len(),
        read_layers(layers, slot) is Some <==> layer_rank(layers, slot) < layers.len(),
        read_layers(layers, slot) is Some ==> layer_rank(layers.push(layer), slot) == layer_rank(layers, slot)
            && read_layers(layers.push(layer), slot) == read_layers(layers, slot),
        read_layers(layers, slot) is None && layer_entry(layer, slot) is Some ==> layer_rank(layers.push(layer), slot)
            == layers.len() && read_layers(layers.push(layer), slot) == layer_entry(layer, slot),
        read_layers(layers, slot) is None && layer_entry(layer, slot) is None ==> read_layers(layers.push(layer), slot)
            is None,
    decreases layers.len(),
{
    if layers.len() == 0 {
        assert(layers.push(layer).drop_first() =~= Seq::<Layer>::empty());
        assert(read_layers(Seq::<Layer>::empty(), slot) is None);
    } else {
        assert(layers.push(layer).drop_first() =~= layers.drop_first().push(layer));
        lemma_rank_push(layers.drop_first(), layer, slot);
    }
}

/// Adding what a further layer says of documents that were not seen yet extends a scan by that
/// layer.
pub proof fn lemma_scan_extends(
    out: Seq<Entry>,
    acc: Seq<Entry>,
    scan: Seq<Entry>,
    layers: Seq<Layer>,
    layer: Layer,
    ns: u8,
    partition: u32,
)
    requires
        is_layered_scan(acc, layers, ns, partition),
        is_layer_scan(scan, layer, ns, partition),
        adds_unseen(out, acc, scan),
    ensures
        is_layered_scan(out, layers.push(layer), ns, partition),
{
    let all = layers.push(layer);
    assert forall|x: int| 0 <= x < out.len() implies in_prefix((#[trigger] out[x]).0, ns, partition) && read_layers(
        all,
        out[x].0.spec_slot(),
    ) == Some(out[x]) && (x < acc.len() ==> layer_rank(all, out[x].0.spec_slot()) < layers.len()) && (x
        >= acc.len() ==> layer_rank(all, out[x].0.spec_slot()) == layers.len()) by {
        let slot = out[x].0.spec_slot();
        lemma_rank_push(layers, layer, slot);
        if x < acc.len() {
            assert(out[x] == acc[x]);
        } else {
            assert(scan.contains(out[x]));
            let z = choose|z: int| 0 <= z < scan.len() && scan[z] == out[x];
            assert(in_prefix(scan[z].0, ns, partition));
            if read_layers(layers, slot) is Some {
                let e = read_layers(layers, slot)->0;
                assert(acc.contains(e));
                let k = choose|k: int| 0 <= k < acc.len() && acc[k] == e;
                lemma_read_slot(layers, slot);
                assert(acc[k].0.doc_id == out[x].0.doc_id);
                assert(has_doc(acc, out[x].0.doc_id));
            }
        }
    }
    assert forall|x: int, y: int| 0 <= x < y < out.len() implies scan_before(
        all,
        (#[trigger] out[x]).0,
        (#[trigger] out[y]).0,
    ) by {
        if y < acc.len() {
            assert(out[x] == acc[x] && out[y] == acc[y]);
            assert(scan_before(layers, acc[x].0, acc[y].0));
            lemma_rank_push(layers, layer, acc[x].0.spec_slot());
            lemma_rank_push(layers, layer, acc[y].0.spec_slot());
        }
    }
    assert forall|slot: Slot|
        slot.namespace == ns && slot.partition == partition && (#[trigger] read_layers(all, slot))
            is Some implies out.contains(read_layers(all, slot)->0) by {
        lemma_rank_push(layers, layer, slot);
        if read_layers(layers, slot) is Some {
            let e = read_layers(layers, slot)->0;
            assert(acc.contains(e));
            let k = choose|k: int| 0 <= k < acc.len() && acc[k] == e;
            assert(out[k] == e);
        } else {
            let e = layer_entry(layer, slot)->0;
            assert(scan.contains(e));
            let z = choose|z: int| 0 <= z < scan.len() && scan[z] == e;
            if has_doc(acc, e.0.doc_id) {
                let k = choose|k: int| 0 <= k < acc.len() && (#[trigger] acc[k]).0.doc_id == e.0.doc_id;
                assert(in_prefix(acc[k].0, ns, partition));
                lemma_layer_entry_slot(layer, slot);
                assert(acc[k].0.spec_slot() == slot);
                assert(false);
            }
        }
    }
}

/// What a layer says of a slot is an entry of that slot.
pub proof fn lemma_layer_entry_slot(layer: Layer, slot: Slot)
    requires
        layer_entry(layer, slot) is Some,
    ensures
        (layer_entry(layer, slot)->0).0.spec_slot() == slot,
{
    if let Layer::Disk(es) = layer {
        let i = lemma_last_entry_member(es, slot);
    }
}

/// What a read of a slot sees is an entry of that slot.
pub proof fn lemma_read_slot(layers: Seq<Layer>, slot: Slot)
    requires
        read_layers(layers, slot) is Some,
    ensures
        (read_layers(layers, slot)->0).0.spec_slot() == slot,
    decreases layers.len(),
{
    if layer_entry(layers[0], slot) is Some {
        lemma_layer_entry_slot(layers[0], slot);
    } else {
        lemma_read_slot(layers.drop_first(), slot);
    }
}

} // verus!
