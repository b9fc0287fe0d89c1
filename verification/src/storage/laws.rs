//! What holds of the parts of the storage: the in-memory table, the replay of the log, and what
//! decoding tells of the bytes it reads.

use vstd::prelude::*;

use crate::bytes::{be_bytes, be_value, lemma_be_bytes_len, lemma_be_bytes_of_value, lemma_be_value_bound};
use crate::bytes::lemma_pow256_values;
use crate::storage::checksum::crc32;
use crate::storage::entry::{decode_entries, entries_bytes, entries_fit, entry_bytes, key_of_bytes, last_entry};
use crate::storage::entry::{lemma_entries_bytes_concat, Entry};
use crate::storage::key::{decode_value, key_bytes, key_less, value_bytes, value_fits, LsmKey, Slot, ValueError};
use crate::sort::index_before;
use crate::storage::layers::{is_merged, is_newest_of, keys_of, layer_entry, layer_rank, newest_entry, read_layers};
use crate::storage::layers::{lemma_newest_unique, Layer};
use crate::storage::lsm::{bytes_after, decode_tables, insert_all, last_checkpoint, replay_entries, table_name};
use crate::storage::sstable::{decode_blocks, take_entry, write_entry, written_by_entry, WriterState, BLOCK_SIZE};
use crate::storage::sstable::{footer_bytes, index_block_count, index_bytes, index_entries_bytes, index_entry_at};
use crate::storage::sstable::{parse_footer, parse_index};
use crate::storage::wal::{decode_batch, decode_op, entries_with_lsn, kept_len, kept_records, op_code_of, parse_record_at};
use crate::storage::wal::{payload_of, record_body, record_frame, records_len, stamped, WalError, WalOpView, WalRecordView};
use crate::text::law_decimal_texts_differ;

verus! {

/// After entries have been inserted, a key holds the value of the last of them that has the key.
/// Keys of which there is none keep their values, and no other keys come in.
pub proof fn law_last_insert_wins(m: Map<LsmKey, Option<Seq<u8>>>, es: Seq<Entry>, key: LsmKey, i: int)
    ensures
        insert_all(m, es).contains_key(key) <==> m.contains_key(key) || exists|j: int|
            0 <= j < es.len() && (#[trigger] es[j]).0 == key,
        (0 <= i < es.len() && es[i].0 == key && forall|j: int| i < j < es.len() ==> (#[trigger] es[j]).0 != key)
            ==> insert_all(m, es)[key] == es[i].1,
        (m.contains_key(key) && forall|j: int| 0 <= j < es.len() ==> (#[trigger] es[j]).0 != key) ==> insert_all(
            m,
            es,
        )[key] == m[key],
    decreases es.len(),
{
    if es.len() > 0 {
        let init = es.drop_last();
        let n = es.len() - 1;
        law_last_insert_wins(m, init, key, i);
        assert forall|j: int| 0 <= j < n implies (#[trigger] init[j]) == es[j] by {}
        if exists|j: int| 0 <= j < es.len() && (#[trigger] es[j]).0 == key {
            let j = choose|j: int| 0 <= j < es.len() && (#[trigger] es[j]).0 == key;
            if j < n {
                assert(init[j].0 == key);
            }
        }
        if es[n].0 != key && insert_all(m, es).contains_key(key) && !m.contains_key(key) {
            let j = choose|j: int| 0 <= j < init.len() && (#[trigger] init[j]).0 == key;
            assert(es[j].0 == key);
        }
    }
}

/// The memory that is counted for entries is that of their bytes.
pub proof fn law_counted_memory(bytes: u64, es: Seq<Entry>)
    ensures
        bytes_after(bytes, es) == (bytes + entries_bytes(es).len()) % 0x1_0000_0000_0000_0000,
    decreases es.len(),
{
    if es.len() > 0 {
        law_counted_memory(bytes, es.drop_last());
        let m: int = 0x1_0000_0000_0000_0000;
        let (a, b) = (bytes + entries_bytes(es.drop_last()).len(), entry_bytes(es.last()).len() as int);
        vstd::arithmetic::div_mod::lemma_add_mod_noop(a as int, b, m);
        vstd::arithmetic::div_mod::lemma_mod_twice(a as int, m);
        vstd::arithmetic::div_mod::lemma_add_mod_noop(a as int % m, b, m);
    }
}

/// What a log tells of the checkpoint is its last record of one, if it has any.
pub proof fn law_last_checkpoint_counts(records: Seq<WalRecordView>, known: u64, i: int)
    ensures
        (forall|j: int| 0 <= j < records.len() ==> !((#[trigger] records[j]).op is Checkpoint)) ==> last_checkpoint(
            records,
            known,
        ) == known,
        (0 <= i < records.len() && records[i].op is Checkpoint && forall|j: int|
            i < j < records.len() ==> !((#[trigger] records[j]).op is Checkpoint)) ==> last_checkpoint(records, known)
            == records[i].op->last_applied_lsn,
    decreases records.len(),
{
    if records.len() > 0 {
        let init = records.drop_last();
        assert forall|j: int| 0 <= j < init.len() implies (#[trigger] init[j]) == records[j] by {}
        law_last_checkpoint_counts(init, known, i);
        assert(records.last() == records[records.len() - 1]);
    }
}

/// Replaying a log replays its records one after the other: what one of them puts or deletes, with
/// its number, and nothing for the others.
pub proof fn law_replay_goes_record_by_record(records: Seq<WalRecordView>, more: Seq<WalRecordView>, rec: WalRecordView)
    ensures
        replay_entries(records + more) == replay_entries(records) + replay_entries(more),
        rec.op matches WalOpView::Put { key, value } ==> replay_entries(seq![rec]) == seq![(key, value)],
        rec.op matches WalOpView::BatchPut { entries } ==> replay_entries(seq![rec]).len() == entries.len() && forall|
            i: int,
        |
            0 <= i < entries.len() ==> (#[trigger] replay_entries(seq![rec])[i]) == (
                LsmKey { lsn: rec.lsn, ..entries[i].0 },
                entries[i].1,
            ),
        rec.op matches WalOpView::Delete { namespace, doc_id } ==> replay_entries(seq![rec]) == seq![
            (LsmKey { namespace, partition_or_segment: 0, doc_id, lsn: rec.lsn }, None::<Seq<u8>>),
        ],
        rec.op is PartitionSplit || rec.op is Checkpoint ==> replay_entries(seq![rec]).len() == 0,
{
    lemma_replay_joined(records, more);
    assert(seq![rec].drop_last() =~= Seq::<WalRecordView>::empty());
    assert(replay_entries(Seq::<WalRecordView>::empty()) =~= Seq::<Entry>::empty());
    let out = replay_entries(seq![rec]);
    match rec.op {
        WalOpView::Put { key, value } => {
            assert(out =~= seq![(key, value)]);
        },
        WalOpView::BatchPut { entries } => {
            assert(out =~= entries_with_lsn(entries, rec.lsn));
        },
        WalOpView::Delete { namespace, doc_id } => {
            assert(out =~= seq![
                (LsmKey { namespace, partition_or_segment: 0, doc_id, lsn: rec.lsn }, None::<Seq<u8>>),
            ]);
        },
        _ => {},
    }
}

proof fn lemma_replay_joined(records: Seq<WalRecordView>, more: Seq<WalRecordView>)
    ensures
        replay_entries(records + more) == replay_entries(records) + replay_entries(more),
    decreases more.len(),
{
    let all = records + more;
    if more.len() == 0 {
        assert(all =~= records);
        assert(replay_entries(records) + replay_entries(more) =~= replay_entries(records));
    } else {
        assert(all.drop_last() =~= records + more.drop_last());
        assert(all.last() == more.last());
        lemma_replay_joined(records, more.drop_last());
        assert(replay_entries(all) =~= replay_entries(records) + replay_entries(more));
    }
}

/// Tables with different numbers have different files.
pub proof fn law_table_names_differ(a: u64, b: u64)
    requires
        a != b,
    ensures
        table_name(a) != table_name(b),
{
    law_decimal_texts_differ(a as nat, b as nat);
    let (x, y) = (crate::text::decimal4(a as nat), crate::text::decimal4(b as nat));
    if table_name(a) == table_name(b) {
        let (s, e) = ("sstable-"@, ".bin"@);
        assert(table_name(a).len() == s.len() + x.len() + e.len());
        assert(table_name(b).len() == s.len() + y.len() + e.len());
        assert(table_name(a).subrange(s.len() as int, (s.len() + x.len()) as int) =~= x);
        assert(table_name(b).subrange(s.len() as int, (s.len() + y.len()) as int) =~= y);
    }
}

/// The last entry of a slot is one of the entries, and no entry behind it has the slot; there is
/// none only if no entry has it.
pub proof fn law_last_entry_is_last(es: Seq<Entry>, slot: Slot)
    ensures
        last_entry(es, slot) is None <==> forall|i: int| 0 <= i < es.len() ==> (#[trigger] es[i]).0.spec_slot() != slot,
        last_entry(es, slot) matches Some(e) ==> exists|i: int|
            0 <= i < es.len() && (#[trigger] es[i]) == e && is_last_of(es, slot, i),
    decreases es.len(),
{
    if es.len() > 0 {
        let init = es.drop_last();
        let n = es.len() - 1;
        law_last_entry_is_last(init, slot);
        assert forall|i: int| 0 <= i < n implies (#[trigger] init[i]) == es[i] by {}
        if es[n].0.spec_slot() == slot {
            assert(is_last_of(es, slot, n));
        } else if last_entry(init, slot) is Some {
            let e = last_entry(init, slot)->0;
            let i = choose|i: int| 0 <= i < init.len() && (#[trigger] init[i]) == e && is_last_of(init, slot, i);
            assert(es[i] == e);
            assert forall|j: int| i < j < es.len() implies (#[trigger] es[j]).0.spec_slot() != slot by {
                if j < n {
                    assert(init[j].0.spec_slot() != slot);
                }
            }
        } else {
            assert forall|i: int| 0 <= i < es.len() implies (#[trigger] es[i]).0.spec_slot() != slot by {
                if i < n {
                    assert(init[i].0.spec_slot() != slot);
                }
            }
        }
    }
}

/// The entry has the slot, and none behind it has.
pub open spec fn is_last_of(es: Seq<Entry>, slot: Slot, i: int) -> bool {
    es[i].0.spec_slot() == slot && forall|j: int| i < j < es.len() ==> (#[trigger] es[j]).0.spec_slot() != slot
}

/// A read takes the entry of the first layer that has one: no layer before it has any. It finds
/// nothing only if no layer does.
pub proof fn law_first_layer_answers(layers: Seq<Layer>, slot: Slot)
    ensures
        read_layers(layers, slot) is None <==> forall|i: int|
            0 <= i < layers.len() ==> layer_entry(#[trigger] layers[i], slot) is None,
        read_layers(layers, slot) matches Some(e) ==> {
            let r = layer_rank(layers, slot) as int;
            &&& r < layers.len()
            &&& layer_entry(layers[r], slot) == Some(e)
            &&& forall|i: int| 0 <= i < r ==> layer_entry(#[trigger] layers[i], slot) is None
        },
    decreases layers.len(),
{
    if layers.len() > 0 && layer_entry(layers[0], slot) is None {
        let rest = layers.drop_first();
        law_first_layer_answers(rest, slot);
        assert forall|i: int| 0 <= i < rest.len() implies (#[trigger] rest[i]) == layers[i + 1] by {}
        if read_layers(layers, slot) is Some {
            let r = layer_rank(layers, slot) as int;
            assert(rest[r - 1] == layers[r]);
            assert forall|i: int| 0 <= i < r implies layer_entry(#[trigger] layers[i], slot) is None by {
                if i > 0 {
                    assert(rest[i - 1] == layers[i]);
                }
            }
            assert(layer_entry(layers[r], slot) is Some);
        } else {
            assert forall|i: int| 0 <= i < layers.len() implies layer_entry(#[trigger] layers[i], slot) is None by {
                if i > 0 {
                    assert(rest[i - 1] == layers[i]);
                }
            }
        }
    } else if layers.len() > 0 {
        assert(layer_entry(layers[0], slot) is Some);
    }
}

/// Blocks are decoded one after the other: what they hold follows on each other, and the first one
/// that cannot be decoded is the error.
pub proof fn law_blocks_are_decoded_in_order(blocks: Seq<Seq<u8>>, more: Seq<Seq<u8>>, block: Seq<u8>)
    ensures
        decode_blocks(seq![block]) == decode_entries(block),
        decode_blocks(blocks + more) == match decode_blocks(blocks) {
            Err(e) => Err(e),
            Ok(es) => match decode_blocks(more) {
                Err(e) => Err(e),
                Ok(tail) => Ok::<Seq<Entry>, ValueError>(es + tail),
            },
        },
{
    lemma_blocks_joined(blocks, more);
    assert(seq![block].drop_last() =~= Seq::<Seq<u8>>::empty());
    assert(decode_blocks(Seq::<Seq<u8>>::empty()) == Ok::<Seq<Entry>, ValueError>(Seq::empty()));
    if let Ok(es) = decode_entries(block) {
        assert(Seq::<Entry>::empty() + es =~= es);
    }
}

proof fn lemma_blocks_joined(blocks: Seq<Seq<u8>>, more: Seq<Seq<u8>>)
    ensures
        decode_blocks(blocks + more) == match decode_blocks(blocks) {
            Err(e) => Err(e),
            Ok(es) => match decode_blocks(more) {
                Err(e) => Err(e),
                Ok(tail) => Ok::<Seq<Entry>, ValueError>(es + tail),
            },
        },
    decreases more.len(),
{
    let all = blocks + more;
    if more.len() == 0 {
        assert(all =~= blocks);
        if let Ok(es) = decode_blocks(blocks) {
            assert(es + Seq::<Entry>::empty() =~= es);
        }
    } else {
        let init = more.drop_last();
        assert(all.drop_last() =~= blocks + init);
        assert(all.last() == more.last());
        lemma_blocks_joined(blocks, init);
        match (decode_blocks(blocks), decode_blocks(init), decode_entries(more.last())) {
            (Ok(a), Ok(b), Ok(c)) => {
                assert((a + b) + c =~= a + (b + c));
            },
            _ => {},
        }
    }
}

/// Every table is decoded by itself, and all of them are: the last one that cannot be decoded is
/// the error.
pub proof fn law_every_table_is_decoded(tables: Seq<Seq<Seq<u8>>>)
    ensures
        decode_tables(tables) matches Ok(out) ==> out.len() == tables.len() && forall|i: int|
            0 <= i < tables.len() ==> decode_blocks(#[trigger] tables[i]) == Ok::<Seq<Entry>, ValueError>(out[i]),
        decode_tables(tables) matches Err(e) ==> exists|i: int|
            0 <= i < tables.len() && decode_blocks(#[trigger] tables[i]) == Err::<Seq<Entry>, ValueError>(e)
                && rest_decodes(tables, i),
    decreases tables.len(),
{
    if tables.len() > 0 {
        let init = tables.drop_last();
        let n = tables.len() - 1;
        law_every_table_is_decoded(init);
        match (decode_blocks(tables[n]), decode_tables(init)) {
            (Err(_), _) => {
                assert(rest_decodes(tables, n));
            },
            (Ok(es), Err(e)) => {
                let i = choose|i: int|
                    0 <= i < init.len() && decode_blocks(#[trigger] init[i]) == Err::<Seq<Entry>, ValueError>(e)
                        && rest_decodes(init, i);
                assert(tables[i] == init[i]);
                assert forall|j: int| i < j < tables.len() implies decode_blocks(#[trigger] tables[j]) is Ok by {
                    if j < n {
                        assert(init[j] == tables[j]);
                    }
                }
            },
            (Ok(es), Ok(rest)) => {
                assert forall|i: int| 0 <= i < tables.len() implies decode_blocks(#[trigger] tables[i]) == Ok::<
                    Seq<Entry>,
                    ValueError,
                >(rest.push(es)[i]) by {
                    if i < n {
                        assert(init[i] == tables[i]);
                    }
                }
            },
        }
    }
}

/// All tables behind the given one can be decoded.
pub open spec fn rest_decodes(tables: Seq<Seq<Seq<u8>>>, i: int) -> bool {
    forall|j: int| i < j < tables.len() ==> decode_blocks(#[trigger] tables[j]) is Ok
}

/// Cutting a log off at a number keeps the records in front of the first one that has that number
/// or a greater one, and as many bytes as they take.
pub proof fn law_records_are_kept_up_to_number(records: Seq<WalRecordView>, lsn: u64)
    ensures
        ({
            let kept = kept_records(records, lsn);
            let n = kept.len() as int;
            &&& n <= records.len()
            &&& kept == records.take(n)
            &&& forall|i: int| 0 <= i < n ==> (#[trigger] records[i]).lsn < lsn
            &&& n < records.len() ==> records[n].lsn >= lsn
            &&& kept_len(records, lsn) == records_len(records.take(n))
        }),
    decreases records.len(),
{
    let kept = kept_records(records, lsn);
    let n = kept.len() as int;
    if records.len() > 0 && records[0].lsn < lsn {
        let rest = records.drop_first();
        law_records_are_kept_up_to_number(rest, lsn);
        let m = n - 1;
        assert(m == kept_records(rest, lsn).len());
        assert(kept =~= records.take(n)) by {
            assert(rest.take(m) =~= records.subrange(1, n));
        }
        assert forall|i: int| 0 <= i < n implies (#[trigger] records[i]).lsn < lsn by {
            if i > 0 {
                assert(rest[i - 1] == records[i]);
            }
        }
        if n < records.len() {
            assert(rest[m] == records[n]);
        }
        assert(records.take(n).drop_first() =~= rest.take(m));
    } else {
        assert(records.take(0) =~= kept);
    }
}

/// A block of a table is written as soon as it holds enough bytes and not before: it then holds
/// what was waiting and the entry, and nothing waits any more. Otherwise the entry waits behind
/// what was waiting.
pub proof fn law_blocks_are_written_when_full(s: WriterState, e: Entry)
    ensures
        ({
            let after = write_entry(s, e);
            let written = written_by_entry(s, e);
            let waiting = s.block + key_bytes(e.0) + value_bytes(e.1);
            &&& written + after.block == waiting
            &&& waiting.len() >= BLOCK_SIZE ==> after.block.len() == 0 && after.index.len() == s.index.len() + 1
            &&& waiting.len() < BLOCK_SIZE ==> written.len() == 0 && after.index == s.index && after.offset == s.offset
            &&& s.entry_count < u32::MAX ==> after.entry_count == s.entry_count + 1
            &&& after.max_key == Some(e.0)
            &&& s.min_key is Some ==> after.min_key == s.min_key
            &&& s.min_key is None ==> after.min_key == Some(e.0)
        }),
{
    let after = write_entry(s, e);
    let written = written_by_entry(s, e);
    let waiting = s.block + key_bytes(e.0) + value_bytes(e.1);
    assert(take_entry(s, e).block =~= waiting);
    assert(written + after.block =~= waiting);
}

/// A value that is decoded stands in the bytes as it is written: what decoding reads is what
/// encoding writes of it. Bytes of no value are refused.
pub proof fn law_decoded_value_was_written(buf: Seq<u8>)
    ensures
        decode_value(buf) matches Ok((v, n)) ==> n <= buf.len() && value_fits(v) && value_bytes(v) == buf.take(n as int),
        decode_value(buf) == Err::<(Option<Seq<u8>>, nat), ValueError>(ValueError::Empty) <==> buf.len() == 0,
        buf.len() > 0 && buf[0] > 1 ==> decode_value(buf) == Err::<(Option<Seq<u8>>, nat), ValueError>(
            ValueError::UnknownType { tag: buf[0] },
        ),
        buf.len() > 0 && buf[0] == 1 ==> decode_value(buf) is Ok,
        buf.len() > 0 && buf[0] == 0 && buf.len() < 5 ==> decode_value(buf) == Err::<
            (Option<Seq<u8>>, nat),
            ValueError,
        >(ValueError::DataTooShort),
        buf.len() >= 5 && buf[0] == 0 ==> (decode_value(buf) is Ok <==> 5 + be_value(buf.subrange(1, 5)) <= buf.len()),
{
    broadcast use lemma_be_bytes_len;

    if let Ok((v, n)) = decode_value(buf) {
        if let Some(b) = v {
            let len = be_value(buf.subrange(1, 5));
            lemma_be_value_bound(buf.subrange(1, 5));
            lemma_pow256_values();
            lemma_be_bytes_of_value(buf.subrange(1, 5));
            assert(buf.take(n as int) =~= seq![0u8] + be_bytes(b.len(), 4) + b);
        } else {
            assert(buf.take(1) =~= seq![1u8]);
        }
    }
}

/// A key that is decoded stands in the bytes as it is written.
pub proof fn law_decoded_key_was_written(s: Seq<u8>)
    requires
        s.len() == 21,
    ensures
        key_bytes(key_of_bytes(s)) == s,
{
    broadcast use lemma_be_bytes_len;

    lemma_pow256_values();
    let key = key_of_bytes(s);
    let (a, b, c, d) = (s.subrange(0, 1), s.subrange(1, 5), s.subrange(5, 13), s.subrange(13, 21));
    lemma_be_value_bound(b);
    lemma_be_value_bound(c);
    lemma_be_value_bound(d);
    lemma_be_bytes_of_value(a);
    lemma_be_bytes_of_value(b);
    lemma_be_bytes_of_value(c);
    lemma_be_bytes_of_value(d);
    assert(a.drop_last() =~= Seq::<u8>::empty());
    assert(be_value(a.drop_last()) == 0);
    assert(be_value(a) == s[0]);
    assert(key_bytes(key) =~= s);
}

/// Entries that are decoded stand in the bytes as they are written, one after the other, up to a
/// rest that is too short for another entry.
pub proof fn law_decoded_entries_were_written(buf: Seq<u8>)
    ensures
        decode_entries(buf) matches Ok(es) ==> entries_fit(es) && entries_bytes(es).len() <= buf.len() && buf.len()
            - entries_bytes(es).len() < 21 && buf.take(entries_bytes(es).len() as int) == entries_bytes(es),
    decreases buf.len(),
{
    if buf.len() >= 21 {
        law_decoded_key_was_written(buf.take(21));
        law_decoded_value_was_written(buf.skip(21));
        if let Ok((v, n)) = decode_value(buf.skip(21)) {
            let tail = buf.skip(21 + n as int);
            law_decoded_entries_were_written(tail);
            if let Ok(rest) = decode_entries(tail) {
                let e = (key_of_bytes(buf.take(21)), v);
                let es = seq![e] + rest;
                lemma_entries_bytes_concat(seq![e], rest);
                assert(seq![e].drop_last() =~= Seq::<Entry>::empty());
                assert(entries_bytes(Seq::<Entry>::empty()) =~= Seq::<u8>::empty());
                assert(entries_bytes(seq![e]) =~= entry_bytes(e));
                assert(entry_bytes(e) =~= buf.take(21 + n as int)) by {
                    assert(buf.skip(21).take(n as int) =~= buf.subrange(21, 21 + n as int));
                }
                let m = entries_bytes(rest).len() as int;
                assert(buf.take(21 + n as int + m) =~= entries_bytes(es)) by {
                    assert(tail.take(m) =~= buf.subrange(21 + n as int, 21 + n as int + m));
                }
                assert forall|i: int| 0 <= i < es.len() implies value_fits((#[trigger] es[i]).1) by {
                    if i > 0 {
                        assert(es[i] == rest[i - 1]);
                    }
                }
            }
        }
    }
}

proof fn lemma_decoded_batch(buf: Seq<u8>, count: nat, lsn: u64)
    ensures
        decode_batch(buf, count, lsn) matches Ok(es) ==> is_written_batch(buf, count, lsn, es),
    decreases count,
{
    if count == 0 {
        let none = Seq::<Entry>::empty();
        assert(entries_with_lsn(none, lsn) =~= none);
        assert(buf.take(0) =~= entries_bytes(none));
        assert(are_batch_bytes(buf, count, lsn, none, none));
    } else if buf.len() >= 21 {
        law_decoded_key_was_written(buf.take(21));
        law_decoded_value_was_written(buf.skip(21));
        if let Ok((v, n)) = decode_value(buf.skip(21)) {
            let tail = buf.skip(21 + n as int);
            let less = (count - 1) as nat;
            lemma_decoded_batch(tail, less, lsn);
            if let Ok(rest) = decode_batch(tail, less, lsn) {
                let before = choose|before: Seq<Entry>| are_batch_bytes(tail, less, lsn, rest, before);
                let e = (key_of_bytes(buf.take(21)), v);
                let all = seq![e] + before;
                lemma_entries_bytes_concat(seq![e], before);
                assert(seq![e].drop_last() =~= Seq::<Entry>::empty());
                assert(entries_bytes(Seq::<Entry>::empty()) =~= Seq::<u8>::empty());
                assert(entries_bytes(seq![e]) =~= entry_bytes(e));
                assert(entry_bytes(e) =~= buf.take(21 + n as int)) by {
                    assert(buf.skip(21).take(n as int) =~= buf.subrange(21, 21 + n as int));
                }
                let m = entries_bytes(before).len() as int;
                assert(buf.take(21 + n as int + m) =~= entries_bytes(all)) by {
                    assert(tail.take(m) =~= buf.subrange(21 + n as int, 21 + n as int + m));
                }
                let es = decode_batch(buf, count, lsn)->Ok_0;
                assert(es =~= entries_with_lsn(all, lsn)) by {
                    assert forall|i: int| 1 <= i < es.len() implies es[i] == entries_with_lsn(all, lsn)[i] by {
                        assert(es[i] == rest[i - 1]);
                        assert(all[i] == before[i - 1]);
                    }
                }
                assert(are_batch_bytes(buf, count, lsn, es, all));
            }
        }
    }
}

/// The bytes start with the given number of entries, which are the others before they got their
/// number.
pub open spec fn are_batch_bytes(buf: Seq<u8>, count: nat, lsn: u64, es: Seq<Entry>, before: Seq<Entry>) -> bool {
    &&& before.len() == count
    &&& es == entries_with_lsn(before, lsn)
    &&& entries_bytes(before).len() <= buf.len()
    &&& buf.take(entries_bytes(before).len() as int) == entries_bytes(before)
}

/// The bytes start with the given number of entries, which get a number.
pub open spec fn is_written_batch(buf: Seq<u8>, count: nat, lsn: u64, es: Seq<Entry>) -> bool {
    exists|before: Seq<Entry>| are_batch_bytes(buf, count, lsn, es, before)
}

/// The payload starts with that of an operation, which gets a number.
pub open spec fn is_written_op(payload: Seq<u8>, lsn: u64, op: WalOpView, before: WalOpView) -> bool {
    &&& stamped(before, lsn) == op
    &&& payload_of(before).len() <= payload.len()
    &&& payload.take(payload_of(before).len() as int) == payload_of(before)
}

/// An operation that is decoded is of the kind that its code tells, and stands in the payload as
/// it is written. An operation without a payload that is long enough is refused, and so is a code
/// of no operation.
pub proof fn law_decoded_operation_was_written(op_code: u8, lsn: u64, payload: Seq<u8>)
    ensures
        decode_op(op_code, lsn, payload) matches Ok(op) ==> op_code_of(op) == op_code && exists|before: WalOpView|
            is_written_op(payload, lsn, op, before),
{
    broadcast use lemma_be_bytes_len;

    lemma_pow256_values();
    if let Ok(op) = decode_op(op_code, lsn, payload) {
        match op {
            WalOpView::Put { key, value } => {
                law_decoded_key_was_written(payload.take(21));
                law_decoded_value_was_written(payload.skip(21));
                let n = decode_value(payload.skip(21))->Ok_0.1 as int;
                let before = WalOpView::Put { key: key_of_bytes(payload.take(21)), value };
                assert(payload.take(21 + n) =~= payload_of(before)) by {
                    assert(payload.skip(21).take(n) =~= payload.subrange(21, 21 + n));
                }
                assert(is_written_op(payload, lsn, op, before));
            },
            WalOpView::BatchPut { entries } => {
                let head = payload.subrange(0, 4);
                let count = be_value(head);
                let tail = payload.skip(4);
                lemma_decoded_batch(tail, count, lsn);
                let all = choose|all: Seq<Entry>| are_batch_bytes(tail, count, lsn, entries, all);
                lemma_be_bytes_of_value(head);
                let before = WalOpView::BatchPut { entries: all };
                let m = entries_bytes(all).len() as int;
                assert(payload.take(4 + m) =~= payload_of(before)) by {
                    assert(tail.take(m) =~= payload.subrange(4, 4 + m));
                }
                assert(is_written_op(payload, lsn, op, before));
            },
            WalOpView::Delete { namespace, doc_id } => {
                let (a, b) = (payload.subrange(0, 1), payload.subrange(1, 9));
                lemma_be_value_bound(b);
                lemma_be_bytes_of_value(a);
                lemma_be_bytes_of_value(b);
                assert(a.drop_last() =~= Seq::<u8>::empty());
                assert(be_value(a.drop_last()) == 0);
                assert(be_value(a) == payload[0]);
                assert(payload.take(9) =~= payload_of(op));
                assert(is_written_op(payload, lsn, op, op));
            },
            WalOpView::PartitionSplit { before, after, moved } => {
                let (a, b, c) = (payload.subrange(0, 4), payload.subrange(4, 8), payload.subrange(8, 16));
                lemma_be_value_bound(a);
                lemma_be_value_bound(b);
                lemma_be_value_bound(c);
                lemma_be_bytes_of_value(a);
                lemma_be_bytes_of_value(b);
                lemma_be_bytes_of_value(c);
                assert(payload.take(16) =~= payload_of(op));
                assert(is_written_op(payload, lsn, op, op));
            },
            WalOpView::Checkpoint { last_applied_lsn } => {
                let a = payload.subrange(0, 8);
                lemma_be_value_bound(a);
                lemma_be_bytes_of_value(a);
                assert(payload.take(8) =~= payload_of(op));
                assert(is_written_op(payload, lsn, op, op));
            },
        }
    }
}

/// A record that is read stands at the front of the log as it is written: its length, its number,
/// its operation, and the checksum of these.
pub proof fn law_read_record_was_written(buf: Seq<u8>)
    ensures
        parse_record_at(buf) matches Ok(rec) ==> rec.total_len <= buf.len() && exists|payload: Seq<u8>|
            is_written_record(buf, rec, payload),
{
    broadcast use lemma_be_bytes_len;

    reveal(parse_record_at);
    if let Ok(rec) = parse_record_at(buf) {
        lemma_pow256_values();
        let len = be_value(buf.subrange(0, 4)) as int;
        let payload = buf.subrange(13, len);
        let code = buf[12];
        law_decoded_operation_was_written(code, rec.lsn, payload);
        lemma_be_value_bound(buf.subrange(4, 12));
        lemma_be_bytes_of_value(buf.subrange(0, 4));
        lemma_be_bytes_of_value(buf.subrange(4, 12));
        lemma_be_bytes_of_value(buf.subrange(len, 4 + len));
        let body = record_body(rec.lsn, code, payload);
        assert(body =~= buf.subrange(4, len));
        assert(buf.take(4 + len) =~= record_frame(rec.lsn, code, payload, crc32(body)));
        assert(is_written_record(buf, rec, payload));
    }
}

/// The log starts with the frame of a record: its payload is that of the record's operation.
pub open spec fn is_written_record(buf: Seq<u8>, rec: WalRecordView, payload: Seq<u8>) -> bool {
    let code = op_code_of(rec.op);
    &&& buf.take(rec.total_len as int) == record_frame(
        rec.lsn,
        code,
        payload,
        crc32(record_body(rec.lsn, code, payload)),
    )
    &&& decode_op(code, rec.lsn, payload) == Ok::<WalOpView, WalError>(rec.op)
}

/// The index of a table that is read stands in the bytes as it is written, and so does the place of
/// the index in the footer.
pub proof fn law_read_index_was_written(buf: Seq<u8>, footer: Seq<u8>)
    requires
        footer.len() == 16,
    ensures
        parse_index(buf) matches Ok(t) ==> {
            let written = index_bytes(t.id, t.entry_count, t.min_key, t.max_key, t.index);
            written.len() <= buf.len() && buf.take(written.len() as int) == written
        },
        parse_footer(footer) matches Ok(offset) ==> footer == footer_bytes(offset),
{
    broadcast use lemma_be_bytes_len;

    lemma_pow256_values();
    if let Ok(t) = parse_index(buf) {
        let n = index_block_count(buf);
        lemma_be_value_bound(buf.subrange(8, 12));
        lemma_be_value_bound(buf.subrange(12, 16));
        lemma_be_bytes_of_value(buf.subrange(4, 8));
        lemma_be_bytes_of_value(buf.subrange(8, 12));
        lemma_be_bytes_of_value(buf.subrange(12, 16));
        lemma_be_bytes_of_value(buf.subrange(16, 20));
        law_decoded_key_was_written(buf.subrange(20, 41));
        law_decoded_key_was_written(buf.subrange(41, 62));
        lemma_read_index_entries(buf, n);
        let written = index_bytes(t.id, t.entry_count, t.min_key, t.max_key, t.index);
        assert(written =~= buf.subrange(0, 62) + buf.subrange(62, 62 + 29 * n as int));
        assert(buf.take(62 + 29 * n as int) =~= written);
    }
    if let Ok(offset) = parse_footer(footer) {
        lemma_be_value_bound(footer.subrange(0, 8));
        lemma_be_bytes_of_value(footer.subrange(0, 8));
        assert(footer =~= footer.subrange(0, 8) + footer.subrange(8, 16));
    }
}

proof fn lemma_read_index_entries(buf: Seq<u8>, n: nat)
    requires
        62 + 29 * n <= buf.len(),
    ensures
        index_entries_bytes(Seq::new(n, |i: int| index_entry_at(buf, 62 + 29 * i))) == buf.subrange(
            62,
            62 + 29 * n as int,
        ),
    decreases n,
{
    broadcast use lemma_be_bytes_len;

    let index = Seq::new(n, |i: int| index_entry_at(buf, 62 + 29 * i));
    if n == 0 {
        assert(buf.subrange(62, 62) =~= index_entries_bytes(index));
    } else {
        let m = (n - 1) as nat;
        let pos = 62 + 29 * m as int;
        lemma_pow256_values();
        lemma_read_index_entries(buf, m);
        assert(index.drop_last() =~= Seq::new(m, |i: int| index_entry_at(buf, 62 + 29 * i)));
        assert(index.last() == index_entry_at(buf, pos));
        law_decoded_key_was_written(buf.subrange(pos, pos + 21));
        lemma_be_value_bound(buf.subrange(pos + 21, pos + 29));
        lemma_be_bytes_of_value(buf.subrange(pos + 21, pos + 29));
        assert(buf.subrange(62, pos + 29) =~= buf.subrange(62, pos) + buf.subrange(pos, pos + 21) + buf.subrange(
            pos + 21,
            pos + 29,
        ));
    }
}

/// What a merge leaves: entries that were there, one of a slot at most and no deletions, each of
/// them with the greatest number that its slot has; and of every slot whose entry with the greatest
/// number is no deletion, an entry.
pub proof fn law_merge_leaves_newest_values(out: Seq<Entry>, es: Seq<Entry>, x: int, i: int)
    requires
        is_merged(out, es),
        0 <= i < es.len(),
    ensures
        0 <= x < out.len() ==> out[x].1 is Some && es.contains(out[x]) && (es[i].0.spec_slot() == out[x].0.spec_slot()
            ==> es[i].0.lsn <= out[x].0.lsn),
        forall|y: int| 0 <= y < out.len() && 0 <= x < y ==> key_less(out[x].0, (#[trigger] out[y]).0),
        forall|y: int|
            0 <= y < out.len() && 0 <= x < y ==> out[x].0.spec_slot() != (#[trigger] out[y]).0.spec_slot(),
        es[i].1 is Some && is_greatest(es, i) ==> out.contains(es[i]),
{
    if 0 <= x < out.len() {
        let slot = out[x].0.spec_slot();
        assert(newest_entry(es, slot) == Some(out[x]));
        let j = choose|j: int| is_newest_of(es, slot, j);
        assert(is_newest_of(es, slot, j));
        assert(es[j] == out[x]);
        if i != j && es[i].0.spec_slot() == slot {
            assert(keys_of(es)[i].spec_slot() == keys_of(es)[j].spec_slot());
            assert(index_before(keys_of(es), i, j));
        }
    }
    if es[i].1 is Some && is_greatest(es, i) {
        let slot = es[i].0.spec_slot();
        let keys = keys_of(es);
        assert forall|j: int|
            0 <= j < keys.len() && j != i && (#[trigger] keys[j]).spec_slot() == keys[i].spec_slot() implies index_before(
            keys,
            j,
            i,
        ) by {
            assert(es[j].0.spec_slot() == slot);
        }
        assert(is_newest_of(es, slot, i));
        lemma_newest_unique(es, slot, i);
        assert(newest_entry(es, slot) == Some(es[i]));
    }
}

/// No other entry of the slot has as great a number.
pub open spec fn is_greatest(es: Seq<Entry>, i: int) -> bool {
    forall|j: int|
        0 <= j < es.len() && j != i && (#[trigger] es[j]).0.spec_slot() == es[i].0.spec_slot() ==> es[j].0.lsn
            < es[i].0.lsn
}

} // verus!
