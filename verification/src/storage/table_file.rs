//! The file of a sorted table as a whole: what it holds, and that it gives back what
//! was written into it.

use vstd::prelude::*;

use crate::bytes::be_bytes;
use crate::bytes::{lemma_be_bytes_len, lemma_be_value_of_bytes, lemma_pow256_values};
use crate::storage::entry::{entries_bytes, entries_fit, entries_sorted, last_entry, view_entries, Entry};
use crate::storage::entry::{
    law_entries_round_trip, lemma_entries_bytes_concat, lemma_entries_bytes_push, lemma_key_of_bytes,
};
use crate::storage::key::lemma_key_bytes_len;
use crate::storage::key::{key_bytes, key_less, LsmKey, LsmValue, Slot, ValueError};
use crate::storage::sstable::{
    block_end, blocks_ordered, close_block, covers_range, decode_blocks, empty_writer, footer_bytes, footer_magic,
    in_prefix, index_bytes, index_entries_bytes, index_entry_at, index_magic, index_sorted, is_prefix_scan,
    parse_footer, parse_index, prefix_high, prefix_low, slot_high, slot_low, take_entry, write_entry, writer_well_formed, written_by_entry, TableIndex, WriterState,
};
use crate::storage::sstable::lemma_last_entry_member;
use crate::storage::sstable::{FileWrite, SStableWriter, TableError, TableTail, BLOCK_SIZE};

verus! {

/// How a list of entries is split into blocks: the blocks that are full, and the open one.
pub open spec fn chunk(es: Seq<Entry>) -> (Seq<Seq<Entry>>, Seq<Entry>)
    decreases es.len(),
{
    if es.len() == 0 {
        (Seq::empty(), Seq::empty())
    } else {
        let (full, open) = chunk(es.drop_last());
        let grown = open.push(es.last());
        if entries_bytes(grown).len() >= BLOCK_SIZE {
            (full.push(grown), Seq::empty())
        } else {
            (full, grown)
        }
    }
}

/// The blocks of a table with these entries.
pub open spec fn table_chunks(es: Seq<Entry>) -> Seq<Seq<Entry>> {
    let (full, open) = chunk(es);
    if open.len() == 0 {
        full
    } else {
        full.push(open)
    }
}

/// The entries of a list of blocks, one block after the other.
pub open spec fn flat(chunks: Seq<Seq<Entry>>) -> Seq<Entry>
    decreases chunks.len(),
{
    if chunks.len() == 0 {
        Seq::empty()
    } else {
        flat(chunks.drop_last()) + chunks.last()
    }
}

/// Where block `i` starts.
pub open spec fn chunk_offset(chunks: Seq<Seq<Entry>>, i: int) -> nat {
    entries_bytes(flat(chunks.take(i))).len()
}

/// The index of a list of blocks: the first key and the offset of each.
pub open spec fn chunk_index(chunks: Seq<Seq<Entry>>) -> Seq<(LsmKey, u64)> {
    Seq::new(chunks.len(), |i: int| (chunks[i][0].0, chunk_offset(chunks, i) as u64))
}

/// The index block of a table.
pub open spec fn table_index_bytes(id: u32, es: Seq<Entry>) -> Seq<u8> {
    index_bytes(id, es.len() as u32, es[0].0, es.last().0, chunk_index(table_chunks(es)))
}

/// The file of a table: the entries, the index block and the footer.
pub open spec fn table_bytes(id: u32, es: Seq<Entry>) -> Seq<u8> {
    entries_bytes(es) + table_index_bytes(id, es) + footer_bytes(entries_bytes(es).len() as u64)
}

/// The entries make a table that the format can hold.
pub open spec fn table_fits(es: Seq<Entry>) -> bool {
    &&& 0 < es.len() <= u32::MAX
    &&& entries_fit(es)
    &&& entries_bytes(es).len() + 62 + 29 * es.len() + 16 <= u64::MAX
}

/// The writer after a list of entries.
pub open spec fn run_writer(s: WriterState, es: Seq<Entry>) -> WriterState
    decreases es.len(),
{
    if es.len() == 0 {
        s
    } else {
        write_entry(run_writer(s, es.drop_last()), es.last())
    }
}

/// What a writer has handed out after a list of entries.
pub open spec fn run_written(s: WriterState, es: Seq<Entry>) -> Seq<u8>
    decreases es.len(),
{
    if es.len() == 0 {
        Seq::empty()
    } else {
        run_written(s, es.drop_last()) + written_by_entry(run_writer(s, es.drop_last()), es.last())
    }
}

/// The bytes of a list of writes, one after the other.
pub open spec fn joined(writes: Seq<FileWrite>) -> Seq<u8>
    decreases writes.len(),
{
    if writes.len() == 0 {
        Seq::empty()
    } else {
        joined(writes.drop_last()) + writes.last().bytes@
    }
}

/// Each write starts where the one before it ends, the first one at the start of the file.
pub open spec fn contiguous(writes: Seq<FileWrite>) -> bool {
    forall|i: int| 0 <= i < writes.len() ==> (#[trigger] writes[i]).offset == joined(writes.take(i)).len()
}

/// The blocks of a file from `first` up to `end`, as the index places them.
pub open spec fn file_blocks(
    file: Seq<u8>,
    index: Seq<(LsmKey, u64)>,
    index_offset: u64,
    first: int,
    end: int,
) -> Seq<Seq<u8>> {
    Seq::new(
        (end - first) as nat,
        |i: int| file.subrange(index[first + i].1 as int, block_end(index, index_offset, first + i) as int),
    )
}

proof fn lemma_chunk(es: Seq<Entry>)
    ensures
        flat(chunk(es).0) + chunk(es).1 == es,
        forall|i: int| 0 <= i < chunk(es).0.len() ==> (#[trigger] chunk(es).0[i]).len() > 0,
        chunk(es).0.len() + chunk(es).1.len() <= es.len(),
    decreases es.len(),
{
    if es.len() == 0 {
        assert(flat(chunk(es).0) + chunk(es).1 =~= es);
    } else {
        let (full, open) = chunk(es.drop_last());
        let grown = open.push(es.last());
        lemma_chunk(es.drop_last());
        assert(es =~= es.drop_last().push(es.last()));
        if entries_bytes(grown).len() >= BLOCK_SIZE {
            let full2 = full.push(grown);
            assert(full2.drop_last() =~= full);
            assert(flat(full2) =~= flat(full) + grown);
            assert(flat(full2) + Seq::<Entry>::empty() =~= es);
        } else {
            assert(flat(full) + grown =~= es);
        }
    }
}

proof fn lemma_table_chunks(es: Seq<Entry>)
    ensures
        flat(table_chunks(es)) == es,
        forall|i: int| 0 <= i < table_chunks(es).len() ==> (#[trigger] table_chunks(es)[i]).len() > 0,
        table_chunks(es).len() <= es.len(),
        es.len() > 0 ==> table_chunks(es).len() > 0,
{
    lemma_chunk(es);
    let (full, open) = chunk(es);
    if open.len() == 0 {
        assert(flat(full) + open =~= flat(full));
    } else {
        assert(full.push(open).drop_last() =~= full);
    }
}

proof fn lemma_chunk_index_push(chunks: Seq<Seq<Entry>>, c: Seq<Entry>)
    ensures
        chunk_index(chunks.push(c)) == chunk_index(chunks).push((c[0].0, entries_bytes(flat(chunks)).len() as u64)),
{
    let all = chunks.push(c);
    assert forall|i: int| 0 <= i < chunks.len() implies (#[trigger] chunk_index(all)[i]) == chunk_index(chunks)[i] by {
        assert(all.take(i) =~= chunks.take(i));
    }
    assert(all.take(chunks.len() as int) =~= chunks);
    assert(chunk_index(all) =~= chunk_index(chunks).push((c[0].0, entries_bytes(flat(chunks)).len() as u64)));
}

/// A prefix of the entries takes no more bytes than all of them.
pub proof fn lemma_entries_bytes_take(es: Seq<Entry>, n: int)
    requires
        0 <= n <= es.len(),
    ensures
        entries_bytes(es.take(n)).len() <= entries_bytes(es).len(),
{
    assert(es =~= es.take(n) + es.skip(n));
    lemma_entries_bytes_concat(es.take(n), es.skip(n));
}

/// What a writer holds and has handed out after a list of entries.
pub proof fn lemma_run_writer(id: u32, es: Seq<Entry>)
    requires
        es.len() <= u32::MAX,
        entries_bytes(es).len() <= u64::MAX,
    ensures
        ({
            let s = run_writer(empty_writer(id), es);
            let (full, open) = chunk(es);
            &&& writer_well_formed(s)
            &&& s.id == id
            &&& s.block == entries_bytes(open)
            &&& open.len() > 0 ==> s.first_key == Some(open[0].0)
            &&& open.len() == 0 ==> s.first_key is None
            &&& s.index == chunk_index(full)
            &&& s.offset == entries_bytes(flat(full)).len()
            &&& s.entry_count == es.len()
            &&& es.len() == 0 ==> s.min_key is None
            &&& es.len() > 0 ==> s.min_key == Some(es[0].0) && s.max_key == Some(es.last().0)
            &&& run_written(empty_writer(id), es) == entries_bytes(flat(full))
            &&& s.offset + s.block.len() == entries_bytes(es).len()
        }),
    decreases es.len(),
{
    let s0 = empty_writer(id);
    if es.len() == 0 {
        assert(chunk_index(Seq::<Seq<Entry>>::empty()) =~= Seq::<(LsmKey, u64)>::empty());
    } else {
        let init = es.drop_last();
        let e = es.last();
        assert(es =~= init.push(e));
        lemma_entries_bytes_push(init, e);
        lemma_run_writer(id, init);
        let s = run_writer(s0, init);
        let (full, open) = chunk(init);
        let grown = open.push(e);
        lemma_entries_bytes_push(open, e);
        lemma_key_bytes_len(e.0);
        let taken = take_entry(s, e);
        assert(taken.block == entries_bytes(grown));
        assert(grown[0] == if open.len() > 0 { open[0] } else { e });
        assert(es[0] == if init.len() > 0 { init[0] } else { e });
        lemma_chunk(es);
        lemma_entries_bytes_concat(flat(chunk(es).0), chunk(es).1);
        if entries_bytes(grown).len() >= BLOCK_SIZE {
            assert(full.push(grown).drop_last() =~= full);
            lemma_entries_bytes_concat(flat(full), grown);
            lemma_chunk_index_push(full, grown);
        } else {
            assert(run_written(s0, init) + Seq::<u8>::empty() =~= run_written(s0, init));
        }
    }
}

/// A closed table holds all entries, then its index block and its footer.
pub proof fn lemma_closed_table(id: u32, es: Seq<Entry>)
    requires
        0 < es.len() <= u32::MAX,
        entries_bytes(es).len() <= u64::MAX,
    ensures
        ({
            let s = run_writer(empty_writer(id), es);
            let c = close_block(s);
            &&& run_written(empty_writer(id), es) + s.block == entries_bytes(es)
            &&& c.index == chunk_index(table_chunks(es))
            &&& c.index.len() <= es.len()
            &&& c.offset == entries_bytes(es).len()
            &&& c.id == id && c.entry_count == es.len() && c.min_key == Some(es[0].0) && c.max_key == Some(es.last().0)
        }),
{
    lemma_run_writer(id, es);
    lemma_chunk(es);
    lemma_table_chunks(es);
    let (full, open) = chunk(es);
    lemma_entries_bytes_concat(flat(full), open);
    if open.len() > 0 {
        lemma_chunk_index_push(full, open);
        lemma_entries_bytes_push(open.drop_last(), open.last());
        assert(open =~= open.drop_last().push(open.last()));
        lemma_key_bytes_len(open.last().0);
    } else {
        assert(flat(full) =~= es);
    }
}

pub proof fn lemma_joined_push(writes: Seq<FileWrite>, w: FileWrite)
    requires
        contiguous(writes),
        w.offset == joined(writes).len(),
    ensures
        contiguous(writes.push(w)),
        joined(writes.push(w)) == joined(writes) + w.bytes@,
{
    let all = writes.push(w);
    assert(all.drop_last() =~= writes);
    assert forall|i: int| 0 <= i < all.len() implies (#[trigger] all[i]).offset == joined(all.take(i)).len() by {
        if i < writes.len() {
            assert(all.take(i) =~= writes.take(i));
            assert(writes[i] == all[i]);
        } else {
            assert(all.take(i) =~= writes);
        }
    }
}

/// A table that is ready to be written.
pub struct BuiltTable {
    /// The path of the table.
    pub path: String,
    /// What is to be written, from the start of the file to its end.
    pub writes: Vec<FileWrite>,
}

/// Whether the positions and counts of a table with the given entries fit their fields.
pub fn fits_table(entries: &Vec<(LsmKey, LsmValue)>) -> (r: bool)
    ensures
        r == (entries@.len() <= u32::MAX && entries_bytes(view_entries(entries@)).len() + 62 + 29 * entries@.len() + 16
            <= u64::MAX),
{
    if entries.len() as u64 > 0xffff_ffff {
        return false;
    }
    let ghost es = view_entries(entries@);
    let mut total: u128 = 0;
    let mut i: usize = 0;
    assert(es.take(0) =~= Seq::<Entry>::empty());
    while i < entries.len()
        invariant
            i <= entries@.len() <= 0xffff_ffff,
            es == view_entries(entries@),
            total == entries_bytes(es.take(i as int)).len(),
            total <= i * 0x1_0000_0000_0000_0020,
        decreases entries@.len() - i,
    {
        proof {
            broadcast use crate::bytes::lemma_be_bytes_len;

            lemma_entries_bytes_push(es.take(i as int), es[i as int]);
            assert(es.take(i + 1) =~= es.take(i as int).push(es[i as int]));
            crate::storage::key::lemma_key_bytes_len(es[i as int].0);
        }
        let len: u128 = match &entries[i].1 {
            LsmValue::Data(bytes) => bytes.len() as u128 + 5,
            LsmValue::Tombstone => 1,
        };
        total = total + 21 + len;
        i = i + 1;
    }
    assert(es.take(i as int) =~= es);
    total + 62 + 29 * (entries.len() as u128) + 16 <= 0xffff_ffff_ffff_ffff
}

/// Lays out the file of a table with the given entries.
pub fn build_table(id: u32, path: String, entries: &Vec<(LsmKey, LsmValue)>) -> (r: Result<BuiltTable, TableError>)
    requires
        entries@.len() <= u32::MAX,
        entries_bytes(view_entries(entries@)).len() + 62 + 29 * entries@.len() + 16 <= u64::MAX,
    ensures
        entries@.len() == 0 ==> (r matches Err(e) && e == TableError::NoEntries),
        entries@.len() > 0 ==> (r matches Ok(t) && t.path@ == path@ && contiguous(t.writes@) && joined(t.writes@)
            == table_bytes(id, view_entries(entries@))),
{
    let ghost es = view_entries(entries@);
    let ghost s0 = empty_writer(id);
    let ghost full_path = path@;
    let mut writer = SStableWriter::new(id, path);
    let mut writes: Vec<FileWrite> = Vec::new();
    let mut i: usize = 0;
    assert(es.take(0) =~= Seq::<Entry>::empty());
    while i < entries.len()
        invariant
            i <= entries@.len(),
            es == view_entries(entries@),
            entries@.len() <= u32::MAX,
            entries_bytes(es).len() + 62 + 29 * entries@.len() + 16 <= u64::MAX,
            s0 == empty_writer(id),
            writer@ == run_writer(s0, es.take(i as int)),
            writer.spec_path() == full_path,
            contiguous(writes@),
            joined(writes@) == run_written(s0, es.take(i as int)),
        decreases entries@.len() - i,
    {
        let key = entries[i].0;
        let value = entries[i].1.clone();
        proof {
            let (now, next) = (es.take(i as int), es.take(i + 1));
            assert(next.drop_last() =~= now);
            assert(next.last() == (key, value@));
            lemma_entries_bytes_take(es, i as int);
            lemma_entries_bytes_take(es, i + 1);
            lemma_run_writer(id, now);
            assert(next =~= now.push((key, value@)));
            lemma_entries_bytes_push(now, (key, value@));
        }
        let ghost before = writes@;
        let step = writer.write(key, value);
        match step {
            Some(w) => {
                proof {
                    lemma_joined_push(writes@, w);
                }
                writes.push(w);
            },
            None => {
                assert(joined(before) + Seq::<u8>::empty() =~= joined(before));
                assert(written_by_entry(run_writer(s0, es.take(i as int)), es.take(i + 1).last()) =~= Seq::<u8>::empty());
            },
        }
        i = i + 1;
    }
    proof {
        assert(es.take(i as int) =~= es);
        lemma_run_writer(id, es);
        if es.len() > 0 {
            lemma_closed_table(id, es);
        }
    }
    let ghost s = writer@;
    match writer.finish() {
        Err(e) => Err(e),
        Ok(tail) => {
            let TableTail { path, writes: last_writes, index_offset, file_size } = tail;
            let mut last_writes = last_writes;
            let ghost tail_writes = last_writes@;
            let ghost data = writes@;
            proof {
                let n = tail_writes.len();
                let mut w = data;
                if s.block.len() > 0 {
                    lemma_joined_push(w, tail_writes[0]);
                    w = w.push(tail_writes[0]);
                } else {
                    assert(joined(data) + s.block =~= joined(data));
                }
                assert(joined(w) == entries_bytes(es));
                lemma_joined_push(w, tail_writes[n - 2]);
                w = w.push(tail_writes[n - 2]);
                assert(joined(w) == entries_bytes(es) + table_index_bytes(id, es));
                lemma_joined_push(w, tail_writes[n - 1]);
                w = w.push(tail_writes[n - 1]);
                assert(w =~= data + tail_writes);
            }
            writes.append(&mut last_writes);
            Ok(BuiltTable { path, writes })
        },
    }
}

proof fn lemma_index_entries(index: Seq<(LsmKey, u64)>)
    ensures
        index_entries_bytes(index).len() == 29 * index.len(),
        forall|i: int|
            0 <= i < index.len() ==> index_entry_at(index_entries_bytes(index), 29 * i) == #[trigger] index[i],
    decreases index.len(),
{
    broadcast use lemma_be_bytes_len;

    if index.len() > 0 {
        let init = index.drop_last();
        let (key, offset) = index.last();
        let buf = index_entries_bytes(index);
        let head = index_entries_bytes(init);
        lemma_index_entries(init);
        lemma_key_bytes_len(key);
        assert forall|i: int| 0 <= i < index.len() implies index_entry_at(buf, 29 * i) == #[trigger] index[i] by {
            if i < init.len() {
                assert(init[i] == index[i]);
                assert(buf.subrange(29 * i, 29 * i + 21) =~= head.subrange(29 * i, 29 * i + 21));
                assert(buf.subrange(29 * i + 21, 29 * i + 29) =~= head.subrange(29 * i + 21, 29 * i + 29));
            } else {
                assert(buf.subrange(29 * i, 29 * i + 21) =~= key_bytes(key));
                assert(buf.subrange(29 * i + 21, 29 * i + 29) =~= be_bytes(offset as nat, 8));
                lemma_key_of_bytes(key);
                lemma_pow256_values();
                lemma_be_value_of_bytes(offset as nat, 8);
            }
        }
    }
}

/// Parsing an index block gives back what it was made of.
pub proof fn law_index_round_trip(
    id: u32,
    entry_count: u32,
    min_key: LsmKey,
    max_key: LsmKey,
    index: Seq<(LsmKey, u64)>,
)
    requires
        index.len() <= u32::MAX,
    ensures
        parse_index(index_bytes(id, entry_count, min_key, max_key, index)) == Ok::<TableIndex, TableError>(
            TableIndex { id, entry_count, min_key, max_key, index },
        ),
        index_bytes(id, entry_count, min_key, max_key, index).len() == 62 + 29 * index.len(),
{
    broadcast use lemma_be_bytes_len;

    let buf = index_bytes(id, entry_count, min_key, max_key, index);
    let entries = index_entries_bytes(index);
    lemma_pow256_values();
    lemma_key_bytes_len(min_key);
    lemma_key_bytes_len(max_key);
    lemma_index_entries(index);
    lemma_be_value_of_bytes(1, 4);
    lemma_be_value_of_bytes(id as nat, 4);
    lemma_be_value_of_bytes(entry_count as nat, 4);
    lemma_be_value_of_bytes(index.len(), 4);
    assert(buf.subrange(0, 4) =~= index_magic());
    assert(buf.subrange(4, 8) =~= be_bytes(1, 4));
    assert(buf.subrange(8, 12) =~= be_bytes(id as nat, 4));
    assert(buf.subrange(12, 16) =~= be_bytes(entry_count as nat, 4));
    assert(buf.subrange(16, 20) =~= be_bytes(index.len(), 4));
    assert(buf.subrange(20, 41) =~= key_bytes(min_key));
    assert(buf.subrange(41, 62) =~= key_bytes(max_key));
    lemma_key_of_bytes(min_key);
    lemma_key_of_bytes(max_key);
    assert forall|i: int| 0 <= i < index.len() implies index_entry_at(buf, 62 + 29 * i) == #[trigger] index[i] by {
        assert(buf.subrange(62 + 29 * i, 62 + 29 * i + 21) =~= entries.subrange(29 * i, 29 * i + 21));
        assert(buf.subrange(62 + 29 * i + 21, 62 + 29 * i + 29) =~= entries.subrange(29 * i + 21, 29 * i + 29));
        assert(index_entry_at(entries, 29 * i) == index[i]);
    }
    assert(parse_index(buf)->Ok_0.index =~= index);
}

proof fn lemma_flat_take(chunks: Seq<Seq<Entry>>, n: int)
    requires
        0 <= n < chunks.len(),
    ensures
        flat(chunks.take(n + 1)) == flat(chunks.take(n)) + chunks[n],
{
    assert(chunks.take(n + 1).drop_last() =~= chunks.take(n));
}

proof fn lemma_flat_split(chunks: Seq<Seq<Entry>>, n: int)
    requires
        0 <= n <= chunks.len(),
    ensures
        flat(chunks) == flat(chunks.take(n)) + flat(chunks.skip(n)),
    decreases chunks.len() - n,
{
    if n == chunks.len() {
        assert(chunks.take(n) =~= chunks);
        assert(chunks.skip(n) =~= Seq::<Seq<Entry>>::empty());
        assert(flat(chunks) + Seq::<Entry>::empty() =~= flat(chunks));
    } else {
        let init = chunks.drop_last();
        lemma_flat_split(init, n);
        assert(init.take(n) =~= chunks.take(n));
        assert(init.skip(n) =~= chunks.skip(n).drop_last());
        assert(flat(chunks) =~= flat(chunks.take(n)) + flat(chunks.skip(n)));
    }
}

/// Where the entries of block `i` stand among all entries.
spec fn chunk_start(chunks: Seq<Seq<Entry>>, i: int) -> int {
    flat(chunks.take(i)).len() as int
}

proof fn lemma_chunk_position(chunks: Seq<Seq<Entry>>, i: int)
    requires
        0 <= i < chunks.len(),
    ensures
        chunk_start(chunks, i) + chunks[i].len() == chunk_start(chunks, i + 1),
        chunk_start(chunks, i + 1) <= flat(chunks).len(),
        flat(chunks).subrange(chunk_start(chunks, i), chunk_start(chunks, i + 1)) == chunks[i],
{
    lemma_flat_take(chunks, i);
    lemma_flat_split(chunks, i + 1);
    assert(flat(chunks).subrange(chunk_start(chunks, i), chunk_start(chunks, i + 1)) =~= chunks[i]);
}

proof fn lemma_chunk_start_monotone(chunks: Seq<Seq<Entry>>, i: int, j: int)
    requires
        0 <= i <= j <= chunks.len(),
    ensures
        chunk_start(chunks, i) <= chunk_start(chunks, j),
        chunk_start(chunks, chunks.len() as int) == flat(chunks).len(),
    decreases j - i,
{
    assert(chunks.take(chunks.len() as int) =~= chunks);
    if i < j {
        lemma_chunk_start_monotone(chunks, i, j - 1);
        lemma_chunk_position(chunks, j - 1);
    }
}

/// The blocks of a table stand one after the other, and each holds the bytes of its entries.
proof fn lemma_block_spans(chunks: Seq<Seq<Entry>>, i: int)
    requires
        0 <= i < chunks.len(),
        entries_bytes(flat(chunks)).len() <= u64::MAX,
    ensures
        ({
            let index = chunk_index(chunks);
            let data = entries_bytes(flat(chunks));
            let end = block_end(index, data.len() as u64, i);
            &&& index[i].1 == chunk_offset(chunks, i)
            &&& index[i].1 <= end <= data.len()
            &&& data.subrange(index[i].1 as int, end as int) == entries_bytes(chunks[i])
        }),
{
    let data = entries_bytes(flat(chunks));
    lemma_flat_take(chunks, i);
    lemma_entries_bytes_concat(flat(chunks.take(i)), chunks[i]);
    lemma_flat_split(chunks, i + 1);
    lemma_entries_bytes_concat(flat(chunks.take(i + 1)), flat(chunks.skip(i + 1)));
    if i + 1 == chunks.len() {
        assert(chunks.take(i + 1) =~= chunks);
    }
    let (from, to) = (chunk_offset(chunks, i) as int, chunk_offset(chunks, i + 1) as int);
    assert(data.subrange(from, to) =~= entries_bytes(chunks[i]));
}

proof fn lemma_decode_file_blocks(file: Seq<u8>, chunks: Seq<Seq<Entry>>, first: int, end: int)
    requires
        0 <= first <= end <= chunks.len(),
        entries_bytes(flat(chunks)).len() <= u64::MAX,
        entries_bytes(flat(chunks)).len() <= file.len(),
        file.take(entries_bytes(flat(chunks)).len() as int) == entries_bytes(flat(chunks)),
        forall|i: int| 0 <= i < chunks.len() ==> entries_fit(#[trigger] chunks[i]),
    ensures
        decode_blocks(
            file_blocks(file, chunk_index(chunks), entries_bytes(flat(chunks)).len() as u64, first, end),
        ) == Ok::<Seq<Entry>, ValueError>(flat(chunks.subrange(first, end))),
    decreases end - first,
{
    let index = chunk_index(chunks);
    let data = entries_bytes(flat(chunks));
    let offset = data.len() as u64;
    let blocks = file_blocks(file, index, offset, first, end);
    if first == end {
        assert(chunks.subrange(first, end) =~= Seq::<Seq<Entry>>::empty());
    } else {
        assert(blocks.drop_last() =~= file_blocks(file, index, offset, first, end - 1));
        lemma_decode_file_blocks(file, chunks, first, end - 1);
        lemma_block_spans(chunks, end - 1);
        let (from, to) = (index[end - 1].1 as int, block_end(index, offset, end - 1) as int);
        assert(blocks.last() =~= data.subrange(from, to)) by {
            assert(file.take(data.len() as int).subrange(from, to) =~= file.subrange(from, to));
        }
        law_entries_round_trip(chunks[end - 1]);
        assert(chunks.subrange(first, end).drop_last() =~= chunks.subrange(first, end - 1));
    }
}

/// The last entry of a slot in a concatenation stands in the second part, if that has one.
pub proof fn lemma_last_entry_concat(a: Seq<Entry>, b: Seq<Entry>, slot: Slot)
    ensures
        last_entry(a + b, slot) == if last_entry(b, slot) is Some {
            last_entry(b, slot)
        } else {
            last_entry(a, slot)
        },
    decreases b.len(),
{
    if b.len() == 0 {
        assert(a + b =~= a);
    } else {
        assert((a + b).last() == b.last());
        assert((a + b).drop_last() =~= a + b.drop_last());
        lemma_last_entry_concat(a, b.drop_last(), slot);
    }
}

/// Where no entry has the slot, there is no last one.
pub proof fn lemma_no_last_entry(es: Seq<Entry>, slot: Slot)
    requires
        forall|i: int| 0 <= i < es.len() ==> (#[trigger] es[i]).0.spec_slot() != slot,
    ensures
        last_entry(es, slot) is None,
    decreases es.len(),
{
    if es.len() > 0 {
        assert(es.last() == es[es.len() - 1]);
        assert forall|i: int| 0 <= i < es.drop_last().len() implies (#[trigger] es.drop_last()[i]).0.spec_slot()
            != slot by {
            assert(es.drop_last()[i] == es[i]);
        }
        lemma_no_last_entry(es.drop_last(), slot);
    }
}

/// The blocks that cover a range of keys hold all entries of every slot in that range.
proof fn lemma_covered_blocks(chunks: Seq<Seq<Entry>>, lo: LsmKey, hi: LsmKey, first: int, end: int, slot: Slot)
    requires
        0 <= first <= end <= chunks.len(),
        flat(chunks).len() > 0,
        forall|i: int| 0 <= i < chunks.len() ==> (#[trigger] chunks[i]).len() > 0,
        entries_sorted(flat(chunks)),
        !key_less(slot_low(slot), lo),
        !key_less(hi, slot_high(slot)),
        covers_range(chunk_index(chunks), flat(chunks)[0].0, flat(chunks).last().0, lo, hi, first, end),
    ensures
        last_entry(flat(chunks.subrange(first, end)), slot) == last_entry(flat(chunks), slot),
{
    let es = flat(chunks);
    let index = chunk_index(chunks);
    let n = chunks.len();
    let (a, b) = (chunk_start(chunks, first), chunk_start(chunks, end));
    lemma_chunk_start_monotone(chunks, 0, first);
    lemma_chunk_start_monotone(chunks, first, end);
    lemma_chunk_start_monotone(chunks, end, n as int);
    assert(chunks.take(0) =~= Seq::<Seq<Entry>>::empty());
    lemma_flat_split(chunks, first);
    lemma_flat_split(chunks, end);
    lemma_flat_split(chunks.skip(first), end - first);
    assert(chunks.skip(first).take(end - first) =~= chunks.subrange(first, end));
    assert(chunks.skip(first).skip(end - first) =~= chunks.skip(end));
    let (left, mid, right) = (flat(chunks.take(first)), flat(chunks.subrange(first, end)), flat(chunks.skip(end)));
    assert(es =~= left + (mid + right));
    lemma_last_entry_concat(left, mid + right, slot);
    lemma_last_entry_concat(mid, right, slot);
    if key_less(hi, es[0].0) || key_less(es.last().0, lo) {
        assert(mid =~= Seq::<Entry>::empty()) by {
            assert(chunks.subrange(first, end) =~= Seq::<Seq<Entry>>::empty());
        }
        assert forall|i: int| 0 <= i < es.len() implies (#[trigger] es[i]).0.spec_slot() != slot by {
            if i > 0 {
                assert(key_less(es[0].0, es[i].0));
            }
            if i < es.len() - 1 {
                assert(key_less(es[i].0, es[es.len() - 1].0));
            }
        }
        lemma_no_last_entry(es, slot);
    } else {
        assert forall|i: int| 0 <= i < left.len() implies (#[trigger] left[i]).0.spec_slot() != slot by {
            assert(left[i] == es[i]);
            lemma_chunk_position(chunks, first);
            assert(es[a] == chunks[first][0]) by {
                assert(es.subrange(a, chunk_start(chunks, first + 1))[0] == chunks[first][0]);
            }
            assert(index[first].0 == es[a].0);
            assert(key_less(es[i].0, es[a].0));
        }
        lemma_no_last_entry(left, slot);
        assert forall|i: int| 0 <= i < right.len() implies (#[trigger] right[i]).0.spec_slot() != slot by {
            assert(end < n) by {
                if end == n {
                    assert(chunks.skip(end) =~= Seq::<Seq<Entry>>::empty());
                }
            }
            assert(right[i] == es[b + i]);
            lemma_chunk_position(chunks, end);
            assert(es[b] == chunks[end][0]) by {
                assert(es.subrange(b, chunk_start(chunks, end + 1))[0] == chunks[end][0]);
            }
            assert(index[end].0 == es[b].0);
            if i > 0 {
                assert(key_less(es[b].0, es[b + i].0));
            }
        }
        lemma_no_last_entry(right, slot);
    }
}

/// The bytes of a table's file are where the index says: the footer leads to the index
/// block, that one to the blocks, and these hold the entries.
#[verifier::rlimit(40)]
pub proof fn law_table_round_trip(id: u32, es: Seq<Entry>)
    requires
        table_fits(es),
        entries_sorted(es),
    ensures
        ({
            let file = table_bytes(id, es);
            let n = file.len() as int;
            let offset = entries_bytes(es).len();
            let index = chunk_index(table_chunks(es));
            &&& n <= u64::MAX
            &&& offset + 16 <= n
            &&& parse_footer(file.subrange(n - 16, n)) == Ok::<u64, TableError>(offset as u64)
            &&& parse_index(file.subrange(offset as int, n - 16)) == Ok::<TableIndex, TableError>(
                TableIndex { id, entry_count: es.len() as u32, min_key: es[0].0, max_key: es.last().0, index },
            )
            &&& index_sorted(index)
            &&& blocks_ordered(index, offset as u64)
            &&& decode_blocks(file_blocks(file, index, offset as u64, 0, index.len() as int)) == Ok::<
                Seq<Entry>,
                ValueError,
            >(es)
        }),
{
    broadcast use lemma_be_bytes_len;

    let file = table_bytes(id, es);
    let n = file.len() as int;
    let data = entries_bytes(es);
    let offset = data.len();
    let chunks = table_chunks(es);
    let index = chunk_index(chunks);
    lemma_table_chunks(es);
    law_index_round_trip(id, es.len() as u32, es[0].0, es.last().0, index);
    lemma_pow256_values();
    lemma_be_value_of_bytes(offset, 8);
    let footer = footer_bytes(offset as u64);
    assert(file.subrange(n - 16, n) =~= footer);
    assert(footer.subrange(0, 8) =~= be_bytes(offset, 8));
    assert(footer.subrange(8, 16) =~= footer_magic());
    assert(file.subrange(offset as int, n - 16) =~= table_index_bytes(id, es));
    lemma_table_blocks(es);
    assert(file.take(offset as int) =~= data);
    lemma_decode_file_blocks(file, chunks, 0, chunks.len() as int);
    assert(chunks.subrange(0, chunks.len() as int) =~= chunks);
}

proof fn lemma_table_blocks(es: Seq<Entry>)
    requires
        table_fits(es),
        entries_sorted(es),
    ensures
        index_sorted(chunk_index(table_chunks(es))),
        blocks_ordered(chunk_index(table_chunks(es)), entries_bytes(es).len() as u64),
        forall|i: int| 0 <= i < table_chunks(es).len() ==> entries_fit(#[trigger] table_chunks(es)[i]),
{
    let chunks = table_chunks(es);
    let index = chunk_index(chunks);
    lemma_table_chunks(es);
    assert forall|i: int, j: int| 0 <= i < j < index.len() implies key_less(
        (#[trigger] index[i]).0,
        (#[trigger] index[j]).0,
    ) by {
        let (a, b) = (chunk_start(chunks, i), chunk_start(chunks, j));
        lemma_chunk_position(chunks, i);
        lemma_chunk_position(chunks, j);
        lemma_chunk_start_monotone(chunks, i + 1, j);
        assert(chunks[i].len() > 0 && chunks[j].len() > 0);
        assert(es.subrange(a, chunk_start(chunks, i + 1))[0] == es[a]);
        assert(es.subrange(b, chunk_start(chunks, j + 1))[0] == es[b]);
        assert(key_less(es[a].0, es[b].0));
    }
    assert forall|i: int| 0 <= i < index.len() implies (#[trigger] index[i]).1 <= block_end(
        index,
        entries_bytes(es).len() as u64,
        i,
    ) by {
        lemma_block_spans(chunks, i);
    }
    assert forall|i: int| 0 <= i < chunks.len() implies entries_fit(#[trigger] chunks[i]) by {
        lemma_chunk_position(chunks, i);
        let a = chunk_start(chunks, i);
        lemma_chunk_start_monotone(chunks, 0, i);
        assert forall|k: int| 0 <= k < chunks[i].len() implies crate::storage::key::value_fits(
            (#[trigger] chunks[i][k]).1,
        ) by {
            assert(es.subrange(a, chunk_start(chunks, i + 1))[k] == es[a + k]);
        }
    }
}

/// Looking up a slot, or a partition that holds it, in the blocks that the index gives for
/// it finds what stands last among all entries of the table.
pub proof fn law_table_lookup(id: u32, es: Seq<Entry>, lo: LsmKey, hi: LsmKey, first: int, end: int, slot: Slot)
    requires
        table_fits(es),
        entries_sorted(es),
        0 <= first <= end <= table_chunks(es).len(),
        covers_range(chunk_index(table_chunks(es)), es[0].0, es.last().0, lo, hi, first, end),
        !key_less(slot_low(slot), lo),
        !key_less(hi, slot_high(slot)),
    ensures
        ({
            let blocks = file_blocks(
                table_bytes(id, es),
                chunk_index(table_chunks(es)),
                entries_bytes(es).len() as u64,
                first,
                end,
            );
            decode_blocks(blocks) matches Ok(found) && last_entry(found, slot) == last_entry(es, slot)
        }),
{
    let chunks = table_chunks(es);
    lemma_table_chunks(es);
    lemma_table_blocks(es);
    assert(table_bytes(id, es).take(entries_bytes(es).len() as int) =~= entries_bytes(es));
    lemma_decode_file_blocks(table_bytes(id, es), chunks, first, end);
    lemma_covered_blocks(chunks, lo, hi, first, end, slot);
}

/// Among entries in ascending order, the one that stands last of a slot is the one with the greatest
/// sequence number.
pub proof fn law_last_entry_is_newest(es: Seq<Entry>, slot: Slot, i: int)
    requires
        entries_sorted(es),
        0 <= i < es.len(),
        es[i].0.spec_slot() == slot,
    ensures
        last_entry(es, slot) is Some,
        es.contains(last_entry(es, slot)->0),
        (last_entry(es, slot)->0).0.spec_slot() == slot,
        es[i].0.lsn <= (last_entry(es, slot)->0).0.lsn,
    decreases es.len(),
{
    let init = es.drop_last();
    if es.last().0.spec_slot() == slot {
        assert(es[es.len() - 1] == es.last());
        if i < es.len() - 1 {
            assert(key_less(es[i].0, es[es.len() - 1].0));
        }
    } else {
        assert(init[i] == es[i]);
        assert forall|a: int, b: int| 0 <= a < b < init.len() implies key_less(
            (#[trigger] init[a]).0,
            (#[trigger] init[b]).0,
        ) by {
            assert(key_less(es[a].0, es[b].0));
        }
        law_last_entry_is_newest(init, slot, i);
        let e = last_entry(init, slot)->0;
        let k = choose|k: int| 0 <= k < init.len() && init[k] == e;
        assert(es[k] == e);
    }
}

/// A table gives back what was written into it: looking a key up in the blocks that its index gives
/// for the key finds the entry of the key's slot with the greatest sequence number, deletions
/// included, and nothing exactly if no entry has the slot. The sequence number of the key does
/// not count.
pub proof fn law_table_get(id: u32, es: Seq<Entry>, key: LsmKey, first: int, end: int)
    requires
        table_fits(es),
        entries_sorted(es),
        0 <= first <= end <= table_chunks(es).len(),
        covers_range(
            chunk_index(table_chunks(es)),
            es[0].0,
            es.last().0,
            slot_low(key.spec_slot()),
            slot_high(key.spec_slot()),
            first,
            end,
        ),
    ensures
        ({
            let slot = key.spec_slot();
            let blocks = file_blocks(
                table_bytes(id, es),
                chunk_index(table_chunks(es)),
                entries_bytes(es).len() as u64,
                first,
                end,
            );
            &&& decode_blocks(blocks) is Ok
            &&& match last_entry(decode_blocks(blocks)->Ok_0, slot) {
                Some(e) => es.contains(e) && e.0.spec_slot() == slot && forall|i: int|
                    0 <= i < es.len() && (#[trigger] es[i]).0.spec_slot() == slot ==> es[i].0.lsn <= e.0.lsn,
                None => forall|i: int| 0 <= i < es.len() ==> (#[trigger] es[i]).0.spec_slot() != slot,
            }
        }),
{
    let slot = key.spec_slot();
    law_table_lookup(id, es, slot_low(slot), slot_high(slot), first, end, slot);
    assert forall|i: int| 0 <= i < es.len() && (#[trigger] es[i]).0.spec_slot() == slot implies last_entry(es, slot)
        is Some && es[i].0.lsn <= (last_entry(es, slot)->0).0.lsn by {
        law_last_entry_is_newest(es, slot, i);
    }
    if last_entry(es, slot) is Some {
        let i = lemma_last_entry_member(es, slot);
        assert(es[i] == last_entry(es, slot)->0);
    }
}

/// Scanning a partition in the blocks that the index gives for it lists exactly, for each document
/// that the table has there, the entry with the greatest sequence number, deletions included, in
/// ascending order; no document is listed twice.
pub proof fn law_table_scan(id: u32, es: Seq<Entry>, ns: u8, partition: u32, first: int, end: int, out: Seq<Entry>)
    requires
        table_fits(es),
        entries_sorted(es),
        0 <= first <= end <= table_chunks(es).len(),
        covers_range(
            chunk_index(table_chunks(es)),
            es[0].0,
            es.last().0,
            prefix_low(ns, partition),
            prefix_high(ns, partition),
            first,
            end,
        ),
        ({
            let blocks = file_blocks(
                table_bytes(id, es),
                chunk_index(table_chunks(es)),
                entries_bytes(es).len() as u64,
                first,
                end,
            );
            decode_blocks(blocks) matches Ok(found) ==> is_prefix_scan(out, found, ns, partition)
        }),
    ensures
        is_prefix_scan(out, es, ns, partition),
        forall|x: int, y: int| 0 <= x < y < out.len() ==> (#[trigger] out[x]).0.doc_id != (#[trigger] out[y]).0.doc_id,
        forall|x: int, i: int|
            0 <= x < out.len() && 0 <= i < es.len() && (#[trigger] es[i]).0.spec_slot() == (
            #[trigger] out[x]).0.spec_slot() ==> es[i].0.lsn <= out[x].0.lsn,
{
    let lo = prefix_low(ns, partition);
    let hi = prefix_high(ns, partition);
    let blocks = file_blocks(
        table_bytes(id, es),
        chunk_index(table_chunks(es)),
        entries_bytes(es).len() as u64,
        first,
        end,
    );
    let any = Slot { namespace: ns, partition, doc_id: 0 };
    law_table_lookup(id, es, lo, hi, first, end, any);
    let found = decode_blocks(blocks)->Ok_0;
    assert forall|slot: Slot| slot.namespace == ns && slot.partition == partition implies #[trigger] last_entry(
        es,
        slot,
    ) == last_entry(found, slot) by {
        law_table_lookup(id, es, lo, hi, first, end, slot);
    }
    assert forall|x: int| 0 <= x < out.len() implies last_entry(es, (#[trigger] out[x]).0.spec_slot()) == Some(
        out[x],
    ) by {
        assert(in_prefix(out[x].0, ns, partition));
        assert(last_entry(found, out[x].0.spec_slot()) == Some(out[x]));
    }
    assert forall|slot: Slot|
        slot.namespace == ns && slot.partition == partition && (#[trigger] last_entry(es, slot)) is Some implies out.contains(
        last_entry(es, slot)->0,
    ) by {
        assert(last_entry(found, slot) is Some);
    }
    assert forall|x: int, y: int| 0 <= x < y < out.len() implies (#[trigger] out[x]).0.doc_id != (
    #[trigger] out[y]).0.doc_id by {
        if out[x].0.doc_id == out[y].0.doc_id {
            assert(out[x].0.spec_slot() == out[y].0.spec_slot());
            assert(key_less(out[x].0, out[y].0));
        }
    }
    assert forall|x: int, i: int|
        0 <= x < out.len() && 0 <= i < es.len() && (#[trigger] es[i]).0.spec_slot() == (
        #[trigger] out[x]).0.spec_slot() implies es[i].0.lsn <= out[x].0.lsn by {
        law_last_entry_is_newest(es, out[x].0.spec_slot(), i);
    }
}

} // verus!
