//! Sorted tables: the files that hold flushed entries.
//!
//! A table file is a run of data blocks of about four kilobytes each, an index block
//! and a footer. The index block holds a header (magic, version, table id, number of
//! entries, number of blocks, least and greatest key) and, for each data block, its
//! first key and its offset. The footer holds the offset of the index block and a
//! magic of its own. The functions here compute what is to be written where and what
//! the bytes that were read mean; moving the bytes is left to the caller.

use vstd::prelude::*;

use crate::bytes::{be_bytes, be_value};
use crate::bytes::{bytes_equal, push_len, push_u32, push_u64, read_u32, read_u64};
use crate::bytes::lemma_be_bytes_len;
use crate::sort::index_before;
use crate::storage::entry::{
    decode_entries, entry_bytes, is_newest, key_of_bytes, last_entry, last_value, picks_newest, slot_less, slot_picked,
    view_entries, Entry,
};
use crate::storage::entry::{lemma_key_of_bytes, pick_newest, read_entries};
use crate::storage::key::{key_at, key_bytes, key_less, LsmKey, LsmValue, Slot, ValueError};
use crate::storage::key::lemma_key_bytes_len;

verus! {

/// A data block is written out once it holds this many bytes.
pub const BLOCK_SIZE: usize = 4096;

/// The version of the table format.
pub const VERSION: u32 = 1;

/// The length of the footer.
pub const FOOTER_LEN: usize = 16;

/// The length of the index block's header.
pub const INDEX_HEADER_LEN: usize = 62;

/// The length of one block's entry in the index block.
pub const BLOCK_INDEX_ENTRY_LEN: usize = 29;

/// The magic at the start of the index block: `SKST`.
pub open spec fn index_magic() -> Seq<u8> {
    seq![83u8, 75u8, 83u8, 84u8]
}

/// The magic at the end of the footer: `SKST_END`.
pub open spec fn footer_magic() -> Seq<u8> {
    seq![83u8, 75u8, 83u8, 84u8, 95u8, 69u8, 78u8, 68u8]
}

/// Bytes to be written at an offset of a file.
#[derive(Debug)]
pub struct FileWrite {
    pub offset: u64,
    pub bytes: Vec<u8>,
}

/// Why a table cannot be opened or finished.
#[derive(Clone, Copy, Debug, PartialEq, Eq, Structural)]
pub enum TableError {
    /// The file is shorter than a footer.
    TooSmall { size: u64 },
    /// The footer does not end in its magic.
    FooterMagic,
    /// The index block is shorter than its header.
    IndexTooShort,
    /// The index block does not start with its magic.
    IndexMagic,
    /// The index block is of a version that is not known.
    UnsupportedVersion { version: u32 },
    /// The index block is shorter than its number of blocks asks for.
    IndexEntryTruncated,
    /// A table without entries cannot be finished.
    NoEntries,
}

/// A table whose index is in memory.
#[derive(Debug)]
pub struct SSTable {
    pub id: u32,
    pub path: String,
    pub index: Vec<(LsmKey, u64)>,
    pub entry_count: u32,
    pub min_key: LsmKey,
    pub max_key: LsmKey,
    pub index_offset: u64,
}

/// What the index block of a table says.
pub struct TableIndex {
    pub id: u32,
    pub entry_count: u32,
    pub min_key: LsmKey,
    pub max_key: LsmKey,
    pub index: Seq<(LsmKey, u64)>,
}

/// The entry at a position of the index block: a first key and an offset.
pub open spec fn index_entry_at(buf: Seq<u8>, pos: int) -> (LsmKey, u64) {
    (key_of_bytes(buf.subrange(pos, pos + 21)), be_value(buf.subrange(pos + 21, pos + 29)) as u64)
}

/// The number of blocks that the header of an index block announces.
pub open spec fn index_block_count(buf: Seq<u8>) -> nat {
    be_value(buf.subrange(16, 20))
}

/// What an index block means, or why it is not one.
pub open spec fn parse_index(buf: Seq<u8>) -> Result<TableIndex, TableError> {
    if buf.len() < 62 {
        Err(TableError::IndexTooShort)
    } else if buf.subrange(0, 4) != index_magic() {
        Err(TableError::IndexMagic)
    } else if be_value(buf.subrange(4, 8)) != 1 {
        Err(TableError::UnsupportedVersion { version: be_value(buf.subrange(4, 8)) as u32 })
    } else if buf.len() < 62 + 29 * index_block_count(buf) {
        Err(TableError::IndexEntryTruncated)
    } else {
        Ok(
            TableIndex {
                id: be_value(buf.subrange(8, 12)) as u32,
                entry_count: be_value(buf.subrange(12, 16)) as u32,
                min_key: key_of_bytes(buf.subrange(20, 41)),
                max_key: key_of_bytes(buf.subrange(41, 62)),
                index: Seq::new(index_block_count(buf), |i: int| index_entry_at(buf, 62 + 29 * i)),
            },
        )
    }
}

/// What a footer says: the offset of the index block.
pub open spec fn parse_footer(footer: Seq<u8>) -> Result<u64, TableError> {
    if footer.subrange(8, 16) != footer_magic() {
        Err(TableError::FooterMagic)
    } else {
        Ok(be_value(footer.subrange(0, 8)) as u64)
    }
}

/// The first keys of the blocks ascend strictly.
pub open spec fn index_sorted(index: Seq<(LsmKey, u64)>) -> bool {
    forall|i: int, j: int| 0 <= i < j < index.len() ==> key_less((#[trigger] index[i]).0, (#[trigger] index[j]).0)
}

/// Where block `i` ends: where the next one starts, or where the index block starts.
pub open spec fn block_end(index: Seq<(LsmKey, u64)>, index_offset: u64, i: int) -> u64 {
    if i + 1 < index.len() {
        index[i + 1].1
    } else {
        index_offset
    }
}

/// No block ends before it starts.
pub open spec fn blocks_ordered(index: Seq<(LsmKey, u64)>, index_offset: u64) -> bool {
    forall|i: int| 0 <= i < index.len() ==> (#[trigger] index[i]).1 <= block_end(index, index_offset, i)
}

/// The keys of a slot lie from this one on.
pub open spec fn slot_low(slot: Slot) -> LsmKey {
    key_at(slot, 0)
}

/// The keys of a slot lie up to this one.
pub open spec fn slot_high(slot: Slot) -> LsmKey {
    key_at(slot, u64::MAX)
}

/// The keys of a partition lie from this one on.
pub open spec fn prefix_low(ns: u8, partition: u32) -> LsmKey {
    LsmKey { namespace: ns, partition_or_segment: partition, doc_id: 0, lsn: 0 }
}

/// The keys of a partition lie up to this one.
pub open spec fn prefix_high(ns: u8, partition: u32) -> LsmKey {
    LsmKey { namespace: ns, partition_or_segment: partition, doc_id: u64::MAX, lsn: u64::MAX }
}

/// The blocks from `first` up to `end` are those that can hold a key from `lo` to `hi`:
/// from the last block whose first key is not above `lo` (from the first block, if there is
/// none) up to the first one from there whose first key is above `hi`. If the least and the
/// greatest key of the table rule such a key out, there are none.
pub open spec fn covers_range(
    index: Seq<(LsmKey, u64)>,
    min_key: LsmKey,
    max_key: LsmKey,
    lo: LsmKey,
    hi: LsmKey,
    first: int,
    end: int,
) -> bool {
    if index.len() == 0 || key_less(hi, min_key) || key_less(max_key, lo) {
        first == end
    } else {
        &&& 0 <= first < index.len()
        &&& first == 0 || !key_less(lo, index[first].0)
        &&& forall|i: int| first < i < index.len() ==> key_less(lo, (#[trigger] index[i]).0)
        &&& forall|i: int| first <= i < end ==> !key_less(hi, (#[trigger] index[i]).0)
        &&& end < index.len() ==> key_less(hi, index[end].0)
    }
}

/// The contents of a list of blocks.
pub open spec fn view_blocks(blocks: Seq<Vec<u8>>) -> Seq<Seq<u8>> {
    Seq::new(blocks.len(), |i: int| blocks[i]@)
}

/// The entries that stand in a list of blocks, or the first error.
pub open spec fn decode_blocks(blocks: Seq<Seq<u8>>) -> Result<Seq<Entry>, ValueError>
    decreases blocks.len(),
{
    if blocks.len() == 0 {
        Ok(Seq::empty())
    } else {
        match decode_blocks(blocks.drop_last()) {
            Err(e) => Err(e),
            Ok(es) => match decode_entries(blocks.last()) {
                Err(e) => Err(e),
                Ok(tail) => Ok(es + tail),
            },
        }
    }
}

/// The key lies in a partition.
pub open spec fn in_prefix(key: LsmKey, ns: u8, partition: u32) -> bool {
    key.namespace == ns && key.partition_or_segment == partition
}

/// `out` lists, in ascending order, for each document of a partition the entry that
/// stands last in `es`.
pub open spec fn is_prefix_scan(out: Seq<Entry>, es: Seq<Entry>, ns: u8, partition: u32) -> bool {
    &&& forall|x: int|
        0 <= x < out.len() ==> in_prefix((#[trigger] out[x]).0, ns, partition) && last_entry(es, out[x].0.spec_slot())
            == Some(out[x])
    &&& forall|x: int, y: int| 0 <= x < y < out.len() ==> key_less((#[trigger] out[x]).0, (#[trigger] out[y]).0)
    &&& forall|slot: Slot|
        slot.namespace == ns && slot.partition == partition && (#[trigger] last_entry(es, slot)) is Some
            ==> out.contains(last_entry(es, slot)->0)
}

proof fn lemma_decode_blocks_error(blocks: Seq<Seq<u8>>, n: int)
    requires
        0 <= n <= blocks.len(),
        decode_blocks(blocks.take(n)) is Err,
    ensures
        decode_blocks(blocks) == decode_blocks(blocks.take(n)),
    decreases blocks.len(),
{
    if n == blocks.len() {
        assert(blocks.take(n) =~= blocks);
    } else {
        assert(blocks.drop_last().take(n) =~= blocks.take(n));
        lemma_decode_blocks_error(blocks.drop_last(), n);
    }
}

/// Decodes a list of blocks.
pub fn read_blocks(blocks: &Vec<Vec<u8>>) -> (r: Result<Vec<(LsmKey, LsmValue)>, ValueError>)
    ensures
        r is Ok <==> decode_blocks(view_blocks(blocks@)) is Ok,
        r matches Ok(es) ==> decode_blocks(view_blocks(blocks@)) == Ok::<Seq<Entry>, ValueError>(view_entries(es@)),
        r matches Err(e) ==> decode_blocks(view_blocks(blocks@)) == Err::<Seq<Entry>, ValueError>(e),
{
    let mut out: Vec<(LsmKey, LsmValue)> = Vec::new();
    let mut i: usize = 0;
    let ghost all = view_blocks(blocks@);
    assert(view_entries(out@) =~= Seq::<Entry>::empty());
    while i < blocks.len()
        invariant
            i <= blocks@.len(),
            all == view_blocks(blocks@),
            decode_blocks(all.take(i as int)) == Ok::<Seq<Entry>, ValueError>(view_entries(out@)),
        decreases blocks@.len() - i,
    {
        let ghost before = out@;
        proof {
            assert(all.take(i + 1).drop_last() =~= all.take(i as int));
            assert(all.take(i + 1).last() == blocks@[i as int]@);
        }
        match read_entries(blocks[i].as_slice()) {
            Err(e) => {
                proof {
                    lemma_decode_blocks_error(all, i + 1);
                }
                return Err(e);
            },
            Ok(entries) => {
                let ghost tail = entries@;
                let mut entries = entries;
                out.append(&mut entries);
                assert(view_entries(out@) =~= view_entries(before) + view_entries(tail));
            },
        }
        i = i + 1;
    }
    assert(all.take(i as int) =~= all);
    Ok(out)
}

/// Position `i` of `keys` is the last one with its slot, where all sequence numbers are equal.
proof fn lemma_newest_is_last(es: Seq<Entry>, keys: Seq<LsmKey>, i: int)
    requires
        keys.len() == es.len(),
        forall|j: int| 0 <= j < es.len() ==> (#[trigger] keys[j]) == key_at(es[j].0.spec_slot(), 0),
        0 <= i < es.len(),
        is_newest(keys, i),
    ensures
        last_entry(es, es[i].0.spec_slot()) == Some(es[i]),
    decreases es.len(),
{
    let slot = es[i].0.spec_slot();
    let n = es.len() - 1;
    if es.last().0.spec_slot() == slot {
        if i != n {
            assert(keys[n] == keys[i]);
            assert(keys[n].spec_slot() == keys[i].spec_slot());
            assert(index_before(keys, n, i));
        }
    } else {
        assert forall|j: int|
            0 <= j < keys.drop_last().len() && j != i && (#[trigger] keys.drop_last()[j]).spec_slot()
                == keys.drop_last()[i].spec_slot() implies index_before(keys.drop_last(), j, i) by {
            assert(keys.drop_last()[j] == keys[j]);
            assert(index_before(keys, j, i));
        }
        lemma_newest_is_last(es.drop_last(), keys.drop_last(), i);
    }
}

/// The last entry of a slot is an entry of that slot.
pub proof fn lemma_last_entry_member(es: Seq<Entry>, slot: Slot) -> (i: int)
    requires
        last_entry(es, slot) is Some,
    ensures
        0 <= i < es.len(),
        es[i] == last_entry(es, slot)->0,
        es[i].0.spec_slot() == slot,
    decreases es.len(),
{
    if es.last().0.spec_slot() == slot {
        es.len() - 1
    } else {
        lemma_last_entry_member(es.drop_last(), slot)
    }
}

/// Keeps of a list of entries, for each document of a partition, the entry that stands last.
pub fn keep_last_of_prefix(es: &Vec<(LsmKey, LsmValue)>, ns: u8, partition: u32) -> (out: Vec<(LsmKey, LsmValue)>)
    ensures
        is_prefix_scan(view_entries(out@), view_entries(es@), ns, partition),
{
    let ghost model = view_entries(es@);
    let mut keys: Vec<LsmKey> = Vec::new();
    let mut i: usize = 0;
    while i < es.len()
        invariant
            i <= es@.len(),
            keys@.len() == i,
            forall|j: int| 0 <= j < i ==> (#[trigger] keys@[j]) == key_at(es@[j].0.spec_slot(), 0),
        decreases es@.len() - i,
    {
        let k = es[i].0;
        keys.push(
            LsmKey { namespace: k.namespace, partition_or_segment: k.partition_or_segment, doc_id: k.doc_id, lsn: 0 },
        );
        i = i + 1;
    }
    let picked = pick_newest(&keys);
    let mut out: Vec<(LsmKey, LsmValue)> = Vec::new();
    let mut x: usize = 0;
    assert forall|j: int| 0 <= j < model.len() implies (#[trigger] keys@[j]) == key_at(model[j].0.spec_slot(), 0) by {
        assert(model[j].0 == es@[j].0);
    }
    while x < picked.len()
        invariant
            x <= picked@.len(),
            model == view_entries(es@),
            keys@.len() == model.len(),
            forall|j: int| 0 <= j < model.len() ==> (#[trigger] keys@[j]) == key_at(model[j].0.spec_slot(), 0),
            picks_newest(keys@, picked@),
            forall|y: int|
                0 <= y < out@.len() ==> in_prefix((#[trigger] view_entries(out@)[y]).0, ns, partition) && last_entry(
                    model,
                    view_entries(out@)[y].0.spec_slot(),
                ) == Some(view_entries(out@)[y]),
            forall|y: int, z: int|
                0 <= y < z < out@.len() ==> key_less(
                    (#[trigger] view_entries(out@)[y]).0,
                    (#[trigger] view_entries(out@)[z]).0,
                ),
            forall|y: int, z: int|
                0 <= y < out@.len() && x <= z < picked@.len() ==> slot_less(
                    (#[trigger] view_entries(out@)[y]).0.spec_slot(),
                    keys@[#[trigger] picked@[z] as int].spec_slot(),
                ),
            forall|z: int|
                0 <= z < x && in_prefix(keys@[#[trigger] picked@[z] as int], ns, partition) ==> view_entries(
                    out@,
                ).contains(model[picked@[z] as int]),
        decreases picked@.len() - x,
    {
        let at: usize = picked[x];
        let k = es[at].0;
        let ghost before = out@;
        proof {
            assert(model[at as int].0 == k);
            lemma_newest_is_last(model, keys@, at as int);
        }
        if k.namespace == ns && k.partition_or_segment == partition {
            let v = es[at].1.clone();
            out.push((k, v));
            proof {
                assert(model[at as int] == (k, v@));
                assert(view_entries(out@) =~= view_entries(before).push((k, v@)));
                assert(view_entries(out@)[before.len() as int] == (k, v@));
                assert forall|y: int| 0 <= y < before.len() implies (#[trigger] view_entries(out@)[y]) == view_entries(
                    before,
                )[y] by {}
            }
        }
        proof {
            assert forall|z: int|
                0 <= z < x + 1 && in_prefix(keys@[#[trigger] picked@[z] as int], ns, partition) implies view_entries(
                out@,
            ).contains(model[picked@[z] as int]) by {
                if z < x {
                    let m = model[picked@[z] as int];
                    let y = choose|y: int| 0 <= y < view_entries(before).len() && view_entries(before)[y] == m;
                    assert(view_entries(out@)[y] == m);
                } else {
                    assert(view_entries(out@)[before.len() as int] == model[at as int]);
                }
            }
        }
        x = x + 1;
    }
    proof {
        let result = view_entries(out@);
        assert forall|slot: Slot|
            slot.namespace == ns && slot.partition == partition && (#[trigger] last_entry(model, slot))
                is Some implies result.contains(last_entry(model, slot)->0) by {
            let i = lemma_last_entry_member(model, slot);
            assert(keys@[i].spec_slot() == slot);
            assert(slot_picked(keys@, picked@, slot));
            let z = choose|z: int|
                0 <= z < picked@.len() && keys@[#[trigger] picked@[z] as int].spec_slot() == slot;
            let at = picked@[z] as int;
            assert(keys@[at] == key_at(model[at].0.spec_slot(), 0));
            lemma_newest_is_last(model, keys@, at);
            assert(model[at].0.spec_slot() == slot);
            assert(in_prefix(keys@[at], ns, partition));
        }
    }
    out
}

impl SSTable {
    /// Where the footer of a file starts.
    pub fn footer_offset(file_size: u64) -> (r: Result<u64, TableError>)
        ensures
            file_size >= 16 ==> r == Ok::<u64, TableError>((file_size - 16) as u64),
            file_size < 16 ==> r == Err::<u64, TableError>(TableError::TooSmall { size: file_size }),
    {
        if file_size < FOOTER_LEN as u64 {
            Err(TableError::TooSmall { size: file_size })
        } else {
            Ok(file_size - FOOTER_LEN as u64)
        }
    }

    /// The offset of the index block, as the footer gives it.
    pub fn read_footer(footer: &[u8]) -> (r: Result<u64, TableError>)
        requires
            footer@.len() == 16,
        ensures
            r == parse_footer(footer@),
    {
        let magic: [u8; 8] = [83u8, 75u8, 83u8, 84u8, 95u8, 69u8, 78u8, 68u8];
        let tail = vstd::slice::slice_subrange(footer, 8, 16);
        let same: bool = bytes_equal(tail, &magic);
        assert(magic@ =~= footer_magic());
        if !same {
            return Err(TableError::FooterMagic);
        }
        Ok(read_u64(footer, 0))
    }

    /// The length of the index block of a file: what stands between its offset and the
    /// footer. `None` if the offset lies behind the footer.
    pub fn index_len(file_size: u64, index_offset: u64) -> (r: Option<u64>)
        ensures
            index_offset + 16 <= file_size ==> r == Some((file_size - 16 - index_offset) as u64),
            index_offset + 16 > file_size ==> r is None,
    {
        if file_size < FOOTER_LEN as u64 || file_size - (FOOTER_LEN as u64) < index_offset {
            None
        } else {
            Some(file_size - FOOTER_LEN as u64 - index_offset)
        }
    }

    /// The table whose index block stands at `index_offset` and holds `index_buf`.
    pub fn open(path: String, index_offset: u64, index_buf: &[u8]) -> (r: Result<SSTable, TableError>)
        ensures
            r is Ok <==> parse_index(index_buf@) is Ok,
            r matches Ok(t) ==> t.path == path && t.index_offset == index_offset && parse_index(index_buf@) == Ok::<
                TableIndex,
                TableError,
            >(t.index_view()),
            r matches Err(e) ==> parse_index(index_buf@) == Err::<TableIndex, TableError>(e),
    {
        let len: usize = index_buf.len();
        if len < INDEX_HEADER_LEN {
            return Err(TableError::IndexTooShort);
        }
        let magic: [u8; 4] = [83u8, 75u8, 83u8, 84u8];
        let head = vstd::slice::slice_subrange(index_buf, 0, 4);
        let same: bool = bytes_equal(head, &magic);
        assert(magic@ =~= index_magic());
        if !same {
            return Err(TableError::IndexMagic);
        }
        let version: u32 = read_u32(index_buf, 4);
        if version != VERSION {
            return Err(TableError::UnsupportedVersion { version });
        }
        let id: u32 = read_u32(index_buf, 8);
        let entry_count: u32 = read_u32(index_buf, 12);
        let num_blocks: u32 = read_u32(index_buf, 16);
        let min_key = LsmKey::decode_at(index_buf, 20);
        let max_key = LsmKey::decode_at(index_buf, 41);
        proof {
            lemma_key_of_bytes(min_key);
            lemma_key_of_bytes(max_key);
        }
        let mut index: Vec<(LsmKey, u64)> = Vec::new();
        let mut p: usize = INDEX_HEADER_LEN;
        let mut n: u32 = 0;
        while n < num_blocks
            invariant
                len == index_buf@.len(),
                n <= num_blocks,
                p <= len,
                p == 62 + 29 * n,
                num_blocks as nat == index_block_count(index_buf@),
                index@.len() == n,
                forall|i: int| 0 <= i < n ==> (#[trigger] index@[i]) == index_entry_at(index_buf@, 62 + 29 * i),
                len >= 62,
                index_buf@.subrange(0, 4) == index_magic(),
                be_value(index_buf@.subrange(4, 8)) == 1,
            decreases num_blocks - n,
        {
            if len - p < BLOCK_INDEX_ENTRY_LEN {
                return Err(TableError::IndexEntryTruncated);
            }
            let key = LsmKey::decode_at(index_buf, p);
            let offset: u64 = read_u64(index_buf, p + 21);
            proof {
                lemma_key_of_bytes(key);
            }
            index.push((key, offset));
            p = p + BLOCK_INDEX_ENTRY_LEN;
            n = n + 1;
        }
        let table = SSTable { id, path, index, entry_count, min_key, max_key, index_offset };
        assert(table.index@ =~= parse_index(index_buf@)->Ok_0.index);
        Ok(table)
    }

    /// What the index block of this table says.
    pub open spec fn index_view(self) -> TableIndex {
        TableIndex {
            id: self.id,
            entry_count: self.entry_count,
            min_key: self.min_key,
            max_key: self.max_key,
            index: self.index@,
        }
    }

    /// Whether no block ends before it starts.
    pub fn has_ordered_blocks(&self) -> (r: bool)
        ensures
            r == blocks_ordered(self.index@, self.index_offset),
    {
        let mut i: usize = 0;
        while i < self.index.len()
            invariant
                i <= self.index@.len(),
                forall|j: int|
                    0 <= j < i ==> (#[trigger] self.index@[j]).1 <= block_end(self.index@, self.index_offset, j),
            decreases self.index@.len() - i,
        {
            let end: u64 = if i + 1 < self.index.len() {
                self.index[i + 1].1
            } else {
                self.index_offset
            };
            if self.index[i].1 > end {
                assert(self.index@[i as int].1 > block_end(self.index@, self.index_offset, i as int));
                return false;
            }
            i = i + 1;
        }
        true
    }

    /// The offset and the length of a block.
    pub fn block_span(&self, i: usize) -> (r: (u64, u64))
        requires
            i < self.index@.len(),
            blocks_ordered(self.index@, self.index_offset),
        ensures
            r.0 == self.index@[i as int].1,
            r.0 + r.1 == block_end(self.index@, self.index_offset, i as int),
    {
        let offset: u64 = self.index[i].1;
        let end: u64 = if self.index.len() - i > 1 {
            self.index[i + 1].1
        } else {
            self.index_offset
        };
        assert(self.index@[i as int].1 <= block_end(self.index@, self.index_offset, i as int));
        (offset, end - offset)
    }

    /// The last block whose first key is not above `lo`, or the first block.
    fn start_block(&self, lo: &LsmKey) -> (start: usize)
        requires
            self.index@.len() > 0,
        ensures
            start < self.index@.len(),
            index_sorted(self.index@) ==> (start == 0 || !key_less(*lo, self.index@[start as int].0)) && forall|i: int|
                start < i < self.index@.len() ==> key_less(*lo, (#[trigger] self.index@[i]).0),
    {
        let mut left: usize = 0;
        let mut right: usize = self.index.len();
        while left < right
            invariant
                left <= right <= self.index@.len(),
                index_sorted(self.index@) ==> forall|i: int|
                    0 <= i < left ==> !key_less(*lo, (#[trigger] self.index@[i]).0),
                index_sorted(self.index@) ==> forall|i: int|
                    right <= i < self.index@.len() ==> key_less(*lo, (#[trigger] self.index@[i]).0),
            decreases right - left,
        {
            let mid: usize = left + (right - left) / 2;
            if lo.less(&self.index[mid].0) {
                right = mid;
            } else {
                left = mid + 1;
            }
        }
        if left == 0 {
            0
        } else {
            left - 1
        }
    }

    /// The blocks that can hold a key from `lo` to `hi`.
    fn blocks_for_range(&self, lo: LsmKey, hi: LsmKey) -> (r: (usize, usize))
        ensures
            r.0 <= r.1 <= self.index@.len(),
            index_sorted(self.index@) ==> covers_range(
                self.index@,
                self.min_key,
                self.max_key,
                lo,
                hi,
                r.0 as int,
                r.1 as int,
            ),
    {
        if self.index.len() == 0 || hi.less(&self.min_key) || self.max_key.less(&lo) {
            return (0, 0);
        }
        let start: usize = self.start_block(&lo);
        let mut end: usize = start;
        while end < self.index.len() && !hi.less(&self.index[end].0)
            invariant
                start <= end <= self.index@.len(),
                forall|i: int| start <= i < end ==> !key_less(hi, (#[trigger] self.index@[i]).0),
            decreases self.index@.len() - end,
        {
            end = end + 1;
        }
        (start, end)
    }

    /// The blocks that have to be read to look up a key, as a range of block numbers. The
    /// sequence number of the key is ignored.
    pub fn blocks_for_key(&self, key: &LsmKey) -> (r: (usize, usize))
        ensures
            r.0 <= r.1 <= self.index@.len(),
            index_sorted(self.index@) ==> covers_range(
                self.index@,
                self.min_key,
                self.max_key,
                slot_low(key.spec_slot()),
                slot_high(key.spec_slot()),
                r.0 as int,
                r.1 as int,
            ),
    {
        let lo = LsmKey {
            namespace: key.namespace,
            partition_or_segment: key.partition_or_segment,
            doc_id: key.doc_id,
            lsn: 0,
        };
        let hi = LsmKey {
            namespace: key.namespace,
            partition_or_segment: key.partition_or_segment,
            doc_id: key.doc_id,
            lsn: u64::MAX,
        };
        self.blocks_for_range(lo, hi)
    }

    /// The blocks that have to be read to scan a partition, as a range of block numbers.
    pub fn blocks_for_prefix(&self, ns: u8, partition: u32) -> (r: (usize, usize))
        ensures
            r.0 <= r.1 <= self.index@.len(),
            index_sorted(self.index@) ==> covers_range(
                self.index@,
                self.min_key,
                self.max_key,
                prefix_low(ns, partition),
                prefix_high(ns, partition),
                r.0 as int,
                r.1 as int,
            ),
    {
        let lo = LsmKey { namespace: ns, partition_or_segment: partition, doc_id: 0, lsn: 0 };
        let hi = LsmKey { namespace: ns, partition_or_segment: partition, doc_id: u64::MAX, lsn: u64::MAX };
        self.blocks_for_range(lo, hi)
    }

    /// Looks up the newest version of a key's slot in the blocks that were read for it. The
    /// sequence number of the key is ignored. A deletion is found as such.
    pub fn get(&self, key: &LsmKey, blocks: &Vec<Vec<u8>>) -> (r: Result<Option<LsmValue>, ValueError>)
        ensures
            match decode_blocks(view_blocks(blocks@)) {
                Err(e) => r == Err::<Option<LsmValue>, ValueError>(e),
                Ok(es) => r matches Ok(found) && match last_value(es, key.spec_slot()) {
                    None => found is None,
                    Some(v) => found matches Some(value) && value@ == v,
                },
            },
    {
        let entries = match read_blocks(blocks) {
            Ok(entries) => entries,
            Err(e) => {
                return Err(e);
            },
        };
        Ok(find_last(&entries, key.slot()))
    }

    /// Scans a partition in the blocks that were read for it: for each document the newest
    /// entry, in ascending order.
    pub fn scan_prefix(&self, ns: u8, partition: u32, blocks: &Vec<Vec<u8>>) -> (r: Result<
        Vec<(LsmKey, LsmValue)>,
        ValueError,
    >)
        ensures
            match decode_blocks(view_blocks(blocks@)) {
                Err(e) => r matches Err(f) && f == e,
                Ok(es) => r matches Ok(out) && is_prefix_scan(view_entries(out@), es, ns, partition),
            },
    {
        match read_blocks(blocks) {
            Ok(entries) => Ok(keep_last_of_prefix(&entries, ns, partition)),
            Err(e) => Err(e),
        }
    }

    /// All entries of the blocks that were read, in their order and with all versions.
    pub fn iter_all_raw(&self, blocks: &Vec<Vec<u8>>) -> (r: Result<Vec<(LsmKey, LsmValue)>, ValueError>)
        ensures
            match decode_blocks(view_blocks(blocks@)) {
                Err(e) => r matches Err(f) && f == e,
                Ok(es) => r matches Ok(out) && view_entries(out@) == es,
            },
    {
        read_blocks(blocks)
    }

    /// The number of entries.
    pub fn entry_count(&self) -> (n: u32)
        ensures
            n == self.entry_count,
    {
        self.entry_count
    }
}

/// The value of the entry that stands last among those of a slot.
pub fn find_last(entries: &Vec<(LsmKey, LsmValue)>, slot: Slot) -> (found: Option<LsmValue>)
    ensures
        match last_value(view_entries(entries@), slot) {
            None => found is None,
            Some(v) => found matches Some(value) && value@ == v,
        },
{
    let mut i: usize = entries.len();
    let ghost es = view_entries(entries@);
    assert(es.take(i as int) =~= es);
    while i > 0
        invariant
            i <= entries@.len(),
            es == view_entries(entries@),
            last_entry(es.take(i as int), slot) == last_entry(es, slot),
        decreases i,
    {
        proof {
            assert(es.take(i as int).last() == es[i - 1]);
            assert(es.take(i as int).drop_last() =~= es.take(i - 1));
        }
        if entries[i - 1].0.slot() == slot {
            return Some(entries[i - 1].1.clone());
        }
        i = i - 1;
    }
    None
}

/// The state of a table that is being written.
pub struct WriterState {
    pub id: u32,
    pub block: Seq<u8>,
    pub first_key: Option<LsmKey>,
    pub index: Seq<(LsmKey, u64)>,
    pub offset: u64,
    pub entry_count: u32,
    pub min_key: Option<LsmKey>,
    pub max_key: Option<LsmKey>,
}

/// A table of which nothing has been written yet.
pub open spec fn empty_writer(id: u32) -> WriterState {
    WriterState {
        id,
        block: Seq::empty(),
        first_key: None,
        index: Seq::empty(),
        offset: 0,
        entry_count: 0,
        min_key: None,
        max_key: None,
    }
}

/// The writer after it has taken an entry into its open block.
pub open spec fn take_entry(s: WriterState, e: Entry) -> WriterState {
    WriterState {
        block: s.block + entry_bytes(e),
        first_key: if s.first_key is None {
            Some(e.0)
        } else {
            s.first_key
        },
        entry_count: (s.entry_count + 1) as u32,
        min_key: if s.min_key is None {
            Some(e.0)
        } else {
            s.min_key
        },
        max_key: Some(e.0),
        ..s
    }
}

/// The writer after its open block, if it holds anything, has been written out.
pub open spec fn close_block(s: WriterState) -> WriterState {
    if s.block.len() == 0 {
        s
    } else {
        WriterState {
            block: Seq::empty(),
            first_key: None,
            index: s.index.push((s.first_key->0, s.offset)),
            offset: (s.offset + s.block.len()) as u64,
            ..s
        }
    }
}

/// The writer after an entry: the open block is written out once it is large enough.
pub open spec fn write_entry(s: WriterState, e: Entry) -> WriterState {
    let taken = take_entry(s, e);
    if taken.block.len() >= BLOCK_SIZE {
        close_block(taken)
    } else {
        taken
    }
}

/// What an entry causes to be written at the writer's offset.
pub open spec fn written_by_entry(s: WriterState, e: Entry) -> Seq<u8> {
    let taken = take_entry(s, e);
    if taken.block.len() >= BLOCK_SIZE {
        taken.block
    } else {
        Seq::empty()
    }
}

/// The bytes of the block entries of an index block.
pub open spec fn index_entries_bytes(index: Seq<(LsmKey, u64)>) -> Seq<u8>
    decreases index.len(),
{
    if index.len() == 0 {
        Seq::empty()
    } else {
        index_entries_bytes(index.drop_last()) + key_bytes(index.last().0) + be_bytes(index.last().1 as nat, 8)
    }
}

/// The bytes of an index block.
pub open spec fn index_bytes(
    id: u32,
    entry_count: u32,
    min_key: LsmKey,
    max_key: LsmKey,
    index: Seq<(LsmKey, u64)>,
) -> Seq<u8> {
    index_magic() + be_bytes(VERSION as nat, 4) + be_bytes(id as nat, 4) + be_bytes(entry_count as nat, 4) + be_bytes(
        index.len(),
        4,
    ) + key_bytes(min_key) + key_bytes(max_key) + index_entries_bytes(index)
}

/// The bytes of a footer.
pub open spec fn footer_bytes(index_offset: u64) -> Seq<u8> {
    be_bytes(index_offset as nat, 8) + footer_magic()
}

/// Writes a table. The entries have to be given in strictly ascending order of their keys:
/// looking keys up by the index depends on it.
#[derive(Debug)]
pub struct SStableWriter {
    id: u32,
    path: String,
    current_block: Vec<u8>,
    current_block_first_key: Option<LsmKey>,
    block_index: Vec<(LsmKey, u64)>,
    current_offset: u64,
    entry_count: u32,
    min_key: Option<LsmKey>,
    max_key: Option<LsmKey>,
}

impl View for SStableWriter {
    type V = WriterState;

    closed spec fn view(&self) -> WriterState {
        WriterState {
            id: self.id,
            block: self.current_block@,
            first_key: self.current_block_first_key,
            index: self.block_index@,
            offset: self.current_offset,
            entry_count: self.entry_count,
            min_key: self.min_key,
            max_key: self.max_key,
        }
    }
}

/// An open block that holds anything has a first key, and a table with an open block or a
/// closed one has a least and a greatest key.
pub open spec fn writer_well_formed(s: WriterState) -> bool {
    &&& s.block.len() > 0 ==> s.first_key is Some
    &&& s.min_key is Some <==> s.max_key is Some
    &&& s.block.len() > 0 ==> s.min_key is Some
}

/// What finishing a table causes to be written, and where its index block stands.
pub struct TableTail {
    /// The path of the table.
    pub path: String,
    /// The last block, if it holds anything, then the index block, then the footer.
    pub writes: Vec<FileWrite>,
    /// The offset of the index block.
    pub index_offset: u64,
    /// The length of the file.
    pub file_size: u64,
}

impl SStableWriter {
    /// The path of the table.
    pub closed spec fn spec_path(&self) -> Seq<char> {
        self.path@
    }

    /// A writer of a table that holds nothing yet.
    pub fn new(id: u32, path: String) -> (w: Self)
        ensures
            w@ == empty_writer(id),
            w.spec_path() == path@,
            writer_well_formed(w@),
    {
        let w = SStableWriter {
            id,
            path,
            current_block: Vec::new(),
            current_block_first_key: None,
            block_index: Vec::new(),
            current_offset: 0,
            entry_count: 0,
            min_key: None,
            max_key: None,
        };
        assert(w@.block =~= Seq::<u8>::empty());
        assert(w@.index =~= Seq::<(LsmKey, u64)>::empty());
        w
    }

    /// Takes an entry, and hands out the block that is to be written, if it has grown
    /// large enough.
    pub fn write(&mut self, key: LsmKey, value: LsmValue) -> (r: Option<FileWrite>)
        requires
            writer_well_formed(old(self)@),
            old(self)@.entry_count < u32::MAX,
            old(self)@.offset + old(self)@.block.len() + entry_bytes((key, value@)).len() <= u64::MAX,
        ensures
            writer_well_formed(final(self)@),
            final(self)@ == write_entry(old(self)@, (key, value@)),
            final(self).spec_path() == old(self).spec_path(),
            written_by_entry(old(self)@, (key, value@)).len() == 0 ==> r is None,
            written_by_entry(old(self)@, (key, value@)).len() > 0 ==> (r matches Some(w) && w.offset == old(self)@.offset
                && w.bytes@ == written_by_entry(old(self)@, (key, value@))),
    {
        let ghost start = self@;
        let ghost e = (key, value@);
        if self.min_key.is_none() {
            self.min_key = Some(key);
        }
        self.max_key = Some(key);
        if self.current_block_first_key.is_none() {
            self.current_block_first_key = Some(key);
        }
        key.push_to(&mut self.current_block);
        value.push_to(&mut self.current_block);
        self.entry_count = self.entry_count + 1;
        proof {
            lemma_key_bytes_len(key);
            assert(self.current_block@ =~= start.block + entry_bytes(e));
            assert(self@ == take_entry(start, e));
        }
        if self.current_block.len() >= BLOCK_SIZE {
            self.flush_block()
        } else {
            None
        }
    }

    /// The number of entries that have been taken.
    pub fn entry_count(&self) -> (n: u32)
        ensures
            n == self@.entry_count,
    {
        self.entry_count
    }

    /// Hands out the open block, if it holds anything, and enters it in the index.
    fn flush_block(&mut self) -> (r: Option<FileWrite>)
        requires
            writer_well_formed(old(self)@),
            old(self)@.offset + old(self)@.block.len() <= u64::MAX,
        ensures
            writer_well_formed(final(self)@),
            final(self)@ == close_block(old(self)@),
            final(self).spec_path() == old(self).spec_path(),
            old(self)@.block.len() == 0 ==> r is None,
            old(self)@.block.len() > 0 ==> (r matches Some(w) && w.offset == old(self)@.offset && w.bytes@
                == old(self)@.block),
    {
        if self.current_block.len() == 0 {
            return None;
        }
        let ghost start = self@;
        let offset: u64 = self.current_offset;
        match self.current_block_first_key {
            Some(first_key) => {
                self.block_index.push((first_key, offset));
            },
            None => {},
        }
        self.current_block_first_key = None;
        let mut bytes: Vec<u8> = Vec::new();
        std::mem::swap(&mut bytes, &mut self.current_block);
        self.current_offset = offset + bytes.len() as u64;
        assert(self@.block =~= Seq::<u8>::empty());
        assert(self@ == close_block(start));
        Some(FileWrite { offset, bytes })
    }

    /// Finishes the table: hands out what is left to be written. A table without entries
    /// is an error.
    pub fn finish(self) -> (r: Result<TableTail, TableError>)
        requires
            writer_well_formed(self@),
            ({
                let s = close_block(self@);
                self@.offset + self@.block.len() + 62 + 29 * s.index.len() + 16 <= u64::MAX
            }),
        ensures
            self@.min_key is None ==> (r matches Err(e) && e == TableError::NoEntries),
            self@.min_key is Some ==> (r matches Ok(tail) && ({
                let s = close_block(self@);
                let index = index_bytes(s.id, s.entry_count, s.min_key->0, s.max_key->0, s.index);
                let n = tail.writes@.len();
                &&& tail.path@ == self.spec_path()
                &&& tail.index_offset == s.offset
                &&& tail.file_size == s.offset + index.len() + 16
                &&& n == if self@.block.len() > 0 { 3int } else { 2int }
                &&& self@.block.len() > 0 ==> tail.writes@[0].offset == self@.offset && tail.writes@[0].bytes@
                    == self@.block
                &&& tail.writes@[n - 2].offset == s.offset && tail.writes@[n - 2].bytes@ == index
                &&& tail.writes@[n - 1].offset == s.offset + index.len() && tail.writes@[n - 1].bytes@ == footer_bytes(
                    s.offset,
                )
            })),
    {
        let mut this = self;
        let mut writes: Vec<FileWrite> = Vec::new();
        match this.flush_block() {
            Some(w) => {
                writes.push(w);
            },
            None => {},
        }
        let ghost s = this@;
        let (min_key, max_key) = match (this.min_key, this.max_key) {
            (Some(min_key), Some(max_key)) => (min_key, max_key),
            _ => {
                return Err(TableError::NoEntries);
            },
        };
        let index_offset: u64 = this.current_offset;
        let magic: [u8; 4] = [83u8, 75u8, 83u8, 84u8];
        assert(magic@ =~= index_magic());
        let mut buf: Vec<u8> = Vec::new();
        crate::bytes::push_bytes(&mut buf, &magic);
        push_u32(&mut buf, VERSION);
        push_u32(&mut buf, this.id);
        push_u32(&mut buf, this.entry_count);
        push_len(&mut buf, this.block_index.len());
        min_key.push_to(&mut buf);
        max_key.push_to(&mut buf);
        let ghost header = buf@;
        proof {
            broadcast use lemma_be_bytes_len;

            lemma_key_bytes_len(min_key);
            lemma_key_bytes_len(max_key);
            assert(header =~= index_magic() + be_bytes(VERSION as nat, 4) + be_bytes(s.id as nat, 4) + be_bytes(
                s.entry_count as nat,
                4,
            ) + be_bytes(s.index.len(), 4) + key_bytes(min_key) + key_bytes(max_key));
            assert(header.len() == 62);
        }
        let mut i: usize = 0;
        assert(s.index.take(0) =~= Seq::<(LsmKey, u64)>::empty());
        assert(buf@ =~= header + index_entries_bytes(s.index.take(0)));
        while i < this.block_index.len()
            invariant
                i <= this.block_index@.len(),
                s.index == this.block_index@,
                buf@ == header + index_entries_bytes(s.index.take(i as int)),
                buf@.len() == 62 + 29 * i,
            decreases this.block_index@.len() - i,
        {
            let (first_key, offset): (LsmKey, u64) = this.block_index[i];
            let ghost before = buf@;
            first_key.push_to(&mut buf);
            push_u64(&mut buf, offset);
            proof {
                broadcast use lemma_be_bytes_len;

                lemma_key_bytes_len(first_key);
                let next = s.index.take(i + 1);
                assert(next.drop_last() =~= s.index.take(i as int));
                assert(next.last() == (first_key, offset));
                assert(buf@ =~= header + index_entries_bytes(next));
            }
            i = i + 1;
        }
        assert(s.index.take(i as int) =~= s.index);
        assert(buf@ =~= index_bytes(s.id, s.entry_count, min_key, max_key, s.index));
        let footer_offset: u64 = index_offset + buf.len() as u64;
        writes.push(FileWrite { offset: index_offset, bytes: buf });
        let mut footer: Vec<u8> = Vec::new();
        push_u64(&mut footer, index_offset);
        let end_magic: [u8; 8] = [83u8, 75u8, 83u8, 84u8, 95u8, 69u8, 78u8, 68u8];
        assert(end_magic@ =~= footer_magic());
        crate::bytes::push_bytes(&mut footer, &end_magic);
        assert(footer@ =~= footer_bytes(index_offset));
        writes.push(FileWrite { offset: footer_offset, bytes: footer });
        Ok(TableTail { path: this.path, writes, index_offset, file_size: footer_offset + FOOTER_LEN as u64 })
    }
}

} // verus!
