//! Lists of entries: their bytes, and the newest version of each slot.

use vstd::prelude::*;

use crate::bytes::{be_bytes, be_value};
use crate::bytes::{lemma_be_bytes_len, lemma_be_value_of_bytes, lemma_pow256_values};
use crate::sort::{sort_indices, Ordered};
use crate::sort::{index_before, is_sorted_order};
use crate::storage::key::{decode_value, key_bytes, key_less, value_bytes, value_fits};
use crate::storage::key::{law_value_round_trip, lemma_key_bytes_len};
use crate::storage::key::{LsmKey, LsmValue, Slot, ValueError};

verus! {

/// A key with the model of its value.
pub type Entry = (LsmKey, Option<Seq<u8>>);

/// The model of a list of entries.
pub open spec fn view_entries(v: Seq<(LsmKey, LsmValue)>) -> Seq<Entry> {
    Seq::new(v.len(), |i: int| (v[i].0, v[i].1@))
}

/// The bytes of an entry: those of the key, then those of the value.
pub open spec fn entry_bytes(e: Entry) -> Seq<u8> {
    key_bytes(e.0) + value_bytes(e.1)
}

/// The bytes of a list of entries, one after the other.
pub open spec fn entries_bytes(es: Seq<Entry>) -> Seq<u8>
    decreases es.len(),
{
    if es.len() == 0 {
        Seq::empty()
    } else {
        entries_bytes(es.drop_last()) + entry_bytes(es.last())
    }
}

/// Every value fits its length field.
pub open spec fn entries_fit(es: Seq<Entry>) -> bool {
    forall|i: int| 0 <= i < es.len() ==> value_fits((#[trigger] es[i]).1)
}

/// The keys ascend strictly.
pub open spec fn entries_sorted(es: Seq<Entry>) -> bool {
    forall|i: int, j: int| 0 <= i < j < es.len() ==> key_less((#[trigger] es[i]).0, (#[trigger] es[j]).0)
}

/// The key that 21 bytes stand for.
pub open spec fn key_of_bytes(s: Seq<u8>) -> LsmKey {
    LsmKey {
        namespace: s[0],
        partition_or_segment: be_value(s.subrange(1, 5)) as u32,
        doc_id: be_value(s.subrange(5, 13)) as u64,
        lsn: be_value(s.subrange(13, 21)) as u64,
    }
}

/// The entries that stand in a buffer. What is left at the end and is too short for a
/// key does not count; a value that cannot be decoded is an error.
pub open spec fn decode_entries(buf: Seq<u8>) -> Result<Seq<Entry>, ValueError>
    decreases buf.len(),
{
    if buf.len() < 21 {
        Ok(Seq::empty())
    } else {
        match decode_value(buf.skip(21)) {
            Err(e) => Err(e),
            Ok((v, n)) => match decode_entries(buf.skip(21 + n as int)) {
                Err(e) => Err(e),
                Ok(rest) => Ok(seq![(key_of_bytes(buf.take(21)), v)] + rest),
            },
        }
    }
}

/// The entry that stands last among those of a slot.
pub open spec fn last_entry(es: Seq<Entry>, slot: Slot) -> Option<Entry>
    decreases es.len(),
{
    if es.len() == 0 {
        None
    } else if es.last().0.spec_slot() == slot {
        Some(es.last())
    } else {
        last_entry(es.drop_last(), slot)
    }
}

/// The value of the entry that stands last among those of a slot.
pub open spec fn last_value(es: Seq<Entry>, slot: Slot) -> Option<Option<Seq<u8>>> {
    match last_entry(es, slot) {
        Some(e) => Some(e.1),
        None => None,
    }
}

/// Slot `a` comes before slot `b`.
pub open spec fn slot_less(a: Slot, b: Slot) -> bool {
    ||| a.namespace < b.namespace
    ||| a.namespace == b.namespace && a.partition < b.partition
    ||| a.namespace == b.namespace && a.partition == b.partition && a.doc_id < b.doc_id
}

/// Position `i` is that of the greatest key of its slot, the last one if there are several.
pub open spec fn is_newest(keys: Seq<LsmKey>, i: int) -> bool {
    forall|j: int|
        0 <= j < keys.len() && j != i && (#[trigger] keys[j]).spec_slot() == keys[i].spec_slot() ==> index_before(
            keys,
            j,
            i,
        )
}

/// `picked` lists, for each slot that occurs, the position of its newest key, in the
/// order of the slots.
pub open spec fn picks_newest(keys: Seq<LsmKey>, picked: Seq<usize>) -> bool {
    &&& forall|x: int| 0 <= x < picked.len() ==> (#[trigger] picked[x]) < keys.len() && is_newest(keys, picked[x] as int)
    &&& forall|x: int, y: int|
        0 <= x < y < picked.len() ==> slot_less(
            keys[#[trigger] picked[x] as int].spec_slot(),
            keys[#[trigger] picked[y] as int].spec_slot(),
        )
    &&& forall|i: int| 0 <= i < keys.len() ==> slot_picked(keys, picked, (#[trigger] keys[i]).spec_slot())
}

/// Some picked position holds a key of the slot.
pub open spec fn slot_picked(keys: Seq<LsmKey>, picked: Seq<usize>, slot: Slot) -> bool {
    exists|x: int| 0 <= x < picked.len() && keys[#[trigger] picked[x] as int].spec_slot() == slot
}

impl Ordered for LsmKey {
    open spec fn precedes(self, other: LsmKey) -> bool {
        key_less(self, other)
    }

    proof fn order_is_total(a: LsmKey, b: LsmKey, c: LsmKey) {
    }

    fn comes_before(&self, other: &LsmKey) -> (r: bool) {
        self.less(other)
    }
}

pub proof fn lemma_key_of_bytes(key: LsmKey)
    ensures
        key_of_bytes(key_bytes(key)) == key,
{
    broadcast use lemma_be_bytes_len;

    lemma_pow256_values();
    let s = key_bytes(key);
    let first = be_bytes(key.namespace as nat, 1);
    lemma_be_value_of_bytes(key.namespace as nat, 1);
    assert(first.drop_last() =~= Seq::<u8>::empty());
    assert(be_value(first.drop_last()) == 0);
    assert(s[0] == first[0]);
    assert(s.subrange(1, 5) =~= be_bytes(key.partition_or_segment as nat, 4));
    assert(s.subrange(5, 13) =~= be_bytes(key.doc_id as nat, 8));
    assert(s.subrange(13, 21) =~= be_bytes(key.lsn as nat, 8));
    lemma_be_value_of_bytes(key.partition_or_segment as nat, 4);
    lemma_be_value_of_bytes(key.doc_id as nat, 8);
    lemma_be_value_of_bytes(key.lsn as nat, 8);
}

/// Appending an entry appends its bytes.
pub proof fn lemma_entries_bytes_push(es: Seq<Entry>, e: Entry)
    ensures
        entries_bytes(es.push(e)) == entries_bytes(es) + entry_bytes(e),
{
    assert(es.push(e).drop_last() =~= es);
}

/// The bytes of a concatenation are the concatenation of the bytes.
pub proof fn lemma_entries_bytes_concat(a: Seq<Entry>, b: Seq<Entry>)
    ensures
        entries_bytes(a + b) == entries_bytes(a) + entries_bytes(b),
    decreases b.len(),
{
    if b.len() == 0 {
        assert(a + b =~= a);
        assert(entries_bytes(a) + entries_bytes(b) =~= entries_bytes(a));
    } else {
        assert((a + b).drop_last() =~= a + b.drop_last());
        lemma_entries_bytes_concat(a, b.drop_last());
        assert(entries_bytes(a + b) =~= entries_bytes(a) + entries_bytes(b));
    }
}

/// Decoding gives back the entries whose bytes the buffer holds.
pub proof fn law_entries_round_trip(es: Seq<Entry>)
    requires
        entries_fit(es),
    ensures
        decode_entries(entries_bytes(es)) == Ok::<Seq<Entry>, ValueError>(es),
    decreases es.len(),
{
    if es.len() == 0 {
        assert(decode_entries(entries_bytes(es))->Ok_0 =~= es);
    } else {
        let (head, tail) = (es[0], es.drop_first());
        assert(es =~= seq![head] + tail);
        lemma_entries_bytes_concat(seq![head], tail);
        assert(seq![head].drop_last() =~= Seq::<Entry>::empty());
        assert(entries_bytes(Seq::<Entry>::empty()) =~= Seq::<u8>::empty());
        assert(entries_bytes(seq![head]) =~= entry_bytes(head));
        let buf = entries_bytes(es);
        let rest = entries_bytes(tail);
        lemma_key_bytes_len(head.0);
        assert(buf.take(21) =~= key_bytes(head.0));
        assert(buf.skip(21) =~= value_bytes(head.1) + rest);
        law_value_round_trip(head.1, rest);
        assert(buf.skip(21 + value_bytes(head.1).len() as int) =~= rest);
        lemma_key_of_bytes(head.0);
        law_entries_round_trip(tail);
    }
}

/// Decodes the entries that stand in a buffer.
pub fn read_entries(buf: &[u8]) -> (r: Result<Vec<(LsmKey, LsmValue)>, ValueError>)
    ensures
        r is Ok <==> decode_entries(buf@) is Ok,
        r matches Ok(es) ==> decode_entries(buf@) == Ok::<Seq<Entry>, ValueError>(view_entries(es@)),
        r matches Err(e) ==> decode_entries(buf@) == Err::<Seq<Entry>, ValueError>(e),
{
    let mut out: Vec<(LsmKey, LsmValue)> = Vec::new();
    let len: usize = buf.len();
    let mut pos: usize = 0;
    proof {
        assert(buf@.skip(0) =~= buf@);
        if decode_entries(buf@) is Ok {
            assert(view_entries(out@) + decode_entries(buf@)->Ok_0 =~= decode_entries(buf@)->Ok_0);
        }
    }
    while len - pos >= 21
        invariant
            pos <= len,
            len == buf@.len(),
            match decode_entries(buf@.skip(pos as int)) {
                Ok(rest) => decode_entries(buf@) == Ok::<Seq<Entry>, ValueError>(view_entries(out@) + rest),
                Err(e) => decode_entries(buf@) == Err::<Seq<Entry>, ValueError>(e),
            },
        decreases len - pos,
    {
        let ghost left = buf@.skip(pos as int);
        let ghost before = out@;
        let key = LsmKey::decode_at(buf, pos);
        let rest = vstd::slice::slice_subrange(buf, pos + 21, len);
        proof {
            assert(left.take(21) =~= buf@.subrange(pos as int, pos + 21));
            lemma_key_of_bytes(key);
            assert(rest@ =~= left.skip(21));
        }
        match LsmValue::decode_with_len(rest) {
            Err(e) => {
                return Err(e);
            },
            Ok((value, consumed)) => {
                out.push((key, value));
                pos = pos + 21 + consumed;
                proof {
                    assert(left.skip(21 + consumed as int) =~= buf@.skip(pos as int));
                    if let Ok(tail) = decode_entries(buf@.skip(pos as int)) {
                        assert(view_entries(out@) =~= view_entries(before) + seq![(key, value@)]);
                        assert(view_entries(out@) + tail =~= view_entries(before) + (seq![(key, value@)] + tail));
                    }
                }
            },
        }
    }
    proof {
        assert(view_entries(out@) + Seq::<Entry>::empty() =~= view_entries(out@));
    }
    Ok(out)
}

/// For each slot that occurs among the keys, the position of its newest key, in the
/// order of the slots.
pub fn pick_newest(keys: &Vec<LsmKey>) -> (picked: Vec<usize>)
    ensures
        picks_newest(keys@, picked@),
{
    let order = sort_indices(keys);
    let mut picked: Vec<usize> = Vec::new();
    let mut x: usize = 0;
    while x < order.len()
        invariant
            x <= order@.len(),
            is_sorted_order(keys@, order@, 0, keys@.len() as int),
            forall|p: int|
                0 <= p < picked@.len() ==> (#[trigger] picked@[p]) < keys@.len() && is_newest(keys@, picked@[p] as int),
            forall|p: int, q: int|
                0 <= p < q < picked@.len() ==> slot_less(
                    keys@[#[trigger] picked@[p] as int].spec_slot(),
                    keys@[#[trigger] picked@[q] as int].spec_slot(),
                ),
            forall|p: int, y: int|
                0 <= p < picked@.len() && x <= y < order@.len() ==> slot_less(
                    keys@[#[trigger] picked@[p] as int].spec_slot(),
                    keys@[#[trigger] order@[y] as int].spec_slot(),
                ),
            forall|y: int|
                0 <= y < x ==> slot_picked(keys@, picked@, keys@[#[trigger] order@[y] as int].spec_slot()) || (x
                    < order@.len() && keys@[order@[y] as int].spec_slot() == keys@[order@[x as int] as int].spec_slot()),
        decreases order@.len() - x,
    {
        let here: usize = order[x];
        let last_of_slot: bool = if x + 1 < order.len() {
            let next: usize = order[x + 1];
            keys[here].slot() != keys[next].slot()
        } else {
            true
        };
        let ghost before = picked@;
        if last_of_slot {
            proof {
                assert forall|j: int|
                    0 <= j < keys@.len() && j != here && (#[trigger] keys@[j]).spec_slot()
                        == keys@[here as int].spec_slot() implies index_before(keys@, j, here as int) by {
                    assert(order@.contains(j as usize));
                    let y = choose|y: int| 0 <= y < order@.len() && order@[y] == j as usize;
                    if y > x {
                        let next = order@[x + 1] as int;
                        assert(index_before(keys@, here as int, next));
                        if y > x + 1 {
                            assert(index_before(keys@, next, j));
                        }
                    }
                }
                assert forall|y: int| x + 1 <= y < order@.len() implies slot_less(
                    keys@[here as int].spec_slot(),
                    keys@[#[trigger] order@[y] as int].spec_slot(),
                ) by {
                    let next = order@[x + 1] as int;
                    assert(index_before(keys@, here as int, next));
                    if y > x + 1 {
                        assert(index_before(keys@, next, order@[y] as int));
                    }
                }
            }
            picked.push(here);
            proof {
                assert(picked@[before.len() as int] == here);
                assert forall|y: int| 0 <= y < x + 1 implies slot_picked(
                    keys@,
                    picked@,
                    keys@[#[trigger] order@[y] as int].spec_slot(),
                ) by {
                    let slot = keys@[order@[y] as int].spec_slot();
                    if slot_picked(keys@, before, slot) {
                        let p = choose|p: int|
                            0 <= p < before.len() && keys@[#[trigger] before[p] as int].spec_slot() == slot;
                        assert(picked@[p] == before[p]);
                    } else {
                        assert(keys@[picked@[before.len() as int] as int].spec_slot() == slot);
                    }
                }
            }
        }
        x = x + 1;
    }
    proof {
        assert forall|i: int| 0 <= i < keys@.len() implies slot_picked(
            keys@,
            picked@,
            (#[trigger] keys@[i]).spec_slot(),
        ) by {
            assert(order@.contains(i as usize));
            let y = choose|y: int| 0 <= y < order@.len() && order@[y] == i as usize;
            assert(keys@[order@[y] as int] == keys@[i]);
        }
    }
    picked
}

} // verus!
