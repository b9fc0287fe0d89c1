//! The in-memory table: the newest writes, in the order of their keys.

use crossbeam_skiplist::SkipMap;

use vstd::prelude::*;

use crate::storage::entry::{entries_sorted, last_entry, last_value, view_entries, Entry};
use crate::storage::key::{key_at, key_less, value_bytes, LsmKey, LsmValue, Slot};
use crate::storage::sstable::{prefix_high, prefix_low, slot_high, slot_low};
use crate::storage::wal::wrapping_sum;

verus! {

/// Declares `crossbeam_skiplist::SkipMap`.
#[verifier::external_type_specification]
#[verifier::external_body]
#[verifier::reject_recursive_types(K)]
#[verifier::reject_recursive_types(V)]
pub struct ExSkipMap<K, V>(SkipMap<K, V>);

/// The fields of a key, in the order in which keys compare.
pub type RawKey = (u8, u32, u64, u64);

/// What a skip list holds: the value of each key.
pub uninterp spec fn skip_contents(m: SkipMap<RawKey, LsmValue>) -> Map<RawKey, Option<Seq<u8>>>;

/// `a` comes before `b`.
pub open spec fn raw_less(a: RawKey, b: RawKey) -> bool {
    ||| a.0 < b.0
    ||| a.0 == b.0 && a.1 < b.1
    ||| a.0 == b.0 && a.1 == b.1 && a.2 < b.2
    ||| a.0 == b.0 && a.1 == b.1 && a.2 == b.2 && a.3 < b.3
}

/// The contents of a skip list that holds nothing.
pub open spec fn no_entries() -> Map<RawKey, Option<Seq<u8>>> {
    Map::empty()
}

/// `out` lists what the map holds from `lo` to `hi`, in ascending order of the keys.
pub open spec fn raw_listing(
    out: Seq<(RawKey, LsmValue)>,
    m: Map<RawKey, Option<Seq<u8>>>,
    lo: RawKey,
    hi: RawKey,
) -> bool {
    &&& forall|i: int, j: int| 0 <= i < j < out.len() ==> raw_less((#[trigger] out[i]).0, (#[trigger] out[j]).0)
    &&& forall|i: int|
        0 <= i < out.len() ==> m.contains_key((#[trigger] out[i]).0) && m[out[i].0] == out[i].1@ && !raw_less(
            out[i].0,
            lo,
        ) && !raw_less(hi, out[i].0)
    &&& forall|k: RawKey|
        #[trigger] m.contains_key(k) && !raw_less(k, lo) && !raw_less(hi, k) ==> exists|i: int|
            0 <= i < out.len() && (#[trigger] out[i]).0 == k
}

/// `SkipMap::new`: a map that holds nothing.
#[verifier::external_body]
fn skip_new() -> (m: SkipMap<RawKey, LsmValue>)
    ensures
        skip_contents(m) == no_entries(),
{
    SkipMap::new()
}

/// `SkipMap::insert`: enters a value under a key; a value that stood there is replaced.
#[verifier::external_body]
fn skip_insert(m: &mut SkipMap<RawKey, LsmValue>, key: RawKey, value: LsmValue)
    ensures
        skip_contents(*final(m)) == skip_contents(*old(m)).insert(key, value@),
{
    m.insert(key, value);
}

/// `SkipMap::range`: the entries from `lo` to `hi`, both included, in ascending order of the
/// keys, with copies of the values.
#[verifier::external_body]
fn skip_range(m: &SkipMap<RawKey, LsmValue>, lo: RawKey, hi: RawKey) -> (out: Vec<(RawKey, LsmValue)>)
    ensures
        raw_listing(out@, skip_contents(*m), lo, hi),
{
    m.range(lo..=hi).map(|e| (*e.key(), e.value().clone())).collect()
}

/// `SkipMap::iter`: all entries, in ascending order of the keys, with copies of the values.
#[verifier::external_body]
fn skip_iter(m: &SkipMap<RawKey, LsmValue>) -> (out: Vec<(RawKey, LsmValue)>)
    ensures
        raw_listing(out@, skip_contents(*m), (0, 0, 0, 0), (u8::MAX, u32::MAX, u64::MAX, u64::MAX)),
{
    m.iter().map(|e| (*e.key(), e.value().clone())).collect()
}

/// `SkipMap::into_iter`: all entries, in ascending order of the keys.
#[verifier::external_body]
fn skip_into_iter(m: SkipMap<RawKey, LsmValue>) -> (out: Vec<(RawKey, LsmValue)>)
    ensures
        raw_listing(out@, skip_contents(m), (0, 0, 0, 0), (u8::MAX, u32::MAX, u64::MAX, u64::MAX)),
{
    m.into_iter().collect()
}

/// `SkipMap::is_empty`: whether the map holds nothing.
#[verifier::external_body]
fn skip_is_empty(m: &SkipMap<RawKey, LsmValue>) -> (r: bool)
    ensures
        r == (skip_contents(*m) == no_entries()),
{
    m.is_empty()
}

/// The fields of a key.
pub open spec fn raw_of(key: LsmKey) -> RawKey {
    (key.namespace, key.partition_or_segment, key.doc_id, key.lsn)
}

/// The key with the given fields.
pub open spec fn key_of_raw(raw: RawKey) -> LsmKey {
    LsmKey { namespace: raw.0, partition_or_segment: raw.1, doc_id: raw.2, lsn: raw.3 }
}

/// Some version of the slot is there.
pub open spec fn has_version(m: Map<LsmKey, Option<Seq<u8>>>, slot: Slot) -> bool {
    exists|lsn: u64| m.contains_key(#[trigger] key_at(slot, lsn))
}

/// The given version is there, and none with a greater sequence number.
pub open spec fn is_latest_lsn(m: Map<LsmKey, Option<Seq<u8>>>, slot: Slot, lsn: u64) -> bool {
    &&& m.contains_key(key_at(slot, lsn))
    &&& forall|other: u64| m.contains_key(#[trigger] key_at(slot, other)) ==> other <= lsn
}

/// The value of the version of a slot with the greatest sequence number.
pub open spec fn latest(m: Map<LsmKey, Option<Seq<u8>>>, slot: Slot) -> Option<Option<Seq<u8>>> {
    if has_version(m, slot) {
        Some(m[key_at(slot, choose|lsn: u64| is_latest_lsn(m, slot, lsn))])
    } else {
        None
    }
}

/// `out` lists what the map holds from `lo` to `hi`, in ascending order of the keys.
pub open spec fn is_listing(out: Seq<Entry>, m: Map<LsmKey, Option<Seq<u8>>>, lo: LsmKey, hi: LsmKey) -> bool {
    &&& entries_sorted(out)
    &&& forall|i: int|
        0 <= i < out.len() ==> m.contains_key((#[trigger] out[i]).0) && m[out[i].0] == out[i].1 && !key_less(
            out[i].0,
            lo,
        ) && !key_less(hi, out[i].0)
    &&& forall|k: LsmKey|
        #[trigger] m.contains_key(k) && !key_less(k, lo) && !key_less(hi, k) ==> exists|i: int|
            0 <= i < out.len() && (#[trigger] out[i]).0 == k
}

/// The least key.
pub open spec fn least_key() -> LsmKey {
    key_of_raw((0, 0, 0, 0))
}

/// The greatest key.
pub open spec fn greatest_key() -> LsmKey {
    key_of_raw((u8::MAX, u32::MAX, u64::MAX, u64::MAX))
}

/// `out` lists all that the map holds, in ascending order of the keys.
pub open spec fn is_full_listing(out: Seq<Entry>, m: Map<LsmKey, Option<Seq<u8>>>) -> bool {
    is_listing(out, m, least_key(), greatest_key())
}

/// Where there is a version of a slot, there is a latest one.
pub proof fn lemma_latest_exists(m: Map<LsmKey, Option<Seq<u8>>>, slot: Slot, from: u64) -> (lsn: u64)
    requires
        m.contains_key(key_at(slot, from)),
    ensures
        is_latest_lsn(m, slot, lsn),
    decreases u64::MAX - from,
{
    if exists|other: u64| m.contains_key(#[trigger] key_at(slot, other)) && other > from {
        let other = choose|other: u64| m.contains_key(#[trigger] key_at(slot, other)) && other > from;
        lemma_latest_exists(m, slot, other)
    } else {
        from
    }
}

/// The latest version is the one with the greatest sequence number.
pub proof fn lemma_latest_is(m: Map<LsmKey, Option<Seq<u8>>>, slot: Slot, lsn: u64)
    requires
        is_latest_lsn(m, slot, lsn),
    ensures
        latest(m, slot) == Some(m[key_at(slot, lsn)]),
{
    let chosen = choose|l: u64| is_latest_lsn(m, slot, l);
    assert(is_latest_lsn(m, slot, chosen));
    assert(m.contains_key(key_at(slot, chosen)));
    assert(m.contains_key(key_at(slot, lsn)));
}

/// In a listing that covers a slot, the last entry of the slot is its latest version.
pub proof fn lemma_listing_latest(
    es: Seq<Entry>,
    m: Map<LsmKey, Option<Seq<u8>>>,
    lo: LsmKey,
    hi: LsmKey,
    slot: Slot,
)
    requires
        is_listing(es, m, lo, hi),
        !key_less(slot_low(slot), lo),
        !key_less(hi, slot_high(slot)),
    ensures
        last_value(es, slot) == latest(m, slot),
{
    if has_version(m, slot) {
        let from = choose|lsn: u64| m.contains_key(#[trigger] key_at(slot, lsn));
        let lsn = lemma_latest_exists(m, slot, from);
        lemma_latest_is(m, slot, lsn);
        let k = key_at(slot, lsn);
        let i = choose|i: int| 0 <= i < es.len() && (#[trigger] es[i]).0 == k;
        assert forall|j: int| i < j < es.len() implies (#[trigger] es[j]).0.spec_slot() != slot by {
            assert(key_less(es[i].0, es[j].0));
            if es[j].0.spec_slot() == slot {
                assert(es[j].0 == key_at(slot, es[j].0.lsn));
            }
        }
        lemma_last_entry_at(es, slot, i);
    } else {
        assert forall|i: int| 0 <= i < es.len() implies (#[trigger] es[i]).0.spec_slot() != slot by {
            if es[i].0.spec_slot() == slot {
                assert(es[i].0 == key_at(slot, es[i].0.lsn));
            }
        }
        crate::storage::table_file::lemma_no_last_entry(es, slot);
    }
}

/// The entry behind which the slot does not occur is its last one.
pub proof fn lemma_last_entry_at(es: Seq<Entry>, slot: Slot, i: int)
    requires
        0 <= i < es.len(),
        es[i].0.spec_slot() == slot,
        forall|j: int| i < j < es.len() ==> (#[trigger] es[j]).0.spec_slot() != slot,
    ensures
        last_entry(es, slot) == Some(es[i]),
    decreases es.len(),
{
    if i < es.len() - 1 {
        assert(es.last() == es[es.len() - 1]);
        assert forall|j: int| i < j < es.drop_last().len() implies (#[trigger] es.drop_last()[j]).0.spec_slot()
            != slot by {
            assert(es.drop_last()[j] == es[j]);
        }
        lemma_last_entry_at(es.drop_last(), slot, i);
    }
}

/// The in-memory table.
pub struct MemTable {
    table: SkipMap<RawKey, LsmValue>,
    bytes: u64,
}

/// The table is modelled by the value of each key.
impl View for MemTable {
    type V = Map<LsmKey, Option<Seq<u8>>>;

    closed spec fn view(&self) -> Map<LsmKey, Option<Seq<u8>>> {
        view_raw(skip_contents(self.table))
    }
}

/// A map by the fields of a key as a map by keys.
pub open spec fn view_raw(raw: Map<RawKey, Option<Seq<u8>>>) -> Map<LsmKey, Option<Seq<u8>>> {
    Map::new(|k: LsmKey| raw.contains_key(raw_of(k)), |k: LsmKey| raw[raw_of(k)])
}

/// Turns a list with raw keys into one with keys.
fn with_keys(raw: Vec<(RawKey, LsmValue)>) -> (out: Vec<(LsmKey, LsmValue)>)
    ensures
        out@.len() == raw@.len(),
        forall|i: int| 0 <= i < raw@.len() ==> (#[trigger] view_entries(out@)[i]) == (key_of_raw(raw@[i].0), raw@[i].1@),
{
    let mut out: Vec<(LsmKey, LsmValue)> = Vec::new();
    let mut i: usize = 0;
    while i < raw.len()
        invariant
            i <= raw@.len(),
            out@.len() == i,
            forall|j: int| 0 <= j < i ==> (#[trigger] out@[j]).0 == key_of_raw(raw@[j].0) && out@[j].1@ == raw@[j].1@,
        decreases raw@.len() - i,
    {
        let k = raw[i].0;
        let key = LsmKey { namespace: k.0, partition_or_segment: k.1, doc_id: k.2, lsn: k.3 };
        out.push((key, raw[i].1.clone()));
        i = i + 1;
    }
    assert forall|j: int| 0 <= j < raw@.len() implies (#[trigger] view_entries(out@)[j]) == (
        key_of_raw(raw@[j].0),
        raw@[j].1@,
    ) by {
        assert(out@[j].0 == key_of_raw(raw@[j].0));
    }
    out
}

proof fn lemma_listing_of_raw(
    out: Seq<Entry>,
    raw: Seq<(RawKey, LsmValue)>,
    m: Map<RawKey, Option<Seq<u8>>>,
    lo: RawKey,
    hi: RawKey,
)
    requires
        raw_listing(raw, m, lo, hi),
        out.len() == raw.len(),
        forall|i: int| 0 <= i < raw.len() ==> (#[trigger] out[i]) == (key_of_raw(raw[i].0), raw[i].1@),
    ensures
        is_listing(out, view_raw(m), key_of_raw(lo), key_of_raw(hi)),
{
    assert forall|i: int, j: int| 0 <= i < j < out.len() implies key_less(
        (#[trigger] out[i]).0,
        (#[trigger] out[j]).0,
    ) by {
        assert(raw_less(raw[i].0, raw[j].0));
    }
    assert forall|i: int| 0 <= i < out.len() implies view_raw(m).contains_key((#[trigger] out[i]).0) && view_raw(
        m,
    )[out[i].0] == out[i].1 && !key_less(out[i].0, key_of_raw(lo)) && !key_less(key_of_raw(hi), out[i].0) by {
        assert(raw_of(out[i].0) == raw[i].0);
        assert(m.contains_key(raw[i].0));
    }
    assert forall|k: LsmKey|
        #[trigger] view_raw(m).contains_key(k) && !key_less(k, key_of_raw(lo)) && !key_less(
            key_of_raw(hi),
            k,
        ) implies exists|i: int| 0 <= i < out.len() && (#[trigger] out[i]).0 == k by {
        assert(m.contains_key(raw_of(k)));
        let i = choose|i: int| 0 <= i < raw.len() && (#[trigger] raw[i]).0 == raw_of(k);
        assert(out[i].0 == k);
    }
}

impl MemTable {
    /// An estimate of the size of the table: the bytes of everything that was inserted.
    pub closed spec fn spec_bytes(&self) -> u64 {
        self.bytes
    }

    /// An empty table.
    pub fn new() -> (t: Self)
        ensures
            t@ == Map::<LsmKey, Option<Seq<u8>>>::empty(),
            t.spec_bytes() == 0,
    {
        let t = MemTable { table: skip_new(), bytes: 0 };
        assert(t@ =~= Map::<LsmKey, Option<Seq<u8>>>::empty());
        t
    }

    /// Inserts an entry; one with the same key is replaced.
    pub fn insert(&mut self, key: LsmKey, value: LsmValue)
        ensures
            final(self)@ == old(self)@.insert(key, value@),
            final(self).spec_bytes() == wrapping_sum(
                old(self).spec_bytes() as nat,
                21 + value_bytes(value@).len(),
            ),
    {
        broadcast use crate::bytes::lemma_be_bytes_len;

        let value_len: u64 = match &value {
            LsmValue::Data(b) => (b.len() as u64).wrapping_add(5),
            LsmValue::Tombstone => 1,
        };
        let entry_bytes: u64 = value_len.wrapping_add(21);
        let ghost v = value@;
        skip_insert(
            &mut self.table,
            (key.namespace, key.partition_or_segment, key.doc_id, key.lsn),
            value,
        );
        self.bytes = self.bytes.wrapping_add(entry_bytes);
        assert(self@ =~= old(self)@.insert(key, v));
    }

    /// The latest version of a key's slot. The sequence number of the key is ignored.
    pub fn get(&self, key: &LsmKey) -> (found: Option<LsmValue>)
        ensures
            match latest(self@, key.spec_slot()) {
                None => found is None,
                Some(v) => found matches Some(value) && value@ == v,
            },
    {
        let lo: RawKey = (key.namespace, key.partition_or_segment, key.doc_id, 0);
        let hi: RawKey = (key.namespace, key.partition_or_segment, key.doc_id, u64::MAX);
        let raw = skip_range(&self.table, lo, hi);
        let ghost listed = raw@;
        let entries = with_keys(raw);
        proof {
            let es = view_entries(entries@);
            lemma_listing_of_raw(es, listed, skip_contents(self.table), lo, hi);
            lemma_listing_latest(es, self@, key_of_raw(lo), key_of_raw(hi), key.spec_slot());
        }
        crate::storage::sstable::find_last(&entries, key.slot())
    }

    /// All entries of a partition with all versions, in ascending order.
    pub fn range_scan(&self, ns: u8, partition: u32) -> (out: Vec<(LsmKey, LsmValue)>)
        ensures
            is_listing(view_entries(out@), self@, prefix_low(ns, partition), prefix_high(ns, partition)),
    {
        let lo: RawKey = (ns, partition, 0, 0);
        let hi: RawKey = (ns, partition, u64::MAX, u64::MAX);
        let raw = skip_range(&self.table, lo, hi);
        let ghost listed = raw@;
        let out = with_keys(raw);
        proof {
            lemma_listing_of_raw(view_entries(out@), listed, skip_contents(self.table), lo, hi);
        }
        out
    }

    /// An estimate of the size of the table.
    pub fn approx_bytes(&self) -> (n: u64)
        ensures
            n == self.spec_bytes(),
    {
        self.bytes
    }

    /// All entries, in ascending order.
    pub fn into_iter(self) -> (out: Vec<(LsmKey, LsmValue)>)
        ensures
            is_full_listing(view_entries(out@), self@),
    {
        let ghost contents = skip_contents(self.table);
        let raw = skip_into_iter(self.table);
        let ghost listed = raw@;
        let out = with_keys(raw);
        proof {
            lemma_listing_of_raw(
                view_entries(out@),
                listed,
                contents,
                (0, 0, 0, 0),
                (u8::MAX, u32::MAX, u64::MAX, u64::MAX),
            );
        }
        out
    }

    /// Copies of all entries, in ascending order.
    pub fn iter(&self) -> (out: Vec<(LsmKey, LsmValue)>)
        ensures
            is_full_listing(view_entries(out@), self@),
    {
        let raw = skip_iter(&self.table);
        let ghost listed = raw@;
        let out = with_keys(raw);
        proof {
            lemma_listing_of_raw(
                view_entries(out@),
                listed,
                skip_contents(self.table),
                (0, 0, 0, 0),
                (u8::MAX, u32::MAX, u64::MAX, u64::MAX),
            );
        }
        out
    }

    /// Whether the table holds nothing.
    pub fn is_empty(&self) -> (r: bool)
        ensures
            r == (self@ == Map::<LsmKey, Option<Seq<u8>>>::empty()),
    {
        let r: bool = skip_is_empty(&self.table);
        proof {
            let raw = skip_contents(self.table);
            if r {
                assert(self@ =~= Map::<LsmKey, Option<Seq<u8>>>::empty());
            } else if self@ == Map::<LsmKey, Option<Seq<u8>>>::empty() {
                assert forall|k: RawKey| !raw.contains_key(k) by {
                    assert(raw_of(key_of_raw(k)) == k);
                    assert(!self@.contains_key(key_of_raw(k)));
                }
                assert(raw =~= Map::<RawKey, Option<Seq<u8>>>::empty());
            }
        }
        r
    }
}

impl Default for MemTable {
    fn default() -> (t: Self)
        ensures
            t@ == Map::<LsmKey, Option<Seq<u8>>>::empty(),
            t.spec_bytes() == 0,
    {
        MemTable::new()
    }
}

/// What an in-memory table tells of a slot is what it holds under the key with the greatest number
/// that it has of the slot; it tells nothing only if it has no key of the slot.
pub proof fn law_latest_has_greatest_number(m: Map<LsmKey, Option<Seq<u8>>>, slot: Slot, lsn: u64)
    ensures
        latest(m, slot) is None <==> forall|other: u64| !m.contains_key(#[trigger] key_at(slot, other)),
        (m.contains_key(key_at(slot, lsn)) && forall|other: u64|
            m.contains_key(#[trigger] key_at(slot, other)) ==> other <= lsn) ==> latest(m, slot) == Some(
            m[key_at(slot, lsn)],
        ),
{
    if m.contains_key(key_at(slot, lsn)) && forall|other: u64|
        m.contains_key(#[trigger] key_at(slot, other)) ==> other <= lsn {
        assert(is_latest_lsn(m, slot, lsn));
        lemma_latest_is(m, slot, lsn);
    }
}

/// A full listing has every key of an in-memory table once, with its value, in ascending order, and
/// nothing else.
pub proof fn law_full_listing_is_complete(out: Seq<Entry>, m: Map<LsmKey, Option<Seq<u8>>>, key: LsmKey)
    requires
        is_full_listing(out, m),
    ensures
        m.contains_key(key) ==> exists|i: int| 0 <= i < out.len() && (#[trigger] out[i]) == (key, m[key]),
        forall|i: int| 0 <= i < out.len() ==> m.contains_key((#[trigger] out[i]).0) && out[i].1 == m[out[i].0],
        forall|i: int, j: int| 0 <= i < j < out.len() ==> key_less((#[trigger] out[i]).0, (#[trigger] out[j]).0),
{
    if m.contains_key(key) {
        assert(!key_less(key, least_key()) && !key_less(greatest_key(), key));
        let i = choose|i: int| 0 <= i < out.len() && (#[trigger] out[i]).0 == key;
        assert(out[i] == (key, m[key]));
    }
}

} // verus!
