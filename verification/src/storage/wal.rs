//! The write-ahead log.
//!
//! A record is `[length: u32][lsn: u64][operation: u8][payload][crc32: u32]`, all integers
//! big-endian. The length counts what follows it; the checksum covers the sequence number,
//! the operation and the payload. The sequence number is allocated when a record is
//! appended, and the keys in the payload carry it.

use std::time::Duration;

use vstd::prelude::*;

use crate::bytes::{be_bytes, be_value};
use crate::bytes::{push_be, push_bytes, push_len, push_u32, push_u64, read_u32, read_u64};
use crate::bytes::{lemma_be_bytes_len, lemma_be_bytes_of_value, lemma_be_value_of_bytes, lemma_pow256_values};
use crate::storage::checksum::{crc32, crc32_of, law_changed_byte_changes_checksum};
use crate::storage::entry::{entries_bytes, entries_fit, entry_bytes, key_of_bytes, view_entries, Entry};
use crate::storage::entry::{lemma_entries_bytes_concat, lemma_entries_bytes_push, lemma_key_of_bytes};
use crate::storage::key::{decode_value, key_bytes, value_bytes, value_fits};
use crate::storage::key::{law_value_round_trip, lemma_key_bytes_len};
use crate::storage::key::{LsmKey, LsmValue, ValueError};

verus! {

/// When the log is synchronised to disk.
#[derive(Debug)]
pub enum WalSync {
    /// After every append.
    EveryCommit,
    /// Periodically.
    Periodic(Duration),
    /// Never: the operating system decides.
    Never,
}

impl Default for WalSync {
    fn default() -> (s: Self)
        ensures
            s == WalSync::EveryCommit,
    {
        WalSync::EveryCommit
    }
}

impl Clone for WalSync {
    fn clone(&self) -> (s: Self)
        ensures
            s == *self,
    {
        match self {
            WalSync::EveryCommit => WalSync::EveryCommit,
            WalSync::Periodic(d) => WalSync::Periodic(*d),
            WalSync::Never => WalSync::Never,
        }
    }
}

/// The code of a put.
pub const OP_PUT: u8 = 0;

/// The code of a deletion.
pub const OP_DELETE: u8 = 1;

/// The code of a partition split.
pub const OP_PARTITION_SPLIT: u8 = 2;

/// The code of a checkpoint.
pub const OP_CHECKPOINT: u8 = 3;

/// The code of a batch of puts.
pub const OP_BATCH_PUT: u8 = 4;

/// The log is rotated once it is larger than this.
pub const ROTATE_SIZE: u64 = 67_108_864;

/// An operation of the log.
#[derive(Clone, Debug)]
pub enum WalOp {
    /// Insert or update. The sequence number of the key is set on appending.
    Put { key: LsmKey, value: LsmValue },
    /// Insert or update many entries under one sequence number.
    BatchPut { entries: Vec<(LsmKey, LsmValue)> },
    /// Delete a document of a namespace.
    Delete { namespace: u8, doc_id: u64 },
    /// A partition was split.
    PartitionSplit { old: u32, new: u32, moved: u64 },
    /// Everything up to a sequence number has been applied.
    Checkpoint { last_applied_lsn: u64 },
}

/// The model of an operation.
pub enum WalOpView {
    Put { key: LsmKey, value: Option<Seq<u8>> },
    BatchPut { entries: Seq<Entry> },
    Delete { namespace: u8, doc_id: u64 },
    PartitionSplit { before: u32, after: u32, moved: u64 },
    Checkpoint { last_applied_lsn: u64 },
}

impl View for WalOp {
    type V = WalOpView;

    open spec fn view(&self) -> WalOpView {
        match self {
            WalOp::Put { key, value } => WalOpView::Put { key: *key, value: value@ },
            WalOp::BatchPut { entries } => WalOpView::BatchPut { entries: view_entries(entries@) },
            WalOp::Delete { namespace, doc_id } => WalOpView::Delete { namespace: *namespace, doc_id: *doc_id },
            WalOp::PartitionSplit { old: before, new: after, moved } => WalOpView::PartitionSplit {
                before: *before,
                after: *after,
                moved: *moved,
            },
            WalOp::Checkpoint { last_applied_lsn } => WalOpView::Checkpoint { last_applied_lsn: *last_applied_lsn },
        }
    }
}

/// The key with another sequence number.
pub open spec fn key_with_lsn(key: LsmKey, lsn: u64) -> LsmKey {
    LsmKey { lsn, ..key }
}

/// The entries with another sequence number.
pub open spec fn entries_with_lsn(es: Seq<Entry>, lsn: u64) -> Seq<Entry> {
    Seq::new(es.len(), |i: int| (key_with_lsn(es[i].0, lsn), es[i].1))
}

/// The operation with its keys carrying the given sequence number.
pub open spec fn stamped(op: WalOpView, lsn: u64) -> WalOpView {
    match op {
        WalOpView::Put { key, value } => WalOpView::Put { key: key_with_lsn(key, lsn), value },
        WalOpView::BatchPut { entries } => WalOpView::BatchPut { entries: entries_with_lsn(entries, lsn) },
        _ => op,
    }
}

/// The code of an operation.
pub open spec fn op_code_of(op: WalOpView) -> u8 {
    match op {
        WalOpView::Put { .. } => OP_PUT,
        WalOpView::BatchPut { .. } => OP_BATCH_PUT,
        WalOpView::Delete { .. } => OP_DELETE,
        WalOpView::PartitionSplit { .. } => OP_PARTITION_SPLIT,
        WalOpView::Checkpoint { .. } => OP_CHECKPOINT,
    }
}

/// The payload of an operation.
pub open spec fn payload_of(op: WalOpView) -> Seq<u8> {
    match op {
        WalOpView::Put { key, value } => key_bytes(key) + value_bytes(value),
        WalOpView::BatchPut { entries } => be_bytes(entries.len(), 4) + entries_bytes(entries),
        WalOpView::Delete { namespace, doc_id } => be_bytes(namespace as nat, 1) + be_bytes(doc_id as nat, 8),
        WalOpView::PartitionSplit { before, after, moved } => be_bytes(before as nat, 4) + be_bytes(after as nat, 4)
            + be_bytes(moved as nat, 8),
        WalOpView::Checkpoint { last_applied_lsn } => be_bytes(last_applied_lsn as nat, 8),
    }
}

/// The lengths in an operation fit their fields.
pub open spec fn op_fits(op: WalOpView) -> bool {
    &&& match op {
        WalOpView::Put { key, value } => value_fits(value),
        WalOpView::BatchPut { entries } => entries_fit(entries) && entries.len() < 0x1_0000_0000,
        _ => true,
    }
    &&& payload_of(op).len() + 13 < 0x1_0000_0000
}

/// Why bytes are not a record.
#[derive(Clone, Copy, Debug, PartialEq, Eq, Structural)]
pub enum WalError {
    /// The length field is cut off.
    IncompleteLength,
    /// The record is cut off.
    IncompleteBody,
    /// The length is too small for a record.
    BodyTooShort { len: usize },
    /// The checksum does not match.
    CrcMismatch { lsn: u64 },
    /// The payload is too short for its operation.
    PayloadTooShort { op_code: u8, len: usize },
    /// A value in the payload cannot be decoded.
    BadValue { error: ValueError },
    /// There is no operation with this code.
    UnknownOp { op_code: u8 },
}

/// The entries of a batch: `count` keys with their values.
pub open spec fn decode_batch(buf: Seq<u8>, count: nat, lsn: u64) -> Result<Seq<Entry>, WalError>
    decreases count,
{
    if count == 0 {
        Ok(Seq::empty())
    } else if buf.len() < 21 {
        Err(WalError::PayloadTooShort { op_code: OP_BATCH_PUT, len: buf.len() as usize })
    } else {
        match decode_value(buf.skip(21)) {
            Err(error) => Err(WalError::BadValue { error }),
            Ok((value, n)) => match decode_batch(buf.skip(21 + n as int), (count - 1) as nat, lsn) {
                Err(e) => Err(e),
                Ok(rest) => Ok(seq![(key_with_lsn(key_of_bytes(buf.take(21)), lsn), value)] + rest),
            },
        }
    }
}

/// The operation that a code and a payload stand for. Its keys carry the sequence number of
/// the record.
pub open spec fn decode_op(op_code: u8, lsn: u64, payload: Seq<u8>) -> Result<WalOpView, WalError> {
    let too_short = WalError::PayloadTooShort { op_code, len: payload.len() as usize };
    if op_code == OP_PUT {
        if payload.len() < 21 {
            Err(too_short)
        } else {
            match decode_value(payload.skip(21)) {
                Err(error) => Err(WalError::BadValue { error }),
                Ok((value, n)) => Ok(
                    WalOpView::Put { key: key_with_lsn(key_of_bytes(payload.take(21)), lsn), value },
                ),
            }
        }
    } else if op_code == OP_DELETE {
        if payload.len() < 9 {
            Err(too_short)
        } else {
            Ok(WalOpView::Delete { namespace: payload[0], doc_id: be_value(payload.subrange(1, 9)) as u64 })
        }
    } else if op_code == OP_PARTITION_SPLIT {
        if payload.len() < 16 {
            Err(too_short)
        } else {
            Ok(
                WalOpView::PartitionSplit {
                    before: be_value(payload.subrange(0, 4)) as u32,
                    after: be_value(payload.subrange(4, 8)) as u32,
                    moved: be_value(payload.subrange(8, 16)) as u64,
                },
            )
        }
    } else if op_code == OP_CHECKPOINT {
        if payload.len() < 8 {
            Err(too_short)
        } else {
            Ok(WalOpView::Checkpoint { last_applied_lsn: be_value(payload.subrange(0, 8)) as u64 })
        }
    } else if op_code == OP_BATCH_PUT {
        if payload.len() < 4 {
            Err(too_short)
        } else {
            match decode_batch(payload.skip(4), be_value(payload.subrange(0, 4)), lsn) {
                Err(e) => Err(e),
                Ok(entries) => Ok(WalOpView::BatchPut { entries }),
            }
        }
    } else {
        Err(WalError::UnknownOp { op_code })
    }
}

/// What the checksum of a record covers.
pub open spec fn record_body(lsn: u64, op_code: u8, payload: Seq<u8>) -> Seq<u8> {
    be_bytes(lsn as nat, 8) + seq![op_code] + payload
}

/// A record around a payload, with the given checksum.
pub open spec fn record_frame(lsn: u64, op_code: u8, payload: Seq<u8>, crc: u32) -> Seq<u8> {
    be_bytes(payload.len() + 13, 4) + record_body(lsn, op_code, payload) + be_bytes(crc as nat, 4)
}

/// The record of an operation.
pub open spec fn record_bytes(lsn: u64, op: WalOpView) -> Seq<u8> {
    let payload = payload_of(stamped(op, lsn));
    record_frame(lsn, op_code_of(op), payload, crc32(record_body(lsn, op_code_of(op), payload)))
}

/// A record that was read.
#[derive(Clone, Debug)]
pub struct WalRecord {
    pub lsn: u64,
    pub op: WalOp,
    /// The number of bytes that the record takes, its length field included.
    pub total_len: usize,
}

/// The model of a record that was read.
pub struct WalRecordView {
    pub lsn: u64,
    pub op: WalOpView,
    pub total_len: nat,
}

impl View for WalRecord {
    type V = WalRecordView;

    open spec fn view(&self) -> WalRecordView {
        WalRecordView { lsn: self.lsn, op: self.op@, total_len: self.total_len as nat }
    }
}

/// The record at the front of a buffer, or why there is none, where `crc` is the checksum of
/// what the record covers.
pub open spec fn parse_with_crc(buf: Seq<u8>, crc: u32) -> Result<WalRecordView, WalError> {
    if buf.len() < 4 {
        Err(WalError::IncompleteLength)
    } else {
        let len = be_value(buf.subrange(0, 4)) as int;
        if buf.len() < 4 + len {
            Err(WalError::IncompleteBody)
        } else if len < 13 {
            Err(WalError::BodyTooShort { len: len as usize })
        } else {
            let lsn = be_value(buf.subrange(4, 12)) as u64;
            if be_value(buf.subrange(len, 4 + len)) != crc {
                Err(WalError::CrcMismatch { lsn })
            } else {
                match decode_op(buf[12], lsn, buf.subrange(13, len)) {
                    Err(e) => Err(e),
                    Ok(op) => Ok(WalRecordView { lsn, op, total_len: (4 + len) as nat }),
                }
            }
        }
    }
}

/// The stretch of the buffer's front record that its checksum covers; empty if there is no
/// complete record.
pub open spec fn covered_by_crc(buf: Seq<u8>) -> Seq<u8> {
    let len = be_value(buf.subrange(0, 4)) as int;
    if buf.len() < 4 || buf.len() < 4 + len || len < 13 {
        Seq::empty()
    } else {
        buf.subrange(4, len)
    }
}

/// The record at the front of a buffer, or why there is none.
#[verifier::opaque]
pub open spec fn parse_record_at(buf: Seq<u8>) -> Result<WalRecordView, WalError> {
    parse_with_crc(buf, crc32(covered_by_crc(buf)))
}

/// The records of a log, up to the first place where there is none.
pub open spec fn recover_log(buf: Seq<u8>) -> Seq<WalRecordView>
    decreases buf.len(),
{
    match parse_record_at(buf) {
        Err(_) => Seq::empty(),
        Ok(rec) => {
            proof {
                reveal(parse_record_at);
            }
            seq![rec] + recover_log(buf.skip(rec.total_len as int))
        },
    }
}

/// The greatest sequence number of a list of records; 0 if there are none.
pub open spec fn max_lsn(records: Seq<WalRecordView>) -> u64
    decreases records.len(),
{
    if records.len() == 0 {
        0
    } else if records.last().lsn > max_lsn(records.drop_last()) {
        records.last().lsn
    } else {
        max_lsn(records.drop_last())
    }
}

impl WalOp {
    /// The code of this operation.
    pub fn op_code(&self) -> (code: u8)
        ensures
            code == op_code_of(self@),
    {
        match self {
            WalOp::Put { .. } => OP_PUT,
            WalOp::BatchPut { .. } => OP_BATCH_PUT,
            WalOp::Delete { .. } => OP_DELETE,
            WalOp::PartitionSplit { .. } => OP_PARTITION_SPLIT,
            WalOp::Checkpoint { .. } => OP_CHECKPOINT,
        }
    }

    /// The payload of this operation, with its keys carrying the given sequence number.
    pub fn encode_payload(&self, lsn: u64) -> (buf: Vec<u8>)
        ensures
            buf@ == payload_of(stamped(self@, lsn)),
    {
        let mut buf: Vec<u8> = Vec::new();
        match self {
            WalOp::Put { key, value } => {
                let key = LsmKey {
                    namespace: key.namespace,
                    partition_or_segment: key.partition_or_segment,
                    doc_id: key.doc_id,
                    lsn,
                };
                key.push_to(&mut buf);
                value.push_to(&mut buf);
            },
            WalOp::BatchPut { entries } => {
                let ghost es = entries_with_lsn(view_entries(entries@), lsn);
                push_len(&mut buf, entries.len());
                let ghost header = buf@;
                let mut i: usize = 0;
                assert(es.take(0) =~= Seq::<Entry>::empty());
                assert(buf@ =~= header + entries_bytes(es.take(0)));
                while i < entries.len()
                    invariant
                        i <= entries@.len(),
                        es == entries_with_lsn(view_entries(entries@), lsn),
                        buf@ == header + entries_bytes(es.take(i as int)),
                    decreases entries@.len() - i,
                {
                    let k = entries[i].0;
                    let key = LsmKey {
                        namespace: k.namespace,
                        partition_or_segment: k.partition_or_segment,
                        doc_id: k.doc_id,
                        lsn,
                    };
                    key.push_to(&mut buf);
                    entries[i].1.push_to(&mut buf);
                    proof {
                        let e = es[i as int];
                        assert(es.take(i + 1) =~= es.take(i as int).push(e));
                        lemma_entries_bytes_push(es.take(i as int), e);
                        assert(buf@ =~= header + entries_bytes(es.take(i + 1)));
                    }
                    i = i + 1;
                }
                assert(es.take(i as int) =~= es);
            },
            WalOp::Delete { namespace, doc_id } => {
                push_be(&mut buf, *namespace as u64, 1);
                push_u64(&mut buf, *doc_id);
            },
            WalOp::PartitionSplit { old: before, new: after, moved } => {
                push_u32(&mut buf, *before);
                push_u32(&mut buf, *after);
                push_u64(&mut buf, *moved);
            },
            WalOp::Checkpoint { last_applied_lsn } => {
                push_u64(&mut buf, *last_applied_lsn);
            },
        }
        assert(buf@ =~= payload_of(stamped(self@, lsn)));
        buf
    }

    /// The operation that a code and a payload stand for.
    pub fn decode(op_code: u8, lsn: u64, payload: &[u8]) -> (r: Result<WalOp, WalError>)
        ensures
            match decode_op(op_code, lsn, payload@) {
                Err(e) => r matches Err(f) && f == e,
                Ok(op) => r matches Ok(o) && o@ == op,
            },
    {
        let len: usize = payload.len();
        if op_code == OP_PUT {
            if len < LsmKey::ENCODED_LEN {
                return Err(WalError::PayloadTooShort { op_code, len });
            }
            let mut key = LsmKey::decode_at(payload, 0);
            proof {
                lemma_key_of_bytes(key);
                assert(payload@.subrange(0, 21) =~= payload@.take(21));
            }
            key.lsn = lsn;
            let rest = vstd::slice::slice_subrange(payload, 21, len);
            assert(rest@ =~= payload@.skip(21));
            match LsmValue::decode(rest) {
                Ok(value) => Ok(WalOp::Put { key, value }),
                Err(error) => Err(WalError::BadValue { error }),
            }
        } else if op_code == OP_DELETE {
            if len < 9 {
                return Err(WalError::PayloadTooShort { op_code, len });
            }
            Ok(WalOp::Delete { namespace: payload[0], doc_id: read_u64(payload, 1) })
        } else if op_code == OP_PARTITION_SPLIT {
            if len < 16 {
                return Err(WalError::PayloadTooShort { op_code, len });
            }
            Ok(
                WalOp::PartitionSplit {
                    old: read_u32(payload, 0),
                    new: read_u32(payload, 4),
                    moved: read_u64(payload, 8),
                },
            )
        } else if op_code == OP_CHECKPOINT {
            if len < 8 {
                return Err(WalError::PayloadTooShort { op_code, len });
            }
            Ok(WalOp::Checkpoint { last_applied_lsn: read_u64(payload, 0) })
        } else if op_code == OP_BATCH_PUT {
            if len < 4 {
                return Err(WalError::PayloadTooShort { op_code, len });
            }
            let count: u32 = read_u32(payload, 0);
            match read_batch(payload, count, lsn) {
                Ok(entries) => Ok(WalOp::BatchPut { entries }),
                Err(e) => Err(e),
            }
        } else {
            Err(WalError::UnknownOp { op_code })
        }
    }
}

/// Decodes the entries of a batch, which stand behind the count.
fn read_batch(payload: &[u8], count: u32, lsn: u64) -> (r: Result<Vec<(LsmKey, LsmValue)>, WalError>)
    requires
        payload@.len() >= 4,
    ensures
        match decode_batch(payload@.skip(4), count as nat, lsn) {
            Err(e) => r matches Err(f) && f == e,
            Ok(es) => r matches Ok(out) && view_entries(out@) == es,
        },
{
    let len: usize = payload.len();
    let mut out: Vec<(LsmKey, LsmValue)> = Vec::new();
    let mut pos: usize = 4;
    let mut left: u32 = count;
    let ghost whole = decode_batch(payload@.skip(4), count as nat, lsn);
    proof {
        if whole is Ok {
            assert(view_entries(out@) + whole->Ok_0 =~= whole->Ok_0);
        }
    }
    while left > 0
        invariant
            pos <= len,
            len == payload@.len(),
            whole == decode_batch(payload@.skip(4), count as nat, lsn),
            match decode_batch(payload@.skip(pos as int), left as nat, lsn) {
                Ok(rest) => whole == Ok::<Seq<Entry>, WalError>(view_entries(out@) + rest),
                Err(e) => whole == Err::<Seq<Entry>, WalError>(e),
            },
        decreases left,
    {
        let ghost here = payload@.skip(pos as int);
        let ghost before = out@;
        if len - pos < LsmKey::ENCODED_LEN {
            return Err(WalError::PayloadTooShort { op_code: OP_BATCH_PUT, len: len - pos });
        }
        let mut key = LsmKey::decode_at(payload, pos);
        proof {
            assert(here.take(21) =~= payload@.subrange(pos as int, pos + 21));
            lemma_key_of_bytes(key);
        }
        key.lsn = lsn;
        let rest = vstd::slice::slice_subrange(payload, pos + 21, len);
        assert(rest@ =~= here.skip(21));
        match LsmValue::decode_with_len(rest) {
            Err(error) => {
                return Err(WalError::BadValue { error });
            },
            Ok((value, consumed)) => {
                out.push((key, value));
                pos = pos + 21 + consumed;
                left = left - 1;
                proof {
                    assert(here.skip(21 + consumed as int) =~= payload@.skip(pos as int));
                    if let Ok(tail) = decode_batch(payload@.skip(pos as int), left as nat, lsn) {
                        assert(view_entries(out@) =~= view_entries(before) + seq![(key, value@)]);
                        assert(view_entries(out@) + tail =~= view_entries(before) + (seq![(key, value@)] + tail));
                    }
                }
            },
        }
    }
    assert(view_entries(out@) + Seq::<Entry>::empty() =~= view_entries(out@));
    Ok(out)
}

/// Puts a frame around a payload: length, sequence number, code and checksum.
pub fn frame_record(lsn: u64, op_code: u8, payload: &[u8]) -> (buf: Vec<u8>)
    ensures
        buf@ == record_frame(lsn, op_code, payload@, crc32(record_body(lsn, op_code, payload@))),
{
    let mut body: Vec<u8> = Vec::new();
    push_u64(&mut body, lsn);
    body.push(op_code);
    push_bytes(&mut body, payload);
    assert(body@ =~= record_body(lsn, op_code, payload@));
    let crc: u32 = crc32_of(body.as_slice());
    let mut buf: Vec<u8> = Vec::new();
    push_body_len(&mut buf, payload.len());
    push_bytes(&mut buf, body.as_slice());
    push_u32(&mut buf, crc);
    assert(buf@ =~= record_frame(lsn, op_code, payload@, crc));
    buf
}

/// Appends the length field of a record with a payload of the given length.
fn push_body_len(buf: &mut Vec<u8>, payload_len: usize)
    ensures
        final(buf)@ == old(buf)@ + be_bytes(payload_len as nat + 13, 4),
{
    let low: u64 = (payload_len as u64 % 0x1_0000_0000) + 13;
    push_be(buf, low, 4);
    proof {
        lemma_body_len_field(payload_len as nat);
    }
}

/// The length field of a record depends on the low-order bytes of the payload's length.
proof fn lemma_body_len_field(len: nat)
    ensures
        be_bytes(len + 13, 4) == be_bytes(len % 0x1_0000_0000 + 13, 4),
{
    let p = 0x1_0000_0000;
    lemma_pow256_values();
    vstd::arithmetic::div_mod::lemma_add_mod_noop_right(13, len as int, p);
    assert((len + 13) % (p as nat) == (len % (p as nat) + 13) % (p as nat));
    crate::bytes::lemma_be_bytes_mod(len + 13, len % 0x1_0000_0000 + 13, 4);
}

/// Reads the record at the front of a buffer. A record that is cut off, whose checksum does
/// not match or whose payload makes no sense is an error.
pub fn parse_record(buf: &[u8]) -> (r: Result<(WalRecord, usize), WalError>)
    ensures
        match parse_record_at(buf@) {
            Err(e) => r matches Err(f) && f == e,
            Ok(rec) => r matches Ok(p) && p.0@ == rec && p.1 == rec.total_len && p.1 <= buf@.len(),
        },
{
    proof {
        reveal(parse_record_at);
    }
    let n: usize = buf.len();
    if n < 4 {
        return Err(WalError::IncompleteLength);
    }
    let body_len: usize = read_u32(buf, 0) as usize;
    if n - 4 < body_len {
        return Err(WalError::IncompleteBody);
    }
    if body_len < 13 {
        return Err(WalError::BodyTooShort { len: body_len });
    }
    let covered = vstd::slice::slice_subrange(buf, 4, body_len);
    let crc: u32 = crc32_of(covered);
    assert(covered@ == covered_by_crc(buf@));
    read_body(buf, crc)
}

/// Reads the record at the front of a buffer, given the checksum of what the record covers.
pub fn read_body(buf: &[u8], crc: u32) -> (r: Result<(WalRecord, usize), WalError>)
    ensures
        match parse_with_crc(buf@, crc) {
            Err(e) => r matches Err(f) && f == e,
            Ok(rec) => r matches Ok(p) && p.0@ == rec && p.1 == rec.total_len && p.1 <= buf@.len(),
        },
{
    let n: usize = buf.len();
    if n < 4 {
        return Err(WalError::IncompleteLength);
    }
    let body_len: usize = read_u32(buf, 0) as usize;
    if n - 4 < body_len {
        return Err(WalError::IncompleteBody);
    }
    if body_len < 13 {
        return Err(WalError::BodyTooShort { len: body_len });
    }
    let total_len: usize = 4 + body_len;
    let lsn: u64 = read_u64(buf, 4);
    let op_code: u8 = buf[12];
    let stored: u32 = read_u32(buf, body_len);
    if stored != crc {
        return Err(WalError::CrcMismatch { lsn });
    }
    let payload = vstd::slice::slice_subrange(buf, 13, body_len);
    match WalOp::decode(op_code, lsn, payload) {
        Ok(op) => Ok((WalRecord { lsn, op, total_len }, total_len)),
        Err(e) => Err(e),
    }
}

/// The models of a list of records.
pub open spec fn view_records(records: Seq<WalRecord>) -> Seq<WalRecordView> {
    Seq::new(records.len(), |i: int| records[i]@)
}

/// Reads the records of a log, up to the first place where there is none.
pub fn read_log(buf: &[u8]) -> (records: Vec<WalRecord>)
    ensures
        view_records(records@) == recover_log(buf@),
{
    let len: usize = buf.len();
    let mut records: Vec<WalRecord> = Vec::new();
    let mut offset: usize = 0;
    assert(buf@.skip(0) =~= buf@);
    assert(view_records(records@) + recover_log(buf@) =~= recover_log(buf@));
    let mut complete: bool = true;
    while complete && offset < len
        invariant
            offset <= len,
            len == buf@.len(),
            view_records(records@) + recover_log(buf@.skip(offset as int)) == recover_log(buf@),
            !complete ==> parse_record_at(buf@.skip(offset as int)) is Err,
        decreases len - offset, (if complete { 1int } else { 0int }),
    {
        let rest = vstd::slice::slice_subrange(buf, offset, len);
        assert(rest@ =~= buf@.skip(offset as int));
        proof {
            reveal(parse_record_at);
        }
        match parse_record(rest) {
            Ok((rec, consumed)) => {
                let ghost before = records@;
                let ghost model = rec@;
                records.push(rec);
                offset = offset + consumed;
                proof {
                    let next = buf@.skip(offset as int);
                    assert(rest@.skip(consumed as int) =~= next);
                    assert(view_records(records@) =~= view_records(before) + seq![model]);
                    assert(view_records(records@) + recover_log(next) =~= view_records(before) + (seq![model]
                        + recover_log(next)));
                }
            },
            Err(_) => {
                complete = false;
            },
        }
    }
    proof {
        reveal(parse_record_at);
        assert(view_records(records@) + Seq::<WalRecordView>::empty() =~= view_records(records@));
    }
    records
}

/// The write-ahead log: where it stands and what comes next.
#[derive(Debug)]
pub struct Wal {
    path: String,
    sync_policy: WalSync,
    current_size: u64,
    rotate_size: u64,
    next_lsn: u64,
}

/// What appending a record asks for.
#[derive(Debug)]
pub struct WalAppend {
    /// The sequence number of the record.
    pub lsn: u64,
    /// Where the record is to be written.
    pub offset: u64,
    /// The record.
    pub record: Vec<u8>,
    /// Whether the log is to be synchronised after the write.
    pub fsync: bool,
    /// Whether the log is to be rotated after that.
    pub rotate: bool,
}

/// The state of a log.
pub struct WalState {
    pub path: Seq<char>,
    pub sync_policy: WalSync,
    pub size: u64,
    pub rotate_size: u64,
    pub next_lsn: u64,
}

impl View for Wal {
    type V = WalState;

    closed spec fn view(&self) -> WalState {
        WalState {
            path: self.path@,
            sync_policy: self.sync_policy,
            size: self.current_size,
            rotate_size: self.rotate_size,
            next_lsn: self.next_lsn,
        }
    }
}

/// The sum of two counters that wrap around.
pub open spec fn wrapping_sum(a: nat, b: nat) -> u64 {
    ((a + b) % 0x1_0000_0000_0000_0000) as u64
}

/// A log after a record of the given length has been appended.
pub open spec fn after_append(s: WalState, len: nat) -> WalState {
    WalState { size: wrapping_sum(s.size as nat, len), next_lsn: wrapping_sum(s.next_lsn as nat, 1), ..s }
}

/// What appending an operation to a log asks for.
pub open spec fn appends(s: WalState, op: WalOpView, a: WalAppend) -> bool {
    &&& a.lsn == s.next_lsn
    &&& a.offset == s.size
    &&& a.record@ == record_bytes(s.next_lsn, op)
    &&& a.fsync == (s.sync_policy is EveryCommit)
    &&& a.rotate == (after_append(s, a.record@.len()).size > s.rotate_size)
}

/// The length of the stretch of records before the first one whose sequence number is not
/// below `lsn`.
pub open spec fn kept_len(records: Seq<WalRecordView>, lsn: u64) -> nat
    decreases records.len(),
{
    if records.len() == 0 || records[0].lsn >= lsn {
        0
    } else {
        records[0].total_len + kept_len(records.drop_first(), lsn)
    }
}

impl Wal {
    /// The log in a file of the given size. Nothing has been read yet: the next sequence
    /// number is 0.
    pub fn open(path: String, size: u64, sync_policy: WalSync) -> (w: Self)
        ensures
            w@ == (WalState { path: path@, sync_policy, size, rotate_size: ROTATE_SIZE, next_lsn: 0 }),
    {
        Wal { path, sync_policy, current_size: size, rotate_size: ROTATE_SIZE, next_lsn: 0 }
    }

    /// Appends an operation: allocates its sequence number, stamps its keys with it, and hands
    /// out the record.
    pub fn append(&mut self, op: WalOp) -> (a: WalAppend)
        ensures
            appends(old(self)@, op@, a),
            final(self)@ == after_append(old(self)@, record_bytes(old(self)@.next_lsn, op@).len()),
    {
        let lsn: u64 = self.next_lsn;
        self.next_lsn = lsn.wrapping_add(1);
        let payload = op.encode_payload(lsn);
        let record = frame_record(lsn, op.op_code(), payload.as_slice());
        let offset: u64 = self.current_size;
        self.current_size = offset.wrapping_add(record.len() as u64);
        let fsync: bool = match &self.sync_policy {
            WalSync::EveryCommit => true,
            WalSync::Periodic(_) => false,
            WalSync::Never => false,
        };
        let rotate: bool = self.current_size > self.rotate_size;
        WalAppend { lsn, offset, record, fsync, rotate }
    }

    /// Appends a batch of puts as one record, under one sequence number.
    pub fn append_batch(&mut self, entries: Vec<(LsmKey, LsmValue)>) -> (a: WalAppend)
        ensures
            appends(old(self)@, WalOpView::BatchPut { entries: view_entries(entries@) }, a),
            final(self)@ == after_append(old(self)@, a.record@.len()),
    {
        self.append(WalOp::BatchPut { entries })
    }

    /// Takes the contents of the log: hands out its records and moves the next sequence number
    /// behind the greatest one. An empty log leaves the next sequence number as it is.
    pub fn recover(&mut self, buf: &[u8]) -> (records: Vec<WalRecord>)
        ensures
            view_records(records@) == recover_log(buf@),
            buf@.len() == 0 ==> final(self)@ == old(self)@,
            buf@.len() > 0 ==> final(self)@ == (WalState {
                next_lsn: wrapping_sum(max_lsn(recover_log(buf@)) as nat, 1),
                ..old(self)@
            }),
    {
        let records = read_log(buf);
        if buf.len() == 0 {
            return records;
        }
        let mut max: u64 = 0;
        let mut i: usize = 0;
        let ghost all = view_records(records@);
        assert(all.take(0) =~= Seq::<WalRecordView>::empty());
        while i < records.len()
            invariant
                i <= records@.len(),
                all == view_records(records@),
                max == max_lsn(all.take(i as int)),
            decreases records@.len() - i,
        {
            proof {
                assert(all.take(i + 1).drop_last() =~= all.take(i as int));
                assert(all.take(i + 1).last() == records@[i as int]@);
            }
            if records[i].lsn > max {
                max = records[i].lsn;
            }
            i = i + 1;
        }
        assert(all.take(i as int) =~= all);
        self.next_lsn = max.wrapping_add(1);
        records
    }

    /// The log has been rotated: it is empty again.
    pub fn rotated(&mut self)
        ensures
            final(self)@ == (WalState { size: 0, ..old(self)@ }),
    {
        self.current_size = 0;
    }

    /// Cuts the log before the first record whose sequence number is not below `lsn`: hands
    /// out the length to which the file is to be cut. Takes the contents of the log as
    /// [`Wal::recover`] does.
    pub fn truncate_to(&mut self, buf: &[u8], lsn: u64) -> (len: u64)
        ensures
            len == kept_len(recover_log(buf@), lsn),
            final(self)@.size == len,
            buf@.len() == 0 ==> final(self)@ == (WalState { size: len, ..old(self)@ }),
            buf@.len() > 0 ==> final(self)@ == (WalState {
                size: len,
                next_lsn: wrapping_sum(max_lsn(recover_log(buf@)) as nat, 1),
                ..old(self)@
            }),
    {
        let records = self.recover(buf);
        let n: usize = buf.len();
        let mut offset: usize = 0;
        let mut i: usize = 0;
        let ghost all = view_records(records@);
        proof {
            lemma_recovered_len(buf@);
            assert(all.skip(0) =~= all);
        }
        while i < records.len()
            invariant
                i <= records@.len(),
                all == view_records(records@),
                n == buf@.len(),
                offset + records_len(all.skip(i as int)) <= n,
                offset + kept_len(all.skip(i as int), lsn) == kept_len(all, lsn),
            ensures
                offset == kept_len(all, lsn),
            decreases records@.len() - i,
        {
            proof {
                assert(all.skip(i as int)[0] == records@[i as int]@);
                assert(all.skip(i as int).drop_first() =~= all.skip(i + 1));
            }
            if records[i].lsn >= lsn {
                break;
            }
            offset = offset + records[i].total_len;
            i = i + 1;
        }
        self.current_size = offset as u64;
        offset as u64
    }

    /// The sequence number that the next record gets.
    pub fn next_lsn(&self) -> (lsn: u64)
        ensures
            lsn == self@.next_lsn,
    {
        self.next_lsn
    }

    /// The size of the log.
    pub fn size(&self) -> (size: u64)
        ensures
            size == self@.size,
    {
        self.current_size
    }

    /// The path of the log.
    pub fn path(&self) -> (path: &str)
        ensures
            path@ == self@.path,
    {
        self.path.as_str()
    }
}

/// The number of bytes that a list of records takes.
pub open spec fn records_len(records: Seq<WalRecordView>) -> nat
    decreases records.len(),
{
    if records.len() == 0 {
        0
    } else {
        records[0].total_len + records_len(records.drop_first())
    }
}

/// The records of a log take no more bytes than the log has.
pub proof fn lemma_recovered_len(buf: Seq<u8>)
    ensures
        records_len(recover_log(buf)) <= buf.len(),
    decreases buf.len(),
{
    reveal(parse_record_at);
    if let Ok(rec) = parse_record_at(buf) {
        let rest = buf.skip(rec.total_len as int);
        lemma_recovered_len(rest);
        let all = recover_log(buf);
        assert(all[0] == rec);
        assert(all.drop_first() =~= recover_log(rest));
    }
}

/// The records of a list of operations, appended from a sequence number on.
pub open spec fn log_bytes(first_lsn: u64, ops: Seq<WalOpView>) -> Seq<u8>
    decreases ops.len(),
{
    if ops.len() == 0 {
        Seq::empty()
    } else {
        record_bytes(first_lsn, ops[0]) + log_bytes((first_lsn + 1) as u64, ops.drop_first())
    }
}

/// What is read back of a list of operations that was appended from a sequence number on.
pub open spec fn log_records(first_lsn: u64, ops: Seq<WalOpView>) -> Seq<WalRecordView> {
    Seq::new(
        ops.len(),
        |i: int|
            WalRecordView {
                lsn: (first_lsn + i) as u64,
                op: stamped(ops[i], (first_lsn + i) as u64),
                total_len: record_bytes((first_lsn + i) as u64, ops[i]).len(),
            },
    )
}

/// Every operation fits.
pub open spec fn ops_fit(ops: Seq<WalOpView>) -> bool {
    forall|i: int| 0 <= i < ops.len() ==> op_fits(#[trigger] ops[i])
}

proof fn lemma_batch_round_trip(es: Seq<Entry>, lsn: u64)
    requires
        entries_fit(es),
        forall|i: int| 0 <= i < es.len() ==> (#[trigger] es[i]).0.lsn == lsn,
    ensures
        decode_batch(entries_bytes(es), es.len(), lsn) == Ok::<Seq<Entry>, WalError>(es),
    decreases es.len(),
{
    if es.len() == 0 {
        assert(decode_batch(entries_bytes(es), 0, lsn)->Ok_0 =~= es);
    } else {
        let (head, tail) = (es[0], es.drop_first());
        assert(es =~= seq![head] + tail);
        lemma_entries_bytes_concat(seq![head], tail);
        assert(seq![head].drop_last() =~= Seq::<Entry>::empty());
        assert(entries_bytes(Seq::<Entry>::empty()) =~= Seq::<u8>::empty());
        assert(entries_bytes(seq![head]) =~= entry_bytes(head));
        let buf = entries_bytes(es);
        let rest = entries_bytes(tail);
        lemma_key_bytes_len(head.0);
        assert(buf.take(21) =~= key_bytes(head.0));
        assert(buf.skip(21) =~= value_bytes(head.1) + rest);
        law_value_round_trip(head.1, rest);
        assert(buf.skip(21 + value_bytes(head.1).len() as int) =~= rest);
        lemma_key_of_bytes(head.0);
        assert forall|i: int| 0 <= i < tail.len() implies (#[trigger] tail[i]).0.lsn == lsn by {
            assert(tail[i] == es[i + 1]);
        }
        lemma_batch_round_trip(tail, lsn);
        assert(key_with_lsn(head.0, lsn) == head.0);
        assert(head == (key_with_lsn(head.0, lsn), head.1));
    }
}

/// Stamping keys changes no length.
proof fn lemma_stamped_len(es: Seq<Entry>, lsn: u64)
    ensures
        entries_bytes(entries_with_lsn(es, lsn)).len() == entries_bytes(es).len(),
    decreases es.len(),
{
    if es.len() > 0 {
        lemma_stamped_len(es.drop_last(), lsn);
        assert(entries_with_lsn(es, lsn).drop_last() =~= entries_with_lsn(es.drop_last(), lsn));
        lemma_key_bytes_len(es.last().0);
        lemma_key_bytes_len(key_with_lsn(es.last().0, lsn));
    }
}

/// Decoding gives back an encoded operation, with its keys carrying the sequence number.
pub proof fn law_operation_round_trip(op: WalOpView, lsn: u64)
    requires
        op_fits(op),
    ensures
        decode_op(op_code_of(op), lsn, payload_of(stamped(op, lsn))) == Ok::<WalOpView, WalError>(stamped(op, lsn)),
        payload_of(stamped(op, lsn)).len() == payload_of(op).len(),
{
    broadcast use lemma_be_bytes_len;

    lemma_pow256_values();
    let payload = payload_of(stamped(op, lsn));
    match op {
        WalOpView::Put { key, value } => {
            let k = key_with_lsn(key, lsn);
            lemma_key_bytes_len(k);
            lemma_key_bytes_len(key);
            lemma_key_of_bytes(k);
            assert(payload.take(21) =~= key_bytes(k));
            assert(payload.skip(21) =~= value_bytes(value) + Seq::<u8>::empty());
            law_value_round_trip(value, Seq::<u8>::empty());
        },
        WalOpView::BatchPut { entries } => {
            let es = entries_with_lsn(entries, lsn);
            lemma_stamped_len(entries, lsn);
            lemma_be_value_of_bytes(es.len(), 4);
            assert(payload.subrange(0, 4) =~= be_bytes(es.len(), 4));
            assert(payload.skip(4) =~= entries_bytes(es));
            assert forall|i: int| 0 <= i < es.len() implies value_fits((#[trigger] es[i]).1) by {
                assert(value_fits(entries[i].1));
            }
            lemma_batch_round_trip(es, lsn);
        },
        WalOpView::Delete { namespace, doc_id } => {
            let first = be_bytes(namespace as nat, 1);
            lemma_be_value_of_bytes(namespace as nat, 1);
            assert(first.drop_last() =~= Seq::<u8>::empty());
            assert(be_value(first.drop_last()) == 0);
            assert(payload[0] == first[0]);
            lemma_be_value_of_bytes(doc_id as nat, 8);
            assert(payload.subrange(1, 9) =~= be_bytes(doc_id as nat, 8));
        },
        WalOpView::PartitionSplit { before, after, moved } => {
            lemma_be_value_of_bytes(before as nat, 4);
            lemma_be_value_of_bytes(after as nat, 4);
            lemma_be_value_of_bytes(moved as nat, 8);
            assert(payload.subrange(0, 4) =~= be_bytes(before as nat, 4));
            assert(payload.subrange(4, 8) =~= be_bytes(after as nat, 4));
            assert(payload.subrange(8, 16) =~= be_bytes(moved as nat, 8));
        },
        WalOpView::Checkpoint { last_applied_lsn } => {
            lemma_be_value_of_bytes(last_applied_lsn as nat, 8);
            assert(payload.subrange(0, 8) =~= be_bytes(last_applied_lsn as nat, 8));
        },
    }
}

/// Parsing gives back a record that was written, whatever follows it.
pub proof fn law_record_round_trip(lsn: u64, op: WalOpView, rest: Seq<u8>)
    requires
        op_fits(op),
    ensures
        parse_record_at(record_bytes(lsn, op) + rest) == Ok::<WalRecordView, WalError>(
            WalRecordView { lsn, op: stamped(op, lsn), total_len: record_bytes(lsn, op).len() },
        ),
        record_bytes(lsn, op).len() == payload_of(op).len() + 17,
{
    broadcast use lemma_be_bytes_len;

    reveal(parse_record_at);
    law_operation_round_trip(op, lsn);
    let buf = record_bytes(lsn, op) + rest;
    let payload = payload_of(stamped(op, lsn));
    let body = record_body(lsn, op_code_of(op), payload);
    let len = payload.len() + 13;
    lemma_pow256_values();
    lemma_be_value_of_bytes(len, 4);
    lemma_be_value_of_bytes(lsn as nat, 8);
    lemma_be_value_of_bytes(crc32(body) as nat, 4);
    assert(buf.subrange(0, 4) =~= be_bytes(len, 4));
    assert(buf.subrange(4, len as int) =~= body);
    assert(buf.subrange(4, 12) =~= be_bytes(lsn as nat, 8));
    assert(buf.subrange(len as int, 4 + len as int) =~= be_bytes(crc32(body) as nat, 4));
    assert(buf.subrange(13, len as int) =~= payload);
    assert(buf[12] == op_code_of(op));
}

/// Operations of different kinds have different codes.
pub proof fn law_operation_codes_differ(a: WalOpView, b: WalOpView)
    ensures
        op_code_of(a) == op_code_of(b) <==> match a {
            WalOpView::Put { .. } => b is Put,
            WalOpView::BatchPut { .. } => b is BatchPut,
            WalOpView::Delete { .. } => b is Delete,
            WalOpView::PartitionSplit { .. } => b is PartitionSplit,
            WalOpView::Checkpoint { .. } => b is Checkpoint,
        },
{
}

/// A record that was cut off is not taken for one: every proper prefix of it is refused.
pub proof fn law_torn_record_is_refused(lsn: u64, op: WalOpView, cut: int)
    requires
        op_fits(op),
        0 <= cut < record_bytes(lsn, op).len(),
    ensures
        parse_record_at(record_bytes(lsn, op).take(cut)) is Err,
{
    broadcast use lemma_be_bytes_len;

    let torn = record_bytes(lsn, op).take(cut);
    law_operation_round_trip(op, lsn);
    let len = payload_of(stamped(op, lsn)).len() + 13;
    reveal(parse_record_at);
    if cut >= 4 {
        lemma_pow256_values();
        lemma_be_value_of_bytes(len, 4);
        assert(torn.subrange(0, 4) =~= be_bytes(len, 4));
    }
}

/// A record that was damaged is not taken for one: if a byte behind the length field was changed, be
/// it by one bit, the record is refused for its checksum, whatever follows it.
pub proof fn law_damaged_record_is_refused(lsn: u64, op: WalOpView, i: int, byte: u8, rest: Seq<u8>)
    requires
        op_fits(op),
        4 <= i < record_bytes(lsn, op).len(),
        byte != record_bytes(lsn, op)[i],
    ensures
        parse_record_at(record_bytes(lsn, op).update(i, byte) + rest) matches Err(WalError::CrcMismatch { .. }),
{
    broadcast use lemma_be_bytes_len;

    reveal(parse_record_at);
    law_operation_round_trip(op, lsn);
    let record = record_bytes(lsn, op);
    let buf = record.update(i, byte) + rest;
    let payload = payload_of(stamped(op, lsn));
    let body = record_body(lsn, op_code_of(op), payload);
    let len = payload.len() + 13;
    let end = len as int;
    lemma_pow256_values();
    lemma_be_value_of_bytes(len, 4);
    lemma_be_value_of_bytes(crc32(body) as nat, 4);
    assert(buf.subrange(0, 4) =~= be_bytes(len, 4));
    let stored = buf.subrange(end, 4 + end);
    if i < end {
        assert(body[i - 4] == record[i]);
        assert(buf.subrange(4, end) =~= body.update(i - 4, byte));
        law_changed_byte_changes_checksum(body, i - 4, byte);
        assert(stored =~= be_bytes(crc32(body) as nat, 4));
    } else {
        assert(buf.subrange(4, end) =~= body);
        assert(stored[i - end] == byte);
        assert(be_bytes(crc32(body) as nat, 4)[i - end] == record[i]);
        lemma_be_bytes_of_value(stored);
    }
}

/// The records of operations with any sequence numbers.
pub open spec fn numbered_bytes(ops: Seq<(u64, WalOpView)>) -> Seq<u8>
    decreases ops.len(),
{
    if ops.len() == 0 {
        Seq::empty()
    } else {
        record_bytes(ops[0].0, ops[0].1) + numbered_bytes(ops.drop_first())
    }
}

/// What is read back of operations with any sequence numbers.
pub open spec fn numbered_records(ops: Seq<(u64, WalOpView)>) -> Seq<WalRecordView> {
    Seq::new(
        ops.len(),
        |i: int|
            WalRecordView {
                lsn: ops[i].0,
                op: stamped(ops[i].1, ops[i].0),
                total_len: record_bytes(ops[i].0, ops[i].1).len(),
            },
    )
}

/// Records are read back in their order, whatever sequence numbers they have and whatever follows
/// them in the log.
pub proof fn law_recover_gives_back_records(ops: Seq<(u64, WalOpView)>, rest: Seq<u8>)
    requires
        forall|i: int| 0 <= i < ops.len() ==> op_fits((#[trigger] ops[i]).1),
    ensures
        recover_log(numbered_bytes(ops) + rest) == numbered_records(ops) + recover_log(rest),
    decreases ops.len(),
{
    let buf = numbered_bytes(ops) + rest;
    if ops.len() == 0 {
        assert(buf =~= rest);
        assert(numbered_records(ops) + recover_log(rest) =~= recover_log(rest));
    } else {
        let (lsn, op) = ops[0];
        let record = record_bytes(lsn, op);
        let tail = ops.drop_first();
        let after = numbered_bytes(tail) + rest;
        assert(op_fits(ops[0].1));
        assert(buf =~= record + after);
        law_record_round_trip(lsn, op, after);
        assert(buf.skip(record.len() as int) =~= after);
        assert forall|i: int| 0 <= i < tail.len() implies op_fits((#[trigger] tail[i]).1) by {
            assert(tail[i] == ops[i + 1]);
        }
        law_recover_gives_back_records(tail, rest);
        let head = WalRecordView { lsn, op: stamped(op, lsn), total_len: record.len() };
        assert(numbered_records(ops) =~= seq![head] + numbered_records(tail));
        assert(recover_log(buf) =~= numbered_records(ops) + recover_log(rest));
    }
}

/// A log of whole records, whatever sequence numbers they have, with one more that was cut off, or
/// nothing, behind them: all whole records are read back and the one that was cut off is skipped.
/// The greatest sequence number that was read, which the next one follows, is that of one of
/// them, and none has a greater one.
pub proof fn law_recover_reads_whole_records(ops: Seq<(u64, WalOpView)>, lsn: u64, torn: WalOpView, cut: int)
    requires
        forall|i: int| 0 <= i < ops.len() ==> op_fits((#[trigger] ops[i]).1),
        op_fits(torn),
        0 <= cut < record_bytes(lsn, torn).len(),
    ensures
        ({
            let log = numbered_bytes(ops) + record_bytes(lsn, torn).take(cut);
            &&& recover_log(log) == numbered_records(ops)
            &&& forall|i: int| 0 <= i < ops.len() ==> (#[trigger] ops[i]).0 <= max_lsn(recover_log(log))
            &&& ops.len() > 0 ==> exists|i: int| 0 <= i < ops.len() && (#[trigger] ops[i]).0 == max_lsn(recover_log(log))
        }),
{
    let records = numbered_records(ops);
    law_recover_gives_back_records(ops, record_bytes(lsn, torn).take(cut));
    law_torn_record_is_refused(lsn, torn, cut);
    assert(records + Seq::<WalRecordView>::empty() =~= records);
    law_max_lsn_bounds(records);
    assert forall|i: int| 0 <= i < ops.len() implies (#[trigger] ops[i]).0 <= max_lsn(records) by {
        assert(records[i].lsn == ops[i].0);
    }
    if ops.len() > 0 {
        let i = choose|i: int| 0 <= i < records.len() && (#[trigger] records[i]).lsn == max_lsn(records);
        assert(ops[i].0 == max_lsn(records));
    }
}

/// What was appended is read back first, whatever follows it in the log.
pub proof fn law_recover_gives_back_appended(first_lsn: u64, ops: Seq<WalOpView>, rest: Seq<u8>)
    requires
        ops_fit(ops),
        first_lsn + ops.len() <= u64::MAX,
    ensures
        recover_log(log_bytes(first_lsn, ops) + rest) == log_records(first_lsn, ops) + recover_log(rest),
{
    let numbered = consecutive(first_lsn, ops);
    lemma_consecutive(first_lsn, ops);
    assert forall|i: int| 0 <= i < numbered.len() implies op_fits((#[trigger] numbered[i]).1) by {
        assert(op_fits(ops[i]));
    }
    law_recover_gives_back_records(numbered, rest);
    assert(numbered_records(numbered) =~= log_records(first_lsn, ops));
}

/// The operations with consecutive sequence numbers.
spec fn consecutive(first_lsn: u64, ops: Seq<WalOpView>) -> Seq<(u64, WalOpView)> {
    Seq::new(ops.len(), |i: int| ((first_lsn + i) as u64, ops[i]))
}

proof fn lemma_consecutive(first_lsn: u64, ops: Seq<WalOpView>)
    requires
        first_lsn + ops.len() <= u64::MAX,
    ensures
        numbered_bytes(consecutive(first_lsn, ops)) == log_bytes(first_lsn, ops),
    decreases ops.len(),
{
    if ops.len() > 0 {
        lemma_consecutive((first_lsn + 1) as u64, ops.drop_first());
        assert(consecutive(first_lsn, ops).drop_first() =~= consecutive((first_lsn + 1) as u64, ops.drop_first()));
    }
}

/// A record that was cut off by a crash is skipped, and everything before it is read back.
pub proof fn law_recover_skips_torn_record(first_lsn: u64, ops: Seq<WalOpView>, lsn: u64, op: WalOpView, cut: int)
    requires
        ops_fit(ops),
        first_lsn + ops.len() <= u64::MAX,
        op_fits(op),
        0 <= cut < record_bytes(lsn, op).len(),
    ensures
        recover_log(log_bytes(first_lsn, ops) + record_bytes(lsn, op).take(cut)) == log_records(first_lsn, ops),
{
    let torn = record_bytes(lsn, op).take(cut);
    law_recover_gives_back_appended(first_lsn, ops, torn);
    law_torn_record_is_refused(lsn, op, cut);
    assert(log_records(first_lsn, ops) + Seq::<WalRecordView>::empty() =~= log_records(first_lsn, ops));
}

/// Appending to a log appends to its operations.
pub proof fn law_append_extends_log(first_lsn: u64, ops: Seq<WalOpView>, op: WalOpView)
    requires
        first_lsn + ops.len() <= u64::MAX,
    ensures
        log_bytes(first_lsn, ops.push(op)) == log_bytes(first_lsn, ops) + record_bytes(
            (first_lsn + ops.len()) as u64,
            op,
        ),
    decreases ops.len(),
{
    let all = ops.push(op);
    if ops.len() == 0 {
        assert(all.drop_first() =~= Seq::<WalOpView>::empty());
        assert(log_bytes((first_lsn + 1) as u64, Seq::<WalOpView>::empty()) =~= Seq::<u8>::empty());
        assert(log_bytes(first_lsn, all) =~= log_bytes(first_lsn, ops) + record_bytes(first_lsn, op));
    } else {
        assert(all.drop_first() =~= ops.drop_first().push(op));
        law_append_extends_log((first_lsn + 1) as u64, ops.drop_first(), op);
        assert(log_bytes(first_lsn, all) =~= log_bytes(first_lsn, ops) + record_bytes(
            (first_lsn + ops.len()) as u64,
            op,
        ));
    }
}

/// The greatest sequence number, which the next one follows after recovery, is that of one of the
/// records, and none has a greater one.
pub proof fn law_max_lsn_bounds(records: Seq<WalRecordView>)
    ensures
        forall|i: int| 0 <= i < records.len() ==> (#[trigger] records[i]).lsn <= max_lsn(records),
        records.len() > 0 ==> exists|i: int|
            0 <= i < records.len() && (#[trigger] records[i]).lsn == max_lsn(records),
    decreases records.len(),
{
    if records.len() > 0 {
        let init = records.drop_last();
        law_max_lsn_bounds(init);
        if init.len() > 0 && records.last().lsn <= max_lsn(init) {
            let i = choose|i: int| 0 <= i < init.len() && (#[trigger] init[i]).lsn == max_lsn(init);
            assert(records[i].lsn == max_lsn(records));
        } else {
            assert(records[records.len() - 1].lsn == max_lsn(records));
        }
        assert forall|i: int| 0 <= i < records.len() implies (#[trigger] records[i]).lsn <= max_lsn(records) by {
            if i < records.len() - 1 {
                assert(records.drop_last()[i] == records[i]);
            }
        }
    }
}

/// The records before the first one whose sequence number is not below `lsn`.
pub open spec fn kept_records(records: Seq<WalRecordView>, lsn: u64) -> Seq<WalRecordView>
    decreases records.len(),
{
    if records.len() == 0 || records[0].lsn >= lsn {
        Seq::empty()
    } else {
        seq![records[0]] + kept_records(records.drop_first(), lsn)
    }
}

/// A record is read alike if what follows it is cut off.
proof fn lemma_record_in_prefix(buf: Seq<u8>, cut: int)
    requires
        parse_record_at(buf) is Ok,
        (parse_record_at(buf)->Ok_0).total_len <= cut <= buf.len(),
    ensures
        parse_record_at(buf.take(cut)) == parse_record_at(buf),
{
    reveal(parse_record_at);
    let kept = buf.take(cut);
    let len = be_value(buf.subrange(0, 4)) as int;
    assert(kept.subrange(0, 4) =~= buf.subrange(0, 4));
    assert(kept.subrange(4, len) =~= buf.subrange(4, len));
    assert(kept.subrange(4, 12) =~= buf.subrange(4, 12));
    assert(kept.subrange(len, 4 + len) =~= buf.subrange(len, 4 + len));
    assert(kept.subrange(13, len) =~= buf.subrange(13, len));
}

/// A log that was cut by [`Wal::truncate_to`] holds the records before the first one whose
/// sequence number is not below `lsn`, and no others.
pub proof fn law_truncate_keeps_records(buf: Seq<u8>, lsn: u64)
    ensures
        kept_len(recover_log(buf), lsn) <= buf.len(),
        recover_log(buf.take(kept_len(recover_log(buf), lsn) as int)) == kept_records(recover_log(buf), lsn),
    decreases buf.len(),
{
    let records = recover_log(buf);
    reveal(parse_record_at);
    if records.len() == 0 || records[0].lsn >= lsn {
        assert(parse_record_at(buf.take(0)) is Err);
    } else {
        let rec = parse_record_at(buf)->Ok_0;
        assert(records[0] == rec);
        let n = rec.total_len as int;
        let rest = buf.skip(n);
        assert(records.drop_first() =~= recover_log(rest));
        law_truncate_keeps_records(rest, lsn);
        let m = kept_len(recover_log(rest), lsn) as int;
        let cut = buf.take(n + m);
        lemma_record_in_prefix(buf, n + m);
        assert(cut.skip(n) =~= rest.take(m));
    }
}

/// A log after records of the given lengths have been appended.
pub open spec fn after_appends(s: WalState, lens: Seq<nat>) -> WalState
    decreases lens.len(),
{
    if lens.len() == 0 {
        s
    } else {
        after_append(after_appends(s, lens.drop_last()), lens.last())
    }
}

/// Every append gets a sequence number that is greater than those of all appends before it, as
/// long as the numbers last: append number `i` gets the number that is `i` above the first.
pub proof fn law_appended_numbers_grow(s: WalState, lens: Seq<nat>, i: int, j: int)
    requires
        s.next_lsn + lens.len() <= u64::MAX,
        0 <= i < j <= lens.len(),
    ensures
        after_appends(s, lens.take(i)).next_lsn == s.next_lsn + i,
        after_appends(s, lens.take(i)).next_lsn < after_appends(s, lens.take(j)).next_lsn,
{
    lemma_appended_number(s, lens.take(i));
    lemma_appended_number(s, lens.take(j));
}

proof fn lemma_appended_number(s: WalState, lens: Seq<nat>)
    requires
        s.next_lsn + lens.len() <= u64::MAX,
    ensures
        after_appends(s, lens).next_lsn == s.next_lsn + lens.len(),
    decreases lens.len(),
{
    if lens.len() > 0 {
        lemma_appended_number(s, lens.drop_last());
    }
}

/// What an append tells: the record stands where the log ended and has the next number; it is to be
/// synced if every commit is; and the log is to be rotated once it is longer than it may be.
pub proof fn law_append_tells_what_is_due(s: WalState, op: WalOpView, a: WalAppend)
    requires
        appends(s, op, a),
        s.size + a.record@.len() <= u64::MAX,
    ensures
        a.lsn == s.next_lsn,
        a.offset == s.size,
        a.fsync <==> s.sync_policy == WalSync::EveryCommit,
        a.rotate <==> s.size + a.record@.len() > s.rotate_size,
        after_append(s, a.record@.len()).size == s.size + a.record@.len(),
        s.next_lsn < u64::MAX ==> after_append(s, a.record@.len()).next_lsn == s.next_lsn + 1,
{
}

} // verus!
