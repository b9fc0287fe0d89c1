//! Keys and values of the storage engine.
//!
//! A key is a slot (namespace, partition, document) together with the sequence
//! number of one version of that slot. Keys are stored as 21 big-endian bytes,
//! whose byte order is the order of the keys.

use std::cmp::Ordering;
use std::collections::hash_map::DefaultHasher;
use std::hash::{Hash, Hasher};

use vstd::prelude::*;
use vstd::std_specs::hash::DefaultHasherAdditionalSpecFns;

use crate::bytes::{be_bytes, be_value, copy_range, push_bytes, push_len, push_u32, push_u64, read_u32, read_u64};
use crate::bytes::{
    lemma_be_bytes_len, lemma_be_bytes_of_value, lemma_be_value_of_bytes, lemma_lex_less_concat,
    lemma_lex_less_is_value_order, lemma_pow256_values, lex_less,
};

verus! {

/// Namespace of stored documents.
pub const NS_DOC: u8 = 0x01;

/// Namespace of stored vectors.
pub const NS_VEC: u8 = 0x02;

/// Namespace of named metadata.
pub const NS_META: u8 = 0x03;

/// Namespace of lexical postings; the partition is the hash of field and term.
pub const NS_LEXICAL_POSTING: u8 = 0x04;

/// Namespace of lexical statistics, such as the number of indexed documents.
pub const NS_LEXICAL_STATS: u8 = 0x05;

/// A key: a slot and the sequence number of one version of it.
///
/// Keys are ordered by namespace, partition, document and sequence number, so the
/// versions of a slot are neighbours and the newest of them comes last.
#[derive(Clone, Copy, Debug, PartialEq, Eq, Ord, Hash, Structural)]
pub struct LsmKey {
    pub namespace: u8,
    pub partition_or_segment: u32,
    pub doc_id: u64,
    pub lsn: u64,
}

/// What a key says apart from its sequence number.
#[derive(Clone, Copy, Debug, PartialEq, Eq, Hash, Structural)]
pub struct Slot {
    pub namespace: u8,
    pub partition: u32,
    pub doc_id: u64,
}

/// `a` comes before `b`.
pub open spec fn key_less(a: LsmKey, b: LsmKey) -> bool {
    ||| a.namespace < b.namespace
    ||| a.namespace == b.namespace && a.partition_or_segment < b.partition_or_segment
    ||| a.namespace == b.namespace && a.partition_or_segment == b.partition_or_segment && a.doc_id < b.doc_id
    ||| a.namespace == b.namespace && a.partition_or_segment == b.partition_or_segment && a.doc_id == b.doc_id
        && a.lsn < b.lsn
}

/// The 21 bytes of a key.
pub open spec fn key_bytes(key: LsmKey) -> Seq<u8> {
    be_bytes(key.namespace as nat, 1) + be_bytes(key.partition_or_segment as nat, 4) + be_bytes(key.doc_id as nat, 8)
        + be_bytes(key.lsn as nat, 8)
}

/// The key with a given slot and sequence number.
pub open spec fn key_at(slot: Slot, lsn: u64) -> LsmKey {
    LsmKey { namespace: slot.namespace, partition_or_segment: slot.partition, doc_id: slot.doc_id, lsn }
}

/// What hashing a string writes into a hasher: what `<str as std::hash::Hash>::hash`
/// does to its state.
pub uninterp spec fn str_hash_writes(s: Seq<char>) -> Seq<Seq<u8>>;

/// The document id under which the metadata called `name` is stored.
pub open spec fn meta_id(name: Seq<char>) -> u64 {
    DefaultHasher::spec_finish(str_hash_writes(name))
}

/// Feeds a string to a hasher by `<str as std::hash::Hash>::hash`. The contract
/// claims that what it writes into the hasher depends on the string alone.
#[verifier::external_body]
fn hash_str(s: &str, state: &mut DefaultHasher)
    ensures
        final(state)@ == old(state)@ + str_hash_writes(s@),
{
    s.hash(state);
}

/// Why bytes are not a key: 21 bytes were expected.
#[derive(Clone, Copy, Debug, PartialEq, Eq, Structural)]
pub struct KeyLengthError {
    pub got: usize,
}

impl LsmKey {
    /// The length of a key in bytes.
    pub const ENCODED_LEN: usize = 21;

    /// The slot of this key.
    pub open spec fn spec_slot(self) -> Slot {
        Slot { namespace: self.namespace, partition: self.partition_or_segment, doc_id: self.doc_id }
    }

    /// The slot of this key.
    #[verifier::when_used_as_spec(spec_slot)]
    pub fn slot(self) -> (slot: Slot)
        ensures
            slot == self.spec_slot(),
    {
        Slot { namespace: self.namespace, partition: self.partition_or_segment, doc_id: self.doc_id }
    }

    /// The key by which a document is looked up.
    pub fn doc(doc_id: u64) -> (key: Self)
        ensures
            key == (LsmKey { namespace: NS_DOC, partition_or_segment: 0, doc_id, lsn: 0 }),
    {
        LsmKey { namespace: NS_DOC, partition_or_segment: 0, doc_id, lsn: 0 }
    }

    /// The key by which a vector of a partition is looked up.
    pub fn vec(partition: u32, doc_id: u64) -> (key: Self)
        ensures
            key == (LsmKey { namespace: NS_VEC, partition_or_segment: partition, doc_id, lsn: 0 }),
    {
        LsmKey { namespace: NS_VEC, partition_or_segment: partition, doc_id, lsn: 0 }
    }

    /// The key by which the metadata called `name` is looked up: the name is hashed
    /// to a document id.
    pub fn meta(name: &str) -> (key: Self)
        ensures
            key == (LsmKey { namespace: NS_META, partition_or_segment: 0, doc_id: meta_id(name@), lsn: 0 }),
    {
        let mut hasher = DefaultHasher::new();
        hash_str(name, &mut hasher);
        assert(hasher@ =~= str_hash_writes(name@));
        Self::meta_with_id(hasher.finish())
    }

    /// The metadata key of a name that hashes to `id`.
    pub fn meta_with_id(id: u64) -> (key: Self)
        ensures
            key == (LsmKey { namespace: NS_META, partition_or_segment: 0, doc_id: id, lsn: 0 }),
    {
        LsmKey { namespace: NS_META, partition_or_segment: 0, doc_id: id, lsn: 0 }
    }

    /// Appends the bytes of this key.
    pub fn push_to(&self, buf: &mut Vec<u8>)
        ensures
            final(buf)@ == old(buf)@ + key_bytes(*self),
    {
        crate::bytes::push_be(buf, self.namespace as u64, 1);
        push_u32(buf, self.partition_or_segment);
        push_u64(buf, self.doc_id);
        push_u64(buf, self.lsn);
        assert(buf@ =~= old(buf)@ + key_bytes(*self));
    }

    /// The bytes of this key.
    pub fn encode(&self) -> (buf: [u8; 21])
        ensures
            buf@ == key_bytes(*self),
    {
        let mut bytes: Vec<u8> = Vec::new();
        self.push_to(&mut bytes);
        proof {
            lemma_key_bytes_len(*self);
        }
        let mut buf = [0u8; 21];
        let mut i: usize = 0;
        while i < 21
            invariant
                i <= 21,
                bytes@.len() == 21,
                forall|j: int| 0 <= j < i ==> buf@[j] == bytes@[j],
            decreases 21 - i,
        {
            buf[i] = bytes[i];
            i = i + 1;
        }
        assert(buf@ =~= bytes@);
        buf
    }

    /// The key that 21 bytes stand for. Any other number of bytes is an error.
    pub fn decode(buf: &[u8]) -> (r: Result<Self, KeyLengthError>)
        ensures
            r is Ok <==> buf@.len() == 21,
            r matches Ok(key) ==> key_bytes(key) == buf@,
            r matches Err(e) ==> e.got == buf@.len(),
    {
        if buf.len() != Self::ENCODED_LEN {
            return Err(KeyLengthError { got: buf.len() });
        }
        Ok(Self::decode_at(buf, 0))
    }

    /// The key that stands at a position of a buffer.
    pub fn decode_at(buf: &[u8], pos: usize) -> (key: Self)
        requires
            pos + 21 <= buf@.len(),
        ensures
            key_bytes(key) == buf@.subrange(pos as int, pos + 21),
    {
        let len: usize = buf.len();
        let key = LsmKey {
            namespace: buf[pos],
            partition_or_segment: read_u32(buf, pos + 1),
            doc_id: read_u64(buf, pos + 5),
            lsn: read_u64(buf, pos + 13),
        };
        proof {
            let s = buf@.subrange(pos as int, pos + 1);
            lemma_be_bytes_of_value(s);
            assert(s.drop_last() =~= Seq::<u8>::empty());
            assert(be_value(s.drop_last()) == 0);
            assert(be_value(s) == key.namespace as nat);
            assert(key_bytes(key) =~= buf@.subrange(pos as int, pos + 21));
        }
        key
    }

    /// Whether this key comes before another one.
    pub fn less(&self, other: &LsmKey) -> (r: bool)
        ensures
            r == key_less(*self, *other),
    {
        if self.namespace != other.namespace {
            self.namespace < other.namespace
        } else if self.partition_or_segment != other.partition_or_segment {
            self.partition_or_segment < other.partition_or_segment
        } else if self.doc_id != other.doc_id {
            self.doc_id < other.doc_id
        } else {
            self.lsn < other.lsn
        }
    }
}

impl PartialOrd for LsmKey {
    fn partial_cmp(&self, other: &Self) -> (r: Option<Ordering>) {
        if self.less(other) {
            Some(Ordering::Less)
        } else if other.less(self) {
            Some(Ordering::Greater)
        } else {
            Some(Ordering::Equal)
        }
    }
}

impl vstd::std_specs::cmp::PartialOrdSpecImpl for LsmKey {
    open spec fn obeys_partial_cmp_spec() -> bool {
        true
    }

    open spec fn partial_cmp_spec(&self, other: &Self) -> Option<Ordering> {
        if key_less(*self, *other) {
            Some(Ordering::Less)
        } else if key_less(*other, *self) {
            Some(Ordering::Greater)
        } else {
            Some(Ordering::Equal)
        }
    }
}

pub proof fn lemma_key_bytes_len(key: LsmKey)
    ensures
        key_bytes(key).len() == 21,
{
    broadcast use lemma_be_bytes_len;

}

/// Two keys with the same bytes are the same key.
pub proof fn lemma_key_bytes_injective(a: LsmKey, b: LsmKey)
    requires
        key_bytes(a) == key_bytes(b),
    ensures
        a == b,
{
    broadcast use lemma_be_bytes_len;

    lemma_pow256_values();
    let (x, y) = (key_bytes(a), key_bytes(b));
    assert(x.subrange(0, 1) =~= be_bytes(a.namespace as nat, 1));
    assert(y.subrange(0, 1) =~= be_bytes(b.namespace as nat, 1));
    assert(x.subrange(1, 5) =~= be_bytes(a.partition_or_segment as nat, 4));
    assert(y.subrange(1, 5) =~= be_bytes(b.partition_or_segment as nat, 4));
    assert(x.subrange(5, 13) =~= be_bytes(a.doc_id as nat, 8));
    assert(y.subrange(5, 13) =~= be_bytes(b.doc_id as nat, 8));
    assert(x.subrange(13, 21) =~= be_bytes(a.lsn as nat, 8));
    assert(y.subrange(13, 21) =~= be_bytes(b.lsn as nat, 8));
    lemma_be_value_of_bytes(a.namespace as nat, 1);
    lemma_be_value_of_bytes(b.namespace as nat, 1);
    lemma_be_value_of_bytes(a.partition_or_segment as nat, 4);
    lemma_be_value_of_bytes(b.partition_or_segment as nat, 4);
    lemma_be_value_of_bytes(a.doc_id as nat, 8);
    lemma_be_value_of_bytes(b.doc_id as nat, 8);
    lemma_be_value_of_bytes(a.lsn as nat, 8);
    lemma_be_value_of_bytes(b.lsn as nat, 8);
}

proof fn lemma_field_order(x: nat, y: nat, n: nat)
    requires
        x < crate::bytes::pow256(n),
        y < crate::bytes::pow256(n),
    ensures
        lex_less(be_bytes(x, n), be_bytes(y, n)) <==> x < y,
        be_bytes(x, n) == be_bytes(y, n) <==> x == y,
{
    lemma_be_bytes_len(x, n);
    lemma_be_bytes_len(y, n);
    lemma_be_value_of_bytes(x, n);
    lemma_be_value_of_bytes(y, n);
    lemma_lex_less_is_value_order(be_bytes(x, n), be_bytes(y, n));
}

/// The order of the keys is the lexicographic order of their bytes.
pub proof fn law_key_order_is_byte_order(a: LsmKey, b: LsmKey)
    ensures
        key_less(a, b) <==> lex_less(key_bytes(a), key_bytes(b)),
{
    broadcast use lemma_be_bytes_len;

    lemma_pow256_values();
    let (a1, b1) = (be_bytes(a.namespace as nat, 1), be_bytes(b.namespace as nat, 1));
    let (a2, b2) = (be_bytes(a.partition_or_segment as nat, 4), be_bytes(b.partition_or_segment as nat, 4));
    let (a3, b3) = (be_bytes(a.doc_id as nat, 8), be_bytes(b.doc_id as nat, 8));
    let (a4, b4) = (be_bytes(a.lsn as nat, 8), be_bytes(b.lsn as nat, 8));
    lemma_field_order(a.namespace as nat, b.namespace as nat, 1);
    lemma_field_order(a.partition_or_segment as nat, b.partition_or_segment as nat, 4);
    lemma_field_order(a.doc_id as nat, b.doc_id as nat, 8);
    lemma_field_order(a.lsn as nat, b.lsn as nat, 8);
    lemma_lex_less_concat(a1, b1, a2, b2);
    lemma_lex_less_concat(a1 + a2, b1 + b2, a3, b3);
    lemma_lex_less_concat(a1 + a2 + a3, b1 + b2 + b3, a4, b4);
    if a1 + a2 + a3 == b1 + b2 + b3 {
        assert((a1 + a2 + a3).subrange(0, 1) =~= a1);
        assert((b1 + b2 + b3).subrange(0, 1) =~= b1);
        assert((a1 + a2 + a3).subrange(1, 5) =~= a2);
        assert((b1 + b2 + b3).subrange(1, 5) =~= b2);
        assert((a1 + a2 + a3).subrange(5, 13) =~= a3);
        assert((b1 + b2 + b3).subrange(5, 13) =~= b3);
    }
    if a1 + a2 == b1 + b2 {
        assert((a1 + a2).subrange(0, 1) =~= a1);
        assert((b1 + b2).subrange(0, 1) =~= b1);
        assert((a1 + a2).subrange(1, 5) =~= a2);
        assert((b1 + b2).subrange(1, 5) =~= b2);
    }
}

/// The order of the keys is a strict total order.
pub proof fn law_key_order_is_total(a: LsmKey, b: LsmKey, c: LsmKey)
    ensures
        !key_less(a, a),
        key_less(a, b) || key_less(b, a) || a == b,
        key_less(a, b) ==> !key_less(b, a),
        key_less(a, b) && key_less(b, c) ==> key_less(a, c),
{
}

/// A value: bytes, or the mark of a deletion.
#[derive(Debug, PartialEq, Eq)]
pub enum LsmValue {
    /// Stored bytes.
    Data(Vec<u8>),
    /// The slot was deleted.
    Tombstone,
}

/// A value is modelled by its bytes, a deletion by `None`.
impl View for LsmValue {
    type V = Option<Seq<u8>>;

    open spec fn view(&self) -> Option<Seq<u8>> {
        match self {
            LsmValue::Data(b) => Some(b@),
            LsmValue::Tombstone => None,
        }
    }
}

/// The bytes of a value: a tag, and for data the length and the bytes themselves.
pub open spec fn value_bytes(v: Option<Seq<u8>>) -> Seq<u8> {
    match v {
        Some(b) => seq![0u8] + be_bytes(b.len(), 4) + b,
        None => seq![1u8],
    }
}

/// Whether the length of a value fits its length field.
pub open spec fn value_fits(v: Option<Seq<u8>>) -> bool {
    v matches Some(b) ==> b.len() < 0x1_0000_0000
}

/// Why bytes are not a value.
#[derive(Clone, Copy, Debug, PartialEq, Eq, Structural)]
pub enum ValueError {
    /// There are no bytes at all.
    Empty,
    /// The length field of the data is cut off.
    DataTooShort,
    /// The data is cut off: `expected` bytes were announced and `got` follow.
    Truncated { expected: usize, got: usize },
    /// The tag is neither that of data nor that of a deletion.
    UnknownType { tag: u8 },
}

/// What decoding a value from the front of a buffer gives: the value with the number
/// of bytes that it takes, or the error.
pub open spec fn decode_value(buf: Seq<u8>) -> Result<(Option<Seq<u8>>, nat), ValueError> {
    if buf.len() == 0 {
        Err(ValueError::Empty)
    } else if buf[0] == 0 {
        if buf.len() < 5 {
            Err(ValueError::DataTooShort)
        } else {
            let len = be_value(buf.subrange(1, 5));
            if buf.len() < 5 + len {
                Err(ValueError::Truncated { expected: len as usize, got: (buf.len() - 5) as usize })
            } else {
                Ok((Some(buf.subrange(5, 5 + len as int)), 5 + len))
            }
        }
    } else if buf[0] == 1 {
        Ok((None, 1))
    } else {
        Err(ValueError::UnknownType { tag: buf[0] })
    }
}

impl Clone for LsmValue {
    fn clone(&self) -> (v: Self)
        ensures
            v@ == self@,
    {
        match self {
            LsmValue::Data(b) => LsmValue::Data(copy_range(b.as_slice(), 0, b.len())),
            LsmValue::Tombstone => LsmValue::Tombstone,
        }
    }
}

impl LsmValue {
    /// The tag of stored bytes.
    pub(crate) const TYPE_DATA: u8 = 0;

    /// The tag of a deletion.
    pub(crate) const TYPE_TOMBSTONE: u8 = 1;

    /// Whether this value marks a deletion.
    pub fn is_tombstone(&self) -> (r: bool)
        ensures
            r == (self@ is None),
    {
        match self {
            LsmValue::Data(_) => false,
            LsmValue::Tombstone => true,
        }
    }

    /// Appends the bytes of this value.
    pub fn push_to(&self, buf: &mut Vec<u8>)
        ensures
            final(buf)@ == old(buf)@ + value_bytes(self@),
    {
        match self {
            LsmValue::Data(b) => {
                buf.push(Self::TYPE_DATA);
                push_len(buf, b.len());
                push_bytes(buf, b.as_slice());
            },
            LsmValue::Tombstone => {
                buf.push(Self::TYPE_TOMBSTONE);
            },
        }
        assert(buf@ =~= old(buf)@ + value_bytes(self@));
    }

    /// The bytes of this value.
    pub fn encode(&self) -> (buf: Vec<u8>)
        ensures
            buf@ == value_bytes(self@),
    {
        let mut buf: Vec<u8> = Vec::new();
        self.push_to(&mut buf);
        assert(buf@ =~= value_bytes(self@));
        buf
    }

    /// The value at the front of a buffer.
    pub fn decode(buf: &[u8]) -> (r: Result<Self, ValueError>)
        ensures
            r is Ok <==> decode_value(buf@) is Ok,
            r matches Ok(v) ==> v@ == decode_value(buf@)->Ok_0.0,
            r matches Err(e) ==> decode_value(buf@) == Err::<(Option<Seq<u8>>, nat), ValueError>(e),
    {
        match Self::decode_with_len(buf) {
            Ok((v, _)) => Ok(v),
            Err(e) => Err(e),
        }
    }

    /// The value at the front of a buffer, and the number of bytes that it takes.
    pub fn decode_with_len(buf: &[u8]) -> (r: Result<(Self, usize), ValueError>)
        ensures
            r is Ok <==> decode_value(buf@) is Ok,
            r matches Ok(p) ==> decode_value(buf@) == Ok::<(Option<Seq<u8>>, nat), ValueError>((p.0@, p.1 as nat)),
            r matches Ok(p) ==> p.1 <= buf@.len(),
            r matches Err(e) ==> decode_value(buf@) == Err::<(Option<Seq<u8>>, nat), ValueError>(e),
    {
        if buf.len() == 0 {
            return Err(ValueError::Empty);
        }
        if buf[0] == Self::TYPE_DATA {
            if buf.len() < 5 {
                return Err(ValueError::DataTooShort);
            }
            let len: usize = read_u32(buf, 1) as usize;
            if buf.len() - 5 < len {
                return Err(ValueError::Truncated { expected: len, got: buf.len() - 5 });
            }
            Ok((LsmValue::Data(copy_range(buf, 5, 5 + len)), 5 + len))
        } else if buf[0] == Self::TYPE_TOMBSTONE {
            Ok((LsmValue::Tombstone, 1))
        } else {
            Err(ValueError::UnknownType { tag: buf[0] })
        }
    }

    /// The number of bytes that this value takes: five and the data, or one.
    pub fn encoded_len(&self) -> (len: usize)
        requires
            self@ matches Some(b) ==> b.len() + 5 <= usize::MAX,
        ensures
            len == value_bytes(self@).len(),
    {
        broadcast use lemma_be_bytes_len;

        match self {
            LsmValue::Data(b) => 1 + 4 + b.len(),
            LsmValue::Tombstone => 1,
        }
    }
}

/// Decoding gives back an encoded value and its length, whatever follows it.
pub proof fn law_value_round_trip(v: Option<Seq<u8>>, rest: Seq<u8>)
    requires
        value_fits(v),
    ensures
        decode_value(value_bytes(v) + rest) == Ok::<(Option<Seq<u8>>, nat), ValueError>((v, value_bytes(v).len())),
{
    broadcast use lemma_be_bytes_len;

    let buf = value_bytes(v) + rest;
    if let Some(b) = v {
        lemma_pow256_values();
        lemma_be_value_of_bytes(b.len(), 4);
        assert(buf.subrange(1, 5) =~= be_bytes(b.len(), 4));
        assert(buf.subrange(5, 5 + b.len() as int) =~= b);
    }
}

/// A key has 21 bytes, and two keys with the same bytes are the same key: decoding the bytes of a
/// key gives the key back.
pub proof fn law_key_round_trip(a: LsmKey, b: LsmKey)
    ensures
        key_bytes(a).len() == 21,
        key_bytes(a) == key_bytes(b) ==> a == b,
{
    lemma_key_bytes_len(a);
    if key_bytes(a) == key_bytes(b) {
        lemma_key_bytes_injective(a, b);
    }
}

/// The number that a stored value tells: its first eight bytes, or 0 if there are fewer.
pub open spec fn stored_number(value: Option<Seq<u8>>) -> u64 {
    match value {
        Some(bytes) => if bytes.len() >= 8 {
            be_value(bytes.subrange(0, 8)) as u64
        } else {
            0
        },
        None => 0,
    }
}

/// The model of a value that was read: `None` if there is none or if it was deleted.
pub open spec fn read_bytes(value: Option<LsmValue>) -> Option<Seq<u8>> {
    match value {
        Some(v) => v@,
        None => None,
    }
}

/// The number that a value tells that was read.
pub fn read_number(value: &Option<LsmValue>) -> (n: u64)
    ensures
        n == stored_number(read_bytes(*value)),
{
    match value {
        Some(LsmValue::Data(bytes)) => if bytes.len() >= 8 {
            read_u64(bytes.as_slice(), 0)
        } else {
            0
        },
        _ => 0,
    }
}

/// The value that tells a number.
pub fn number_value(n: u64) -> (value: LsmValue)
    ensures
        value@ == Some(be_bytes(n as nat, 8)),
{
    let mut bytes: Vec<u8> = Vec::new();
    push_u64(&mut bytes, n);
    assert(bytes@ =~= be_bytes(n as nat, 8));
    LsmValue::Data(bytes)
}

/// A number that is stored is the number that is read again.
pub proof fn law_number_round_trip(n: u64)
    ensures
        stored_number(Some(be_bytes(n as nat, 8))) == n,
{
    broadcast use lemma_be_bytes_len;

    lemma_pow256_values();
    let bytes = be_bytes(n as nat, 8);
    assert(bytes.subrange(0, 8) =~= bytes);
    lemma_be_value_of_bytes(n as nat, 8);
}

} // verus!
