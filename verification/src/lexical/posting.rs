//! Postings: where a term occurs in a field of a document.
//!
//! The bytes of a posting are the magic `SKLP`, the field id, the document id, the frequency of
//! the term, the length of the term and the term in UTF-8, the number of positions and the
//! positions; all integers are big-endian.

use vstd::prelude::*;
use vstd::utf8::{decode_utf8, encode_utf8, valid_utf8};

use crate::bytes::{be_bytes, be_value};
use crate::bytes::{bytes_equal, push_bytes, push_len, push_u32, push_u64, read_u32, read_u64};
use crate::bytes::{lemma_be_bytes_len, lemma_be_bytes_of_value, lemma_be_value_bound, lemma_be_value_of_bytes};
use crate::bytes::lemma_pow256_values;
use crate::text::text_of_utf8;

verus! {

/// The magic at the start of a posting: `SKLP`.
pub open spec fn posting_magic() -> Seq<u8> {
    seq![83u8, 75u8, 76u8, 80u8]
}

/// A posting: where a term occurs in a field of a document.
#[derive(Clone, Debug)]
pub struct Posting {
    pub field_id: u32,
    pub term: String,
    pub doc_id: u64,
    pub term_freq: u32,
    pub positions: Vec<u32>,
}

/// The model of a posting.
pub struct PostingView {
    pub field_id: u32,
    pub term: Seq<char>,
    pub doc_id: u64,
    pub term_freq: u32,
    pub positions: Seq<u32>,
}

impl View for Posting {
    type V = PostingView;

    open spec fn view(&self) -> PostingView {
        PostingView {
            field_id: self.field_id,
            term: self.term@,
            doc_id: self.doc_id,
            term_freq: self.term_freq,
            positions: self.positions@,
        }
    }
}

/// Why bytes are not a posting.
#[derive(Clone, Copy, Debug, PartialEq, Eq, Structural)]
pub enum PostingError {
    /// The bytes are fewer than the fields of fixed length take.
    TooShort { len: usize },
    /// The bytes do not start with the magic.
    BadMagic,
    /// The term is cut off.
    TruncatedTerm,
    /// The term is not in UTF-8.
    TermNotUtf8,
    /// The number of positions is cut off.
    TruncatedPositionCount,
    /// The positions are cut off.
    TruncatedPositions,
}

/// The bytes of a list of positions.
pub open spec fn positions_bytes(positions: Seq<u32>) -> Seq<u8>
    decreases positions.len(),
{
    if positions.len() == 0 {
        Seq::empty()
    } else {
        positions_bytes(positions.drop_last()) + be_bytes(positions.last() as nat, 4)
    }
}

/// The part of a posting in front of the term.
pub open spec fn posting_head(p: PostingView) -> Seq<u8> {
    posting_magic() + be_bytes(p.field_id as nat, 4) + be_bytes(p.doc_id as nat, 8) + be_bytes(p.term_freq as nat, 4)
        + be_bytes(encode_utf8(p.term).len(), 4)
}

/// The bytes of a posting.
pub open spec fn posting_bytes(p: PostingView) -> Seq<u8> {
    posting_head(p) + encode_utf8(p.term) + be_bytes(p.positions.len(), 4) + positions_bytes(p.positions)
}

/// The position number `i` behind an offset.
pub open spec fn position_at(bytes: Seq<u8>, start: int, i: int) -> u32 {
    be_value(bytes.subrange(start + 4 * i, start + 4 * i + 4)) as u32
}

/// The posting that bytes stand for, or why they stand for none. Bytes behind it do not count.
pub open spec fn decode_posting(bytes: Seq<u8>) -> Result<PostingView, PostingError> {
    if bytes.len() < 24 {
        Err(PostingError::TooShort { len: bytes.len() as usize })
    } else if bytes.subrange(0, 4) != posting_magic() {
        Err(PostingError::BadMagic)
    } else {
        let term_end = 24 + be_value(bytes.subrange(20, 24)) as int;
        if term_end > bytes.len() {
            Err(PostingError::TruncatedTerm)
        } else if !valid_utf8(bytes.subrange(24, term_end)) {
            Err(PostingError::TermNotUtf8)
        } else if term_end + 4 > bytes.len() {
            Err(PostingError::TruncatedPositionCount)
        } else {
            let count = be_value(bytes.subrange(term_end, term_end + 4));
            let start = term_end + 4;
            if start + 4 * count > bytes.len() {
                Err(PostingError::TruncatedPositions)
            } else {
                Ok(
                    PostingView {
                        field_id: be_value(bytes.subrange(4, 8)) as u32,
                        term: decode_utf8(bytes.subrange(24, term_end)),
                        doc_id: be_value(bytes.subrange(8, 16)) as u64,
                        term_freq: be_value(bytes.subrange(16, 20)) as u32,
                        positions: Seq::new(count, |i: int| position_at(bytes, start, i)),
                    },
                )
            }
        }
    }
}

impl Posting {
    /// The posting of a term with the given positions. Its frequency is their number; of a
    /// number that does not fit, the low-order bits.
    pub fn new(field_id: u32, term: String, doc_id: u64, positions: Vec<u32>) -> (p: Self)
        ensures
            p@ == (PostingView {
                field_id,
                term: term@,
                doc_id,
                term_freq: (positions@.len() % 0x1_0000_0000) as u32,
                positions: positions@,
            }),
    {
        let term_freq: u32 = (positions.len() as u64 % 0x1_0000_0000) as u32;
        Posting { field_id, term, doc_id, term_freq, positions }
    }

    /// The bytes of this posting.
    pub fn encode(&self) -> (r: Result<Vec<u8>, PostingError>)
        ensures
            r matches Ok(b) && b@ == posting_bytes(self@),
    {
        let magic: [u8; 4] = [83u8, 75u8, 76u8, 80u8];
        assert(magic@ =~= posting_magic());
        let mut buf: Vec<u8> = Vec::new();
        push_bytes(&mut buf, &magic);
        push_u32(&mut buf, self.field_id);
        push_u64(&mut buf, self.doc_id);
        push_u32(&mut buf, self.term_freq);
        let term = self.term.as_str().as_bytes();
        push_len(&mut buf, term.len());
        assert(term@ == encode_utf8(self@.term));
        assert(buf@ =~= posting_head(self@));
        push_bytes(&mut buf, term);
        push_len(&mut buf, self.positions.len());
        let ghost before = buf@;
        let ghost all = self.positions@;
        let mut i: usize = 0;
        assert(all.take(0) =~= Seq::<u32>::empty());
        assert(buf@ =~= before + positions_bytes(all.take(0)));
        while i < self.positions.len()
            invariant
                i <= self.positions@.len(),
                all == self.positions@,
                buf@ == before + positions_bytes(all.take(i as int)),
            decreases self.positions@.len() - i,
        {
            push_u32(&mut buf, self.positions[i]);
            proof {
                assert(all.take(i + 1).drop_last() =~= all.take(i as int));
                assert(buf@ =~= before + positions_bytes(all.take(i + 1)));
            }
            i = i + 1;
        }
        assert(all.take(i as int) =~= all);
        assert(buf@ =~= posting_bytes(self@));
        Ok(buf)
    }

    /// The posting that bytes stand for.
    pub fn decode(bytes: &[u8]) -> (r: Result<Self, PostingError>)
        ensures
            match decode_posting(bytes@) {
                Err(e) => r matches Err(f) && f == e,
                Ok(v) => r matches Ok(p) && p@ == v,
            },
    {
        let len: usize = bytes.len();
        if len < 24 {
            return Err(PostingError::TooShort { len });
        }
        let magic: [u8; 4] = [83u8, 75u8, 76u8, 80u8];
        assert(magic@ =~= posting_magic());
        let same: bool = bytes_equal(vstd::slice::slice_subrange(bytes, 0, 4), &magic);
        if !same {
            return Err(PostingError::BadMagic);
        }
        let field_id: u32 = read_u32(bytes, 4);
        let doc_id: u64 = read_u64(bytes, 8);
        let term_freq: u32 = read_u32(bytes, 16);
        let term_len: usize = read_u32(bytes, 20) as usize;
        if len - 24 < term_len {
            return Err(PostingError::TruncatedTerm);
        }
        let term_end: usize = 24 + term_len;
        let term = match text_of_utf8(vstd::slice::slice_subrange(bytes, 24, term_end)) {
            Some(term) => term,
            None => {
                return Err(PostingError::TermNotUtf8);
            },
        };
        if len - term_end < 4 {
            return Err(PostingError::TruncatedPositionCount);
        }
        let count: u32 = read_u32(bytes, term_end);
        let start: usize = term_end + 4;
        let mut positions: Vec<u32> = Vec::new();
        let mut n: u32 = 0;
        let mut cursor: usize = start;
        while n < count
            invariant
                len == bytes@.len(),
                n <= count,
                cursor <= len,
                cursor == start + 4 * n,
                positions@.len() == n,
                forall|i: int| 0 <= i < n ==> (#[trigger] positions@[i]) == position_at(bytes@, start as int, i),
                len >= 24,
                bytes@.subrange(0, 4) == posting_magic(),
                term_end == 24 + be_value(bytes@.subrange(20, 24)),
                start == term_end + 4,
                start <= len,
                valid_utf8(bytes@.subrange(24, term_end as int)),
                count as nat == be_value(bytes@.subrange(term_end as int, term_end + 4)),
            decreases count - n,
        {
            if len - cursor < 4 {
                return Err(PostingError::TruncatedPositions);
            }
            positions.push(read_u32(bytes, cursor));
            cursor = cursor + 4;
            n = n + 1;
        }
        let p = Posting { field_id, term, doc_id, term_freq, positions };
        assert(p@.positions =~= (decode_posting(bytes@)->Ok_0).positions);
        Ok(p)
    }
}

proof fn lemma_positions_bytes(positions: Seq<u32>)
    ensures
        positions_bytes(positions).len() == 4 * positions.len(),
        forall|i: int|
            0 <= i < positions.len() ==> position_at(positions_bytes(positions), 0, i) == #[trigger] positions[i],
    decreases positions.len(),
{
    broadcast use lemma_be_bytes_len;

    if positions.len() > 0 {
        let init = positions.drop_last();
        let buf = positions_bytes(positions);
        let head = positions_bytes(init);
        lemma_positions_bytes(init);
        lemma_pow256_values();
        assert forall|i: int| 0 <= i < positions.len() implies position_at(buf, 0, i) == #[trigger] positions[i] by {
            if i < init.len() {
                assert(init[i] == positions[i]);
                assert(buf.subrange(0 + 4 * i, 0 + 4 * i + 4) =~= head.subrange(0 + 4 * i, 0 + 4 * i + 4));
            } else {
                assert(buf.subrange(0 + 4 * i, 0 + 4 * i + 4) =~= be_bytes(positions[i] as nat, 4));
                lemma_be_value_of_bytes(positions[i] as nat, 4);
            }
        }
    }
}

/// Decoding gives back an encoded posting, whatever follows it.
pub proof fn law_posting_round_trip(p: PostingView, rest: Seq<u8>)
    requires
        encode_utf8(p.term).len() < 0x1_0000_0000,
        p.positions.len() < 0x1_0000_0000,
    ensures
        decode_posting(posting_bytes(p) + rest) == Ok::<PostingView, PostingError>(p),
{
    broadcast use lemma_be_bytes_len;

    lemma_pow256_values();
    let bytes = posting_bytes(p) + rest;
    let utf8 = encode_utf8(p.term);
    let tail = positions_bytes(p.positions);
    lemma_positions_bytes(p.positions);
    lemma_be_value_of_bytes(p.field_id as nat, 4);
    lemma_be_value_of_bytes(p.doc_id as nat, 8);
    lemma_be_value_of_bytes(p.term_freq as nat, 4);
    lemma_be_value_of_bytes(utf8.len(), 4);
    lemma_be_value_of_bytes(p.positions.len(), 4);
    let term_end = 24 + utf8.len() as int;
    let start = term_end + 4;
    assert(bytes.subrange(0, 4) =~= posting_magic());
    assert(bytes.subrange(4, 8) =~= be_bytes(p.field_id as nat, 4));
    assert(bytes.subrange(8, 16) =~= be_bytes(p.doc_id as nat, 8));
    assert(bytes.subrange(16, 20) =~= be_bytes(p.term_freq as nat, 4));
    assert(bytes.subrange(20, 24) =~= be_bytes(utf8.len(), 4));
    assert(bytes.subrange(24, term_end) =~= utf8);
    assert(bytes.subrange(term_end, start) =~= be_bytes(p.positions.len(), 4));
    vstd::utf8::encode_utf8_valid_utf8(p.term);
    vstd::utf8::encode_utf8_decode_utf8(p.term);
    let decoded = Seq::new(p.positions.len(), |i: int| position_at(bytes, start, i));
    assert forall|i: int| 0 <= i < p.positions.len() implies decoded[i] == #[trigger] p.positions[i] by {
        assert(bytes.subrange(start + 4 * i, start + 4 * i + 4) =~= tail.subrange(0 + 4 * i, 0 + 4 * i + 4));
        assert(position_at(tail, 0, i) == p.positions[i]);
    }
    assert(decoded =~= p.positions);
}

/// A posting that is decoded stands in the bytes as it is written, whatever follows it.
pub proof fn law_decoded_posting_was_written(bytes: Seq<u8>)
    ensures
        decode_posting(bytes) matches Ok(p) ==> posting_bytes(p).len() <= bytes.len() && bytes.take(
            posting_bytes(p).len() as int,
        ) == posting_bytes(p),
{
    broadcast use lemma_be_bytes_len;

    if let Ok(p) = decode_posting(bytes) {
        lemma_pow256_values();
        let term_end = 24 + be_value(bytes.subrange(20, 24)) as int;
        let start = term_end + 4;
        let count = be_value(bytes.subrange(term_end, start));
        let utf8 = bytes.subrange(24, term_end);
        vstd::utf8::decode_utf8_encode_utf8(utf8);
        lemma_be_value_bound(bytes.subrange(4, 8));
        lemma_be_value_bound(bytes.subrange(8, 16));
        lemma_be_value_bound(bytes.subrange(16, 20));
        lemma_be_bytes_of_value(bytes.subrange(4, 8));
        lemma_be_bytes_of_value(bytes.subrange(8, 16));
        lemma_be_bytes_of_value(bytes.subrange(16, 20));
        lemma_be_bytes_of_value(bytes.subrange(20, 24));
        lemma_be_bytes_of_value(bytes.subrange(term_end, start));
        lemma_read_positions(bytes, start, count);
        assert(posting_head(p) =~= bytes.subrange(0, 24));
        assert(bytes.take(start + 4 * count) =~= posting_bytes(p));
    }
}

proof fn lemma_read_positions(bytes: Seq<u8>, start: int, count: nat)
    requires
        0 <= start,
        start + 4 * count <= bytes.len(),
    ensures
        positions_bytes(Seq::new(count, |i: int| position_at(bytes, start, i))) == bytes.subrange(
            start,
            start + 4 * count,
        ),
    decreases count,
{
    broadcast use lemma_be_bytes_len;

    let positions = Seq::new(count, |i: int| position_at(bytes, start, i));
    if count == 0 {
        assert(bytes.subrange(start, start) =~= positions_bytes(positions));
    } else {
        let n = (count - 1) as nat;
        lemma_pow256_values();
        lemma_read_positions(bytes, start, n);
        assert(positions.drop_last() =~= Seq::new(n, |i: int| position_at(bytes, start, i)));
        let last = bytes.subrange(start + 4 * n, start + 4 * n + 4);
        lemma_be_value_bound(last);
        lemma_be_bytes_of_value(last);
        assert(positions.last() == position_at(bytes, start, n as int));
        assert(bytes.subrange(start, start + 4 * count) =~= bytes.subrange(start, start + 4 * n) + last);
    }
}

} // verus!
