//! Big-endian integers in byte strings.
//!
//! Every format of the library (keys, values, log records, tables, postings and
//! documents) writes its integers in big-endian order. This module says what such
//! a field is and reads and writes it.

use vstd::prelude::*;

verus! {

/// The `n` low-order base-256 digits of `v`, the most significant first.
pub open spec fn be_bytes(v: nat, n: nat) -> Seq<u8>
    decreases n,
{
    if n == 0 {
        Seq::empty()
    } else {
        be_bytes(v / 256, (n - 1) as nat).push((v % 256) as u8)
    }
}

/// The number that a byte string denotes in base 256, the most significant digit first.
pub open spec fn be_value(s: Seq<u8>) -> nat
    decreases s.len(),
{
    if s.len() == 0 {
        0
    } else {
        be_value(s.drop_last()) * 256 + s.last() as nat
    }
}

/// 256 to the power `n`: how many numbers fit in `n` bytes.
pub open spec fn pow256(n: nat) -> nat
    decreases n,
{
    if n == 0 {
        1
    } else {
        pow256((n - 1) as nat) * 256
    }
}

/// `a` comes before `b` in the lexicographic order of byte strings.
pub open spec fn lex_less(a: Seq<u8>, b: Seq<u8>) -> bool
    decreases a.len(),
{
    if b.len() == 0 {
        false
    } else if a.len() == 0 {
        true
    } else if a[0] != b[0] {
        a[0] < b[0]
    } else {
        lex_less(a.drop_first(), b.drop_first())
    }
}

pub proof fn lemma_pow256_values()
    ensures
        pow256(1) == 0x100,
        pow256(4) == 0x1_0000_0000,
        pow256(8) == 0x1_0000_0000_0000_0000,
{
    reveal_with_fuel(pow256, 9);
}

/// A field of `n` bytes has length `n`.
pub broadcast proof fn lemma_be_bytes_len(v: nat, n: nat)
    ensures
        (#[trigger] be_bytes(v, n)).len() == n,
    decreases n,
{
    if n > 0 {
        lemma_be_bytes_len(v / 256, (n - 1) as nat);
    }
}

/// A byte string of length `n` denotes a number below `256^n`.
pub proof fn lemma_be_value_bound(s: Seq<u8>)
    ensures
        be_value(s) < pow256(s.len()),
    decreases s.len(),
{
    if s.len() > 0 {
        lemma_be_value_bound(s.drop_last());
    }
}

/// Reading back a field gives the number that was written, where it fits.
pub proof fn lemma_be_value_of_bytes(v: nat, n: nat)
    requires
        v < pow256(n),
    ensures
        be_value(be_bytes(v, n)) == v,
    decreases n,
{
    if n > 0 {
        assert(v / 256 < pow256((n - 1) as nat));
        lemma_be_value_of_bytes(v / 256, (n - 1) as nat);
        lemma_be_bytes_len(v / 256, (n - 1) as nat);
        assert(be_bytes(v, n).drop_last() =~= be_bytes(v / 256, (n - 1) as nat));
    }
}

/// A byte string is the field of the number that it denotes.
pub proof fn lemma_be_bytes_of_value(s: Seq<u8>)
    ensures
        be_bytes(be_value(s), s.len()) == s,
    decreases s.len(),
{
    if s.len() > 0 {
        lemma_be_bytes_of_value(s.drop_last());
        assert(s =~= s.drop_last().push(s.last()));
    } else {
        assert(be_bytes(be_value(s), 0) =~= s);
    }
}

/// Only the low-order bytes of a number stand in its field.
pub proof fn lemma_be_bytes_mod(v: nat, w: nat, n: nat)
    requires
        v % pow256(n) == w % pow256(n),
    ensures
        be_bytes(v, n) == be_bytes(w, n),
    decreases n,
{
    if n > 0 {
        let p = pow256((n - 1) as nat);
        lemma_pow256_positive((n - 1) as nat);
        lemma_mod_split(v, p);
        lemma_mod_split(w, p);
        lemma_be_bytes_mod(v / 256, w / 256, (n - 1) as nat);
    }
}

proof fn lemma_pow256_positive(n: nat)
    ensures
        pow256(n) > 0,
    decreases n,
{
    if n > 0 {
        lemma_pow256_positive((n - 1) as nat);
    }
}

/// The remainder modulo `256 p` gives the last digit and the remainder of the rest modulo `p`.
proof fn lemma_mod_split(v: nat, p: nat)
    requires
        p > 0,
    ensures
        v % 256 == (v % (p * 256)) % 256,
        (v / 256) % p == (v % (p * 256)) / 256,
{
    vstd::arithmetic::div_mod::lemma_mod_breakdown(v as int, 256, p as int);
    assert(256 * p == p * 256) by (nonlinear_arith);
    let r = (v / 256) % p;
    assert(v % (p * 256) == 256 * r + v % 256);
}

/// The most significant byte weighs `256^(n-1)`.
proof fn lemma_be_value_first(s: Seq<u8>)
    requires
        s.len() > 0,
    ensures
        be_value(s) == s[0] as nat * pow256((s.len() - 1) as nat) + be_value(s.drop_first()),
    decreases s.len(),
{
    if s.len() == 1 {
        assert(s.drop_last() =~= Seq::<u8>::empty());
        assert(s.drop_first() =~= Seq::<u8>::empty());
        assert(be_value(s.drop_last()) == 0);
        assert(be_value(s.drop_first()) == 0);
        let q = pow256((s.len() - 1) as nat);
        assert(s[0] as nat * q == s[0] as nat) by (nonlinear_arith)
            requires
                q == 1,
        ;
    } else {
        let init = s.drop_last();
        lemma_be_value_first(init);
        assert(s.drop_first().drop_last() =~= init.drop_first());
        assert(s.drop_first().last() == s.last());
        let p = pow256((init.len() - 1) as nat);
        let q = pow256((s.len() - 1) as nat);
        assert(s[0] as nat * q == (s[0] as nat * p) * 256) by (nonlinear_arith)
            requires
                q == p * 256,
        ;
    }
}

/// Byte strings of one length are ordered as the numbers that they denote.
pub proof fn lemma_lex_less_is_value_order(a: Seq<u8>, b: Seq<u8>)
    requires
        a.len() == b.len(),
    ensures
        lex_less(a, b) <==> be_value(a) < be_value(b),
    decreases a.len(),
{
    if a.len() > 0 {
        lemma_be_value_first(a);
        lemma_be_value_first(b);
        lemma_be_value_bound(a.drop_first());
        lemma_be_value_bound(b.drop_first());
        let p = pow256((a.len() - 1) as nat);
        if a[0] == b[0] {
            lemma_lex_less_is_value_order(a.drop_first(), b.drop_first());
        } else if a[0] < b[0] {
            assert(a[0] as nat * p + p <= b[0] as nat * p) by (nonlinear_arith)
                requires
                    a[0] < b[0],
            ;
        } else {
            assert(b[0] as nat * p + p <= a[0] as nat * p) by (nonlinear_arith)
                requires
                    b[0] < a[0],
            ;
        }
    }
}

/// The order of two concatenations whose first parts have one length.
pub proof fn lemma_lex_less_concat(a: Seq<u8>, b: Seq<u8>, x: Seq<u8>, y: Seq<u8>)
    requires
        a.len() == b.len(),
    ensures
        lex_less(a + x, b + y) <==> lex_less(a, b) || (a == b && lex_less(x, y)),
    decreases a.len(),
{
    if a.len() == 0 {
        assert(a + x =~= x);
        assert(b + y =~= y);
        assert(a =~= b);
    } else {
        assert((a + x).drop_first() =~= a.drop_first() + x);
        assert((b + y).drop_first() =~= b.drop_first() + y);
        lemma_lex_less_concat(a.drop_first(), b.drop_first(), x, y);
        if a[0] == b[0] && a.drop_first() == b.drop_first() {
            assert(a =~= seq![a[0]] + a.drop_first());
            assert(b =~= seq![b[0]] + b.drop_first());
        }
    }
}

/// Appends the `n` low-order bytes of `v`.
pub fn push_be(buf: &mut Vec<u8>, v: u64, n: u8)
    ensures
        final(buf)@ == old(buf)@ + be_bytes(v as nat, n as nat),
    decreases n,
{
    if n > 0 {
        push_be(buf, v / 256, n - 1);
        buf.push((v % 256) as u8);
    }
    assert(buf@ =~= old(buf)@ + be_bytes(v as nat, n as nat));
}

/// Appends `v` as a field of four bytes.
pub fn push_u32(buf: &mut Vec<u8>, v: u32)
    ensures
        final(buf)@ == old(buf)@ + be_bytes(v as nat, 4),
{
    push_be(buf, v as u64, 4);
}

/// Appends `v` as a field of eight bytes.
pub fn push_u64(buf: &mut Vec<u8>, v: u64)
    ensures
        final(buf)@ == old(buf)@ + be_bytes(v as nat, 8),
{
    push_be(buf, v, 8);
}

/// Appends a length as a field of four bytes; of a length that does not fit, its
/// low-order bytes.
pub fn push_len(buf: &mut Vec<u8>, len: usize)
    ensures
        final(buf)@ == old(buf)@ + be_bytes(len as nat, 4),
{
    push_be(buf, len as u64, 4);
}

/// Appends a byte string.
pub fn push_bytes(buf: &mut Vec<u8>, bytes: &[u8])
    ensures
        final(buf)@ == old(buf)@ + bytes@,
{
    buf.extend_from_slice(bytes);
    assert(buf@ =~= old(buf)@ + bytes@);
}

/// Reads a field of four bytes.
pub fn read_u32(buf: &[u8], pos: usize) -> (v: u32)
    requires
        pos + 4 <= buf@.len(),
    ensures
        v as nat == be_value(buf@.subrange(pos as int, pos + 4)),
        be_bytes(v as nat, 4) == buf@.subrange(pos as int, pos + 4),
{
    let len: usize = buf.len();
    let mut v: u32 = 0;
    let mut i: usize = 0;
    while i < 4
        invariant
            i <= 4,
            pos + 4 <= len,
            len == buf@.len(),
            v as nat == be_value(buf@.subrange(pos as int, pos + i)),
            v < pow256(i as nat),
        decreases 4 - i,
    {
        proof {
            lemma_pow256_values();
            reveal_with_fuel(pow256, 5);
            assert(buf@.subrange(pos as int, pos + i + 1).drop_last() =~= buf@.subrange(pos as int, pos + i));
        }
        v = v * 256 + buf[pos + i] as u32;
        i = i + 1;
    }
    proof {
        lemma_be_bytes_of_value(buf@.subrange(pos as int, pos + 4));
    }
    v
}

/// Reads a field of eight bytes.
pub fn read_u64(buf: &[u8], pos: usize) -> (v: u64)
    requires
        pos + 8 <= buf@.len(),
    ensures
        v as nat == be_value(buf@.subrange(pos as int, pos + 8)),
        be_bytes(v as nat, 8) == buf@.subrange(pos as int, pos + 8),
{
    let len: usize = buf.len();
    let mut v: u64 = 0;
    let mut i: usize = 0;
    while i < 8
        invariant
            i <= 8,
            pos + 8 <= len,
            len == buf@.len(),
            v as nat == be_value(buf@.subrange(pos as int, pos + i)),
            v < pow256(i as nat),
        decreases 8 - i,
    {
        proof {
            reveal_with_fuel(pow256, 9);
            assert(buf@.subrange(pos as int, pos + i + 1).drop_last() =~= buf@.subrange(pos as int, pos + i));
        }
        v = v * 256 + buf[pos + i] as u64;
        i = i + 1;
    }
    proof {
        lemma_be_bytes_of_value(buf@.subrange(pos as int, pos + 8));
    }
    v
}

/// Copies a stretch of a byte string.
pub fn copy_range(buf: &[u8], from: usize, to: usize) -> (out: Vec<u8>)
    requires
        from <= to <= buf@.len(),
    ensures
        out@ == buf@.subrange(from as int, to as int),
{
    let out = vstd::slice::slice_to_vec(vstd::slice::slice_subrange(buf, from, to));
    out
}

/// Whether two byte strings are equal.
pub fn bytes_equal(a: &[u8], b: &[u8]) -> (r: bool)
    ensures
        r == (a@ == b@),
{
    if a.len() != b.len() {
        return false;
    }
    let mut i: usize = 0;
    while i < a.len()
        invariant
            i <= a@.len(),
            a@.len() == b@.len(),
            forall|j: int| 0 <= j < i ==> a@[j] == b@[j],
        decreases a@.len() - i,
    {
        if a[i] != b[i] {
            return false;
        }
        i = i + 1;
    }
    assert(a@ =~= b@);
    true
}

} // verus!
