//! Big-endian integer encodings and the calls into the `bytes` crate that
//! write and read them.

use bytes::Buf;
use bytes::BufMut;
use bytes::Bytes;
use vstd::prelude::*;

verus! {

/// The two bytes of `v`, most significant first.
pub open spec fn be16(v: u16) -> Seq<u8> {
    seq![(v / 256) as u8, (v % 256) as u8]
}

/// The number that two big-endian bytes stand for.
pub open spec fn be16_value(b0: u8, b1: u8) -> int {
    b0 * 256 + b1
}

/// The eight bytes of `v`, most significant first.
pub open spec fn be64(v: u64) -> Seq<u8> {
    Seq::new(8, |i: int| ((v as int / pow256(7 - i)) % 256) as u8)
}

/// `256` raised to `n`.
pub open spec fn pow256(n: int) -> int
    decreases n,
{
    if n <= 0 {
        1
    } else {
        256 * pow256(n - 1)
    }
}

/// The number that big-endian bytes stand for, most significant first.
pub open spec fn be_value(s: Seq<u8>) -> int
    decreases s.len(),
{
    if s.len() == 0 {
        0
    } else {
        be_value(s.drop_last()) * 256 + s.last()
    }
}

/// Powers of 256 are positive, and each is 256 times the one before.
pub proof fn lemma_pow256(n: int)
    requires
        n >= 0,
    ensures
        pow256(n) > 0,
        pow256(n + 1) == 256 * pow256(n),
    decreases n,
{
    if n > 0 {
        lemma_pow256(n - 1);
    }
}

/// The first `k` of the eight bytes of `v` stand for `v` without its last
/// `8 - k` bytes.
proof fn lemma_be64_prefix(v: u64, k: int)
    requires
        0 <= k <= 8,
    ensures
        be_value(be64(v).take(k)) == v as int / pow256(8 - k),
    decreases k,
{
    if k == 0 {
        assert(pow256(8) == 0x1_0000_0000_0000_0000) by {
            reveal_with_fuel(pow256, 9);
        }
        assert(be64(v).take(0) =~= Seq::<u8>::empty());
    } else {
        lemma_be64_prefix(v, k - 1);
        let t = be64(v).take(k);
        assert(t.drop_last() =~= be64(v).take(k - 1));
        lemma_pow256(8 - k);
        let c = pow256(8 - k);
        let x = v as int / c;
        assert(t.last() == be64(v)[k - 1]);
        assert(t.last() == (x % 256) as u8);
        vstd::arithmetic::div_mod::lemma_div_denominator(v as int, c, 256);
        assert(c * 256 == pow256(9 - k)) by (nonlinear_arith)
            requires
                pow256(9 - k) == 256 * c,
        ;
        vstd::arithmetic::div_mod::lemma_fundamental_div_mod(x, 256);
    }
}

/// Eight bytes read back give the number that was written.
pub proof fn lemma_be64_value(v: u64)
    ensures
        be64(v).len() == 8,
        be_value(be64(v)) == v,
{
    lemma_be64_prefix(v, 8);
    assert(be64(v).take(8) =~= be64(v));
    assert(pow256(0) == 1);
}

/// Two bytes read back give the number that was written.
pub proof fn lemma_be16_value(v: u16)
    ensures
        be16(v).len() == 2,
        be16_value(be16(v)[0], be16(v)[1]) == v,
{
}

/// A number read from two bytes is written back as the same two bytes.
pub proof fn lemma_be16_bytes(b0: u8, b1: u8)
    ensures
        0 <= be16_value(b0, b1) <= 65535,
        be16(be16_value(b0, b1) as u16) == seq![b0, b1],
{
    let v = be16_value(b0, b1);
    assert((v / 256) == b0 && v % 256 == b1) by (nonlinear_arith)
        requires
            v == b0 * 256 + b1,
            0 <= b0 < 256,
            0 <= b1 < 256,
    ;
    assert(be16(v as u16) =~= seq![b0, b1]);
}

#[verifier::external_type_specification]
#[verifier::external_body]
pub struct ExBytes(bytes::Bytes);

/// The bytes that a `Bytes` buffer holds.
pub uninterp spec fn bytes_view(b: Bytes) -> Seq<u8>;

/// `BufMut::put_slice` of the `bytes` crate on a `Vec<u8>`, which appends
/// all of `src` to the vector.
#[verifier::external_body]
pub(crate) fn put_slice(buf: &mut Vec<u8>, src: &[u8])
    ensures
        final(buf)@ == old(buf)@ + src@,
{
    buf.put_slice(src)
}

/// `BufMut::put_u16` of the `bytes` crate on a `Vec<u8>`, which appends the
/// two bytes of `n` in big-endian order.
#[verifier::external_body]
pub(crate) fn put_u16(buf: &mut Vec<u8>, n: u16)
    ensures
        final(buf)@ == old(buf)@ + be16(n),
{
    buf.put_u16(n)
}

/// `BufMut::put_u64` of the `bytes` crate on a `Vec<u8>`, which appends the
/// eight bytes of `n` in big-endian order.
#[verifier::external_body]
pub(crate) fn put_u64(buf: &mut Vec<u8>, n: u64)
    ensures
        final(buf)@ == old(buf)@ + be64(n),
{
    buf.put_u64(n)
}

/// `Buf::get_u16` of the `bytes` crate on a byte slice, which reads a
/// big-endian `u16` from the front and advances the slice past it; it panics
/// on fewer than two bytes.
#[verifier::external_body]
pub(crate) fn get_u16(buf: &mut &[u8]) -> (n: u16)
    requires
        old(buf)@.len() >= 2,
    ensures
        n == be16_value(old(buf)@[0], old(buf)@[1]),
        final(buf)@ == old(buf)@.skip(2),
{
    buf.get_u16()
}

/// `From<Vec<u8>> for Bytes` of the `bytes` crate, which takes over the
/// vector's bytes unchanged.
#[verifier::external_body]
pub(crate) fn bytes_from_vec(v: Vec<u8>) -> (b: Bytes)
    ensures
        bytes_view(b) == v@,
{
    Bytes::from(v)
}

/// `Deref` of `Bytes` into a byte slice, which shows the bytes it holds.
#[verifier::external_body]
pub(crate) fn bytes_as_slice(b: &Bytes) -> (s: &[u8])
    ensures
        s@ == bytes_view(*b),
{
    b.as_ref()
}

} // verus!
