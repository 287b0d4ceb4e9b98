//! Big-endian integers and UTF-8 checks over byte sequences.

use vstd::prelude::*;
use vstd::utf8::valid_utf8;

verus! {

/// The value of the two-byte big-endian integer at the start of `b`.
pub open spec fn be16(b: Seq<u8>) -> nat
    recommends
        b.len() >= 2,
{
    b[0] as nat * 256 + b[1] as nat
}

/// The two-byte big-endian encoding of `n`.
pub open spec fn be16_bytes(n: nat) -> Seq<u8>
    recommends
        n < 0x1_0000,
{
    seq![(n / 256) as u8, (n % 256) as u8]
}

/// The value of the eight-byte big-endian integer at the start of `b`.
pub open spec fn be64(b: Seq<u8>) -> u64
    recommends
        b.len() >= 8,
{
    ((b[0] as u64) << 56u64) | ((b[1] as u64) << 48u64) | ((b[2] as u64) << 40u64) | ((
    b[3] as u64) << 32u64) | ((b[4] as u64) << 24u64) | ((b[5] as u64) << 16u64) | ((
    b[6] as u64) << 8u64) | (b[7] as u64)
}

/// The eight-byte big-endian encoding of `x`.
pub open spec fn be64_bytes(x: u64) -> Seq<u8> {
    seq![
        (x >> 56u64) as u8,
        (x >> 48u64) as u8,
        (x >> 40u64) as u8,
        (x >> 32u64) as u8,
        (x >> 24u64) as u8,
        (x >> 16u64) as u8,
        (x >> 8u64) as u8,
        x as u8,
    ]
}

pub proof fn lemma_be16_round_trip(n: nat)
    requires
        n < 0x1_0000,
    ensures
        be16_bytes(n).len() == 2,
        be16(be16_bytes(n)) == n,
{
}

pub proof fn lemma_be16_bytes_of_be16(b: Seq<u8>)
    requires
        b.len() == 2,
    ensures
        be16_bytes(be16(b)) =~= b,
        be16(b) < 0x1_0000,
{
}

pub proof fn lemma_be64_round_trip(x: u64)
    ensures
        be64_bytes(x).len() == 8,
        be64(be64_bytes(x)) == x,
{
    let b = be64_bytes(x);
    assert(((((x >> 56u64) as u8) as u64) << 56u64) | ((((x >> 48u64) as u8) as u64) << 48u64)
        | ((((x >> 40u64) as u8) as u64) << 40u64) | ((((x >> 32u64) as u8) as u64) << 32u64)
        | ((((x >> 24u64) as u8) as u64) << 24u64) | ((((x >> 16u64) as u8) as u64) << 16u64)
        | ((((x >> 8u64) as u8) as u64) << 8u64) | ((x as u8) as u64) == x) by (bit_vector);
}

/// Reads the two-byte big-endian integer at the start of `b`.
pub fn read_u16_be(b: &[u8]) -> (r: u16)
    requires
        b@.len() >= 2,
    ensures
        r as nat == be16(b@),
{
    (b[0] as u16) * 256 + (b[1] as u16)
}

/// Reads the eight-byte big-endian integer at the start of `b`.
pub fn read_u64_be(b: &[u8]) -> (r: u64)
    requires
        b@.len() >= 8,
    ensures
        r == be64(b@),
{
    ((b[0] as u64) << 56u64) | ((b[1] as u64) << 48u64) | ((b[2] as u64) << 40u64) | ((
    b[3] as u64) << 32u64) | ((b[4] as u64) << 24u64) | ((b[5] as u64) << 16u64) | ((
    b[6] as u64) << 8u64) | (b[7] as u64)
}

/// Appends the two-byte big-endian encoding of `n` to `v`.
pub fn push_u16_be(v: &mut Vec<u8>, n: u16)
    ensures
        final(v)@ == old(v)@ + be16_bytes(n as nat),
{
    v.push((n / 256) as u8);
    v.push((n % 256) as u8);
    assert(final(v)@ =~= old(v)@ + be16_bytes(n as nat));
}

/// Appends the eight-byte big-endian encoding of `x` to `v`.
pub fn push_u64_be(v: &mut Vec<u8>, x: u64)
    ensures
        final(v)@ == old(v)@ + be64_bytes(x),
{
    v.push((x >> 56u64) as u8);
    v.push((x >> 48u64) as u8);
    v.push((x >> 40u64) as u8);
    v.push((x >> 32u64) as u8);
    v.push((x >> 24u64) as u8);
    v.push((x >> 16u64) as u8);
    v.push((x >> 8u64) as u8);
    v.push(x as u8);
    assert(final(v)@ =~= old(v)@ + be64_bytes(x));
}

/// Appends all of `src` to `v`.
pub fn push_all(v: &mut Vec<u8>, src: &[u8])
    ensures
        final(v)@ == old(v)@ + src@,
{
    let mut i: usize = 0;
    while i < src.len()
        invariant
            i <= src@.len(),
            v@ == old(v)@ + src@.subrange(0, i as int),
        decreases src@.len() - i,
    {
        v.push(src[i]);
        i = i + 1;
        assert(v@ =~= old(v)@ + src@.subrange(0, i as int));
    }
    assert(src@.subrange(0, src@.len() as int) =~= src@);
}

/// Relies on std::str::from_utf8: it returns `Ok` exactly when the bytes are
/// well-formed UTF-8.
#[verifier::external_body]
pub(crate) fn is_utf8(b: &[u8]) -> (r: bool)
    ensures
        r == valid_utf8(b@),
{
    std::str::from_utf8(b).is_ok()
}

} // verus!
