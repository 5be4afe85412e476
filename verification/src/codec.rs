//! The wire encoding: a deterministic, self-describing-length binary format.
//! Every encoded value is either fixed-width (integers) or length-prefixed
//! (byte strings), so decoding is total over the layout each type defines.

use vstd::prelude::*;

verus! {

/// The eight big-endian bytes of a 64-bit integer.
pub open spec fn u64_bytes(x: u64) -> Seq<u8> {
    seq![
        (x >> 56) as u8,
        (x >> 48) as u8,
        (x >> 40) as u8,
        (x >> 32) as u8,
        (x >> 24) as u8,
        (x >> 16) as u8,
        (x >> 8) as u8,
        x as u8,
    ]
}

/// The four big-endian bytes of a 32-bit integer (used as a length prefix).
pub open spec fn u32_bytes(x: u32) -> Seq<u8> {
    seq![(x >> 24) as u8, (x >> 16) as u8, (x >> 8) as u8, x as u8]
}

/// A length-prefixed byte string: four bytes of length, then the bytes.
pub open spec fn bytes_enc(b: Seq<u8>) -> Seq<u8>
    recommends
        b.len() <= u32::MAX,
{
    u32_bytes(b.len() as u32) + b
}

/// The 64-bit integer eight big-endian bytes stand for. Opaque: callers
/// reason through the round-trip lemmas, never through the bit formula.
#[verifier::opaque]
pub open spec fn u64_of(b: Seq<u8>) -> u64
    recommends
        b.len() == 8,
{
    ((b[0] as u64) << 56) | ((b[1] as u64) << 48) | ((b[2] as u64) << 40) | ((b[3] as u64) << 32)
        | ((b[4] as u64) << 24) | ((b[5] as u64) << 16) | ((b[6] as u64) << 8) | (b[7] as u64)
}

/// The 32-bit integer four big-endian bytes stand for. Opaque: callers
/// reason through the round-trip lemmas, never through the bit formula.
#[verifier::opaque]
pub open spec fn u32_of(b: Seq<u8>) -> u32
    recommends
        b.len() == 4,
{
    ((b[0] as u32) << 24) | ((b[1] as u32) << 16) | ((b[2] as u32) << 8) | (b[3] as u32)
}

/// Encoding a 64-bit integer and reading the bytes back is the identity.
pub proof fn lemma_u64_round_trip(x: u64)
    ensures
        u64_of(u64_bytes(x)) == x,
{
    reveal(u64_of);
    lemma_u64_bytes_inverse(x);
}

/// Eight bytes are exactly the encoding of the integer they stand for.
pub proof fn lemma_u64_bytes_of(b: Seq<u8>)
    requires
        b.len() == 8,
    ensures
        u64_bytes(u64_of(b)) == b,
{
    reveal(u64_of);
    lemma_u64_decode(b[0], b[1], b[2], b[3], b[4], b[5], b[6], b[7]);
    assert(b =~= seq![b[0], b[1], b[2], b[3], b[4], b[5], b[6], b[7]]);
}

/// Encoding a 32-bit integer and reading the bytes back is the identity.
pub proof fn lemma_u32_round_trip(x: u32)
    ensures
        u32_of(u32_bytes(x)) == x,
{
    reveal(u32_of);
    assert(((((x >> 24) as u8) as u32) << 24) | ((((x >> 16) as u8) as u32) << 16) | ((((x >> 8)
        as u8) as u32) << 8) | ((x as u8) as u32) == x) by (bit_vector);
}

/// Four bytes are exactly the encoding of the integer they stand for.
pub proof fn lemma_u32_bytes_of(b: Seq<u8>)
    requires
        b.len() == 4,
    ensures
        u32_bytes(u32_of(b)) == b,
{
    reveal(u32_of);
    lemma_u32_decode(b[0], b[1], b[2], b[3]);
    assert(b =~= seq![b[0], b[1], b[2], b[3]]);
}

/// Reassembling a 64-bit integer from its eight big-endian bytes gives the
/// integer back: the encoding loses nothing.
pub proof fn lemma_u64_bytes_inverse(x: u64)
    ensures
        ((u64_bytes(x)[0] as u64) << 56) | ((u64_bytes(x)[1] as u64) << 48) | ((u64_bytes(x)[2]
            as u64) << 40) | ((u64_bytes(x)[3] as u64) << 32) | ((u64_bytes(x)[4] as u64) << 24) | (
        (u64_bytes(x)[5] as u64) << 16) | ((u64_bytes(x)[6] as u64) << 8) | (u64_bytes(x)[7]
            as u64) == x,
{
    assert((((x >> 56) as u8) as u64) << 56 | (((x >> 48) as u8) as u64) << 48 | (((x >> 40) as u8)
        as u64) << 40 | (((x >> 32) as u8) as u64) << 32 | (((x >> 24) as u8) as u64) << 24 | (((x
        >> 16) as u8) as u64) << 16 | (((x >> 8) as u8) as u64) << 8 | ((x as u8) as u64)
        == x) by (bit_vector);
}

/// Appends the eight big-endian bytes of `x` to `out`.
pub fn encode_u64(x: u64, out: &mut Vec<u8>)
    ensures
        final(out)@ == old(out)@ + u64_bytes(x),
{
    out.push((x >> 56) as u8);
    out.push((x >> 48) as u8);
    out.push((x >> 40) as u8);
    out.push((x >> 32) as u8);
    out.push((x >> 24) as u8);
    out.push((x >> 16) as u8);
    out.push((x >> 8) as u8);
    out.push(x as u8);
    assert(out@ =~= old(out)@ + u64_bytes(x));
}

/// Reads eight big-endian bytes at `pos`; fails if the input is too short.
/// On success the bytes at `pos` are exactly the encoding of the result.
pub fn decode_u64(bytes: &Vec<u8>, pos: usize) -> (r: crate::Result<u64>)
    ensures
        r is Ok <==> pos + 8 <= bytes@.len(),
        r matches Ok(x) ==> bytes@.subrange(pos as int, pos + 8) == u64_bytes(x),
{
    if pos >= bytes.len() || bytes.len() - pos < 8 {
        return Err(crate::Error::Decode);
    }
    let b0 = bytes[pos];
    let b1 = bytes[pos + 1];
    let b2 = bytes[pos + 2];
    let b3 = bytes[pos + 3];
    let b4 = bytes[pos + 4];
    let b5 = bytes[pos + 5];
    let b6 = bytes[pos + 6];
    let b7 = bytes[pos + 7];
    let x = ((b0 as u64) << 56) | ((b1 as u64) << 48) | ((b2 as u64) << 40) | ((b3 as u64) << 32)
        | ((b4 as u64) << 24) | ((b5 as u64) << 16) | ((b6 as u64) << 8) | (b7 as u64);
    proof {
        lemma_u64_decode(b0, b1, b2, b3, b4, b5, b6, b7);
        assert(bytes@.subrange(pos as int, pos + 8) =~= u64_bytes(x));
    }
    Ok(x)
}

/// The bytes of a reassembled integer are the bytes it was assembled from.
proof fn lemma_u64_decode(b0: u8, b1: u8, b2: u8, b3: u8, b4: u8, b5: u8, b6: u8, b7: u8)
    ensures
        ({
            let x = ((b0 as u64) << 56) | ((b1 as u64) << 48) | ((b2 as u64) << 40) | ((b3 as u64)
                << 32) | ((b4 as u64) << 24) | ((b5 as u64) << 16) | ((b6 as u64) << 8) | (b7
                as u64);
            u64_bytes(x) == seq![b0, b1, b2, b3, b4, b5, b6, b7]
        }),
{
    let x = ((b0 as u64) << 56) | ((b1 as u64) << 48) | ((b2 as u64) << 40) | ((b3 as u64) << 32)
        | ((b4 as u64) << 24) | ((b5 as u64) << 16) | ((b6 as u64) << 8) | (b7 as u64);
    assert((x >> 56) as u8 == b0 && (x >> 48) as u8 == b1 && (x >> 40) as u8 == b2 && (x >> 32)
        as u8 == b3 && (x >> 24) as u8 == b4 && (x >> 16) as u8 == b5 && (x >> 8) as u8 == b6 && x
        as u8 == b7) by (bit_vector)
        requires
            x == ((b0 as u64) << 56) | ((b1 as u64) << 48) | ((b2 as u64) << 40) | ((b3 as u64)
                << 32) | ((b4 as u64) << 24) | ((b5 as u64) << 16) | ((b6 as u64) << 8) | (b7
                as u64),
    ;
    assert(u64_bytes(x) =~= seq![b0, b1, b2, b3, b4, b5, b6, b7]);
}

/// Appends the four big-endian bytes of `x` to `out`.
pub fn encode_u32(x: u32, out: &mut Vec<u8>)
    ensures
        final(out)@ == old(out)@ + u32_bytes(x),
{
    out.push((x >> 24) as u8);
    out.push((x >> 16) as u8);
    out.push((x >> 8) as u8);
    out.push(x as u8);
    assert(out@ =~= old(out)@ + u32_bytes(x));
}

/// Reads four big-endian bytes at `pos`; fails if the input is too short.
pub fn decode_u32(bytes: &Vec<u8>, pos: usize) -> (r: crate::Result<u32>)
    ensures
        r is Ok <==> pos + 4 <= bytes@.len(),
        r matches Ok(x) ==> bytes@.subrange(pos as int, pos + 4) == u32_bytes(x),
{
    if pos >= bytes.len() || bytes.len() - pos < 4 {
        return Err(crate::Error::Decode);
    }
    let b0 = bytes[pos];
    let b1 = bytes[pos + 1];
    let b2 = bytes[pos + 2];
    let b3 = bytes[pos + 3];
    let x = ((b0 as u32) << 24) | ((b1 as u32) << 16) | ((b2 as u32) << 8) | (b3 as u32);
    proof {
        lemma_u32_decode(b0, b1, b2, b3);
        assert(bytes@.subrange(pos as int, pos + 4) =~= u32_bytes(x));
    }
    Ok(x)
}

/// The bytes of a reassembled 32-bit integer are the bytes it came from.
proof fn lemma_u32_decode(b0: u8, b1: u8, b2: u8, b3: u8)
    ensures
        ({
            let x = ((b0 as u32) << 24) | ((b1 as u32) << 16) | ((b2 as u32) << 8) | (b3 as u32);
            u32_bytes(x) == seq![b0, b1, b2, b3]
        }),
{
    let x = ((b0 as u32) << 24) | ((b1 as u32) << 16) | ((b2 as u32) << 8) | (b3 as u32);
    assert((x >> 24) as u8 == b0 && (x >> 16) as u8 == b1 && (x >> 8) as u8 == b2 && x as u8 == b3)
        by (bit_vector)
        requires
            x == ((b0 as u32) << 24) | ((b1 as u32) << 16) | ((b2 as u32) << 8) | (b3 as u32),
    ;
    assert(u32_bytes(x) =~= seq![b0, b1, b2, b3]);
}

/// Appends a byte string to `out` as it stands, without a length prefix.
pub fn append_bytes(out: &mut Vec<u8>, b: &[u8])
    ensures
        final(out)@ == old(out)@ + b@,
{
    let mut i: usize = 0;
    while i < b.len()
        invariant
            i <= b@.len(),
            out@ == old(out)@ + b@.subrange(0, i as int),
        decreases b@.len() - i,
    {
        out.push(b[i]);
        i += 1;
        assert(out@ =~= old(out)@ + b@.subrange(0, i as int));
    }
    assert(out@ =~= old(out)@ + b@);
}

/// Appends a length-prefixed byte string to `out`.
pub fn encode_bytes(b: &Vec<u8>, out: &mut Vec<u8>)
    requires
        b@.len() <= u32::MAX,
    ensures
        final(out)@ == old(out)@ + bytes_enc(b@),
{
    encode_u32(b.len() as u32, out);
    let mut i: usize = 0;
    while i < b.len()
        invariant
            i <= b@.len(),
            b@.len() <= u32::MAX,
            out@ == old(out)@ + u32_bytes(b@.len() as u32) + b@.subrange(0, i as int),
        decreases b@.len() - i,
    {
        out.push(b[i]);
        i += 1;
        assert(out@ =~= old(out)@ + u32_bytes(b@.len() as u32) + b@.subrange(0, i as int));
    }
    assert(b@.subrange(0, b@.len() as int) =~= b@);
    assert(out@ =~= old(out)@ + bytes_enc(b@));
}

/// Reads a length-prefixed byte string at `pos`. On success returns the bytes
/// and the position just past them; the consumed slice is exactly the
/// encoding of the returned bytes.
pub fn decode_bytes(bytes: &Vec<u8>, pos: usize) -> (r: crate::Result<(Vec<u8>, usize)>)
    ensures
        r is Ok <==> pos + 4 <= bytes@.len() && pos + 4 + u32_of(
            bytes@.subrange(pos as int, pos + 4),
        ) <= bytes@.len(),
        r matches Ok(p) ==> {
            &&& pos + 4 + p.0@.len() == p.1 <= bytes@.len()
            &&& p.0@.len() == u32_of(bytes@.subrange(pos as int, pos + 4))
            &&& p.0@ == bytes@.subrange(pos + 4, p.1 as int)
            &&& bytes@.subrange(pos as int, p.1 as int) == bytes_enc(p.0@)
        },
{
    let total = bytes.len();
    let len32 = match decode_u32(bytes, pos) {
        Ok(x) => x,
        Err(e) => {
            return Err(e);
        },
    };
    proof {
        lemma_u32_round_trip(len32);
        assert(u32_of(bytes@.subrange(pos as int, pos + 4)) == len32);
    }
    if len32 as u64 > usize::MAX as u64 {
        return Err(crate::Error::Decode);
    }
    let len = len32 as usize;
    let start = match pos.checked_add(4) {
        Some(s) => s,
        None => {
            return Err(crate::Error::Decode);
        },
    };
    let end = match start.checked_add(len) {
        Some(e) => e,
        None => {
            return Err(crate::Error::Decode);
        },
    };
    if end > total {
        return Err(crate::Error::Decode);
    }
    let mut out: Vec<u8> = Vec::new();
    let mut i: usize = start;
    while i < end
        invariant
            start <= i <= end <= bytes@.len(),
            out@ == bytes@.subrange(start as int, i as int),
        decreases end - i,
    {
        out.push(bytes[i]);
        i += 1;
        assert(out@ =~= bytes@.subrange(start as int, i as int));
    }
    proof {
        assert(bytes@.subrange(pos as int, end as int) =~= bytes@.subrange(pos as int, pos + 4)
            + bytes@.subrange(start as int, end as int));
        assert(bytes@.subrange(pos as int, end as int) =~= bytes_enc(out@));
    }
    Ok((out, end))
}

} // verus!
