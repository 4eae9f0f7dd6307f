//! Little-endian integer layouts: the byte-level vocabulary every table
//! codec is specified with, together with their round-trip lemmas.
use vstd::prelude::*;

verus! {

/// The two little-endian bytes of a 16-bit value.
pub open spec fn u16_le(v: u16) -> Seq<u8> {
    seq![(v & 0xff) as u8, ((v >> 8) & 0xff) as u8]
}

/// The 16-bit value two little-endian bytes denote.
pub open spec fn combine16(b0: u8, b1: u8) -> u16 {
    (b0 as u16) | ((b1 as u16) << 8)
}

/// The four little-endian bytes of a 32-bit value.
pub open spec fn u32_le(v: u32) -> Seq<u8> {
    seq![
        (v & 0xff) as u8,
        ((v >> 8) & 0xff) as u8,
        ((v >> 16) & 0xff) as u8,
        ((v >> 24) & 0xff) as u8,
    ]
}

/// The 32-bit value four little-endian bytes denote.
pub open spec fn combine32(b0: u8, b1: u8, b2: u8, b3: u8) -> u32 {
    (b0 as u32) | ((b1 as u32) << 8) | ((b2 as u32) << 16) | ((b3 as u32) << 24)
}

/// Reading back the two bytes of `v` yields `v`.
pub proof fn lemma_u16_le_roundtrip(v: u16)
    ensures
        combine16(u16_le(v)[0], u16_le(v)[1]) == v,
{
    assert(((v & 0xff) as u8 as u16) | ((((v >> 8) & 0xff) as u8 as u16) << 8) == v)
        by (bit_vector);
}

/// Reading back the four bytes of `v` yields `v`.
pub proof fn lemma_u32_le_roundtrip(v: u32)
    ensures
        combine32(u32_le(v)[0], u32_le(v)[1], u32_le(v)[2], u32_le(v)[3]) == v,
{
    assert(((v & 0xff) as u8 as u32) | ((((v >> 8) & 0xff) as u8 as u32) << 8)
        | ((((v >> 16) & 0xff) as u8 as u32) << 16) | ((((v >> 24) & 0xff) as u8 as u32) << 24)
        == v) by (bit_vector);
}

/// Append the little-endian bytes of a 16-bit value.
pub fn push_u16_le(out: &mut Vec<u8>, v: u16)
    ensures
        final(out)@ == old(out)@ + u16_le(v),
{
    let lo: u16 = v & 0xff;
    let hi: u16 = (v >> 8) & 0xff;
    assert(lo <= 0xff && hi <= 0xff) by (bit_vector)
        requires lo == v & 0xff && hi == (v >> 8) & 0xff;
    out.push(lo as u8);
    out.push(hi as u8);
    proof {
        assert(out@ =~= old(out)@ + u16_le(v));
    }
}

/// Append the little-endian bytes of a 32-bit value.
pub fn push_u32_le(out: &mut Vec<u8>, v: u32)
    ensures
        final(out)@ == old(out)@ + u32_le(v),
{
    let b0: u32 = v & 0xff;
    let b1: u32 = (v >> 8) & 0xff;
    let b2: u32 = (v >> 16) & 0xff;
    let b3: u32 = (v >> 24) & 0xff;
    assert(b0 <= 0xff && b1 <= 0xff && b2 <= 0xff && b3 <= 0xff) by (bit_vector)
        requires b0 == v & 0xff && b1 == (v >> 8) & 0xff && b2 == (v >> 16) & 0xff
            && b3 == (v >> 24) & 0xff;
    out.push(b0 as u8);
    out.push(b1 as u8);
    out.push(b2 as u8);
    out.push(b3 as u8);
    proof {
        assert(out@ =~= old(out)@ + u32_le(v));
    }
}

/// Read a 16-bit little-endian value at `pos`.
pub fn read_u16_le(data: &Vec<u8>, pos: usize) -> (r: u16)
    requires
        pos + 2 <= data@.len(),
    ensures
        r == combine16(data@[pos as int], data@[pos as int + 1]),
{
    let n = data.len();
    let b0 = data[pos];
    let b1 = data[pos + 1];
    (b0 as u16) | ((b1 as u16) << 8)
}

/// Read a 32-bit little-endian value at `pos`.
pub fn read_u32_le(data: &Vec<u8>, pos: usize) -> (r: u32)
    requires
        pos + 4 <= data@.len(),
    ensures
        r == combine32(data@[pos as int], data@[pos as int + 1], data@[pos as int + 2],
            data@[pos as int + 3]),
{
    let n = data.len();
    let b0 = data[pos];
    let b1 = data[pos + 1];
    let b2 = data[pos + 2];
    let b3 = data[pos + 3];
    (b0 as u32) | ((b1 as u32) << 8) | ((b2 as u32) << 16) | ((b3 as u32) << 24)
}

/// Copy `data[start .. start + len]` into a fresh vector.
pub fn copy_range(data: &Vec<u8>, start: usize, len: usize) -> (r: Vec<u8>)
    requires
        start + len <= data@.len(),
    ensures
        r@ == data@.subrange(start as int, start as int + len as int),
{
    let mut r: Vec<u8> = Vec::new();
    let n = data.len();
    let mut i: usize = 0;
    while i < len
        invariant
            i <= len,
            start + len <= n,
            n == data@.len(),
            r@ == data@.subrange(start as int, start as int + i as int),
        decreases len - i,
    {
        r.push(data[start + i]);
        i = i + 1;
        proof {
            assert(r@ =~= data@.subrange(start as int, start as int + i as int));
        }
    }
    r
}

/// Append all of `src` onto `out`.
pub fn extend_bytes(out: &mut Vec<u8>, src: &Vec<u8>)
    ensures
        final(out)@ == old(out)@ + src@,
{
    let mut i: usize = 0;
    while i < src.len()
        invariant
            i <= src@.len(),
            out@ == old(out)@ + src@.subrange(0, i as int),
        decreases src@.len() - i,
    {
        out.push(src[i]);
        i = i + 1;
        proof {
            assert(out@ =~= old(out)@ + src@.subrange(0, i as int));
        }
    }
    proof {
        assert(src@.subrange(0, src@.len() as int) =~= src@);
    }
}


/// The eight little-endian bytes of a 64-bit value.
pub open spec fn u64_le(v: u64) -> Seq<u8> {
    seq![
        (v & 0xff) as u8,
        ((v >> 8) & 0xff) as u8,
        ((v >> 16) & 0xff) as u8,
        ((v >> 24) & 0xff) as u8,
        ((v >> 32) & 0xff) as u8,
        ((v >> 40) & 0xff) as u8,
        ((v >> 48) & 0xff) as u8,
        ((v >> 56) & 0xff) as u8,
    ]
}

/// The 64-bit value eight little-endian bytes denote.
pub open spec fn combine64(b: Seq<u8>) -> u64
    recommends
        b.len() == 8,
{
    (b[0] as u64) | ((b[1] as u64) << 8) | ((b[2] as u64) << 16) | ((b[3] as u64) << 24)
        | ((b[4] as u64) << 32) | ((b[5] as u64) << 40) | ((b[6] as u64) << 48)
        | ((b[7] as u64) << 56)
}

/// Reading back the eight bytes of `v` yields `v`.
pub proof fn lemma_u64_le_roundtrip(v: u64)
    ensures
        combine64(u64_le(v)) == v,
{
    assert(((v & 0xff) as u8 as u64) | ((((v >> 8) & 0xff) as u8 as u64) << 8)
        | ((((v >> 16) & 0xff) as u8 as u64) << 16) | ((((v >> 24) & 0xff) as u8 as u64) << 24)
        | ((((v >> 32) & 0xff) as u8 as u64) << 32) | ((((v >> 40) & 0xff) as u8 as u64) << 40)
        | ((((v >> 48) & 0xff) as u8 as u64) << 48) | ((((v >> 56) & 0xff) as u8 as u64) << 56)
        == v) by (bit_vector);
}

/// Append the little-endian bytes of a 64-bit value.
pub fn push_u64_le(out: &mut Vec<u8>, v: u64)
    ensures
        final(out)@ == old(out)@ + u64_le(v),
{
    let b0: u64 = v & 0xff;
    let b1: u64 = (v >> 8) & 0xff;
    let b2: u64 = (v >> 16) & 0xff;
    let b3: u64 = (v >> 24) & 0xff;
    let b4: u64 = (v >> 32) & 0xff;
    let b5: u64 = (v >> 40) & 0xff;
    let b6: u64 = (v >> 48) & 0xff;
    let b7: u64 = (v >> 56) & 0xff;
    assert(b0 <= 0xff && b1 <= 0xff && b2 <= 0xff && b3 <= 0xff && b4 <= 0xff && b5 <= 0xff
        && b6 <= 0xff && b7 <= 0xff) by (bit_vector)
        requires b0 == v & 0xff && b1 == (v >> 8) & 0xff && b2 == (v >> 16) & 0xff
            && b3 == (v >> 24) & 0xff && b4 == (v >> 32) & 0xff && b5 == (v >> 40) & 0xff
            && b6 == (v >> 48) & 0xff && b7 == (v >> 56) & 0xff;
    out.push(b0 as u8);
    out.push(b1 as u8);
    out.push(b2 as u8);
    out.push(b3 as u8);
    out.push(b4 as u8);
    out.push(b5 as u8);
    out.push(b6 as u8);
    out.push(b7 as u8);
    proof {
        assert(out@ =~= old(out)@ + u64_le(v));
    }
}

/// Read a 64-bit little-endian value at `pos`.
pub fn read_u64_le(data: &Vec<u8>, pos: usize) -> (r: u64)
    requires
        pos + 8 <= data@.len(),
    ensures
        r == combine64(data@.subrange(pos as int, pos as int + 8)),
{
    let n = data.len();
    let b0 = data[pos];
    let b1 = data[pos + 1];
    let b2 = data[pos + 2];
    let b3 = data[pos + 3];
    let b4 = data[pos + 4];
    let b5 = data[pos + 5];
    let b6 = data[pos + 6];
    let b7 = data[pos + 7];
    let r = (b0 as u64) | ((b1 as u64) << 8) | ((b2 as u64) << 16) | ((b3 as u64) << 24) | ((
    b4 as u64) << 32) | ((b5 as u64) << 40) | ((b6 as u64) << 48) | ((b7 as u64) << 56);
    proof {
        let s = data@.subrange(pos as int, pos as int + 8);
        assert(s[0] == b0 && s[1] == b1 && s[2] == b2 && s[3] == b3 && s[4] == b4 && s[5] == b5
            && s[6] == b6 && s[7] == b7);
    }
    r
}

} // verus!
