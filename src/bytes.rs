//! Little-endian integers, 4-byte alignment and raw byte copies, on a byte
//! slice read from a position and on a growable output buffer.

use vstd::prelude::*;

verus! {

/// The `u16` stored little-endian at index `i` of `b`.
pub open spec fn le16(b: Seq<u8>, i: int) -> u16 {
    (b[i] as int + 256 * (b[i + 1] as int)) as u16
}

/// The `u32` stored little-endian at index `i` of `b`.
pub open spec fn le32(b: Seq<u8>, i: int) -> u32 {
    (b[i] as int + 256 * (b[i + 1] as int) + 65536 * (b[i + 2] as int) + 16777216 * (
    b[i + 3] as int)) as u32
}

/// The two little-endian bytes of `v`.
pub open spec fn u16_bytes(v: u16) -> Seq<u8> {
    seq![(v % 256) as u8, (v / 256) as u8]
}

/// The four little-endian bytes of `v`.
pub open spec fn u32_bytes(v: u32) -> Seq<u8> {
    seq![(v % 256) as u8, ((v / 256) % 256) as u8, ((v / 65536) % 256) as u8, (v / 16777216) as u8]
}

/// How many bytes lead from position `n` to the next multiple of 4.
#[verifier::opaque]
pub open spec fn pad4(n: int) -> int {
    (4 - n % 4) % 4
}

/// The gap to the next multiple of 4 is below 4.
pub broadcast proof fn lemma_pad4_bounds(n: int)
    ensures
        0 <= #[trigger] pad4(n) <= 3,
{
    reveal(pad4);
}

/// `n` zero bytes.
pub open spec fn zeros(n: int) -> Seq<u8> {
    Seq::new(n as nat, |i: int| 0u8)
}

/// Relies on manual_serializer::load_u16le: the first two bytes of the slice
/// read as a little-endian `u16` (it panics on a shorter slice).
pub assume_specification[ manual_serializer::load_u16le ](src: &[u8]) -> (r: u16)
    requires
        src@.len() >= 2,
    ensures
        r == le16(src@, 0),
;

/// Relies on manual_serializer::load_u32le: the first four bytes of the slice
/// read as a little-endian `u32` (it panics on a shorter slice).
pub assume_specification[ manual_serializer::load_u32le ](src: &[u8]) -> (r: u32)
    requires
        src@.len() >= 4,
    ensures
        r == le32(src@, 0),
;

/// Reads the little-endian `u16` at `pos`; `None` when fewer than two bytes are left.
pub fn read_u16(data: &[u8], pos: usize) -> (r: Option<u16>)
    ensures
        pos + 2 <= data@.len() ==> r == Some(le16(data@, pos as int)),
        pos + 2 > data@.len() ==> r is None,
{
    if pos <= data.len() && data.len() - pos >= 2 {
        let s = &data[pos..pos + 2];
        let v = manual_serializer::load_u16le(s);
        assert(s@[0] == data@[pos as int] && s@[1] == data@[pos + 1]);
        Some(v)
    } else {
        None
    }
}

/// Reads the little-endian `u32` at `pos`; `None` when fewer than four bytes are left.
pub fn read_u32(data: &[u8], pos: usize) -> (r: Option<u32>)
    ensures
        pos + 4 <= data@.len() ==> r == Some(le32(data@, pos as int)),
        pos + 4 > data@.len() ==> r is None,
{
    if pos <= data.len() && data.len() - pos >= 4 {
        let s = &data[pos..pos + 4];
        let v = manual_serializer::load_u32le(s);
        assert(s@[0] == data@[pos as int] && s@[1] == data@[pos + 1] && s@[2] == data@[pos + 2]
            && s@[3] == data@[pos + 3]);
        Some(v)
    } else {
        None
    }
}

/// Copies `len` bytes from `pos`; `None` when fewer are left.
pub fn read_bytes(data: &[u8], pos: usize, len: usize) -> (r: Option<Vec<u8>>)
    ensures
        pos + len <= data@.len() ==> r is Some && r->0@ == data@.subrange(
            pos as int,
            pos + len,
        ),
        pos + len > data@.len() ==> r is None,
{
    if pos <= data.len() && data.len() - pos >= len {
        let mut v: Vec<u8> = Vec::new();
        v.extend_from_slice(&data[pos..pos + len]);
        Some(v)
    } else {
        None
    }
}

/// Appends the little-endian bytes of `v`.
pub fn put_u16(out: &mut Vec<u8>, v: u16)
    ensures
        final(out)@ == old(out)@ + u16_bytes(v),
{
    out.push((v % 256) as u8);
    out.push((v / 256) as u8);
    assert(final(out)@ =~= old(out)@ + u16_bytes(v));
}

/// Appends the little-endian bytes of `v`.
pub fn put_u32(out: &mut Vec<u8>, v: u32)
    ensures
        final(out)@ == old(out)@ + u32_bytes(v),
{
    out.push((v % 256) as u8);
    out.push(((v / 256) % 256) as u8);
    out.push(((v / 65536) % 256) as u8);
    out.push((v / 16777216) as u8);
    assert(final(out)@ =~= old(out)@ + u32_bytes(v));
}

/// Appends `b`.
pub fn put_bytes(out: &mut Vec<u8>, b: &[u8])
    ensures
        final(out)@ == old(out)@ + b@,
{
    out.extend_from_slice(b);
}

/// Appends zero bytes until the length of `out` is a multiple of 4.
pub fn put_align(out: &mut Vec<u8>)
    ensures
        final(out)@ == old(out)@ + zeros(pad4(old(out)@.len() as int)),
{
    reveal(pad4);
    let n = out.len() % 4;
    if n != 0 {
        let k: usize = 4 - n;
        let mut i: usize = 0;
        while i < k
            invariant
                0 <= i <= k,
                k == pad4(old(out)@.len() as int),
                out@ == old(out)@ + zeros(i as int),
            decreases k - i,
        {
            out.push(0u8);
            i = i + 1;
            assert(out@ =~= old(out)@ + zeros(i as int));
        }
    } else {
        assert(out@ =~= old(out)@ + zeros(0));
    }
}

/// Overwrites the two bytes at `at` with the little-endian bytes of `v`.
pub fn patch_u16(out: &mut Vec<u8>, at: usize, v: u16)
    requires
        at + 2 <= old(out)@.len(),
    ensures
        final(out)@ == old(out)@.subrange(0, at as int) + u16_bytes(v) + old(out)@.subrange(
            at + 2,
            old(out)@.len() as int,
        ),
{
    let _n = out.len();
    let next = at + 1;
    out[at] = (v % 256) as u8;
    out[next] = (v / 256) as u8;
    assert(final(out)@ =~= old(out)@.subrange(0, at as int) + u16_bytes(v) + old(out)@.subrange(
        at + 2,
        old(out)@.len() as int,
    ));
}

} // verus!
