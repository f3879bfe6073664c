//! Little-endian byte-level primitives shared by the decoder and encoder.

use vstd::prelude::*;

verus! {

/// The value of two little-endian bytes.
pub open spec fn le16(b0: u8, b1: u8) -> u16 {
    (b0 + 256 * b1) as u16
}

/// The two little-endian bytes of a 16-bit value.
pub open spec fn le16_bytes(x: u16) -> Seq<u8> {
    seq![(x % 256) as u8, (x / 256) as u8]
}

/// The value of four little-endian bytes.
pub open spec fn le32(b0: u8, b1: u8, b2: u8, b3: u8) -> u32 {
    (b0 + 256 * b1 + 65536 * b2 + 16777216 * b3) as u32
}

/// The four little-endian bytes of a 32-bit value.
pub open spec fn le32_bytes(x: u32) -> Seq<u8> {
    seq![
        (x % 256) as u8,
        ((x / 256) % 256) as u8,
        ((x / 65536) % 256) as u8,
        (x / 16777216) as u8,
    ]
}

/// A run of zero bytes.
pub open spec fn zeros(n: nat) -> Seq<u8> {
    Seq::new(n, |i: int| 0u8)
}

/// Reading two little-endian bytes inverts writing them.
pub proof fn lemma_le16_roundtrip(x: u16)
    ensures
        le16_bytes(x).len() == 2,
        le16(le16_bytes(x)[0], le16_bytes(x)[1]) == x,
{
}

/// Writing a 16-bit value restores the bytes it was read from.
pub proof fn lemma_le16_bytes_of(b0: u8, b1: u8)
    ensures
        le16_bytes(le16(b0, b1)) =~= seq![b0, b1],
{
    let x = le16(b0, b1);
    assert(x % 256 == b0 && x / 256 == b1) by (nonlinear_arith)
        requires
            x == b0 + 256 * b1,
            b0 < 256,
            b1 < 256,
    ;
}

/// Reading four little-endian bytes inverts writing them.
pub proof fn lemma_le32_roundtrip(x: u32)
    ensures
        le32_bytes(x).len() == 4,
        le32(le32_bytes(x)[0], le32_bytes(x)[1], le32_bytes(x)[2], le32_bytes(x)[3]) == x,
{
    assert(x % 256 + 256 * ((x / 256) % 256) + 65536 * ((x / 65536) % 256) + 16777216 * (x
        / 16777216) == x) by (nonlinear_arith)
        requires
            x <= 0xFFFF_FFFFu32,
    ;
}

/// Writing a 32-bit value restores the bytes it was read from.
pub proof fn lemma_le32_bytes_of(b0: u8, b1: u8, b2: u8, b3: u8)
    ensures
        le32_bytes(le32(b0, b1, b2, b3)) =~= seq![b0, b1, b2, b3],
{
    let x = le32(b0, b1, b2, b3);
    assert(x % 256 == b0 && (x / 256) % 256 == b1 && (x / 65536) % 256 == b2 && x / 16777216 == b3)
        by (nonlinear_arith)
        requires
            x == b0 + 256 * b1 + 65536 * b2 + 16777216 * b3,
            b0 < 256,
            b1 < 256,
            b2 < 256,
            b3 < 256,
    ;
}

/// Reads the 16-bit little-endian value at `pos`.
pub fn read_u16(buf: &[u8], pos: usize) -> (r: u16)
    requires
        pos + 2 <= buf@.len(),
    ensures
        r == le16(buf@[pos as int], buf@[pos as int + 1]),
{
    buf[pos] as u16 + 256 * (buf[pos + 1] as u16)
}

/// Reads the 32-bit little-endian value at `pos`.
pub fn read_u32(buf: &[u8], pos: usize) -> (r: u32)
    requires
        pos + 4 <= buf@.len(),
    ensures
        r == le32(buf@[pos as int], buf@[pos as int + 1], buf@[pos as int + 2], buf@[pos as int + 3]),
{
    buf[pos] as u32 + 256 * (buf[pos + 1] as u32) + 65536 * (buf[pos + 2] as u32) + 16777216 * (buf[
        pos + 3
    ] as u32)
}

/// Appends a 16-bit value as two little-endian bytes.
pub fn push_u16(out: &mut Vec<u8>, x: u16)
    ensures
        final(out)@ == old(out)@ + le16_bytes(x),
{
    out.push((x % 256) as u8);
    out.push((x / 256) as u8);
    assert(final(out)@ =~= old(out)@ + le16_bytes(x));
}

/// Appends a 32-bit value as four little-endian bytes.
pub fn push_u32(out: &mut Vec<u8>, x: u32)
    ensures
        final(out)@ == old(out)@ + le32_bytes(x),
{
    out.push((x % 256) as u8);
    out.push(((x / 256) % 256) as u8);
    out.push(((x / 65536) % 256) as u8);
    out.push((x / 16777216) as u8);
    assert(final(out)@ =~= old(out)@ + le32_bytes(x));
}

/// Appends `n` zero bytes.
pub fn push_zeros(out: &mut Vec<u8>, n: usize)
    ensures
        final(out)@ == old(out)@ + zeros(n as nat),
{
    let mut i: usize = 0;
    while i < n
        invariant
            i <= n,
            out@ == old(out)@ + zeros(i as nat),
        decreases n - i,
    {
        out.push(0);
        assert(out@ =~= old(out)@ + zeros(i as nat + 1));
        i = i + 1;
    }
}

} // verus!
