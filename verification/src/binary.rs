// Fixed-width integer encoding and decoding, big-endian and little-endian.
// Every buffer in this crate is a plain `Vec<u8>`, appended to by the
// writers here, whose results are stated byte for byte.
use vstd::prelude::*;

verus! {

// ===== Values held in byte sequences =====

/// Value of the big-endian unsigned integer in `s[off..off + 4]`.
pub open spec fn be32(s: Seq<u8>, off: int) -> int {
    s[off] * 16777216 + s[off + 1] * 65536 + s[off + 2] * 256 + s[off + 3]
}

/// Value of the big-endian unsigned integer in `s[off..off + 8]`.
pub open spec fn be64(s: Seq<u8>, off: int) -> int {
    be32(s, off) * 4294967296 + be32(s, off + 4)
}

/// Value of the little-endian unsigned integer in `s[off..off + 2]`.
pub open spec fn le16(s: Seq<u8>, off: int) -> int {
    s[off] + s[off + 1] * 256
}

/// Value of the little-endian unsigned integer in `s[off..off + 4]`.
pub open spec fn le32(s: Seq<u8>, off: int) -> int {
    s[off] + s[off + 1] * 256 + s[off + 2] * 65536 + s[off + 3] * 16777216
}

/// Value of the little-endian unsigned integer in `s[off..off + 8]`.
pub open spec fn le64(s: Seq<u8>, off: int) -> int {
    le32(s, off) + le32(s, off + 4) * 4294967296
}

// ===== Byte sequences that encode values =====

/// Big-endian encoding of `x` (taken modulo 2^16) in two bytes.
pub open spec fn u16_be_bytes(x: int) -> Seq<u8> {
    seq![(x / 256 % 256) as u8, (x % 256) as u8]
}

/// Big-endian encoding of `x` (taken modulo 2^32) in four bytes.
pub open spec fn u32_be_bytes(x: int) -> Seq<u8> {
    seq![(x / 16777216 % 256) as u8, (x / 65536 % 256) as u8, (x / 256 % 256) as u8, (x % 256) as u8]
}

/// Big-endian encoding of `x` in eight bytes.
pub open spec fn u64_be_bytes(x: int) -> Seq<u8> {
    u32_be_bytes(x / 4294967296) + u32_be_bytes(x % 4294967296)
}

/// Little-endian encoding of `x` (taken modulo 2^16) in two bytes.
pub open spec fn u16_le_bytes(x: int) -> Seq<u8> {
    seq![(x % 256) as u8, (x / 256 % 256) as u8]
}

/// Little-endian encoding of `x` (taken modulo 2^32) in four bytes.
pub open spec fn u32_le_bytes(x: int) -> Seq<u8> {
    seq![(x % 256) as u8, (x / 256 % 256) as u8, (x / 65536 % 256) as u8, (x / 16777216 % 256) as u8]
}

/// Little-endian encoding of `x` in eight bytes.
pub open spec fn u64_le_bytes(x: int) -> Seq<u8> {
    u32_le_bytes(x % 4294967296) + u32_le_bytes(x / 4294967296)
}

// ===== Decoding what was encoded =====

/// Reading back a big-endian 32-bit field gives the value that was encoded.
pub proof fn lemma_be32_of(s: Seq<u8>, off: int, x: int)
    requires
        0 <= off,
        off + 4 <= s.len(),
        s.subrange(off, off + 4) == u32_be_bytes(x),
        0 <= x < 0x1_0000_0000,
    ensures
        be32(s, off) == x,
{
    assert(s[off] == u32_be_bytes(x)[0]);
    assert(s[off + 1] == u32_be_bytes(x)[1]);
    assert(s[off + 2] == u32_be_bytes(x)[2]);
    assert(s[off + 3] == u32_be_bytes(x)[3]);
    assert(be32(s, off) == x) by (nonlinear_arith)
        requires
            s[off] == (x / 16777216 % 256) as u8,
            s[off + 1] == (x / 65536 % 256) as u8,
            s[off + 2] == (x / 256 % 256) as u8,
            s[off + 3] == (x % 256) as u8,
            0 <= x < 0x1_0000_0000,
    ;
}

/// Reading back a big-endian 64-bit field gives the value that was encoded.
pub proof fn lemma_be64_of(s: Seq<u8>, off: int, x: int)
    requires
        0 <= off,
        off + 8 <= s.len(),
        s.subrange(off, off + 8) == u64_be_bytes(x),
        0 <= x < 0x1_0000_0000_0000_0000,
    ensures
        be64(s, off) == x,
{
    let hi = x / 4294967296;
    let lo = x % 4294967296;
    assert(0 <= hi < 0x1_0000_0000) by (nonlinear_arith)
        requires
            hi == x / 4294967296,
            0 <= x < 0x1_0000_0000_0000_0000,
    ;
    assert(s.subrange(off, off + 4) =~= s.subrange(off, off + 8).subrange(0, 4));
    assert(s.subrange(off + 4, off + 8) =~= s.subrange(off, off + 8).subrange(4, 8));
    assert(u64_be_bytes(x).subrange(0, 4) =~= u32_be_bytes(hi));
    assert(u64_be_bytes(x).subrange(4, 8) =~= u32_be_bytes(lo));
    lemma_be32_of(s, off, hi);
    lemma_be32_of(s, off + 4, lo);
}

/// Reading back a little-endian 16-bit field gives the value that was encoded.
pub proof fn lemma_le16_of(s: Seq<u8>, off: int, x: int)
    requires
        0 <= off,
        off + 2 <= s.len(),
        s.subrange(off, off + 2) == u16_le_bytes(x),
        0 <= x < 0x1_0000,
    ensures
        le16(s, off) == x,
{
    assert(s[off] == u16_le_bytes(x)[0]);
    assert(s[off + 1] == u16_le_bytes(x)[1]);
    assert(le16(s, off) == x) by (nonlinear_arith)
        requires
            s[off] == (x % 256) as u8,
            s[off + 1] == (x / 256 % 256) as u8,
            0 <= x < 0x1_0000,
    ;
}

/// Reading back a little-endian 32-bit field gives the value that was encoded.
pub proof fn lemma_le32_of(s: Seq<u8>, off: int, x: int)
    requires
        0 <= off,
        off + 4 <= s.len(),
        s.subrange(off, off + 4) == u32_le_bytes(x),
        0 <= x < 0x1_0000_0000,
    ensures
        le32(s, off) == x,
{
    assert(s[off] == u32_le_bytes(x)[0]);
    assert(s[off + 1] == u32_le_bytes(x)[1]);
    assert(s[off + 2] == u32_le_bytes(x)[2]);
    assert(s[off + 3] == u32_le_bytes(x)[3]);
    assert(le32(s, off) == x) by (nonlinear_arith)
        requires
            s[off] == (x % 256) as u8,
            s[off + 1] == (x / 256 % 256) as u8,
            s[off + 2] == (x / 65536 % 256) as u8,
            s[off + 3] == (x / 16777216 % 256) as u8,
            0 <= x < 0x1_0000_0000,
    ;
}

/// Reading back a little-endian 64-bit field gives the value that was encoded.
pub proof fn lemma_le64_of(s: Seq<u8>, off: int, x: int)
    requires
        0 <= off,
        off + 8 <= s.len(),
        s.subrange(off, off + 8) == u64_le_bytes(x),
        0 <= x < 0x1_0000_0000_0000_0000,
    ensures
        le64(s, off) == x,
{
    let hi = x / 4294967296;
    let lo = x % 4294967296;
    assert(0 <= hi < 0x1_0000_0000) by (nonlinear_arith)
        requires
            hi == x / 4294967296,
            0 <= x < 0x1_0000_0000_0000_0000,
    ;
    assert(s.subrange(off, off + 4) =~= s.subrange(off, off + 8).subrange(0, 4));
    assert(s.subrange(off + 4, off + 8) =~= s.subrange(off, off + 8).subrange(4, 8));
    assert(u64_le_bytes(x).subrange(0, 4) =~= u32_le_bytes(lo));
    assert(u64_le_bytes(x).subrange(4, 8) =~= u32_le_bytes(hi));
    lemma_le32_of(s, off, lo);
    lemma_le32_of(s, off + 4, hi);
}

// ===== Reading =====

/// Big-endian `u32` at `data[off..off + 4]`.
pub fn read_u32_be(data: &[u8], off: usize) -> (r: u32)
    requires
        off + 4 <= data@.len(),
    ensures
        r == be32(data@, off as int),
{
    (data[off] as u32) * 16777216 + (data[off + 1] as u32) * 65536 + (data[off + 2] as u32) * 256
        + (data[off + 3] as u32)
}

/// Big-endian `u64` at `data[off..off + 8]`.
pub fn read_u64_be(data: &[u8], off: usize) -> (r: u64)
    requires
        off + 8 <= data@.len(),
    ensures
        r == be64(data@, off as int),
{
    let _len = data.len();
    let hi = read_u32_be(data, off) as u64;
    let lo = read_u32_be(data, off + 4) as u64;
    hi * 4294967296 + lo
}

/// Big-endian two's-complement `i32` at `data[off..off + 4]`.
pub fn read_i32_be(data: &[u8], off: usize) -> (r: i32)
    requires
        off + 4 <= data@.len(),
    ensures
        r == (be32(data@, off as int) as u32) as i32,
{
    read_u32_be(data, off) as i32
}

/// Little-endian `u16` at `data[off..off + 2]`.
pub fn read_u16_le(data: &[u8], off: usize) -> (r: u16)
    requires
        off + 2 <= data@.len(),
    ensures
        r == le16(data@, off as int),
{
    (data[off] as u16) + (data[off + 1] as u16) * 256
}

/// Little-endian `u32` at `data[off..off + 4]`.
pub fn read_u32_le(data: &[u8], off: usize) -> (r: u32)
    requires
        off + 4 <= data@.len(),
    ensures
        r == le32(data@, off as int),
{
    (data[off] as u32) + (data[off + 1] as u32) * 256 + (data[off + 2] as u32) * 65536
        + (data[off + 3] as u32) * 16777216
}

/// Little-endian `u64` at `data[off..off + 8]`.
pub fn read_u64_le(data: &[u8], off: usize) -> (r: u64)
    requires
        off + 8 <= data@.len(),
    ensures
        r == le64(data@, off as int),
{
    let _len = data.len();
    let lo = read_u32_le(data, off) as u64;
    let hi = read_u32_le(data, off + 4) as u64;
    lo + hi * 4294967296
}

// ===== Writing =====

/// Appends the big-endian encoding of `x`.
pub fn write_u16_be(buf: &mut Vec<u8>, x: u16)
    ensures
        final(buf)@ == old(buf)@ + u16_be_bytes(x as int),
{
    buf.push((x / 256) as u8);
    buf.push((x % 256) as u8);
    assert(final(buf)@ =~= old(buf)@ + u16_be_bytes(x as int));
}

/// Appends the big-endian encoding of `x`.
pub fn write_u32_be(buf: &mut Vec<u8>, x: u32)
    ensures
        final(buf)@ == old(buf)@ + u32_be_bytes(x as int),
{
    buf.push((x / 16777216) as u8);
    buf.push(((x / 65536) % 256) as u8);
    buf.push(((x / 256) % 256) as u8);
    buf.push((x % 256) as u8);
    assert(final(buf)@ =~= old(buf)@ + u32_be_bytes(x as int));
}

/// Appends the big-endian encoding of `x`.
pub fn write_u64_be(buf: &mut Vec<u8>, x: u64)
    ensures
        final(buf)@ == old(buf)@ + u64_be_bytes(x as int),
{
    write_u32_be(buf, (x / 4294967296) as u32);
    write_u32_be(buf, (x % 4294967296) as u32);
    assert(final(buf)@ =~= old(buf)@ + u64_be_bytes(x as int));
}

/// Appends the big-endian two's-complement encoding of `x`.
pub fn write_i32_be(buf: &mut Vec<u8>, x: i32)
    ensures
        final(buf)@ == old(buf)@ + u32_be_bytes((x as u32) as int),
{
    write_u32_be(buf, x as u32);
}

/// Appends the big-endian two's-complement encoding of `x`.
pub fn write_i64_be(buf: &mut Vec<u8>, x: i64)
    ensures
        final(buf)@ == old(buf)@ + u64_be_bytes((x as u64) as int),
{
    write_u64_be(buf, x as u64);
}

/// Appends the little-endian encoding of `x`.
pub fn write_u16_le(buf: &mut Vec<u8>, x: u16)
    ensures
        final(buf)@ == old(buf)@ + u16_le_bytes(x as int),
{
    buf.push((x % 256) as u8);
    buf.push((x / 256) as u8);
    assert(final(buf)@ =~= old(buf)@ + u16_le_bytes(x as int));
}

/// Appends the little-endian encoding of `x`.
pub fn write_u32_le(buf: &mut Vec<u8>, x: u32)
    ensures
        final(buf)@ == old(buf)@ + u32_le_bytes(x as int),
{
    buf.push((x % 256) as u8);
    buf.push(((x / 256) % 256) as u8);
    buf.push(((x / 65536) % 256) as u8);
    buf.push((x / 16777216) as u8);
    assert(final(buf)@ =~= old(buf)@ + u32_le_bytes(x as int));
}

/// Appends the little-endian encoding of `x`.
pub fn write_u64_le(buf: &mut Vec<u8>, x: u64)
    ensures
        final(buf)@ == old(buf)@ + u64_le_bytes(x as int),
{
    write_u32_le(buf, (x % 4294967296) as u32);
    write_u32_le(buf, (x / 4294967296) as u32);
    assert(final(buf)@ =~= old(buf)@ + u64_le_bytes(x as int));
}

/// Appends all of `bytes`.
pub fn write_bytes(buf: &mut Vec<u8>, bytes: &[u8])
    ensures
        final(buf)@ == old(buf)@ + bytes@,
{
    let mut i: usize = 0;
    while i < bytes.len()
        invariant
            i <= bytes@.len(),
            buf@ == old(buf)@ + bytes@.subrange(0, i as int),
        decreases bytes@.len() - i,
    {
        buf.push(bytes[i]);
        i = i + 1;
        assert(buf@ =~= old(buf)@ + bytes@.subrange(0, i as int));
    }
    assert(bytes@.subrange(0, i as int) =~= bytes@);
}

} // verus!
