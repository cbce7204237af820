// Checksums, digests and compression computed by outside crates, and the
// lower-case hexadecimal form of a digest.
use vstd::prelude::*;

use std::io::Write;

use flate2::write::DeflateEncoder;
use flate2::Compression;
use sha2::{Digest, Sha256};

use crate::ascii::{all_ascii, ascii_chars, string_from_ascii};

verus! {

// ===== Outside computations =====

/// One shift of the reflected CRC-32 (IEEE) register: polynomial 0xEDB88320.
pub open spec fn crc32_shift(c: u32) -> u32 {
    if c & 1 == 1 {
        (c >> 1u32) ^ 0xEDB8_8320u32
    } else {
        c >> 1u32
    }
}

/// The register after the byte `b` is fed in: xor it in, then eight shifts.
pub open spec fn crc32_step(c: u32, b: u8) -> u32 {
    crc32_shift(
        crc32_shift(
            crc32_shift(crc32_shift(crc32_shift(crc32_shift(crc32_shift(crc32_shift(c ^ (b as u32))))))),
        ),
    )
}

/// The register after `data`, starting from all ones.
pub open spec fn crc32_register(data: Seq<u8>) -> u32
    decreases data.len(),
{
    if data.len() == 0 {
        0xFFFF_FFFFu32
    } else {
        crc32_step(crc32_register(data.drop_last()), data.last())
    }
}

/// The CRC-32 (IEEE) checksum of `data`: the final register, inverted. This
/// is what crc32fast computes; the proofs here use it only as a value.
#[verifier::opaque]
pub open spec fn crc32(data: Seq<u8>) -> u32 {
    crc32_register(data) ^ 0xFFFF_FFFFu32
}

/// The SHA-256 digest of `data`, as sha2 computes it.
pub uninterp spec fn sha256(data: Seq<u8>) -> Seq<u8>;

/// The raw DEFLATE stream that flate2 writes for `data` at `Compression::best()`.
pub uninterp spec fn deflate_best(data: Seq<u8>) -> Seq<u8>;

/// `crc32fast::hash`: its result is the CRC-32 (IEEE) of the bytes it is
/// given, as `crc32` states it.
#[verifier::external_body]
pub(crate) fn crc32_hash(data: &[u8]) -> (r: u32)
    ensures
        r == crc32(data@),
{
    crc32fast::hash(data)
}

/// `<Sha256 as Digest>::digest`: its 32-byte result is the SHA-256 digest of
/// the bytes it is given, copied into an array.
#[verifier::external_body]
pub(crate) fn sha256_digest(data: &[u8]) -> (r: [u8; 32])
    ensures
        r@ == sha256(data@),
{
    Sha256::digest(data).into()
}

/// `flate2::write::DeflateEncoder` at `Compression::best()` over a `Vec`:
/// the bytes written by `write_all` and the stream completed by `finish`.
/// Writing into a `Vec` cannot fail, so neither call returns an error here.
#[verifier::external_body]
pub(crate) fn deflate_best_vec(data: &[u8]) -> (r: Vec<u8>)
    ensures
        r@ == deflate_best(data@),
{
    let mut encoder = DeflateEncoder::new(Vec::new(), Compression::best());
    encoder.write_all(data).expect("deflate write failed");
    encoder.finish().expect("deflate finish failed")
}

// ===== Lower-case hexadecimal =====

/// ASCII code of the lower-case hexadecimal digit `v` (0 to 15).
pub open spec fn hex_digit(v: int) -> u8 {
    if v < 10 {
        (48 + v) as u8
    } else {
        (87 + v) as u8
    }
}

/// Two lower-case hexadecimal digits per byte, high nibble first.
pub open spec fn lower_hex(bytes: Seq<u8>) -> Seq<u8> {
    Seq::new(
        2 * bytes.len(),
        |i: int|
            if i % 2 == 0 {
                hex_digit(bytes[i / 2] as int / 16)
            } else {
                hex_digit(bytes[i / 2] as int % 16)
            },
    )
}

fn hex_digit_of(v: u8) -> (r: u8)
    requires
        v < 16,
    ensures
        r == hex_digit(v as int),
        r < 128,
{
    if v < 10 {
        48 + v
    } else {
        87 + v
    }
}

/// The lower-case hexadecimal form of `bytes`, as `{:x}` prints a digest.
pub fn to_lower_hex(bytes: &[u8]) -> (r: String)
    ensures
        r@ == ascii_chars(lower_hex(bytes@)),
{
    let mut out: Vec<u8> = Vec::new();
    let mut i: usize = 0;
    while i < bytes.len()
        invariant
            i <= bytes@.len(),
            out@ == lower_hex(bytes@.take(i as int)),
            all_ascii(out@),
        decreases bytes@.len() - i,
    {
        let b = bytes[i];
        out.push(hex_digit_of(b / 16));
        out.push(hex_digit_of(b % 16));
        proof {
            let t = bytes@.take(i + 1);
            assert(bytes@.take(i as int) =~= t.take(i as int));
            assert forall|k: int| 0 <= k < 2 * i + 2 implies #[trigger] out@[k] == lower_hex(t)[k] by {
                if k < 2 * i {
                    assert(k / 2 < i);
                    assert(t[k / 2] == bytes@.take(i as int)[k / 2]);
                } else if k == 2 * i {
                    assert(k / 2 == i);
                } else {
                    assert(k / 2 == i);
                }
            }
            assert(out@ =~= lower_hex(t));
        }
        i = i + 1;
    }
    assert(bytes@.take(i as int) =~= bytes@);
    string_from_ascii(out)
}

} // verus!
