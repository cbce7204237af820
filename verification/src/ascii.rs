// ASCII text built byte by byte: decimal numbers, literal pieces, and the
// conversion of finished ASCII bytes into a `String`.
use vstd::prelude::*;

use crate::binary::write_bytes;

verus! {

/// Decimal digits of `n`, most significant first, with no leading zeros.
pub open spec fn decimal(n: nat) -> Seq<u8>
    decreases n,
{
    if n < 10 {
        seq![(48 + n) as u8]
    } else {
        decimal(n / 10) + seq![(48 + n % 10) as u8]
    }
}

/// Decimal digits of `n`, with zeros in front to make up at least `width` digits.
pub open spec fn zero_padded(n: nat, width: nat) -> Seq<u8> {
    let d = decimal(n);
    if d.len() >= width {
        d
    } else {
        Seq::new((width - d.len()) as nat, |i: int| 48u8) + d
    }
}

/// The bytes of an ASCII character sequence, one byte per character.
pub open spec fn ascii_bytes(chars: Seq<char>) -> Seq<u8> {
    Seq::new(chars.len(), |i: int| chars[i] as u8)
}

/// The characters of ASCII bytes, one character per byte.
pub open spec fn ascii_chars(bytes: Seq<u8>) -> Seq<char> {
    Seq::new(bytes.len(), |i: int| bytes[i] as char)
}

/// Every byte is an ASCII character.
pub open spec fn all_ascii(bytes: Seq<u8>) -> bool {
    forall|i: int| 0 <= i < bytes.len() ==> #[trigger] bytes[i] < 128
}

/// Decimal digits are ASCII and there is at least one of them.
pub proof fn lemma_decimal_ascii(n: nat)
    ensures
        all_ascii(decimal(n)),
        1 <= decimal(n).len(),
    decreases n,
{
    if n >= 10 {
        lemma_decimal_ascii(n / 10);
    }
}

/// `decimal(n)` has at most 20 digits for a 64-bit `n`.
pub proof fn lemma_decimal_len_bound(n: nat)
    requires
        n < 0x1_0000_0000_0000_0000,
    ensures
        decimal(n).len() <= 20,
{
    assert(pow10(20) == 100000000000000000000) by {
        reveal_with_fuel(pow10, 21);
    }
    lemma_decimal_len_pow(n, 20, 100000000000000000000);
}

proof fn lemma_decimal_len_pow(n: nat, k: nat, p: nat)
    requires
        n < p,
        1 <= k,
        p == pow10(k),
    ensures
        decimal(n).len() <= k,
    decreases k,
{
    if n >= 10 {
        if k == 1 {
            assert(p == 10) by {
                reveal_with_fuel(pow10, 2);
            }
        } else {
            assert(pow10(k) == 10 * pow10((k - 1) as nat));
            assert(n / 10 < pow10((k - 1) as nat));
            lemma_decimal_len_pow(n / 10, (k - 1) as nat, pow10((k - 1) as nat));
        }
    }
}

/// Ten to the power `k`.
pub open spec fn pow10(k: nat) -> nat
    decreases k,
{
    if k == 0 {
        1
    } else {
        10 * pow10((k - 1) as nat)
    }
}

/// Number of decimal digits of `n`.
pub fn decimal_len(n: u64) -> (r: usize)
    ensures
        r == decimal(n as nat).len(),
        1 <= r <= 20,
    decreases n,
{
    proof {
        lemma_decimal_len_bound(n as nat);
        lemma_decimal_ascii(n as nat);
    }
    if n < 10 {
        1
    } else {
        1 + decimal_len(n / 10)
    }
}

/// Appends the decimal digits of `n`.
pub fn push_decimal(buf: &mut Vec<u8>, n: u64)
    ensures
        final(buf)@ == old(buf)@ + decimal(n as nat),
    decreases n,
{
    if n >= 10 {
        push_decimal(buf, n / 10);
    }
    buf.push((48 + n % 10) as u8);
    assert(final(buf)@ =~= old(buf)@ + decimal(n as nat));
}

/// Appends the decimal digits of `n`, zero-padded to at least `width` digits.
pub fn push_zero_padded(buf: &mut Vec<u8>, n: u64, width: usize)
    ensures
        final(buf)@ == old(buf)@ + zero_padded(n as nat, width as nat),
{
    let len = decimal_len(n);
    let mut i: usize = len;
    while i < width
        invariant
            len <= i,
            len == decimal(n as nat).len(),
            i <= width ==> buf@ == old(buf)@ + Seq::new((i - len) as nat, |j: int| 48u8),
            i > width ==> i == len && buf@ == old(buf)@,
        decreases width - i,
    {
        buf.push(48u8);
        i = i + 1;
        assert(buf@ =~= old(buf)@ + Seq::new((i - len) as nat, |j: int| 48u8));
    }
    let ghost mid = buf@;
    push_decimal(buf, n);
    if len >= width {
        assert(final(buf)@ =~= old(buf)@ + zero_padded(n as nat, width as nat));
    } else {
        assert(final(buf)@ =~= old(buf)@ + zero_padded(n as nat, width as nat));
    }
}

/// Appends the bytes of an ASCII string.
pub fn push_ascii(buf: &mut Vec<u8>, s: &str)
    requires
        vstd::string::is_ascii(s),
    ensures
        final(buf)@ == old(buf)@ + ascii_bytes(s@),
{
    broadcast use vstd::string::is_ascii_spec_bytes;

    let b = s.as_bytes();
    assert(b@ =~= ascii_bytes(s@));
    write_bytes(buf, b);
}

/// `String::from_utf8` on bytes that are all ASCII: the string has one
/// character per byte, each with the byte's code.
#[verifier::external_body]
pub(crate) fn string_from_ascii(bytes: Vec<u8>) -> (s: String)
    requires
        all_ascii(bytes@),
    ensures
        s@ == ascii_chars(bytes@),
{
    String::from_utf8(bytes).unwrap()
}

} // verus!
