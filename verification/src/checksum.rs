//! Checksums: CRC-32 for chunk framing, Adler-32 for the zlib stream.

use vstd::prelude::*;
use vstd::arithmetic::div_mod::{
    lemma_add_mod_noop, lemma_add_mod_noop_right, lemma_mul_mod_noop_left,
    lemma_mul_mod_noop_right,
};
use crc::crc32;
use crc::Hasher32;

verus! {

/// The CRC-32 of a byte string, with the IEEE polynomial and the initial
/// value and final inversion that PNG prescribes.
pub uninterp spec fn crc32_ieee(bytes: Seq<u8>) -> u32;

/// The CRC-32 of `tag` followed by `data`.
///
/// Feeds both slices, in this order, to a `crc::crc32::Digest` made with
/// `crc32::IEEE` and reads `sum32`. The digest carries its value from one
/// `write` to the next, so the sum is that of the concatenation.
#[verifier::external_body]
pub(crate) fn crc32_of_chunk(tag: &[u8], data: &[u8]) -> (sum: u32)
    ensures
        sum == crc32_ieee(tag@ + data@),
{
    let mut digest = crc32::Digest::new(crc32::IEEE);
    digest.write(tag);
    digest.write(data);
    digest.sum32()
}

/// The modulus of Adler-32, the largest prime below 2^16.
pub const ADLER_BASE: u32 = 65521;

/// The low half of Adler-32: one more than the sum of the bytes, modulo
/// 65521.
pub open spec fn adler_low(bytes: Seq<u8>) -> int
    decreases bytes.len(),
{
    if bytes.len() == 0 {
        1
    } else {
        (adler_low(bytes.drop_last()) + bytes.last()) % 65521
    }
}

/// The high half of Adler-32: the sum, modulo 65521, of the low halves of
/// all the prefixes that hold at least one byte.
pub open spec fn adler_high(bytes: Seq<u8>) -> int
    decreases bytes.len(),
{
    if bytes.len() == 0 {
        0
    } else {
        (adler_high(bytes.drop_last()) + adler_low(bytes)) % 65521
    }
}

/// The Adler-32 checksum of a byte string.
pub open spec fn adler32(bytes: Seq<u8>) -> u32 {
    (adler_high(bytes) * 65536 + adler_low(bytes)) as u32
}

/// The checksum of two byte strings joined, from the checksum of each and
/// the length of the second.
pub open spec fn adler32_combined(first: u32, second: u32, second_len: nat) -> u32 {
    let a1 = first % 65536;
    let b1 = first / 65536;
    let a2 = second % 65536;
    let b2 = second / 65536;
    let a = (a1 + a2 - 1) % 65521;
    let b = (b1 + b2 + second_len * (a1 - 1)) % 65521;
    (b * 65536 + a) as u32
}

/// Both halves of a checksum lie below the modulus.
pub proof fn lemma_adler_bounds(bytes: Seq<u8>)
    ensures
        0 <= adler_low(bytes) < 65521,
        0 <= adler_high(bytes) < 65521,
        adler32(bytes) % 65536 == adler_low(bytes),
        adler32(bytes) / 65536 == adler_high(bytes),
    decreases bytes.len(),
{
    if bytes.len() > 0 {
        lemma_adler_bounds(bytes.drop_last());
    }
}

proof fn lemma_low_step(ax: int, ay0: int, v: int)
    ensures
        ((ax + ay0 - 1) % 65521 + v) % 65521 == (ax + (ay0 + v) % 65521 - 1) % 65521,
{
    lemma_add_mod_noop_right(v, ax + ay0 - 1, 65521);
    lemma_add_mod_noop_right(ax - 1, ay0 + v, 65521);
}

proof fn lemma_high_step(bx: int, by0: int, t0: int, k: int, ay: int)
    ensures
        ((bx + by0 + t0) % 65521 + (k + ay) % 65521) % 65521 == (bx + (by0 + ay) % 65521 + (t0
            + k)) % 65521,
{
    lemma_add_mod_noop(bx + by0 + t0, k + ay, 65521);
    lemma_add_mod_noop_right(bx + t0 + k, by0 + ay, 65521);
}

/// The halves of the checksum of `x + y` in terms of the halves of the
/// checksums of `x` and of `y`.
pub proof fn lemma_adler_halves_concat(x: Seq<u8>, y: Seq<u8>)
    ensures
        adler_low(x + y) == (adler_low(x) + adler_low(y) - 1) % 65521,
        adler_high(x + y) == (adler_high(x) + adler_high(y) + y.len() * (adler_low(x) - 1))
            % 65521,
    decreases y.len(),
{
    let ax = adler_low(x);
    let bx = adler_high(x);
    let k = ax - 1;
    if y.len() == 0 {
        assert(x + y =~= x);
        lemma_adler_bounds(x);
        assert(y.len() * k == 0) by (nonlinear_arith)
            requires
                y.len() == 0,
        ;
    } else {
        let y0 = y.drop_last();
        let v = y.last() as int;
        assert((x + y).drop_last() =~= x + y0);
        assert((x + y).last() == v);
        lemma_adler_halves_concat(x, y0);
        let n0 = y0.len() as int;
        let t0 = n0 * k;
        let ay0 = adler_low(y0);
        let by0 = adler_high(y0);
        let ay = adler_low(y);
        assert(ay == (ay0 + v) % 65521);
        assert(adler_low(x + y0) == (ax + ay0 - 1) % 65521);
        assert(adler_low(x + y) == (adler_low(x + y0) + v) % 65521);
        lemma_low_step(ax, ay0, v);
        assert(adler_low(x + y) == (ax + ay - 1) % 65521);

        assert(adler_high(x + y0) == (bx + by0 + t0) % 65521);
        assert(adler_high(x + y) == (adler_high(x + y0) + adler_low(x + y)) % 65521);
        assert(adler_high(y) == (by0 + ay) % 65521);
        lemma_high_step(bx, by0, t0, k, ay);
        assert(ax + ay - 1 == k + ay);
        assert(y.len() * k == t0 + k) by (nonlinear_arith)
            requires
                y.len() == n0 + 1,
                t0 == n0 * k,
        ;
    }
}

/// Joining the checksums of two byte strings gives the checksum of the
/// byte strings joined.
pub proof fn lemma_adler32_concat(x: Seq<u8>, y: Seq<u8>)
    ensures
        adler32_combined(adler32(x), adler32(y), y.len()) == adler32(x + y),
{
    lemma_adler_bounds(x);
    lemma_adler_bounds(y);
    lemma_adler_bounds(x + y);
    lemma_adler_halves_concat(x, y);
}

/// The Adler-32 checksum of `data`.
pub fn adler32_of(data: &[u8]) -> (sum: u32)
    ensures
        sum == adler32(data@),
{
    let n: usize = data.len();
    let mut a: u32 = 1;
    let mut b: u32 = 0;
    let mut i: usize = 0;
    while i < n
        invariant
            i <= n,
            n == data@.len(),
            a == adler_low(data@.take(i as int)),
            b == adler_high(data@.take(i as int)),
            a < 65521,
            b < 65521,
        decreases n - i,
    {
        proof {
            assert(data@.take(i as int + 1).drop_last() =~= data@.take(i as int));
            lemma_adler_bounds(data@.take(i as int + 1));
        }
        a = (a + (data[i] as u32)) % ADLER_BASE;
        b = (b + a) % ADLER_BASE;
        i += 1;
    }
    assert(data@.take(n as int) =~= data@);
    b * 65536 + a
}

/// The checksum of two byte strings joined, from the checksum `first` of
/// the first, the checksum `second` of the second and the length of the
/// second.
pub fn adler32_combine(first: u32, second: u32, second_len: u64) -> (sum: u32)
    ensures
        sum == adler32_combined(first, second, second_len as nat),
{
    let base: u64 = 65521;
    let rem: u64 = second_len % base;
    let a1: u64 = (first & 0xffff) as u64;
    let b1: u64 = (first >> 16) as u64;
    let a2: u64 = (second & 0xffff) as u64;
    let b2: u64 = (second >> 16) as u64;
    assert(first & 0xffff == first % 65536) by (bit_vector);
    assert(first >> 16 == first / 65536) by (bit_vector);
    assert(second & 0xffff == second % 65536) by (bit_vector);
    assert(second >> 16 == second / 65536) by (bit_vector);
    let shifted: u64 = a1 + base - 1;
    assert(rem * shifted <= 65520 * 131055) by (nonlinear_arith)
        requires
            rem <= 65520,
            shifted <= 131055,
    ;
    let a: u64 = (a1 + a2 + base - 1) % base;
    let b: u64 = (b1 + b2 + rem * shifted) % base;
    proof {
        let m = 65521int;
        let k = a1 as int - 1;
        let len = second_len as int;
        // rem * (k + m) is congruent to len * k
        assert((rem * shifted) % m == (len * k) % m) by {
            lemma_mul_mod_noop_left(len, shifted as int, m);
            assert((rem * shifted) % m == (len * shifted) % m);
            lemma_mul_mod_noop_right(len, shifted as int, m);
            assert(shifted as int % m == k % m);
            lemma_mul_mod_noop_right(len, k, m);
        }
        assert(b == (b1 + b2 + len * k) % m);
        assert(a == (a1 + a2 - 1) % m);
    }
    assert(b * 65536 + a <= u32::MAX);
    (b * 65536 + a) as u32
}

} // verus!
