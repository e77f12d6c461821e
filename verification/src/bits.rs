//! Byte-level primitives shared by the header and record decoders:
//! big-endian integer reads, the additive and XOR checksums, and
//! single-bit operations on bytes and byte arrays.

use vstd::prelude::*;

verus! {

/// Whether bit `k` (counted from the least significant end) of `x` is set.
pub open spec fn bit_of(x: u8, k: u32) -> bool
    recommends
        k < 8,
{
    (x >> k) & 1 == 1
}

/// Whether bit `i` of a byte array is set, with `i` indexing the flat bit
/// space: byte `i / 8`, bit `i % 8` within that byte.
pub open spec fn bit_in(bytes: Seq<u8>, i: int) -> bool
    recommends
        0 <= i,
        i / 8 < bytes.len(),
{
    bit_of(bytes[i / 8], (i % 8) as u32)
}

/// The number of set bits of `x` whose position lies in `[lo, hi)`.
pub open spec fn count_bits(x: u8, lo: int, hi: int) -> int
    decreases hi - lo,
{
    if hi <= lo {
        0
    } else {
        count_bits(x, lo, hi - 1) + if bit_of(x, (hi - 1) as u32) {
            1int
        } else {
            0int
        }
    }
}

/// Counting set bits over a wider range never yields fewer bits.
pub proof fn lemma_count_bits_mono(x: u8, lo: int, mid: int, hi: int)
    requires
        lo <= mid <= hi,
    ensures
        count_bits(x, lo, mid) <= count_bits(x, lo, hi),
        count_bits(x, lo, hi) == count_bits(x, lo, mid) + count_bits(x, mid, hi),
    decreases hi - mid,
{
    if mid < hi {
        lemma_count_bits_mono(x, lo, mid, hi - 1);
    }
}

/// A range of at most `hi - lo` bit positions holds at most that many set bits.
pub proof fn lemma_count_bits_bound(x: u8, lo: int, hi: int)
    requires
        lo <= hi,
    ensures
        0 <= count_bits(x, lo, hi) <= hi - lo,
    decreases hi - lo,
{
    if lo < hi {
        lemma_count_bits_bound(x, lo, hi - 1);
    }
}

/// Tests bit `bit` of the byte `x`.
pub fn test_bit(x: u8, bit: u32) -> (r: bool)
    requires
        bit < 8,
    ensures
        r == bit_of(x, bit),
{
    let r = ((x >> bit) & 1) != 0;
    proof {
        assert((((x >> bit) & 1) != 0) == (((x >> bit) & 1) == 1)) by (bit_vector);
    }
    r
}

/// Tests bit `bit` of a byte array, in flat bit-space order.
pub fn test_bit_slice(arr: &[u8], bit: u32) -> (r: bool)
    requires
        bit / 8 < arr.len(),
    ensures
        r == bit_in(arr@, bit as int),
{
    test_bit(arr[(bit / 8) as usize], bit % 8)
}

/// Setting one bit leaves every other bit position of the byte as it was.
pub proof fn lemma_or_bit(x: u8, bit: u32, k: u32)
    by (bit_vector)
    requires
        bit < 8,
        k < 8,
    ensures
        bit_of(x | (1u8 << bit), k) == (k == bit || bit_of(x, k)),
{
}

/// Clearing one bit leaves every other bit position of the byte as it was.
pub proof fn lemma_and_not_bit(x: u8, bit: u32, k: u32)
    by (bit_vector)
    requires
        bit < 8,
        k < 8,
    ensures
        bit_of(x & !(1u8 << bit), k) == (k != bit && bit_of(x, k)),
{
}

/// Sets bit `bit` of `x`.
pub fn set_bit(x: &mut u8, bit: u32)
    requires
        bit < 8,
    ensures
        *final(x) == (*old(x) | (1u8 << bit)),
{
    *x = *x | (1u8 << bit);
}

/// Clears bit `bit` of `x`.
pub fn clear_bit(x: &mut u8, bit: u32)
    requires
        bit < 8,
    ensures
        *final(x) == (*old(x) & !(1u8 << bit)),
{
    *x = *x & !(1u8 << bit);
}

/// Setting bit `bit` of a byte array, seen in flat bit space, sets exactly
/// that one flat position.
pub proof fn lemma_set_bit_in(s: Seq<u8>, bit: int, i: int)
    requires
        0 <= bit,
        bit / 8 < s.len(),
        0 <= i,
        i / 8 < s.len(),
    ensures
        bit_in(s.update(bit / 8, s[bit / 8] | (1u8 << ((bit % 8) as u32))), i) == (i == bit
            || bit_in(s, i)),
{
    vstd::arithmetic::div_mod::lemma_fundamental_div_mod(bit, 8);
    vstd::arithmetic::div_mod::lemma_fundamental_div_mod(i, 8);
    if i / 8 == bit / 8 {
        lemma_or_bit(s[bit / 8], (bit % 8) as u32, (i % 8) as u32);
    }
}

/// Clearing bit `bit` of a byte array, seen in flat bit space, clears exactly
/// that one flat position.
pub proof fn lemma_clear_bit_in(s: Seq<u8>, bit: int, i: int)
    requires
        0 <= bit,
        bit / 8 < s.len(),
        0 <= i,
        i / 8 < s.len(),
    ensures
        bit_in(s.update(bit / 8, s[bit / 8] & !(1u8 << ((bit % 8) as u32))), i) == (i != bit
            && bit_in(s, i)),
{
    vstd::arithmetic::div_mod::lemma_fundamental_div_mod(bit, 8);
    vstd::arithmetic::div_mod::lemma_fundamental_div_mod(i, 8);
    if i / 8 == bit / 8 {
        lemma_and_not_bit(s[bit / 8], (bit % 8) as u32, (i % 8) as u32);
    }
}

/// Sets bit `bit` of a byte array, in flat bit-space order.
pub fn set_bit_slice(arr: &mut [u8], bit: u32)
    requires
        bit / 8 < old(arr).len(),
    ensures
        final(arr)@ == old(arr)@.update(
            bit as int / 8,
            old(arr)@[bit as int / 8] | (1u8 << (bit % 8)),
        ),
{
    let idx = (bit / 8) as usize;
    let mut b = arr[idx];
    set_bit(&mut b, bit % 8);
    arr[idx] = b;
}

/// Clears bit `bit` of a byte array, in flat bit-space order.
pub fn clear_bit_slice(arr: &mut [u8], bit: u32)
    requires
        bit / 8 < old(arr).len(),
    ensures
        final(arr)@ == old(arr)@.update(
            bit as int / 8,
            old(arr)@[bit as int / 8] & !(1u8 << (bit % 8)),
        ),
{
    let idx = (bit / 8) as usize;
    let mut b = arr[idx];
    clear_bit(&mut b, bit % 8);
    arr[idx] = b;
}

/// Reads a big-endian 16-bit integer from the first two bytes of `slice`.
pub fn be_u16_uwu(slice: &[u8]) -> (r: u16)
    requires
        slice.len() >= 2,
    ensures
        r == slice@[0] * 256 + slice@[1],
{
    let r = ((slice[0] as u16) << 8) | slice[1] as u16;
    proof {
        let (a, b) = (slice@[0], slice@[1]);
        assert(((a as u16) << 8) | (b as u16) == a * 256 + b) by (bit_vector);
    }
    r
}

/// Reads a big-endian 32-bit integer from the first four bytes of `slice`.
pub fn be_u32_uwu(slice: &[u8]) -> (r: u32)
    requires
        slice.len() >= 4,
    ensures
        r == ((slice@[0] * 0x1000000) as u32) + slice@[1] * 0x10000 + slice@[2] * 0x100
            + slice@[3],
{
    let r = ((slice[0] as u32) << (8 * 3)) | ((slice[1] as u32) << (8 * 2)) | ((slice[2] as u32)
        << (8 * 1)) | (slice[3] as u32);
    proof {
        let (a, b, c, d) = (slice@[0], slice@[1], slice@[2], slice@[3]);
        assert(((a as u32) << 24) | ((b as u32) << 16) | ((c as u32) << 8) | (d as u32) == (a
            * 0x1000000 + b * 0x10000 + c * 0x100 + d) as u32) by (bit_vector);
        assert(a * 0x1000000 + b * 0x10000 + c * 0x100 + d < 0x100000000);
    }
    r
}

/// The plain sum of a byte sequence, without any truncation.
pub open spec fn byte_sum(s: Seq<u8>) -> nat
    decreases s.len(),
{
    if s.len() == 0 {
        0
    } else {
        byte_sum(s.drop_last()) + s.last() as nat
    }
}

/// The one-byte additive checksum: the two's-complement negation of the
/// byte sum, reduced modulo 256.
pub open spec fn sum8_neg(s: Seq<u8>) -> u8 {
    (((256 - (byte_sum(s) % 256)) % 256) as u8)
}

/// The XOR of all bytes of a sequence.
pub open spec fn xor8(s: Seq<u8>) -> u8
    decreases s.len(),
{
    if s.len() == 0 {
        0
    } else {
        xor8(s.drop_last()) ^ s.last()
    }
}

proof fn lemma_byte_sum_step(s: Seq<u8>, i: int)
    requires
        0 <= i < s.len(),
    ensures
        byte_sum(s.take(i + 1)) == byte_sum(s.take(i)) + s[i],
{
    assert(s.take(i + 1).drop_last() =~= s.take(i));
    assert(s.take(i + 1).last() == s[i]);
}

proof fn lemma_xor8_step(s: Seq<u8>, i: int)
    requires
        0 <= i < s.len(),
    ensures
        xor8(s.take(i + 1)) == xor8(s.take(i)) ^ s[i],
{
    assert(s.take(i + 1).drop_last() =~= s.take(i));
    assert(s.take(i + 1).last() == s[i]);
}

/// Computes the additive checksum over `data`: the byte that, added to the
/// modular sum of `data`, gives zero.
pub fn calc_new_checksum(data: &[u8]) -> (r: u8)
    ensures
        r == sum8_neg(data@),
{
    let mut sum: u8 = 0;
    let mut i: usize = 0;
    while i < data.len()
        invariant
            i <= data.len(),
            sum == byte_sum(data@.take(i as int)) % 256,
        decreases data.len() - i,
    {
        proof {
            lemma_byte_sum_step(data@, i as int);
        }
        let ghost prev: int = byte_sum(data@.take(i as int)) as int;
        let ghost b: int = data@[i as int] as int;
        sum = sum.wrapping_add(data[i]);
        proof {
            assert(sum == (prev % 256 + b) % 256);
            assert((prev % 256 + b) % 256 == (prev + b) % 256) by {
                vstd::arithmetic::div_mod::lemma_add_mod_noop(prev, b, 256);
                vstd::arithmetic::div_mod::lemma_mod_twice(prev, 256);
                vstd::arithmetic::div_mod::lemma_small_mod(b as nat, 256);
            }
        }
        i = i + 1;
    }
    proof {
        assert(data@.take(data@.len() as int) =~= data@);
    }
    let r = 0u8.wrapping_sub(sum);
    proof {
        let m: int = byte_sum(data@) as int % 256;
        assert(0 <= m < 256);
        assert(r == (256 - m) % 256);
    }
    r
}

/// Computes the frame and flight-header checksum over `data`.
pub fn calc_checksum(data: &[u8]) -> (r: u8)
    ensures
        r == sum8_neg(data@),
{
    calc_new_checksum(data)
}

/// Computes the XOR checksum over `data`, as used by the ASCII header lines.
pub fn xor8_slice(data: &[u8]) -> (r: u8)
    ensures
        r == xor8(data@),
{
    let mut acc: u8 = 0;
    let mut i: usize = 0;
    while i < data.len()
        invariant
            i <= data.len(),
            acc == xor8(data@.take(i as int)),
        decreases data.len() - i,
    {
        proof {
            lemma_xor8_step(data@, i as int);
        }
        acc = acc ^ data[i];
        i = i + 1;
    }
    proof {
        assert(data@.take(data@.len() as int) =~= data@);
    }
    acc
}

/// The checksum law: the additive checksum of a byte sequence cancels the
/// sequence's own sum modulo 256.
pub proof fn lemma_checksum_law(s: Seq<u8>)
    ensures
        (sum8_neg(s) + byte_sum(s)) % 256 == 0,
{
    let m: int = byte_sum(s) as int % 256;
    assert(0 <= m < 256);
    let c: int = (256 - m) % 256;
    assert(c == sum8_neg(s));
    assert((c + byte_sum(s)) % 256 == 0) by {
        vstd::arithmetic::div_mod::lemma_add_mod_noop(256 - m, byte_sum(s) as int, 256);
        vstd::arithmetic::div_mod::lemma_mod_twice(256 - m, 256);
        vstd::arithmetic::div_mod::lemma_mod_multiples_vanish(
            1,
            byte_sum(s) - m,
            256,
        );
    }
}

} // verus!
