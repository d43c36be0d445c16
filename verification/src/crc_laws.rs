//! The law of the CRC: it is a remainder of polynomials.
use crate::crc::{crc32, crc_register, crc_shift, crc_shifts};
use vstd::prelude::*;

verus! {

/// The remainder of `x` times a polynomial, on division by the generator
/// `x^32 + x^26 + x^23 + x^22 + x^16 + x^12 + x^11 + x^10 + x^8 + x^7 + x^5 + x^4 + x^2 + x + 1`.
/// Polynomials have coefficients 0 and 1; the coefficient of `x^k` is the bit of weight `2^k`.
pub open spec fn times_x(p: u32) -> u32 {
    if p >= 0x8000_0000 {
        (p << 1) ^ 0x04C1_1DB7u32
    } else {
        p << 1
    }
}

/// The remainder of a polynomial on division by the generator. Its coefficients are given from the
/// highest power down.
pub open spec fn remainder(coefficients: Seq<bool>) -> u32
    decreases coefficients.len(),
{
    if coefficients.len() == 0 {
        0
    } else {
        times_x(remainder(coefficients.drop_last())) ^ (if coefficients.last() {
            1u32
        } else {
            0u32
        })
    }
}

/// Bit `i` of a message: the bits of a byte count from the lowest. There are zeros behind it.
pub open spec fn message_bit(message: Seq<u8>, i: int) -> bool {
    if i < 8 * message.len() {
        (message[i / 8] >> ((i % 8) as u8)) & 1 == 1
    } else {
        false
    }
}

/// The polynomial that is divided: the bits of the message and 32 zeros, the first 32 inverted.
pub open spec fn dividend(message: Seq<u8>) -> Seq<bool> {
    Seq::new(8 * message.len() + 32, |i: int| message_bit(message, i) != (i < 32))
}

/// The 32 bits of a number in reverse order.
pub open spec fn reversed(n: u32) -> u32 {
    let n = ((n & 0x5555_5555) << 1) | ((n >> 1) & 0x5555_5555);
    let n = ((n & 0x3333_3333) << 2) | ((n >> 2) & 0x3333_3333);
    let n = ((n & 0x0F0F_0F0F) << 4) | ((n >> 4) & 0x0F0F_0F0F);
    let n = ((n & 0x00FF_00FF) << 8) | ((n >> 8) & 0x00FF_00FF);
    (n << 16) | (n >> 16)
}

/// A polynomial times a power of `x`.
spec fn times_power(p: u32, k: nat) -> u32
    decreases k,
{
    if k == 0 {
        p
    } else {
        times_x(times_power(p, (k - 1) as nat))
    }
}

proof fn lemma_times_x_adds(a: u32, b: u32)
    ensures
        times_x(a ^ b) == times_x(a) ^ times_x(b),
        times_x(0) == 0,
{
    assert(times_x(a ^ b) == times_x(a) ^ times_x(b)) by (bit_vector);
    assert(times_x(0) == 0) by (bit_vector);
}

proof fn lemma_times_power_adds(a: u32, b: u32, k: nat)
    ensures
        times_power(a ^ b, k) == times_power(a, k) ^ times_power(b, k),
        times_power(0, k) == 0,
    decreases k,
{
    if k > 0 {
        let j = (k - 1) as nat;
        lemma_times_power_adds(a, b, j);
        lemma_times_x_adds(times_power(a, j), times_power(b, j));
    }
}

proof fn lemma_times_powers(p: u32, j: nat, k: nat)
    ensures
        times_power(times_power(p, j), k) == times_power(p, j + k),
    decreases k,
{
    if k > 0 {
        lemma_times_powers(p, j, (k - 1) as nat);
    }
}

/// A number of zeros.
spec fn zero_bits(n: nat) -> Seq<bool> {
    Seq::new(n, |i: int| false)
}

/// Where coefficients differ, one by one.
spec fn differences(a: Seq<bool>, b: Seq<bool>) -> Seq<bool> {
    Seq::new(a.len(), |i: int| a[i] != b[i])
}

/// The remainder of a sum is the sum of the remainders.
proof fn lemma_remainder_adds(a: Seq<bool>, b: Seq<bool>)
    requires
        a.len() == b.len(),
    ensures
        remainder(differences(a, b)) == remainder(a) ^ remainder(b),
    decreases a.len(),
{
    let sum = differences(a, b);
    if a.len() == 0 {
        assert(0u32 ^ 0u32 == 0) by (bit_vector);
    } else {
        lemma_remainder_adds(a.drop_last(), b.drop_last());
        assert(sum.drop_last() =~= differences(a.drop_last(), b.drop_last()));
        let p = remainder(a.drop_last());
        let q = remainder(b.drop_last());
        lemma_times_x_adds(p, q);
        let x = times_x(p);
        let y = times_x(q);
        assert((x ^ y) ^ 0 == (x ^ 0) ^ (y ^ 0) && (x ^ y) ^ 1 == (x ^ 1) ^ (y ^ 0) && (x ^ y) ^ 1
            == (x ^ 0) ^ (y ^ 1) && (x ^ y) ^ 0 == (x ^ 1) ^ (y ^ 1)) by (bit_vector);
    }
}

/// Zeros behind a polynomial multiply it.
proof fn lemma_remainder_shifts(a: Seq<bool>, k: nat)
    ensures
        remainder(a + zero_bits(k)) == times_power(remainder(a), k),
    decreases k,
{
    if k == 0 {
        assert(a + zero_bits(0) =~= a);
    } else {
        let whole = a + zero_bits(k);
        lemma_remainder_shifts(a, (k - 1) as nat);
        assert(whole.drop_last() =~= a + zero_bits((k - 1) as nat));
        let x = times_x(remainder(whole.drop_last()));
        assert(x ^ 0 == x) by (bit_vector);
    }
}

/// Zeros in front of a polynomial make no difference.
proof fn lemma_remainder_ignores(k: nat, a: Seq<bool>)
    ensures
        remainder(zero_bits(k) + a) == remainder(a),
    decreases a.len() + k,
{
    if a.len() > 0 {
        lemma_remainder_ignores(k, a.drop_last());
        assert((zero_bits(k) + a).drop_last() =~= zero_bits(k) + a.drop_last());
    } else {
        assert(zero_bits(k) + a =~= a + zero_bits(k));
        lemma_remainder_shifts(a, k);
        lemma_times_power_adds(0, 0, k);
    }
}

/// The bits of a byte.
spec fn byte_bits(byte: u8) -> Seq<bool> {
    Seq::new(8, |i: int| (byte >> (i as u8)) & 1 == 1)
}

/// A polynomial of a power below 8 is only shifted by what keeps it below 32.
proof fn lemma_small_power(p: u32, k: nat)
    requires
        p < 256,
        k <= 24,
    ensures
        times_power(p, k) == p << (k as u32),
    decreases k,
{
    if k == 0 {
        assert(p << 0u32 == p) by (bit_vector);
    } else {
        let j = (k - 1) as u32;
        let i = k as u32;
        lemma_small_power(p, (k - 1) as nat);
        assert(times_x(p << j) == p << i) by (bit_vector)
            requires
                p < 256,
                j < 24,
                i == j + 1,
        ;
    }
}

/// A bit of a byte as a number.
spec fn bit_value(byte: u8, i: u8) -> u32 {
    if (byte >> i) & 1 == 1 {
        1
    } else {
        0
    }
}

/// One more bit of a byte.
proof fn lemma_bit_remainder(byte: u8, k: int)
    requires
        0 <= k < 8,
    ensures
        remainder(byte_bits(byte).take(k + 1)) == times_x(remainder(byte_bits(byte).take(k)))
            ^ bit_value(byte, k as u8),
{
    let bits = byte_bits(byte);
    assert(bits.take(k + 1).drop_last() =~= bits.take(k));
    assert(bits.take(k + 1).last() == bits[k]);
}

/// The remainder of the bits of a byte is the byte in reverse order.
proof fn lemma_byte_remainder(byte: u8)
    ensures
        times_power(remainder(byte_bits(byte)), 24) == reversed(byte as u32),
{
    let bits = byte_bits(byte);
    let p0 = remainder(bits.take(0));
    let p1 = remainder(bits.take(1));
    let p2 = remainder(bits.take(2));
    let p3 = remainder(bits.take(3));
    let p4 = remainder(bits.take(4));
    let p5 = remainder(bits.take(5));
    let p6 = remainder(bits.take(6));
    let p7 = remainder(bits.take(7));
    let p8 = remainder(bits.take(8));
    lemma_bit_remainder(byte, 0);
    lemma_bit_remainder(byte, 1);
    lemma_bit_remainder(byte, 2);
    lemma_bit_remainder(byte, 3);
    lemma_bit_remainder(byte, 4);
    lemma_bit_remainder(byte, 5);
    lemma_bit_remainder(byte, 6);
    lemma_bit_remainder(byte, 7);
    assert(bits.take(8) =~= bits);
    assert(p8 < 256 && p8 << 24u32 == reversed(byte as u32)) by (bit_vector)
        requires
            p0 == 0,
            p1 == times_x(p0) ^ bit_value(byte, 0),
            p2 == times_x(p1) ^ bit_value(byte, 1),
            p3 == times_x(p2) ^ bit_value(byte, 2),
            p4 == times_x(p3) ^ bit_value(byte, 3),
            p5 == times_x(p4) ^ bit_value(byte, 4),
            p6 == times_x(p5) ^ bit_value(byte, 5),
            p7 == times_x(p6) ^ bit_value(byte, 6),
            p8 == times_x(p7) ^ bit_value(byte, 7),
    ;
    lemma_small_power(p8, 24);
}

/// The register shifts as the reversed polynomial is multiplied.
proof fn lemma_shifts_multiply(register: u32, k: nat)
    ensures
        reversed(crc_shifts(register, k)) == times_power(reversed(register), k),
    decreases k,
{
    if k > 0 {
        lemma_shifts_multiply(register, (k - 1) as nat);
        let before = crc_shifts(register, (k - 1) as nat);
        assert(reversed(crc_shift(before)) == times_x(reversed(before))) by (bit_vector);
    }
}

/// What is divided for one byte more.
proof fn lemma_dividend_grows(message: Seq<u8>, byte: u8)
    ensures
        dividend(message.push(byte)) == differences(
            dividend(message) + zero_bits(8),
            zero_bits(8 * message.len()) + (byte_bits(byte) + zero_bits(32)),
        ),
{
    let n = 8 * message.len();
    let longer = message.push(byte);
    let old_part = dividend(message) + zero_bits(8);
    let new_part = zero_bits(n) + (byte_bits(byte) + zero_bits(32));
    let sum = differences(old_part, new_part);
    assert(dividend(longer).len() == sum.len());
    assert forall|i: int| 0 <= i < sum.len() implies dividend(longer)[i] == sum[i] by {
        if i < n {
            assert(longer[i / 8] == message[i / 8]);
        } else if i < n + 8 {
            assert(i / 8 == message.len() && i % 8 == i - n);
            assert(new_part[i] == byte_bits(byte)[i - n]);
        }
    }
    assert(dividend(longer) =~= sum);
}

/// The register after a message, in reverse order, is the remainder of the message's polynomial on
/// division by the generator, and the CRC-32 is the register inverted. The bits of the message are
/// the coefficients, the lowest bit of each byte first; they are followed by 32 zeros, and the
/// first 32 of all are inverted. This holds of every message.
pub proof fn lemma_crc_is_remainder(message: Seq<u8>)
    ensures
        reversed(crc_register(message)) == remainder(dividend(message)),
        reversed(!crc32(message)) == remainder(dividend(message)),
    decreases message.len(),
{
    let register = crc_register(message);
    assert(!(register ^ 0xFFFF_FFFFu32) == register) by (bit_vector);
    if message.len() == 0 {
        let ones = dividend(message);
        lemma_ones(32);
        assert(ones =~= Seq::new(32, |i: int| true));
        assert(reversed(0xFFFF_FFFF) == 0xFFFF_FFFF) by (bit_vector);
    } else {
        let before = message.drop_last();
        let byte = message.last();
        let start = crc_register(before);
        lemma_crc_is_remainder(before);
        lemma_dividend_grows(before, byte);
        assert(before.push(byte) =~= message);
        let old_part = dividend(before) + zero_bits(8);
        let tail = byte_bits(byte) + zero_bits(32);
        lemma_remainder_adds(old_part, zero_bits(8 * before.len()) + tail);
        lemma_remainder_shifts(dividend(before), 8);
        lemma_remainder_ignores(8 * before.len(), tail);
        lemma_remainder_shifts(byte_bits(byte), 32);
        let p = remainder(byte_bits(byte));
        lemma_times_powers(p, 24, 8);
        lemma_byte_remainder(byte);
        let r = reversed(start);
        let b = reversed(byte as u32);
        lemma_times_power_adds(r, b, 8);
        assert(reversed(start ^ (byte as u32)) == reversed(start) ^ reversed(byte as u32))
            by (bit_vector);
        lemma_shifts_multiply(start ^ (byte as u32), 8);
    }
}

/// The remainder of ones only, as long as there are not more than a remainder has coefficients.
proof fn lemma_ones(n: nat)
    requires
        n <= 32,
    ensures
        n < 32 ==> remainder(Seq::new(n, |i: int| true)) == (1u32 << (n as u32)) - 1,
        n == 32 ==> remainder(Seq::new(n, |i: int| true)) == 0xFFFF_FFFF,
    decreases n,
{
    let ones = Seq::new(n, |i: int| true);
    if n == 0 {
        assert(1u32 << 0u32 == 1) by (bit_vector);
    } else {
        let m = (n - 1) as u32;
        let k = n as u32;
        lemma_ones((n - 1) as nat);
        assert(ones.drop_last() =~= Seq::new((n - 1) as nat, |i: int| true));
        let p = remainder(ones.drop_last());
        assert(k < 32 ==> times_x(p) ^ 1 == (1u32 << k) - 1) by (bit_vector)
            requires
                m < 32,
                k == m + 1,
                p == (1u32 << m) - 1,
        ;
        assert(k == 32 ==> times_x(p) ^ 1 == 0xFFFF_FFFF) by (bit_vector)
            requires
                m < 32,
                k == m + 1,
                p == (1u32 << m) - 1,
        ;
    }
}

} // verus!
