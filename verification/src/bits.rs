use vstd::prelude::*;
use vstd::arithmetic::power2::{pow2, lemma_pow2_unfold, lemma2_to64, lemma_pow2_adds, lemma_pow2_strictly_increases};
use vstd::bits::{lemma_u8_shl_is_mul, lemma_u16_shl_is_mul, lemma_u32_shl_is_mul, lemma_u64_shl_is_mul, lemma_u16_pow2_no_overflow, lemma_u32_pow2_no_overflow, lemma_u64_pow2_no_overflow};
use vstd::arithmetic::div_mod::lemma_fundamental_div_mod_converse;
use vstd::arithmetic::mul::{lemma_mul_is_associative, lemma_mul_is_distributive_add};

verus! {

/// Bit `i` of a byte sequence, counting from the least significant bit of
/// the first byte; bits outside the sequence read as zero.
pub open spec fn bit_at(data: Seq<u8>, i: int) -> nat {
    if 0 <= i < 8 * data.len() {
        ((data[i / 8] >> ((i % 8) as u8)) & 1u8) as nat
    } else {
        0
    }
}

/// The number formed by the `n` bits of `data` starting at bit `start`,
/// the first of them being the least significant.
pub open spec fn bits_value(data: Seq<u8>, start: int, n: nat) -> nat
    decreases n,
{
    if n == 0 {
        0
    } else {
        bit_at(data, start) + 2 * bits_value(data, start + 1, (n - 1) as nat)
    }
}

/// The mask of the low `k` bits of a byte, for `k <= 8`.
pub open spec fn byte_mask(k: u8) -> u8 {
    0xffu8 >> ((8 - k) as u8)
}

/// Splitting a run of bits in two splits its value as a positional sum.
pub proof fn lemma_bits_value_split(data: Seq<u8>, start: int, a: nat, b: nat)
    ensures
        bits_value(data, start, a + b) == bits_value(data, start, a) + pow2(a) * bits_value(
            data,
            start + a,
            b,
        ),
    decreases a,
{
    if a == 0 {
        assert(pow2(0) == 1) by { lemma2_to64(); }
        assert((a + b) as nat == b);
    } else {
        let rest = bits_value(data, start + a, b);
        lemma_bits_value_split(data, start + 1, (a - 1) as nat, b);
        assert((a + b - 1) as nat == ((a - 1) as nat + b) as nat);
        assert(start + 1 + (a - 1) as nat == start + a);
        lemma_pow2_unfold(a);
        lemma_mul_is_associative(2, pow2((a - 1) as nat) as int, rest as int);
        lemma_mul_is_distributive_add(
            2,
            bits_value(data, start + 1, (a - 1) as nat) as int,
            (pow2((a - 1) as nat) * rest) as int,
        );
    }
}

/// A run of `n` bits has a value below `2^n`.
pub proof fn lemma_bits_value_bound(data: Seq<u8>, start: int, n: nat)
    ensures
        bits_value(data, start, n) < pow2(n),
    decreases n,
{
    if n == 0 {
        assert(pow2(0) == 1) by { lemma2_to64(); }
    } else {
        lemma_bits_value_bound(data, start + 1, (n - 1) as nat);
        lemma_bit_at_bound(data, start);
        lemma_pow2_unfold(n);
    }
}

/// A bit reads as zero or one.
pub proof fn lemma_bit_at_bound(data: Seq<u8>, i: int)
    ensures
        bit_at(data, i) <= 1,
{
    if 0 <= i < 8 * data.len() {
        let x = data[i / 8];
        let s = (i % 8) as u8;
        assert((x >> s) & 1u8 <= 1) by (bit_vector);
    }
}

/// A single bit is worth zero or one.
pub proof fn lemma_single_bit(data: Seq<u8>, i: int)
    ensures
        bits_value(data, i, 1) == bit_at(data, i),
        bits_value(data, i, 1) <= 1,
{
    lemma_bit_at_bound(data, i);
    assert(bits_value(data, i + 1, 0) == 0);
}

proof fn lemma_mask_step(x: u8, bo: u8, k: u8)
    requires
        1 <= k,
        bo + k <= 8,
    ensures
        ((x >> bo) & byte_mask(k)) == ((x >> bo) & 1u8) + 2 * ((x >> ((bo + 1) as u8)) & byte_mask(
            (k - 1) as u8,
        )),
{
    assert(((x >> bo) & (0xffu8 >> ((8 - k) as u8))) == ((x >> bo) & 1u8) + 2 * ((x >> ((bo + 1) as u8))
        & (0xffu8 >> ((8 - (k - 1) as u8) as u8)))) by (bit_vector)
        requires
            1 <= k,
            bo + k <= 8,
    ;
}

/// Bit index `8 * b + o` lies in byte `b` at offset `o`.
pub proof fn lemma_bit_index(b: int, o: int)
    requires
        0 <= o < 8,
    ensures
        (8 * b + o) / 8 == b,
        (8 * b + o) % 8 == o,
{
    lemma_fundamental_div_mod_converse(8 * b + o, 8, b, o);
}

/// Bits that lie within one byte are that byte shifted and masked.
pub proof fn lemma_bits_in_byte(data: Seq<u8>, b: int, bo: u8, k: u8)
    requires
        0 <= b < data.len(),
        bo + k <= 8,
    ensures
        bits_value(data, 8 * b + bo, k as nat) == ((data[b] >> bo) & byte_mask(k)) as nat,
    decreases k,
{
    let x = data[b];
    if k == 0 {
        assert(((x >> bo) & (0xffu8 >> 8u8)) == 0) by (bit_vector);
    } else {
        lemma_bit_index(b, bo as int);
        lemma_mask_step(x, bo, k);
        assert(bit_at(data, 8 * b + bo) == ((x >> bo) & 1u8) as nat);
        if bo + 1 < 8 {
            lemma_bits_in_byte(data, b, (bo + 1) as u8, (k - 1) as u8);
        } else {
            assert(((x >> 8u8) & (0xffu8 >> 8u8)) == 0) by (bit_vector);
        }
        assert(8 * b + bo + 1 == 8 * b + (bo + 1) as u8);
    }
}

/// Two powers of two whose exponents sum to at most eight multiply to at
/// most 256.
pub proof fn lemma_pow2_fits_byte(a: nat, b: nat)
    requires
        a + b <= 8,
    ensures
        pow2(a) * pow2(b) <= 256,
{
    lemma_pow2_adds(a, b);
    lemma2_to64();
    if a + b < 8 {
        lemma_pow2_strictly_increases(a + b, 8);
    }
}

/// Shifting one left by fewer than eight places gives a power of two.
pub proof fn lemma_shl_one_is_pow2(n: u8)
    requires
        n < 8,
    ensures
        (1u8 << n) == pow2(n as nat),
{
    lemma2_to64();
    lemma_pow2_strictly_increases(n as nat, 8);
    lemma_u8_shl_is_mul(1, n);
}

/// Shifting one left by fewer than 16 places gives a power of two.
pub proof fn lemma_shl_one_is_pow2_u16(n: u16)
    requires
        n < 16,
    ensures
        (1u16 << n) == pow2(n as nat),
{
    lemma_u16_pow2_no_overflow(n as nat);
    lemma_u16_shl_is_mul(1, n);
}

/// Shifting one left by fewer than 32 places gives a power of two.
pub proof fn lemma_shl_one_is_pow2_u32(n: u32)
    requires
        n < 32,
    ensures
        (1u32 << n) == pow2(n as nat),
{
    lemma_u32_pow2_no_overflow(n as nat);
    lemma_u32_shl_is_mul(1, n);
}

/// Shifting one left by fewer than 64 places gives a power of two.
pub proof fn lemma_shl_one_is_pow2_u64(n: u64)
    requires
        n < 64,
    ensures
        (1u64 << n) == pow2(n as nat),
{
    lemma_u64_pow2_no_overflow(n as nat);
    lemma_u64_shl_is_mul(1, n);
}

/// The value of a run of bits depends only on those bits.
pub proof fn lemma_bits_value_same(d1: Seq<u8>, d2: Seq<u8>, start: int, n: nat)
    requires
        forall|i: int| start <= i < start + n ==> bit_at(d1, i) == bit_at(d2, i),
    ensures
        bits_value(d1, start, n) == bits_value(d2, start, n),
    decreases n,
{
    if n > 0 {
        lemma_bits_value_same(d1, d2, start + 1, (n - 1) as nat);
    }
}

} // verus!
