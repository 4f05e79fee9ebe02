//! Palette indices packed into 64-bit words.
//!
//! A section stores 4096 palette indices of equal width in an array of longs,
//! read as one stream of bits, the lowest bit of the first long first. Older
//! worlds pack the indices without gaps, so that one can span two longs. Newer
//! worlds start each long with a fresh index and leave the bits over unused.

use vstd::arithmetic::div_mod::*;
use vstd::arithmetic::power2::*;
use vstd::bits::*;
use vstd::prelude::*;

verus! {

/// How many blocks a section holds.
pub const SECTION_BLOCKS: usize = 4096;

/// How many binary digits `n` has.
pub open spec fn bit_length(n: nat) -> nat
    decreases n,
{
    if n == 0 {
        0
    } else {
        1 + bit_length(n / 2)
    }
}

/// The width of an index into a palette of `n` entries: enough for the last
/// entry, and never fewer than four bits.
pub open spec fn index_bits(n: nat) -> nat {
    let needed = bit_length((n - 1) as nat);
    if needed < 4 {
        4
    } else {
        needed
    }
}

/// Bit `j` of the stream of bits that the longs hold.
pub open spec fn stream_bit(data: Seq<i64>, j: int) -> nat {
    (data[j / 64] as u64) as nat / pow2((j % 64) as nat) % 2
}

/// The number whose binary digits, lowest first, are the `bits` bits of the
/// stream from `start` on.
pub open spec fn bits_at(data: Seq<i64>, start: int, bits: nat) -> nat
    decreases bits,
{
    if bits == 0 {
        0
    } else {
        stream_bit(data, start) + 2 * bits_at(data, start + 1, (bits - 1) as nat)
    }
}

/// Where index `i` starts when indices follow each other without gaps.
pub open spec fn spanning_start(i: int, bits: nat) -> int {
    i * bits
}

/// How many indices fit in a long that starts with a fresh one.
pub open spec fn per_long(bits: nat) -> int {
    64int / bits as int
}

/// Where index `i` starts when no index spans two longs.
pub open spec fn aligned_start(i: int, bits: nat) -> int {
    (i / per_long(bits)) * 64 + (i % per_long(bits)) * bits
}

/// Bits that lie in one long are a quotient and a remainder of it.
proof fn lemma_bits_in_word(data: Seq<i64>, start: int, bits: nat)
    requires
        0 <= start,
        start % 64 + bits <= 64,
    ensures
        bits_at(data, start, bits) == (data[start / 64] as u64) as nat / pow2((start % 64) as nat)
            % pow2(bits),
    decreases bits,
{
    let w = (data[start / 64] as u64) as nat;
    let o = (start % 64) as nat;
    lemma_pow2_pos(o);
    lemma_pow2_pos(bits);
    if bits == 0 {
        lemma2_to64();
        assert((w / pow2(o)) % 1 == 0);
    } else {
        let q = (w / pow2(o)) as int;
        let m = pow2((bits - 1) as nat) as int;
        lemma_pow2_unfold(bits);
        lemma_pow2_pos((bits - 1) as nat);
        lemma_mod_breakdown(q, 2, m);
        if bits == 1 {
            lemma2_to64();
            assert(bits_at(data, start + 1, 0) == 0);
            assert((q / 2) % 1 == 0);
        } else {
            assert((start + 1) / 64 == start / 64 && (start + 1) % 64 == start % 64 + 1);
            lemma_bits_in_word(data, start + 1, (bits - 1) as nat);
            lemma_pow2_unfold(o + 1);
            lemma_div_denominator(w as int, pow2(o) as int, 2);
            assert(pow2(o) * 2 == pow2(o + 1));
        }
    }
}

/// A run of bits is its first part and, shifted past it, its second part.
proof fn lemma_bits_split(data: Seq<i64>, start: int, low: nat, high: nat)
    ensures
        bits_at(data, start, low + high) == bits_at(data, start, low) + pow2(low) * bits_at(
            data,
            start + low,
            high,
        ),
    decreases low,
{
    if low == 0 {
        lemma2_to64();
    } else {
        lemma_pow2_unfold(low);
        lemma_bits_split(data, start + 1, (low - 1) as nat, high);
        let a = bits_at(data, start + 1, (low - 1) as nat) as int;
        let p = pow2((low - 1) as nat) as int;
        let h = bits_at(data, start + low, high) as int;
        assert(2 * (a + p * h) == 2 * a + (2 * p) * h) by (nonlinear_arith);
    }
}

/// A run of bits is smaller than the power of two of its length.
pub proof fn lemma_bits_bound(data: Seq<i64>, start: int, bits: nat)
    ensures
        bits_at(data, start, bits) < pow2(bits),
    decreases bits,
{
    lemma2_to64();
    if bits > 0 {
        lemma_pow2_unfold(bits);
        lemma_bits_bound(data, start + 1, (bits - 1) as nat);
    }
}

/// The width of an index into a palette of `n` entries.
pub fn index_width(n: usize) -> (bits: usize)
    requires
        0 < n <= 0x8000_0000_0000_0000,
    ensures
        bits == index_bits(n as nat),
        4 <= bits <= 63,
{
    let mut rest: usize = n - 1;
    let mut bits: usize = 0;
    proof {
        lemma2_to64();
        lemma2_to64_rest();
    }
    while rest > 0
        invariant
            bits + bit_length(rest as nat) == bit_length((n - 1) as nat),
            bits <= 63,
            n <= 0x8000_0000_0000_0000,
            rest < pow2((63 - bits) as nat),
        decreases rest,
    {
        proof {
            if bits == 63 {
                lemma2_to64();
            }
            lemma_pow2_unfold((63 - bits) as nat);
        }
        rest = rest / 2;
        bits += 1;
    }
    if bits < 4 {
        4
    } else {
        bits
    }
}

/// The run of `bits` bits from `start` on, as a number.
pub fn read_bits(data: &[i64], start: usize, bits: usize) -> (r: u64)
    requires
        0 < bits <= 63,
        start + bits <= data@.len() * 64,
    ensures
        r == bits_at(data@, start as int, bits as nat),
{
    let word: usize = start / 64;
    let offset: usize = start % 64;
    let first: u64 = data[word] as u64;
    let shifted: u64 = first >> (offset as u64);
    proof {
        lemma_u64_shr_is_div(first, offset as u64);
    }
    let end: usize = offset + bits;
    if end <= 64 {
        proof {
            lemma_bits_in_word(data@, start as int, bits as nat);
            lemma_low_mask(shifted, bits as u64);
        }
        shifted & ((1u64 << (bits as u64)) - 1)
    } else {
        let low: usize = 64 - offset;
        let high: usize = bits - low;
        let second: u64 = data[word + 1] as u64;
        proof {
            lemma_low_mask(second, high as u64);
        }
        let top: u64 = second & ((1u64 << (high as u64)) - 1);
        proof {
            let s = data@;
            let mid = start + low;
            assert(mid / 64 == word + 1 && mid % 64 == 0);
            lemma_bits_split(s, start as int, low as nat, high as nat);
            lemma_bits_in_word(s, start as int, low as nat);
            lemma_bits_in_word(s, mid, high as nat);
            lemma2_to64();
            // The quotient of the first long has `low` digits already.
            lemma_pow2_adds(offset as nat, low as nat);
            lemma2_to64_rest();
            assert(first as nat / pow2(offset as nat) < pow2(low as nat)) by {
                lemma_pow2_pos(offset as nat);
                lemma_multiply_divide_lt(first as int, pow2(offset as nat) as int, pow2(low as nat) as int);
            }
            lemma_small_mod(first as nat / pow2(offset as nat), pow2(low as nat));
            assert(second as nat / 1 == second);
            // The parts do not overlap and their sum fits.
            lemma_pow2_adds(low as nat, high as nat);
            lemma_pow2_strictly_increases(bits as nat, 64);
            assert(top < pow2(high as nat)) by {
                lemma_pow2_pos(high as nat);
            }
            let t = top as int;
            let p = pow2(low as nat) as int;
            let h = pow2(high as nat) as int;
            assert(shifted + t * p <= p * h - 1 && t * p <= p * h) by (nonlinear_arith)
                requires
                    0 <= t <= h - 1,
                    0 <= shifted <= p - 1,
                    p > 0,
            ;
            lemma_u64_shl_is_mul(top, low as u64);
            assert(t * p == p * t) by (nonlinear_arith);
        }
        shifted + (top << (low as u64))
    }
}

/// Masking keeps the remainder by a power of two.
proof fn lemma_low_mask(x: u64, bits: u64)
    requires
        0 < bits < 64,
    ensures
        1u64 << bits == pow2(bits as nat),
        1u64 << bits >= 1,
        x & ((1u64 << bits) - 1) as u64 == x as nat % pow2(bits as nat),
{
    lemma2_to64();
    lemma2_to64_rest();
    lemma_pow2_strictly_increases(bits as nat, 64);
    lemma_pow2_pos(bits as nat);
    lemma_u64_shl_is_mul(1, bits);
    lemma_u64_low_bits_mask_is_mod(x, bits as nat);
}

/// A number with binary digits lies between powers of two.
proof fn lemma_bit_length(n: nat)
    ensures
        n < pow2(bit_length(n)),
        n > 0 ==> bit_length(n) > 0 && pow2((bit_length(n) - 1) as nat) <= n,
    decreases n,
{
    lemma2_to64();
    if n > 0 {
        let half = n / 2;
        lemma_bit_length(half);
        lemma_pow2_unfold(bit_length(n));
        if half > 0 {
            lemma_pow2_unfold(bit_length(half));
        } else {
            assert(n == 1);
        }
    }
}

/// Whether a width is the least one, but at least four, with a number for each
/// of `n` entries.
pub open spec fn is_least_width(n: nat, bits: nat) -> bool {
    &&& bits >= 4
    &&& n <= pow2(bits)
    &&& bits > 4 ==> n > pow2((bits - 1) as nat)
}

/// An index is as wide as it has to be: wide enough for every palette entry, and
/// no wider, but at least four bits. No other width is.
pub proof fn law_index_width_is_least(n: nat, bits: nat)
    requires
        n > 0,
    ensures
        is_least_width(n, index_bits(n)),
        is_least_width(n, bits) ==> bits == index_bits(n),
{
    let m = (n - 1) as nat;
    let b = index_bits(n);
    lemma_bit_length(m);
    lemma2_to64();
    let needed = bit_length(m);
    if needed < 4 {
        if needed < 4 {
            lemma_pow2_strictly_increases(needed, 4);
        }
    } else if m > 0 && needed > 4 {
        assert(pow2((needed - 1) as nat) <= m);
    }
    if is_least_width(n, bits) {
        if bits < b {
            if bits < b - 1 {
                lemma_pow2_strictly_increases(bits, (b - 1) as nat);
            }
        } else if b < bits {
            if b < bits - 1 {
                lemma_pow2_strictly_increases(b, (bits - 1) as nat);
            }
        }
    }
}

/// The number that digits of `width` bits write, the lowest first.
pub open spec fn number_of(digits: Seq<nat>, width: nat) -> nat
    decreases digits.len(),
{
    if digits.len() == 0 {
        0
    } else {
        digits[0] + pow2(width) * number_of(digits.drop_first(), width)
    }
}

/// Longs as numbers without sign.
pub open spec fn words(data: Seq<i64>) -> Seq<nat> {
    data.map_values(|w: i64| (w as u64) as nat)
}

/// Whether every digit fits its width.
pub open spec fn digits_fit(digits: Seq<nat>, width: nat) -> bool {
    forall|i: int| 0 <= i < digits.len() ==> #[trigger] digits[i] < pow2(width)
}

/// Digits that are shifted out leave the others.
proof fn lemma_shift_digits(digits: Seq<nat>, width: nat, k: nat)
    requires
        digits_fit(digits, width),
        k <= digits.len(),
    ensures
        number_of(digits, width) / pow2(k * width) == number_of(digits.skip(k as int), width),
    decreases k,
{
    lemma2_to64();
    if k == 0 {
        assert(digits.skip(0) =~= digits);
        assert(0 * width == 0) by (nonlinear_arith);
        lemma_div_basics(number_of(digits, width) as int);
    } else {
        let rest = digits.drop_first();
        assert forall|i: int| 0 <= i < rest.len() implies #[trigger] rest[i] < pow2(width) by {
            assert(rest[i] == digits[i + 1]);
        }
        lemma_shift_digits(rest, width, (k - 1) as nat);
        assert(rest.skip(k - 1) =~= digits.skip(k as int));
        let p = pow2(width) as int;
        let q = pow2(((k - 1) * width) as nat) as int;
        let r = number_of(rest, width) as int;
        assert((k - 1) * width + width == k * width && (k - 1) * width >= 0) by (nonlinear_arith)
            requires
                k >= 1,
        ;
        lemma_pow2_adds(width, ((k - 1) * width) as nat);
        lemma_pow2_pos(width);
        lemma_pow2_pos(((k - 1) * width) as nat);
        lemma_div_denominator(number_of(digits, width) as int, p, q);
        assert(digits[0] < pow2(width));
        assert(p * r == r * p) by (nonlinear_arith);
        lemma_fundamental_div_mod_converse(
            number_of(digits, width) as int,
            p,
            r,
            digits[0] as int,
        );
    }
}

/// The lowest digit of a number.
proof fn lemma_lowest_digit(digits: Seq<nat>, width: nat)
    requires
        digits_fit(digits, width),
        digits.len() > 0,
    ensures
        number_of(digits, width) % pow2(width) == digits[0],
{
    let r = number_of(digits.drop_first(), width) as int;
    assert(digits[0] < pow2(width));
    let p = pow2(width) as int;
    assert(p * r == r * p) by (nonlinear_arith);
    lemma_fundamental_div_mod_converse(
        number_of(digits, width) as int,
        pow2(width) as int,
        r,
        digits[0] as int,
    );
}

/// Any digit of a number.
proof fn lemma_digit_at(digits: Seq<nat>, width: nat, i: int)
    requires
        digits_fit(digits, width),
        0 <= i < digits.len(),
    ensures
        number_of(digits, width) / pow2((i * width) as nat) % pow2(width) == digits[i],
{
    let rest = digits.skip(i);
    assert(0 <= i * width) by (nonlinear_arith)
        requires
            0 <= i,
    ;
    lemma_shift_digits(digits, width, i as nat);
    assert forall|j: int| 0 <= j < rest.len() implies #[trigger] rest[j] < pow2(width) by {
        assert(rest[j] == digits[i + j]);
    }
    lemma_lowest_digit(rest, width);
}

/// A bit of the stream is a binary digit of the number that the longs write.
proof fn lemma_stream_bit(data: Seq<i64>, j: int)
    requires
        0 <= j < 64 * data.len(),
    ensures
        stream_bit(data, j) == number_of(words(data), 64) / pow2(j as nat) % 2,
{
    let q = j / 64;
    let r = (j % 64) as nat;
    let all = words(data);
    let n = number_of(all, 64);
    lemma2_to64();
    lemma2_to64_rest();
    assert(digits_fit(all, 64));
    lemma_shift_digits(all, 64, q as nat);
    lemma_pow2_adds((64 * q) as nat, r);
    lemma_pow2_pos((64 * q) as nat);
    lemma_pow2_pos(r);
    lemma_div_denominator(n as int, pow2((64 * q) as nat) as int, pow2(r) as int);
    let rest = all.skip(q);
    let w = rest[0] as int;
    let high = number_of(rest.drop_first(), 64) as int;
    let p = pow2(r) as int;
    let m = pow2((63 - r) as nat) as int;
    lemma_pow2_adds(r, (63 - r) as nat);
    lemma_pow2_unfold(64);
    assert(number_of(rest, 64) == w + (p * (2 * m)) * high) by (nonlinear_arith)
        requires
            number_of(rest, 64) == w + pow2(64) * high,
            pow2(64) == 2 * (p * m),
    ;
    assert(w + (p * (2 * m)) * high == p * (2 * (m * high)) + w) by (nonlinear_arith);
    lemma_hoist_over_denominator(w, 2 * (m * high), p as nat);
    assert(w / p + 2 * (m * high) == (w + p * (2 * (m * high))) / p) by {
        assert((2 * (m * high)) * p == p * (2 * (m * high))) by (nonlinear_arith);
    }
    let k = w / p;
    assert((k + 2 * (m * high)) % 2 == k % 2);
}

/// A run of bits is cut out of the number that the longs write.
proof fn lemma_bits_of_number(data: Seq<i64>, start: int, bits: nat)
    requires
        0 <= start,
        start + bits <= 64 * data.len(),
    ensures
        bits_at(data, start, bits) == number_of(words(data), 64) / pow2(start as nat) % pow2(bits),
    decreases bits,
{
    let n = number_of(words(data), 64) as int;
    lemma2_to64();
    lemma_pow2_pos(start as nat);
    let q = n / pow2(start as nat) as int;
    if bits == 0 {
        assert(q % 1 == 0);
    } else {
        lemma_stream_bit(data, start);
        lemma_bits_of_number(data, start + 1, (bits - 1) as nat);
        lemma_pow2_unfold((start + 1) as nat);
        lemma_div_denominator(n, pow2(start as nat) as int, 2);
        assert(pow2(start as nat) * 2 == pow2((start + 1) as nat));
        let m = pow2((bits - 1) as nat) as int;
        lemma_pow2_unfold(bits);
        lemma_pow2_pos((bits - 1) as nat);
        lemma_div_pos_is_pos(n, pow2(start as nat) as int);
        lemma_mod_breakdown(q, 2, m);
    }
}

/// Reading a run of bits undoes packing without gaps: where the longs, as one
/// number, are the number with the packed values as its digits, the run of every
/// value is that value.
pub proof fn law_reading_undoes_packing(data: Seq<i64>, values: Seq<nat>, bits: nat, i: int)
    requires
        digits_fit(values, bits),
        values.len() * bits <= 64 * data.len(),
        number_of(words(data), 64) == number_of(values, bits),
        0 <= i < values.len(),
    ensures
        bits_at(data, i * bits, bits) == values[i],
{
    assert(0 <= i * bits && i * bits + bits <= values.len() * bits) by (nonlinear_arith)
        requires
            0 <= i < values.len(),
    ;
    lemma_bits_of_number(data, i * bits, bits);
    lemma_digit_at(values, bits, i);
}

} // verus!
