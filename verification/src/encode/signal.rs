//! Owns the distribution signal: whether a block's literals are close enough to incompressible
//! that its assembly is skipped.
//!
//! The signal is the Shannon lower bound of the literal bytes, in integers. No float operation
//! reads it, so it is the same on every platform.

use vstd::arithmetic::power2::*;
use vstd::prelude::*;

use crate::entropy::{bit_width, least, lemma_bit_width, shift_left, shift_right, width_for};

verus! {

/// The match bytes above which a block keeps the full assembly path.
///
/// At or below this count the encoder consults the distribution signal before assembling.
pub const EARLY_RAW_MATCHED_LIMIT: usize = 128;

/// The bytes the distribution signal may sit below the input length and still abort.
///
/// A block aborts to RAW only when its lower-bound code size reaches the input length minus
/// this tolerance.
pub const EARLY_RAW_TOLERANCE: usize = 512;

/// The fractional bits the integer base-2 logarithm carries.
pub const LOG_FRAC_BITS: u32 = 8;

/// The scale the Shannon sum carries: eight bits per byte times the logarithm scale.
pub const SHANNON_SCALE: u64 = 2_048;

/// The fractional part of `256 * log2((256 + i) / 256)`, rounded, for `i` in `0..256`.
///
/// The leading one of the normalized value is implicit, so the table holds the sub-unit part
/// only.
pub const LOG2_FRAC: [u16; 256] = [
    0, 1, 3, 4, 6, 7, 9, 10, 11, 13, 14, 16, 17, 18, 20, 21, 22, 24, 25, 26, 28, 29, 30, 32, 33,
    34, 36, 37, 38, 40, 41, 42, 44, 45, 46, 47, 49, 50, 51, 52, 54, 55, 56, 57, 59, 60, 61, 62, 63,
    65, 66, 67, 68, 69, 71, 72, 73, 74, 75, 77, 78, 79, 80, 81, 82, 84, 85, 86, 87, 88, 89, 90, 92,
    93, 94, 95, 96, 97, 98, 99, 100, 102, 103, 104, 105, 106, 107, 108, 109, 110, 111, 112, 113,
    114, 116, 117, 118, 119, 120, 121, 122, 123, 124, 125, 126, 127, 128, 129, 130, 131, 132, 133,
    134, 135, 136, 137, 138, 139, 140, 141, 142, 143, 144, 145, 146, 147, 148, 149, 150, 151, 152,
    153, 154, 155, 155, 156, 157, 158, 159, 160, 161, 162, 163, 164, 165, 166, 167, 168, 169, 169,
    170, 171, 172, 173, 174, 175, 176, 177, 178, 178, 179, 180, 181, 182, 183, 184, 185, 185, 186,
    187, 188, 189, 190, 191, 192, 192, 193, 194, 195, 196, 197, 198, 198, 199, 200, 201, 202, 203,
    203, 204, 205, 206, 207, 208, 208, 209, 210, 211, 212, 212, 213, 214, 215, 216, 216, 217, 218,
    219, 220, 220, 221, 222, 223, 224, 224, 225, 226, 227, 228, 228, 229, 230, 231, 231, 232, 233,
    234, 234, 235, 236, 237, 238, 238, 239, 240, 241, 241, 242, 243, 244, 244, 245, 246, 247, 247,
    248, 249, 249, 250, 251, 252, 252, 253, 254, 255, 255,
];

/// A value as nine significant bits: its leading bit at 256, and the eight bits below it.
pub open spec fn mantissa(value: nat) -> nat {
    let floor = (bit_width(value) - 1) as nat;
    if floor <= LOG_FRAC_BITS {
        value * pow2((LOG_FRAC_BITS - floor) as nat)
    } else {
        value / pow2((floor - LOG_FRAC_BITS) as nat)
    }
}

/// The base-2 logarithm of a value scaled by 256: the position of its leading bit, and the
/// fraction the eight bits below it give. Zero has none.
pub open spec fn log2_scaled(value: nat) -> nat {
    if value == 0 {
        0
    } else {
        (256 * (bit_width(value) - 1) + LOG2_FRAC@[mantissa(value) - 256]) as nat
    }
}

/// How often a byte occurs.
pub open spec fn byte_count(data: Seq<u8>, byte: int) -> nat
    decreases data.len(),
{
    if data.len() == 0 {
        0
    } else {
        byte_count(data.drop_last(), byte) + if data.last() == byte {
            1nat
        } else {
            0
        }
    }
}

/// A count as 32 bits hold it.
pub open spec fn counted(count: nat) -> nat {
    least(count, u32::MAX as nat)
}

/// What one byte value adds to the Shannon bound: its occurrences times the bits each spends.
pub open spec fn shannon_term(data: Seq<u8>, byte: int) -> nat {
    let freq = counted(byte_count(data, byte));
    let spent = log2_scaled(counted(data.len())) - log2_scaled(freq);
    if spent <= 0 {
        0
    } else {
        (freq * spent) as nat
    }
}

/// What the byte values below `upto` add to the Shannon bound.
pub open spec fn shannon_sum(data: Seq<u8>, upto: nat) -> nat
    decreases upto,
{
    if upto == 0 {
        0
    } else {
        shannon_sum(data, (upto - 1) as nat) + shannon_term(data, upto - 1)
    }
}

/// Whether a parsed block aborts to RAW before assembly: few bytes matched, and the literal
/// distribution's lower bound is within tolerance of the input length.
pub open spec fn aborts(matched_bytes: nat, literals: Seq<u8>, input_len: nat) -> bool {
    &&& matched_bytes <= EARLY_RAW_MATCHED_LIMIT
    &&& input_len <= EARLY_RAW_TOLERANCE || shannon_sum(literals, 256) >= least(
        ((input_len - EARLY_RAW_TOLERANCE) * SHANNON_SCALE) as nat,
        u64::MAX as nat,
    )
}

/// The mantissa of a value has its leading bit at 256.
pub proof fn lemma_mantissa(value: nat)
    requires
        value > 0,
    ensures
        256 <= mantissa(value) < 512,
{
    let floor = (bit_width(value) - 1) as nat;
    lemma2_to64();
    lemma_bit_width(value);
    lemma_pow2_unfold(floor + 1);
    assert(pow2(floor) <= value < 2 * pow2(floor)) by {
        if bit_width(value) == 1 {
            assert(pow2(0) == 1);
        }
    }
    if floor <= 8 {
        let rest = (8 - floor) as nat;
        lemma_pow2_adds(floor, rest);
        assert(pow2(floor) * pow2(rest) == 256);
        assert(256 <= value * pow2(rest) < 512) by (nonlinear_arith)
            requires
                pow2(floor) <= value < 2 * pow2(floor),
                pow2(floor) * pow2(rest) == 256,
                pow2(rest) > 0,
        {
            lemma_pow2_pos(rest);
        }
    } else {
        let rest = (floor - 8) as nat;
        lemma_pow2_pos(rest);
        lemma_pow2_adds(8, rest);
        let p = pow2(rest);
        assert(pow2(floor) == 256 * p);
        assert(256 <= value / p < 512) by (nonlinear_arith)
            requires
                256 * p <= value < 512 * p,
                p > 0,
        ;
    }
}

/// The logarithm is exact on powers of two.
pub proof fn law_log2_is_exact_on_powers_of_two(exponent: nat)
    ensures
        log2_scaled(pow2(exponent)) == 256 * exponent,
{
    let value = pow2(exponent);
    lemma2_to64();
    lemma_pow2_pos(exponent);
    lemma_bit_width(value);
    lemma_pow2_unfold(exponent + 1);
    if bit_width(value) > exponent + 1 {
        lemma_pow2_monotone(exponent + 1, (bit_width(value) - 1) as nat);
    }
    if bit_width(value) < exponent + 1 {
        lemma_pow2_monotone(bit_width(value), exponent);
    }
    assert(bit_width(value) == exponent + 1);
    if exponent <= 8 {
        lemma_pow2_adds(exponent, (8 - exponent) as nat);
    } else {
        let rest = (exponent - 8) as nat;
        lemma_pow2_adds(8, rest);
        lemma_pow2_pos(rest);
        let p = pow2(rest);
        assert((256 * p) / p == 256) by (nonlinear_arith)
            requires
                p > 0,
        ;
    }
    assert(mantissa(value) == 256);
    assert(LOG2_FRAC@[0] == 0);
}

/// The logarithm stays in the octave of the leading bit: at least its position times 256, and
/// less than one unit above it.
pub proof fn law_log2_stays_in_its_octave(value: nat)
    requires
        value > 0,
    ensures
        256 * (bit_width(value) - 1) <= log2_scaled(value) <= 256 * (bit_width(value) - 1) + 255,
{
    lemma_mantissa(value);
    lemma_fractions(mantissa(value) - 256);
}

/// The logarithm never falls as the value grows.
pub proof fn law_log2_is_monotone(low: nat, high: nat)
    requires
        low <= high,
    ensures
        log2_scaled(low) <= log2_scaled(high),
{
    if low > 0 {
        law_log2_stays_in_its_octave(low);
        law_log2_stays_in_its_octave(high);
        lemma_bit_width(low);
        lemma_bit_width(high);
        lemma2_to64();
        if bit_width(low) > bit_width(high) {
            lemma_pow2_monotone(bit_width(high), (bit_width(low) - 1) as nat);
        }
        if bit_width(low) == bit_width(high) {
            lemma_mantissa(low);
            lemma_mantissa(high);
            let floor = (bit_width(low) - 1) as nat;
            if floor <= 8 {
                let p = pow2((8 - floor) as nat);
                assert(low * p <= high * p) by (nonlinear_arith)
                    requires
                        low <= high,
                ;
            } else {
                lemma_pow2_pos((floor - 8) as nat);
                vstd::arithmetic::div_mod::lemma_div_is_ordered(
                    low as int,
                    high as int,
                    pow2((floor - 8) as nat) as int,
                );
            }
            lemma_fractions_ascend(mantissa(low) - 256, mantissa(high) - 256);
        }
    }
}

/// The fractions never fall.
proof fn lemma_fractions_ascend(low: int, high: int)
    requires
        0 <= low <= high < 256,
    ensures
        LOG2_FRAC@[low] <= LOG2_FRAC@[high],
    decreases high - low,
{
    if low < high {
        lemma_fractions_ascend(low, high - 1);
        lemma_fraction_follows(high);
    }
}

/// A fraction is at least the one before it.
#[verifier::rlimit(100)]
#[verifier::spinoff_prover]
proof fn lemma_fraction_follows(i: int)
    requires
        1 <= i < 256,
    ensures
        LOG2_FRAC@[i - 1] <= LOG2_FRAC@[i],
{
}

/// A larger exponent gives a power at least as large.
proof fn lemma_pow2_monotone(low: nat, high: nat)
    requires
        low <= high,
    ensures
        pow2(low) <= pow2(high),
{
    if low < high {
        lemma_pow2_strictly_increases(low, high);
    }
}

/// The integer base-2 logarithm of `value`, scaled by 256.
///
/// Exact on powers of two; within one table step elsewhere. Zero maps to zero and never
/// reaches the Shannon sum, whose callers skip empty inputs.
pub fn log2_fixed(value: u32) -> (scaled: u32)
    ensures
        scaled == log2_scaled(value as nat),
        scaled < 16_384,
{
    if value == 0 {
        return 0;
    }
    let width: u32 = width_for(value as u64);
    let floor: u32 = width - 1;
    proof {
        lemma_mantissa(value as nat);
        lemma_bit_width(value as nat);
        lemma2_to64();
        if width > 32 {
            lemma_pow2_monotone(32, (width - 1) as nat);
        }
    }
    let normalized: u64 = if floor <= LOG_FRAC_BITS {
        shift_left(value as u64, LOG_FRAC_BITS - floor)
    } else {
        shift_right(value as u64, floor - LOG_FRAC_BITS)
    };
    let frac: u16 = LOG2_FRAC[(normalized - 256) as usize];
    proof {
        lemma_fractions((normalized - 256) as int);
    }
    floor * 256 + frac as u32
}

/// Every fraction is below one unit of the scale.
proof fn lemma_fractions(i: int)
    requires
        0 <= i < 256,
    ensures
        LOG2_FRAC@[i] <= 255,
{
}

/// How often each byte value occurs, as 32 bits hold it.
fn byte_counts(data: &[u8]) -> (counts: [u32; 256])
    ensures
        forall|b: int| 0 <= b < 256 ==> #[trigger] counts@[b] == counted(byte_count(data@, b)),
{
    let mut counts: [u32; 256] = [0; 256];
    let total: usize = data.len();
    let mut at: usize = 0;
    proof {
        assert(data@.take(0) =~= Seq::empty());
    }
    while at < total
        invariant
            at <= total,
            total == data@.len(),
            forall|b: int|
                0 <= b < 256 ==> #[trigger] counts@[b] == counted(
                    byte_count(data@.take(at as int), b),
                ),
        decreases total - at,
    {
        let byte: usize = data[at] as usize;
        let held: u32 = counts[byte];
        let ghost before = counts@;
        counts[byte] = held.saturating_add(1);
        proof {
            let next = data@.take(at + 1);
            assert(next.drop_last() =~= data@.take(at as int));
            assert forall|b: int| 0 <= b < 256 implies #[trigger] counts@[b] == counted(
                byte_count(next, b),
            ) by {
                assert(before[b] == counted(byte_count(data@.take(at as int), b)));
            }
        }
        at = at + 1;
    }
    proof {
        assert(data@.take(at as int) =~= data@);
    }
    counts
}

/// The Shannon lower bound of `literals`, scaled by `2_048`.
///
/// The bound is `sum f * log2(n / f) / 8` in bytes with `n` the literal count; the scale folds
/// the division by eight and the logarithm scale out of the comparison.
pub fn shannon_scaled(literals: &[u8]) -> (scaled: u64)
    ensures
        scaled == shannon_sum(literals@, 256),
{
    let counts = byte_counts(literals);
    let length: usize = literals.len();
    let total: u32 = if length as u64 > u32::MAX as u64 {
        u32::MAX
    } else {
        length as u32
    };
    let log_total: u32 = log2_fixed(total);
    let mut scaled: u64 = 0;
    let mut byte: usize = 0;
    while byte < 256
        invariant
            byte <= 256,
            scaled == shannon_sum(literals@, byte as nat),
            scaled <= byte * (u32::MAX as int * 16_384),
            log_total == log2_scaled(counted(literals@.len())),
            log_total < 16_384,
            forall|b: int|
                0 <= b < 256 ==> #[trigger] counts@[b] == counted(byte_count(literals@, b)),
        decreases 256 - byte,
    {
        let freq: u32 = counts[byte];
        assert(counts@[byte as int] == counted(byte_count(literals@, byte as int)));
        let gap: u32 = log_total.saturating_sub(log2_fixed(freq));
        proof {
            assert(0 <= freq * gap <= u32::MAX as int * 16_384) by (nonlinear_arith)
                requires
                    0 <= freq <= u32::MAX,
                    0 <= gap <= 16_384,
            ;
            if gap == 0 {
                assert(freq * gap == 0);
            }
        }
        scaled = scaled + freq as u64 * gap as u64;
        byte = byte + 1;
    }
    scaled
}

/// Whether the parsed block aborts to RAW before assembly.
///
/// True exactly when few bytes matched and the literal distribution's lower-bound size is
/// within tolerance of the input length. Small inputs meet the size arm by construction, so
/// only a high match count keeps them on the assembly path.
pub fn abort_to_raw(matched_bytes: usize, literals: &[u8], input_len: usize) -> (aborted: bool)
    ensures
        aborted == aborts(matched_bytes as nat, literals@, input_len as nat),
{
    if matched_bytes > EARLY_RAW_MATCHED_LIMIT {
        return false;
    }
    if input_len <= EARLY_RAW_TOLERANCE {
        return true;
    }
    let over: u64 = (input_len - EARLY_RAW_TOLERANCE) as u64;
    let threshold: u64 = match over.checked_mul(SHANNON_SCALE) {
        Some(threshold) => threshold,
        None => u64::MAX,
    };
    shannon_scaled(literals) >= threshold
}

} // verus!
