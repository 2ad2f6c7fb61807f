//! Owns entropy coding: the coders, the table descriptions they transmit, the validation a
//! decoder applies to a description before it allocates, and the bit IO they run on.
//!
//! This module does not own sequence representation, the parse that produced it, or the block
//! that carries the descriptions.
//!
//! One coder per symbol class, and one rANS implementation with the state count as a parameter
//! rather than one coder per state count:
//!
//! ```text
//! literal bytes     canonical Huffman, length limited, single-level table
//! literal runs      rANS, 1 state
//! match lengths     rANS, 2 states
//! match distances   rANS, 4 states
//! ```
//!
//! Every coder follows the same order, and the order is the contract:
//!
//! ```text
//! parse       bits -> what a decoder has read and does not yet trust
//! validate    what it read -> what it may allocate, or a typed rejection
//! build       an admitted description -> the decode table
//! ```
//!
//! A decode table is reachable only from an admitted description, and an admitted description
//! is reachable only from validation, so no allocation can precede the validation that sizes
//! it.

pub mod bits;
pub mod huffman;
pub mod places;
pub mod rans;

use vstd::prelude::*;
use vstd::arithmetic::power2::{
    lemma2_to64, lemma_pow2_adds, lemma_pow2_pos, lemma_pow2_strictly_increases,
    lemma_pow2_unfold, pow2,
};
use vstd::bits::{lemma_u128_shr_is_div, lemma_u64_shr_is_div};
use crate::format::Error;

verus! {

/// The peak table memory one block may declare, over every table it decodes under.
///
/// A version-1 constant. The ceiling binds the encoder as well as the stream, and an encoder
/// that cannot meet it reports failure to its caller rather than emitting a block a decoder
/// refuses.
pub const MAX_BLOCK_TABLE_BYTES: u64 = 65_536;

/// The widest alphabet a coder's table holds.
///
/// Both table shapes carry the symbol in eight bits.
pub const MAX_ALPHABET_SIZE: u32 = 256;

/// The smaller of two naturals.
pub open spec fn least(a: nat, b: nat) -> nat {
    if a <= b { a } else { b }
}

/// Admits a block's declared peak table memory, or refuses it.
///
/// The figure is a sum over the descriptions a block carries, computed from the descriptions
/// alone, so a decoder calls this before it builds any of the tables.
pub fn admit_table_bytes(declared: u64) -> (admitted: Result<u64, Error>)
    ensures
        declared <= MAX_BLOCK_TABLE_BYTES ==> admitted == Ok::<u64, Error>(declared),
        declared > MAX_BLOCK_TABLE_BYTES ==> admitted == Err::<u64, Error>(
            Error::LimitExceeded { declared, allowed: MAX_BLOCK_TABLE_BYTES },
        ),
{
    if declared > MAX_BLOCK_TABLE_BYTES {
        return Err(Error::LimitExceeded { declared, allowed: MAX_BLOCK_TABLE_BYTES });
    }
    Ok(declared)
}

/// The smallest power of two at or above `value`, as an exponent.
pub open spec fn ceil_log(value: nat) -> nat {
    if value <= 1 {
        0
    } else {
        bit_width((value - 1) as nat)
    }
}

/// A value is at most the power of two at or above it, and above the one before.
pub proof fn lemma_ceil_log(value: nat)
    ensures
        value <= pow2(ceil_log(value)),
        ceil_log(value) > 0 ==> pow2((ceil_log(value) - 1) as nat) < value,
{
    lemma2_to64();
    if value > 1 {
        lemma_bit_width((value - 1) as nat);
    }
}

/// The smallest power of two at or above `value`, as an exponent.
pub fn ceil_log2(value: u64) -> (exponent: u32)
    ensures
        exponent as nat == ceil_log(value as nat),
        exponent <= 64,
        value <= pow2(exponent as nat),
        exponent > 0 ==> pow2((exponent - 1) as nat) < value,
{
    proof {
        lemma_ceil_log(value as nat);
    }
    if value <= 1 {
        0
    } else {
        width_for(value - 1)
    }
}

/// The bits a value at most `bound` needs.
pub open spec fn bit_width(bound: nat) -> nat
    decreases bound,
{
    if bound < 2 {
        1
    } else {
        1 + bit_width(bound / 2)
    }
}

/// A value fits the bits it needs, and no fewer.
pub proof fn lemma_bit_width(bound: nat)
    ensures
        bit_width(bound) >= 1,
        bound < pow2(bit_width(bound)),
        bit_width(bound) > 1 ==> pow2((bit_width(bound) - 1) as nat) <= bound,
    decreases bound,
{
    lemma2_to64();
    if bound >= 2 {
        lemma_bit_width(bound / 2);
        let w = bit_width(bound / 2);
        lemma_pow2_unfold(w + 1);
        lemma_pow2_unfold(w);
    }
}

/// The bits a value at most `bound` needs.
pub fn width_for(bound: u64) -> (width: u32)
    ensures
        width as nat == bit_width(bound as nat),
        1 <= width <= 64,
{
    proof {
        lemma_bit_width(bound as nat);
        lemma2_to64();
        let w = bit_width(bound as nat);
        if w > 65 {
            lemma_pow2_strictly_increases(64, (w - 1) as nat);
        }
    }
    let mut width: u32 = 1;
    let mut rest: u64 = bound;
    while rest >= 2
        invariant
            1 <= width,
            bit_width(bound as nat) <= 64,
            bit_width(bound as nat) == width - 1 + bit_width(rest as nat),
        decreases rest,
    {
        proof {
            lemma_bit_width(rest as nat / 2);
        }
        width = width + 1;
        rest = rest / 2;
    }
    width
}

/// `value * 2^by`, keeping the low 64 bits.
pub fn shift_left(value: u64, by: u32) -> (shifted: u64)
    ensures
        shifted as nat == (value * pow2(by as nat)) as nat % pow2(64),
        value * pow2(by as nat) < pow2(64) ==> shifted == value * pow2(by as nat),
{
    proof {
        lemma_shift_left(value, by);
    }
    if by >= 64 {
        0
    } else {
        value << by
    }
}

/// `value / 2^by`, rounded down.
pub fn shift_right(value: u64, by: u32) -> (shifted: u64)
    ensures
        shifted as nat == value as nat / pow2(by as nat),
{
    if by >= 64 {
        proof {
            lemma2_to64();
            if by > 64 {
                lemma_pow2_strictly_increases(64, by as nat);
            }
            vstd::arithmetic::div_mod::lemma_basic_div(value as int, pow2(by as nat) as int);
        }
        0
    } else {
        proof {
            lemma_u64_shr_is_div(value, by as u64);
        }
        value >> by
    }
}

/// `value / 2^by`, rounded down.
pub fn shift_right_wide(value: u128, by: u32) -> (shifted: u128)
    ensures
        shifted as nat == value as nat / pow2(by as nat),
{
    if by >= 128 {
        proof {
            lemma2_to64();
            lemma_pow2_adds(64, 64);
            assert(pow2(128) == 0x1_0000_0000_0000_0000int * 0x1_0000_0000_0000_0000int);
            if by > 128 {
                lemma_pow2_strictly_increases(128, by as nat);
            }
            vstd::arithmetic::div_mod::lemma_basic_div(value as int, pow2(by as nat) as int);
        }
        0
    } else {
        proof {
            lemma_u128_shr_is_div(value, by as u128);
        }
        value >> by
    }
}

/// The low eight bits of a value.
pub fn low_byte(value: u64) -> (byte: u8)
    ensures
        byte as nat == value as nat % 256,
{
    assert((value & 0xFF) as u8 == value % 256) by (bit_vector);
    (value & 0xFF) as u8
}

proof fn lemma_shift_left(value: u64, by: u32)
    ensures
        by < 64 ==> (value << by) as nat == (value * pow2(by as nat)) as nat % pow2(64),
        by >= 64 ==> (value * pow2(by as nat)) as nat % pow2(64) == 0,
        0 <= value * pow2(by as nat),
        value * pow2(by as nat) < pow2(64) ==> (value * pow2(by as nat)) as nat % pow2(64)
            == value * pow2(by as nat),
    decreases by,
{
    lemma2_to64();
    lemma_pow2_pos(by as nat);
    assert(0 <= value * pow2(by as nat)) by (nonlinear_arith)
        requires
            pow2(by as nat) > 0,
    ;
    if by >= 64 {
        lemma_pow2_adds((by - 64) as nat, 64);
        let k = pow2((by - 64) as nat);
        assert((value * (k * pow2(64))) == (value * k) * pow2(64)) by (nonlinear_arith);
        vstd::arithmetic::div_mod::lemma_mod_multiples_basic(value * k, pow2(64) as int);
    } else if by == 0 {
        assert(value << 0u32 == value) by (bit_vector);
        assert(value * pow2(0) == value);
    } else {
        lemma_shift_left(value, (by - 1) as u32);
        lemma_pow2_adds(1, (by - 1) as nat);
        let less: u32 = (by - 1) as u32;
        assert(value << by == ((value << less) % 0x8000_0000_0000_0000) * 2) by (bit_vector)
            requires
                0 < by < 64,
                less == by - 1,
        ;
        let half = pow2((by - 1) as nat);
        assert(value * (2 * half) == 2 * (value * half)) by (nonlinear_arith);
        let a: int = value * half;
        assert((2 * a) % 0x1_0000_0000_0000_0000 == 2 * ((a % 0x1_0000_0000_0000_0000)
            % 0x8000_0000_0000_0000));
        assert((value << less) as nat == (a as nat) % pow2(64));
        assert((value << less) as int == a % 0x1_0000_0000_0000_0000);
        assert((value << by) as int == (2 * a) % 0x1_0000_0000_0000_0000);
        assert(value * pow2(by as nat) == 2 * a);
    }
}

} // verus!
