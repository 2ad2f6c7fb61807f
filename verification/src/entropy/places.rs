//! Owns where a bit stands: the most significant of a value first, and the first of a byte in its
//! highest place.

use vstd::arithmetic::div_mod::lemma_div_denominator;
use vstd::arithmetic::power2::*;
use vstd::prelude::*;

use super::bits::{bit_at, bits_of, lemma_bits_of_len, lemma_pack, pack, window, zeros};

verus! {

/// A value is written from its highest place down: the bit `i` places from the front of `width` is
/// worth two to the power of the places behind it.
pub proof fn law_bits_stand_most_significant_first(value: nat, width: nat, i: int)
    requires
        0 <= i < width,
    ensures
        bits_of(value, width).len() == width,
        bits_of(value, width)[i] <==> (value / pow2((width - 1 - i) as nat)) % 2 == 1,
    decreases width,
{
    lemma_bits_of_len(value, width);
    lemma2_to64();
    if i < width - 1 {
        law_bits_stand_most_significant_first(value / 2, (width - 1) as nat, i);
        lemma_bits_of_len(value / 2, (width - 1) as nat);
        let rest = (width - 2 - i) as nat;
        lemma_pow2_unfold(rest + 1);
        lemma_pow2_pos(rest);
        lemma_div_denominator(value as int, 2, pow2(rest) as int);
    } else {
        lemma_bits_of_len(value / 2, (width - 1) as nat);
        assert(value / 1 == value);
    }
}

/// A run of bits fills its bytes in turn, each from its highest place down, and the places of the
/// last byte that are left hold nothing.
pub proof fn law_bits_fill_their_bytes(bits: Seq<bool>, i: int)
    requires
        0 <= i < 8 * pack(bits).len(),
    ensures
        8 * pack(bits).len() < bits.len() + 8,
        8 * pack(bits).len() >= bits.len(),
        (pack(bits)[i / 8] as nat / pow2((7 - i % 8) as nat)) % 2 == 1 <==> i < bits.len()
            && bits[i],
{
    let bytes = pack(bits);
    lemma_pack(bits);
    law_bits_stand_most_significant_first(bytes[i / 8] as nat, 8, i % 8);
    let padded = bits + zeros((8 * bytes.len() - bits.len()) as nat);
    assert(window(bytes, 0, 8 * bytes.len())[i] == padded[i]);
    assert(window(bytes, 0, 8 * bytes.len())[i] == bit_at(bytes, i));
}

} // verus!
