//! Owns what a coded value spends: a symbol for its three leading bits and the rest as it is, and
//! a symbol alone for the distance last used.

use vstd::arithmetic::power2::*;
use vstd::prelude::*;

use super::streams::{distances_of, slot_after};
use super::{
    lemma_bucket_of, lemma_bucket_owns, lemma_buckets_meet, low_of_bucket, width_of_bucket,
    Alphabet, Step,
};
use crate::entropy::bits::lemma_bits_of_len;
use crate::entropy::lemma_bit_width;

verus! {

/// What an alphabet's symbols count from: the values of the distances leave one to the offset
/// slot.
pub open spec fn reserved(alphabet: Alphabet) -> nat {
    if alphabet == Alphabet::MatchDistance {
        1
    } else {
        0
    }
}

/// A value is coded by its three leading bits. One below eight is its symbol alone. One of eight
/// or more has as many suffix bits as it has bits below the leading three. The symbols take the
/// values in order, from the first, and leave none out.
pub proof fn law_a_symbol_keeps_the_three_leading_bits(alphabet: Alphabet, value: nat)
    requires
        alphabet != Alphabet::LiteralByte,
        value >= 1,
    ensures
        ({
            let coded = value + reserved(alphabet);
            let symbol = alphabet.symbol_for(coded);
            let width = alphabet.width(symbol);
            let next = alphabet.symbol_for(coded + 1);
            &&& value < 8 ==> width == 0 && symbol == coded - 1
            &&& value >= 8 ==> pow2(width + 2) <= value < pow2(width + 3)
            &&& next == symbol || next == symbol + 1
            &&& next == symbol <==> coded + 1 < alphabet.low(symbol) + pow2(width)
            &&& alphabet.low(symbol) <= coded < alphabet.low(symbol) + pow2(width)
        }),
{
    let coded = value + reserved(alphabet);
    let symbol = alphabet.symbol_for(coded);
    let bucket = (symbol - reserved(alphabet)) as nat;
    let width = width_of_bucket(bucket);
    lemma_bucket_of(value);
    lemma_bit_width(value);
    if value >= 8 {
        lemma_bucket_of(value + 1);
    }
    if value + 1 < low_of_bucket(bucket) + pow2(width) {
        lemma_bucket_owns(bucket, value + 1);
    } else {
        lemma_buckets_meet(bucket);
        lemma_pow2_pos(width_of_bucket(bucket + 1));
        lemma_bucket_owns(bucket + 1, value + 1);
    }
}

/// What each class codes of a value: a byte as it is; a run from none up to 65,536, counted from
/// one; a match length from four up to 256, counted from one; and a distance from one up to
/// 65,536, counted from two.
pub proof fn law_values_are_counted_from_their_smallest(alphabet: Alphabet, raw: nat)
    ensures
        alphabet.holds(raw) <==> match alphabet {
            Alphabet::LiteralByte => raw < 256,
            Alphabet::LiteralRun => raw <= 65_536,
            Alphabet::MatchLength => 4 <= raw <= 256,
            Alphabet::MatchDistance => 1 <= raw <= 65_536,
        },
        alphabet.holds(raw) ==> alphabet.codes(alphabet.code(raw)) && match alphabet {
            Alphabet::LiteralByte => alphabet.code(raw) == raw,
            Alphabet::LiteralRun => alphabet.code(raw) == raw + 1,
            Alphabet::MatchLength => alphabet.code(raw) + 3 == raw,
            Alphabet::MatchDistance => alphabet.code(raw) == raw + 1,
        },
{
}

/// Whether a distance is the last one a list of steps used, or the one in the slot where none of
/// them used any.
pub open spec fn last_used(steps: Seq<Step>, slot: Option<u32>, distance: u32) -> bool {
    ||| exists|k: int|
        0 <= k < steps.len() && (#[trigger] steps[k]).matched is Some && (steps[k].matched->0).distance
            == distance && forall|j: int|
            k < j < steps.len() ==> (#[trigger] steps[j]).matched is None
    ||| slot == Some(distance) && forall|j: int|
        0 <= j < steps.len() ==> (#[trigger] steps[j]).matched is None
}

/// The slot after a list of steps holds the distance last used.
proof fn lemma_last_used(steps: Seq<Step>, slot: Option<u32>, distance: u32)
    ensures
        slot_after(steps, slot) == Some(distance) <==> last_used(steps, slot, distance),
    decreases steps.len(),
{
    if steps.len() > 0 {
        let n = steps.len() - 1;
        let less = steps.drop_last();
        assert(forall|j: int| 0 <= j < n ==> #[trigger] less[j] == steps[j]);
        if steps.last().matched is Some {
            assert(steps[n].matched is Some);
            if last_used(steps, slot, distance) {
                assert((steps[n].matched->0).distance == distance);
            }
        } else {
            lemma_last_used(less, slot, distance);
            if last_used(less, slot, distance) {
                if exists|k: int|
                    0 <= k < n && (#[trigger] less[k]).matched is Some && (
                    less[k].matched->0).distance == distance && forall|j: int|
                        k < j < n ==> (#[trigger] less[j]).matched is None {
                    let k = choose|k: int|
                        0 <= k < n && (#[trigger] less[k]).matched is Some && (
                        less[k].matched->0).distance == distance && forall|j: int|
                            k < j < n ==> (#[trigger] less[j]).matched is None;
                    assert(steps[k].matched is Some);
                    assert forall|j: int| k < j < steps.len() implies (
                    #[trigger] steps[j]).matched is None by {
                        if j < n {
                            assert(less[j].matched is None);
                        }
                    }
                } else {
                    assert forall|j: int| 0 <= j < steps.len() implies (
                    #[trigger] steps[j]).matched is None by {
                        if j < n {
                            assert(less[j].matched is None);
                        }
                    }
                }
                assert(last_used(steps, slot, distance));
            }
            if last_used(steps, slot, distance) {
                if exists|k: int|
                    0 <= k < steps.len() && (#[trigger] steps[k]).matched is Some && (
                    steps[k].matched->0).distance == distance && forall|j: int|
                        k < j < steps.len() ==> (#[trigger] steps[j]).matched is None {
                    let k = choose|k: int|
                        0 <= k < steps.len() && (#[trigger] steps[k]).matched is Some && (
                        steps[k].matched->0).distance == distance && forall|j: int|
                            k < j < steps.len() ==> (#[trigger] steps[j]).matched is None;
                    assert(less[k].matched is Some);
                }
                assert(last_used(less, slot, distance));
            }
        }
    }
}

/// A match at the distance last used takes the first distance symbol and no suffix, and a match at
/// any other distance never does. A step without a match adds nothing to the distances.
pub proof fn law_the_distance_last_used_takes_one_symbol(
    steps: Seq<Step>,
    slot: Option<u32>,
    step: Step,
)
    requires
        step.matched matches Some(found) ==> 1 <= found.distance <= 65_536,
    ensures
        ({
            let before = distances_of(steps, slot);
            let after = distances_of(steps.push(step), slot);
            match step.matched {
                None => after == before,
                Some(found) => {
                    let symbol = after.symbols.last();
                    &&& after.symbols == before.symbols.push(symbol)
                    &&& symbol == 0 <==> last_used(steps, slot, found.distance)
                    &&& symbol == 0 ==> after.suffix == before.suffix
                    &&& symbol != 0 ==> after.suffix.len() == before.suffix.len()
                        + Alphabet::MatchDistance.width(symbol as nat)
                },
            }
        }),
{
    assert(steps.push(step).drop_last() =~= steps);
    if let Some(found) = step.matched {
        let before = distances_of(steps, slot);
        lemma_last_used(steps, slot, found.distance);
        let coded = Alphabet::MatchDistance.code(found.distance as nat);
        Alphabet::MatchDistance.law_symbol_names_its_value(coded, 0);
        Alphabet::MatchDistance.law_symbol_names_its_value(1, 0);
        lemma_bucket_of(found.distance as nat);
        let symbol = Alphabet::MatchDistance.symbol_for(coded);
        lemma_bits_of_len(
            (coded - Alphabet::MatchDistance.low(symbol)) as nat,
            Alphabet::MatchDistance.width(symbol),
        );
        assert(before.suffix + Seq::<bool>::empty() =~= before.suffix);
    }
}

} // verus!
