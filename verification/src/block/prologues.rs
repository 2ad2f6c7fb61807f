//! Owns how a prologue is told: which quantity stands where, and which refusal comes first.

use vstd::arithmetic::power2::*;
use vstd::prelude::*;

use super::acceptance::named_by_mode;
use crate::format::prologue::{
    counts_refused, mode_read, prologue_read, quantities_read, sections_refused, Extents,
};
use crate::format::wire::{lemma_varint_bound, varint_read};
use crate::format::{Corruption, Error, Feature};

verus! {

/// The quantity with `index` quantities before it, from a position on, and where it ends.
pub open spec fn quantity(input: Seq<u8>, at: nat, index: nat) -> (nat, nat)
    decreases index,
{
    if index == 0 {
        varint_read(input, at, 0)->Ok_0
    } else {
        varint_read(input, quantity(input, at, (index - 1) as nat).1, 0)->Ok_0
    }
}

/// Quantities behind quantities are counted on.
proof fn lemma_quantity_on(input: Seq<u8>, at: nat, few: nat, index: nat)
    requires
        few > 0,
    ensures
        quantity(input, at, few + index) == quantity(
            input,
            quantity(input, at, (few - 1) as nat).1,
            index,
        ),
    decreases index,
{
    if index > 0 {
        lemma_quantity_on(input, at, few, (index - 1) as nat);
    }
}

/// Quantities that are read are the ones that stand there.
proof fn lemma_quantities(input: Seq<u8>, at: nat, count: nat)
    requires
        count > 0,
    ensures
        quantities_read(input, at, count) matches Ok((values, next)) ==> {
            &&& values.len() == count
            &&& next == quantity(input, at, (count - 1) as nat).1
            &&& forall|k: int|
                0 <= k < count ==> #[trigger] values[k] == quantity(input, at, k as nat).0
        },
    decreases count,
{
    lemma2_to64();
    if count > 1 {
        lemma_quantities(input, at, (count - 1) as nat);
        if let Ok((_, next)) = quantities_read(input, at, (count - 1) as nat) {
            lemma_varint_bound(input, next, 0);
        }
    } else {
        reveal_with_fuel(quantities_read, 2);
        lemma_varint_bound(input, at, 0);
    }
}

/// How a prologue is told. The model comes first, one byte, and is 1. The table memory follows as
/// a quantity, then the mode, one byte, where the block is not the first of its region. Sixteen
/// quantities follow: the four counts, the bits of the four descriptions, of the four payloads and
/// of the four suffixes.
#[verifier::spinoff_prover]
#[verifier::rlimit(40)]
pub proof fn law_a_prologue_is_told_in_turn(
    input: Seq<u8>,
    size: u32,
    first: bool,
    limit: u64,
)
    requires
        prologue_read(input, size, first, limit) is Ok,
    ensures
        ({
            let (extents, used) = prologue_read(input, size, first, limit)->Ok_0;
            let (table_bytes, after) = quantity(input, 1, 0);
            let at = if first {
                after
            } else {
                after + 1
            };
            &&& input[0] == 1
            &&& extents.table_bytes == table_bytes
            &&& first ==> extents.mode == 0
            &&& !first ==> extents.mode == input[after as int]
            &&& forall|k: int|
                0 <= k < 4 ==> #[trigger] extents.counts[k] == quantity(input, at, k as nat).0
            &&& forall|k: int|
                0 <= k < 4 ==> #[trigger] extents.description_bits[k] == quantity(
                    input,
                    at,
                    4 + k as nat,
                ).0
            &&& forall|k: int|
                0 <= k < 4 ==> #[trigger] extents.payload_bits[k] == quantity(
                    input,
                    at,
                    8 + k as nat,
                ).0
            &&& forall|k: int|
                0 <= k < 4 ==> #[trigger] extents.suffix_bits[k] == quantity(
                    input,
                    at,
                    12 + k as nat,
                ).0
            &&& used == quantity(input, at, 15).1
        }),
{
    let (extents, used) = prologue_read(input, size, first, limit)->Ok_0;
    lemma2_to64();
    lemma_varint_bound(input, 1, 0);
    let (table_bytes, after) = varint_read(input, 1, 0)->Ok_0;
    let (_, b) = mode_read(input, after, first)->Ok_0;
    let (_, c) = quantities_read(input, b, 4)->Ok_0;
    let (_, d) = quantities_read(input, c, 4)->Ok_0;
    let (_, e) = quantities_read(input, d, 4)->Ok_0;
    lemma_quantities(input, b, 4);
    lemma_quantities(input, c, 4);
    lemma_quantities(input, d, 4);
    lemma_quantities(input, e, 4);
    lemma_quantity_on(input, b, 4, 3);
    lemma_quantity_on(input, b, 8, 3);
    lemma_quantity_on(input, b, 12, 3);
    assert forall|k: int| 0 <= k < 4 implies #[trigger] extents.description_bits[k] == quantity(
        input,
        b,
        4 + k as nat,
    ).0 by {
        lemma_quantity_on(input, b, 4, k as nat);
    }
    assert forall|k: int| 0 <= k < 4 implies #[trigger] extents.payload_bits[k] == quantity(
        input,
        b,
        8 + k as nat,
    ).0 by {
        lemma_quantity_on(input, b, 8, k as nat);
    }
    assert forall|k: int| 0 <= k < 4 implies #[trigger] extents.suffix_bits[k] == quantity(
        input,
        b,
        12 + k as nat,
    ).0 by {
        lemma_quantity_on(input, b, 12, k as nat);
    }
}

/// Which refusal of a prologue comes first, up to its counts: a byte that is not there, another
/// model, the refusal of the first quantity, more table memory than the limit, and a mode of 16
/// and more.
pub proof fn law_prologues_are_refused_in_order(
    input: Seq<u8>,
    size: u32,
    first: bool,
    limit: u64,
)
    requires
        input.len() < usize::MAX,
    ensures
        ({
            let answer = prologue_read(input, size, first, limit);
            if input.len() == 0 {
                answer == Err::<(Extents, nat), Error>(Error::TruncatedInput { needed: 1 })
            } else if input[0] != 1 {
                answer == Err::<(Extents, nat), Error>(
                    Error::UnsupportedFeature(Feature::BlockModel { model: input[0] }),
                )
            } else {
                match varint_read(input, 1, 0) {
                    Err(error) => answer == Err::<(Extents, nat), Error>(error),
                    Ok((declared, at)) => {
                        &&& declared > limit ==> answer == Err::<(Extents, nat), Error>(
                            Error::LimitExceeded { declared: declared as u64, allowed: limit },
                        )
                        &&& declared <= limit && !first && at == input.len() ==> answer == Err::<
                            (Extents, nat),
                            Error,
                        >(Error::TruncatedInput { needed: (at + 1) as usize })
                        &&& declared <= limit && !first && at < input.len() && input[at as int]
                            >= 16 ==> answer == Err::<(Extents, nat), Error>(
                            Error::CorruptData(Corruption::ModeReserved),
                        )
                    },
                }
            }
        }),
{
    lemma_varint_bound(input, 1, 0);
}

/// Whether a count is above a size.
pub open spec fn count_above(extents: Extents, size: u32) -> bool {
    extents.counts[0] > size || extents.counts[1] > size || extents.counts[2] > size
        || extents.counts[3] > size
}

/// Whether a stream without symbols names a table.
pub open spec fn names_nothing(extents: Extents, i: int) -> bool {
    extents.counts[i] == 0 && named_by_mode(extents.mode, i)
}

/// Whether a description is there that should not be, or the other way round.
pub open spec fn description_stray(extents: Extents, i: int) -> bool {
    (extents.description_bits[i] > 0) != (extents.counts[i] > 0 && !named_by_mode(extents.mode, i))
}

/// Whether a stream without symbols has a payload or a suffix.
pub open spec fn section_stray(extents: Extents, i: int) -> bool {
    extents.counts[i] == 0 && (extents.payload_bits[i] > 0 || extents.suffix_bits[i] > 0)
}

/// Which refusal of the quantities of a prologue comes first: a count above the block's size,
/// counts that are not of one block, a table named for no symbols, then a description that is
/// stray, then a section that is, the suffix of the literal bytes among them.
pub proof fn law_quantities_are_refused_in_order(extents: Extents, size: u32)
    requires
        extents.mode < 16,
        extents.counts.len() == 4,
    ensures
        counts_refused(extents, size) == if count_above(extents, size) {
            Some(Error::CorruptData(Corruption::BlockCount))
        } else if extents.counts[1] != extents.counts[2] || extents.counts[3] > extents.counts[2] {
            Some(Error::CorruptData(Corruption::SequenceCount))
        } else if names_nothing(extents, 0) || names_nothing(extents, 1) || names_nothing(extents, 2)
            || names_nothing(extents, 3) {
            Some(Error::CorruptData(Corruption::ModeStream))
        } else {
            None
        },
        extents.description_bits.len() == 4 && extents.payload_bits.len() == 4
            && extents.suffix_bits.len() == 4 ==> sections_refused(extents)
            == if description_stray(extents, 0) || description_stray(
            extents,
            1,
        ) || description_stray(extents, 2) || description_stray(extents, 3) {
            Some(Error::CorruptData(Corruption::BlockDescription))
        } else if extents.suffix_bits[0] > 0 || section_stray(extents, 0) || section_stray(
            extents,
            1,
        ) || section_stray(extents, 2) || section_stray(extents, 3) {
            Some(Error::CorruptData(Corruption::BlockSection))
        } else {
            None
        },
{
    assert(extents.repeats(0) == named_by_mode(extents.mode, 0));
    assert(extents.repeats(1) == named_by_mode(extents.mode, 1));
    assert(extents.repeats(2) == named_by_mode(extents.mode, 2));
    assert(extents.repeats(3) == named_by_mode(extents.mode, 3));
}

} // verus!
