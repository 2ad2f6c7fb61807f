//! Owns what an emitter answers and keeps for a block, whatever its type.

use vstd::prelude::*;

use crate::block::encoder::adopted;
use crate::block::tables::ClassTable;
use crate::encode::{
    all_equal, fresh_emitter, lemma_only_tables_refuse, recorded, steady_bytes, stored_block,
    Emission, EmitterState, Mode, Statistics,
};
use crate::format::wire::lemma_le_len;
use crate::format::{BlockHeader, BlockType};
use crate::matchfinder::ChainState;
use crate::parser::MatcherState;
use crate::sequence::Step;

verus! {

/// A block is RLE exactly where it is one byte, repeated, and then stores that byte and no other.
/// A block of a single byte is RAW.
pub proof fn law_a_block_of_one_byte_is_rle(state: EmitterState, input: Seq<u8>, first: bool)
    requires
        state.valid(),
        0 < input.len() <= 65_536,
    ensures
        ({
            let emission = state.emission(input, first);
            &&& emission.kind == BlockType::Rle <==> input.len() >= 2 && (forall|i: int, j: int|
                0 <= i < j < input.len() ==> #[trigger] input[i] == #[trigger] input[j])
            &&& emission.kind == BlockType::Rle ==> emission.payload == seq![input[0]]
            &&& emission.kind == BlockType::Raw ==> emission.payload == input
            &&& input.len() == 1 ==> emission.kind == BlockType::Raw
        }),
{
    reveal(EmitterState::assembly);
    lemma_only_tables_refuse(state, input, first);
    if all_equal(input) {
        assert forall|i: int, j: int| 0 <= i < j < input.len() implies #[trigger] input[i]
            == #[trigger] input[j] by {
            assert(input[i] == input[0]);
            assert(input[j] == input[0]);
        }
    } else if input.len() >= 2 && (forall|i: int, j: int|
        0 <= i < j < input.len() ==> #[trigger] input[i] == #[trigger] input[j]) {
        assert forall|i: int| 0 <= i < input.len() implies #[trigger] input[i] == input[0] by {
            if i > 0 {
                assert(input[0] == input[i]);
            }
        }
    }
}

/// The trues of a list of four.
pub open spec fn trues(list: Seq<bool>) -> nat {
    list.filter(|named: bool| named).len()
}

/// An emitter moves over every block. The parse has moved over its bytes whatever its type. The
/// tables and the offset slot move with a COMPRESSED block and stand still for any other. The
/// record grows by what was read and what was stored, header and payload, by one block, by one of
/// its type, by one refusal where the assembly was refused its table memory, and by the streams
/// that named a table. The policy, the block size and the mode stay.
pub proof fn law_the_record_counts_what_is_emitted(
    state: EmitterState,
    input: Seq<u8>,
    first: bool,
    last: bool,
)
    requires
        state.valid(),
        0 < input.len() <= 65_536,
        state.statistics.input_bytes + 65_536 <= u64::MAX,
        state.statistics.output_bytes + 65_540 <= u64::MAX,
        state.statistics.blocks < u64::MAX,
        state.statistics.raw_blocks < u64::MAX,
        state.statistics.rle_blocks < u64::MAX,
        state.statistics.compressed_blocks < u64::MAX,
        state.statistics.table_limited_blocks < u64::MAX,
        state.statistics.streams_repeated + 4 <= u64::MAX,
    ensures
        ({
            let emission = state.emission(input, first);
            let after = state.after(input, first);
            let old_record = state.statistics;
            let new_record = after.statistics;
            &&& after.parser == state.parser.after(input)
            &&& emission.kind == BlockType::Compressed <==> emission.assembly is Some
            &&& emission.kind != BlockType::Compressed ==> after.tables == state.tables
            &&& emission.kind == BlockType::Compressed ==> after.tables == adopted(
                state.tables,
                emission.assembly->0,
            )
            &&& after.limit == state.limit && after.mode == state.mode && after.block_bytes
                == state.block_bytes
            &&& new_record.input_bytes == old_record.input_bytes + input.len()
            &&& new_record.output_bytes == old_record.output_bytes + stored_block(
                emission,
                last,
                input.len(),
            ).len()
            &&& new_record.blocks == old_record.blocks + 1
            &&& new_record.raw_blocks - old_record.raw_blocks == if emission.kind == BlockType::Raw {
                1int
            } else {
                0
            }
            &&& new_record.rle_blocks - old_record.rle_blocks == if emission.kind == BlockType::Rle {
                1int
            } else {
                0
            }
            &&& new_record.compressed_blocks - old_record.compressed_blocks == if emission.kind
                == BlockType::Compressed {
                1int
            } else {
                0
            }
            &&& new_record.table_limited_blocks - old_record.table_limited_blocks
                == if emission.limited {
                1int
            } else {
                0
            }
            &&& new_record.streams_repeated - old_record.streams_repeated == if emission.kind
                == BlockType::Compressed {
                trues((emission.assembly->0).repeated) as int
            } else {
                0
            }
        }),
{
    reveal(EmitterState::assembly);
    lemma_only_tables_refuse(state, input, first);
    let emission = state.emission(input, first);
    let header = BlockHeader { last, kind: emission.kind, size: input.len() as u32 };
    lemma_le_len(header.word(), 4);
    if let Some(shape) = emission.assembly {
        lemma_trues(shape.repeated);
    }
}

proof fn lemma_trues(list: Seq<bool>)
    requires
        list.len() == 4,
    ensures
        trues(list) == (if list[0] {
            1nat
        } else {
            0
        }) + (if list[1] {
            1nat
        } else {
            0
        }) + (if list[2] {
            1nat
        } else {
            0
        }) + (if list[3] {
            1nat
        } else {
            0
        }),
{
    reveal_with_fuel(Seq::filter, 5);
    let three = list.drop_last();
    let two = three.drop_last();
    let one = two.drop_last();
    assert(one.drop_last() =~= Seq::empty());
}

/// A count that 64 bits do not hold stays at the largest figure they do.
pub proof fn law_a_full_record_stays_full(before: Statistics, size: nat, emission: Emission)
    ensures
        ({
            let after = recorded(before, size, emission);
            &&& after.input_bytes >= before.input_bytes && after.output_bytes >= before.output_bytes
            &&& after.blocks >= before.blocks && after.raw_blocks >= before.raw_blocks
            &&& after.rle_blocks >= before.rle_blocks && after.compressed_blocks
                >= before.compressed_blocks
            &&& after.table_limited_blocks >= before.table_limited_blocks && after.streams_repeated
                >= before.streams_repeated
            &&& before.input_bytes + size > u64::MAX ==> after.input_bytes == u64::MAX
            &&& before.output_bytes + emission.payload.len() + 4 > u64::MAX ==> after.output_bytes
                == u64::MAX
        }),
{
}

/// A table of positions that names none.
pub open spec fn vacant(entries: nat) -> Seq<u32> {
    Seq::new(entries, |i: int| u32::MAX)
}

/// A fresh emitter has searched nothing, holds no table, no offset and no history, skips by the
/// schedule, and looks in the table of its mode: one of 16,384 positions in FAST, and one with
/// 65,536 links beside it in BALANCED.
pub proof fn law_a_fresh_emitter_holds_nothing(limit: u64, block_bytes: nat, mode: Mode)
    ensures
        ({
            let fresh = fresh_emitter(limit, block_bytes, mode);
            &&& fresh.parser.window.len() == 0 && fresh.parser.inserted == 0 && fresh.parser.skip
            &&& fresh.tables.slot is None && fresh.tables.tables == seq![
                None::<ClassTable>,
                None,
                None,
                None,
            ]
            &&& fresh.limit == limit && fresh.block_bytes == block_bytes && fresh.mode == mode
            &&& fresh.parser.matcher == match mode {
                Mode::Fast => MatcherState::Fast(vacant(16_384)),
                Mode::Balanced => MatcherState::Balanced(
                    ChainState { head: vacant(16_384), link: vacant(65_536) },
                ),
            }
        }),
{
    let fresh = fresh_emitter(limit, block_bytes, mode);
    assert(fresh.tables.tables =~= seq![None::<ClassTable>, None, None, None]);
    assert(ChainState::fresh().head =~= vacant(16_384));
    assert(ChainState::fresh().link =~= vacant(65_536));
}

/// What an emitter declares it holds: four bytes for each entry of its tables, three windows of
/// bytes, the block's literals and the steps a block can hold, the block itself, and the table
/// memory of its policy.
pub proof fn law_an_emitter_declares_what_it_holds(state: EmitterState)
    requires
        state.limit <= usize::MAX,
    ensures
        ({
            let entries: nat = match state.mode {
                Mode::Fast => 16_384,
                Mode::Balanced => 16_384 + 65_536,
            };
            let steps = (state.block_bytes / 4 + 1) * vstd::layout::size_of::<Step>();
            let whole = 4 * entries + 3 * 65_536 + 2 * state.block_bytes + steps + state.limit;
            steady_bytes(state) == if whole <= usize::MAX {
                whole as nat
            } else {
                usize::MAX as nat
            }
        }),
{
}

} // verus!
