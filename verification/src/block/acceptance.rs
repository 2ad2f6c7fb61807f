//! Owns what a decoder has checked of a block it accepts, and when it asks for more of one.

use vstd::prelude::*;

use super::tables::ClassTable;
use super::{
    block_read, body_of, description_section, fresh_at, fresh_tables, held_bytes, names_unset,
    payload_section, replaced, required_bytes, stream_at, suffix_section, BlockShape, DecoderState,
};
use crate::entropy::bits::window;
use crate::entropy::{huffman, rans};
use crate::format::prologue::{
    law_read_prologue_is_admissible, mode_read, padded, prologue_read, quantities_read, Extents,
};
use crate::format::wire::varint_read;
use crate::format::Error;

verus! {

/// Whether a stream of a block names the table in force, by its bit of the mode field.
pub open spec fn named_by_mode(mode: u8, index: int) -> bool {
    if index == 0 {
        mode % 2 == 1
    } else if index == 1 {
        (mode / 2) % 2 == 1
    } else if index == 2 {
        (mode / 4) % 2 == 1
    } else {
        mode / 8 == 1
    }
}

/// The bytes four sections occupy, each padded to a byte.
pub open spec fn four_sections(bits: Seq<u64>) -> int {
    (bits[0] + 7) / 8 + (bits[1] + 7) / 8 + (bits[2] + 7) / 8 + (bits[3] + 7) / 8
}

/// Whether the extents of a block are ones a block of a size can have. No stream counts more
/// symbols than the block has bytes. Every run has a match length, and at most as many have a
/// distance. A stream without symbols has no section and names nothing; one with symbols has a
/// description unless it names a table. The literal bytes have no suffix. The first block of a
/// region names nothing.
pub open spec fn extents_fit(extents: Extents, size: int, first: bool) -> bool {
    &&& extents.mode < 16
    &&& first ==> extents.mode == 0
    &&& forall|i: int| 0 <= i < 4 ==> stream_fits(extents, size, i)
    &&& extents.counts[1] == extents.counts[2]
    &&& extents.counts[3] <= extents.counts[2]
    &&& extents.suffix_bits[0] == 0
}

/// Whether the extents of one stream agree with its count.
pub open spec fn stream_fits(extents: Extents, size: int, i: int) -> bool {
    &&& extents.counts[i] <= size
    &&& extents.counts[i] == 0 ==> {
        &&& extents.description_bits[i] == 0
        &&& extents.payload_bits[i] == 0
        &&& extents.suffix_bits[i] == 0
        &&& !named_by_mode(extents.mode, i)
    }
    &&& extents.counts[i] > 0 ==> (extents.description_bits[i] == 0 <==> named_by_mode(
        extents.mode,
        i,
    ))
}

/// What a stream's table is after a block, against the one before it.
pub open spec fn table_moves(
    extents: Extents,
    before: Option<ClassTable>,
    after: Option<ClassTable>,
    i: int,
) -> bool {
    &&& extents.counts[i] == 0 || named_by_mode(extents.mode, i) ==> after == before
    &&& extents.counts[i] > 0 ==> after is Some
}

/// The bytes of the tables a block uses.
pub open spec fn tables_used(extents: Extents, tables: Seq<Option<ClassTable>>) -> nat {
    table_used(extents, tables, 0) + table_used(extents, tables, 1) + table_used(extents, tables, 2)
        + table_used(extents, tables, 3)
}

/// The bytes of the table one stream uses.
pub open spec fn table_used(extents: Extents, tables: Seq<Option<ClassTable>>, i: int) -> nat {
    if extents.counts[i] > 0 && tables[i] is Some {
        (tables[i]->0).table_bytes()
    } else {
        0
    }
}

/// Where the accepted blocks of a decoder stand.
pub open spec fn accepted(
    decoder: DecoderState,
    block: BlockShape,
    limit: u64,
    out: Seq<u8>,
    extents: Extents,
    used: nat,
) -> bool {
    let (told, after, written) = block_read(decoder, block, limit, out);
    &&& prologue_read(block.arrived, out.len() as u32, block.first, limit) == Ok::<
        (Extents, nat),
        Error,
    >((extents, used))
    &&& extents_fit(extents, out.len() as int, block.first)
    &&& told->Ok_0 == used + four_sections(extents.description_bits) + four_sections(
        extents.payload_bits,
    ) + four_sections(extents.suffix_bits)
    &&& told->Ok_0 < out.len()
    &&& told->Ok_0 <= block.declared
    &&& told->Ok_0 <= block.arrived.len()
    &&& written.len() == out.len()
    &&& forall|i: int| 0 <= i < 4 ==> table_moves(extents, decoder.tables[i], after.tables[i], i)
    &&& tables_used(extents, after.tables) == extents.table_bytes
    &&& extents.table_bytes <= limit
    &&& held_bytes(after.tables) <= limit
    &&& after.peak == if held_bytes(after.tables) > decoder.peak {
        held_bytes(after.tables)
    } else {
        decoder.peak as nat
    }
    &&& after.poison is None
}

/// What each of a block's descriptions declares.
proof fn lemma_fresh(extents: Extents, body: Seq<u8>, count: nat)
    ensures
        fresh_tables(extents, body, count) matches Ok(fresh) ==> fresh.len() == count && forall|
            i: int,
        |
            0 <= i < count ==> fresh_at(extents, body, i) == Ok::<Option<ClassTable>, Error>(
                #[trigger] fresh[i],
            ),
    decreases count,
{
    if count > 0 {
        lemma_fresh(extents, body, (count - 1) as nat);
    }
}

proof fn lemma_four_sections(bits: Seq<u64>)
    requires
        bits.len() == 4,
    ensures
        padded(bits) == four_sections(bits),
{
    reveal_with_fuel(padded, 5);
    let three = bits.drop_last();
    let two = three.drop_last();
    let one = two.drop_last();
    assert(one.drop_last().len() == 0);
}

/// A block is accepted only where it is what it declares. Its extents fit one another and its
/// size. It spends its prologue and its twelve sections, each padded to a byte, which is less than
/// it decodes to, no more than it was declared, and no more than has arrived. A stream that names
/// a table found one there and left it; a stream with symbols has one after the block; a stream
/// without left its class alone. The table memory it declares is what the tables it uses occupy,
/// and the four tables in force stay inside the limit.
#[verifier::spinoff_prover]
#[verifier::rlimit(60)]
pub proof fn law_an_accepted_block_is_what_it_declares(
    decoder: DecoderState,
    block: BlockShape,
    limit: u64,
    out: Seq<u8>,
)
    requires
        block_read(decoder, block, limit, out).0 is Ok,
        decoder.tables.len() == 4,
        limit <= usize::MAX,
    ensures
        exists|extents: Extents, used: nat| #[trigger]
            accepted(decoder, block, limit, out, extents, used),
{
    let size = out.len() as u32;
    let (extents, used) = prologue_read(block.arrived, size, block.first, limit)->Ok_0;
    law_read_prologue_is_admissible(block.arrived, size, block.first, limit);
    let body = body_of(block, extents, used, size)->Ok_0;
    let fresh = fresh_tables(extents, body, 4)->Ok_0;
    let (told, after, written) = block_read(decoder, block, limit, out);
    lemma_fresh(extents, body, 4);
    lemma_four_sections(extents.description_bits);
    lemma_four_sections(extents.payload_bits);
    lemma_four_sections(extents.suffix_bits);
    reveal_with_fuel(required_bytes, 5);
    assert(after.tables == replaced(decoder.tables, fresh));
    assert forall|i: int| 0 <= i < 4 implies table_moves(
        extents,
        decoder.tables[i],
        after.tables[i],
        i,
    ) && stream_fits(extents, out.len() as int, i) by {
        assert(fresh_at(extents, body, i) == Ok::<Option<ClassTable>, Error>(fresh[i]));
        assert(extents.repeats(i) == named_by_mode(extents.mode, i));
        assert(!names_unset(decoder.tables, extents, i));
        assert(extents.counts[i] <= size);
        assert(extents.description_bits[i] > 0 <==> extents.counts[i] > 0 && !extents.repeats(i));
    }
    assert(body.len() == extents.body());
    assert(written.len() == out.len());
    assert(accepted(decoder, block, limit, out, extents, used));
}

/// What a quantity is answered stands with more bytes behind it, but for a need of them.
proof fn lemma_varint_stands(input: Seq<u8>, more: Seq<u8>, at: nat, lane: nat)
    ensures
        match varint_read(input, at, lane) {
            Err(Error::TruncatedInput { needed }) => input.len() < usize::MAX && at <= input.len()
                ==> needed > input.len(),
            answer => varint_read(input + more, at, lane) == answer,
        },
        varint_read(input, at, lane) matches Ok((_, next)) ==> at < next <= input.len(),
    decreases 10 - lane,
{
    if lane < 10 && at < input.len() {
        lemma_varint_stands(input, more, at + 1, lane + 1);
        assert((input + more)[at as int] == input[at as int]);
    }
}

/// What several quantities are answered stands with more bytes behind them, but for a need.
proof fn lemma_quantities_stand(input: Seq<u8>, more: Seq<u8>, at: nat, count: nat)
    requires
        at <= input.len(),
    ensures
        match quantities_read(input, at, count) {
            Err(Error::TruncatedInput { needed }) => input.len() < usize::MAX ==> needed
                > input.len(),
            answer => quantities_read(input + more, at, count) == answer,
        },
        quantities_read(input, at, count) matches Ok((values, next)) ==> at <= next <= input.len()
            && values.len() == count,
    decreases count,
{
    if count > 0 {
        lemma_quantities_stand(input, more, at, (count - 1) as nat);
        if let Ok((_, next)) = quantities_read(input, at, (count - 1) as nat) {
            lemma_varint_stands(input, more, next, 0);
        }
    }
}

/// What a prologue is answered stands with more bytes behind it, but for a need of them.
proof fn lemma_prologue_stands(
    input: Seq<u8>,
    more: Seq<u8>,
    size: u32,
    first: bool,
    limit: u64,
)
    requires
        input.len() < usize::MAX,
    ensures
        match prologue_read(input, size, first, limit) {
            Err(Error::TruncatedInput { needed }) => needed > input.len(),
            answer => prologue_read(input + more, size, first, limit) == answer,
        },
{
    let all = input + more;
    if input.len() > 0 {
        assert(all[0] == input[0]);
        lemma_varint_stands(input, more, 1, 0);
        if let Ok((table_bytes, a)) = varint_read(input, 1, 0) {
            if a < input.len() {
                assert(all[a as int] == input[a as int]);
            }
            if let Ok((mode, b)) = mode_read(input, a, first) {
                lemma_quantities_stand(input, more, b, 4);
                if let Ok((_, c)) = quantities_read(input, b, 4) {
                    lemma_quantities_stand(input, more, c, 4);
                    if let Ok((_, d)) = quantities_read(input, c, 4) {
                        lemma_quantities_stand(input, more, d, 4);
                        if let Ok((_, e)) = quantities_read(input, d, 4) {
                            lemma_quantities_stand(input, more, e, 4);
                        }
                    }
                }
            }
        }
    }
}

/// Whether a refusal of a block stands before its body: it asks for bytes of the prologue or of
/// the body that have not arrived.
pub open spec fn waits(block: BlockShape, limit: u64, size: u32) -> bool {
    match prologue_read(block.arrived, size, block.first, limit) {
        Err(error) => error is TruncatedInput,
        Ok((extents, used)) => body_of(block, extents, used, size) matches Err(error)
            && error is TruncatedInput,
    }
}

/// A block is answered once. Where a decoder does not wait for more of a block, what it answers,
/// what it keeps and what it writes are the same with more bytes behind the block. Where it waits,
/// it asks for more bytes than have arrived, and has written nothing.
#[verifier::spinoff_prover]
#[verifier::rlimit(60)]
pub proof fn law_a_block_is_answered_once(
    decoder: DecoderState,
    block: BlockShape,
    limit: u64,
    out: Seq<u8>,
    more: Seq<u8>,
)
    requires
        decoder.poison is None,
        out.len() <= u32::MAX,
        block.arrived.len() < usize::MAX,
        out.len() <= usize::MAX,
    ensures
        ({
            let longer = BlockShape { arrived: block.arrived + more, ..block };
            let (told, after, written) = block_read(decoder, block, limit, out);
            if waits(block, limit, out.len() as u32) {
                &&& told matches Err(Error::TruncatedInput { needed }) && needed
                    > block.arrived.len()
                &&& written == out
            } else {
                block_read(decoder, longer, limit, out) == (told, after, written)
            }
        }),
{
    let longer = BlockShape { arrived: block.arrived + more, ..block };
    let size = out.len() as u32;
    lemma_prologue_stands(block.arrived, more, size, block.first, limit);
    if let Ok((extents, used)) = prologue_read(block.arrived, size, block.first, limit) {
        let stored = used + extents.body();
        if stored <= block.arrived.len() {
            assert(longer.arrived.subrange(used as int, stored as int) =~= block.arrived.subrange(
                used as int,
                stored as int,
            ));
        }
        assert(body_of(block, extents, used, size) is Ok ==> body_of(longer, extents, used, size)
            == body_of(block, extents, used, size));
    }
}

/// The bytes the first `index` of four sections occupy, each padded to a byte.
pub open spec fn sections_before(bits: Seq<u64>, index: int) -> int {
    (if index > 0 {
        (bits[0] + 7) / 8
    } else {
        0
    }) + (if index > 1 {
        (bits[1] + 7) / 8
    } else {
        0
    }) + if index > 2 {
        (bits[2] + 7) / 8
    } else {
        0
    }
}

/// Where the sections of a body stand: the four descriptions in turn, the four payloads behind
/// them, the four suffixes last, each from a whole byte.
pub proof fn law_sections_stand_in_turn(extents: Extents, body: Seq<u8>, index: int)
    requires
        0 <= index < 4,
        extents.description_bits.len() == 4,
        extents.payload_bits.len() == 4,
        extents.suffix_bits.len() == 4,
    ensures
        ({
            let d = extents.description_bits;
            let p = extents.payload_bits;
            let f = extents.suffix_bits;
            let at_d = sections_before(d, index);
            let at_p = four_sections(d) + sections_before(p, index);
            let at_f = four_sections(d) + four_sections(p) + sections_before(f, index);
            &&& description_section(extents, body, index) == body.subrange(
                at_d,
                at_d + (d[index] + 7) / 8,
            )
            &&& payload_section(extents, body, index) == body.subrange(
                at_p,
                at_p + (p[index] + 7) / 8,
            )
            &&& suffix_section(extents, body, index) == body.subrange(
                at_f,
                at_f + (f[index] + 7) / 8,
            )
        }),
{
    lemma_four_sections(extents.description_bits);
    lemma_four_sections(extents.payload_bits);
    lemma_sections_before(extents.description_bits, index);
    lemma_sections_before(extents.payload_bits, index);
    lemma_sections_before(extents.suffix_bits, index);
}

proof fn lemma_sections_before(bits: Seq<u64>, index: int)
    requires
        bits.len() == 4,
        0 <= index < 4,
    ensures
        padded(bits.take(index)) == sections_before(bits, index),
    decreases index,
{
    if index > 0 {
        lemma_sections_before(bits, index - 1);
        assert(bits.take(index).drop_last() =~= bits.take(index - 1));
    }
}

/// Sections are spent to the last bit. A table a block builds is one its description declares,
/// bit for bit, over the alphabet and for the coder of its place. The symbols of a stream are as
/// many as it counts, decoded by the table in force from all of its payload bits, and its suffix
/// is all of its suffix bits.
pub proof fn law_sections_are_spent_to_the_last_bit(
    tables: Seq<Option<ClassTable>>,
    extents: Extents,
    body: Seq<u8>,
    index: int,
)
    requires
        0 <= index < 4,
    ensures
        fresh_at(extents, body, index) matches Ok(Some(table)) ==> {
            let section = description_section(extents, body, index);
            let bits = extents.description_bits[index] as nat;
            match table {
                ClassTable::Huffman(shape) => index == 0 && huffman::parse_description(
                    section,
                    bits,
                    0,
                    256,
                ) == Ok::<(huffman::CodeShape, nat), (Error, nat)>((shape, bits)),
                ClassTable::Rans(shape, states) => {
                    let (size, count): (nat, nat) = if index == 1 {
                        (60, 1)
                    } else if index == 2 {
                        (28, 2)
                    } else {
                        (61, 4)
                    };
                    &&& index > 0
                    &&& states == count
                    &&& rans::parse_description(section, bits, 0, size) == Ok::<
                        (rans::states::TableShape, nat),
                        (Error, nat),
                    >((shape, bits))
                },
            }
        },
        stream_at(tables, extents, body, index) matches Ok(stream) ==> {
            &&& stream.suffix == window(
                suffix_section(extents, body, index),
                0,
                extents.suffix_bits[index] as nat,
            )
            &&& extents.counts[index] == 0 ==> stream.symbols.len() == 0
            &&& extents.counts[index] > 0 ==> tables[index] is Some && (tables[index]->0).decoded(
                payload_section(extents, body, index),
                extents.payload_bits[index] as nat,
                extents.counts[index] as nat,
            ) == Ok::<(Seq<u16>, nat), Error>(
                (stream.symbols, extents.payload_bits[index] as nat),
            )
        },
{
}

} // verus!
