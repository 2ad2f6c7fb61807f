//! Owns what holds of every emitted block: that it reads back, that it is the cheapest type, and
//! that a region of them stays inside the bytes its layout declares.

use vstd::arithmetic::power2::lemma2_to64;
use vstd::prelude::*;

use crate::block::encoder::{assembled, EncoderState, Terms};
use crate::block::laws::law_assembled_block_reads_back;
use crate::block::refusals::law_assembly_refuses_only_its_tables;
use crate::block::{block_read, fresh_decoder, BlockShape, DecoderState};
use crate::encode::{
    all_equal, fresh_emitter, lemma_only_tables_refuse, recorded, stored_block, Emission,
    EmitterState, Mode, Statistics,
};
use crate::entropy::least;
use crate::format::laws::{law_block_header_reads_back, lemma_ceiling_step};
use crate::format::wire::{field, lemma_field_reads_back, lemma_le_len};
use crate::format::{ceiling, BlockHeader, BlockType, Error};
use crate::parser::laws::{
    ends_in, law_history_follows_the_input, law_parse_decodes_to_its_input,
    law_steps_fit_their_capacity, recent,
};
use crate::parser::MAX_PARSE_BYTES;

verus! {

/// Whether a decoder holds what an encoder does: the tables in force, the offset slot, and no
/// refusal.
pub open spec fn in_step(encoder: EncoderState, decoder: DecoderState) -> bool {
    &&& decoder.tables == encoder.tables
    &&& decoder.slot == encoder.slot
    &&& decoder.poison is None
}

/// The block a decoder meets where the payload of an emission arrives with `more` after it.
pub open spec fn met(
    emission: Emission,
    first: bool,
    history: Seq<u8>,
    declared: u64,
    more: Seq<u8>,
) -> BlockShape {
    BlockShape { arrived: emission.payload + more, declared, first, history }
}

/// An emitted block reads back. A RAW or RLE block's header parses to the type and the size it
/// was emitted with, and its payload expands to the input; the decoder's tables do not move. A
/// COMPRESSED block's payload decodes to the input and spends exactly its bytes. Either way the
/// decoder is in step with the emitter again, and the history the emitter then carries is the
/// end of what the region has produced.
#[verifier::spinoff_prover]
#[verifier::rlimit(40)]
pub proof fn law_emitted_block_reads_back(
    state: EmitterState,
    decoder: DecoderState,
    input: Seq<u8>,
    last: bool,
    first: bool,
    history: Seq<u8>,
    declared: u64,
    more: Seq<u8>,
    out: Seq<u8>,
)
    requires
        state.valid(),
        in_step(state.tables, decoder),
        ends_in(history, state.parser.history()),
        0 < input.len() <= MAX_PARSE_BYTES,
        history.len() + input.len() <= usize::MAX,
        out.len() == input.len(),
        state.emission(input, first).payload.len() <= declared,
    ensures
        ({
            let emission = state.emission(input, first);
            let header = BlockHeader { last, kind: emission.kind, size: input.len() as u32 };
            let after = state.after(input, first);
            &&& after.valid()
            &&& ends_in(history + input, after.parser.history())
            &&& stored_block(emission, last, input.len()) == header.wire() + emission.payload
            &&& emission.kind != BlockType::Compressed ==> {
                &&& crate::format::block_read(
                    stored_block(emission, last, input.len()) + more,
                ) == Ok::<(BlockHeader, nat), Error>((header, 4))
                &&& header.stored() == emission.payload.len()
                &&& header.content(emission.payload) == input
                &&& in_step(after.tables, decoder)
            }
            &&& emission.kind == BlockType::Compressed ==> {
                let (told, next, written) = block_read(
                    decoder,
                    met(emission, first, history, declared, more),
                    state.limit,
                    out,
                );
                &&& told == Ok::<nat, Error>(emission.payload.len())
                &&& written == input
                &&& in_step(after.tables, next)
            }
        }),
{
    let emission = state.emission(input, first);
    let header = BlockHeader { last, kind: emission.kind, size: input.len() as u32 };
    let plan = state.parser.plan(input);
    let terms = Terms { first_in_region: first, repeat: None, ceiling: input.len() as usize };
    law_parse_decodes_to_its_input(state.parser, input, history);
    law_history_follows_the_input(state.parser, input);
    lemma_only_tables_refuse(state, input, first);
    lemma_ends_in_follows(history, state.parser.history(), input);
    lemma_ends_in_joins(
        history + input,
        state.parser.history() + input,
        state.parser.after(input).history(),
    );
    if emission.kind == BlockType::Compressed {
        reveal(EmitterState::assembly);
        law_assembled_block_reads_back(
            state.tables,
            decoder,
            plan,
            terms,
            state.limit,
            history,
            declared,
            more,
            out,
        );
    } else {
        assert(header.wire() + emission.payload + more =~= header.wire() + (emission.payload
            + more));
        law_block_header_reads_back(header, emission.payload + more);
        assert(header.content(emission.payload) =~= input);
    }
}

/// A history that ends in another ends in it still once both are followed by the same bytes.
proof fn lemma_ends_in_follows(history: Seq<u8>, tail: Seq<u8>, input: Seq<u8>)
    requires
        ends_in(history, tail),
    ensures
        ends_in(history + input, tail + input),
{
    let whole = history + input;
    let short = tail + input;
    let gap = history.len() - tail.len();
    assert forall|i: int| 0 <= i < short.len() implies #[trigger] whole.skip(gap)[i] == short[i] by {
        if i < tail.len() {
            assert(history.skip(gap)[i] == tail[i]);
        }
    }
    assert(whole.skip(whole.len() - short.len()) =~= short);
}

/// What a history ends in, it ends in the end of.
proof fn lemma_ends_in_joins(history: Seq<u8>, middle: Seq<u8>, tail: Seq<u8>)
    requires
        ends_in(history, middle),
        ends_in(middle, tail),
    ensures
        ends_in(history, tail),
{
    let first = history.len() - middle.len();
    let second = middle.len() - tail.len();
    assert forall|i: int| 0 <= i < tail.len() implies #[trigger] history.skip(
        history.len() - tail.len(),
    )[i] == tail[i] by {
        assert(middle.skip(second)[i] == tail[i]);
        assert(history.skip(first)[second + i] == middle[second + i]);
    }
    assert(history.skip(history.len() - tail.len()) =~= tail);
}

/// A block stores no more than its content, whatever type carries it: a region never stores more
/// than its content and one header per block.
pub proof fn law_block_stores_no_more_than_its_content(
    state: EmitterState,
    input: Seq<u8>,
    last: bool,
    first: bool,
)
    requires
        state.valid(),
        0 < input.len() <= MAX_PARSE_BYTES,
    ensures
        1 <= state.emission(input, first).payload.len() <= input.len(),
        stored_block(state.emission(input, first), last, input.len()).len() <= input.len() + 4,
{
    lemma_only_tables_refuse(state, input, first);
    let header = BlockHeader {
        last,
        kind: state.emission(input, first).kind,
        size: input.len() as u32,
    };
    lemma_le_len(header.word(), 4);
}

/// The type that stores the fewest bytes is emitted, and a tie goes to RAW, then RLE, then
/// COMPRESSED: RLE exactly where the block is one byte repeated, which no assembly stores in
/// less than the one byte, and COMPRESSED only where it stores strictly less than the content.
/// Where the assembly was not skipped, a block that assembles to less is emitted as it.
pub proof fn law_the_cheapest_type_is_emitted(state: EmitterState, input: Seq<u8>, first: bool)
    requires
        state.valid(),
        0 < input.len() <= MAX_PARSE_BYTES,
    ensures
        ({
            let emission = state.emission(input, first);
            let candidate = assembled(
                state.tables,
                state.parser.plan(input),
                Terms { first_in_region: first, repeat: None, ceiling: input.len() as usize },
                state.limit,
            );
            &&& emission.kind == BlockType::Rle <==> all_equal(input)
            &&& emission.kind == BlockType::Rle ==> emission.payload.len() == 1
            &&& emission.kind == BlockType::Raw ==> emission.payload == input
            &&& emission.kind == BlockType::Compressed ==> emission.payload.len() < input.len()
            &&& candidate matches Ok(Some((payload, _))) ==> {
                &&& 1 <= payload.len() < input.len()
                &&& !state.skips(input) ==> emission.kind == BlockType::Compressed
                    && emission.payload == payload
            }
        }),
{
    reveal(EmitterState::assembly);
    let plan = state.parser.plan(input);
    let history = state.parser.history();
    assert(history.skip(0) =~= history);
    law_parse_decodes_to_its_input(state.parser, input, history);
    law_steps_fit_their_capacity(state.parser, input);
    law_assembly_refuses_only_its_tables(
        state.tables,
        plan,
        Terms { first_in_region: first, repeat: None, ceiling: input.len() as usize },
        state.limit,
    );
}

/// A block is counted under exactly one type: the counts of the three types add up to the
/// blocks, as long as 64 bits carry them.
pub proof fn law_types_add_up_to_the_blocks(
    before: Statistics,
    size: nat,
    emission: Emission,
)
    requires
        before.blocks < u64::MAX,
        before.blocks == before.raw_blocks + before.rle_blocks + before.compressed_blocks,
    ensures
        ({
            let after = recorded(before, size, emission);
            &&& after.blocks == before.blocks + 1
            &&& after.blocks == after.raw_blocks + after.rle_blocks + after.compressed_blocks
        }),
{
}

/// A reset emitter is a fresh one of its policy, block size and mode, but for its record: it
/// emits the same block of every input.
pub proof fn law_reset_emitter_is_a_fresh_one(state: EmitterState, input: Seq<u8>, first: bool)
    requires
        state.valid(),
    ensures
        ({
            let fresh = fresh_emitter(state.limit, state.block_bytes, state.mode);
            &&& state.at_boundary() == (EmitterState { statistics: state.statistics, ..fresh })
            &&& state.at_boundary().emission(input, first) == fresh.emission(input, first)
        }),
{
    reveal(EmitterState::assembly);
    let fresh = fresh_emitter(state.limit, state.block_bytes, state.mode);
    assert(state.at_boundary().parser == fresh.parser);
}

/// The blocks an emitter writes for a staged region, from `at` on.
pub open spec fn region_blocks(state: EmitterState, staged: Seq<u8>, block_bytes: nat, at: nat)
    -> Seq<u8>
    decreases staged.len() - at,
{
    if at >= staged.len() || block_bytes == 0 {
        Seq::empty()
    } else {
        let end = least(at + block_bytes, staged.len());
        let input = staged.subrange(at as int, end as int);
        stored_block(
            state.emission(input, at == 0),
            end == staged.len(),
            input.len(),
        ) + region_blocks(state.after(input, at == 0), staged, block_bytes, end)
    }
}

/// A region's blocks tile it: one block takes a block's bytes, and the rest of the region is
/// cut into one block fewer.
pub proof fn law_blocks_tile_the_region(at: nat, len: nat, block_bytes: nat)
    requires
        at < len,
        block_bytes > 0,
    ensures
        ({
            let end = least(at + block_bytes, len);
            &&& at < end <= len
            &&& ceiling((len - at) as nat, block_bytes) == 1 + ceiling(
                (len - end) as nat,
                block_bytes,
            )
        }),
{
    lemma_ceiling_step((len - at) as nat, block_bytes);
}

/// A region of emitted blocks occupies no more than its layout declares: its content, and one
/// header per block.
pub proof fn law_region_stays_within_its_physical_bytes(
    state: EmitterState,
    staged: Seq<u8>,
    block_bytes: nat,
    at: nat,
)
    requires
        state.valid(),
        at <= staged.len(),
        0 < block_bytes <= MAX_PARSE_BYTES,
    ensures
        region_blocks(state, staged, block_bytes, at).len() <= (staged.len() - at) + 4
            * ceiling((staged.len() - at) as nat, block_bytes),
    decreases staged.len() - at,
{
    if at < staged.len() {
        let end = least(at + block_bytes, staged.len());
        let input = staged.subrange(at as int, end as int);
        law_blocks_tile_the_region(at, staged.len(), block_bytes);
        law_block_stores_no_more_than_its_content(state, input, end == staged.len(), at == 0);
        lemma_after_valid(state, input, at == 0);
        law_region_stays_within_its_physical_bytes(
            state.after(input, at == 0),
            staged,
            block_bytes,
            end,
        );
    }
}

/// An emitter stays whole across a block.
proof fn lemma_after_valid(state: EmitterState, input: Seq<u8>, first: bool)
    requires
        state.valid(),
        0 < input.len() <= MAX_PARSE_BYTES,
    ensures
        state.after(input, first).valid(),
{
    let decoder = DecoderState {
        tables: state.tables.tables,
        slot: state.tables.slot,
        built: 0,
        peak: 0,
        poison: None,
    };
    let history = state.parser.history();
    assert(history.skip(0) =~= history);
    lemma_only_tables_refuse(state, input, first);
    law_emitted_block_reads_back(
        state,
        decoder,
        input,
        false,
        first,
        history,
        u64::MAX,
        Seq::empty(),
        input,
    );
}

/// The bytes of a region a block after them may reach: the last window of them.
pub open spec fn reachable(data: Seq<u8>) -> Seq<u8> {
    recent(data, data.len())
}

/// What a decoder makes of a COMPRESSED payload of `size` content bytes at the front of a
/// region's remaining bytes: the content, the state it is left in, and the bytes spent. Nothing
/// where the payload is refused.
#[verifier::opaque]
pub open spec fn payload_taken(
    decoder: DecoderState,
    rest: Seq<u8>,
    size: nat,
    first: bool,
    history: Seq<u8>,
    limit: u64,
) -> Option<(Seq<u8>, DecoderState, nat)> {
    let (told, next, written) = block_read(
        decoder,
        BlockShape { arrived: rest, declared: rest.len() as u64, first, history },
        limit,
        Seq::new(size, |i: int| 0u8),
    );
    match told {
        Ok(spent) => Some((written, next, spent)),
        Err(_) => None,
    }
}

/// What a decoder makes of the block at the front of a region's stored bytes: the content, the
/// state it is left in, and the payload bytes spent. A COMPRESSED payload is read from the bytes
/// that follow its header, and any other is cut to the bytes its header stores and expanded.
/// Nothing where the block is refused.
#[verifier::opaque]
pub open spec fn block_taken(
    decoder: DecoderState,
    stored: Seq<u8>,
    first: bool,
    history: Seq<u8>,
    limit: u64,
) -> Option<(Seq<u8>, DecoderState, nat)> {
    let word = field(stored, 0, 4);
    let rest = stored.skip(4);
    if (word / 2) % 4 == BlockType::Compressed.code() {
        payload_taken(decoder, rest, word / 8, first, history, limit)
    } else {
        match crate::format::block_read(stored) {
            Ok((header, _)) => if header.stored() <= rest.len() {
                Some(
                    (
                        header.content(rest.take(header.stored() as int)),
                        decoder,
                        header.stored() as nat,
                    ),
                )
            } else {
                None
            },
            Err(_) => None,
        }
    }
}

/// What a decoder makes of a region's stored bytes: the content of its blocks up to the one
/// marked last, which ends the bytes. Nothing where a block is refused or the bytes end early.
pub open spec fn region_read(
    decoder: DecoderState,
    stored: Seq<u8>,
    first: bool,
    history: Seq<u8>,
    limit: u64,
) -> Option<Seq<u8>>
    decreases stored.len(),
{
    if stored.len() < 4 {
        None
    } else {
        match block_taken(decoder, stored, first, history, limit) {
            None => None,
            Some((content, next, spent)) => {
                let rest = stored.skip(4);
                if spent > rest.len() {
                    None
                } else if field(stored, 0, 4) % 2 == 1 {
                    if spent == rest.len() {
                        Some(content)
                    } else {
                        None
                    }
                } else {
                    match region_read(
                        next,
                        rest.skip(spent as int),
                        false,
                        reachable(history + content),
                        limit,
                    ) {
                        Some(more) => Some(content + more),
                        None => None,
                    }
                }
            },
        }
    }
}

/// An emitted block's payload is taken back to its input, and leaves the decoder in step and the
/// history the emitter's.
proof fn lemma_payload_taken(
    state: EmitterState,
    decoder: DecoderState,
    input: Seq<u8>,
    last: bool,
    first: bool,
    more: Seq<u8>,
)
    requires
        state.valid(),
        in_step(state.tables, decoder),
        0 < input.len() <= MAX_PARSE_BYTES,
        state.emission(input, first).payload.len() + more.len() <= u64::MAX,
    ensures
        ({
            let emission = state.emission(input, first);
            let header = BlockHeader { last, kind: emission.kind, size: input.len() as u32 };
            let history = state.parser.history();
            let after = state.after(input, first);
            &&& emission.kind != BlockType::Compressed ==> {
                &&& header.stored() == emission.payload.len()
                &&& header.content(emission.payload) == input
                &&& in_step(after.tables, decoder)
            }
            &&& emission.kind == BlockType::Compressed ==> match payload_taken(
                decoder,
                emission.payload + more,
                input.len(),
                first,
                history,
                state.limit,
            ) {
                Some((content, next, spent)) => content == input && in_step(after.tables, next)
                    && spent == emission.payload.len(),
                None => false,
            }
            &&& after.valid()
            &&& after.limit == state.limit
            &&& reachable(history + input) == after.parser.history()
        }),
{
    reveal(payload_taken);
    let history = state.parser.history();
    let emission = state.emission(input, first);
    assert(history.skip(0) =~= history);
    lemma_only_tables_refuse(state, input, first);
    law_emitted_block_reads_back(
        state,
        decoder,
        input,
        last,
        first,
        history,
        (emission.payload + more).len() as u64,
        more,
        Seq::new(input.len(), |i: int| 0u8),
    );
    law_history_follows_the_input(state.parser, input);
    assert(reachable(history + input) =~= state.parser.after(input).history());
}

/// The block at the front of a region's stored bytes is the one its header and its payload say.
proof fn lemma_block_taken(
    decoder: DecoderState,
    header: BlockHeader,
    payload: Seq<u8>,
    more: Seq<u8>,
    first: bool,
    history: Seq<u8>,
    limit: u64,
)
    requires
        header.sized(),
        header.kind != BlockType::Compressed ==> header.stored() == payload.len(),
    ensures
        ({
            let stored = header.wire() + payload + more;
            let taken = block_taken(decoder, stored, first, history, limit);
            &&& stored.len() == 4 + payload.len() + more.len()
            &&& stored.skip(4) == payload + more
            &&& field(stored, 0, 4) % 2 == if header.last {
                1nat
            } else {
                0
            }
            &&& header.kind == BlockType::Compressed ==> taken == payload_taken(
                decoder,
                payload + more,
                header.size as nat,
                first,
                history,
                limit,
            )
            &&& header.kind != BlockType::Compressed ==> taken == Some(
                (header.content(payload), decoder, payload.len()),
            )
        }),
{
    reveal(block_taken);
    let rest = payload + more;
    let stored = header.wire() + payload + more;
    lemma2_to64();
    lemma_le_len(header.word(), 4);
    assert(stored =~= header.wire() + rest);
    assert(stored =~= Seq::<u8>::empty() + header.wire() + rest);
    lemma_field_reads_back(Seq::empty(), header.word(), 4, rest);
    law_block_header_reads_back(header, rest);
    assert(stored.skip(4) =~= rest);
    assert(rest.take(payload.len() as int) =~= payload);
}

/// A region reads as its front block's content, and the content of the blocks after it.
proof fn lemma_region_front(
    decoder: DecoderState,
    header: BlockHeader,
    payload: Seq<u8>,
    more: Seq<u8>,
    first: bool,
    history: Seq<u8>,
    limit: u64,
    content: Seq<u8>,
    next: DecoderState,
)
    requires
        header.sized(),
        header.kind != BlockType::Compressed ==> header.stored() == payload.len()
            && header.content(payload) == content && next == decoder,
        header.kind == BlockType::Compressed ==> payload_taken(
            decoder,
            payload + more,
            header.size as nat,
            first,
            history,
            limit,
        ) == Some((content, next, payload.len())),
        header.last ==> more.len() == 0,
    ensures
        ({
            let read = region_read(decoder, header.wire() + payload + more, first, history, limit);
            let rest = region_read(next, more, false, reachable(history + content), limit);
            &&& header.last ==> read == Some(content)
            &&& !header.last ==> read == match rest {
                Some(tail) => Some(content + tail),
                None => None,
            }
        }),
{
    let stored = header.wire() + payload + more;
    lemma_block_taken(decoder, header, payload, more, first, history, limit);
    assert(stored.skip(4).skip(payload.len() as int) =~= more);
    assert(block_taken(decoder, stored, first, history, limit) == Some(
        (content, next, payload.len()),
    ));
}

/// The stored bytes of a region read back to what was staged, however it is cut into blocks and
/// whichever types carry them, on a decoder in step with the emitter.
#[verifier::spinoff_prover]
#[verifier::rlimit(40)]
pub proof fn law_region_decodes_to_what_was_staged(
    state: EmitterState,
    decoder: DecoderState,
    staged: Seq<u8>,
    block_bytes: nat,
    at: nat,
)
    requires
        state.valid(),
        in_step(state.tables, decoder),
        at < staged.len(),
        0 < block_bytes <= MAX_PARSE_BYTES,
        (staged.len() - at) + 4 * ceiling((staged.len() - at) as nat, block_bytes) <= u64::MAX,
    ensures
        region_read(
            decoder,
            region_blocks(state, staged, block_bytes, at),
            at == 0,
            state.parser.history(),
            state.limit,
        ) == Some(staged.skip(at as int)),
    decreases staged.len() - at,
{
    let end = least(at + block_bytes, staged.len());
    let input = staged.subrange(at as int, end as int);
    let first = at == 0;
    let last = end == staged.len();
    let after = state.after(input, first);
    let more = region_blocks(after, staged, block_bytes, end);
    let stored = region_blocks(state, staged, block_bytes, at);
    law_region_stays_within_its_physical_bytes(state, staged, block_bytes, at);
    law_blocks_tile_the_region(at, staged.len(), block_bytes);
    let emission = state.emission(input, first);
    let header = BlockHeader { last, kind: emission.kind, size: input.len() as u32 };
    let history = state.parser.history();
    assert(stored == header.wire() + emission.payload + more);
    lemma_le_len(header.word(), 4);
    lemma_payload_taken(state, decoder, input, last, first, more);
    let next = if emission.kind != BlockType::Compressed {
        decoder
    } else {
        let taken = payload_taken(
            decoder,
            emission.payload + more,
            input.len(),
            first,
            history,
            state.limit,
        );
        (taken->0).1
    };
    lemma_region_front(
        decoder,
        header,
        emission.payload,
        more,
        first,
        history,
        state.limit,
        input,
        next,
    );
    if last {
        assert(input =~= staged.skip(at as int));
    } else {
        law_region_decodes_to_what_was_staged(after, next, staged, block_bytes, end);
        assert(input + staged.skip(end as int) =~= staged.skip(at as int));
    }
}

/// `decode(encode(x)) == x`: in either mode, at every block size one parse takes and under every
/// table ceiling, the bytes a fresh emitter writes for a region read back to the region on a
/// fresh decoder of the same ceiling. A region holds at least one byte, and its stored bytes are
/// a count its header declares.
pub proof fn law_decoding_undoes_encoding(
    staged: Seq<u8>,
    limit: u64,
    block_bytes: nat,
    mode: Mode,
)
    requires
        0 < staged.len(),
        0 < block_bytes <= MAX_PARSE_BYTES,
        staged.len() + 4 * ceiling(staged.len(), block_bytes) <= u64::MAX,
    ensures
        region_read(
            fresh_decoder(),
            region_blocks(fresh_emitter(limit, block_bytes, mode), staged, block_bytes, 0),
            true,
            Seq::empty(),
            limit,
        ) == Some(staged),
{
    let emitter = fresh_emitter(limit, block_bytes, mode);
    assert(emitter.parser.history() =~= Seq::<u8>::empty());
    law_region_decodes_to_what_was_staged(emitter, fresh_decoder(), staged, block_bytes, 0);
    assert(staged.skip(0) =~= staged);
}

} // verus!
