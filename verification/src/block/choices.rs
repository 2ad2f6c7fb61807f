//! Owns what an assembly chooses: the table each stream is coded under, and whether the block is
//! worth its bytes.

use vstd::arithmetic::power2::*;
use vstd::prelude::*;

use super::encoder::{
    assembled, fresh_of, lemma_occurs_at, repeats, stream_coded, streams_coded, symbols_at, AssemblyShape,
    ClassCoded, EncoderState, Terms,
};
use super::laws::{
    law_encoder_stays_within_its_ceiling, lemma_codes_at, tables_share, tables_valid,
};
use super::refusals::{law_assembly_refuses_only_its_tables, lemma_packages_fit};
use super::tables::{
    alphabet_at, coder_at, histogram, lemma_occurrences_bound, length_limit, table_for, ClassTable,
    Coder,
};
use crate::entropy::{huffman, lemma_bit_width, rans};
use crate::entropy::huffman::lemma_ranked;
use crate::entropy::huffman::canonical::kraft;
use crate::entropy::huffman::laws::{
    law_a_budget_takes_the_widest_limit, law_built_code_carries_what_occurs,
    law_built_code_is_optimal, law_cost_is_what_is_spelled, lemma_single_spells_nothing,
    occurrences,
};
use crate::entropy::rans::states::total;
use crate::format::Error;
use crate::sequence::streams::{streams_of, StreamsShape};
use crate::sequence::{decoded_total, Alphabet, Plan};

verus! {

/// The bits a stream spends under a table that is described with it.
pub open spec fn fresh_bits(table: ClassTable, symbols: Seq<u16>) -> nat {
    table.description().len() + (table.payload(symbols)->Ok_0).len()
}

/// Whether coding a stream under the table of the block before spends fewer bits than building it
/// a table: there is one in force, it carries the symbols, and its payload is shorter than the
/// description and the payload of the other together.
pub open spec fn worth_repeating(
    held: Option<ClassTable>,
    table: ClassTable,
    symbols: Seq<u16>,
) -> bool {
    match held {
        Some(held) => held.carries_all(symbols) && (held.payload(symbols)->Ok_0).len() < fresh_bits(
            table,
            symbols,
        ),
        None => false,
    }
}

/// The symbols of a block's streams, by their place: the literal bytes, the runs, the match
/// lengths, the distances.
pub open spec fn placed(plan: Plan, slot: Option<u32>, index: int) -> Seq<u16> {
    let streams = streams_of(plan, slot);
    if index == 0 {
        streams.literal_byte.symbols
    } else if index == 1 {
        streams.literal_run.symbols
    } else if index == 2 {
        streams.match_length.symbols
    } else {
        streams.match_distance.symbols
    }
}

/// The table a stream is built by its place, inside a quarter of a limit: a prefix code for the
/// literal bytes, and range coding with one, two and four states for the runs, the match lengths
/// and the distances.
pub open spec fn placed_table(symbols: Seq<u16>, limit: u64, index: int) -> Result<
    ClassTable,
    Error,
> {
    let share = (limit / 4) as u64;
    if index == 0 {
        table_for(Coder::Huffman, Alphabet::LiteralByte, symbols, share)
    } else if index == 1 {
        table_for(Coder::Rans { states: 1 }, Alphabet::LiteralRun, symbols, share)
    } else if index == 2 {
        table_for(Coder::Rans { states: 2 }, Alphabet::MatchLength, symbols, share)
    } else {
        table_for(Coder::Rans { states: 4 }, Alphabet::MatchDistance, symbols, share)
    }
}

/// Each stream of an assembled block is coded the cheaper way. A stream without symbols leaves its
/// class alone. Any other names the table in force where the block is not the first of its region
/// and the table spends fewer bits than a table of the stream's own, and is built one otherwise.
/// Where the caller says which streams name a table, those do and no others.
pub proof fn law_each_stream_is_coded_the_cheaper_way(
    state: EncoderState,
    plan: Plan,
    terms: Terms,
    limit: u64,
    index: int,
)
    requires
        0 <= index < 4,
    ensures
        assembled(state, plan, terms, limit) matches Ok(Some((payload, shape))) ==> {
            let symbols = placed(plan, state.slot, index);
            let table = placed_table(symbols, limit, index);
            let held = if terms.first_in_region {
                None
            } else {
                state.tables[index]
            };
            &&& symbols.len() == 0 ==> !shape.repeated[index] && shape.fresh[index] is None
            &&& shape.repeated[index] ==> shape.fresh[index] is None && held is Some
                && (held->0).carries_all(symbols)
            &&& symbols.len() > 0 && !shape.repeated[index] ==> table is Ok && shape.fresh[index]
                == Some(table->Ok_0)
            &&& symbols.len() > 0 && terms.repeat is None ==> table is Ok && (fresh_bits(
                table->Ok_0,
                symbols,
            ) <= u64::MAX ==> (shape.repeated[index] <==> worth_repeating(
                held,
                table->Ok_0,
                symbols,
            )))
            &&& terms.repeat matches Some(mask) ==> shape.repeated[index] == mask@[index]
        },
{
    let share = (limit / 4) as u64;
    let streams = streams_of(plan, state.slot);
    lemma_codes_at(state.tables, terms, share, streams, 4);
    if let Ok(Some((payload, shape))) = assembled(state, plan, terms, limit) {
        let codes = streams_coded(state.tables, terms, share, streams, 4)->Ok_0;
        let symbols = placed(plan, state.slot, index);
        assert(symbols == symbols_at(streams, index));
        assert(stream_coded(state.tables, terms, share, symbols, index) == Ok::<
            Option<ClassCoded>,
            Error,
        >(codes[index]));
        assert(shape.repeated[index] == repeats(codes[index]));
        assert(shape.fresh[index] == fresh_of(codes[index]));
        assert(placed_table(symbols, limit, index) == table_for(
            coder_at(index),
            alphabet_at(index),
            symbols,
            share,
        ));
    }
}

/// A ceiling decides whether a block is assembled and nothing else. What assembles below one
/// ceiling assembles to the same bytes and leaves the same tables below any other that is above
/// its bytes, and is answered as not worth them at any that is not; a refusal is one at every
/// ceiling.
pub proof fn law_a_ceiling_only_says_whether(
    state: EncoderState,
    plan: Plan,
    terms: Terms,
    other: Terms,
    limit: u64,
)
    requires
        terms.first_in_region == other.first_in_region,
        terms.repeat == other.repeat,
    ensures
        match assembled(state, plan, terms, limit) {
            Err(error) => assembled(state, plan, other, limit) == Err::<
                Option<(Seq<u8>, AssemblyShape)>,
                Error,
            >(error),
            Ok(Some((payload, shape))) => {
                &&& payload.len() < terms.ceiling
                &&& assembled(state, plan, other, limit) == Ok::<
                    Option<(Seq<u8>, AssemblyShape)>,
                    Error,
                >(
                    if payload.len() < other.ceiling {
                        Some((payload, shape))
                    } else {
                        None
                    },
                )
            },
            Ok(None) => assembled(state, plan, other, limit) matches Ok(Some((payload, _)))
                ==> payload.len() >= terms.ceiling,
        },
{
    let share = (limit / 4) as u64;
    let streams = streams_of(plan, state.slot);
    lemma_ceiling_is_not_read(state, plan, terms, other, share, 4);
}

/// The codes of a block's streams do not depend on its ceiling.
proof fn lemma_ceiling_is_not_read(
    state: EncoderState,
    plan: Plan,
    terms: Terms,
    other: Terms,
    share: u64,
    count: nat,
)
    requires
        terms.first_in_region == other.first_in_region,
        terms.repeat == other.repeat,
    ensures
        streams_coded(state.tables, terms, share, streams_of(plan, state.slot), count)
            == streams_coded(state.tables, other, share, streams_of(plan, state.slot), count),
    decreases count,
{
    if count > 0 {
        lemma_ceiling_is_not_read(state, plan, terms, other, share, (count - 1) as nat);
    }
}

/// The code a stream is built spends the fewest bits its share allows: no code lengths a prefix
/// code can have, of at most `limit` bits where the table of such a code fits the share, spell the
/// stream in fewer.
pub proof fn law_a_built_code_spends_the_least_its_share_allows(
    alphabet: Alphabet,
    symbols: Seq<u16>,
    share: u64,
    other: Seq<u32>,
    limit: nat,
)
    requires
        limit <= 15,
        2 * pow2(limit) <= share,
        symbols.len() <= u64::MAX,
        other.len() == alphabet.symbols(),
        forall|s: int|
            0 <= s < other.len() && occurrences(symbols, s) > 0 ==> 1 <= #[trigger] other[s] <= limit,
        kraft(other) <= pow2(64),
    ensures
        table_for(Coder::Huffman, alphabet, symbols, share) matches Ok(table) ==> {
            let bits = table->Huffman_0.spell(symbols).len();
            bits <= huffman::total_bits(histogram(symbols, alphabet.symbols()), other)
        },
{
    let counts = histogram(symbols, alphabet.symbols());
    if let Ok(table) = table_for(Coder::Huffman, alphabet, symbols, share) {
        let shape = table->Huffman_0;
        let size = alphabet.symbols() as u32;
        let chosen = length_limit(counts, share)->Ok_0;
        assert forall|s: int| 0 <= s < counts.len() implies #[trigger] counts[s] == occurrences(
            symbols,
            s,
        ) by {
            lemma_occurrences_bound(symbols, s);
        }
        lemma_ranked(counts);
        if huffman::distinct(counts) > 1 {
            law_a_budget_takes_the_widest_limit(huffman::distinct(counts), share as nat);
            if chosen < limit {
                if chosen + 1 < limit {
                    lemma_pow2_strictly_increases(chosen + 1, limit);
                }
            }
            law_built_code_is_optimal(counts, size, chosen as u32, other);
            law_built_code_carries_what_occurs(counts, size, chosen as u32);
            assert forall|i: int| 0 <= i < symbols.len() implies shape.carries(
                #[trigger] symbols[i],
            ) by {
                lemma_occurs_at(symbols, i);
                assert(counts[symbols[i] as int] > 0);
            }
            law_cost_is_what_is_spelled(shape, symbols, counts);
        } else {
            lemma_single_spells_nothing(shape, symbols);
        }
    }
}

/// A table occupies its slots: two bytes for each run of bits as wide as the longest code, none for
/// a code of one symbol, and four bytes for each slot the frequencies share out.
pub proof fn law_a_table_occupies_its_slots(table: ClassTable)
    requires
        table.valid(),
    ensures
        match table {
            ClassTable::Rans(shape, _) => table.table_bytes() == 4 * total(shape.freq),
            ClassTable::Huffman(shape) => match shape.single {
                Some(_) => table.table_bytes() == 0,
                None => exists|s: int|
                    0 <= s < shape.lengths.len() && table.table_bytes() == 2 * pow2(
                        #[trigger] shape.lengths[s] as nat,
                    ) && forall|t: int|
                        0 <= t < shape.lengths.len() ==> #[trigger] shape.lengths[t]
                            <= shape.lengths[s],
            },
        },
{
    if let ClassTable::Huffman(shape) = table {
        if shape.single is None {
            let s = lemma_widest_at(shape.lengths);
            assert(table.table_bytes() == 2 * pow2(shape.lengths[s] as nat));
        }
    }
}

/// The widest length is one of the lengths, and none is wider.
proof fn lemma_widest_at(lengths: Seq<u32>) -> (s: int)
    requires
        lengths.len() > 0,
    ensures
        0 <= s < lengths.len(),
        huffman::widest(lengths) == lengths[s],
        forall|t: int| 0 <= t < lengths.len() ==> #[trigger] lengths[t] <= lengths[s],
    decreases lengths.len(),
{
    let less = lengths.drop_last();
    if less.len() == 0 {
        assert(huffman::widest(less) == 0);
        0
    } else {
        let s = lemma_widest_at(less);
        assert(forall|t: int| 0 <= t < less.len() ==> #[trigger] less[t] == lengths[t]);
        if lengths.last() > lengths[s] {
            assert forall|t: int| 0 <= t < lengths.len() implies #[trigger] lengths[t]
                <= lengths.last() by {
                if t < less.len() {
                    assert(less[t] <= less[s]);
                }
            }
            lengths.len() - 1
        } else {
            assert forall|t: int| 0 <= t < lengths.len() implies #[trigger] lengths[t]
                <= lengths[s] by {
                if t < less.len() {
                    assert(less[t] <= less[s]);
                }
            }
            s
        }
    }
}

/// The first stream that refuses a block.
proof fn lemma_first_refusal(
    tables: Seq<Option<ClassTable>>,
    terms: Terms,
    share: u64,
    streams: StreamsShape,
    count: nat,
) -> (i: int)
    requires
        streams_coded(tables, terms, share, streams, count) is Err,
    ensures
        0 <= i < count,
        stream_coded(tables, terms, share, symbols_at(streams, i), i) == Err::<
            Option<ClassCoded>,
            Error,
        >(streams_coded(tables, terms, share, streams, count)->Err_0),
    decreases count,
{
    let less = (count - 1) as nat;
    if streams_coded(tables, terms, share, streams, less) is Err {
        lemma_first_refusal(tables, terms, share, streams, less)
    } else {
        count - 1
    }
}

/// Whether one of a block's streams is refused its table.
pub open spec fn table_refused(
    plan: Plan,
    slot: Option<u32>,
    limit: u64,
    index: int,
    error: Error,
) -> bool {
    &&& placed(plan, slot, index).len() > 0
    &&& placed_table(placed(plan, slot, index), limit, index) == Err::<ClassTable, Error>(error)
}

/// A block one parse emits is refused only with one of its tables. Where the tables in force are
/// inside their shares, which an encoder that has kept to the limit holds them to, an assembly that
/// names no table outright is refused only where the table of one of its streams is, and says so.
pub proof fn law_an_assembly_is_refused_only_with_a_table(
    state: EncoderState,
    plan: Plan,
    terms: Terms,
    limit: u64,
)
    requires
        tables_valid(state.tables),
        tables_share(state.tables, (limit / 4) as u64),
        plan.valid(),
        decoded_total(plan.steps) <= 65_536,
        terms.repeat is None,
    ensures
        assembled(state, plan, terms, limit) matches Err(error) ==> exists|i: int|
            0 <= i < 4 && #[trigger] table_refused(plan, state.slot, limit, i, error),
{
    let share = (limit / 4) as u64;
    let streams = streams_of(plan, state.slot);
    law_assembly_refuses_only_its_tables(state, plan, terms, limit);
    law_encoder_stays_within_its_ceiling(state, plan, terms, limit);
    if let Err(error) = assembled(state, plan, terms, limit) {
        if streams_coded(state.tables, terms, share, streams, 4) is Err {
            let i = lemma_first_refusal(state.tables, terms, share, streams, 4);
            assert(placed(plan, state.slot, i) == symbols_at(streams, i));
            assert(table_refused(plan, state.slot, limit, i, error));
        }
    }
}

/// A table is refused only past its share. The refusal names the share and the bytes of the
/// smallest table the stream could be built, which are more: two for each slot of the narrowest
/// code that holds the symbols that occur, or four for each slot of the table its log gives.
pub proof fn law_a_table_is_refused_only_past_its_share(
    coder: Coder,
    alphabet: Alphabet,
    symbols: Seq<u16>,
    share: u64,
)
    requires
        0 < symbols.len() <= 65_536,
    ensures
        table_for(coder, alphabet, symbols, share) matches Err(
            Error::LimitExceeded { declared, allowed },
        ) ==> {
            let counts = histogram(symbols, alphabet.symbols());
            &&& allowed == share
            &&& declared > share
            &&& coder is Huffman ==> exists|n: nat|
                declared == 2 * #[trigger] pow2(n) && huffman::distinct(counts) <= pow2(n) && (n > 1
                    ==> pow2((n - 1) as nat) < huffman::distinct(counts))
            &&& coder is Rans ==> declared == 4 * pow2(rans::built(counts).log as nat)
        },
{
    let counts = histogram(symbols, alphabet.symbols());
    lemma_ranked(counts);
    lemma2_to64();
    if let Err(Error::LimitExceeded { declared, allowed }) = table_for(
        coder,
        alphabet,
        symbols,
        share,
    ) {
        if coder is Huffman {
            let n = huffman::narrowest_limit(huffman::distinct(counts));
            law_a_budget_takes_the_widest_limit(huffman::distinct(counts), share as nat);
            lemma_bit_width((huffman::distinct(counts) - 1) as nat);
            if n > 9 {
                lemma_pow2_strictly_increases(8, (n - 1) as nat);
            }
            if n < 10 {
                lemma_pow2_strictly_increases(n, 10);
            }
            assert(declared == 2 * pow2(n));
        } else {
            let log = rans::built(counts).log as nat;
            if log < 10 {
                lemma_pow2_strictly_increases(log, 10);
            }
        }
    }
}

/// Counts build: any over an alphabet of 1 to 256 symbols, of which one occurs and none more than
/// two to the 32 times, at a limit of 1 to 15 bits that tells the symbols that occur apart.
pub proof fn law_counts_build(counts: Seq<u64>, alphabet_size: u32, limit: u32, at: int)
    requires
        1 <= alphabet_size <= 256,
        counts.len() == alphabet_size,
        0 <= at < counts.len(),
        counts[at] > 0,
        forall|s: int| 0 <= s < counts.len() ==> #[trigger] counts[s] <= 0x1_0000_0000,
        1 <= limit <= 15,
        huffman::distinct(counts) <= pow2(limit as nat),
    ensures
        huffman::buildable(counts, alphabet_size, limit),
{
    let present = huffman::ranked(counts);
    lemma_ranked(counts);
    let r = choose|r: int| 0 <= r < present.len() && (#[trigger] present[r]).1 == at;
    assert(present.len() >= 1);
    let leaves = huffman::weights_of(present);
    assert forall|i: int| 0 <= i < leaves.len() implies #[trigger] leaves[i] <= 0x1_0000_0000 by {
        assert(present[i].0 == counts[present[i].1 as int]);
    }
    lemma_packages_fit(leaves, (limit - 1) as nat);
}

} // verus!
