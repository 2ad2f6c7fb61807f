//! What the block promises as a whole: an assembled block reads back as the content it was
//! assembled from, and the two sides of a region stay in step.

use vstd::prelude::*;
use vstd::arithmetic::power2::{lemma_pow2_strictly_increases, pow2};
use crate::entropy::bits::{lemma_pack, lemma_pack_bytes, pack};
use crate::entropy::huffman::laws::{
    law_built_code_carries_what_occurs, law_decode_gives_back_the_symbols,
    law_description_rebuilds_the_code, lemma_run_decodes, lemma_spell_len,
};
use crate::entropy::rans::states::admitted_states;
use crate::entropy::rans::{
    law_description_rebuilds_the_table, law_normalized_table_keeps_every_symbol,
};
use crate::entropy::{huffman, rans};
use crate::format::prologue::{law_prologue_reads_back, padded, prologue_read, Extents};
use crate::format::Error;
use crate::sequence::streams::{
    codable, law_stream_counts, law_streams_give_back_the_sequences, lemma_suffix_lens, plan_of,
    slot_after, streams_of, StreamShape, StreamsShape,
};
use crate::sequence::{
    decoded_total, ends_once, lemma_run_total_prefix, run_total, Alphabet, Plan, Step,
};
use super::encoder::{
    adopted, assembled, body_bytes, cheaper_coded, coded_bytes, coded_mode, description_of,
    extents_of, fresh_of, fresh_seq, lemma_group_len, lemma_table_for_class, packed_group,
    payload_of, repeats, stream_coded, streams_coded, suffix_at, symbols_at, ClassCoded,
    EncoderState, Terms, TABLE_SHARES,
};
use super::expand::{expands, expansion, lemma_steps_expanded, steps_expanded};
use super::tables::{
    alphabet_at, coder_at, described, histogram, lemma_description_len, length_limit, table_for,
    ClassTable, Coder,
};
use super::{
    block_read, body_of, commit_refused, description_section, fresh_at, fresh_decoder,
    fresh_tables, held_bytes, lemma_table_bytes, names_unset, no_tables, payload_section, replaced,
    required_bytes, section, stream_at, streams_at, suffix_section, table_bytes_of, BlockShape,
    DecoderState,
};

verus! {

/// Whether every table an encoder holds is one of its class.
pub open spec fn tables_valid(tables: Seq<Option<ClassTable>>) -> bool {
    &&& tables.len() == 4
    &&& forall|i: int|
        0 <= i < 4 ==> (#[trigger] tables[i] matches Some(table) ==> table.valid()
            && table.of_class(coder_at(i), alphabet_at(i)))
}

/// The expansions agree: one plan, one history, and one output size have one answer and, where
/// it is accepted, one content, whatever the outputs held. Outputs that held the same bytes hold
/// the same bytes after a refusal too.
pub proof fn law_expansions_agree(
    plan: Plan,
    history: Seq<u8>,
    before_one: Seq<u8>,
    one: Seq<u8>,
    told_one: Result<(), Error>,
    before_other: Seq<u8>,
    other: Seq<u8>,
    told_other: Result<(), Error>,
)
    requires
        before_one.len() == before_other.len(),
        expands(plan, history, before_one, one, told_one),
        expands(plan, history, before_other, other, told_other),
    ensures
        told_one == told_other,
        told_one is Ok ==> one == other,
        before_one == before_other ==> one == other,
{
}

/// The bytes a plan has placed before the match of one step.
pub open spec fn placed_before(plan: Plan, index: int) -> nat {
    decoded_total(plan.steps.take(index)) + plan.steps[index].run as nat
}

/// Whether a plan fills an output of `size` bytes over a history of `held`: the literals cover
/// every run, each match reaches a byte the region has produced, and the steps fill the output.
pub open spec fn fills(plan: Plan, held: nat, size: nat) -> bool {
    &&& run_total(plan.steps) <= plan.literals.len()
    &&& forall|i: int|
        0 <= i < plan.steps.len() ==> (#[trigger] plan.steps[i].matched matches Some(matched) ==> 1
            <= matched.distance <= held + placed_before(plan, i))
    &&& decoded_total(plan.steps) == size
}

/// The bytes of the first steps are part of the bytes of all of them.
proof fn lemma_decoded_total_prefix(steps: Seq<Step>, n: int)
    requires
        0 <= n <= steps.len(),
    ensures
        decoded_total(steps.take(n)) <= decoded_total(steps),
        n < steps.len() ==> decoded_total(steps.take(n)) + steps[n].decoded_len() <= decoded_total(
            steps,
        ),
    decreases steps.len(),
{
    if n < steps.len() {
        let less = steps.drop_last();
        assert(less.take(n) =~= steps.take(n));
        lemma_decoded_total_prefix(less, n);
    } else {
        assert(steps.take(n) =~= steps);
    }
}

/// The first steps of a plan that fills its output are all taken.
proof fn lemma_fills_expands(plan: Plan, history: Seq<u8>, size: nat, count: nat)
    requires
        fills(plan, history.len(), size),
        history.len() + size <= usize::MAX,
        count <= plan.steps.len(),
    ensures
        steps_expanded(plan, history, size, count) is Ok,
    decreases count,
{
    if count > 0 {
        let less = (count - 1) as nat;
        let next = plan.steps.take(count as int);
        lemma_fills_expands(plan, history, size, less);
        lemma_steps_expanded(plan, history, size, less);
        assert(next.drop_last() =~= plan.steps.take(less as int));
        lemma_run_total_prefix(plan.steps, count as int);
        lemma_decoded_total_prefix(plan.steps, less as int);
        assert(plan.steps[less as int].matched matches Some(matched) ==> 1 <= matched.distance
            <= history.len() + placed_before(plan, less as int));
    }
}

/// Steps that are taken have matches that reach.
proof fn lemma_expanded_reaches(plan: Plan, history: Seq<u8>, size: nat, count: nat)
    requires
        steps_expanded(plan, history, size, count) is Ok,
        count <= plan.steps.len(),
    ensures
        forall|i: int|
            0 <= i < count ==> (#[trigger] plan.steps[i].matched matches Some(matched) ==> 1
                <= matched.distance <= history.len() + placed_before(plan, i)),
    decreases count,
{
    if count > 0 {
        lemma_expanded_reaches(plan, history, size, (count - 1) as nat);
        lemma_steps_expanded(plan, history, size, (count - 1) as nat);
    }
}

/// An expansion is accepted exactly where the literals cover every run, each distance is at least
/// one and within what the region has produced, and the steps fill the output, for a region that
/// a memory holds.
pub proof fn law_an_expansion_is_accepted_where_it_fills(plan: Plan, history: Seq<u8>, size: nat)
    requires
        history.len() + size <= usize::MAX,
    ensures
        expansion(plan, history, size) is Ok <==> fills(plan, history.len(), size),
{
    let count = plan.steps.len();
    assert(plan.steps.take(count as int) =~= plan.steps);
    lemma_steps_expanded(plan, history, size, count);
    if fills(plan, history.len(), size) {
        lemma_fills_expands(plan, history, size, count);
    }
    if steps_expanded(plan, history, size, count) is Ok {
        lemma_expanded_reaches(plan, history, size, count);
    }
}

/// A limit a share allows is one a code length can have.
proof fn lemma_length_limit(counts: Seq<u64>, share: u64)
    ensures
        length_limit(counts, share) matches Ok(limit) ==> limit <= 15,
{
    lemma_limit(15, huffman::narrowest_limit(huffman::distinct(counts)), share as nat);
}

proof fn lemma_limit(limit: nat, narrowest: nat, budget: nat)
    ensures
        huffman::limit_within(limit, narrowest, budget) matches Some(found) ==> found <= limit,
    decreases limit,
{
    if limit > 0 {
        lemma_limit((limit - 1) as nat, narrowest, budget);
    }
}

/// A table built for a stream is valid and of its class.
pub proof fn lemma_built_table(coder: Coder, alphabet: Alphabet, symbols: Seq<u16>, share: u64)
    requires
        coder matches Coder::Rans { states } ==> admitted_states(states as nat),
    ensures
        table_for(coder, alphabet, symbols, share) matches Ok(table) ==> table.valid()
            && table.of_class(coder, alphabet),
{
    let counts = histogram(symbols, alphabet.symbols());
    let size = alphabet.symbols() as u32;
    lemma_table_for_class(coder, alphabet, symbols, share);
    if let Ok(table) = table_for(coder, alphabet, symbols, share) {
        match coder {
            Coder::Huffman => {
                lemma_length_limit(counts, share);
                let limit = length_limit(counts, share)->Ok_0;
                law_built_code_carries_what_occurs(counts, size, limit as u32);
            },
            Coder::Rans { states } => {
                law_normalized_table_keeps_every_symbol(counts, size);
            },
        }
    }
}

/// What a coded stream is, whichever way it was coded.
pub open spec fn code_stands(
    tables: Seq<Option<ClassTable>>,
    symbols: Seq<u16>,
    code: ClassCoded,
    index: int,
) -> bool {
    &&& code.table.valid()
    &&& code.table.of_class(coder_at(index), alphabet_at(index))
    &&& code.table.payload(symbols) == Ok::<Seq<bool>, Error>(code.payload)
    &&& code.repeats ==> code.description.len() == 0 && tables[index] == Some(code.table)
    &&& !code.repeats ==> code.description == code.table.description()
}

/// A coded stream stands, and a stream codes to nothing exactly where it carries no symbols.
proof fn lemma_stream_coded(
    tables: Seq<Option<ClassTable>>,
    terms: Terms,
    share: u64,
    symbols: Seq<u16>,
    index: int,
)
    requires
        tables_valid(tables),
        0 <= index < 4,
    ensures
        stream_coded(tables, terms, share, symbols, index) matches Ok(code) ==> {
            &&& code is Some <==> symbols.len() > 0
            &&& code matches Some(code) ==> code_stands(tables, symbols, code, index)
            &&& repeats(code) ==> !terms.first_in_region
        },
{
    lemma_built_table(coder_at(index), alphabet_at(index), symbols, share);
    if let Some(table) = tables[index] {
        assert(table.valid());
    }
}

/// What each of a block's streams codes to.
pub proof fn lemma_codes_at(
    tables: Seq<Option<ClassTable>>,
    terms: Terms,
    share: u64,
    streams: StreamsShape,
    count: nat,
)
    ensures
        streams_coded(tables, terms, share, streams, count) matches Ok(codes) ==> codes.len()
            == count && forall|i: int|
            0 <= i < count ==> stream_coded(tables, terms, share, symbols_at(streams, i), i) == Ok::<
                Option<ClassCoded>,
                Error,
            >(#[trigger] codes[i]),
    decreases count,
{
    if count > 0 {
        lemma_codes_at(tables, terms, share, streams, (count - 1) as nat);
        if let Ok(codes) = streams_coded(tables, terms, share, streams, count) {
            let before = streams_coded(tables, terms, share, streams, (count - 1) as nat)->Ok_0;
            assert forall|i: int| 0 <= i < count implies stream_coded(
                tables,
                terms,
                share,
                symbols_at(streams, i),
                i,
            ) == Ok::<Option<ClassCoded>, Error>(#[trigger] codes[i]) by {
                if i < count - 1 {
                    assert(codes[i] == before[i]);
                }
            }
        }
    }
}

/// Whether a block's codes are what its streams code to.
pub open spec fn codes_stand(
    tables: Seq<Option<ClassTable>>,
    first: bool,
    streams: StreamsShape,
    codes: Seq<Option<ClassCoded>>,
) -> bool {
    &&& codes.len() == 4
    &&& forall|i: int|
        0 <= i < 4 ==> {
            &&& (#[trigger] codes[i]) is Some <==> symbols_at(streams, i).len() > 0
            &&& codes[i] matches Some(code) ==> code_stands(
                tables,
                symbols_at(streams, i),
                code,
                i,
            )
            &&& repeats(codes[i]) ==> !first
        }
}

/// A payload reads back as the symbols it codes, and spends its bits exactly.
proof fn lemma_payload_reads_back(table: ClassTable, symbols: Seq<u16>, bits: Seq<bool>)
    requires
        table.valid(),
        table.payload(symbols) == Ok::<Seq<bool>, Error>(bits),
    ensures
        table.decoded(pack(bits), bits.len(), symbols.len()) == Ok::<(Seq<u16>, nat), Error>(
            (symbols, bits.len()),
        ),
        bits.len() <= u64::MAX,
{
    match table {
        ClassTable::Huffman(shape) => {
            lemma_pack(bits);
            law_decode_gives_back_the_symbols(shape, pack(bits), 0, symbols);
            lemma_spell_len(shape, symbols);
            lemma_run_decodes(shape, pack(bits), 0, symbols.len());
        },
        ClassTable::Rans(shape, states) => {
            let bytes = rans::states::payload(shape, symbols, states);
            lemma_pack_bytes(bytes);
            rans::states::law_decode_gives_back_the_symbols(shape, symbols, states);
        },
    }
}

/// A description reads back as the table it describes, and spends its bits exactly.
proof fn lemma_description_reads_back(table: ClassTable, coder: Coder, alphabet: Alphabet)
    requires
        table.valid(),
        table.of_class(coder, alphabet),
    ensures
        described(coder, alphabet, pack(table.description()), table.description().len()) == Ok::<
            ClassTable,
            Error,
        >(table),
{
    let bits = table.description();
    lemma_pack(bits);
    match table {
        ClassTable::Huffman(shape) => {
            law_description_rebuilds_the_code(shape, pack(bits), bits.len(), 0);
        },
        ClassTable::Rans(shape, states) => {
            law_description_rebuilds_the_table(shape, pack(bits), bits.len(), 0);
        },
    }
}

/// A section stands in its group where its extents say.
proof fn lemma_group_section(sections: Seq<Seq<bool>>, bits: Seq<u64>, index: int)
    requires
        sections.len() == bits.len(),
        0 <= index < bits.len(),
        forall|i: int| 0 <= i < bits.len() ==> (#[trigger] sections[i]).len() == bits[i],
    ensures
        section(packed_group(sections), 0, bits, index) == pack(sections[index]),
        padded(bits.take(index)) + pack(sections[index]).len() <= packed_group(sections).len(),
    decreases sections.len(),
{
    let less = sections.drop_last();
    let fewer = bits.drop_last();
    assert forall|i: int| 0 <= i < fewer.len() implies (#[trigger] less[i]).len() == fewer[i] by {
        assert(sections[i].len() == bits[i]);
    }
    lemma_group_len(sections, bits);
    lemma_group_len(less, fewer);
    lemma_pack(sections[index]);
    lemma_pack(sections.last());
    let whole = packed_group(sections);
    let front = packed_group(less);
    if index < bits.len() - 1 {
        lemma_group_section(less, fewer, index);
        assert(fewer.take(index) =~= bits.take(index));
        assert(less[index] == sections[index]);
        let at = padded(bits.take(index)) as int;
        let end = at + pack(sections[index]).len();
        assert(whole.subrange(at, end) =~= front.subrange(at, end));
    } else {
        assert(bits.take(index) =~= fewer);
        let at = front.len() as int;
        assert(whole.subrange(at, at + pack(sections[index]).len()) =~= pack(sections[index]));
    }
}

/// A section stands in a body where its group starts.
proof fn lemma_section_in_body(
    before: Seq<u8>,
    sections: Seq<Seq<bool>>,
    after: Seq<u8>,
    bits: Seq<u64>,
    index: int,
)
    requires
        sections.len() == bits.len(),
        0 <= index < bits.len(),
        forall|i: int| 0 <= i < bits.len() ==> (#[trigger] sections[i]).len() == bits[i],
    ensures
        section(before + packed_group(sections) + after, before.len(), bits, index) == pack(
            sections[index],
        ),
{
    lemma_group_section(sections, bits, index);
    lemma_pack(sections[index]);
    let group = packed_group(sections);
    let body = before + group + after;
    let at = padded(bits.take(index)) as int;
    let end = at + pack(sections[index]).len();
    assert(body.subrange(before.len() + at, before.len() + end) =~= group.subrange(at, end));
}

/// What the extents of coded streams are, as numbers.
proof fn lemma_extents(
    tables: Seq<Option<ClassTable>>,
    first: bool,
    streams: StreamsShape,
    codes: Seq<Option<ClassCoded>>,
)
    requires
        codes_stand(tables, first, streams, codes),
        forall|i: int| 0 <= i < 4 ==> (#[trigger] symbols_at(streams, i)).len() <= u32::MAX,
        forall|i: int| 0 <= i < 4 ==> (#[trigger] suffix_at(streams, i)).len() <= u64::MAX,
    ensures
        ({
            let extents = extents_of(streams, codes);
            &&& extents.four()
            &&& forall|i: int|
                0 <= i < 4 ==> {
                    &&& #[trigger] extents.counts[i] == symbols_at(streams, i).len()
                    &&& extents.description_bits[i] == description_of(codes[i]).len()
                    &&& extents.payload_bits[i] == payload_of(codes[i]).len()
                    &&& extents.suffix_bits[i] == suffix_at(streams, i).len()
                    &&& extents.repeats(i) == repeats(codes[i])
                    &&& description_of(codes[i]).len() > 0 <==> codes[i] is Some && !repeats(
                        codes[i],
                    )
                }
            &&& extents.table_bytes == coded_bytes(codes, 4)
            &&& extents.mode < 16
            &&& first ==> extents.mode == 0
        }),
{
    let extents = extents_of(streams, codes);
    reveal_with_fuel(coded_bytes, 5);
    reveal_with_fuel(coded_mode, 5);
    assert forall|i: int| 0 <= i < 4 implies (match #[trigger] codes[i] {
        Some(code) => code.description.len() <= 4357 && code.payload.len() <= u64::MAX
            && code.table.table_bytes() <= 65_536 && (code.description.len() > 0 <==> !code.repeats),
        None => true,
    }) by {
        if let Some(code) = codes[i] {
            lemma_description_len(code.table);
            lemma_payload_reads_back(code.table, symbols_at(streams, i), code.payload);
            lemma_table_bytes(code.table);
        }
    }
    assert(codes[0] == codes[0] && codes[1] == codes[1] && codes[2] == codes[2] && codes[3]
        == codes[3]);
    assert forall|i: int| 0 <= i < 4 implies #[trigger] extents.repeats(i) == repeats(codes[i]) by {
        lemma_mode_bits(codes);
    }
    assert forall|i: int| 0 <= i < 4 implies {
        &&& #[trigger] extents.counts[i] == symbols_at(streams, i).len()
        &&& extents.description_bits[i] == description_of(codes[i]).len()
        &&& extents.payload_bits[i] == payload_of(codes[i]).len()
        &&& extents.suffix_bits[i] == suffix_at(streams, i).len()
        &&& extents.repeats(i) == repeats(codes[i])
        &&& description_of(codes[i]).len() > 0 <==> codes[i] is Some && !repeats(codes[i])
    } by {
        assert(extents.repeats(i) == repeats(codes[i]));
    }
}

/// The mode field holds one bit for each stream that names a table.
proof fn lemma_mode_bits(codes: Seq<Option<ClassCoded>>)
    ensures
        coded_mode(codes, 4) < 16,
        forall|i: int|
            0 <= i < 4 ==> crate::format::flag_set(
                coded_mode(codes, 4) as u8,
                #[trigger] crate::format::prologue::mode_unit(i),
            ) == repeats(codes[i]),
{
    reveal_with_fuel(coded_mode, 5);
    let a = if repeats(codes[0]) {
        1nat
    } else {
        0
    };
    let b = if repeats(codes[1]) {
        2nat
    } else {
        0
    };
    let c = if repeats(codes[2]) {
        4nat
    } else {
        0
    };
    let d = if repeats(codes[3]) {
        8nat
    } else {
        0
    };
    let mode = coded_mode(codes, 4);
    assert(mode == a + b + c + d);
    assert((mode / 1) % 2 == a);
    assert((mode / 2) % 2 == b / 2);
    assert((mode / 4) % 2 == c / 4);
    assert((mode / 8) % 2 == d / 8);
}

/// A list of steps that ends once has no more steps than the bytes it decodes to, and one.
pub proof fn lemma_step_count(steps: Seq<Step>)
    requires
        ends_once(steps),
        crate::sequence::steps_in_domain(steps),
    ensures
        steps.len() <= decoded_total(steps) / 4 + 1,
        run_total(steps) <= decoded_total(steps),
        steps.len() > 0 && steps.last().matched is Some ==> 4 * steps.len() <= decoded_total(steps),
    decreases steps.len(),
{
    if steps.len() > 0 {
        let less = steps.drop_last();
        assert forall|i: int| 0 <= i < less.len() - 1 implies (#[trigger] less[i]).matched is Some by {
            assert(less[i] == steps[i]);
        }
        assert forall|i: int| 0 <= i < less.len() implies (#[trigger] less[i]).in_domain() by {
            assert(less[i] == steps[i]);
        }
        lemma_step_count(less);
        assert(steps[steps.len() - 1].in_domain());
        if less.len() > 0 {
            assert(less.last() == steps[steps.len() - 2]);
        }
    }
}

/// The streams of a plan are drawn from no more symbols than the plan decodes bytes, and a
/// stream without symbols has no suffix.
proof fn lemma_stream_sizes(plan: Plan, slot: Option<u32>, size: nat)
    requires
        plan.valid(),
        decoded_total(plan.steps) == size,
        size >= 1,
    ensures
        forall|i: int|
            0 <= i < 4 ==> (#[trigger] symbols_at(streams_of(plan, slot), i)).len() <= size,
        symbols_at(streams_of(plan, slot), 1).len() == symbols_at(streams_of(plan, slot), 2).len(),
        symbols_at(streams_of(plan, slot), 3).len() <= symbols_at(streams_of(plan, slot), 2).len(),
        suffix_at(streams_of(plan, slot), 0).len() == 0,
        forall|i: int|
            0 <= i < 4 ==> (#[trigger] suffix_at(streams_of(plan, slot), i)).len() <= 14
                * plan.steps.len() && (symbols_at(streams_of(plan, slot), i).len() == 0
                ==> suffix_at(streams_of(plan, slot), i).len() == 0),
{
    lemma_step_count(plan.steps);
    law_stream_counts(plan, slot);
    lemma_suffix_lens(plan.steps, slot);
    lemma_distances_empty(plan.steps, slot);
}

/// Steps without a distance symbol have no distance suffix.
proof fn lemma_distances_empty(steps: Seq<Step>, slot: Option<u32>)
    ensures
        crate::sequence::streams::distances_of(steps, slot).symbols.len() == 0
            ==> crate::sequence::streams::distances_of(steps, slot).suffix.len() == 0,
    decreases steps.len(),
{
    if steps.len() > 0 {
        lemma_distances_empty(steps.drop_last(), slot);
    }
}

/// The tables of a coded block are committed by a decoder that holds the encoder's tables.
proof fn lemma_commits(
    tables: Seq<Option<ClassTable>>,
    first: bool,
    streams: StreamsShape,
    codes: Seq<Option<ClassCoded>>,
    extents: Extents,
    limit: u64,
)
    requires
        tables_valid(tables),
        codes_stand(tables, first, streams, codes),
        extents.counts.len() == 4,
        forall|i: int|
            0 <= i < 4 ==> {
                &&& #[trigger] extents.counts[i] == symbols_at(streams, i).len()
                &&& extents.repeats(i) == repeats(codes[i])
            },
        extents.table_bytes == coded_bytes(codes, 4),
        held_bytes(replaced(tables, fresh_seq(codes))) <= limit,
    ensures
        commit_refused(tables, extents, fresh_seq(codes), limit) is None,
        forall|i: int|
            0 <= i < 4 && (#[trigger] codes[i]) is Some ==> replaced(tables, fresh_seq(codes))[i]
                == Some(codes[i]->0.table),
        tables_valid(replaced(tables, fresh_seq(codes))),
{
    let fresh = fresh_seq(codes);
    let after = replaced(tables, fresh);
    assert forall|i: int| 0 <= i < 4 implies !#[trigger] names_unset(tables, extents, i) by {
        assert(extents.counts[i] == symbols_at(streams, i).len());
        assert(codes[i] == codes[i]);
    }
    assert forall|i: int| 0 <= i < 4 && (#[trigger] codes[i]) is Some implies after[i] == Some(
        codes[i]->0.table,
    ) by {}
    assert forall|i: int| 0 <= i < 4 implies (#[trigger] after[i] matches Some(table)
        ==> table.valid() && table.of_class(coder_at(i), alphabet_at(i))) by {
        assert(codes[i] == codes[i]);
        assert(tables[i] == tables[i]);
    }
    lemma_required(streams, codes, extents, after, 4);
}

proof fn lemma_required(
    streams: StreamsShape,
    codes: Seq<Option<ClassCoded>>,
    extents: Extents,
    after: Seq<Option<ClassTable>>,
    count: nat,
)
    requires
        count <= 4,
        forall|i: int|
            0 <= i < 4 ==> #[trigger] extents.counts[i] == symbols_at(streams, i).len(),
        forall|i: int|
            0 <= i < 4 ==> {
                &&& (#[trigger] codes[i]) is Some <==> symbols_at(streams, i).len() > 0
                &&& codes[i] is Some ==> after[i] == Some(codes[i]->0.table)
            },
    ensures
        required_bytes(extents, after, count) == coded_bytes(codes, count),
    decreases count,
{
    if count > 0 {
        lemma_required(streams, codes, extents, after, (count - 1) as nat);
        assert(extents.counts[count - 1] == symbols_at(streams, count - 1).len());
        assert(codes[count - 1] is Some <==> symbols_at(streams, count - 1).len() > 0);
    }
}

/// The streams of a coded block read back from its body.
proof fn lemma_streams_read_back(
    tables: Seq<Option<ClassTable>>,
    first: bool,
    streams: StreamsShape,
    codes: Seq<Option<ClassCoded>>,
    limit: u64,
)
    requires
        tables_valid(tables),
        codes_stand(tables, first, streams, codes),
        forall|i: int| 0 <= i < 4 ==> (#[trigger] symbols_at(streams, i)).len() <= u32::MAX,
        forall|i: int| 0 <= i < 4 ==> (#[trigger] suffix_at(streams, i)).len() <= u64::MAX,
        held_bytes(replaced(tables, fresh_seq(codes))) <= limit,
    ensures
        ({
            let extents = extents_of(streams, codes);
            let body = body_bytes(streams, codes);
            &&& body.len() == extents.body()
            &&& fresh_tables(extents, body, 4) == Ok::<Seq<Option<ClassTable>>, Error>(
                fresh_seq(codes),
            )
            &&& commit_refused(tables, extents, fresh_seq(codes), limit) is None
            &&& streams_at(replaced(tables, fresh_seq(codes)), extents, body) == Ok::<
                StreamsShape,
                Error,
            >(streams)
            &&& tables_valid(replaced(tables, fresh_seq(codes)))
        }),
{
    lemma_extents(tables, first, streams, codes);
    let extents = extents_of(streams, codes);
    lemma_commits(tables, first, streams, codes, extents, limit);
    let d = Seq::new(4, |i: int| description_of(codes[i]));
    let p = Seq::new(4, |i: int| payload_of(codes[i]));
    let f = Seq::new(4, |i: int| suffix_at(streams, i));
    let gd = packed_group(d);
    let gp = packed_group(p);
    let gf = packed_group(f);
    let body = body_bytes(streams, codes);
    assert forall|i: int| 0 <= i < 4 implies (#[trigger] d[i]).len() == extents.description_bits[i] by {
        assert(extents.counts[i] == symbols_at(streams, i).len());
    }
    assert forall|i: int| 0 <= i < 4 implies (#[trigger] p[i]).len() == extents.payload_bits[i] by {
        assert(extents.counts[i] == symbols_at(streams, i).len());
    }
    assert forall|i: int| 0 <= i < 4 implies (#[trigger] f[i]).len() == extents.suffix_bits[i] by {
        assert(extents.counts[i] == symbols_at(streams, i).len());
    }
    lemma_group_len(d, extents.description_bits);
    lemma_group_len(p, extents.payload_bits);
    lemma_group_len(f, extents.suffix_bits);
    assert(body == gd + gp + gf);
    assert(body =~= Seq::<u8>::empty() + gd + (gp + gf));
    assert(body =~= (gd + gp) + gf + Seq::<u8>::empty());
    let after = replaced(tables, fresh_seq(codes));
    assert forall|i: int| 0 <= i < 4 implies {
        &&& #[trigger] fresh_at(extents, body, i) == Ok::<Option<ClassTable>, Error>(
            fresh_of(codes[i]),
        )
        &&& stream_at(after, extents, body, i) == Ok::<StreamShape, Error>(
            streams.stream(alphabet_at(i)),
        )
    } by {
        assert(extents.counts[i] == symbols_at(streams, i).len());
        lemma_section_in_body(Seq::empty(), d, gp + gf, extents.description_bits, i);
        lemma_section_in_body(gd, p, gf, extents.payload_bits, i);
        lemma_section_in_body(gd + gp, f, Seq::empty(), extents.suffix_bits, i);
        assert(description_section(extents, body, i) == pack(d[i]));
        assert(payload_section(extents, body, i) == pack(p[i]));
        assert(suffix_section(extents, body, i) == pack(f[i]));
        lemma_pack(f[i]);
        let symbols = symbols_at(streams, i);
        match codes[i] {
            Some(code) => {
                lemma_payload_reads_back(code.table, symbols, code.payload);
                assert(after[i] == Some(code.table));
                if !code.repeats {
                    lemma_description_reads_back(code.table, coder_at(i), alphabet_at(i));
                }
            },
            None => {
                assert(symbols =~= Seq::empty());
            },
        }
        let shape = streams.stream(alphabet_at(i));
        assert(stream_at(after, extents, body, i)->Ok_0 =~= shape);
    }
    lemma_fresh_tables(extents, body, codes, 4);
    assert(fresh_seq(codes) =~= Seq::new(4, |i: int| fresh_of(codes[i])));
    assert(fresh_at(extents, body, 0) is Ok && fresh_at(extents, body, 1) is Ok && fresh_at(
        extents,
        body,
        2,
    ) is Ok && fresh_at(extents, body, 3) is Ok);
    let back = streams_at(after, extents, body)->Ok_0;
    assert(back =~= streams);
}

proof fn lemma_fresh_tables(
    extents: Extents,
    body: Seq<u8>,
    codes: Seq<Option<ClassCoded>>,
    count: nat,
)
    requires
        count <= 4,
        forall|i: int|
            0 <= i < 4 ==> #[trigger] fresh_at(extents, body, i) == Ok::<Option<ClassTable>, Error>(
                fresh_of(codes[i]),
            ),
    ensures
        fresh_tables(extents, body, count) == Ok::<Seq<Option<ClassTable>>, Error>(
            Seq::new(count, |i: int| fresh_of(codes[i])),
        ),
    decreases count,
{
    let goal = Seq::new(count, |i: int| fresh_of(codes[i]));
    if count > 0 {
        lemma_fresh_tables(extents, body, codes, (count - 1) as nat);
        let less = Seq::new((count - 1) as nat, |i: int| fresh_of(codes[i]));
        assert(fresh_at(extents, body, count - 1) is Ok);
        assert(goal =~= less.push(fresh_of(codes[count - 1])));
    } else {
        assert(goal =~= Seq::empty());
    }
}

/// An assembled block reads back: a decoder in step with the encoder spends exactly the bytes
/// the encoder stored, writes the content the sequences name, and is in step again with the
/// encoder that adopts the assembly.
pub proof fn law_assembled_block_reads_back(
    encoder: EncoderState,
    decoder: DecoderState,
    plan: Plan,
    terms: Terms,
    limit: u64,
    history: Seq<u8>,
    declared: u64,
    more: Seq<u8>,
    out: Seq<u8>,
)
    requires
        tables_valid(encoder.tables),
        decoder.tables == encoder.tables,
        decoder.slot == encoder.slot,
        decoder.poison is None,
        plan.valid(),
        assembled(encoder, plan, terms, limit) matches Ok(Some(_)),
        expansion(plan, history, out.len()) is Ok,
        out.len() <= u32::MAX,
        ({
            let (payload, _) = (assembled(encoder, plan, terms, limit)->Ok_0)->0;
            payload.len() < out.len() && payload.len() <= declared
        }),
    ensures
        ({
            let (payload, assembly) = (assembled(encoder, plan, terms, limit)->Ok_0)->0;
            let block = BlockShape {
                arrived: payload + more,
                declared,
                first: terms.first_in_region,
                history,
            };
            let (told, after, written) = block_read(decoder, block, limit, out);
            &&& told == Ok::<nat, Error>(payload.len())
            &&& written == expansion(plan, history, out.len())->Ok_0
            &&& after.tables == adopted(encoder, assembly).tables
            &&& after.slot == adopted(encoder, assembly).slot
            &&& after.poison is None
            &&& tables_valid(after.tables)
        }),
{
    let streams = streams_of(plan, encoder.slot);
    let share = (limit / TABLE_SHARES) as u64;
    let codes = streams_coded(encoder.tables, terms, share, streams, 4)->Ok_0;
    let extents = extents_of(streams, codes);
    let body = body_bytes(streams, codes);
    lemma_assembled(encoder, plan, terms, limit);
    lemma_coded_block(encoder, plan, terms, limit, history, out.len());
    lemma_located(
        extents,
        body,
        terms.first_in_region,
        out.len() as u32,
        limit,
        more,
        declared,
        history,
    );
    let (payload, _) = (assembled(encoder, plan, terms, limit)->Ok_0)->0;
    let block = BlockShape {
        arrived: payload + more,
        declared,
        first: terms.first_in_region,
        history,
    };
    lemma_read_composes(
        decoder,
        block,
        limit,
        out,
        extents,
        extents.wire(terms.first_in_region).len(),
        body,
        fresh_seq(codes),
        streams,
        plan,
    );
}

/// What an assembly is made of.
proof fn lemma_assembled(encoder: EncoderState, plan: Plan, terms: Terms, limit: u64)
    requires
        assembled(encoder, plan, terms, limit) matches Ok(Some(_)),
    ensures
        ({
            let (payload, assembly) = (assembled(encoder, plan, terms, limit)->Ok_0)->0;
            let streams = streams_of(plan, encoder.slot);
            let coded = streams_coded(
                encoder.tables,
                terms,
                (limit / TABLE_SHARES) as u64,
                streams,
                4,
            );
            let codes = coded->Ok_0;
            &&& codable(plan.steps)
            &&& coded is Ok
            &&& payload == extents_of(streams, codes).wire(terms.first_in_region) + body_bytes(
                streams,
                codes,
            )
            &&& held_bytes(replaced(encoder.tables, fresh_seq(codes))) <= limit
            &&& adopted(encoder, assembly).tables == replaced(encoder.tables, fresh_seq(codes))
            &&& adopted(encoder, assembly).slot == slot_after(plan.steps, encoder.slot)
        }),
{
}

/// A prologue and a body stand where a decoder looks for them.
proof fn lemma_located(
    extents: Extents,
    body: Seq<u8>,
    first: bool,
    size: u32,
    limit: u64,
    more: Seq<u8>,
    declared: u64,
    history: Seq<u8>,
)
    requires
        extents.admissible(size, first, limit),
        body.len() == extents.body(),
        (extents.wire(first) + body).len() < size,
        (extents.wire(first) + body).len() <= declared,
    ensures
        ({
            let wire = extents.wire(first);
            let block = BlockShape { arrived: wire + body + more, declared, first, history };
            &&& prologue_read(block.arrived, size, first, limit) == Ok::<(Extents, nat), Error>(
                (extents, wire.len()),
            )
            &&& body_of(block, extents, wire.len(), size) == Ok::<Seq<u8>, Error>(body)
        }),
{
    let wire = extents.wire(first);
    law_prologue_reads_back(extents, size, first, limit, body + more);
    assert(wire + body + more =~= wire + (body + more));
    let block = BlockShape { arrived: wire + body + more, declared, first, history };
    assert(block.arrived.subrange(wire.len() as int, (wire.len() + body.len()) as int) =~= body);
}

/// What an assembled block's parts answer a decoder in step with its encoder.
proof fn lemma_coded_block(
    encoder: EncoderState,
    plan: Plan,
    terms: Terms,
    limit: u64,
    history: Seq<u8>,
    size: nat,
)
    requires
        tables_valid(encoder.tables),
        plan.valid(),
        codable(plan.steps),
        0 < size <= u32::MAX,
        expansion(plan, history, size) is Ok,
        streams_coded(
            encoder.tables,
            terms,
            (limit / TABLE_SHARES) as u64,
            streams_of(plan, encoder.slot),
            4,
        ) is Ok,
        held_bytes(
            replaced(
                encoder.tables,
                fresh_seq(
                    streams_coded(
                        encoder.tables,
                        terms,
                        (limit / TABLE_SHARES) as u64,
                        streams_of(plan, encoder.slot),
                        4,
                    )->Ok_0,
                ),
            ),
        ) <= limit,
    ensures
        ({
            let streams = streams_of(plan, encoder.slot);
            let codes = streams_coded(
                encoder.tables,
                terms,
                (limit / TABLE_SHARES) as u64,
                streams,
                4,
            )->Ok_0;
            let extents = extents_of(streams, codes);
            let body = body_bytes(streams, codes);
            &&& extents.admissible(size as u32, terms.first_in_region, limit)
            &&& body.len() == extents.body()
            &&& fresh_tables(extents, body, 4) == Ok::<Seq<Option<ClassTable>>, Error>(
                fresh_seq(codes),
            )
            &&& commit_refused(encoder.tables, extents, fresh_seq(codes), limit) is None
            &&& streams_at(replaced(encoder.tables, fresh_seq(codes)), extents, body) == Ok::<
                StreamsShape,
                Error,
            >(streams)
            &&& tables_valid(replaced(encoder.tables, fresh_seq(codes)))
            &&& plan_of(streams, encoder.slot) == (
                Ok::<Plan, Error>(plan),
                slot_after(plan.steps, encoder.slot),
            )
        }),
{
    let first = terms.first_in_region;
    let streams = streams_of(plan, encoder.slot);
    let share = (limit / TABLE_SHARES) as u64;
    let codes = streams_coded(encoder.tables, terms, share, streams, 4)->Ok_0;
    lemma_codes_stand(encoder.tables, terms, share, streams);
    lemma_steps_expanded(plan, history, size, plan.steps.len());
    assert(plan.steps.take(plan.steps.len() as int) =~= plan.steps);
    lemma_stream_sizes(plan, encoder.slot, size);
    lemma_streams_read_back(encoder.tables, first, streams, codes, limit);
    lemma_admissible(encoder.tables, first, streams, codes, size as u32, limit);
    law_streams_give_back_the_sequences(plan, encoder.slot);
}

/// The codes of a block stand.
proof fn lemma_codes_stand(
    tables: Seq<Option<ClassTable>>,
    terms: Terms,
    share: u64,
    streams: StreamsShape,
)
    requires
        tables_valid(tables),
        streams_coded(tables, terms, share, streams, 4) is Ok,
    ensures
        codes_stand(
            tables,
            terms.first_in_region,
            streams,
            streams_coded(tables, terms, share, streams, 4)->Ok_0,
        ),
{
    let codes = streams_coded(tables, terms, share, streams, 4)->Ok_0;
    lemma_codes_at(tables, terms, share, streams, 4);
    assert forall|i: int| 0 <= i < 4 implies {
        &&& (#[trigger] codes[i]) is Some <==> symbols_at(streams, i).len() > 0
        &&& codes[i] matches Some(code) ==> code_stands(tables, symbols_at(streams, i), code, i)
        &&& repeats(codes[i]) ==> !terms.first_in_region
    } by {
        lemma_stream_coded(tables, terms, share, symbols_at(streams, i), i);
    }
}

/// A read whose every part answers answers the whole.
proof fn lemma_read_composes(
    decoder: DecoderState,
    block: BlockShape,
    limit: u64,
    out: Seq<u8>,
    extents: Extents,
    used: nat,
    body: Seq<u8>,
    fresh: Seq<Option<ClassTable>>,
    streams: StreamsShape,
    plan: Plan,
)
    requires
        decoder.poison is None,
        out.len() <= u32::MAX,
        prologue_read(block.arrived, out.len() as u32, block.first, limit) == Ok::<
            (Extents, nat),
            Error,
        >((extents, used)),
        body_of(block, extents, used, out.len() as u32) == Ok::<Seq<u8>, Error>(body),
        fresh_tables(extents, body, 4) == Ok::<Seq<Option<ClassTable>>, Error>(fresh),
        commit_refused(decoder.tables, extents, fresh, limit) is None,
        streams_at(replaced(decoder.tables, fresh), extents, body) == Ok::<StreamsShape, Error>(
            streams,
        ),
        plan_of(streams, decoder.slot).0 == Ok::<Plan, Error>(plan),
        expansion(plan, block.history, out.len()) is Ok,
    ensures
        ({
            let (told, after, written) = block_read(decoder, block, limit, out);
            &&& told == Ok::<nat, Error>(used + body.len())
            &&& written == expansion(plan, block.history, out.len())->Ok_0
            &&& after.tables == replaced(decoder.tables, fresh)
            &&& after.slot == plan_of(streams, decoder.slot).1
            &&& after.poison is None
        }),
{
}

/// The prologue of a coded block is one a decoder admits.
proof fn lemma_admissible(
    tables: Seq<Option<ClassTable>>,
    first: bool,
    streams: StreamsShape,
    codes: Seq<Option<ClassCoded>>,
    size: u32,
    limit: u64,
)
    requires
        tables_valid(tables),
        codes_stand(tables, first, streams, codes),
        forall|i: int| 0 <= i < 4 ==> (#[trigger] symbols_at(streams, i)).len() <= size,
        forall|i: int|
            0 <= i < 4 ==> (#[trigger] suffix_at(streams, i)).len() <= u64::MAX && (symbols_at(
                streams,
                i,
            ).len() == 0 ==> suffix_at(streams, i).len() == 0),
        symbols_at(streams, 1).len() == symbols_at(streams, 2).len(),
        symbols_at(streams, 3).len() <= symbols_at(streams, 2).len(),
        suffix_at(streams, 0).len() == 0,
        held_bytes(replaced(tables, fresh_seq(codes))) <= limit,
    ensures
        extents_of(streams, codes).admissible(size, first, limit),
{
    let extents = extents_of(streams, codes);
    lemma_extents(tables, first, streams, codes);
    lemma_commits(tables, first, streams, codes, extents, limit);
    let after = replaced(tables, fresh_seq(codes));
    lemma_required_held(extents, after);
    assert(extents.table_bytes <= limit);
    assert forall|i: int| 0 <= i < 4 implies #[trigger] extents.counts[i] <= size by {
        assert(symbols_at(streams, i).len() <= size);
    }
    assert(extents.counts[1] == symbols_at(streams, 1).len());
    assert(extents.counts[2] == symbols_at(streams, 2).len());
    assert(extents.counts[3] == symbols_at(streams, 3).len());
    assert forall|i: int| 0 <= i < 4 && extents.repeats(i) implies #[trigger] extents.counts[i]
        > 0 by {
        assert(extents.counts[i] == symbols_at(streams, i).len());
        assert(codes[i] is Some <==> symbols_at(streams, i).len() > 0);
    }
    assert forall|i: int| 0 <= i < 4 implies (#[trigger] extents.description_bits[i] > 0
        <==> extents.counts[i] > 0 && !extents.repeats(i)) by {
        assert(extents.counts[i] == symbols_at(streams, i).len());
        assert(codes[i] is Some <==> symbols_at(streams, i).len() > 0);
    }
    assert(extents.counts[0] == symbols_at(streams, 0).len());
    assert forall|i: int| 0 <= i < 4 && #[trigger] extents.counts[i] == 0 implies
        extents.payload_bits[i] == 0 && extents.suffix_bits[i] == 0 by {
        assert(codes[i] is Some <==> symbols_at(streams, i).len() > 0);
        assert(suffix_at(streams, i).len() <= u64::MAX);
    }
}

/// What a block's streams require is part of what a decoder holds.
proof fn lemma_required_held(extents: Extents, after: Seq<Option<ClassTable>>)
    ensures
        required_bytes(extents, after, 4) <= held_bytes(after),
{
    reveal_with_fuel(required_bytes, 5);
}

/// A decoder that has refused a block refuses every later one the same way, and nothing moves.
pub proof fn law_poison_stays(
    decoder: DecoderState,
    block: BlockShape,
    limit: u64,
    out: Seq<u8>,
    later: BlockShape,
    later_limit: u64,
    later_out: Seq<u8>,
)
    requires
        block_read(decoder, block, limit, out).0 is Err,
    ensures
        ({
            let (told, after, _) = block_read(decoder, block, limit, out);
            block_read(after, later, later_limit, later_out) == (told, after, later_out)
        }),
{
}

/// A block a decoder accepts stores fewer bytes than it decodes to.
pub proof fn law_accepted_block_compresses(
    decoder: DecoderState,
    block: BlockShape,
    limit: u64,
    out: Seq<u8>,
)
    requires
        block_read(decoder, block, limit, out).0 is Ok,
    ensures
        block_read(decoder, block, limit, out).0->Ok_0 < out.len(),
        block_read(decoder, block, limit, out).0->Ok_0 <= block.declared,
        block_read(decoder, block, limit, out).0->Ok_0 <= block.arrived.len(),
{
    let size = out.len() as u32;
    let (extents, used) = prologue_read(block.arrived, size, block.first, limit)->Ok_0;
    crate::format::prologue::law_read_prologue_is_admissible(
        block.arrived,
        size,
        block.first,
        limit,
    );
    let body = body_of(block, extents, used, size)->Ok_0;
    assert(body.len() == extents.body());
}

/// A decoder never holds more table memory than its policy allows, whatever it reads.
pub proof fn law_peak_stays_within_policy(
    decoder: DecoderState,
    block: BlockShape,
    limit: u64,
    out: Seq<u8>,
)
    requires
        decoder.peak <= limit,
        held_bytes(decoder.tables) <= limit,
    ensures
        block_read(decoder, block, limit, out).1.peak <= limit,
        held_bytes(block_read(decoder, block, limit, out).1.tables) <= limit,
{
}

/// Whether a decoder keeps pace with an encoder under a ceiling: it holds the encoder's tables
/// and slot, has refused nothing, and has stayed inside the ceiling.
pub open spec fn keeps_pace(encoder: EncoderState, decoder: DecoderState, limit: u64) -> bool {
    &&& tables_valid(encoder.tables)
    &&& decoder.tables == encoder.tables
    &&& decoder.slot == encoder.slot
    &&& decoder.poison is None
    &&& decoder.peak <= limit
    &&& held_bytes(decoder.tables) <= limit
}

/// A compressed block round-trips: from a region start, or after any blocks one side adopted and
/// the other read, a block assembled under the ceiling of its content reads back as that content,
/// spends exactly its bytes, and leaves the decoder's peak inside its ceiling and its pace kept,
/// so that the next block round-trips the same way.
pub proof fn law_a_compressed_block_round_trips(
    encoder: EncoderState,
    decoder: DecoderState,
    plan: Plan,
    terms: Terms,
    limit: u64,
    history: Seq<u8>,
    out: Seq<u8>,
)
    requires
        keeps_pace(encoder, decoder, limit),
        plan.valid(),
        expansion(plan, history, out.len()) is Ok,
        out.len() <= u32::MAX,
        terms.ceiling == out.len(),
        assembled(encoder, plan, terms, limit) matches Ok(Some(_)),
    ensures
        ({
            let (payload, assembly) = (assembled(encoder, plan, terms, limit)->Ok_0)->0;
            let block = BlockShape {
                arrived: payload,
                declared: payload.len() as u64,
                first: terms.first_in_region,
                history,
            };
            let (told, after, written) = block_read(decoder, block, limit, out);
            &&& told == Ok::<nat, Error>(payload.len())
            &&& written == expansion(plan, history, out.len())->Ok_0
            &&& after.peak <= limit
            &&& keeps_pace(adopted(encoder, assembly), after, limit)
        }),
        keeps_pace(EncoderState { tables: no_tables(), slot: None }, fresh_decoder(), limit),
{
    let (payload, assembly) = (assembled(encoder, plan, terms, limit)->Ok_0)->0;
    let block = BlockShape {
        arrived: payload,
        declared: payload.len() as u64,
        first: terms.first_in_region,
        history,
    };
    assert(payload + Seq::<u8>::empty() =~= payload);
    assert(payload.len() < out.len()) by {
        lemma_assembled(encoder, plan, terms, limit);
    }
    law_assembled_block_reads_back(
        encoder,
        decoder,
        plan,
        terms,
        limit,
        history,
        payload.len() as u64,
        Seq::empty(),
        out,
    );
    law_peak_stays_within_policy(decoder, block, limit, out);
}

/// A refusal before the tables are built leaves the decoder's counts and histories as they were.
pub proof fn law_refusal_before_the_tables_builds_none(
    decoder: DecoderState,
    block: BlockShape,
    limit: u64,
    out: Seq<u8>,
)
    requires
        decoder.poison is None,
        ({
            let size = out.len() as u32;
            ||| out.len() > u32::MAX
            ||| prologue_read(block.arrived, size, block.first, limit) is Err
            ||| {
                let (extents, used) = prologue_read(
                    block.arrived,
                    size,
                    block.first,
                    limit,
                )->Ok_0;
                ||| body_of(block, extents, used, size) is Err
                ||| {
                    let body = body_of(block, extents, used, size)->Ok_0;
                    ||| fresh_tables(extents, body, 4) is Err
                    ||| commit_refused(
                        decoder.tables,
                        extents,
                        fresh_tables(extents, body, 4)->Ok_0,
                        limit,
                    ) is Some
                }
            }
        }),
    ensures
        ({
            let (told, after, written) = block_read(decoder, block, limit, out);
            &&& told is Err
            &&& after == (DecoderState { poison: Some(told->Err_0), ..decoder })
            &&& written == out
        }),
{
}

/// The reuse trigger spends no more bits on a stream than either way of coding it.
pub proof fn law_trigger_takes_the_cheaper(
    fresh: ClassCoded,
    held: ClassTable,
    symbols: Seq<u16>,
)
    requires
        held.payload(symbols) is Ok,
        fresh.description.len() + fresh.payload.len() <= u64::MAX,
    ensures
        ({
            let chosen = cheaper_coded(fresh, Some(held), symbols)->Ok_0;
            let spent = chosen.description.len() + chosen.payload.len();
            &&& cheaper_coded(fresh, Some(held), symbols) is Ok
            &&& spent <= fresh.description.len() + fresh.payload.len()
            &&& spent <= held.payload(symbols)->Ok_0.len() || chosen == fresh
            &&& held.payload(symbols)->Ok_0.len() < fresh.description.len() + fresh.payload.len()
                ==> spent == held.payload(symbols)->Ok_0.len()
        }),
{
}

/// A table fits the share it was built inside.
pub proof fn law_table_fits_its_share(
    coder: Coder,
    alphabet: Alphabet,
    symbols: Seq<u16>,
    share: u64,
)
    requires
        symbols.len() > 0,
    ensures
        table_for(coder, alphabet, symbols, share) matches Ok(table) ==> table.table_bytes()
            <= share,
{
    let counts = histogram(symbols, alphabet.symbols());
    let size = alphabet.symbols() as u32;
    if let Ok(table) = table_for(coder, alphabet, symbols, share) {
        if coder is Huffman {
            lemma_length_limit(counts, share);
            let limit = length_limit(counts, share)->Ok_0;
            law_built_code_carries_what_occurs(counts, size, limit as u32);
            if huffman::distinct(counts) > 1 {
                lemma_share(15, huffman::narrowest_limit(huffman::distinct(counts)), share as nat);
                let lengths = huffman::built(counts, limit).lengths;
                huffman::lemma_built_limited(counts, limit as u32);
                huffman::lemma_widest(lengths);
                let widest = huffman::widest(lengths) as nat;
                if widest < limit {
                    lemma_pow2_strictly_increases(widest, limit);
                }
            }
        }
    }
}

/// A limit a budget allows makes a table inside the budget.
proof fn lemma_share(limit: nat, narrowest: nat, budget: nat)
    ensures
        huffman::limit_within(limit, narrowest, budget) matches Some(found) ==> 2 * pow2(found)
            <= budget,
    decreases limit,
{
    if limit > 0 {
        lemma_share((limit - 1) as nat, narrowest, budget);
    }
}

/// Whether each table an encoder holds fits a share.
pub open spec fn tables_share(tables: Seq<Option<ClassTable>>, share: u64) -> bool {
    forall|i: int| 0 <= i < 4 ==> table_bytes_of(#[trigger] tables[i]) <= share
}

/// An encoder that gives each class a quarter of the ceiling holds tables inside the ceiling,
/// whichever streams its blocks carry: the tables it would hold after a block fit, so a block is
/// never refused for the tables of the blocks before it.
pub proof fn law_encoder_stays_within_its_ceiling(
    encoder: EncoderState,
    plan: Plan,
    terms: Terms,
    limit: u64,
)
    requires
        tables_share(encoder.tables, (limit / TABLE_SHARES) as u64),
    ensures
        ({
            let share = (limit / TABLE_SHARES) as u64;
            let streams = streams_of(plan, encoder.slot);
            streams_coded(encoder.tables, terms, share, streams, 4) matches Ok(codes) ==> {
                let after = replaced(encoder.tables, fresh_seq(codes));
                &&& tables_share(after, share)
                &&& held_bytes(after) <= limit
            }
        }),
        assembled(encoder, plan, terms, limit) matches Ok(Some((_, assembly))) ==> tables_share(
            adopted(encoder, assembly).tables,
            (limit / TABLE_SHARES) as u64,
        ),
{
    let share = (limit / TABLE_SHARES) as u64;
    let streams = streams_of(plan, encoder.slot);
    lemma_codes_at(encoder.tables, terms, share, streams, 4);
    if let Ok(codes) = streams_coded(encoder.tables, terms, share, streams, 4) {
        let after = replaced(encoder.tables, fresh_seq(codes));
        assert forall|i: int| 0 <= i < 4 implies table_bytes_of(#[trigger] after[i]) <= share by {
            let symbols = symbols_at(streams, i);
            assert(stream_coded(encoder.tables, terms, share, symbols, i) == Ok::<
                Option<ClassCoded>,
                Error,
            >(codes[i]));
            assert(table_bytes_of(encoder.tables[i]) <= share);
            if symbols.len() > 0 {
                law_table_fits_its_share(coder_at(i), alphabet_at(i), symbols, share);
            }
        }
        assert(table_bytes_of(after[0]) <= share && table_bytes_of(after[1]) <= share
            && table_bytes_of(after[2]) <= share && table_bytes_of(after[3]) <= share);
    }
}

} // verus!
