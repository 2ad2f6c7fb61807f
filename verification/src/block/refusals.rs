//! Owns what an assembly can refuse: of a block one parse emits, nothing but a table that does
//! not fit its share of the ceiling.

use vstd::arithmetic::power2::*;
use vstd::prelude::*;

use crate::block::encoder::{
    assembled, body_bytes, description_of, extents_of, lemma_occurs_at, packed_group, payload_of, stream_coded,
    streams_coded, suffix_at, symbols_at, EncoderState, Terms, TABLE_SHARES,
};
use crate::block::laws::{lemma_built_table, lemma_step_count, tables_valid};
use crate::block::tables::{
    alphabet_at, coder_at, drawn_from, histogram, length_limit, lemma_description_len,
    lemma_occurrences_bound, table_for, ClassTable,
};
use crate::entropy::huffman::laws::{law_built_code_carries_what_occurs, lemma_spell_len};
use crate::entropy::huffman::merge::{
    below, entry_at, leaves_in, lemma_leaves_bound, level, packages_fit, pairs, takes_leaf,
};
use crate::entropy::huffman::{
    buildable, lemma_ranked, limit_within, narrowest_limit, ranked, weights_of,
    LENGTH_LIMIT,
};
use crate::entropy::rans;
use crate::entropy::rans::law_normalized_table_keeps_every_symbol;
use crate::entropy::rans::scale::{lemma_count_in_sum, sum_of, support};
use crate::entropy::rans::states::{
    admitted_states, coded, lemma_coded_states, lemma_flush, lemma_shed_fits, shed, TableShape,
};
use crate::entropy::bits::lemma_pack;
use crate::entropy::lemma_bit_width;
use crate::format::prologue::lemma_wire_len;
use crate::sequence::streams::{
    distances_of, law_stream_counts, lemma_suffix_lens, lengths_of, runs_of, streams_of,
};
use crate::sequence::{decoded_total, steps_in_domain, Alphabet, Plan, Step};

verus! {

/// The bytes a block one parse emits decodes to at most.
pub const BLOCK_BOUND: u64 = 65_536;

/// The entries of a level weigh no more than the heaviest leaf, doubled for each level.
proof fn lemma_level_bound(leaves: Seq<nat>, heaviest: nat, k: nat)
    requires
        forall|i: int| 0 <= i < leaves.len() ==> #[trigger] leaves[i] <= heaviest,
    ensures
        forall|n: int|
            0 <= n < level(leaves, k).len() ==> #[trigger] level(leaves, k)[n] <= heaviest * pow2(k),
    decreases k,
{
    let packages = below(leaves, k);
    lemma_pow2_pos(k);
    assert(heaviest <= heaviest * pow2(k)) by (nonlinear_arith)
        requires
            pow2(k) > 0,
    ;
    if k > 0 {
        lemma_level_bound(leaves, heaviest, (k - 1) as nat);
        lemma_pow2_unfold(k);
        let half = heaviest * pow2((k - 1) as nat);
        assert(2 * half == heaviest * pow2(k)) by (nonlinear_arith)
            requires
                half == heaviest * pow2((k - 1) as nat),
                pow2(k) == 2 * pow2((k - 1) as nat),
        ;
        let before = level(leaves, (k - 1) as nat);
        assert forall|j: int| 0 <= j < packages.len() implies #[trigger] packages[j] <= heaviest
            * pow2(k) by {
            assert(before[2 * j] <= half);
            assert(before[2 * j + 1] <= half);
        }
    }
    assert forall|n: int| 0 <= n < level(leaves, k).len() implies #[trigger] level(leaves, k)[n]
        <= heaviest * pow2(k) by {
        let i = leaves_in(leaves, packages, n as nat);
        lemma_leaves_bound(leaves, packages, n as nat);
        assert(level(leaves, k)[n] == entry_at(leaves, packages, n));
        if !takes_leaf(leaves, packages, i as int, n - i) {
            assert(packages[n - i] <= heaviest * pow2(k));
        }
    }
}

/// Leaves of a block's counts make packages 64 bits carry.
pub proof fn lemma_packages_fit(leaves: Seq<nat>, levels: nat)
    requires
        forall|i: int| 0 <= i < leaves.len() ==> #[trigger] leaves[i] <= 0x1_0000_0000,
        levels <= 15,
    ensures
        packages_fit(leaves, levels),
{
    assert forall|k: nat, j: int|
        k < levels && 0 <= j < pairs(level(leaves, k)).len() implies #[trigger] pairs(
        level(leaves, k),
    )[j] <= u64::MAX by {
        lemma_level_bound(leaves, 0x1_0000_0000, k);
        lemma2_to64();
        if k < 16 {
            lemma_pow2_strictly_increases(k, 16);
        }
        let now = level(leaves, k);
        assert(now[2 * j] <= 0x1_0000_0000 * pow2(k));
        assert(now[2 * j + 1] <= 0x1_0000_0000 * pow2(k));
    }
}

/// A limit within a budget holds the symbols.
proof fn lemma_limit_holds(limit: nat, narrowest: nat, budget: nat)
    requires
        limit >= narrowest,
    ensures
        limit_within(limit, narrowest, budget) matches Some(found) ==> narrowest <= found <= limit,
    decreases limit,
{
    if limit > narrowest {
        lemma_limit_holds((limit - 1) as nat, narrowest, budget);
    }
}

/// The counts of a non-empty stream hold a symbol that occurs, and each is within the stream.
proof fn lemma_counts(symbols: Seq<u16>, alphabet: Alphabet) -> (at: int)
    requires
        0 < symbols.len() <= 0x1_0000_0000,
        drawn_from(symbols, alphabet),
    ensures
        0 <= at < alphabet.symbols(),
        histogram(symbols, alphabet.symbols())[at] > 0,
        forall|s: int|
            0 <= s < alphabet.symbols() ==> #[trigger] histogram(symbols, alphabet.symbols())[s]
                <= symbols.len(),
        forall|i: int|
            0 <= i < symbols.len() ==> histogram(
                symbols,
                alphabet.symbols(),
            )[#[trigger] symbols[i] as int] > 0,
{
    let counts = histogram(symbols, alphabet.symbols());
    assert forall|s: int| 0 <= s < alphabet.symbols() implies #[trigger] counts[s]
        <= symbols.len() by {
        lemma_occurrences_bound(symbols, s);
    }
    assert forall|i: int| 0 <= i < symbols.len() implies counts[#[trigger] symbols[i] as int]
        > 0 by {
        lemma_occurs_at(symbols, i);
        lemma_occurrences_bound(symbols, symbols[i] as int);
    }
    assert(symbols[0] < alphabet.symbols());
    symbols[0] as int
}

/// Counts sum to no more than their number times the largest.
proof fn lemma_sum_bound(counts: Seq<u64>, most: nat)
    requires
        forall|s: int| 0 <= s < counts.len() ==> #[trigger] counts[s] <= most,
    ensures
        sum_of(counts) <= counts.len() * most,
    decreases counts.len(),
{
    if counts.len() > 0 {
        lemma_sum_bound(counts.drop_last(), most);
        assert(counts[counts.len() - 1] <= most);
        assert((counts.len() - 1) * most + most == counts.len() * most) by (nonlinear_arith);
    }
}

/// A Huffman code is built for a byte stream wherever the share holds one.
proof fn lemma_huffman_builds(symbols: Seq<u16>, share: u64)
    requires
        0 < symbols.len() <= BLOCK_BOUND,
        drawn_from(symbols, Alphabet::LiteralByte),
    ensures
        ({
            let counts = histogram(symbols, 256);
            length_limit(counts, share) matches Ok(limit) ==> limit <= LENGTH_LIMIT && buildable(
                counts,
                256,
                limit as u32,
            )
        }),
{
    let counts = histogram(symbols, 256);
    let at = lemma_counts(symbols, Alphabet::LiteralByte);
    lemma_ranked(counts);
    let present = ranked(counts);
    let r = choose|r: int| 0 <= r < present.len() && (#[trigger] present[r]).1 == at;
    assert(present.len() >= 1);
    lemma2_to64();
    if present.len() > 1 {
        let narrowest = narrowest_limit(present.len());
        lemma_bit_width((present.len() - 1) as nat);
        if narrowest > 8 {
            if narrowest > 9 {
                lemma_pow2_strictly_increases(8, (narrowest - 1) as nat);
            }
        }
        assert(narrowest <= 8);
        lemma_limit_holds(LENGTH_LIMIT as nat, narrowest, share as nat);
        if let Ok(limit) = length_limit(counts, share) {
            if narrowest < limit {
                lemma_pow2_strictly_increases(narrowest, limit);
            }
            let leaves = weights_of(present);
            assert forall|i: int| 0 <= i < leaves.len() implies #[trigger] leaves[i]
                <= 0x1_0000_0000 by {
                assert(present[i].0 == counts[present[i].1 as int]);
            }
            lemma_packages_fit(leaves, (limit - 1) as nat);
        }
    }
}

/// The counts of a stream over a bucketed alphabet normalize.
proof fn lemma_rans_normalizes(symbols: Seq<u16>, alphabet: Alphabet)
    requires
        0 < symbols.len() <= BLOCK_BOUND,
        drawn_from(symbols, alphabet),
        alphabet != Alphabet::LiteralByte,
    ensures
        rans::normalizable(
            histogram(symbols, alphabet.symbols()),
            alphabet.symbols() as u32,
        ),
{
    let counts = histogram(symbols, alphabet.symbols());
    let at = lemma_counts(symbols, alphabet);
    lemma_sum_bound(counts, symbols.len());
    lemma_count_in_sum(counts, at);
    assert(counts.len() * symbols.len() <= 61 * 65_536) by (nonlinear_arith)
        requires
            counts.len() <= 61,
            symbols.len() <= 65_536,
    ;
    let log = rans::built_log(sum_of(counts), support(counts));
    lemma2_to64();
    assert(log <= 10);
    if log < 10 {
        lemma_pow2_strictly_increases(log, 10);
    }
    assert forall|s: int| 0 <= s < counts.len() implies #[trigger] counts[s] * pow2(log) + sum_of(
        counts,
    ) / 2 <= u64::MAX by {
        assert(counts[s] * pow2(log) <= 65_536 * 1_024) by (nonlinear_arith)
            requires
                counts[s] <= 65_536,
                pow2(log) <= 1_024,
        ;
    }
}

/// A state sheds no more bytes than it has.
proof fn lemma_shed_len(state: nat, limit: nat)
    requires
        state < 0x1_0000_0000,
        limit > 0,
    ensures
        shed(state, limit).1.len() <= 4,
{
    reveal_with_fuel(shed, 6);
}

/// The bytes a stream's symbols shed: at most four each.
proof fn lemma_coded_len(shape: TableShape, symbols: Seq<u16>, states: nat, at: nat)
    requires
        shape.valid(),
        shape.carries_all(symbols),
        admitted_states(states),
        at <= symbols.len(),
    ensures
        coded(shape, symbols, states, at).1.len() <= 4 * (symbols.len() - at),
    decreases symbols.len() - at,
{
    if at < symbols.len() {
        lemma_coded_len(shape, symbols, states, at + 1);
        lemma_coded_states(shape, symbols, states, at + 1);
        let held = coded(shape, symbols, states, at + 1).0;
        let which = (at % states) as int;
        assert(shape.carries(symbols[at as int]));
        lemma_shed_fits(shape, held[which], symbols[at as int]);
        lemma_shed_len(held[which], shape.limit(symbols[at as int]));
    }
}

/// A table that carries a stream codes it, in at most thirty-two bits a symbol and the states.
proof fn lemma_payload_fits(table: ClassTable, symbols: Seq<u16>)
    requires
        table.valid(),
        table.carries_all(symbols),
        symbols.len() <= BLOCK_BOUND,
    ensures
        table.payload(symbols) matches Ok(bits) && bits.len() <= 32 * symbols.len() + 128,
{
    match table {
        ClassTable::Huffman(shape) => {
            lemma_spell_len(shape, symbols);
        },
        ClassTable::Rans(shape, states) => {
            lemma_coded_len(shape, symbols, states, 0);
            lemma_coded_states(shape, symbols, states, 0);
            let (held, bytes) = coded(shape, symbols, states, 0);
            lemma_flush(held, states);
        },
    }
}

/// The symbols of a stream of steps are symbols of its alphabet.
proof fn lemma_steps_drawn(steps: Seq<Step>, slot: Option<u32>)
    requires
        steps_in_domain(steps),
    ensures
        drawn_from(runs_of(steps).symbols, Alphabet::LiteralRun),
        drawn_from(lengths_of(steps).symbols, Alphabet::MatchLength),
        drawn_from(distances_of(steps, slot).symbols, Alphabet::MatchDistance),
    decreases steps.len(),
{
    if steps.len() > 0 {
        let less = steps.drop_last();
        assert forall|i: int| 0 <= i < less.len() implies (#[trigger] less[i]).in_domain() by {
            assert(less[i] == steps[i]);
        }
        lemma_steps_drawn(less, slot);
        let step = steps.last();
        assert(steps[steps.len() - 1].in_domain());
        Alphabet::LiteralRun.law_symbol_names_its_value(
            Alphabet::LiteralRun.code(step.run as nat),
            0,
        );
        if let Some(matched) = step.matched {
            Alphabet::MatchLength.law_symbol_names_its_value(
                Alphabet::MatchLength.code(matched.length as nat),
                0,
            );
            Alphabet::MatchDistance.law_symbol_names_its_value(
                Alphabet::MatchDistance.code(matched.distance as nat),
                0,
            );
            Alphabet::MatchDistance.law_symbol_names_its_value(1, 0);
        }
    }
}

/// The symbols of every stream of a plan are symbols of its alphabet.
proof fn lemma_streams_drawn(plan: Plan, slot: Option<u32>, index: int)
    requires
        plan.valid(),
        0 <= index < 4,
    ensures
        drawn_from(symbols_at(streams_of(plan, slot), index), alphabet_at(index)),
{
    lemma_steps_drawn(plan.steps, slot);
}

/// A table built for a stream carries it.
proof fn lemma_built_carries(index: int, symbols: Seq<u16>, share: u64)
    requires
        0 <= index < 4,
        0 < symbols.len() <= BLOCK_BOUND,
        drawn_from(symbols, alphabet_at(index)),
    ensures
        match table_for(coder_at(index), alphabet_at(index), symbols, share) {
            Ok(table) => table.valid() && table.carries_all(symbols),
            Err(error) => error is LimitExceeded,
        },
{
    let alphabet = alphabet_at(index);
    let counts = histogram(symbols, alphabet.symbols());
    let size = alphabet.symbols() as u32;
    let at = lemma_counts(symbols, alphabet);
    if index == 0 {
        lemma_huffman_builds(symbols, share);
        if let Ok(limit) = length_limit(counts, share) {
            law_built_code_carries_what_occurs(counts, size, limit as u32);
        }
    } else {
        lemma_rans_normalizes(symbols, alphabet);
        law_normalized_table_keeps_every_symbol(counts, size);
    }
    if let Ok(table) = table_for(coder_at(index), alphabet, symbols, share) {
        lemma_built_table(coder_at(index), alphabet, symbols, share);
        match table {
            ClassTable::Huffman(shape) => {
                assert forall|i: int| 0 <= i < symbols.len() implies shape.carries(
                    #[trigger] symbols[i],
                ) by {
                    assert(counts[symbols[i] as int] > 0);
                }
            },
            ClassTable::Rans(shape, _) => {
                assert forall|i: int| 0 <= i < symbols.len() implies shape.carries(
                    #[trigger] symbols[i],
                ) by {
                    assert(counts[symbols[i] as int] > 0);
                }
            },
        }
    }
}

/// A stream codes, in few enough bits, unless its table does not fit its share.
proof fn lemma_stream_codes(
    tables: Seq<Option<ClassTable>>,
    terms: Terms,
    share: u64,
    symbols: Seq<u16>,
    index: int,
)
    requires
        tables_valid(tables),
        0 <= index < 4,
        symbols.len() <= BLOCK_BOUND,
        drawn_from(symbols, alphabet_at(index)),
        terms.repeat is None,
    ensures
        match stream_coded(tables, terms, share, symbols, index) {
            Ok(code) => payload_of(code).len() <= 32 * symbols.len() + 128 && description_of(
                code,
            ).len() <= 4357,
            Err(error) => error is LimitExceeded,
        },
{
    if symbols.len() > 0 {
        lemma_built_carries(index, symbols, share);
        if let Ok(table) = table_for(coder_at(index), alphabet_at(index), symbols, share) {
            lemma_payload_fits(table, symbols);
            lemma_description_len(table);
        }
        if let Some(held) = tables[index] {
            assert(held.valid());
            if held.carries_all(symbols) {
                lemma_payload_fits(held, symbols);
            }
        }
    }
}

/// The streams of a block code, unless a table does not fit its share.
proof fn lemma_streams_code(
    tables: Seq<Option<ClassTable>>,
    terms: Terms,
    share: u64,
    plan: Plan,
    slot: Option<u32>,
    count: nat,
)
    requires
        tables_valid(tables),
        plan.valid(),
        terms.repeat is None,
        count <= 4,
        forall|i: int|
            0 <= i < 4 ==> (#[trigger] symbols_at(streams_of(plan, slot), i)).len() <= BLOCK_BOUND,
    ensures
        match streams_coded(tables, terms, share, streams_of(plan, slot), count) {
            Ok(codes) => codes.len() == count && forall|i: int|
                0 <= i < count ==> payload_of(#[trigger] codes[i]).len() <= 32 * BLOCK_BOUND + 128
                    && description_of(codes[i]).len() <= 4357,
            Err(error) => error is LimitExceeded,
        },
    decreases count,
{
    if count > 0 {
        let streams = streams_of(plan, slot);
        lemma_streams_code(tables, terms, share, plan, slot, (count - 1) as nat);
        lemma_streams_drawn(plan, slot, count - 1);
        lemma_stream_codes(tables, terms, share, symbols_at(streams, count - 1), count - 1);
        if let Ok(codes) = streams_coded(tables, terms, share, streams, count) {
            let before = streams_coded(tables, terms, share, streams, (count - 1) as nat)->Ok_0;
            assert(codes == before.push(codes[count - 1]));
            assert forall|i: int| 0 <= i < count implies payload_of(#[trigger] codes[i]).len() <= 32
                * BLOCK_BOUND + 128 && description_of(codes[i]).len() <= 4357 by {
                if i < count - 1 {
                    assert(codes[i] == before[i]);
                }
            }
        }
    }
}

/// A group of four bounded sections is bounded.
proof fn lemma_group_bound(sections: Seq<Seq<bool>>, most: nat)
    requires
        forall|i: int| 0 <= i < sections.len() ==> (#[trigger] sections[i]).len() <= most,
    ensures
        packed_group(sections).len() <= sections.len() * (most / 8 + 1),
    decreases sections.len(),
{
    if sections.len() > 0 {
        let less = sections.drop_last();
        assert forall|i: int| 0 <= i < less.len() implies (#[trigger] less[i]).len() <= most by {
            assert(less[i] == sections[i]);
        }
        lemma_group_bound(less, most);
        lemma_pack(sections.last());
        assert(sections[sections.len() - 1].len() <= most);
        assert((sections.len() - 1) * (most / 8 + 1) + (most / 8 + 1) == sections.len() * (most / 8
            + 1)) by (nonlinear_arith);
    }
}

/// Of a block no longer than one parse emits, an assembly that names no table outright refuses
/// nothing but the table memory: every other block assembles, or is answered as not staying
/// below its ceiling.
pub proof fn law_assembly_refuses_only_its_tables(
    encoder: EncoderState,
    plan: Plan,
    terms: Terms,
    limit: u64,
)
    requires
        tables_valid(encoder.tables),
        plan.valid(),
        decoded_total(plan.steps) <= BLOCK_BOUND,
        terms.repeat is None,
    ensures
        assembled(encoder, plan, terms, limit) matches Err(error) ==> error is LimitExceeded,
        assembled(encoder, plan, terms, limit) matches Ok(Some((payload, _))) ==> 1
            <= payload.len() < terms.ceiling,
{
    let streams = streams_of(plan, encoder.slot);
    let share = (limit / TABLE_SHARES) as u64;
    lemma_step_count(plan.steps);
    law_stream_counts(plan, encoder.slot);
    lemma_suffix_lens(plan.steps, encoder.slot);
    assert forall|i: int| 0 <= i < 4 implies (#[trigger] symbols_at(streams, i)).len()
        <= BLOCK_BOUND by {}
    lemma_streams_code(encoder.tables, terms, share, plan, encoder.slot, 4);
    if let Ok(codes) = streams_coded(encoder.tables, terms, share, streams, 4) {
        let d = Seq::new(4, |i: int| description_of(codes[i]));
        let p = Seq::new(4, |i: int| payload_of(codes[i]));
        let f = Seq::new(4, |i: int| suffix_at(streams, i));
        assert forall|i: int| 0 <= i < 4 implies (#[trigger] d[i]).len() <= 4357 by {
            assert(codes[i] == codes[i]);
        }
        assert forall|i: int| 0 <= i < 4 implies (#[trigger] p[i]).len() <= 32 * BLOCK_BOUND
            + 128 by {
            assert(codes[i] == codes[i]);
        }
        assert forall|i: int| 0 <= i < 4 implies (#[trigger] f[i]).len() <= 14 * 16_385 by {}
        assert(body_bytes(streams, codes) == packed_group(d) + packed_group(p) + packed_group(f));
        lemma_group_bound(d, 4357);
        lemma_group_bound(p, (32 * BLOCK_BOUND + 128) as nat);
        lemma_group_bound(f, 14 * 16_385);
        lemma_wire_len(extents_of(streams, codes), terms.first_in_region);
    }
}

} // verus!
