//! Owns what the early-RAW rule promises: a block is stored without an assembly only where no code
//! of whole bits that fits its bytes would shorten it by more than the tolerance.

use vstd::arithmetic::power2::*;
use vstd::multiset::*;
use vstd::prelude::*;
use vstd::seq_lib::*;

use crate::block::encoder::{assembled, Terms};
use crate::encode::signal::{
    aborts, byte_count, law_log2_is_monotone, law_log2_stays_in_its_octave,
    log2_scaled, mantissa, shannon_sum, shannon_term, LOG2_FRAC,
};
use crate::encode::{all_equal, matched_total, EmitterState};
use crate::entropy::{bit_width, lemma_bit_width};
use crate::format::BlockType;
use crate::parser::laws::{law_parse_decodes_to_its_input, law_steps_fit_their_capacity};
use crate::sequence::{decoded_total, run_total, Step};

verus! {

/// The bits a stream of bytes spells where each byte value takes its own number of bits.
pub open spec fn spelled(data: Seq<u8>, lengths: Seq<nat>) -> nat
    decreases data.len(),
{
    if data.len() == 0 {
        0
    } else {
        spelled(data.drop_last(), lengths) + lengths[data.last() as int]
    }
}

/// Whether code lengths are long enough for a stream: a value of `length` bits makes up at least
/// one in two to the `length` of it.
pub open spec fn wide_enough(data: Seq<u8>, lengths: Seq<nat>) -> bool {
    forall|b: u8| #[trigger]
        data.to_multiset().count(b) > 0 ==> data.len() <= data.to_multiset().count(b) * pow2(
            lengths[b as int],
        )
}

/// Whether code lengths are no longer than a stream asks for: a value of `length` bits makes up at
/// most one in two to the `length` of it.
pub open spec fn no_wider(data: Seq<u8>, lengths: Seq<nat>) -> bool {
    forall|b: u8| #[trigger]
        data.to_multiset().count(b) > 0 ==> data.to_multiset().count(b) * pow2(lengths[b as int])
            <= data.len()
}

/// The bits the byte values below `upto` spell.
spec fn weighted(data: Seq<u8>, lengths: Seq<nat>, upto: nat) -> nat
    decreases upto,
{
    if upto == 0 {
        0
    } else {
        weighted(data, lengths, (upto - 1) as nat) + byte_count(data, upto - 1) * lengths[upto - 1]
    }
}

/// A doubled value has its logarithm one unit higher.
pub proof fn law_doubling_adds_one_to_the_logarithm(value: nat)
    requires
        value > 0,
    ensures
        log2_scaled(2 * value) == log2_scaled(value) + 256,
{
    let floor = (bit_width(value) - 1) as nat;
    lemma_bit_width(value);
    lemma_bit_width(2 * value);
    assert((2 * value) / 2 == value);
    assert(bit_width(2 * value) == bit_width(value) + 1);
    if floor + 1 <= 8 {
        let rest = (8 - floor - 1) as nat;
        lemma_pow2_unfold(rest + 1);
        assert(2 * value * pow2(rest) == value * (2 * pow2(rest))) by (nonlinear_arith);
    } else if floor == 8 {
        lemma2_to64();
        assert(value * 1 == value);
    } else {
        let rest = (floor - 8) as nat;
        lemma_pow2_pos(rest);
        lemma_pow2_unfold(rest + 1);
        let p = pow2(rest);
        vstd::arithmetic::div_mod::lemma_div_denominator(2 * value as int, 2, p as int);
        assert(2 * p == p * 2);
    }
    assert(mantissa(2 * value) == mantissa(value));
}

/// A value times a power of two has its logarithm that power's exponent higher.
proof fn lemma_shifted(value: nat, by: nat)
    requires
        value > 0,
    ensures
        log2_scaled(value * pow2(by)) == log2_scaled(value) + 256 * by,
        value * pow2(by) > 0,
    decreases by,
{
    if by == 0 {
        lemma2_to64();
        assert(value * 1 == value);
    } else {
        let less = (by - 1) as nat;
        lemma_shifted(value, less);
        lemma_pow2_unfold(by);
        let p = pow2(less);
        assert(value * (2 * p) == 2 * (value * p)) by (nonlinear_arith);
        law_doubling_adds_one_to_the_logarithm(value * p);
    }
}

/// The base-2 logarithms of one and its eighths up to two, in 256ths, rounded.
pub open spec fn knot(eighth: int) -> int {
    if eighth == 0 {
        0
    } else if eighth == 1 {
        44
    } else if eighth == 2 {
        82
    } else if eighth == 3 {
        118
    } else if eighth == 4 {
        150
    } else if eighth == 5 {
        179
    } else if eighth == 6 {
        207
    } else if eighth == 7 {
        232
    } else {
        256
    }
}

/// A fraction lies within one 256th of one of the eight chords, where the chord is its own.
#[verifier::rlimit(100)]
#[verifier::spinoff_prover]
proof fn lemma_chord(i: int, from: int, base: int, rise: int)
    requires
        from <= i < from + 32,
        (from == 0 && base == 0 && rise == 44) || (from == 32 && base == 44 && rise == 38) || (from == 64 && base == 82 && rise == 36) || (from == 96 && base == 118 && rise == 32) || (from == 128 && base == 150 && rise == 29) || (from == 160 && base == 179 && rise == 28) || (from == 192 && base == 207 && rise == 25) || (from == 224 && base == 232 && rise == 24),
    ensures
        -32 <= 32 * LOG2_FRAC@[i] - 32 * base - rise * (i - from) <= 32,
{
    if from == 0 {
        assert(-32 <= 32 * LOG2_FRAC@[i] - 0 - 44 * (i - 0) <= 32);
    } else if from == 32 {
        assert(-32 <= 32 * LOG2_FRAC@[i] - 1408 - 38 * (i - 32) <= 32);
    } else if from == 64 {
        assert(-32 <= 32 * LOG2_FRAC@[i] - 2624 - 36 * (i - 64) <= 32);
    } else if from == 96 {
        assert(-32 <= 32 * LOG2_FRAC@[i] - 3776 - 32 * (i - 96) <= 32);
    } else if from == 128 {
        assert(-32 <= 32 * LOG2_FRAC@[i] - 4800 - 29 * (i - 128) <= 32);
    } else if from == 160 {
        assert(-32 <= 32 * LOG2_FRAC@[i] - 5728 - 28 * (i - 160) <= 32);
    } else if from == 192 {
        assert(-32 <= 32 * LOG2_FRAC@[i] - 6624 - 25 * (i - 192) <= 32);
    } else {
        assert(-32 <= 32 * LOG2_FRAC@[i] - 7424 - 24 * (i - 224) <= 32);
    }
}

/// A fraction of the logarithm lies within one 256th of the chord of its eighth.
proof fn lemma_fraction_follows_the_curve(i: int, eighth: int)
    requires
        0 <= i < 256,
        0 <= eighth < 8,
        32 * eighth <= i < 32 * eighth + 32,
    ensures
        -32 <= 32 * LOG2_FRAC@[i] - 32 * knot(eighth) - (knot(eighth + 1) - knot(eighth)) * (i - 32
            * eighth) <= 32,
{
    if eighth == 0 {
        lemma_chord(i, 0, 0, 44);
    } else if eighth == 1 {
        lemma_chord(i, 32, 44, 38);
    } else if eighth == 2 {
        lemma_chord(i, 64, 82, 36);
    } else if eighth == 3 {
        lemma_chord(i, 96, 118, 32);
    } else if eighth == 4 {
        lemma_chord(i, 128, 150, 29);
    } else if eighth == 5 {
        lemma_chord(i, 160, 179, 28);
    } else if eighth == 6 {
        lemma_chord(i, 192, 207, 25);
    } else {
        lemma_chord(i, 224, 232, 24);
    }
}

/// The logarithm follows its curve between powers of two: cut the values between two powers into
/// eighths, and it lies within one 256th of the line between the logarithms of the ends.
pub proof fn law_log2_follows_the_curve(value: nat, eighth: int)
    requires
        0 <= eighth < 8,
        256 + 32 * eighth <= value < 256 + 32 * eighth + 32,
    ensures
        -32 <= 32 * (log2_scaled(value) - 2_048 - knot(eighth)) - (knot(eighth + 1) - knot(eighth))
            * (value - 256 - 32 * eighth) <= 32,
{
    lemma2_to64();
    lemma_bit_width(value);
    if bit_width(value) > 10 {
        lemma_pow2_strictly_increases(9, (bit_width(value) - 1) as nat);
    }
    if bit_width(value) < 8 {
        lemma_pow2_strictly_increases(bit_width(value), 8);
    }
    assert(bit_width(value) == 9);
    assert(value * 1 == value);
    assert(mantissa(value) == value);
    lemma_fraction_follows_the_curve(value - 256, eighth);
}

/// A byte value's occurrences are its count.
proof fn lemma_count(data: Seq<u8>, b: u8)
    ensures
        byte_count(data, b as int) == data.to_multiset().count(b),
    decreases data.len(),
{
    broadcast use group_to_multiset_ensures;
    broadcast use group_multiset_axioms;

    if data.len() > 0 {
        lemma_count(data.drop_last(), b);
        assert(data.drop_last().push(data.last()) =~= data);
    } else {
        assert(!data.contains(b));
    }
}

/// A value occurs no more often than there are bytes.
proof fn lemma_count_bound(data: Seq<u8>, byte: int)
    ensures
        byte_count(data, byte) <= data.len(),
    decreases data.len(),
{
    if data.len() > 0 {
        lemma_count_bound(data.drop_last(), byte);
    }
}

/// One more byte adds its length.
proof fn lemma_weighted_step(data: Seq<u8>, lengths: Seq<nat>, upto: nat)
    requires
        data.len() > 0,
        upto <= 256,
    ensures
        weighted(data, lengths, upto) == weighted(data.drop_last(), lengths, upto) + if data.last()
            < upto {
            lengths[data.last() as int]
        } else {
            0
        },
    decreases upto,
{
    if upto > 0 {
        lemma_weighted_step(data, lengths, (upto - 1) as nat);
        let l = lengths[upto - 1];
        let c = byte_count(data.drop_last(), upto - 1);
        assert((c + 1) * l == c * l + l) by (nonlinear_arith);
    }
}

/// The bits of a stream are its values' counts times their lengths.
proof fn lemma_weighted(data: Seq<u8>, lengths: Seq<nat>)
    ensures
        weighted(data, lengths, 256) == spelled(data, lengths),
    decreases data.len(),
{
    if data.len() > 0 {
        lemma_weighted(data.drop_last(), lengths);
        lemma_weighted_step(data, lengths, 256);
    } else {
        lemma_weighted_nothing(data, lengths, 256);
    }
}

proof fn lemma_weighted_nothing(data: Seq<u8>, lengths: Seq<nat>, upto: nat)
    requires
        data.len() == 0,
    ensures
        weighted(data, lengths, upto) == 0,
    decreases upto,
{
    if upto > 0 {
        lemma_weighted_nothing(data, lengths, (upto - 1) as nat);
        assert(0 * lengths[upto - 1] == 0) by (nonlinear_arith);
    }
}

/// The bound of the values below `upto` against the bits codes of those lengths spell.
proof fn lemma_sum_against_code(data: Seq<u8>, lengths: Seq<nat>, upto: nat)
    requires
        data.len() <= u32::MAX,
        lengths.len() == 256,
        upto <= 256,
    ensures
        wide_enough(data, lengths) ==> shannon_sum(data, upto) <= 256 * weighted(
            data,
            lengths,
            upto,
        ),
        no_wider(data, lengths) ==> shannon_sum(data, upto) >= 256 * weighted(data, lengths, upto),
    decreases upto,
{
    if upto > 0 {
        let byte = upto - 1;
        let n = data.len();
        let f = byte_count(data, byte);
        let l = lengths[byte];
        lemma_sum_against_code(data, lengths, (upto - 1) as nat);
        lemma_count(data, byte as u8);
        lemma_count_bound(data, byte);
        if f > 0 {
            let spent = log2_scaled(n) - log2_scaled(f);
            assert(data.to_multiset().count(byte as u8) > 0);
            lemma_shifted(f, l);
            if wide_enough(data, lengths) {
                law_log2_is_monotone(n, f * pow2(l));
                assert(spent <= 256 * l);
                assert(f * spent <= 256 * (f * l)) by (nonlinear_arith)
                    requires
                        spent <= 256 * l,
                        f > 0,
                ;
                assert(0 <= f * l) by (nonlinear_arith);
                assert(shannon_term(data, byte) <= 256 * (f * l));
            }
            if no_wider(data, lengths) {
                law_log2_is_monotone(f * pow2(l), n);
                assert(spent >= 256 * l);
                assert(f * spent >= 256 * (f * l)) by (nonlinear_arith)
                    requires
                        spent >= 256 * l,
                        f > 0,
                ;
                if spent <= 0 {
                    assert(f * spent == 0) by (nonlinear_arith)
                        requires
                            spent == 0,
                    ;
                }
                assert(shannon_term(data, byte) >= 256 * (f * l));
            }
        } else {
            assert(0 * l == 0) by (nonlinear_arith);
            assert(shannon_term(data, byte) == 0) by {
                let spent = log2_scaled(n) - log2_scaled(0);
                assert(0 * spent == 0) by (nonlinear_arith);
            }
        }
    }
}

/// The bound of a stream is far inside 64 bits.
proof fn lemma_sum_bound(data: Seq<u8>, upto: nat)
    requires
        data.len() <= u32::MAX,
    ensures
        shannon_sum(data, upto) <= upto * 0x4000_0000_0000,
    decreases upto,
{
    if upto > 0 {
        let f = byte_count(data, upto - 1);
        let n = data.len();
        lemma_sum_bound(data, (upto - 1) as nat);
        lemma_count_bound(data, upto - 1);
        let spent = log2_scaled(n) - log2_scaled(f);
        if n > 0 {
            law_log2_stays_in_its_octave(n);
            lemma_bit_width(n);
            lemma2_to64();
            if bit_width(n) > 33 {
                lemma_pow2_strictly_increases(32, (bit_width(n) - 1) as nat);
            }
        }
        assert(spent <= 0x4000);
        assert(f * spent <= 0x4000_0000_0000) by (nonlinear_arith)
            requires
                0 <= f <= 0xffff_ffff,
                spent <= 0x4000,
        ;
    }
}

/// What each byte value spends at its share of a stream, in 256ths of a bit: the logarithm of the
/// stream's length less the one of the value's occurrences.
pub open spec fn shares(data: Seq<u8>) -> Seq<nat> {
    Seq::new(
        256,
        |b: int|
            (log2_scaled(data.len()) - log2_scaled(data.to_multiset().count(b as u8))) as nat,
    )
}

/// The bound of the values below `upto` is what they spend at their shares.
proof fn lemma_sum_of_shares(data: Seq<u8>, upto: nat)
    requires
        data.len() <= u32::MAX,
        upto <= 256,
    ensures
        shannon_sum(data, upto) == weighted(data, shares(data), upto),
    decreases upto,
{
    if upto > 0 {
        let byte = upto - 1;
        let f = byte_count(data, byte);
        lemma_sum_of_shares(data, byte as nat);
        lemma_count(data, byte as u8);
        lemma_count_bound(data, byte);
        law_log2_is_monotone(f, data.len());
        let spent = log2_scaled(data.len()) - log2_scaled(f);
        assert(shares(data)[byte] == spent);
        if spent == 0 {
            assert(f * spent == 0) by (nonlinear_arith)
                requires
                    spent == 0,
            ;
        }
    }
}

/// The early-RAW rule, literal by literal: a block whose matches cover at most 128 bytes is
/// claimed where it has no more than 512 bytes, and where its literals, each spending the bits of
/// its value's share, spend in all at least eight bits, 2,048 of their 256ths, for each byte of the
/// block less 512.
pub proof fn law_early_raw_adds_up_what_each_literal_spends(
    matched: nat,
    literals: Seq<u8>,
    len: nat,
)
    requires
        literals.len() <= u32::MAX,
    ensures
        aborts(matched, literals, len) <==> matched <= 128 && (len <= 512 || spelled(
            literals,
            shares(literals),
        ) >= 2_048 * (len - 512)),
{
    lemma_sum_of_shares(literals, 256);
    lemma_weighted(literals, shares(literals));
    lemma_sum_bound(literals, 256);
}

/// The early-RAW rule claims only what no code shortens. Take any code lengths in whole bits that
/// are long enough for the literals. Where the literals spell fewer than eight bits for each byte
/// of the block less 512 under them, the block is never claimed. Take any that are no longer than
/// the literals ask for. Where the literals spell that many bits or more, a block whose matches
/// cover at most 128 bytes is claimed. A block of more matched bytes never is, and one of at most
/// 512 bytes with no more always is.
pub proof fn law_early_raw_claims_only_what_no_code_shortens(
    matched: nat,
    literals: Seq<u8>,
    len: nat,
    lengths: Seq<nat>,
)
    requires
        literals.len() <= u32::MAX,
        lengths.len() == 256,
    ensures
        wide_enough(literals, lengths) && spelled(literals, lengths) < 8 * (len - 512) ==> !aborts(
            matched,
            literals,
            len,
        ),
        no_wider(literals, lengths) && spelled(literals, lengths) >= 8 * (len - 512) && matched
            <= 128 ==> aborts(matched, literals, len),
        matched > 128 ==> !aborts(matched, literals, len),
        matched <= 128 && len <= 512 ==> aborts(matched, literals, len),
{
    lemma_sum_against_code(literals, lengths, 256);
    lemma_weighted(literals, lengths);
    lemma_sum_bound(literals, 256);
}

/// Literals drawn evenly are stored as they are only where they fill their bytes: where every
/// value that occurs makes up at least one in two to the `bits` of the literals, and `bits` for
/// each literal are fewer than eight for each byte of the block less 512, the block is assembled.
pub proof fn law_even_literals_of_few_values_are_assembled(
    matched: nat,
    literals: Seq<u8>,
    len: nat,
    bits: nat,
)
    requires
        literals.len() <= u32::MAX,
        forall|b: u8| #[trigger]
            literals.to_multiset().count(b) > 0 ==> literals.len() <= literals.to_multiset().count(b)
                * pow2(bits),
        bits * literals.len() < 8 * (len - 512),
    ensures
        !aborts(matched, literals, len),
{
    let lengths = Seq::new(256, |b: int| bits);
    lemma_spelled_evenly(literals, lengths, bits);
    law_early_raw_claims_only_what_no_code_shortens(matched, literals, len, lengths);
}

proof fn lemma_spelled_evenly(data: Seq<u8>, lengths: Seq<nat>, bits: nat)
    requires
        lengths == Seq::new(256, |b: int| bits),
    ensures
        spelled(data, lengths) == bits * data.len(),
    decreases data.len(),
{
    if data.len() > 0 {
        lemma_spelled_evenly(data.drop_last(), lengths, bits);
        let n = (data.len() - 1) as nat;
        assert(bits * (n + 1) == bits * n + bits) by (nonlinear_arith);
    } else {
        assert(bits * 0 == 0) by (nonlinear_arith);
    }
}

/// The bytes a list of steps decodes to are the ones its runs place and the ones its matches copy.
proof fn lemma_placed_or_copied(steps: Seq<Step>)
    ensures
        decoded_total(steps) == run_total(steps) + matched_total(steps),
    decreases steps.len(),
{
    if steps.len() > 0 {
        lemma_placed_or_copied(steps.drop_last());
    }
}

/// Which blocks the early-RAW rule stores as they are, from what is emitted. A block that is not
/// one byte repeated, and whose assembly stays below its content, is emitted COMPRESSED with that
/// assembly wherever more than 128 of its bytes were matched, and wherever some code of whole bits
/// that fits its literals spells them in fewer bits than the block less 512 bytes holds. With no
/// more than 128 bytes matched it is emitted RAW, whatever its assembly, where it has no more than
/// 512 bytes, and where a code no wider than its literals ask for spells them in as many bits as
/// the block less 512 bytes holds.
pub proof fn law_early_raw_leaves_what_a_code_shortens(
    state: EmitterState,
    input: Seq<u8>,
    first: bool,
    lengths: Seq<nat>,
)
    requires
        state.valid(),
        0 < input.len() <= 65_536,
        lengths.len() == 256,
    ensures
        ({
            let emission = state.emission(input, first);
            let plan = state.parser.plan(input);
            let candidate = assembled(
                state.tables,
                plan,
                Terms { first_in_region: first, repeat: None, ceiling: input.len() as usize },
                state.limit,
            );
            let few_matched = input.len() - plan.literals.len() <= 128;
            let bits = spelled(plan.literals, lengths);
            &&& !all_equal(input) && (!few_matched || wide_enough(plan.literals, lengths) && bits < 8
                * (input.len() - 512)) ==> {
                &&& candidate matches Ok(Some((payload, _))) ==> emission.kind
                    == BlockType::Compressed && emission.payload == payload
                &&& emission.limited <==> candidate is Err
            }
            &&& !all_equal(input) && few_matched && (input.len() <= 512 || no_wider(
                plan.literals,
                lengths,
            ) && bits >= 8 * (input.len() - 512)) ==> emission.kind == BlockType::Raw
                && !emission.limited
        }),
{
    reveal(EmitterState::assembly);
    let plan = state.parser.plan(input);
    let history = state.parser.history();
    assert(history.skip(0) =~= history);
    law_parse_decodes_to_its_input(state.parser, input, history);
    law_steps_fit_their_capacity(state.parser, input);
    lemma_placed_or_copied(plan.steps);
    law_early_raw_claims_only_what_no_code_shortens(
        matched_total(plan.steps),
        plan.literals,
        input.len(),
        lengths,
    );
}

} // verus!
