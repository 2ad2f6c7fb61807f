//! Owns rANS: the normalized table, the description that transmits it, the validation a
//! decoder applies before it allocates, and the packed slot table it decodes through.
//!
//! This module does not own which symbol class takes how many states, and it does not own the
//! block that carries the description.
//!
//! One implementation with the state count as a parameter, at one, two and four interleaved
//! states. One state is a serial dependency chain: the next symbol's decode cannot start until
//! this one's state update lands. Interleaving breaks the chain into independent ones and costs
//! one flushed state per state per block.
//!
//! ```text
//! state interval    [2^23, 2^31), renormalized a byte at a time
//! table total       2^log, a declared power of two, so the state update is a shift
//! encode direction  backwards, and the byte buffer is reversed once at the end
//! decode direction  forwards
//! flush             four bytes per state
//! ```
//!
//! The encoder runs backwards because rANS is a stack: the last symbol pushed is the first one
//! popped. Reversing once at the end is what lets the decoder read forwards, and the decoder is
//! the side that is paid for.
//!
//! The table log is a declared rule and not a per-stream search. An encoder that searched for
//! the log that minimized its own bits would be tuning one arm of a comparison that was made
//! with the rule below fixed.

pub mod fields;
pub mod nearest;
pub mod scale;
pub mod spent;
pub mod states;
pub mod steps;

use vstd::prelude::*;
use vstd::arithmetic::div_mod::{lemma_fundamental_div_mod, lemma_mod_bound};
use vstd::arithmetic::power2::{
    lemma2_to64, lemma_pow2_pos, lemma_pow2_strictly_increases, lemma_pow2_unfold, pow2,
};
use self::fields::{fields, lemma_fields_read_back, parsed, read_fields, write_fields};
use self::scale::{
    largest, lemma_count_in_sum, lemma_entry_in_total, lemma_normalized, lemma_scaled, lemma_spare,
    lemma_sum_prefix, lemma_support_bound, lemma_total_update, normalized, same_support, scaled_all,
    settled, sum_of, support, taken,
};
use self::states::{
    admitted_states, coded, decoded, decoded_prefix, flush, flushed, law_decode_gives_back_the_symbols,
    lemma_coded_states, lemma_decoded_none, lemma_decoded_prefix, lemma_fold, lemma_one_holder, lemma_shed_fits,
    lemma_slots_inside, lemma_start_step, payload, refill, shed, start, state_at, total, TableShape,
};
use super::bits::{
    bits_of, lemma_bits_of_len, lemma_bits_of_value, lemma_value_of_bits, short_field, value_of,
    window, BitReader, BitWriter,
};
use super::{ceil_log, ceil_log2, lemma_ceil_log, shift_left, MAX_ALPHABET_SIZE};
use crate::format::{Corruption, Error};

verus! {

/// The narrowest table the format admits. Below this a skewed alphabet's normalization stops
/// being a coding question and becomes a quantization artefact.
pub const TABLE_LOG_MIN: u32 = 5;

/// The widest. It is the precision the published implementations settle near, and where a slot
/// table stops fitting comfortably beside the stream it decodes.
pub const TABLE_LOG_MAX: u32 = 12;

/// The widest table an encoder builds.
///
/// A narrower preference than the format's: three tables of it hold a block's peak to twelve
/// kilobytes, and the precision it gives up costs a fraction of a percent.
pub const FAST_TABLE_LOG_MAX: u32 = 10;

/// The lower end of the state interval.
///
/// A multiple of every admissible table total, which is the condition that makes the
/// renormalization exact.
pub const RANS_L: u64 = 8_388_608;

/// The most interleaved states any symbol class takes.
pub const MAX_STATES: usize = 4;

/// Bits the table log occupies in a description.
///
/// Five, so a log outside the declared range is transmissible and is refused by the rule that
/// owns the range rather than by a field that could not carry it.
pub const LOG_FIELD_BITS: u32 = 5;

/// Bytes the decode table occupies at table log `log`.
///
/// One 32-bit entry per state of the table, holding the symbol, the frequency and the
/// cumulative start together, so the state update needs no array beside the slot table.
#[must_use]
pub fn table_bytes_for(log: u32) -> (bytes: u64)
    ensures
        bytes as nat == (4 * pow2(log as nat)) % pow2(64),
        log <= 61 ==> bytes == 4 * pow2(log as nat),
{
    proof {
        lemma_pow2_unfold(62);
        lemma_pow2_unfold(63);
        lemma_pow2_unfold(64);
        lemma_pow2_pos(61);
        if log < 61 {
            lemma_pow2_strictly_increases(log as nat, 61);
        }
    }
    shift_left(4, log)
}

/// Whether a state count is one this coder ships at.
fn admits_states(states: usize) -> (admitted: bool)
    ensures
        admitted == admitted_states(states as nat),
        admitted ==> states <= MAX_STATES,
{
    states == 1 || states == 2 || states == 4
}

/// The table log the rule gives a stream of `symbols` symbols over `distinct` of them.
pub open spec fn log_rule(symbols: nat, distinct: nat) -> nat {
    let needed = needed_log(distinct);
    let chosen = ceil_log(symbols);
    if chosen < needed {
        needed
    } else if chosen > TABLE_LOG_MAX {
        TABLE_LOG_MAX as nat
    } else {
        chosen
    }
}

/// The narrowest table log that holds a support.
pub open spec fn needed_log(distinct: nat) -> nat {
    if TABLE_LOG_MIN > ceil_log(distinct) {
        TABLE_LOG_MIN as nat
    } else {
        ceil_log(distinct)
    }
}

/// The table log an encoder builds at.
pub open spec fn built_log(symbols: nat, distinct: nat) -> nat {
    if log_rule(symbols, distinct) > FAST_TABLE_LOG_MAX {
        FAST_TABLE_LOG_MAX as nat
    } else {
        log_rule(symbols, distinct)
    }
}

/// The table the counts of a stream normalize to.
pub open spec fn built(counts: Seq<u64>) -> TableShape {
    let log = built_log(sum_of(counts), support(counts));
    TableShape { log: log as u32, freq: normalized(counts, pow2(log)) }
}

/// Whether counts normalize: they span a permitted alphabet, a symbol occurs, and 64 bits carry
/// the total and every count scaled.
pub open spec fn normalizable(counts: Seq<u64>, alphabet_size: u32) -> bool {
    &&& counts.len() == alphabet_size
    &&& 1 <= alphabet_size <= MAX_ALPHABET_SIZE
    &&& 0 < sum_of(counts) <= u64::MAX
    &&& forall|s: int|
        0 <= s < counts.len() ==> #[trigger] counts[s] * pow2(
            built_log(sum_of(counts), support(counts)),
        ) + sum_of(counts) / 2 <= u64::MAX
}

/// The description of a table.
pub open spec fn description(shape: TableShape) -> Seq<bool> {
    bits_of(shape.log as nat, LOG_FIELD_BITS as nat) + fields(
        shape.freq,
        0,
        pow2(shape.log as nat),
    )
}

/// Counts scaled to a power-of-two total.
///
/// The frequencies are dense over the declared alphabet. A zero means the symbol does not
/// occur; every symbol that occurs carries at least one slot, because a symbol with no slot
/// cannot be coded at all.
#[derive(Debug, PartialEq, Eq)]
pub struct Table {
    log: u32,
    freq: Vec<u32>,
    alphabet_size: u32,
}

impl View for Table {
    type V = TableShape;

    closed spec fn view(&self) -> TableShape {
        TableShape { log: self.log, freq: self.freq@ }
    }
}

impl Clone for Table {
    fn clone(&self) -> (copy: Self)
        ensures
            copy@ == self@,
            copy.wf() == self.wf(),
    {
        let freq = self.freq.clone();
        proof {
            assert(freq@ =~= self.freq@);
        }
        Table { log: self.log, freq, alphabet_size: self.alphabet_size }
    }
}

impl Table {
    /// The frequencies span the alphabet and fill a permitted table.
    pub closed spec fn wf(&self) -> bool {
        self@.valid() && self.freq@.len() == self.alphabet_size
    }

    /// What a well-formed table is.
    pub proof fn lemma_wf(&self)
        requires
            self.wf(),
        ensures
            self@.valid(),
    {
    }

    /// The declared table log for a stream of `symbols` symbols over `distinct` of them.
    ///
    /// Wide enough to hold the support, no wider than the stream can justify, and clamped to
    /// the declared range. Refuses a support that needs a wider table than the format admits.
    pub fn log_for(symbols: u64, distinct: u32) -> (log: Result<u32, Error>)
        ensures
            needed_log(distinct as nat) <= TABLE_LOG_MAX ==> log == Ok::<u32, Error>(
                log_rule(symbols as nat, distinct as nat) as u32,
            ),
            needed_log(distinct as nat) > TABLE_LOG_MAX ==> log == Err::<u32, Error>(
                Error::InvalidParameter,
            ),
    {
        let support: u32 = ceil_log2(distinct as u64);
        let needed: u32 = if TABLE_LOG_MIN > support { TABLE_LOG_MIN } else { support };
        if needed > TABLE_LOG_MAX {
            return Err(Error::InvalidParameter);
        }
        let chosen: u32 = ceil_log2(symbols);
        if chosen < needed {
            Ok(needed)
        } else if chosen > TABLE_LOG_MAX {
            Ok(TABLE_LOG_MAX)
        } else {
            Ok(chosen)
        }
    }

    /// Scales the counts to a total of `2^log`, keeping every symbol that occurs.
    ///
    /// The log is the declared rule's, held to what an encoder prefers. Refuses counts that
    /// span no permitted alphabet, counts where no symbol occurs, and counts 64 bits do not
    /// carry scaled.
    pub fn normalize(counts: &[u64], alphabet_size: u32) -> (table: Result<Self, Error>)
        ensures
            normalizable(counts@, alphabet_size) ==> (table matches Ok(table) && table.wf()
                && table@ == built(counts@)),
            !normalizable(counts@, alphabet_size) ==> table == Err::<Self, Error>(
                Error::InvalidParameter,
            ),
    {
        if counts.len() != alphabet_size as usize || alphabet_size == 0 || alphabet_size
            > MAX_ALPHABET_SIZE {
            return Err(Error::InvalidParameter);
        }
        let span: usize = counts.len();
        let mut sum: u64 = 0;
        let mut distinct: u32 = 0;
        let mut at: usize = 0;
        proof {
            assert(counts@.take(0) =~= Seq::empty());
        }
        while at < span
            invariant
                at <= span == counts@.len(),
                span <= MAX_ALPHABET_SIZE,
                sum == sum_of(counts@.take(at as int)),
                distinct == support(counts@.take(at as int)),
                distinct <= at,
            decreases span - at,
        {
            let count: u64 = counts[at];
            proof {
                assert(counts@.take(at + 1).drop_last() =~= counts@.take(at as int));
                lemma_sum_prefix(counts@, at as int + 1);
            }
            if count > 0 {
                match sum.checked_add(count) {
                    Some(more) => {
                        sum = more;
                    },
                    None => {
                        return Err(Error::InvalidParameter);
                    },
                }
                distinct = distinct + 1;
            }
            at = at + 1;
        }
        proof {
            assert(counts@.take(span as int) =~= counts@);
        }
        if sum == 0 {
            return Err(Error::InvalidParameter);
        }
        proof {
            lemma_ceil_log(distinct as nat);
            lemma2_to64();
            if ceil_log(distinct as nat) > 9 {
                lemma_pow2_strictly_increases(8, (ceil_log(distinct as nat) - 1) as nat);
            }
        }
        let rule: u32 = match Self::log_for(sum, distinct) {
            Ok(rule) => rule,
            Err(error) => {
                return Err(error);
            },
        };
        let log: u32 = if rule > FAST_TABLE_LOG_MAX { FAST_TABLE_LOG_MAX } else { rule };
        proof {
            // The log is at least what the support needs.
            let c = ceil_log(distinct as nat);
            if c < log as nat {
                lemma_pow2_strictly_increases(c, log as nat);
            }
            assert(distinct <= pow2(log as nat));
            if log < 10 {
                lemma_pow2_strictly_increases(log as nat, 10);
            }
            lemma_pow2_pos(log as nat);
            assert(log == built_log(sum as nat, distinct as nat));
        }
        let target: u64 = shift_left(1, log);
        let half: u64 = sum / 2;
        let mut freq: Vec<u32> = Vec::new();
        let mut reached: u64 = 0;
        let ghost goal = scaled_all(counts@, sum as nat, target as nat);
        let mut symbol: usize = 0;
        proof {
            assert(goal.take(0) =~= Seq::empty());
        }
        while symbol < span
            invariant
                symbol <= span == counts@.len(),
                span <= MAX_ALPHABET_SIZE,
                counts@.len() == alphabet_size,
                1 <= alphabet_size <= MAX_ALPHABET_SIZE,
                0 < sum == sum_of(counts@),
                distinct == support(counts@),
                log == built_log(sum as nat, distinct as nat),
                target == pow2(log as nat),
                0 < target <= 1024,
                half == sum / 2,
                goal == scaled_all(counts@, sum as nat, target as nat),
                freq@ == goal.take(symbol as int),
                reached == total(freq@),
                reached <= 1024 * symbol,
                forall|s: int|
                    0 <= s < symbol ==> #[trigger] counts@[s] * pow2(
                        built_log(sum_of(counts@), support(counts@)),
                    ) + sum_of(counts@) / 2 <= u64::MAX,
            decreases span - symbol,
        {
            let count: u64 = counts[symbol];
            let mut value: u32 = 0;
            if count > 0 {
                proof {
                    lemma_count_in_sum(counts@, symbol as int);
                    lemma_scaled(count as nat, sum as nat, target as nat);
                }
                let product: u64 = match count.checked_mul(target) {
                    Some(product) => product,
                    None => {
                        proof {
                            assert(counts@[symbol as int] * pow2(
                                built_log(sum_of(counts@), support(counts@)),
                            ) > u64::MAX);
                        }
                        return Err(Error::InvalidParameter);
                    },
                };
                let raised: u64 = match product.checked_add(half) {
                    Some(raised) => raised,
                    None => {
                        proof {
                            assert(counts@[symbol as int] * pow2(
                                built_log(sum_of(counts@), support(counts@)),
                            ) + sum_of(counts@) / 2 > u64::MAX);
                        }
                        return Err(Error::InvalidParameter);
                    },
                };
                let nearest: u64 = raised / sum;
                value = if nearest == 0 { 1 } else { nearest as u32 };
            } else {
                proof {
                    assert(counts@[symbol as int] * pow2(
                        built_log(sum_of(counts@), support(counts@)),
                    ) == 0) by (nonlinear_arith)
                        requires
                            counts@[symbol as int] == 0,
                    ;
                }
            }
            let ghost before = freq@;
            freq.push(value);
            proof {
                assert(value == goal[symbol as int]);
                assert(freq@ =~= goal.take(symbol + 1));
                assert(freq@.drop_last() =~= before);
            }
            reached = reached + value as u64;
            symbol = symbol + 1;
        }
        proof {
            assert(goal.take(span as int) =~= goal);
            lemma_normalized(counts@, target as nat);
            assert(same_support(freq@, counts@)) by {
                assert forall|s: int| 0 <= s < counts@.len() implies (#[trigger] freq@[s] > 0
                    <==> counts@[s] > 0) by {
                    if counts@[s] > 0 {
                        lemma_count_in_sum(counts@, s);
                        lemma_scaled(counts@[s] as nat, sum as nat, target as nat);
                    }
                }
            }
        }
        while reached > target
            invariant
                1 <= freq@.len() == counts@.len(),
                support(counts@) <= target,
                same_support(freq@, counts@),
                reached == total(freq@),
                normalized(counts@, target as nat) == settled(freq@, target as nat),
            decreases reached,
        {
            let excess: u64 = reached - target;
            let (best, value) = largest(&freq);
            proof {
                lemma_spare(freq@, counts@, target as nat);
            }
            let spare: u64 = value as u64 - 1;
            let take: u64 = if excess <= spare { excess } else { spare };
            let ghost before = freq@;
            proof {
                lemma_total_update(before, best as int, (value - take) as u32);
                assert(take == taken(before, target as nat));
            }
            freq.set(best, value - take as u32);
            reached = reached - take;
            proof {
                assert forall|s: int| 0 <= s < counts@.len() implies (#[trigger] freq@[s] > 0
                    <==> counts@[s] > 0) by {
                    assert(before[s] > 0 <==> counts@[s] > 0);
                }
            }
        }
        if reached < target {
            let (best, value) = largest(&freq);
            proof {
                lemma_entry_in_total(freq@, best as int);
            }
            let deficit: u32 = (target - reached) as u32;
            freq.set(best, value + deficit);
        }
        Ok(Table { log, freq, alphabet_size })
    }

    /// The table log this table declares.
    #[must_use]
    pub fn log(&self) -> (log: u32)
        ensures
            log == self@.log,
    {
        self.log
    }

    /// The alphabet this table spans.
    #[must_use]
    pub fn alphabet_size(&self) -> (size: u32)
        requires
            self.wf(),
        ensures
            size == self@.freq.len(),
    {
        self.alphabet_size
    }

    /// The bytes a decoder allocates for this table.
    #[must_use]
    pub fn table_bytes(&self) -> (bytes: u64)
        requires
            self.wf(),
        ensures
            bytes as nat == self@.table_bytes(),
    {
        table_bytes_for(self.log)
    }

    /// Whether this table gives `symbol` a slot.
    ///
    /// A symbol with no slot cannot be coded under this table. An encoder deciding whether a
    /// stream can be written under a table built for another stream asks this before it
    /// writes.
    #[must_use]
    pub fn carries(&self, symbol: u16) -> (carried: bool)
        ensures
            carried == self@.carries(symbol),
    {
        (symbol as usize) < self.freq.len() && self.freq[symbol as usize] > 0
    }

    /// Writes the description a decoder rebuilds this table from.
    ///
    /// Each frequency is written in the width the unassigned total still admits, so the fields
    /// narrow as the total is consumed and the description ends the moment nothing is left. A
    /// zero is followed by a count of the zeros after it, which is what keeps a sparse alphabet
    /// from paying a field for every symbol it never uses.
    pub fn describe(&self, out: &mut BitWriter)
        requires
            self.wf(),
            old(out).wf(),
        ensures
            final(out).wf(),
            final(out)@ == old(out)@ + description(self@),
    {
        let ghost before = out@;
        proof {
            lemma2_to64();
            if self.log < 12 {
                lemma_pow2_strictly_increases(self.log as nat, 12);
            }
        }
        out.push(self.log as u64, LOG_FIELD_BITS);
        write_fields(&self.freq, shift_left(1, self.log), out);
        proof {
            assert(out@ =~= before + description(self@));
        }
    }

    /// The encoder table: the frequency and the cumulative start, per symbol.
    pub fn encoder(&self) -> (encoder: Result<Encoder, Error>)
        requires
            self.wf(),
        ensures
            encoder matches Ok(encoder) && encoder.wf() && encoder@ == self@,
    {
        let mut cumulative: Vec<u32> = Vec::new();
        let mut freq: Vec<u32> = Vec::new();
        let mut running: u32 = 0;
        let mut at: usize = 0;
        proof {
            assert(self.freq@.take(0) =~= Seq::empty());
        }
        while at < self.freq.len()
            invariant
                self.wf(),
                at <= self.freq@.len(),
                freq@ == self.freq@.take(at as int),
                cumulative@.len() == at,
                running == start(self.freq@, at as int),
                forall|s: int| 0 <= s < at ==> #[trigger] cumulative@[s] == start(self.freq@, s),
            decreases self.freq@.len() - at,
        {
            proof {
                lemma_start_step(self.freq@, at as int);
                lemma_slots_inside(self@, at as int);
            }
            cumulative.push(running);
            freq.push(self.freq[at]);
            running = running + self.freq[at];
            at = at + 1;
            proof {
                assert(freq@ =~= self.freq@.take(at as int));
            }
        }
        proof {
            assert(freq@ =~= self.freq@);
        }
        Ok(Encoder { log: self.log, freq, cumulative })
    }
}

/// Codes symbols under a normalized table.
#[derive(Debug)]
pub struct Encoder {
    log: u32,
    freq: Vec<u32>,
    cumulative: Vec<u32>,
}

impl View for Encoder {
    type V = TableShape;

    closed spec fn view(&self) -> TableShape {
        TableShape { log: self.log, freq: self.freq@ }
    }
}

impl Encoder {
    /// The table is one, and the cumulative starts are its.
    pub closed spec fn wf(&self) -> bool {
        &&& self@.valid()
        &&& self.cumulative@.len() == self.freq@.len()
        &&& forall|s: int|
            0 <= s < self.freq@.len() ==> #[trigger] self.cumulative@[s] == start(self.freq@, s)
    }

    /// Codes `symbols` at `states` interleaved states, and returns the bytes a decoder reads
    /// forwards.
    ///
    /// Refuses a state count this coder does not ship at, and a symbol the table gives no slot.
    pub fn write(&self, symbols: &[u16], states: usize) -> (written: Result<Vec<u8>, Error>)
        requires
            self.wf(),
        ensures
            admitted_states(states as nat) && self@.carries_all(symbols@) ==> (
            written matches Ok(bytes) && bytes@ == payload(self@, symbols@, states as nat)),
            !(admitted_states(states as nat) && self@.carries_all(symbols@)) ==> written == Err::<
                Vec<u8>,
                Error,
            >(Error::InvalidParameter),
    {
        if !admits_states(states) {
            return Err(Error::InvalidParameter);
        }
        let ghost shape = self@;
        let ghost n = states as nat;
        let mut check: usize = 0;
        while check < symbols.len()
            invariant
                check <= symbols@.len(),
                shape == self@,
                forall|i: int| 0 <= i < check ==> shape.carries(#[trigger] symbols@[i]),
            decreases symbols@.len() - check,
        {
            let symbol: u16 = symbols[check];
            if symbol as usize >= self.freq.len() || self.freq[symbol as usize] == 0 {
                proof {
                    assert(!shape.carries(symbols@[check as int]));
                }
                return Err(Error::InvalidParameter);
            }
            check = check + 1;
        }
        let mut state: Vec<u64> = Vec::new();
        let mut filled: usize = 0;
        while filled < states
            invariant
                filled <= states,
                state@.len() == filled,
                forall|i: int| 0 <= i < filled ==> #[trigger] state@[i] == RANS_L,
            decreases states - filled,
        {
            state.push(RANS_L);
            filled = filled + 1;
        }
        let mut out: Vec<u8> = Vec::new();
        let mut at: usize = symbols.len();
        proof {
            assert(as_nats(state@) =~= coded(shape, symbols@, n, at as nat).0);
            assert(out@.reverse() =~= coded(shape, symbols@, n, at as nat).1);
        }
        while at > 0
            invariant
                self.wf(),
                shape == self@,
                shape.carries_all(symbols@),
                n == states as nat,
                admitted_states(n),
                at <= symbols@.len(),
                state@.len() == states,
                as_nats(state@) == coded(shape, symbols@, n, at as nat).0,
                out@.reverse() == coded(shape, symbols@, n, at as nat).1,
            decreases at,
        {
            at = at - 1;
            let symbol: u16 = symbols[at];
            let which: usize = at % states;
            let ghost held = state@[which as int] as nat;
            let ghost before_states = state@;
            let ghost before = out@;
            let ghost limit_nat = shape.limit(symbol);
            proof {
                assert(shape.carries(symbols@[at as int]));
                lemma_coded_states(shape, symbols@, n, (at + 1) as nat);
                assert(as_nats(state@)[which as int] == held);
                assert(RANS_L <= held < 0x8000_0000);
                lemma_shed_fits(shape, held, symbol);
                lemma_fold(shape, shed(held, limit_nat).0, symbol);
                lemma_slots_inside(shape, symbol as int);
                lemma2_to64();
                lemma_pow2_strictly_increases((31 - shape.log) as nat, 31);
            }
            let frequency: u64 = self.freq[symbol as usize] as u64;
            let begin: u64 = self.cumulative[symbol as usize] as u64;
            proof {
                assert(frequency * pow2((31 - shape.log) as nat) <= 4096 * 0x8000_0000)
                    by (nonlinear_arith)
                    requires
                        frequency <= 4096,
                        pow2((31 - shape.log) as nat) <= 0x8000_0000,
                ;
            }
            let limit: u64 = shift_left(frequency, 31 - self.log);
            let mut value: u64 = state[which];
            while value >= limit
                invariant
                    limit > 0,
                    limit as nat == limit_nat,
                    value <= held < 0x8000_0000,
                    shed(held, limit_nat).0 == shed(value as nat, limit_nat).0,
                    shed(held, limit_nat).1 == shed(value as nat, limit_nat).1 + out@.skip(
                        before.len() as int,
                    ).reverse(),
                    before.len() <= out@.len(),
                    out@.take(before.len() as int) == before,
                decreases value,
            {
                let ghost was = out@;
                let byte: u8 = (value % 256) as u8;
                out.push(byte);
                proof {
                    let k = before.len() as int;
                    assert(out@.skip(k) =~= was.skip(k).push(byte));
                    assert(out@.take(k) =~= was.take(k));
                    let b = shed(value as nat / 256, limit_nat).1;
                    assert(b.push(byte) + was.skip(k).reverse() =~= b + out@.skip(k).reverse());
                }
                value = value / 256;
            }
            proof {
                let k = before.len() as int;
                let low = shed(held, limit_nat).0;
                assert(value as nat == low);
                assert(shed(held, limit_nat).1 =~= out@.skip(k).reverse());
                assert(out@ =~= before + out@.skip(k));
                assert(out@.reverse() =~= out@.skip(k).reverse() + before.reverse());
            }
            let quotient: u64 = value / frequency;
            let residue: u64 = value % frequency;
            proof {
                let m = pow2(shape.log as nat);
                assert(shape.fold(value as nat, symbol) == quotient as nat * m + residue as nat
                    + begin as nat);
                assert(quotient * m <= 0x8000_0000);
            }
            let folded: u64 = shift_left(quotient, self.log) + residue + begin;
            state.set(which, folded);
            proof {
                assert(as_nats(state@) =~= as_nats(before_states).update(
                    which as int,
                    folded as nat,
                ));
            }
        }
        let ghost held = coded(shape, symbols@, n, 0).0;
        let ghost bytes = coded(shape, symbols@, n, 0).1;
        proof {
            lemma_coded_states(shape, symbols@, n, 0);
        }
        let mut result: Vec<u8> = Vec::new();
        let mut which: usize = 0;
        while which < states
            invariant
                which <= states == state@.len(),
                held == as_nats(state@),
                forall|i: int| 0 <= i < states ==> #[trigger] held[i] < 0x8000_0000,
                result@ == flush(held, which as nat),
            decreases states - which,
        {
            let value: u64 = state[which];
            proof {
                assert(held[which as int] == value);
            }
            result.push((value / 0x100_0000 % 256) as u8);
            result.push((value / 0x1_0000 % 256) as u8);
            result.push((value / 0x100 % 256) as u8);
            result.push((value % 256) as u8);
            which = which + 1;
            proof {
                assert(result@ =~= flush(held, (which - 1) as nat) + flushed(value as nat));
            }
        }
        let ghost head = result@;
        let mut left: usize = out.len();
        while left > 0
            invariant
                left <= out@.len(),
                result@ == head + out@.skip(left as int).reverse(),
            decreases left,
        {
            let ghost was = out@.skip(left as int);
            left = left - 1;
            result.push(out[left]);
            proof {
                assert(out@.skip(left as int) =~= seq![out@[left as int]] + was);
                assert(result@ =~= head + out@.skip(left as int).reverse());
            }
        }
        proof {
            assert(out@.skip(0) =~= out@);
        }
        Ok(result)
    }
}

/// The states as naturals.
spec fn as_nats(states: Seq<u64>) -> Seq<nat> {
    Seq::new(states.len(), |i: int| states[i] as nat)
}

/// A description a decoder has read and does not yet trust.
#[derive(Debug, PartialEq, Eq)]
pub struct Declared {
    pub alphabet_size: u32,
    pub log: u32,
    pub freq: Vec<u32>,
}

impl View for Declared {
    type V = TableShape;

    open spec fn view(&self) -> TableShape {
        TableShape { log: self.log, freq: self.freq@ }
    }
}

impl Clone for Declared {
    fn clone(&self) -> (copy: Self)
        ensures
            copy@ == self@,
            copy.alphabet_size == self.alphabet_size,
    {
        let freq = self.freq.clone();
        proof {
            assert(freq@ =~= self.freq@);
        }
        Declared { alphabet_size: self.alphabet_size, log: self.log, freq }
    }
}

/// What a parse of a description reads, or why it refuses, and where it leaves the reader.
pub open spec fn parse_description(source: Seq<u8>, declared: nat, at: nat, alphabet_size: nat)
    -> Result<(TableShape, nat), (Error, nat)> {
    if alphabet_size == 0 || alphabet_size > MAX_ALPHABET_SIZE {
        Err((Error::InvalidParameter, at))
    } else if at + LOG_FIELD_BITS > declared {
        Err((short_field(at, LOG_FIELD_BITS as nat), at))
    } else {
        let log = value_of(window(source, at, LOG_FIELD_BITS as nat));
        if log < TABLE_LOG_MIN || log > TABLE_LOG_MAX {
            Err((Error::CorruptData(Corruption::TableLog), at + LOG_FIELD_BITS as nat))
        } else {
            match parsed(
                source,
                declared,
                at + LOG_FIELD_BITS as nat,
                alphabet_size,
                pow2(log),
                Seq::empty(),
            ) {
                Ok((freq, end)) => Ok((TableShape { log: log as u32, freq }, end)),
                Err(error) => Err(error),
            }
        }
    }
}

/// What validation answers for a description.
pub open spec fn validated(shape: TableShape) -> Result<TableShape, Error> {
    if shape.log < TABLE_LOG_MIN || shape.log > TABLE_LOG_MAX {
        Err(Error::CorruptData(Corruption::TableLog))
    } else if total(shape.freq) != pow2(shape.log as nat) {
        Err(Error::CorruptData(Corruption::FrequencySum))
    } else {
        Ok(shape)
    }
}

impl Declared {
    /// What a parse leaves: frequencies that span a permitted alphabet.
    pub open spec fn wf(&self) -> bool {
        1 <= self.alphabet_size <= MAX_ALPHABET_SIZE && self.freq@.len() == self.alphabet_size
    }

    /// Reads a description, refusing the moment it would pass the end of what it was given.
    ///
    /// The width of the first frequency field is decided by the declared total, so a log the
    /// validation would refuse is refused here instead, before any field width depends on it.
    ///
    /// Answers `TruncatedInput` when the description ends inside a field, and `CorruptData`
    /// when the log is out of range, a frequency passes the total still unassigned, or a zero
    /// run passes the end of the alphabet.
    pub fn parse(reader: &mut BitReader, alphabet_size: u32) -> (read: Result<Self, Error>)
        ensures
            final(reader).source() == old(reader).source(),
            final(reader).declared() == old(reader).declared(),
            match parse_description(
                old(reader).source(),
                old(reader).declared(),
                old(reader).position(),
                alphabet_size as nat,
            ) {
                Ok((shape, at)) => read matches Ok(declared) && declared.wf() && declared@ == shape
                    && declared.alphabet_size == alphabet_size && final(reader).position() == at,
                Err((error, at)) => read == Err::<Self, Error>(error) && final(reader).position()
                    == at,
            },
    {
        if alphabet_size == 0 || alphabet_size > MAX_ALPHABET_SIZE {
            return Err(Error::InvalidParameter);
        }
        proof {
            lemma2_to64();
            lemma_bits_of_value(
                window(reader.source(), reader.position(), LOG_FIELD_BITS as nat),
            );
        }
        let log: u32 = match reader.take(LOG_FIELD_BITS) {
            Ok(log) => log as u32,
            Err(error) => {
                return Err(error);
            },
        };
        if log < TABLE_LOG_MIN || log > TABLE_LOG_MAX {
            return Err(Error::CorruptData(Corruption::TableLog));
        }
        proof {
            if log < 12 {
                lemma_pow2_strictly_increases(log as nat, 12);
            }
        }
        match read_fields(reader, alphabet_size as usize, shift_left(1, log)) {
            Ok(freq) => Ok(Declared { alphabet_size, log, freq }),
            Err(error) => Err(error),
        }
    }

    /// Applies every rule a decoder holds a description to before it allocates for it.
    ///
    /// Each rule is a property of the description alone, so an invalid table is refused without
    /// decoding a symbol under it. Frequencies that sum to the declared total name at least one
    /// symbol and no more than the table holds.
    pub fn validate(self) -> (admitted: Result<Admitted, Error>)
        requires
            self.wf(),
        ensures
            match validated(self@) {
                Ok(shape) => admitted matches Ok(admitted) && admitted.wf() && admitted@ == shape,
                Err(error) => admitted == Err::<Admitted, Error>(error),
            },
    {
        if self.log < TABLE_LOG_MIN || self.log > TABLE_LOG_MAX {
            return Err(Error::CorruptData(Corruption::TableLog));
        }
        proof {
            lemma2_to64();
            if self.log < 12 {
                lemma_pow2_strictly_increases(self.log as nat, 12);
            }
            assert(self.freq@.take(0) =~= Seq::empty());
        }
        let target: u64 = shift_left(1, self.log);
        let mut sum: u64 = 0;
        let mut at: usize = 0;
        while at < self.freq.len()
            invariant
                self.wf(),
                at <= self.freq@.len(),
                sum == total(self.freq@.take(at as int)),
                sum <= at * 0x1_0000_0000,
            decreases self.freq@.len() - at,
        {
            proof {
                assert(self.freq@.take(at + 1).drop_last() =~= self.freq@.take(at as int));
            }
            sum = sum + self.freq[at] as u64;
            at = at + 1;
        }
        proof {
            assert(self.freq@.take(at as int) =~= self.freq@);
        }
        if sum != target {
            return Err(Error::CorruptData(Corruption::FrequencySum));
        }
        Ok(
            Admitted {
                table: Table {
                    log: self.log,
                    freq: self.freq,
                    alphabet_size: self.alphabet_size,
                },
            },
        )
    }
}

/// A description validation has admitted, and the requirement it declares.
#[derive(Debug, PartialEq, Eq)]
pub struct Admitted {
    table: Table,
}

impl View for Admitted {
    type V = TableShape;

    closed spec fn view(&self) -> TableShape {
        self.table@
    }
}

impl Admitted {
    /// The table is one.
    pub closed spec fn wf(&self) -> bool {
        self.table.wf()
    }

    /// What a well-formed admission is.
    pub proof fn lemma_wf(&self)
        requires
            self.wf(),
        ensures
            self@.valid(),
    {
    }

    /// The bytes the decode table will occupy, computed from the description alone.
    #[must_use]
    pub fn table_bytes(&self) -> (bytes: u64)
        requires
            self.wf(),
        ensures
            bytes as nat == self@.table_bytes(),
    {
        self.table.table_bytes()
    }

    /// The table this description named.
    #[must_use]
    pub fn table(&self) -> (table: &Table)
        requires
            self.wf(),
        ensures
            table.wf(),
            table@ == self@,
    {
        &self.table
    }

    /// Allocates the decode table.
    ///
    /// This is the first allocation the description sizes, and it is reachable only from an
    /// admitted description.
    pub fn build(&self) -> (table: Result<DecodeTable, Error>)
        requires
            self.wf(),
        ensures
            table matches Ok(table) && table.wf() && table@ == self@,
    {
        let ghost shape = self@;
        let ghost freq = shape.freq;
        let mut slots: Vec<u32> = Vec::new();
        let mut running: u32 = 0;
        let mut symbol: usize = 0;
        proof {
            assert(freq.take(0) =~= Seq::empty());
        }
        while symbol < self.table.freq.len()
            invariant
                self.wf(),
                shape == self@,
                freq == shape.freq,
                symbol <= freq.len(),
                running == start(freq, symbol as int),
                slots@.len() == running,
                forall|e: int| 0 <= e < running ==> slot_names(shape, #[trigger] slots@[e], e),
            decreases freq.len() - symbol,
        {
            let frequency: u32 = self.table.freq[symbol];
            proof {
                lemma_start_step(freq, symbol as int);
                lemma_slots_inside(shape, symbol as int);
            }
            if frequency > 0 {
                let found: u32 = entry(symbol as u32, frequency, running);
                let mut lane: u32 = 0;
                while lane < frequency
                    invariant
                        shape.valid(),
                        freq == shape.freq,
                        symbol < freq.len(),
                        lane <= frequency == freq[symbol as int],
                        running == start(freq, symbol as int),
                        found as int / 0x100_0000 == symbol,
                        (found as int / 0x1000) % 0x1000 + 1 == frequency,
                        found as int % 0x1000 == running,
                        slots@.len() == running + lane,
                        forall|e: int|
                            0 <= e < running + lane ==> slot_names(shape, #[trigger] slots@[e], e),
                    decreases frequency - lane,
                {
                    slots.push(found);
                    lane = lane + 1;
                }
                running = running + frequency;
            }
            symbol = symbol + 1;
        }
        proof {
            assert(freq.take(symbol as int) =~= freq);
        }
        Ok(DecodeTable { log: self.table.log, slots, shape: Ghost(shape) })
    }
}

/// Whether an entry names the symbol its slot belongs to, with that symbol's slots.
spec fn slot_names(shape: TableShape, entry: u32, slot: int) -> bool {
    let symbol = entry as int / 0x100_0000;
    &&& symbol < shape.freq.len()
    &&& (entry as int / 0x1000) % 0x1000 + 1 == shape.freq[symbol]
    &&& entry as int % 0x1000 == start(shape.freq, symbol)
    &&& start(shape.freq, symbol) <= slot < start(shape.freq, symbol) + shape.freq[symbol]
}

/// The packed slot table: one 32-bit entry per state of the table.
pub struct DecodeTable {
    log: u32,
    slots: Vec<u32>,
    shape: Ghost<TableShape>,
}

impl View for DecodeTable {
    type V = TableShape;

    closed spec fn view(&self) -> TableShape {
        self.shape@
    }
}

impl DecodeTable {
    /// Every slot names the symbol it belongs to.
    pub closed spec fn wf(&self) -> bool {
        &&& self@.valid()
        &&& self.log == self@.log
        &&& self.slots@.len() == pow2(self.log as nat)
        &&& forall|e: int|
            0 <= e < self.slots@.len() ==> slot_names(self@, #[trigger] self.slots@[e], e)
    }

    /// What a well-formed table is.
    pub proof fn lemma_wf(&self)
        requires
            self.wf(),
        ensures
            self@.valid(),
    {
    }

    /// The bytes this table occupies.
    #[must_use]
    pub fn allocated_bytes(&self) -> (bytes: u64)
        requires
            self.wf(),
        ensures
            bytes as nat == self@.table_bytes(),
    {
        proof {
            lemma_slots_inside(self@, 0);
        }
        self.slots.len() as u64 * 4
    }

    /// Decodes one symbol per slot of `out`, and reports the bytes it consumed.
    ///
    /// Refuses a state count this coder does not ship at, and a payload that ends before the
    /// symbols do. A payload that ends early leaves the symbols before its end, and the rest of
    /// `out` as it was.
    pub fn decode(&self, bytes: &[u8], out: &mut [u16], states: usize) -> (ended: Result<
        usize,
        Error,
    >)
        requires
            self.wf(),
        ensures
            final(out)@.len() == old(out)@.len(),
            !admitted_states(states as nat) ==> ended == Err::<usize, Error>(
                Error::InvalidParameter,
            ) && final(out)@ == old(out)@,
            admitted_states(states as nat) ==> match decoded(
                self@,
                bytes@,
                states as nat,
                old(out)@.len(),
            ) {
                Some((symbols, _, end)) => ended == Ok::<usize, Error>(end as usize) && end
                    <= bytes@.len() && final(out)@ == symbols && self@.carries_all(symbols),
                None => {
                    let prefix = decoded_prefix(self@, bytes@, states as nat, old(out)@.len());
                    &&& ended == Err::<usize, Error>(Error::CorruptData(Corruption::CodedStream))
                    &&& final(out)@ == prefix + old(out)@.skip(prefix.len() as int)
                },
            },
    {
        if !admits_states(states) {
            return Err(Error::InvalidParameter);
        }
        let ghost shape = self@;
        let ghost n = states as nat;
        let ghost source = bytes@;
        let count: usize = out.len();
        if bytes.len() < 4 * states {
            proof {
                assert(decoded(shape, source, n, 0) is None);
                lemma_decoded_none(shape, source, n, 0, count as nat);
                lemma_decoded_prefix(shape, source, n, 0, count as nat);
                assert(Seq::<u16>::empty() + out@.skip(0) =~= out@);
            }
            return Err(Error::CorruptData(Corruption::CodedStream));
        }
        let mut state: Vec<u64> = Vec::new();
        let mut which: usize = 0;
        while which < states
            invariant
                which <= states <= 4,
                bytes@ == source,
                source.len() >= 4 * states,
                state@.len() == which,
                forall|i: int|
                    0 <= i < which ==> #[trigger] state@[i] as nat == state_at(source, 4 * i),
            decreases states - which,
        {
            let base: usize = 4 * which;
            let value: u64 = bytes[base] as u64 * 0x100_0000 + bytes[base + 1] as u64 * 0x1_0000
                + bytes[base + 2] as u64 * 0x100 + bytes[base + 3] as u64;
            state.push(value);
            which = which + 1;
        }
        let mut at: usize = 4 * states;
        let mut index: usize = 0;
        proof {
            assert(as_nats(state@) =~= Seq::new(n, |i: int| state_at(source, 4 * i)));
            assert(out@.take(0) =~= Seq::empty());
        }
        while index < count
            invariant
                self.wf(),
                shape == self@,
                n == states as nat,
                admitted_states(n),
                bytes@ == source,
                index <= count == out@.len(),
                count == old(out)@.len(),
                at <= source.len(),
                state@.len() == states,
                forall|i: int| 0 <= i < states ==> #[trigger] state@[i] < 0x1_0000_0000,
                decoded(shape, source, n, index as nat) == Some(
                    (out@.take(index as int), as_nats(state@), at as nat),
                ),
                shape.carries_all(out@.take(index as int)),
                forall|i: int| index <= i < count ==> #[trigger] out@[i] == old(out)@[i],
            decreases count - index,
        {
            let lane: usize = index % states;
            let held: u64 = state[lane];
            let ghost m = pow2(shape.log as nat);
            proof {
                lemma_slots_inside(shape, 0);
                lemma_pow2_pos(shape.log as nat);
                lemma_mod_bound(held as int, m as int);
                lemma_fundamental_div_mod(held as int, m as int);
                assert(as_nats(state@)[lane as int] == held);
            }
            let size: u64 = self.slots.len() as u64;
            let place: u64 = held % size;
            let found: u32 = self.slots[place as usize];
            let frequency: u64 = entry_frequency(found) as u64;
            let begin: u64 = entry_cumulative(found) as u64;
            let ghost symbol = (found as int / 0x100_0000) as u16;
            proof {
                assert(slot_names(shape, self.slots@[place as int], place as int));
                assert(shape.holds(symbol, place as nat));
                lemma_one_holder(shape, symbol, place as nat);
                lemma_slots_inside(shape, symbol as int);
                let q = held as int / m as int;
                assert(0 <= frequency * q <= m * q) by (nonlinear_arith)
                    requires
                        0 <= frequency <= m,
                        q >= 0,
                ;
            }
            let mut next: u64 = frequency * (held / size) + place - begin;
            proof {
                assert(next as nat == shape.unfold(held as nat));
            }
            let ghost unfolded = next as nat;
            let ghost first = at as nat;
            while next < RANS_L
                invariant
                    next < 0x1_0000_0000,
                    at <= source.len(),
                    bytes@ == source,
                    shape == self@,
                    admitted_states(n),
                    index < count,
                    count == old(out)@.len(),
                    count == out@.len(),
                    n == states as nat,
                    decoded(shape, source, n, index as nat) == Some(
                        (out@.take(index as int), as_nats(state@), first),
                    ),
                    lane == index as nat % n,
                    unfolded == shape.unfold(as_nats(state@)[lane as int]),
                    refill(source, unfolded, first) == refill(source, next as nat, at as nat),
                    forall|i: int| index <= i < count ==> #[trigger] out@[i] == old(out)@[i],
                decreases source.len() - at,
            {
                if at >= bytes.len() {
                    proof {
                        assert(decoded(shape, source, n, (index + 1) as nat) is None);
                        lemma_decoded_none(shape, source, n, (index + 1) as nat, count as nat);
                        lemma_decoded_prefix(shape, source, n, (index + 1) as nat, count as nat);
                        assert(out@ =~= out@.take(index as int) + old(out)@.skip(index as int));
                    }
                    return Err(Error::CorruptData(Corruption::CodedStream));
                }
                next = next * 256 + bytes[at] as u64;
                at = at + 1;
            }
            let ghost before = out@;
            let ghost before_states = state@;
            state.set(lane, next);
            out[index] = entry_symbol(found);
            proof {
                assert(as_nats(state@) =~= as_nats(before_states).update(
                    lane as int,
                    next as nat,
                ));
                assert(out@.take(index + 1) =~= before.take(index as int).push(symbol));
                assert forall|i: int| 0 <= i < index + 1 implies shape.carries(
                    #[trigger] out@.take(index + 1)[i],
                ) by {
                    if i < index {
                        assert(before.take(index as int)[i] == out@.take(index + 1)[i]);
                    }
                }
            }
            index = index + 1;
        }
        proof {
            assert(out@.take(count as int) =~= out@);
        }
        Ok(at)
    }
}

// The alphabet is at most 256 and the table log is at most 12, so a symbol takes eight bits and
// a frequency less one and a cumulative start take twelve each. Thirty-two exactly, which is why
// this shape needs no array beside the slot table.
/// One slot's entry: the symbol, its frequency and its cumulative start.
pub fn entry(symbol: u32, frequency: u32, cumulative: u32) -> (entry: u32)
    requires
        symbol < 256,
        1 <= frequency <= 4096,
        cumulative < 4096,
    ensures
        entry as int / 0x100_0000 == symbol,
        (entry as int / 0x1000) % 0x1000 + 1 == frequency,
        entry as int % 0x1000 == cumulative,
{
    symbol * 0x100_0000 + (frequency - 1) * 0x1000 + cumulative
}

/// The symbol of an entry.
pub fn entry_symbol(entry: u32) -> (symbol: u16)
    ensures
        symbol == entry as int / 0x100_0000,
{
    (entry / 0x100_0000) as u16
}

/// The frequency of an entry.
pub fn entry_frequency(entry: u32) -> (frequency: u32)
    ensures
        frequency == (entry as int / 0x1000) % 0x1000 + 1,
{
    entry / 0x1000 % 0x1000 + 1
}

/// The cumulative start of an entry.
pub fn entry_cumulative(entry: u32) -> (cumulative: u32)
    ensures
        cumulative == entry as int % 0x1000,
{
    entry % 0x1000
}

/// The table that counts normalize to is one, and gives a slot to exactly the symbols that
/// occur.
pub proof fn law_normalized_table_keeps_every_symbol(counts: Seq<u64>, alphabet_size: u32)
    requires
        normalizable(counts, alphabet_size),
    ensures
        built(counts).valid(),
        built(counts).freq.len() == counts.len(),
        forall|s: u16|
            (s as int) < counts.len() ==> (#[trigger] built(counts).carries(s) <==> counts[s as int]
                > 0),
{
    let distinct = support(counts);
    let log = built_log(sum_of(counts), distinct);
    lemma_support_bound(counts);
    lemma_ceil_log(distinct);
    lemma2_to64();
    let c = ceil_log(distinct);
    if c > 9 {
        lemma_pow2_strictly_increases(8, (c - 1) as nat);
    }
    if c < log {
        lemma_pow2_strictly_increases(c, log);
    }
    if log < 10 {
        lemma_pow2_strictly_increases(log, 10);
    }
    lemma_pow2_pos(log);
    lemma_normalized(counts, pow2(log));
    let freq = normalized(counts, pow2(log));
    assert forall|s: u16| (s as int) < counts.len() implies (#[trigger] built(counts).carries(s)
        <==> counts[s as int] > 0) by {
        assert(freq[s as int] > 0 <==> counts[s as int] > 0);
    }
}

/// A description rebuilds the table that wrote it: a parse where the description stands reads
/// exactly that table, ends where the description ends, and validation admits what it read.
pub proof fn law_description_rebuilds_the_table(
    shape: TableShape,
    source: Seq<u8>,
    declared: nat,
    at: nat,
)
    requires
        shape.valid(),
        at + description(shape).len() <= declared,
        window(source, at, description(shape).len()) == description(shape),
    ensures
        parse_description(source, declared, at, shape.freq.len()) == Ok::<
            (TableShape, nat),
            (Error, nat),
        >((shape, at + description(shape).len())),
        validated(shape) == Ok::<TableShape, Error>(shape),
{
    let all = description(shape);
    let whole = window(source, at, all.len());
    lemma2_to64();
    let field = bits_of(shape.log as nat, 5);
    let rest = fields(shape.freq, 0, pow2(shape.log as nat));
    lemma_bits_of_len(shape.log as nat, 5);
    lemma_value_of_bits(shape.log as nat, 5);
    let read = window(source, at, 5);
    assert forall|i: int| 0 <= i < 5 implies read[i] == field[i] by {
        assert(whole[i] == all[i]);
    }
    assert(read =~= field);
    let after = window(source, at + 5, rest.len());
    assert forall|i: int| 0 <= i < rest.len() implies after[i] == rest[i] by {
        assert(whole[5 + i] == all[5 + i]);
    }
    assert(after =~= rest);
    assert(shape.freq.take(0) =~= Seq::empty());
    lemma_fields_read_back(source, declared, at + 5, shape.freq, 0, pow2(shape.log as nat));
}

/// A coder gives back what it was given: a table normalized from counts describes itself so that
/// a parse and a validation rebuild it, and the payload of a stream of symbols that occur decodes
/// to that stream and ends exactly at its end.
pub proof fn law_coder_round_trips(
    counts: Seq<u64>,
    alphabet_size: u32,
    described: Seq<u8>,
    symbols: Seq<u16>,
    states: nat,
)
    requires
        normalizable(counts, alphabet_size),
        forall|i: int|
            0 <= i < symbols.len() ==> (#[trigger] symbols[i] as int) < counts.len()
                && counts[symbols[i] as int] > 0,
        admitted_states(states),
        window(described, 0, description(built(counts)).len()) == description(built(counts)),
    ensures
        ({
            let shape = built(counts);
            let bits = description(shape).len();
            let bytes = payload(shape, symbols, states);
            &&& shape.carries_all(symbols)
            &&& parse_description(described, bits, 0, alphabet_size as nat) == Ok::<
                (TableShape, nat),
                (Error, nat),
            >((shape, bits))
            &&& validated(shape) == Ok::<TableShape, Error>(shape)
            &&& decoded(shape, bytes, states, symbols.len()) matches Some((read, _, end)) && read
                == symbols && end == bytes.len()
        }),
{
    let shape = built(counts);
    law_normalized_table_keeps_every_symbol(counts, alphabet_size);
    assert forall|i: int| 0 <= i < symbols.len() implies shape.carries(#[trigger] symbols[i]) by {
        assert(counts[symbols[i] as int] > 0);
    }
    law_description_rebuilds_the_table(shape, described, description(shape).len(), 0);
    law_decode_gives_back_the_symbols(shape, symbols, states);
}

} // verus!
