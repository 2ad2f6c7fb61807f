//! Owns the state arithmetic: what one symbol does to a state, and what a decoder undoes.
//!
//! A state lives in `[2^23, 2^31)`. To code a symbol the encoder sheds low bytes until the state
//! is below the symbol's limit and then folds the symbol in. A decoder reads the symbol off the
//! low bits, unfolds it, and takes bytes back until the state is in its interval again.

use vstd::prelude::*;
use vstd::arithmetic::div_mod::{
    lemma_fundamental_div_mod, lemma_fundamental_div_mod_converse, lemma_mod_bound,
};
use vstd::arithmetic::power2::{
    lemma2_to64, lemma_pow2_adds, lemma_pow2_pos, lemma_pow2_strictly_increases, pow2,
};
use super::{RANS_L, TABLE_LOG_MAX, TABLE_LOG_MIN};
use crate::entropy::MAX_ALPHABET_SIZE;

verus! {

/// The sum of a list of frequencies.
pub open spec fn total(freq: Seq<u32>) -> nat
    decreases freq.len(),
{
    if freq.len() == 0 {
        0
    } else {
        total(freq.drop_last()) + freq.last() as nat
    }
}

/// Where a symbol's slots start.
pub open spec fn start(freq: Seq<u32>, symbol: int) -> nat {
    total(freq.take(symbol))
}

/// What a table is: the log of its total, and the slots of each symbol.
#[verifier::ext_equal]
pub struct TableShape {
    pub log: u32,
    pub freq: Seq<u32>,
}

impl TableShape {
    /// Whether the frequencies fill a table of a permitted log over a permitted alphabet.
    pub open spec fn valid(self) -> bool {
        &&& TABLE_LOG_MIN <= self.log <= TABLE_LOG_MAX
        &&& 1 <= self.freq.len() <= MAX_ALPHABET_SIZE
        &&& total(self.freq) == pow2(self.log as nat)
    }

    /// Whether this table gives a symbol a slot.
    pub open spec fn carries(self, symbol: u16) -> bool {
        (symbol as int) < self.freq.len() && self.freq[symbol as int] > 0
    }

    /// Whether this table gives every symbol of a stream a slot.
    pub open spec fn carries_all(self, symbols: Seq<u16>) -> bool {
        forall|i: int| 0 <= i < symbols.len() ==> self.carries(#[trigger] symbols[i])
    }

    /// The bytes a decoder allocates for this table: four for each slot.
    pub open spec fn table_bytes(self) -> nat {
        4 * pow2(self.log as nat)
    }

    /// Whether a slot is one of a symbol's.
    pub open spec fn holds(self, symbol: u16, slot: nat) -> bool {
        &&& self.carries(symbol)
        &&& start(self.freq, symbol as int) <= slot < start(self.freq, symbol as int)
            + self.freq[symbol as int]
    }

    /// The symbol a slot belongs to.
    pub open spec fn symbol_of(self, slot: nat) -> u16 {
        choose|symbol: u16| self.holds(symbol, slot)
    }

    /// The states below which a symbol can be folded in.
    pub open spec fn limit(self, symbol: u16) -> nat {
        self.freq[symbol as int] as nat * pow2((31 - self.log) as nat)
    }

    /// The state after a symbol is folded in.
    pub open spec fn fold(self, state: nat, symbol: u16) -> nat {
        let f = self.freq[symbol as int] as nat;
        (state / f) * pow2(self.log as nat) + state % f + start(self.freq, symbol as int)
    }

    /// The state after the symbol it names is unfolded.
    pub open spec fn unfold(self, state: nat) -> nat {
        let slot = state % pow2(self.log as nat);
        let symbol = self.symbol_of(slot) as int;
        (self.freq[symbol] as nat * (state / pow2(self.log as nat)) + slot - start(
            self.freq,
            symbol,
        )) as nat
    }
}

/// The state a renormalization leaves below a limit, and the bytes it sheds, in the order a
/// decoder takes them back.
pub open spec fn shed(state: nat, limit: nat) -> (nat, Seq<u8>)
    decreases state,
{
    if state < limit || state == 0 {
        (state, Seq::empty())
    } else {
        let (low, bytes) = shed(state / 256, limit);
        (low, bytes.push((state % 256) as u8))
    }
}

/// The state bytes bring back into the interval, and the position after them.
pub open spec fn refill(bytes: Seq<u8>, state: nat, at: nat) -> Option<(nat, nat)>
    decreases bytes.len() - at,
{
    if state >= RANS_L {
        Some((state, at))
    } else if at < bytes.len() {
        refill(bytes, state * 256 + bytes[at as int] as nat, at + 1)
    } else {
        None
    }
}

/// The states and the bytes after the symbols from `at` on are coded, last symbol first.
pub open spec fn coded(shape: TableShape, symbols: Seq<u16>, states: nat, at: nat) -> (
    Seq<nat>,
    Seq<u8>,
)
    decreases symbols.len() - at,
{
    if at >= symbols.len() {
        (Seq::new(states, |i: int| RANS_L as nat), Seq::empty())
    } else {
        let (held, bytes) = coded(shape, symbols, states, at + 1);
        let which = (at % states) as int;
        let (low, spilled) = shed(held[which], shape.limit(symbols[at as int]));
        (held.update(which, shape.fold(low, symbols[at as int])), spilled + bytes)
    }
}

/// A state as four bytes, most significant first.
pub open spec fn flushed(state: nat) -> Seq<u8> {
    seq![
        (state / 0x100_0000 % 256) as u8,
        (state / 0x1_0000 % 256) as u8,
        (state / 0x100 % 256) as u8,
        (state % 256) as u8,
    ]
}

/// The first states of a list, flushed.
pub open spec fn flush(states: Seq<nat>, count: nat) -> Seq<u8>
    decreases count,
{
    if count == 0 {
        Seq::empty()
    } else {
        flush(states, (count - 1) as nat) + flushed(states[count - 1])
    }
}

/// The payload of a stream: its flushed states, then the bytes its symbols shed.
pub open spec fn payload(shape: TableShape, symbols: Seq<u16>, states: nat) -> Seq<u8> {
    let (held, bytes) = coded(shape, symbols, states, 0);
    flush(held, states) + bytes
}

/// The state four bytes carry, most significant first.
pub open spec fn state_at(bytes: Seq<u8>, at: int) -> nat {
    bytes[at] as nat * 0x100_0000 + bytes[at + 1] as nat * 0x1_0000 + bytes[at + 2] as nat * 0x100
        + bytes[at + 3] as nat
}

/// The symbols, the states and the position after `count` symbols are decoded, or nothing when
/// the payload ends before them.
pub open spec fn decoded(shape: TableShape, bytes: Seq<u8>, states: nat, count: nat) -> Option<
    (Seq<u16>, Seq<nat>, nat),
>
    decreases count,
{
    if count == 0 {
        if bytes.len() < 4 * states {
            None
        } else {
            Some((Seq::empty(), Seq::new(states, |i: int| state_at(bytes, 4 * i)), 4 * states))
        }
    } else {
        match decoded(shape, bytes, states, (count - 1) as nat) {
            None => None,
            Some((symbols, held, at)) => {
                let which = ((count - 1) % states as int) as int;
                let symbol = shape.symbol_of(held[which] % pow2(shape.log as nat));
                match refill(bytes, shape.unfold(held[which]), at) {
                    None => None,
                    Some((next, end)) => Some((symbols.push(symbol), held.update(which, next), end)),
                }
            },
        }
    }
}

/// The symbols decoded of `count`: all of them, or those before the payload ends.
pub open spec fn decoded_prefix(shape: TableShape, bytes: Seq<u8>, states: nat, count: nat) -> Seq<
    u16,
>
    decreases count,
{
    match decoded(shape, bytes, states, count) {
        Some((symbols, _, _)) => symbols,
        None => if count == 0 {
            Seq::empty()
        } else {
            decoded_prefix(shape, bytes, states, (count - 1) as nat)
        },
    }
}

/// Where a payload ends inside one symbol, the symbols before it are all that is decoded of any
/// longer count.
pub proof fn lemma_decoded_prefix(
    shape: TableShape,
    bytes: Seq<u8>,
    states: nat,
    first: nat,
    count: nat,
)
    requires
        first <= count,
        decoded(shape, bytes, states, first) is None,
    ensures
        decoded_prefix(shape, bytes, states, count) == decoded_prefix(shape, bytes, states, first),
        first == 0 ==> decoded_prefix(shape, bytes, states, count) == Seq::<u16>::empty(),
        first > 0 ==> decoded_prefix(shape, bytes, states, count) == decoded_prefix(
            shape,
            bytes,
            states,
            (first - 1) as nat,
        ),
    decreases count,
{
    if count > first {
        lemma_decoded_prefix(shape, bytes, states, first, (count - 1) as nat);
        lemma_decoded_none(shape, bytes, states, first, count);
    }
}

/// Whether a state count is one this coder ships at.
pub open spec fn admitted_states(states: nat) -> bool {
    states == 1 || states == 2 || states == 4
}

/// One symbol's slots follow the slots of the symbols before it.
pub proof fn lemma_start_step(freq: Seq<u32>, symbol: int)
    requires
        0 <= symbol < freq.len(),
    ensures
        start(freq, symbol + 1) == start(freq, symbol) + freq[symbol],
{
    assert(freq.take(symbol + 1).drop_last() =~= freq.take(symbol));
}

pub proof fn lemma_start_monotone(freq: Seq<u32>, a: int, b: int)
    requires
        0 <= a <= b <= freq.len(),
    ensures
        start(freq, a) <= start(freq, b),
    decreases b - a,
{
    if a < b {
        lemma_start_monotone(freq, a, b - 1);
        lemma_start_step(freq, b - 1);
    }
}

/// The slots of one symbol end inside the table.
pub proof fn lemma_slots_inside(shape: TableShape, symbol: int)
    requires
        shape.valid(),
        0 <= symbol < shape.freq.len(),
    ensures
        start(shape.freq, symbol) + shape.freq[symbol] <= pow2(shape.log as nat),
        shape.freq[symbol] <= pow2(shape.log as nat),
        pow2(shape.log as nat) <= 4096,
{
    lemma_start_step(shape.freq, symbol);
    lemma_start_monotone(shape.freq, symbol + 1, shape.freq.len() as int);
    assert(shape.freq.take(shape.freq.len() as int) =~= shape.freq);
    lemma2_to64();
    if shape.log < 12 {
        lemma_pow2_strictly_increases(shape.log as nat, 12);
    }
}

/// A slot belongs to one symbol.
pub proof fn lemma_one_holder(shape: TableShape, symbol: u16, slot: nat)
    requires
        shape.valid(),
        shape.holds(symbol, slot),
    ensures
        shape.symbol_of(slot) == symbol,
{
    let other = shape.symbol_of(slot);
    assert(shape.holds(other, slot));
    let a = symbol as int;
    let b = other as int;
    lemma_start_step(shape.freq, a);
    lemma_start_step(shape.freq, b);
    if a < b {
        lemma_start_monotone(shape.freq, a + 1, b);
    } else if b < a {
        lemma_start_monotone(shape.freq, b + 1, a);
    }
}

/// Every slot of the table belongs to a symbol.
pub proof fn lemma_every_slot_held(freq: Seq<u32>, slot: nat) -> (symbol: int)
    requires
        slot < total(freq),
    ensures
        0 <= symbol < freq.len(),
        freq[symbol] > 0,
        start(freq, symbol) <= slot < start(freq, symbol) + freq[symbol],
    decreases freq.len(),
{
    let less = freq.drop_last();
    if slot < total(less) {
        let symbol = lemma_every_slot_held(less, slot);
        assert(less.take(symbol) =~= freq.take(symbol));
        symbol
    } else {
        assert(freq.take(freq.len() - 1) =~= less);
        freq.len() - 1
    }
}

/// What shedding leaves is below the limit, and not below a byte under it.
proof fn lemma_shed(state: nat, limit: nat)
    requires
        limit > 0,
    ensures
        shed(state, limit).0 < limit,
        shed(state, limit).0 <= state,
        state >= limit ==> shed(state, limit).0 >= limit / 256,
        state < limit ==> shed(state, limit).0 == state,
    decreases state,
{
    if state >= limit {
        lemma_shed(state / 256, limit);
    }
}

/// Folding a symbol into a state below its limit leaves a state of the interval, and unfolding
/// names the symbol and gives the state back.
pub proof fn lemma_fold(shape: TableShape, state: nat, symbol: u16)
    requires
        shape.valid(),
        shape.carries(symbol),
        shape.freq[symbol as int] * pow2((23 - shape.log) as nat) <= state < shape.limit(symbol),
    ensures
        RANS_L <= shape.fold(state, symbol) < 0x8000_0000,
        shape.symbol_of(shape.fold(state, symbol) % pow2(shape.log as nat)) == symbol,
        shape.unfold(shape.fold(state, symbol)) == state,
{
    let f = shape.freq[symbol as int] as nat;
    let m = pow2(shape.log as nat);
    let c = start(shape.freq, symbol as int);
    let q = state / f;
    let r = state % f;
    lemma_slots_inside(shape, symbol as int);
    lemma_pow2_pos(shape.log as nat);
    lemma_fundamental_div_mod(state as int, f as int);
    lemma_mod_bound(state as int, f as int);
    let x = shape.fold(state, symbol);
    assert(x == q * m + (r + c));
    assert(0 <= r + c < m);
    lemma_fundamental_div_mod_converse(x as int, m as int, q as int, (r + c) as int);
    assert(shape.holds(symbol, r + c));
    lemma_one_holder(shape, symbol, r + c);
    assert(shape.unfold(x) == f * q + (r + c) - c);
    lemma2_to64();
    lemma_pow2_adds((31 - shape.log) as nat, shape.log as nat);
    lemma_pow2_adds((23 - shape.log) as nat, shape.log as nat);
    let up = pow2((31 - shape.log) as nat);
    let low = pow2((23 - shape.log) as nat);
    assert(q < up) by (nonlinear_arith)
        requires
            f * q + r < f * up,
            r >= 0,
            f > 0,
    ;
    assert(q * m + (r + c) < up * m) by (nonlinear_arith)
        requires
            q + 1 <= up,
            r + c < m,
    ;
    assert(q >= low) by (nonlinear_arith)
        requires
            f * low <= f * q + r,
            r < f,
            f > 0,
    ;
    assert(q * m >= low * m) by (nonlinear_arith)
        requires
            q >= low,
            m > 0,
    ;
}

/// Shedding a state of the interval leaves a state that the symbol can be folded into.
pub proof fn lemma_shed_fits(shape: TableShape, state: nat, symbol: u16)
    requires
        shape.valid(),
        shape.carries(symbol),
        RANS_L <= state < 0x8000_0000,
    ensures
        shape.limit(symbol) > 0,
        shape.freq[symbol as int] * pow2((23 - shape.log) as nat) <= shed(
            state,
            shape.limit(symbol),
        ).0 < shape.limit(symbol),
{
    let f = shape.freq[symbol as int] as nat;
    let low = pow2((23 - shape.log) as nat);
    lemma_slots_inside(shape, symbol as int);
    lemma2_to64();
    lemma_pow2_adds(8, (23 - shape.log) as nat);
    lemma_pow2_adds((23 - shape.log) as nat, shape.log as nat);
    lemma_pow2_pos((23 - shape.log) as nat);
    assert(shape.limit(symbol) == 256 * (f * low)) by (nonlinear_arith)
        requires
            shape.limit(symbol) == f * (256 * low),
    ;
    assert(f * low > 0) by (nonlinear_arith)
        requires
            f > 0,
            low > 0,
    ;
    assert(f * low <= pow2(shape.log as nat) * low) by (nonlinear_arith)
        requires
            f <= pow2(shape.log as nat),
            low > 0,
    ;
    assert(low * pow2(shape.log as nat) == pow2(shape.log as nat) * low) by (nonlinear_arith);
    lemma_shed(state, shape.limit(symbol));
}

/// The bytes of a state, taken back from below the interval.
proof fn lemma_refill_below(bytes: Seq<u8>, state: nat, limit: nat, at: nat)
    requires
        state < RANS_L,
        limit > 0,
        at + shed(state, limit).1.len() <= bytes.len(),
        bytes.subrange(at as int, (at + shed(state, limit).1.len()) as int) == shed(state, limit).1,
    ensures
        refill(bytes, shed(state, limit).0, at) == refill(
            bytes,
            state,
            at + shed(state, limit).1.len(),
        ),
    decreases state,
{
    if state >= limit {
        let less = shed(state / 256, limit).1;
        let all = shed(state, limit).1;
        assert(all.drop_last() =~= less);
        let part = bytes.subrange(at as int, (at + all.len()) as int);
        assert(bytes.subrange(at as int, (at + less.len()) as int) =~= part.drop_last());
        lemma_refill_below(bytes, state / 256, limit, at);
        assert(bytes[(at + less.len()) as int] == part[less.len() as int]);
        assert((state / 256) * 256 + state % 256 == state);
    }
}

/// Taking bytes back undoes shedding them: a state of the interval comes back whole, and no
/// byte past its own is taken.
pub proof fn lemma_refill(bytes: Seq<u8>, state: nat, limit: nat, at: nat)
    requires
        RANS_L <= state < 0x8000_0000,
        limit > 0,
        at + shed(state, limit).1.len() <= bytes.len(),
        bytes.subrange(at as int, (at + shed(state, limit).1.len()) as int) == shed(state, limit).1,
    ensures
        refill(bytes, shed(state, limit).0, at) == Some((state, at + shed(state, limit).1.len())),
{
    if state >= limit {
        let less = shed(state / 256, limit).1;
        let all = shed(state, limit).1;
        assert(all.drop_last() =~= less);
        let part = bytes.subrange(at as int, (at + all.len()) as int);
        assert(bytes.subrange(at as int, (at + less.len()) as int) =~= part.drop_last());
        lemma_refill_below(bytes, state / 256, limit, at);
        assert(bytes[(at + less.len()) as int] == part[less.len() as int]);
        assert((state / 256) * 256 + state % 256 == state);
        reveal_with_fuel(refill, 3);
    }
}

/// The states of a coded stream are states of the interval.
pub proof fn lemma_coded_states(shape: TableShape, symbols: Seq<u16>, states: nat, at: nat)
    requires
        shape.valid(),
        shape.carries_all(symbols),
        admitted_states(states),
    ensures
        coded(shape, symbols, states, at).0.len() == states,
        forall|i: int|
            0 <= i < states ==> RANS_L <= #[trigger] coded(shape, symbols, states, at).0[i]
                < 0x8000_0000,
    decreases symbols.len() - at,
{
    if at < symbols.len() {
        lemma_coded_states(shape, symbols, states, at + 1);
        let held = coded(shape, symbols, states, at + 1).0;
        let which = (at % states) as int;
        let symbol = symbols[at as int];
        assert(RANS_L <= held[which] < 0x8000_0000);
        lemma_shed_fits(shape, held[which], symbol);
        lemma_fold(shape, shed(held[which], shape.limit(symbol)).0, symbol);
    }
}

proof fn lemma_flushed(state: nat, bytes: Seq<u8>, at: int)
    requires
        state < 0x8000_0000,
        0 <= at,
        at + 4 <= bytes.len(),
        bytes.subrange(at, at + 4) == flushed(state),
    ensures
        state_at(bytes, at) == state,
{
    let four = bytes.subrange(at, at + 4);
    assert(four[0] == bytes[at]);
    assert(four[1] == bytes[at + 1]);
    assert(four[2] == bytes[at + 2]);
    assert(four[3] == bytes[at + 3]);
}

pub proof fn lemma_flush(states: Seq<nat>, count: nat)
    requires
        count <= states.len(),
        forall|i: int| 0 <= i < states.len() ==> #[trigger] states[i] < 0x8000_0000,
    ensures
        flush(states, count).len() == 4 * count,
        forall|i: int|
            0 <= i < count ==> state_at(flush(states, count), 4 * i) == #[trigger] states[i],
    decreases count,
{
    if count > 0 {
        let less = (count - 1) as nat;
        lemma_flush(states, less);
        let all = flush(states, count);
        let head = flush(states, less);
        assert forall|i: int| 0 <= i < count implies state_at(all, 4 * i) == #[trigger] states[i] by {
            if i < less {
                assert(state_at(head, 4 * i) == states[i]);
                assert(all[4 * i] == head[4 * i]);
                assert(all[4 * i + 1] == head[4 * i + 1]);
                assert(all[4 * i + 2] == head[4 * i + 2]);
                assert(all[4 * i + 3] == head[4 * i + 3]);
            } else {
                assert(all.subrange(4 * i, 4 * i + 4) =~= flushed(states[i]));
                lemma_flushed(states[i], all, 4 * i);
            }
        }
    }
}

/// After the first `count` symbols of a payload are decoded, the states are the encoder's before
/// it coded them, and what is left of the payload is what the symbols after them shed.
pub proof fn lemma_payload_steps(shape: TableShape, symbols: Seq<u16>, states: nat, count: nat)
    requires
        shape.valid(),
        shape.carries_all(symbols),
        admitted_states(states),
        count <= symbols.len(),
    ensures
        ({
            let bytes = payload(shape, symbols, states);
            let rest = coded(shape, symbols, states, count);
            &&& rest.1.len() <= bytes.len()
            &&& decoded(shape, bytes, states, count) == Some(
                (symbols.take(count as int), rest.0, (bytes.len() - rest.1.len()) as nat),
            )
            &&& bytes.skip(bytes.len() - rest.1.len()) == rest.1
        }),
    decreases count,
{
    let bytes = payload(shape, symbols, states);
    lemma_coded_states(shape, symbols, states, count);
    if count == 0 {
        let (held, rest) = coded(shape, symbols, states, 0);
        lemma_flush(held, states);
        let head = flush(held, states);
        assert(bytes.skip(bytes.len() - rest.len()) =~= rest);
        assert(symbols.take(0) =~= Seq::empty());
        let read = Seq::new(states, |i: int| state_at(bytes, 4 * i));
        assert forall|i: int| 0 <= i < states implies read[i] == held[i] by {
            assert(bytes[4 * i] == head[4 * i]);
            assert(bytes[4 * i + 1] == head[4 * i + 1]);
            assert(bytes[4 * i + 2] == head[4 * i + 2]);
            assert(bytes[4 * i + 3] == head[4 * i + 3]);
        }
        assert(read =~= held);
    } else {
        let less = (count - 1) as nat;
        lemma_payload_steps(shape, symbols, states, less);
        let (before, longer) = coded(shape, symbols, states, less);
        let (held, rest) = coded(shape, symbols, states, count);
        let which = (less % states) as int;
        let symbol = symbols[less as int];
        let limit = shape.limit(symbol);
        assert(RANS_L <= held[which] < 0x8000_0000);
        lemma_shed_fits(shape, held[which], symbol);
        let (low, spilled) = shed(held[which], limit);
        lemma_fold(shape, low, symbol);
        let at = (bytes.len() - longer.len()) as nat;
        assert(longer == spilled + rest);
        assert(bytes.subrange(at as int, (at + spilled.len()) as int) =~= spilled) by {
            let tail = bytes.skip(at as int);
            assert forall|i: int| 0 <= i < spilled.len() implies bytes[at + i] == spilled[i] by {
                assert(tail[i] == longer[i]);
            }
        }
        lemma_refill(bytes, held[which], limit, at);
        assert(before[which] == shape.fold(low, symbol));
        assert(before.update(which, held[which]) =~= held);
        assert(symbols.take(less as int).push(symbol) =~= symbols.take(count as int));
        assert(bytes.skip(bytes.len() - rest.len()) =~= rest) by {
            let tail = bytes.skip(at as int);
            assert forall|i: int| 0 <= i < rest.len() implies bytes[bytes.len() - rest.len() + i]
                == rest[i] by {
                assert(tail[spilled.len() + i] == longer[spilled.len() + i]);
            }
        }
    }
}

/// A decode gives back what was written: the payload of a stream decodes to its symbols, and
/// the decode consumes the whole payload.
pub proof fn law_decode_gives_back_the_symbols(
    shape: TableShape,
    symbols: Seq<u16>,
    states: nat,
)
    requires
        shape.valid(),
        shape.carries_all(symbols),
        admitted_states(states),
    ensures
        decoded(shape, payload(shape, symbols, states), states, symbols.len()) matches Some(
            (read, _, end),
        ) && read == symbols && end == payload(shape, symbols, states).len(),
{
    lemma_payload_steps(shape, symbols, states, symbols.len());
    assert(symbols.take(symbols.len() as int) =~= symbols);
}

/// A decode that runs out stays out.
pub proof fn lemma_decoded_none(
    shape: TableShape,
    bytes: Seq<u8>,
    states: nat,
    few: nat,
    many: nat,
)
    requires
        few <= many,
        decoded(shape, bytes, states, few) is None,
    ensures
        decoded(shape, bytes, states, many) is None,
    decreases many - few,
{
    if few < many {
        lemma_decoded_none(shape, bytes, states, few, (many - 1) as nat);
    }
}

} // verus!
