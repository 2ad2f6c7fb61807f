//! Owns how a payload is walked: where its states stand, what one symbol takes from its state, and
//! which bytes bring the state back.

use vstd::arithmetic::power2::*;
use vstd::prelude::*;

use super::states::{
    admitted_states, decoded, lemma_every_slot_held, lemma_payload_steps, payload, refill, total,
    TableShape,
};

verus! {

/// A state brought back by bytes, each its next lower eight bits.
pub open spec fn brought(state: nat, bytes: Seq<u8>, at: nat, end: nat) -> nat
    decreases end - at,
{
    if end <= at {
        state
    } else {
        brought(state, bytes, at, (end - 1) as nat) * 256 + bytes[end - 1] as nat
    }
}

/// One byte more at the front.
proof fn lemma_brought_front(state: nat, bytes: Seq<u8>, at: nat, end: nat)
    requires
        at < end,
    ensures
        brought(state, bytes, at, end) == brought(
            state * 256 + bytes[at as int] as nat,
            bytes,
            at + 1,
            end,
        ),
    decreases end - at,
{
    if at + 1 < end {
        lemma_brought_front(state, bytes, at, (end - 1) as nat);
    } else {
        assert(brought(state, bytes, at, at) == state);
        assert(brought(state * 256 + bytes[at as int] as nat, bytes, end, end) == state * 256
            + bytes[at as int] as nat);
    }
}

/// A state is brought back by the fewest bytes that reach 2 to the 23.
proof fn lemma_refilled(bytes: Seq<u8>, state: nat, at: nat)
    requires
        at <= bytes.len(),
    ensures
        refill(bytes, state, at) matches Some((next, end)) ==> {
            &&& at <= end <= bytes.len()
            &&& next == brought(state, bytes, at, end)
            &&& next >= 0x80_0000
            &&& end > at ==> brought(state, bytes, at, (end - 1) as nat) < 0x80_0000
        },
    decreases bytes.len() - at,
{
    if state < 0x80_0000 && at < bytes.len() {
        let more = state * 256 + bytes[at as int] as nat;
        lemma_refilled(bytes, more, at + 1);
        if let Some((next, end)) = refill(bytes, more, at + 1) {
            lemma_brought_front(state, bytes, at, end);
            if end > at + 1 {
                lemma_brought_front(state, bytes, at, (end - 1) as nat);
            } else {
                assert(brought(state, bytes, at, at) == state);
            }
        }
    }
}

/// Where a payload's states stand: four bytes each, in turn from the front, most significant
/// first. A payload with fewer bytes decodes to nothing.
pub proof fn law_a_payload_opens_with_its_states(shape: TableShape, bytes: Seq<u8>, states: nat)
    ensures
        bytes.len() < 4 * states ==> decoded(shape, bytes, states, 0) is None,
        bytes.len() >= 4 * states ==> {
            let (symbols, held, at) = decoded(shape, bytes, states, 0)->0;
            &&& decoded(shape, bytes, states, 0) is Some
            &&& symbols.len() == 0
            &&& held.len() == states
            &&& at == 4 * states
            &&& forall|i: int|
                0 <= i < states ==> #[trigger] held[i] == brought(
                    0,
                    bytes,
                    (4 * i) as nat,
                    (4 * i + 4) as nat,
                )
        },
{
    reveal_with_fuel(brought, 5);
}

/// What one symbol takes. The states take the symbols in turn. The low bits of a state, as many as
/// the table log, are a slot, and the symbol is the one whose slots hold it. The state left is the
/// rest of it times the symbol's slots, and the place of the slot among them; bytes bring it back
/// to 2 to the 23 or more, as few as do. The other states stand still.
#[verifier::spinoff_prover]
#[verifier::rlimit(60)]
pub proof fn law_a_symbol_is_taken_from_its_state(
    shape: TableShape,
    bytes: Seq<u8>,
    states: nat,
    count: nat,
)
    requires
        shape.valid(),
        admitted_states(states),
        decoded(shape, bytes, states, count + 1) is Some,
    ensures
        ({
            let (before, held, at) = decoded(shape, bytes, states, count)->0;
            let (after, next, end) = decoded(shape, bytes, states, count + 1)->0;
            let which = (count % states) as int;
            let slots = pow2(shape.log as nat);
            let slot = held[which] % slots;
            let symbol = after.last() as int;
            let below = total(shape.freq.take(symbol));
            let left = shape.freq[symbol] as nat * (held[which] / slots) + slot - below;
            &&& decoded(shape, bytes, states, count) is Some
            &&& after == before.push(symbol as u16)
            &&& 0 <= symbol < shape.freq.len()
            &&& below <= slot < below + shape.freq[symbol]
            &&& at <= end <= bytes.len()
            &&& next == held.update(which, brought(left as nat, bytes, at, end))
            &&& next[which] >= 0x80_0000
            &&& end > at ==> brought(left as nat, bytes, at, (end - 1) as nat) < 0x80_0000
        }),
{
    let (before, held, at) = decoded(shape, bytes, states, count)->0;
    let (after, next, end) = decoded(shape, bytes, states, count + 1)->0;
    let which = (count % states) as int;
    let slots = pow2(shape.log as nat);
    let slot = held[which] % slots;
    lemma_held(shape, bytes, states, count);
    lemma_pow2_pos(shape.log as nat);
    vstd::arithmetic::div_mod::lemma_mod_bound(held[which] as int, slots as int);
    let holder = lemma_every_slot_held(shape.freq, slot);
    assert(shape.holds(holder as u16, slot));
    assert(shape.holds(shape.symbol_of(slot), slot));
    lemma_refilled(bytes, shape.unfold(held[which]), at);
}

/// The states of a decode are as many as it has, and it stands inside the payload.
proof fn lemma_held(shape: TableShape, bytes: Seq<u8>, states: nat, count: nat)
    requires
        states > 0,
    ensures
        decoded(shape, bytes, states, count) matches Some((_, held, at)) ==> held.len() == states
            && at <= bytes.len(),
    decreases count,
{
    if count > 0 {
        lemma_held(shape, bytes, states, (count - 1) as nat);
        if let Some((symbols, held, at)) = decoded(shape, bytes, states, (count - 1) as nat) {
            let which = ((count - 1) % states as int) as int;
            vstd::arithmetic::div_mod::lemma_mod_bound(count - 1, states as int);
            lemma_refilled(bytes, shape.unfold(held[which]), at);
        }
    }
}

/// A payload that was written ends where every state is 2 to the 23 again and no byte is left.
pub proof fn law_a_payload_ends_where_it_began(
    shape: TableShape,
    symbols: Seq<u16>,
    states: nat,
)
    requires
        shape.valid(),
        shape.carries_all(symbols),
        admitted_states(states),
    ensures
        ({
            let bytes = payload(shape, symbols, states);
            let (read, held, at) = decoded(shape, bytes, states, symbols.len())->0;
            &&& decoded(shape, bytes, states, symbols.len()) is Some
            &&& read == symbols
            &&& held == Seq::new(states, |i: int| 0x80_0000nat)
            &&& at == bytes.len()
        }),
{
    lemma_payload_steps(shape, symbols, states, symbols.len());
    assert(symbols.take(symbols.len() as int) =~= symbols);
    let bytes = payload(shape, symbols, states);
    let (read, held, at) = decoded(shape, bytes, states, symbols.len())->0;
    assert(held =~= Seq::new(states, |i: int| 0x80_0000nat));
}

} // verus!
