//! Owns what a slide promises of the searches after it: a position is found one window lower, and
//! what falls out of the window is forgotten.

use vstd::prelude::*;

use super::{
    agreement, best_of, law_search_stays_within_its_depth, lemma_hash_in_table,
    lemma_insert_keeps_the_tables, lemma_walk, proposal, reachable, single_insert, single_search,
    slid, slot_of, word_at, ChainState, Found, EMPTY, HEAD_ENTRIES, LINK_ENTRIES,
};
use crate::sequence::{MAX_MATCH_LENGTH, MIN_MATCH, WINDOW};
use crate::simd::{agrees, law_shared_is_the_longest_prefix, lemma_shared_unique, reach, shared};

verus! {

/// The positions at or past one window, in order.
pub open spec fn kept(positions: Seq<nat>) -> Seq<nat>
    decreases positions.len(),
{
    if positions.len() == 0 {
        Seq::empty()
    } else {
        (if positions[0] >= WINDOW {
            seq![positions[0]]
        } else {
            Seq::empty()
        }) + kept(positions.drop_first())
    }
}

/// Positions each less one window.
pub open spec fn lowered(positions: Seq<nat>) -> Seq<nat> {
    positions.map_values(|position: nat| (position - WINDOW) as nat)
}

/// Positions below one window are all dropped.
proof fn lemma_kept_none(positions: Seq<nat>)
    requires
        forall|i: int| 0 <= i < positions.len() ==> #[trigger] positions[i] < WINDOW,
    ensures
        kept(positions) == Seq::<nat>::empty(),
    decreases positions.len(),
{
    if positions.len() > 0 {
        let rest = positions.drop_first();
        assert forall|i: int| 0 <= i < rest.len() implies #[trigger] rest[i] < WINDOW by {
            assert(rest[i] == positions[i + 1]);
        }
        lemma_kept_none(rest);
        assert(positions[0] < WINDOW);
    }
}

/// Positions at or past one window are all kept.
proof fn lemma_kept_all(positions: Seq<nat>)
    requires
        forall|i: int| 0 <= i < positions.len() ==> #[trigger] positions[i] >= WINDOW,
    ensures
        kept(positions) == positions,
    decreases positions.len(),
{
    if positions.len() > 0 {
        let rest = positions.drop_first();
        assert forall|i: int| 0 <= i < rest.len() implies #[trigger] rest[i] >= WINDOW by {
            assert(rest[i] == positions[i + 1]);
        }
        lemma_kept_all(rest);
        assert(positions[0] >= WINDOW);
        assert(seq![positions[0]] + rest =~= positions);
    }
}

/// What is kept stands at or past one window.
proof fn lemma_kept_past(positions: Seq<nat>)
    ensures
        forall|i: int| 0 <= i < kept(positions).len() ==> #[trigger] kept(positions)[i] >= WINDOW,
    decreases positions.len(),
{
    if positions.len() > 0 {
        let rest = kept(positions.drop_first());
        lemma_kept_past(positions.drop_first());
        assert forall|i: int| 0 <= i < kept(positions).len() implies #[trigger] kept(positions)[i]
            >= WINDOW by {
            if positions[0] >= WINDOW {
                if i > 0 {
                    assert(kept(positions)[i] == rest[i - 1]);
                }
            } else {
                assert(kept(positions)[i] == rest[i]);
            }
        }
    }
}

/// A walk after a slide is the walk before it one window higher, without the positions that fell
/// out.
proof fn lemma_walk_slides(state: ChainState, at: nat, entry: u32, budget: nat)
    requires
        state.valid(),
    ensures
        state.slide().walk(at, slid(entry), budget) == lowered(
            kept(state.walk(at + WINDOW as nat, entry, budget)),
        ),
    decreases budget,
{
    let after = state.slide();
    let high = at + WINDOW as nat;
    let walked = state.walk(high, entry, budget);
    if budget == 0 || !reachable(entry, high) {
        assert(kept(walked) =~= Seq::empty());
        assert(lowered(kept(walked)) =~= Seq::empty());
    } else if entry < WINDOW {
        lemma_walk(state, high, entry, budget);
        lemma_kept_none(walked);
        assert(lowered(kept(walked)) =~= Seq::empty());
    } else {
        let index = (entry as nat % LINK_ENTRIES as nat) as int;
        let next = state.link[index];
        let low = slid(entry);
        assert(low as nat % LINK_ENTRIES as nat == index);
        assert(after.link[index] == slid(next));
        lemma_walk_slides(state, at, next, (budget - 1) as nat);
        let rest = if next >= entry {
            Seq::empty()
        } else {
            state.walk(high, next, (budget - 1) as nat)
        };
        assert(walked == seq![entry as nat] + rest);
        assert(walked.drop_first() =~= rest);
        assert(kept(walked) == seq![entry as nat] + kept(rest));
        assert(lowered(kept(walked)) =~= seq![low as nat] + lowered(kept(rest)));
        if next >= entry {
            assert(lowered(kept(rest)) =~= Seq::empty());
        } else if next < WINDOW {
            assert(after.walk(at, EMPTY, (budget - 1) as nat) =~= Seq::empty());
        }
    }
}

/// The slot of the bytes at a position does not move with the buffer.
proof fn lemma_slot_slides(data: Seq<u8>, at: nat)
    requires
        WINDOW <= data.len(),
        at + WINDOW <= u32::MAX,
    ensures
        slot_of(data.skip(WINDOW as int), at) == slot_of(data, at + WINDOW as nat),
{
    if at + 4 <= data.skip(WINDOW as int).len() {
        assert(word_at(data.skip(WINDOW as int), at as int) == word_at(data, at + WINDOW));
    }
}

/// What a position proposes does not move with the buffer.
proof fn lemma_proposal_slides(data: Seq<u8>, position: nat, at: nat)
    requires
        WINDOW <= position,
        WINDOW <= data.len(),
    ensures
        proposal(data.skip(WINDOW as int), (position - WINDOW) as nat, at) == proposal(
            data,
            position,
            at + WINDOW as nat,
        ),
{
    let low = data.skip(WINDOW as int);
    let high = at + WINDOW as nat;
    let limit = reach(data.len(), position, high, MAX_MATCH_LENGTH as nat);
    assert(limit == reach(
        low.len(),
        (position - WINDOW) as nat,
        at,
        MAX_MATCH_LENGTH as nat,
    ));
    let count = shared(data, position as int, high as int, limit);
    law_shared_is_the_longest_prefix(data, position as int, high as int, limit);
    assert forall|i: int| 0 <= i < count implies #[trigger] low[position - WINDOW + i] == low[at
        + i] by {
        assert(data[position + i] == data[high + i]);
    }
    if count < limit {
        assert(low[position - WINDOW + count] == data[position as int + count]);
        assert(low[at as int + count] == data[high as int + count]);
    }
    lemma_shared_unique(low, position - WINDOW, at as int, limit, count);
}

/// The best of a set of positions does not move with the buffer.
proof fn lemma_best_slides(data: Seq<u8>, at: nat, positions: Seq<nat>)
    requires
        WINDOW <= data.len(),
        forall|i: int| 0 <= i < positions.len() ==> #[trigger] positions[i] >= WINDOW,
    ensures
        best_of(data.skip(WINDOW as int), at, lowered(positions)) == best_of(
            data,
            at + WINDOW as nat,
            positions,
        ),
    decreases positions.len(),
{
    if positions.len() > 0 {
        let less = positions.drop_last();
        assert forall|i: int| 0 <= i < less.len() implies #[trigger] less[i] >= WINDOW by {
            assert(less[i] == positions[i]);
        }
        lemma_best_slides(data, at, less);
        assert(lowered(positions).drop_last() =~= lowered(less));
        assert(positions[positions.len() - 1] >= WINDOW);
        lemma_proposal_slides(data, positions.last(), at);
    }
}

/// A slide moves every position by one window: a search after it, over the data past the window,
/// compares the positions the search one window higher compared, each less one window, without
/// those that fell out, and reports the best of them. Where none fell out it reports what the
/// search one window higher reported.
pub proof fn law_a_slide_moves_every_position_by_one_window(
    state: ChainState,
    depth: nat,
    data: Seq<u8>,
    at: nat,
)
    requires
        state.valid(),
        WINDOW <= data.len(),
        at + WINDOW <= u32::MAX,
    ensures
        ({
            let low = data.skip(WINDOW as int);
            let high = at + WINDOW as nat;
            let before = state.candidates(depth, data, high);
            &&& state.slide().candidates(depth, low, at) == lowered(kept(before))
            &&& state.slide().search(depth, low, at) == best_of(data, high, kept(before))
            &&& (forall|i: int| 0 <= i < before.len() ==> #[trigger] before[i] >= WINDOW)
                ==> state.slide().found(depth, low, at) == state.found(depth, data, high)
            &&& at >= WINDOW ==> state.slide().found(depth, low, at) == state.found(
                depth,
                data,
                high,
            )
        }),
{
    let high = at + WINDOW as nat;
    let before = state.candidates(depth, data, high);
    lemma_slot_slides(data, at);
    match slot_of(data, high) {
        Some(slot) => {
            lemma_slot_bound(data, high);
            assert(state.slide().head[slot as int] == slid(state.head[slot as int]));
            lemma_walk_slides(state, at, state.head[slot as int], depth);
        },
        None => {
            assert(lowered(kept(before)) =~= Seq::empty());
        },
    }
    lemma_kept_past(before);
    lemma_best_slides(data, at, kept(before));
    law_search_stays_within_its_depth(state, depth, data, high);
    if at >= WINDOW {
        assert forall|i: int| 0 <= i < before.len() implies #[trigger] before[i] >= WINDOW by {
            assert(high <= before[i] + WINDOW);
        }
    }
    if forall|i: int| 0 <= i < before.len() ==> #[trigger] before[i] >= WINDOW {
        lemma_kept_all(before);
    }
}

/// A slot is one of the head table's.
proof fn lemma_slot_bound(data: Seq<u8>, at: nat)
    ensures
        slot_of(data, at) matches Some(slot) ==> slot < HEAD_ENTRIES,
{
    if let Some(slot) = slot_of(data, at) {
        lemma_hash_in_table(word_at(data, at as int));
    }
}

/// Inserting a position the window keeps and sliding is sliding and inserting it one window
/// lower.
pub proof fn law_a_slide_commutes_with_an_insert(state: ChainState, data: Seq<u8>, at: nat)
    requires
        state.valid(),
        WINDOW <= data.len(),
        at + WINDOW < EMPTY,
    ensures
        state.insert(data, at + WINDOW as nat).slide() == state.slide().insert(
            data.skip(WINDOW as int),
            at,
        ),
{
    let high = at + WINDOW as nat;
    lemma_slot_slides(data, at);
    if let Some(slot) = slot_of(data, high) {
        lemma_slot_bound(data, high);
        assert(high % LINK_ENTRIES as nat == at % LINK_ENTRIES as nat);
        let one = state.insert(data, high).slide();
        let other = state.slide().insert(data.skip(WINDOW as int), at);
        assert(one.head =~= other.head);
        assert(one.link =~= other.link);
    }
}

/// One position through an insert and a slide: a search after the slide compares it one window
/// lower where the window still holds it, it is behind the search and their bytes share a slot,
/// and reports what it proposes; otherwise it is forgotten and nothing is compared. Bytes that
/// agree over a match's length are reported as one at least that long.
pub proof fn law_a_slid_position_is_found_one_window_lower(
    data: Seq<u8>,
    position: nat,
    depth: nat,
    at: nat,
)
    requires
        WINDOW <= data.len(),
        at + WINDOW <= u32::MAX,
        0 < depth,
    ensures
        ({
            let high = at + WINDOW as nat;
            let found = ChainState::fresh().insert(data, position).slide().found(
                depth,
                data.skip(WINDOW as int),
                at,
            );
            let met = position >= WINDOW && slot_of(data, position) is Some && slot_of(
                data,
                position,
            ) == slot_of(data, high) && reachable(position as u32, high);
            &&& met ==> found == (Found { matched: proposal(data, position, high), candidates: 1 })
            &&& !met ==> found == (Found { matched: None, candidates: 0 })
            &&& forall|count: nat|
                WINDOW <= position < high <= position + WINDOW && MIN_MATCH <= count
                    <= MAX_MATCH_LENGTH && high + count <= data.len() && #[trigger] agrees(
                    data,
                    position as int,
                    high as int,
                    count as int,
                ) ==> found.matched is Some && (found.matched->0).length >= count && (
                found.matched->0).distance == high - position
        }),
{
    let high = at + WINDOW as nat;
    let low = data.skip(WINDOW as int);
    let state = ChainState::fresh().insert(data, position);
    let before = state.candidates(depth, data, high);
    let found = state.slide().found(depth, low, at);
    lemma_insert_keeps_the_tables(ChainState::fresh(), data, position);
    law_a_slide_moves_every_position_by_one_window(state, depth, data, at);
    lemma_slot_bound(data, high);
    lemma_slot_bound(data, position);
    let met = position >= WINDOW && slot_of(data, position) is Some && slot_of(data, position)
        == slot_of(data, high) && reachable(position as u32, high);
    lemma_one_walked(data, position, depth, high);
    if before.len() == 1 {
        assert(before =~= seq![position]);
        assert(before.drop_first() =~= Seq::empty());
        if position >= WINDOW {
            assert(kept(before) =~= seq![position]);
            assert(kept(before).drop_last() =~= Seq::empty());
            reveal_with_fuel(best_of, 2);
        } else {
            assert(kept(before) =~= Seq::empty());
        }
    } else {
        assert(kept(before) =~= Seq::empty());
    }
    assert forall|count: nat|
        WINDOW <= position < high <= position + WINDOW && MIN_MATCH <= count <= MAX_MATCH_LENGTH
            && high + count <= data.len() && #[trigger] agrees(
            data,
            position as int,
            high as int,
            count as int,
        ) implies found.matched is Some && (found.matched->0).length >= count && (
    found.matched->0).distance == high - position by {
        lemma_agreeing_words(data, position, high, count);
    }
}

/// A chain of one position compares it, or nothing.
proof fn lemma_one_walked(data: Seq<u8>, position: nat, depth: nat, at: nat)
    requires
        0 < depth,
    ensures
        ({
            let before = ChainState::fresh().insert(data, position).candidates(depth, data, at);
            let met = slot_of(data, position) is Some && slot_of(data, position) == slot_of(data, at)
                && reachable(position as u32, at);
            &&& met ==> before == seq![position]
            &&& !met ==> before == Seq::<nat>::empty()
        }),
{
    let state = ChainState::fresh().insert(data, position);
    lemma_slot_bound(data, at);
    lemma_slot_bound(data, position);
    if let Some(slot) = slot_of(data, at) {
        let entry = state.head[slot as int];
        if slot_of(data, position) == Some(slot) {
            assert(entry == position as u32);
            let index = (position % LINK_ENTRIES as nat) as int;
            assert(state.link[index] == EMPTY);
            if reachable(entry, at) {
                assert(state.walk(at, entry, depth) =~= seq![position]);
            }
        } else {
            assert(entry == EMPTY);
        }
    }
}

/// Positions whose bytes agree share a slot and propose a match at least as long.
proof fn lemma_agreeing_words(data: Seq<u8>, position: nat, at: nat, count: nat)
    requires
        position < at <= u32::MAX,
        MIN_MATCH <= count <= MAX_MATCH_LENGTH,
        at + count <= data.len(),
        agrees(data, position as int, at as int, count as int),
    ensures
        slot_of(data, position) is Some,
        slot_of(data, position) == slot_of(data, at),
        agreement(data, position, at) >= count,
        agreement(data, position, at) <= MAX_MATCH_LENGTH,
{
    assert(data[position as int + 0] == data[at as int + 0]);
    assert(data[position as int + 1] == data[at as int + 1]);
    assert(data[position as int + 2] == data[at as int + 2]);
    assert(data[position as int + 3] == data[at as int + 3]);
    let limit = reach(data.len(), position, at, MAX_MATCH_LENGTH as nat);
    let common = shared(data, position as int, at as int, limit);
    law_shared_is_the_longest_prefix(data, position as int, at as int, limit);
    if common < count {
        assert(data[position as int + common] == data[at as int + common]);
    }
}

/// A slide moves every position of the single table by one window: a search after it reports
/// what the search one window higher reported, or nothing where the position it compared fell
/// out.
pub proof fn law_a_slide_moves_the_single_table_by_one_window(
    entries: Seq<u32>,
    data: Seq<u8>,
    at: nat,
)
    requires
        entries.len() == HEAD_ENTRIES,
        WINDOW <= data.len(),
        at + WINDOW <= u32::MAX,
    ensures
        ({
            let after = entries.map_values(|entry: u32| slid(entry));
            let low = data.skip(WINDOW as int);
            let high = at + WINDOW as nat;
            &&& single_search(after, low, at) == match slot_of(data, high) {
                Some(slot) => if entries[slot as int] >= WINDOW {
                    single_search(entries, data, high)
                } else {
                    None
                },
                None => None,
            }
            &&& high < EMPTY ==> single_insert(entries, data, high).map_values(
                |entry: u32| slid(entry),
            ) == single_insert(after, low, at)
        }),
{
    let high = at + WINDOW as nat;
    let after = entries.map_values(|entry: u32| slid(entry));
    lemma_slot_slides(data, at);
    lemma_slot_bound(data, high);
    if let Some(slot) = slot_of(data, high) {
        let entry = entries[slot as int];
        if entry >= WINDOW && entry != EMPTY {
            lemma_proposal_slides(data, entry as nat, at);
        }
        assert(after[slot as int] == slid(entry));
    }
    if high < EMPTY {
        assert(single_insert(entries, data, high).map_values(|entry: u32| slid(entry))
            =~= single_insert(after, data.skip(WINDOW as int), at));
    }
}

} // verus!
