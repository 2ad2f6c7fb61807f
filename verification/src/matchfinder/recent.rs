//! Owns what a search promises in terms of the data: it compares the most recent positions that
//! share a hash, stops at its depth or where they end, and reports the longest repeat of them.

use vstd::prelude::*;

use super::{
    hash_of, lemma_best_of, lemma_hash_in_table, lemma_insert_keeps_the_tables, lemma_walk,
    proposal, reachable, single_insert, single_insert_range, single_search, slot_of, word_at,
    ChainState,
};
use crate::sequence::Match;
use crate::simd::{law_shared_is_the_longest_prefix, reach};

verus! {

/// Whether the bytes at two positions repeat for exactly `count`: they are equal that far, and
/// `count` is 256, ends the data, or meets a byte that differs.
pub open spec fn repeats_for(data: Seq<u8>, earlier: int, later: int, count: int) -> bool {
    &&& 0 <= count <= 256
    &&& later + count <= data.len()
    &&& forall|i: int| 0 <= i < count ==> data[earlier + i] == #[trigger] data[later + i]
    &&& count == 256 || later + count == data.len() || data[earlier + count] != data[later + count]
}

/// Whether an earlier position is one a match at a later one may name: behind it, and at most
/// 65 536 bytes back.
pub open spec fn within_window(earlier: int, later: int) -> bool {
    earlier < later <= earlier + 65_536
}

/// What one position reports of an earlier one: the whole of their repeat, where it is at least
/// four bytes and the window holds it.
pub open spec fn reports(data: Seq<u8>, earlier: int, later: int, found: Option<Match>) -> bool {
    match found {
        Some(found) => {
            &&& within_window(earlier, later)
            &&& found.distance == later - earlier
            &&& found.length >= 4
            &&& repeats_for(data, earlier, later, found.length as int)
        },
        None => !within_window(earlier, later) || exists|count: int|
            count < 4 && repeats_for(data, earlier, later, count),
    }
}

/// A position proposes the whole of its repeat.
proof fn lemma_proposal_reports(data: Seq<u8>, earlier: u32, later: nat)
    requires
        within_window(earlier as int, later as int),
        later <= data.len(),
    ensures
        reports(data, earlier as int, later as int, proposal(data, earlier as nat, later)),
{
    let limit = reach(data.len(), earlier as nat, later, 256);
    let count = super::agreement(data, earlier as nat, later) as int;
    law_shared_is_the_longest_prefix(data, earlier as int, later as int, limit);
    assert forall|i: int| 0 <= i < count implies data[earlier + i] == #[trigger] data[later + i] by {
    }
    assert(repeats_for(data, earlier as int, later as int, count));
}

/// Two positions with the same four bytes share a slot, and only a position with four bytes has
/// one. The slot is the top 14 bits of the low 64 of a product with the four bytes as a number.
pub proof fn law_equal_bytes_share_a_slot(data: Seq<u8>, one: nat, other: nat)
    requires
        one <= u32::MAX,
        other <= u32::MAX,
    ensures
        slot_of(data, one) is Some <==> one + 4 <= data.len(),
        one + 4 <= data.len() && other + 4 <= data.len() && (forall|i: int|
            0 <= i < 4 ==> data[one + i] == #[trigger] data[other + i]) ==> slot_of(data, one)
            == slot_of(data, other),
        slot_of(data, one) matches Some(slot) ==> {
            let product = (data[one as int] + 0x100 * data[one as int + 1] + 0x1_0000 * data[one as int + 2]
                + 0x100_0000 * data[one as int + 3]) * 0x9E37_79B9_7F4A_7C15;
            slot * 0x4_0000_0000_0000 <= product % 0x1_0000_0000_0000_0000 < (slot + 1)
                * 0x4_0000_0000_0000
        },
{
    reveal(hash_of);
    if one + 4 <= data.len() && other + 4 <= data.len() && (forall|i: int|
        0 <= i < 4 ==> data[one + i] == #[trigger] data[other + i]) {
        assert(data[one as int + 0] == data[other as int + 0]);
        assert(data[one as int + 1] == data[other as int + 1]);
        assert(data[one as int + 2] == data[other as int + 2]);
        assert(data[one as int + 3] == data[other as int + 3]);
        assert(word_at(data, one as int) == word_at(data, other as int));
    }
}

/// Inserting a position puts it at the head of its slot and links it to what the slot held, and
/// moves nothing else. A position without four bytes is not inserted.
pub proof fn law_an_insert_links_in_front(state: ChainState, data: Seq<u8>, at: nat)
    requires
        state.valid(),
        at < u32::MAX,
    ensures
        ({
            let after = state.insert(data, at);
            &&& at + 4 > data.len() ==> after == state
            &&& slot_of(data, at) matches Some(slot) ==> {
                &&& after.head[slot as int] == at
                &&& after.link[at as int % 65_536] == state.head[slot as int]
                &&& forall|s: int|
                    0 <= s < 16_384 && s != slot ==> #[trigger] after.head[s] == state.head[s]
                &&& forall|p: int|
                    0 <= p < 65_536 && p != at as int % 65_536 ==> #[trigger] after.link[p]
                        == state.link[p]
            }
        }),
{
    lemma_hash_in_table(word_at(data, at as int));
}

/// A search follows the links: it starts at the head of its slot, each position it compares is
/// the link of the one before it, and each is within the window and behind the one before. It
/// ends short of its depth only where the next link is empty, does not go backwards, or is past
/// the window.
pub proof fn law_search_ends_at_its_depth_or_where_the_links_end(
    state: ChainState,
    depth: nat,
    data: Seq<u8>,
    at: nat,
)
    requires
        state.valid(),
    ensures
        ({
            let compared = state.candidates(depth, data, at);
            let open = |entry: u32| entry != u32::MAX && within_window(entry as int, at as int);
            &&& compared.len() <= depth
            &&& depth <= u32::MAX ==> state.found(depth, data, at).candidates == compared.len()
            &&& state.found(depth, data, at).matched == state.search(depth, data, at)
            &&& slot_of(data, at) is None ==> compared.len() == 0
            &&& slot_of(data, at) matches Some(slot) ==> {
                &&& compared.len() > 0 ==> compared[0] == state.head[slot as int]
                &&& compared.len() == 0 && depth > 0 ==> !open(state.head[slot as int])
                &&& forall|i: int|
                    0 <= i < compared.len() ==> within_window(#[trigger] compared[i] as int, at as int)
                &&& forall|i: int|
                    0 < i < compared.len() ==> #[trigger] compared[i] < compared[i - 1]
                        && compared[i] == state.link[compared[i - 1] as int % 65_536]
                &&& 0 < compared.len() < depth ==> {
                    let next = state.link[compared.last() as int % 65_536];
                    next >= compared.last() || !open(next)
                }
            }
        }),
{
    if let Some(slot) = slot_of(data, at) {
        lemma_hash_in_table(word_at(data, at as int));
        lemma_walk(state, at, state.head[slot as int], depth);
        lemma_walk_follows(state, at, state.head[slot as int], depth);
    }
}

/// A walk follows the links from its entry.
proof fn lemma_walk_follows(state: ChainState, at: nat, entry: u32, budget: nat)
    requires
        state.valid(),
    ensures
        ({
            let walked = state.walk(at, entry, budget);
            &&& walked.len() > 0 ==> walked[0] == entry
            &&& walked.len() == 0 && budget > 0 ==> !reachable(entry, at)
            &&& forall|i: int|
                0 < i < walked.len() ==> #[trigger] walked[i] == state.link[walked[i - 1] as int
                    % 65_536]
            &&& 0 < walked.len() < budget ==> {
                let next = state.link[walked.last() as int % 65_536];
                next >= walked.last() || !reachable(next, at)
            }
        }),
    decreases budget,
{
    if budget > 0 && reachable(entry, at) {
        let next = state.link[(entry as nat % 65_536) as int];
        let walked = state.walk(at, entry, budget);
        if next < entry {
            let rest = state.walk(at, next, (budget - 1) as nat);
            lemma_walk_follows(state, at, next, (budget - 1) as nat);
            assert(walked == seq![entry as nat] + rest);
            assert forall|i: int| 0 < i < walked.len() implies #[trigger] walked[i]
                == state.link[walked[i - 1] as int % 65_536] by {
                assert(walked[i] == rest[i - 1]);
                if i > 1 {
                    assert(walked[i - 1] == rest[i - 2]);
                }
            }
            if rest.len() > 0 {
                assert(walked.last() == rest.last());
            }
        } else {
            assert(walked =~= seq![entry as nat]);
        }
    }
}

/// The match a search reports is one a position it compared reports, and no position it compared
/// repeats longer, or as long from nearer. It reports none only where every one repeats for less
/// than four bytes.
pub proof fn law_search_reports_the_longest_repeat(
    state: ChainState,
    depth: nat,
    data: Seq<u8>,
    at: nat,
)
    requires
        state.valid(),
    ensures
        ({
            let compared = state.candidates(depth, data, at);
            let found = state.search(depth, data, at);
            &&& found matches Some(best) ==> {
                &&& exists|i: int|
                    0 <= i < compared.len() && reports(
                        data,
                        #[trigger] compared[i] as int,
                        at as int,
                        found,
                    )
                &&& best.length <= 256 && at + best.length <= data.len()
            }
            &&& forall|i: int, count: int|
                0 <= i < compared.len() && count >= 4 && #[trigger] repeats_for(
                    data,
                    compared[i] as int,
                    at as int,
                    count,
                ) ==> {
                    &&& found matches Some(best)
                    &&& best.length > count || (best.length == count && best.distance <= at
                        - compared[i])
                }
        }),
{
    let compared = state.candidates(depth, data, at);
    let found = state.search(depth, data, at);
    super::lemma_candidates(state, depth, data, at);
    lemma_best_of(data, at, compared);
    if let Some(best) = found {
        let i = choose|i: int|
            0 <= i < compared.len() && #[trigger] proposal(data, compared[i], at) == Some(best);
        assert(compared[i] <= u32::MAX && reachable(compared[i] as u32, at));
        lemma_proposal_reports(data, compared[i] as u32, at);
        assert(reports(data, compared[i] as int, at as int, found));
    }
    assert forall|i: int, count: int|
        0 <= i < compared.len() && count >= 4 && #[trigger] repeats_for(
            data,
            compared[i] as int,
            at as int,
            count,
        ) implies {
        &&& found matches Some(best)
        &&& best.length > count || (best.length == count && best.distance <= at - compared[i])
    } by {
        assert(compared[i] <= u32::MAX && reachable(compared[i] as u32, at));
        lemma_proposal_reports(data, compared[i] as u32, at);
        let told = proposal(data, compared[i], at);
        lemma_one_repeat(data, compared[i] as int, at as int, count);
        assert(told is Some && (told->0).length == count);
    }
}

/// Two positions repeat for one length.
proof fn lemma_one_repeat(data: Seq<u8>, earlier: int, later: int, count: int)
    requires
        0 <= earlier < later,
        repeats_for(data, earlier, later, count),
    ensures
        forall|other: int| #[trigger]
            repeats_for(data, earlier, later, other) ==> other == count,
{
    assert forall|other: int| #[trigger] repeats_for(data, earlier, later, other) implies other
        == count by {
        if other < count {
            assert(data[earlier + other] == data[later + other]);
        }
        if count < other {
            assert(data[earlier + count] == data[later + count]);
        }
    }
}

/// A chain given a list of positions, in order.
pub open spec fn entered_all(chain: ChainState, data: Seq<u8>, entered: Seq<nat>) -> ChainState
    decreases entered.len(),
{
    if entered.len() == 0 {
        chain
    } else {
        entered_all(chain, data, entered.drop_last()).insert(data, entered.last())
    }
}

/// A single table given a list of positions, in order.
pub open spec fn entered_single(table: Seq<u32>, data: Seq<u8>, entered: Seq<nat>) -> Seq<u32>
    decreases entered.len(),
{
    if entered.len() == 0 {
        table
    } else {
        single_insert(entered_single(table, data, entered.drop_last()), data, entered.last())
    }
}

/// Whether positions go forward, and all are before `at`.
pub open spec fn ascends(entered: Seq<nat>, at: nat) -> bool {
    &&& forall|i: int, j: int|
        0 <= i < j < entered.len() ==> #[trigger] entered[i] < #[trigger] entered[j]
    &&& forall|i: int| 0 <= i < entered.len() ==> #[trigger] entered[i] < at
}

/// The entry that names the last of the first `count` positions with a slot.
spec fn latest(data: Seq<u8>, entered: Seq<nat>, count: nat, slot: nat) -> u32
    decreases count,
{
    if count == 0 {
        u32::MAX
    } else if slot_of(data, entered[count - 1]) == Some(slot) {
        entered[count - 1] as u32
    } else {
        latest(data, entered, (count - 1) as nat, slot)
    }
}

/// The latest of a slot is one of the positions with it, and none after it has it.
proof fn lemma_latest(data: Seq<u8>, entered: Seq<nat>, count: nat, slot: nat, at: nat) -> (index:
    int)
    requires
        count <= entered.len(),
        ascends(entered, at),
        at <= u32::MAX,
    ensures
        latest(data, entered, count, slot) == u32::MAX ==> forall|i: int|
            0 <= i < count ==> slot_of(data, #[trigger] entered[i]) != Some(slot),
        latest(data, entered, count, slot) != u32::MAX ==> {
            &&& 0 <= index < count
            &&& entered[index] == latest(data, entered, count, slot)
            &&& slot_of(data, entered[index]) == Some(slot)
            &&& forall|i: int|
                index < i < count ==> slot_of(data, #[trigger] entered[i]) != Some(slot)
        },
    decreases count,
{
    if count == 0 {
        0
    } else if slot_of(data, entered[count - 1]) == Some(slot) {
        assert(entered[count - 1] < at);
        count - 1
    } else {
        lemma_latest(data, entered, (count - 1) as nat, slot, at)
    }
}

/// The latest of the first positions depends on them alone.
proof fn lemma_latest_prefix(data: Seq<u8>, entered: Seq<nat>, more: Seq<nat>, count: nat, slot: nat)
    requires
        count <= entered.len() <= more.len(),
        entered == more.take(entered.len() as int),
    ensures
        latest(data, entered, count, slot) == latest(data, more, count, slot),
    decreases count,
{
    if count > 0 {
        assert(entered[count - 1] == more[count - 1]);
        lemma_latest_prefix(data, entered, more, (count - 1) as nat, slot);
    }
}

/// What a fresh chain holds after positions are entered: each slot's head is the latest with it,
/// and the link of each position the window still holds is the latest with its slot before it.
proof fn lemma_entered(data: Seq<u8>, entered: Seq<nat>, at: nat)
    requires
        ascends(entered, at),
        at <= u32::MAX,
    ensures
        ({
            let chain = entered_all(ChainState::fresh(), data, entered);
            &&& chain.valid()
            &&& forall|slot: nat|
                slot < 16_384 ==> #[trigger] chain.head[slot as int] == latest(
                    data,
                    entered,
                    entered.len(),
                    slot,
                )
            &&& forall|i: int, slot: nat|
                0 <= i < entered.len() && entered.last() < entered[i] + 65_536 && #[trigger] slot_of(
                    data,
                    entered[i],
                ) == Some(slot) ==> chain.link[entered[i] as int % 65_536] == #[trigger] latest(
                    data,
                    entered,
                    i as nat,
                    slot,
                )
        }),
    decreases entered.len(),
{
    if entered.len() > 0 {
        let less = entered.drop_last();
        let new = entered.last();
        let count = less.len();
        assert(ascends(less, at)) by {
            assert forall|i: int, j: int| 0 <= i < j < less.len() implies #[trigger] less[i]
                < #[trigger] less[j] by {
                assert(entered[i] < entered[j]);
            }
            assert forall|i: int| 0 <= i < less.len() implies #[trigger] less[i] < at by {
                assert(entered[i] < at);
            }
        }
        lemma_entered(data, less, at);
        let before = entered_all(ChainState::fresh(), data, less);
        let chain = entered_all(ChainState::fresh(), data, entered);
        assert(new == entered[count as int] && new < at);
        lemma_insert_keeps_the_tables(before, data, new);
        lemma_hash_in_table(word_at(data, new as int));
        assert(less =~= entered.take(count as int));
        assert forall|slot: nat| slot < 16_384 implies #[trigger] chain.head[slot as int] == latest(
            data,
            entered,
            entered.len(),
            slot,
        ) by {
            lemma_latest_prefix(data, less, entered, count, slot);
            assert(before.head[slot as int] == latest(data, less, count, slot));
        }
        assert forall|i: int, slot: nat|
            0 <= i < entered.len() && entered.last() < entered[i] + 65_536 && #[trigger] slot_of(
                data,
                entered[i],
            ) == Some(slot) implies chain.link[entered[i] as int % 65_536] == #[trigger] latest(
            data,
            entered,
            i as nat,
            slot,
        ) by {
            lemma_latest_prefix(data, less, entered, i as nat, slot);
            if i == count {
                lemma_hash_in_table(word_at(data, new as int));
                assert(before.head[slot as int] == latest(data, less, count, slot));
            } else {
                assert(less[i] == entered[i]);
                assert(less[count - 1] == entered[count - 1]);
                assert(entered[count - 1] < entered[count as int]);
                assert(entered[i] < entered[count as int]);
                assert(slot_of(data, less[i]) == Some(slot));
                assert(before.link[less[i] as int % 65_536] == latest(data, less, i as nat, slot));
                assert(entered[i] as int % 65_536 != new as int % 65_536);
            }
        }
    }
}

/// A walk from the latest of the first positions compares the ones before it with its slot.
proof fn lemma_walk_is_recent(
    data: Seq<u8>,
    entered: Seq<nat>,
    at: nat,
    slot: nat,
    count: nat,
    budget: nat,
)
    requires
        ascends(entered, at),
        at < u32::MAX,
        slot < 16_384,
        count <= entered.len(),
    ensures
        ({
            let chain = entered_all(ChainState::fresh(), data, entered);
            let walked = chain.walk(at, latest(data, entered, count, slot), budget);
            &&& forall|i: int|
                0 <= i < walked.len() ==> entered.contains(#[trigger] walked[i]) && slot_of(
                    data,
                    walked[i],
                ) == Some(slot)
            &&& forall|k: int|
                0 <= k < count && slot_of(data, #[trigger] entered[k]) == Some(slot)
                    && within_window(entered[k] as int, at as int) ==> walked.contains(entered[k])
                    || (walked.len() == budget && forall|i: int|
                    0 <= i < walked.len() ==> #[trigger] walked[i] > entered[k])
        }),
    decreases budget,
{
    let chain = entered_all(ChainState::fresh(), data, entered);
    let entry = latest(data, entered, count, slot);
    let walked = chain.walk(at, entry, budget);
    let index = lemma_latest(data, entered, count, slot, at);
    lemma_entered(data, entered, at);
    lemma_walk(chain, at, entry, budget);
    if budget == 0 {
    } else if entry == u32::MAX {
    } else if !reachable(entry, at) {
        assert forall|k: int|
            0 <= k < count && slot_of(data, #[trigger] entered[k]) == Some(slot)
                && within_window(entered[k] as int, at as int) implies walked.contains(entered[k])
            || (walked.len() == budget && forall|i: int|
            0 <= i < walked.len() ==> #[trigger] walked[i] > entered[k]) by {
            if k < index {
                assert(entered[k] < entered[index]);
            }
        }
    } else {
        let next = chain.link[(entry as nat % 65_536) as int];
        let rest = if next >= entry {
            Seq::empty()
        } else {
            chain.walk(at, next, (budget - 1) as nat)
        };
        assert(walked == seq![entry as nat] + rest);
        assert(walked[0] == entered[index]);
        assert(entered.last() < at) by {
            assert(entered[entered.len() - 1] < at);
        }
        assert(slot_of(data, entered[index]) == Some(slot));
        assert(next == latest(data, entered, index as nat, slot));
        lemma_walk_is_recent(data, entered, at, slot, index as nat, (budget - 1) as nat);
        let before = lemma_latest(data, entered, index as nat, slot, at);
        if next != u32::MAX {
            assert(entered[before] < entered[index]);
        }
        assert forall|i: int| 0 <= i < walked.len() implies entered.contains(#[trigger] walked[i])
            && slot_of(data, walked[i]) == Some(slot) by {
            if i > 0 {
                assert(walked[i] == rest[i - 1]);
            }
        }
        assert forall|k: int|
            0 <= k < count && slot_of(data, #[trigger] entered[k]) == Some(slot)
                && within_window(entered[k] as int, at as int) implies walked.contains(entered[k])
            || (walked.len() == budget && forall|i: int|
            0 <= i < walked.len() ==> #[trigger] walked[i] > entered[k]) by {
            if k == index {
                assert(walked[0] == entered[k]);
            } else {
                assert(k < index);
                assert(entered[k] < entered[index]);
                assert(next != u32::MAX);
                if rest.contains(entered[k]) {
                    let i = choose|i: int| 0 <= i < rest.len() && rest[i] == entered[k];
                    assert(walked[i + 1] == entered[k]);
                } else {
                    assert forall|i: int| 0 <= i < walked.len() implies #[trigger] walked[i]
                        > entered[k] by {
                        if i > 0 {
                            assert(walked[i] == rest[i - 1]);
                        }
                    }
                }
            }
        }
    }
}

/// A search compares the most recent positions that share its hash: each one it compares was
/// entered, is inside the window and has the slot of the bytes at the search; and a position
/// entered inside the window with that slot is compared, unless as many more recent ones as the
/// depth were.
pub proof fn law_candidates_are_the_most_recent_of_their_hash(
    data: Seq<u8>,
    entered: Seq<nat>,
    depth: nat,
    at: nat,
)
    requires
        ascends(entered, at),
        at < u32::MAX,
    ensures
        ({
            let compared = entered_all(ChainState::fresh(), data, entered).candidates(
                depth,
                data,
                at,
            );
            &&& compared.len() <= depth
            &&& forall|i: int|
                0 <= i < compared.len() ==> entered.contains(#[trigger] compared[i])
                    && within_window(compared[i] as int, at as int) && slot_of(data, compared[i])
                    == slot_of(data, at)
            &&& forall|p: nat|
                #[trigger] entered.contains(p) && within_window(p as int, at as int) && slot_of(
                    data,
                    p,
                ) is Some && slot_of(data, p) == slot_of(data, at) ==> compared.contains(p) || (
                compared.len() == depth && forall|i: int|
                    0 <= i < compared.len() ==> #[trigger] compared[i] > p)
        }),
{
    let chain = entered_all(ChainState::fresh(), data, entered);
    lemma_entered(data, entered, at);
    law_search_ends_at_its_depth_or_where_the_links_end(chain, depth, data, at);
    if let Some(slot) = slot_of(data, at) {
        lemma_hash_in_table(word_at(data, at as int));
        lemma_walk_is_recent(data, entered, at, slot, entered.len(), depth);
        assert(chain.head[slot as int] == latest(data, entered, entered.len(), slot));
        let compared = chain.candidates(depth, data, at);
        assert forall|p: nat|
            #[trigger] entered.contains(p) && within_window(p as int, at as int) && slot_of(data, p)
                == Some(slot) implies compared.contains(p) || (compared.len() == depth && forall|
            i: int,
        | 0 <= i < compared.len() ==> #[trigger] compared[i] > p) by {
            let k = choose|k: int| 0 <= k < entered.len() && entered[k] == p;
            assert(slot_of(data, entered[k]) == Some(slot));
        }
    }
}

/// A repeat is found: where an entered position inside the window repeats for four bytes or more,
/// a search reports a match at least as long, unless it compared as many more recent positions of
/// the same hash as its depth.
pub proof fn law_a_repeat_is_found(
    data: Seq<u8>,
    entered: Seq<nat>,
    depth: nat,
    at: nat,
    earlier: nat,
    count: int,
)
    requires
        ascends(entered, at),
        at < u32::MAX,
        entered.contains(earlier),
        within_window(earlier as int, at as int),
        count >= 4,
        repeats_for(data, earlier as int, at as int, count),
    ensures
        ({
            let chain = entered_all(ChainState::fresh(), data, entered);
            let compared = chain.candidates(depth, data, at);
            ||| chain.search(depth, data, at) matches Some(best) && best.length >= count
            ||| compared.len() == depth && forall|i: int|
                0 <= i < compared.len() ==> #[trigger] compared[i] > earlier
        }),
{
    let chain = entered_all(ChainState::fresh(), data, entered);
    let compared = chain.candidates(depth, data, at);
    lemma_entered(data, entered, at);
    law_candidates_are_the_most_recent_of_their_hash(data, entered, depth, at);
    law_search_reports_the_longest_repeat(chain, depth, data, at);
    assert forall|i: int| 0 <= i < 4 implies data[earlier + i] == #[trigger] data[at + i] by {
        assert(data[earlier as int + i] == data[at as int + i]);
    }
    law_equal_bytes_share_a_slot(data, earlier, at);
    if compared.contains(earlier) {
        let i = choose|i: int| 0 <= i < compared.len() && compared[i] == earlier;
        assert(repeats_for(data, compared[i] as int, at as int, count));
    }
}

/// Whether a position is the last one entered with the slot of the bytes at `at`.
pub open spec fn last_of_its_slot(data: Seq<u8>, entered: Seq<nat>, index: int, at: nat) -> bool {
    &&& 0 <= index < entered.len()
    &&& slot_of(data, at) is Some
    &&& slot_of(data, entered[index]) == slot_of(data, at)
    &&& forall|i: int|
        index < i < entered.len() ==> slot_of(data, #[trigger] entered[i]) != slot_of(data, at)
}

/// What a single table holds after positions are entered: the last with each slot, or what it
/// held.
proof fn lemma_entered_single(table: Seq<u32>, data: Seq<u8>, entered: Seq<nat>, at: nat)
    requires
        table.len() == 16_384,
        ascends(entered, at),
        at < u32::MAX,
    ensures
        entered_single(table, data, entered).len() == 16_384,
        slot_of(data, at) matches Some(slot) ==> {
            &&& (exists|i: int| last_of_its_slot(data, entered, i, at)) ==> exists|i: int|
                #[trigger] last_of_its_slot(data, entered, i, at) && entered_single(
                    table,
                    data,
                    entered,
                )[slot as int] == entered[i]
            &&& !(exists|i: int| last_of_its_slot(data, entered, i, at)) ==> entered_single(
                table,
                data,
                entered,
            )[slot as int] == table[slot as int] && forall|i: int|
                0 <= i < entered.len() ==> slot_of(data, #[trigger] entered[i]) != Some(slot)
        },
    decreases entered.len(),
{
    if entered.len() > 0 {
        let less = entered.drop_last();
        let new = entered.last();
        let count = less.len() as int;
        assert(ascends(less, at)) by {
            assert forall|i: int, j: int| 0 <= i < j < less.len() implies #[trigger] less[i]
                < #[trigger] less[j] by {
                assert(entered[i] < entered[j]);
            }
            assert forall|i: int| 0 <= i < less.len() implies #[trigger] less[i] < at by {
                assert(entered[i] < at);
            }
        }
        lemma_entered_single(table, data, less, at);
        lemma_hash_in_table(word_at(data, new as int));
        assert(entered[count] == new && new < at);
        if let Some(slot) = slot_of(data, at) {
            lemma_hash_in_table(word_at(data, at as int));
            let before = entered_single(table, data, less);
            if slot_of(data, new) == Some(slot) {
                assert(last_of_its_slot(data, entered, count, at));
            } else {
                assert(entered_single(table, data, entered)[slot as int] == before[slot as int]);
                assert forall|i: int|
                    last_of_its_slot(data, less, i, at) implies #[trigger] last_of_its_slot(
                    data,
                    entered,
                    i,
                    at,
                ) by {
                    assert(less[i] == entered[i]);
                    assert forall|j: int| i < j < entered.len() implies slot_of(
                        data,
                        #[trigger] entered[j],
                    ) != slot_of(data, at) by {
                        if j < count {
                            assert(less[j] == entered[j]);
                        }
                    }
                }
                assert forall|i: int|
                    last_of_its_slot(data, entered, i, at) implies #[trigger] last_of_its_slot(
                    data,
                    less,
                    i,
                    at,
                ) by {
                    assert(i != count);
                    assert(less[i] == entered[i]);
                    assert forall|j: int| i < j < less.len() implies slot_of(
                        data,
                        #[trigger] less[j],
                    ) != slot_of(data, at) by {
                        assert(less[j] == entered[j]);
                    }
                }
                if exists|i: int| last_of_its_slot(data, less, i, at) {
                    let i = choose|i: int| #[trigger]
                        last_of_its_slot(data, less, i, at) && before[slot as int] == less[i];
                    assert(last_of_its_slot(data, entered, i, at));
                    assert(less[i] == entered[i]);
                } else {
                    assert forall|i: int| 0 <= i < entered.len() implies slot_of(
                        data,
                        #[trigger] entered[i],
                    ) != Some(slot) by {
                        if i < count {
                            assert(less[i] == entered[i]);
                        }
                    }
                }
            }
        }
    }
}

/// A single table reports the most recent position of its hash: the last entered with the slot of
/// the bytes at the search, or the one the table held before where none was. It reports the whole
/// of the repeat, and reports one whenever it is four bytes or more inside the window. Bytes too
/// near the end to hash report nothing.
pub proof fn law_single_reports_the_most_recent_of_its_hash(
    table: Seq<u32>,
    data: Seq<u8>,
    entered: Seq<nat>,
    at: nat,
)
    requires
        table.len() == 16_384,
        ascends(entered, at),
        at < u32::MAX,
        at <= data.len(),
    ensures
        ({
            let found = single_search(entered_single(table, data, entered), data, at);
            &&& at + 4 > data.len() ==> found is None
            &&& slot_of(data, at) matches Some(slot) ==> {
                &&& (exists|i: int| last_of_its_slot(data, entered, i, at)) ==> exists|i: int|
                    #[trigger] last_of_its_slot(data, entered, i, at) && reports(
                        data,
                        entered[i] as int,
                        at as int,
                        found,
                    )
                &&& !(exists|i: int| last_of_its_slot(data, entered, i, at)) ==> {
                    let held = table[slot as int];
                    &&& held == u32::MAX ==> found is None
                    &&& held != u32::MAX ==> reports(data, held as int, at as int, found)
                }
            }
        }),
{
    let after = entered_single(table, data, entered);
    lemma_entered_single(table, data, entered, at);
    if let Some(slot) = slot_of(data, at) {
        lemma_hash_in_table(word_at(data, at as int));
        let entry = after[slot as int];
        if entry != u32::MAX && within_window(entry as int, at as int) {
            lemma_proposal_reports(data, entry, at);
        }
        if exists|i: int| last_of_its_slot(data, entered, i, at) {
            let i = choose|i: int| #[trigger]
                last_of_its_slot(data, entered, i, at) && after[slot as int] == entered[i];
            assert(entered[i] < at);
            assert(reports(
                data,
                entered[i] as int,
                at as int,
                single_search(after, data, at),
            ));
        }
    }
}

/// The positions from one up to another, in order.
pub open spec fn positions(from: nat, to: nat) -> Seq<nat> {
    Seq::new(
        if from < to {
            (to - from) as nat
        } else {
            0
        },
        |i: int| (from + i) as nat,
    )
}

/// Inserting a range enters every position of it, in order, on either structure.
pub proof fn law_a_range_enters_every_position(
    chain: ChainState,
    table: Seq<u32>,
    data: Seq<u8>,
    from: nat,
    to: nat,
)
    ensures
        chain.insert_range(data, from, to) == entered_all(chain, data, positions(from, to)),
        single_insert_range(table, data, from, to) == entered_single(
            table,
            data,
            positions(from, to),
        ),
    decreases to - from,
{
    let all = positions(from, to);
    if from < to {
        law_a_range_enters_every_position(chain, table, data, from, (to - 1) as nat);
        assert(all.drop_last() =~= positions(from, (to - 1) as nat));
        assert(all.last() == to - 1);
    } else {
        assert(all =~= Seq::empty());
    }
}

} // verus!
