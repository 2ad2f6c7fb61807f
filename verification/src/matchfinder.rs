//! Owns match finding: the search structures that propose matches and the window invariants
//! they maintain.
//!
//! This module does not own which proposed match the encoder takes. The parser owns that.
//!
//! Two structures, over one hash of four bytes.
//!
//! ```text
//! chain     head table    16 384 entries of 4 bytes      one entry per four window bytes
//!           link array    65 536 entries of 4 bytes      one entry per window byte
//! single    head table    16 384 entries of 4 bytes
//! ```
//!
//! The bounded chain's head table maps a hash to the most recent position that produced it,
//! and its link array joins each position to the previous position with the same hash. A
//! search walks that chain from the head, bounded by the depth, by the window, and by the link
//! array's own aliasing. The single table keeps the most recent position alone, and a test of
//! the four bytes it names decides whether the candidate is compared at all.
//!
//! # Positions
//!
//! A position is an index into the buffer the caller passes, and every stored position fits
//! `u32`. The caller keeps positions bounded by sliding, and `slide` is what moves a structure
//! with it.
//!
//! The link array is indexed by the position modulo the window, so two positions one window
//! apart share a slot. The older of the two is exactly at the window edge from the newer, and
//! the walk reads the slot before an insert overwrites it. A stale link is caught where it is
//! read: a link that does not go backwards names a slot a newer position has taken.

pub mod laws;
pub mod recent;

use vstd::prelude::*;

use crate::sequence::{Match, MAX_MATCH_LENGTH, MIN_MATCH, WINDOW};
use crate::simd::{agrees, common_prefix, law_shared_is_the_longest_prefix, reach, shared};
use crate::simd::{Kernel, SELECTED};

verus! {

/// The candidate positions one search may compare, unless a caller names another bound.
pub const SEARCH_DEPTH: u32 = 8;

/// The candidate positions one search of the BALANCED parse may compare.
pub const CHAIN_DEPTH_BALANCED: u32 = 32;

/// The head-table entries, one per four window bytes.
pub const HEAD_ENTRIES: usize = 16_384;

/// The link-array entries, one per window byte.
pub const LINK_ENTRIES: usize = 65_536;

/// The bytes the chain holds, whatever the input is.
pub const STATE_BYTES: usize = (HEAD_ENTRIES + LINK_ENTRIES) * 4;

/// The bytes the single table holds, whatever the input is.
pub const SINGLE_STATE_BYTES: usize = HEAD_ENTRIES * 4;

/// The bytes the hash reads at a position.
pub const HASH_BYTES: usize = 4;

/// The head-table index is the top `HEAD_BITS` bits of the product.
pub const HEAD_BITS: u32 = 14;

/// The multiplier the hash mixes with.
pub const MULTIPLIER: u64 = 0x9E37_79B9_7F4A_7C15;

/// The entry value that names no position.
pub const EMPTY: u32 = u32::MAX;

/// What one search reported, and what it spent reporting it.
#[derive(Clone, Copy, Debug, PartialEq, Eq)]
pub struct Found {
    /// The best match at the position, or `None` when no candidate reached the minimum.
    pub matched: Option<Match>,
    /// The candidate positions this search compared.
    pub candidates: u32,
}

impl Default for Found {
    fn default() -> (found: Self)
        ensures
            found == (Found { matched: None, candidates: 0 }),
    {
        Found { matched: None, candidates: 0 }
    }
}

/// The four bytes at a position as one number, the first byte the lowest.
pub open spec fn word_at(data: Seq<u8>, at: int) -> nat {
    (data[at] + 0x100 * data[at + 1] + 0x1_0000 * data[at + 2] + 0x100_0000 * data[at + 3]) as nat
}

/// The head-table index of a four-byte word: the top bits of its product with the multiplier,
/// modulo two to the sixty-fourth.
#[verifier::opaque]
pub open spec fn hash_of(word: nat) -> nat {
    ((word * MULTIPLIER as nat) % 0x1_0000_0000_0000_0000) / 0x4_0000_0000_0000
}

/// The head-table slot of the bytes at `at`, or `None` when `data` does not hold the bytes the
/// hash reads or the position does not fit an entry.
pub open spec fn slot_of(data: Seq<u8>, at: nat) -> Option<nat> {
    if at + HASH_BYTES <= data.len() && at <= u32::MAX {
        Some(hash_of(word_at(data, at as int)))
    } else {
        None
    }
}

/// Whether an entry names a position a search at `at` may compare: one behind it, and within
/// the window.
pub open spec fn reachable(entry: u32, at: nat) -> bool {
    entry != EMPTY && entry < at && at <= entry + WINDOW
}

/// The length the bytes at `position` and at `at` agree over, capped by the longest match and
/// by the data.
pub open spec fn agreement(data: Seq<u8>, position: nat, at: nat) -> nat {
    shared(
        data,
        position as int,
        at as int,
        reach(data.len(), position, at, MAX_MATCH_LENGTH as nat),
    )
}

/// The match a candidate position proposes at `at`, or `None` when it is too short to take.
pub open spec fn proposal(data: Seq<u8>, position: nat, at: nat) -> Option<Match> {
    if agreement(data, position, at) >= MIN_MATCH {
        Some(
            Match {
                length: agreement(data, position, at) as u32,
                distance: (at - position) as u32,
            },
        )
    } else {
        None
    }
}

/// Whether a match is preferred to another: longer, or as long and nearer.
pub open spec fn preferred(one: Match, other: Match) -> bool {
    one.length > other.length || (one.length == other.length && one.distance < other.distance)
}

/// The preferred match the candidates propose at `at`.
pub open spec fn best_of(data: Seq<u8>, at: nat, candidates: Seq<nat>) -> Option<Match>
    decreases candidates.len(),
{
    if candidates.len() == 0 {
        None
    } else {
        let before = best_of(data, at, candidates.drop_last());
        match (before, proposal(data, candidates.last(), at)) {
            (None, proposed) => proposed,
            (Some(best), None) => Some(best),
            (Some(best), Some(proposed)) => if preferred(proposed, best) {
                Some(proposed)
            } else {
                Some(best)
            },
        }
    }
}

/// The positions a chain holds, as its two tables of entries.
#[verifier::ext_equal]
pub ghost struct ChainState {
    pub head: Seq<u32>,
    pub link: Seq<u32>,
}

/// An entry moved back by one window, or emptied when it falls out.
pub open spec fn slid(entry: u32) -> u32 {
    if entry == EMPTY || entry < WINDOW {
        EMPTY
    } else {
        (entry - WINDOW) as u32
    }
}

impl ChainState {
    /// A chain that holds no position.
    pub open spec fn fresh() -> ChainState {
        ChainState {
            head: Seq::new(HEAD_ENTRIES as nat, |i: int| EMPTY),
            link: Seq::new(LINK_ENTRIES as nat, |i: int| EMPTY),
        }
    }

    /// Whether the tables have the entries the hash and the window index.
    pub open spec fn valid(self) -> bool {
        self.head.len() == HEAD_ENTRIES && self.link.len() == LINK_ENTRIES
    }

    /// The chain with every position moved back by one window.
    pub open spec fn slide(self) -> ChainState {
        ChainState {
            head: self.head.map_values(|entry: u32| slid(entry)),
            link: self.link.map_values(|entry: u32| slid(entry)),
        }
    }

    /// The chain with `at` linked in front of whatever its slot held.
    pub open spec fn insert(self, data: Seq<u8>, at: nat) -> ChainState {
        match slot_of(data, at) {
            Some(slot) => ChainState {
                head: self.head.update(slot as int, at as u32),
                link: self.link.update((at % LINK_ENTRIES as nat) as int, self.head[slot as int]),
            },
            None => self,
        }
    }

    /// The chain with every position of a range inserted, in order.
    pub open spec fn insert_range(self, data: Seq<u8>, from: nat, to: nat) -> ChainState
        decreases to - from,
    {
        if to <= from {
            self
        } else {
            self.insert_range(data, from, (to - 1) as nat).insert(data, (to - 1) as nat)
        }
    }

    /// The positions a walk from `entry` compares at `at`, at most `budget` of them: each is
    /// behind the last, and the walk ends at the first link that does not go backwards or
    /// leaves the window.
    pub open spec fn walk(self, at: nat, entry: u32, budget: nat) -> Seq<nat>
        decreases budget,
    {
        if budget == 0 || !reachable(entry, at) {
            Seq::empty()
        } else {
            let next = self.link[(entry as nat % LINK_ENTRIES as nat) as int];
            seq![entry as nat] + if next >= entry {
                Seq::empty()
            } else {
                self.walk(at, next, (budget - 1) as nat)
            }
        }
    }

    /// The positions a search at `at` compares.
    pub open spec fn candidates(self, depth: nat, data: Seq<u8>, at: nat) -> Seq<nat> {
        match slot_of(data, at) {
            Some(slot) => self.walk(at, self.head[slot as int], depth),
            None => Seq::empty(),
        }
    }

    /// The match a search at `at` reports.
    pub open spec fn search(self, depth: nat, data: Seq<u8>, at: nat) -> Option<Match> {
        best_of(data, at, self.candidates(depth, data, at))
    }

    /// What a search at `at` reports.
    pub open spec fn found(self, depth: nat, data: Seq<u8>, at: nat) -> Found {
        Found {
            matched: self.search(depth, data, at),
            candidates: self.candidates(depth, data, at).len() as u32,
        }
    }
}

/// Whether a match at `at` copies the bytes it stands for: its lengths and distances are in
/// the domains the representation expresses, it stays inside the data, and the bytes its
/// distance names are the bytes it covers.
pub open spec fn copies(data: Seq<u8>, at: nat, found: Match) -> bool {
    &&& MIN_MATCH <= found.length <= MAX_MATCH_LENGTH
    &&& 1 <= found.distance <= WINDOW
    &&& found.distance <= at
    &&& at + found.length <= data.len()
    &&& agrees(data, at - found.distance, at as int, found.length as int)
}

/// What a reachable candidate proposes is a match that copies the bytes it stands for.
pub proof fn lemma_proposal_copies(data: Seq<u8>, entry: u32, at: nat)
    requires
        reachable(entry, at),
    ensures
        agreement(data, entry as nat, at) <= MAX_MATCH_LENGTH,
        proposal(data, entry as nat, at) matches Some(found) ==> copies(data, at, found),
{
    law_shared_is_the_longest_prefix(
        data,
        entry as int,
        at as int,
        reach(data.len(), entry as nat, at, MAX_MATCH_LENGTH as nat),
    );
}

/// Every position a walk compares is reachable, the walk holds no more than its budget, and
/// each position is behind the one before it.
pub proof fn lemma_walk(state: ChainState, at: nat, entry: u32, budget: nat)
    ensures
        state.walk(at, entry, budget).len() <= budget,
        forall|i: int|
            0 <= i < state.walk(at, entry, budget).len() ==> #[trigger] state.walk(
                at,
                entry,
                budget,
            )[i] <= entry && reachable(state.walk(at, entry, budget)[i] as u32, at),
        forall|i: int, j: int|
            0 <= i < j < state.walk(at, entry, budget).len() ==> #[trigger] state.walk(
                at,
                entry,
                budget,
            )[j] < #[trigger] state.walk(at, entry, budget)[i],
    decreases budget,
{
    if budget > 0 && reachable(entry, at) {
        let next = state.link[(entry as nat % LINK_ENTRIES as nat) as int];
        if next < entry {
            lemma_walk(state, at, next, (budget - 1) as nat);
            let rest = state.walk(at, next, (budget - 1) as nat);
            assert(state.walk(at, entry, budget) == seq![entry as nat] + rest);
            assert forall|i: int| 0 <= i < state.walk(at, entry, budget).len() implies
                #[trigger] state.walk(at, entry, budget)[i] <= entry && reachable(
                state.walk(at, entry, budget)[i] as u32,
                at,
            ) by {
                if i > 0 {
                    assert(state.walk(at, entry, budget)[i] == rest[i - 1]);
                }
            }
            assert forall|i: int, j: int|
                0 <= i < j < state.walk(at, entry, budget).len() implies #[trigger] state.walk(
                at,
                entry,
                budget,
            )[j] < #[trigger] state.walk(at, entry, budget)[i] by {
                assert(state.walk(at, entry, budget)[j] == rest[j - 1]);
                if i > 0 {
                    assert(state.walk(at, entry, budget)[i] == rest[i - 1]);
                }
            }
        }
    }
}

/// The best of a set of reachable candidates copies the bytes it stands for, and no candidate
/// proposes a match preferred to it.
pub proof fn lemma_best_of(data: Seq<u8>, at: nat, candidates: Seq<nat>)
    requires
        forall|i: int|
            0 <= i < candidates.len() ==> #[trigger] candidates[i] <= u32::MAX && reachable(
                candidates[i] as u32,
                at,
            ),
    ensures
        best_of(data, at, candidates) matches Some(found) ==> copies(data, at, found),
        forall|i: int|
            0 <= i < candidates.len() ==> (#[trigger] proposal(data, candidates[i], at) matches Some(
                other,
            ) ==> best_of(data, at, candidates) is Some && !preferred(
                other,
                best_of(data, at, candidates)->0,
            )),
        best_of(data, at, candidates) matches Some(found) ==> exists|i: int|
            0 <= i < candidates.len() && #[trigger] proposal(data, candidates[i], at) == Some(found),
    decreases candidates.len(),
{
    if candidates.len() > 0 {
        let rest = candidates.drop_last();
        assert forall|i: int| 0 <= i < rest.len() implies #[trigger] rest[i] <= u32::MAX
            && reachable(rest[i] as u32, at) by {
            assert(rest[i] == candidates[i]);
        }
        lemma_best_of(data, at, rest);
        let last = candidates.last();
        assert(candidates[candidates.len() - 1] <= u32::MAX);
        lemma_proposal_copies(data, last as u32, at);
        assert forall|i: int| 0 <= i < candidates.len() implies (#[trigger] proposal(
            data,
            candidates[i],
            at,
        ) matches Some(other) ==> best_of(data, at, candidates) is Some && !preferred(
            other,
            best_of(data, at, candidates)->0,
        )) by {
            if i < rest.len() {
                assert(rest[i] == candidates[i]);
                assert(proposal(data, rest[i], at) == proposal(data, candidates[i], at));
            }
        }
        if best_of(data, at, candidates) is Some {
            let found = best_of(data, at, candidates)->0;
            if proposal(data, last, at) == Some(found) {
                assert(proposal(data, candidates[candidates.len() - 1], at) == Some(found));
            } else {
                assert(best_of(data, at, rest) == Some(found));
                let i = choose|i: int|
                    0 <= i < rest.len() && #[trigger] proposal(data, rest[i], at) == Some(found);
                assert(rest[i] == candidates[i]);
                assert(proposal(data, candidates[i], at) == Some(found));
            }
        }
    }
}

/// A search reports a match only when it copies the bytes it stands for: in the domains, inside
/// the window and inside the data.
pub proof fn law_search_copies(state: ChainState, depth: nat, data: Seq<u8>, at: nat)
    requires
        state.valid(),
    ensures
        state.search(depth, data, at) matches Some(found) ==> copies(data, at, found),
{
    lemma_candidates(state, depth, data, at);
    lemma_best_of(data, at, state.candidates(depth, data, at));
}

/// A search compares no more candidates than its depth, each behind the last and inside the
/// window.
pub proof fn law_search_stays_within_its_depth(
    state: ChainState,
    depth: nat,
    data: Seq<u8>,
    at: nat,
)
    requires
        state.valid(),
    ensures
        state.candidates(depth, data, at).len() <= depth,
        forall|i: int|
            0 <= i < state.candidates(depth, data, at).len() ==> #[trigger] state.candidates(
                depth,
                data,
                at,
            )[i] < at && at <= state.candidates(depth, data, at)[i] + WINDOW,
        forall|i: int, j: int|
            0 <= i < j < state.candidates(depth, data, at).len() ==> #[trigger] state.candidates(
                depth,
                data,
                at,
            )[j] < #[trigger] state.candidates(depth, data, at)[i],
{
    lemma_candidates(state, depth, data, at);
}

/// The longest match wins, and a tie goes to the smaller distance: no candidate the search
/// compared proposes a longer match than the one it reports, nor one as long and nearer.
pub proof fn law_longest_wins_then_nearest(
    state: ChainState,
    depth: nat,
    data: Seq<u8>,
    at: nat,
    i: int,
)
    requires
        state.valid(),
        0 <= i < state.candidates(depth, data, at).len(),
        proposal(data, state.candidates(depth, data, at)[i], at) is Some,
    ensures
        state.search(depth, data, at) is Some,
        !preferred(
            proposal(data, state.candidates(depth, data, at)[i], at)->0,
            state.search(depth, data, at)->0,
        ),
{
    lemma_candidates(state, depth, data, at);
    lemma_best_of(data, at, state.candidates(depth, data, at));
}

/// The candidates of a search are reachable, bounded by the depth, and each is behind the
/// last.
proof fn lemma_candidates(state: ChainState, depth: nat, data: Seq<u8>, at: nat)
    ensures
        state.candidates(depth, data, at).len() <= depth,
        forall|i: int|
            0 <= i < state.candidates(depth, data, at).len() ==> #[trigger] state.candidates(
                depth,
                data,
                at,
            )[i] <= u32::MAX && reachable(state.candidates(depth, data, at)[i] as u32, at),
        forall|i: int, j: int|
            0 <= i < j < state.candidates(depth, data, at).len() ==> #[trigger] state.candidates(
                depth,
                data,
                at,
            )[j] < #[trigger] state.candidates(depth, data, at)[i],
{
    if let Some(slot) = slot_of(data, at) {
        lemma_walk(state, at, state.head[slot as int], depth);
    }
}

/// A hash is a head-table index.
pub proof fn lemma_hash_in_table(word: nat)
    ensures
        hash_of(word) < HEAD_ENTRIES,
{
    reveal(hash_of);
    let product = (word * MULTIPLIER as nat) % 0x1_0000_0000_0000_0000;
    assert(product < 0x1_0000_0000_0000_0000);
    assert(product / 0x4_0000_0000_0000 < 0x4000) by (nonlinear_arith)
        requires
            product < 0x1_0000_0000_0000_0000,
    ;
}

/// Inserting a position keeps the tables whole.
pub proof fn lemma_insert_keeps_the_tables(state: ChainState, data: Seq<u8>, at: nat)
    requires
        state.head.len() == HEAD_ENTRIES,
    ensures
        single_insert(state.head, data, at).len() == HEAD_ENTRIES,
        state.valid() ==> state.insert(data, at).valid(),
{
    lemma_hash_in_table(word_at(data, at as int));
}

/// The four bytes at `at` as one number.
fn read_word(data: &[u8], at: usize) -> (word: u64)
    requires
        at + HASH_BYTES <= data@.len(),
    ensures
        word == word_at(data@, at as int),
        word <= u32::MAX,
{
    assert(data.len() == data@.len());
    data[at] as u64 + 0x100 * (data[at + 1] as u64) + 0x1_0000 * (data[at + 2] as u64)
        + 0x100_0000 * (data[at + 3] as u64)
}

/// The head-table slot of the bytes at `at`, or `None` when `data` does not hold the bytes the
/// hash reads or the position does not fit an entry.
fn slot(data: &[u8], at: usize) -> (slot: Option<usize>)
    ensures
        slot matches Some(index) ==> index < HEAD_ENTRIES && slot_of(data@, at as nat) == Some(
            index as nat,
        ) && at <= u32::MAX && at + HASH_BYTES <= data@.len(),
        slot is None ==> slot_of(data@, at as nat) is None,
{
    let total: usize = data.len();
    if total < HASH_BYTES || at > total - HASH_BYTES || at as u64 > u32::MAX as u64 {
        return None;
    }
    let word: u64 = read_word(data, at);
    let product: u64 = word.wrapping_mul(MULTIPLIER);
    let index: u64 = product >> (u64::BITS - HEAD_BITS);
    proof {
        lemma_hash_in_table(word as nat);
        reveal(hash_of);
        assert(product >> 50u32 == product / 0x4_0000_0000_0000) by (bit_vector);
    }
    Some(index as usize)
}

/// The first position of a buffer of `len` bytes the hash cannot read.
pub open spec fn first_unhashable(len: nat) -> nat {
    if len < HASH_BYTES {
        0
    } else {
        (len - (HASH_BYTES - 1)) as nat
    }
}

/// A bounded hash chain over a window of 65 536 bytes.
///
/// The structure holds positions, never bytes. The caller owns the buffer and passes it to
/// every call, so one buffer can serve the finder and the parse that drives it.
pub struct BoundedHashChain {
    head: Vec<u32>,
    link: Vec<u32>,
    depth: u32,
    kernel: Kernel,
}

impl View for BoundedHashChain {
    type V = ChainState;

    closed spec fn view(&self) -> ChainState {
        ChainState { head: self.head@, link: self.link@ }
    }
}

impl Default for BoundedHashChain {
    fn default() -> (chain: Self)
        ensures
            chain.valid(),
            chain@ == ChainState::fresh(),
            chain.searches() == SEARCH_DEPTH,
            chain.compares() == SELECTED,
    {
        Self::new()
    }
}

impl BoundedHashChain {
    /// Whether the tables have the entries the hash and the window index.
    pub open spec fn valid(self) -> bool {
        self@.valid()
    }

    /// The candidate positions one search may compare.
    pub closed spec fn searches(self) -> nat {
        self.depth as nat
    }

    /// The kernel the chain compares candidates with.
    pub closed spec fn compares(self) -> Kernel {
        self.kernel
    }

    /// An empty chain, on the kernel this build selected.
    pub fn new() -> (chain: Self)
        ensures
            chain.valid(),
            chain@ == ChainState::fresh(),
            chain.searches() == SEARCH_DEPTH,
            chain.compares() == SELECTED,
    {
        Self::with_kernel(SELECTED)
    }

    /// An empty chain, on a named kernel.
    ///
    /// The kernel changes speed and never the match a search reports.
    pub fn with_kernel(kernel: Kernel) -> (chain: Self)
        ensures
            chain.valid(),
            chain@ == ChainState::fresh(),
            chain.searches() == SEARCH_DEPTH,
            chain.compares() == kernel,
    {
        Self::with_depth_and_kernel(SEARCH_DEPTH, kernel)
    }

    /// An empty chain that compares at most `depth` candidates, on the kernel this build
    /// selected.
    pub fn with_depth(depth: u32) -> (chain: Self)
        ensures
            chain.valid(),
            chain@ == ChainState::fresh(),
            chain.searches() == depth,
            chain.compares() == SELECTED,
    {
        Self::with_depth_and_kernel(depth, SELECTED)
    }

    /// An empty chain that compares at most `depth` candidates, on a named kernel.
    pub fn with_depth_and_kernel(depth: u32, kernel: Kernel) -> (chain: Self)
        ensures
            chain.valid(),
            chain@ == ChainState::fresh(),
            chain.searches() == depth,
            chain.compares() == kernel,
    {
        let chain = BoundedHashChain {
            head: vec![EMPTY; HEAD_ENTRIES],
            link: vec![EMPTY; LINK_ENTRIES],
            depth,
            kernel,
        };
        assert(chain@ =~= ChainState::fresh());
        chain
    }

    /// The kernel this chain compares candidates with.
    pub fn kernel(&self) -> (kernel: Kernel)
        ensures
            kernel == self.compares(),
    {
        self.kernel
    }

    /// The head-table entries.
    pub fn head(&self) -> (entries: &[u32])
        ensures
            entries@ == self@.head,
    {
        self.head.as_slice()
    }

    /// The link-array entries.
    pub fn link(&self) -> (entries: &[u32])
        ensures
            entries@ == self@.link,
    {
        self.link.as_slice()
    }

    /// Discards every position the structure holds.
    ///
    /// A region boundary is what calls this: nothing a later region emits may name a position
    /// an earlier one produced.
    pub fn reset(&mut self)
        requires
            old(self).valid(),
        ensures
            final(self).valid(),
            final(self)@ == ChainState::fresh(),
            final(self).searches() == old(self).searches(),
            final(self).compares() == old(self).compares(),
    {
        empty_entries(&mut self.head);
        empty_entries(&mut self.link);
        assert(self@ =~= ChainState::fresh());
    }

    /// Moves every stored position back by one window, discarding what falls out.
    ///
    /// The shift is the window exactly, so a position keeps its link slot and the array needs
    /// no permutation.
    pub fn slide(&mut self)
        requires
            old(self).valid(),
        ensures
            final(self).valid(),
            final(self)@ == old(self)@.slide(),
            final(self).searches() == old(self).searches(),
            final(self).compares() == old(self).compares(),
    {
        slide_entries(&mut self.head);
        slide_entries(&mut self.link);
    }

    /// Searches at `at` without inserting it.
    ///
    /// A match is reported only when it reaches the minimum match length, and its length is
    /// capped by the maximum the representation expresses and by the bytes `data` holds after
    /// `at`. Its distance is at least one and at most the window.
    ///
    /// The tie-break reads the reported length and distance and nothing else: longest wins,
    /// and a tie goes to the smaller distance.
    pub fn peek(&self, data: &[u8], at: usize) -> (found: Found)
        requires
            self.valid(),
        ensures
            found == self@.found(self.searches(), data@, at as nat),
    {
        match slot(data, at) {
            Some(slot) => self.walk(data, at, slot),
            None => Found { matched: None, candidates: 0 },
        }
    }

    /// Searches at `at`, then inserts it.
    pub fn step(&mut self, data: &[u8], at: usize) -> (found: Found)
        requires
            old(self).valid(),
        ensures
            final(self).valid(),
            found == old(self)@.found(old(self).searches(), data@, at as nat),
            final(self)@ == old(self)@.insert(data@, at as nat),
            final(self).searches() == old(self).searches(),
            final(self).compares() == old(self).compares(),
    {
        match slot(data, at) {
            Some(slot) => {
                let found = self.walk(data, at, slot);
                self.link_in(slot, at);
                found
            },
            None => Found { matched: None, candidates: 0 },
        }
    }

    /// Inserts `at` without searching.
    ///
    /// This is what a parser does at the positions a taken match covers. The chain stays
    /// correct whatever the search did, because a link only has to name the previous occupant
    /// of its bucket.
    pub fn insert(&mut self, data: &[u8], at: usize)
        requires
            old(self).valid(),
        ensures
            final(self).valid(),
            final(self)@ == old(self)@.insert(data@, at as nat),
            final(self).searches() == old(self).searches(),
            final(self).compares() == old(self).compares(),
    {
        if let Some(slot) = slot(data, at) {
            self.link_in(slot, at);
        }
    }

    /// The bytes this structure holds. It does not move with the input.
    pub fn state_bytes() -> (bytes: usize)
        ensures
            bytes == STATE_BYTES,
            bytes == 327_680,
    {
        STATE_BYTES
    }

    /// The first position of a buffer of `len` bytes the structure cannot take.
    ///
    /// The hash reads four bytes, so the last three positions of a buffer are offered and
    /// dropped. A caller that will later hold more bytes offers them again then.
    pub fn insertable_end(len: usize) -> (end: usize)
        ensures
            end == first_unhashable(len as nat),
    {
        if len < HASH_BYTES {
            0
        } else {
            len - (HASH_BYTES - 1)
        }
    }

    /// Walks the chain of `slot`, keeping the preferred match.
    fn walk(&self, data: &[u8], at: usize, slot: usize) -> (found: Found)
        requires
            self.valid(),
            slot < HEAD_ENTRIES,
            slot_of(data@, at as nat) == Some(slot as nat),
        ensures
            found == self@.found(self.searches(), data@, at as nat),
    {
        let cap: usize = MAX_MATCH_LENGTH as usize;
        let mut candidate: u32 = self.head[slot];
        let mut candidates: u32 = 0;
        let mut best: Option<Match> = None;
        let ghost all = self@.candidates(self.searches(), data@, at as nat);
        let ghost mut compared: Seq<nat> = Seq::empty();
        let mut open: bool = true;
        assert(compared + self@.walk(at as nat, candidate, self.searches()) =~= all);
        while open && candidates < self.depth && candidate != EMPTY && (candidate as usize) < at
            && at - (candidate as usize) <= WINDOW as usize
            invariant
                self.valid(),
                cap == MAX_MATCH_LENGTH,
                candidates == compared.len(),
                candidates <= self.depth,
                self.searches() == self.depth,
                best == best_of(data@, at as nat, compared),
                compared + (if open {
                    self@.walk(at as nat, candidate, (self.depth - candidates) as nat)
                } else {
                    Seq::empty()
                }) == all,
            decreases self.depth - candidates,
        {
            let position: usize = candidate as usize;
            let ghost before = compared;
            let length: usize = common_prefix(self.kernel, data, position, at, cap);
            proof {
                lemma_proposal_copies(data@, candidate, at as nat);
                compared = compared.push(candidate as nat);
                assert(compared.drop_last() =~= before);
                assert(length == agreement(data@, candidate as nat, at as nat));
            }
            if length >= MIN_MATCH as usize {
                let proposed = Match { length: length as u32, distance: (at - position) as u32 };
                best = prefer(best, proposed);
            }
            let next: u32 = self.link[position % LINK_ENTRIES];
            let ghost left = (self.depth - candidates) as nat;
            proof {
                assert(self@.link[(candidate as nat % LINK_ENTRIES as nat) as int] == next);
                let rest = if next >= candidate {
                    Seq::<nat>::empty()
                } else {
                    self@.walk(at as nat, next, (left - 1) as nat)
                };
                assert(self@.walk(at as nat, candidate, left) == seq![candidate as nat] + rest);
                assert(compared + rest =~= before + (seq![candidate as nat] + rest));
            }
            candidates = candidates + 1;
            // A link that does not go backwards is stale: a newer position has taken the slot.
            if next >= candidate {
                open = false;
            } else {
                candidate = next;
            }
        }
        assert(compared =~= all);
        Found { matched: best, candidates }
    }

    /// Links `at` in front of whatever the slot held, then takes the slot.
    fn link_in(&mut self, slot: usize, at: usize)
        requires
            old(self).valid(),
            slot < HEAD_ENTRIES,
            at <= u32::MAX,
        ensures
            final(self)@ == (ChainState {
                head: old(self)@.head.update(slot as int, at as u32),
                link: old(self)@.link.update(
                    (at as nat % LINK_ENTRIES as nat) as int,
                    old(self)@.head[slot as int],
                ),
            }),
            final(self).searches() == old(self).searches(),
            final(self).compares() == old(self).compares(),
    {
        let previous: u32 = self.head[slot];
        let index: usize = at % LINK_ENTRIES;
        self.link[index] = previous;
        self.head[slot] = at as u32;
    }
}

/// The match the single table's entry for the bytes at `at` proposes.
pub open spec fn single_search(entries: Seq<u32>, data: Seq<u8>, at: nat) -> Option<Match> {
    match slot_of(data, at) {
        Some(slot) => if reachable(entries[slot as int], at) {
            proposal(data, entries[slot as int] as nat, at)
        } else {
            None
        },
        None => None,
    }
}

/// The single table with `at` in its slot.
pub open spec fn single_insert(entries: Seq<u32>, data: Seq<u8>, at: nat) -> Seq<u32> {
    match slot_of(data, at) {
        Some(slot) => entries.update(slot as int, at as u32),
        None => entries,
    }
}

/// The single table with every position of a range inserted, in order.
pub open spec fn single_insert_range(entries: Seq<u32>, data: Seq<u8>, from: nat, to: nat) -> Seq<
    u32,
>
    decreases to - from,
{
    if to <= from {
        entries
    } else {
        single_insert(
            single_insert_range(entries, data, from, (to - 1) as nat),
            data,
            (to - 1) as nat,
        )
    }
}

/// What the single table proposes copies the bytes it stands for.
pub proof fn law_single_search_copies(entries: Seq<u32>, data: Seq<u8>, at: nat)
    ensures
        single_search(entries, data, at) matches Some(found) ==> copies(data, at, found),
{
    if let Some(slot) = slot_of(data, at) {
        if reachable(entries[slot as int], at) {
            lemma_proposal_copies(data, entries[slot as int], at);
        }
    }
}

/// The single table proposes what a chain of the same head table does at depth one.
pub proof fn law_single_is_the_chain_at_depth_one(state: ChainState, data: Seq<u8>, at: nat)
    ensures
        single_search(state.head, data, at) == state.search(1, data, at),
        single_insert(state.head, data, at) == state.insert(data, at).head,
{
    if let Some(slot) = slot_of(data, at) {
        let entry = state.head[slot as int];
        reveal_with_fuel(ChainState::walk, 2);
        reveal_with_fuel(best_of, 2);
        if reachable(entry, at) {
            let walked = state.walk(at, entry, 1);
            assert(walked =~= seq![entry as nat]);
            assert(walked.drop_last() =~= Seq::empty());
        }
    }
}

/// Bytes that differ in their first four agree over less than the minimum match.
proof fn lemma_gate(data: Seq<u8>, position: nat, at: nat)
    requires
        position < at,
        at + HASH_BYTES <= data.len(),
        word_at(data, position as int) != word_at(data, at as int),
    ensures
        proposal(data, position, at) is None,
{
    let limit = reach(data.len(), position, at, MAX_MATCH_LENGTH as nat);
    law_shared_is_the_longest_prefix(data, position as int, at as int, limit);
    if agreement(data, position, at) >= MIN_MATCH {
        assert(data[position as int + 0] == data[at as int + 0]);
        assert(data[position as int + 1] == data[at as int + 1]);
        assert(data[position as int + 2] == data[at as int + 2]);
        assert(data[position as int + 3] == data[at as int + 3]);
    }
}

/// A table of the most recent position of each hash, over a window of 65 536 bytes.
///
/// The structure holds positions, never bytes.
pub struct SingleHash {
    head: Vec<u32>,
    kernel: Kernel,
}

impl View for SingleHash {
    type V = Seq<u32>;

    closed spec fn view(&self) -> Seq<u32> {
        self.head@
    }
}

impl Default for SingleHash {
    fn default() -> (table: Self)
        ensures
            table.valid(),
            table@ == ChainState::fresh().head,
            table.compares() == SELECTED,
    {
        Self::new()
    }
}

impl SingleHash {
    /// Whether the table has the entries the hash indexes.
    pub open spec fn valid(self) -> bool {
        self@.len() == HEAD_ENTRIES
    }

    /// The kernel the table compares its candidate with.
    pub closed spec fn compares(self) -> Kernel {
        self.kernel
    }

    /// An empty table, on the kernel this build selected.
    pub fn new() -> (table: Self)
        ensures
            table.valid(),
            table@ == ChainState::fresh().head,
            table.compares() == SELECTED,
    {
        Self::with_kernel(SELECTED)
    }

    /// An empty table, on a named kernel.
    pub fn with_kernel(kernel: Kernel) -> (table: Self)
        ensures
            table.valid(),
            table@ == ChainState::fresh().head,
            table.compares() == kernel,
    {
        let table = SingleHash { head: vec![EMPTY; HEAD_ENTRIES], kernel };
        assert(table@ =~= ChainState::fresh().head);
        table
    }

    /// The kernel this table compares its candidate with.
    pub fn kernel(&self) -> (kernel: Kernel)
        ensures
            kernel == self.compares(),
    {
        self.kernel
    }

    /// Discards every position the table holds.
    pub fn reset(&mut self)
        requires
            old(self).valid(),
        ensures
            final(self).valid(),
            final(self)@ == ChainState::fresh().head,
            final(self).compares() == old(self).compares(),
    {
        empty_entries(&mut self.head);
        assert(self@ =~= ChainState::fresh().head);
    }

    /// Moves every stored position back by one window, discarding what falls out.
    pub fn slide(&mut self)
        requires
            old(self).valid(),
        ensures
            final(self).valid(),
            final(self)@ == old(self)@.map_values(|entry: u32| slid(entry)),
            final(self).compares() == old(self).compares(),
    {
        slide_entries(&mut self.head);
    }

    /// Searches at `at`, then inserts it.
    ///
    /// The candidate is the most recent position with the same hash. It is compared only when
    /// the four bytes it names are the four bytes at `at`, and a match is reported only when
    /// it reaches the minimum match length.
    pub fn search(&mut self, data: &[u8], at: usize) -> (found: Option<Match>)
        requires
            old(self).valid(),
        ensures
            final(self).valid(),
            found == single_search(old(self)@, data@, at as nat),
            final(self)@ == single_insert(old(self)@, data@, at as nat),
            final(self).compares() == old(self).compares(),
    {
        match slot(data, at) {
            Some(slot) => {
                let candidate: u32 = self.head[slot];
                self.head[slot] = at as u32;
                self.gated(data, at, candidate)
            },
            None => None,
        }
    }

    /// Inserts `at` without searching.
    pub fn insert(&mut self, data: &[u8], at: usize)
        requires
            old(self).valid(),
        ensures
            final(self).valid(),
            final(self)@ == single_insert(old(self)@, data@, at as nat),
            final(self).compares() == old(self).compares(),
    {
        if let Some(slot) = slot(data, at) {
            self.head[slot] = at as u32;
        }
    }

    /// The bytes this structure holds. It does not move with the input.
    pub fn state_bytes() -> (bytes: usize)
        ensures
            bytes == SINGLE_STATE_BYTES,
            bytes == 65_536,
    {
        SINGLE_STATE_BYTES
    }

    /// The match a candidate proposes at `at`, where its first four bytes are the ones at `at`.
    fn gated(&self, data: &[u8], at: usize, candidate: u32) -> (found: Option<Match>)
        requires
            at + HASH_BYTES <= data@.len(),
        ensures
            found == if reachable(candidate, at as nat) {
                proposal(data@, candidate as nat, at as nat)
            } else {
                None
            },
    {
        if candidate == EMPTY || candidate as usize >= at || at - (candidate as usize)
            > WINDOW as usize {
            return None;
        }
        let position: usize = candidate as usize;
        if read_word(data, position) != read_word(data, at) {
            proof {
                lemma_gate(data@, position as nat, at as nat);
            }
            return None;
        }
        let length: usize = common_prefix(
            self.kernel,
            data,
            position,
            at,
            MAX_MATCH_LENGTH as usize,
        );
        proof {
            lemma_proposal_copies(data@, candidate, at as nat);
        }
        if length >= MIN_MATCH as usize {
            Some(Match { length: length as u32, distance: (at - position) as u32 })
        } else {
            None
        }
    }
}

/// The preferred of a match already kept and one just proposed.
fn prefer(best: Option<Match>, proposed: Match) -> (kept: Option<Match>)
    ensures
        kept == match best {
            None => Some(proposed),
            Some(held) => if preferred(proposed, held) {
                Some(proposed)
            } else {
                Some(held)
            },
        },
{
    match best {
        None => Some(proposed),
        Some(held) => {
            if proposed.length > held.length || (proposed.length == held.length
                && proposed.distance < held.distance) {
                Some(proposed)
            } else {
                Some(held)
            }
        },
    }
}

/// Empties every entry of a table.
fn empty_entries(entries: &mut Vec<u32>)
    ensures
        final(entries)@ == Seq::new(old(entries)@.len(), |i: int| EMPTY),
{
    let total: usize = entries.len();
    let mut done: usize = 0;
    while done < total
        invariant
            done <= total,
            entries@.len() == total,
            total == old(entries)@.len(),
            forall|i: int| 0 <= i < done ==> entries@[i] == EMPTY,
        decreases total - done,
    {
        entries[done] = EMPTY;
        done = done + 1;
    }
    assert(entries@ =~= Seq::new(old(entries)@.len(), |i: int| EMPTY));
}

/// Moves every entry of a table back by one window.
fn slide_entries(entries: &mut Vec<u32>)
    ensures
        final(entries)@ == old(entries)@.map_values(|entry: u32| slid(entry)),
{
    let total: usize = entries.len();
    let mut done: usize = 0;
    while done < total
        invariant
            done <= total,
            entries@.len() == total,
            total == old(entries)@.len(),
            forall|i: int| 0 <= i < done ==> entries@[i] == slid(old(entries)@[i]),
            forall|i: int| done <= i < total ==> entries@[i] == old(entries)@[i],
        decreases total - done,
    {
        let entry: u32 = entries[done];
        let moved: u32 = if entry == EMPTY || entry < WINDOW {
            EMPTY
        } else {
            entry - WINDOW
        };
        entries[done] = moved;
        done = done + 1;
    }
    assert(entries@ =~= old(entries)@.map_values(|entry: u32| slid(entry)));
}

} // verus!
