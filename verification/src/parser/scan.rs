//! Owns the decisions a parse makes: where it searches, what it takes, and what it skips.
//!
//! Each strategy is a scan: a position moved forward by one decision at a time until the data
//! ends. A taken match closes a step of the plan, and what stands between the end of the last
//! match and the position is the literal run the next step opens with.

use vstd::prelude::*;

use crate::entropy::least;
use crate::matchfinder::{
    copies, first_unhashable, law_search_copies, law_single_search_copies,
    lemma_insert_keeps_the_tables, single_insert, single_insert_range, single_search,
    BoundedHashChain, ChainState, SingleHash, CHAIN_DEPTH_BALANCED, SEARCH_DEPTH,
};
use crate::sequence::{grown, pushable, Alphabet, Match, Plan, Sequences, MAX_LITERAL_RUN};

verus! {

/// The shift the skip schedule ramps on: 64 searches per step.
pub const SKIP_SHIFT: u32 = 6;

/// The positions a miss streak moves the search by: one for the first 64 consecutive searched
/// misses, two for the next 64, and so on.
pub open spec fn jump(streak: nat) -> nat {
    1 + streak / 64
}

/// The plan of a block that has placed no step.
pub open spec fn nothing() -> Plan {
    Plan { literals: Seq::empty(), steps: Seq::empty() }
}

/// Whether a plan is inside its domains and every step of it carries a match, so that one more
/// may follow.
pub open spec fn open_plan(plan: Plan) -> bool {
    &&& plan.valid()
    &&& forall|i: int| 0 <= i < plan.steps.len() ==> (#[trigger] plan.steps[i]).matched is Some
}

/// The plan with the literal run that stands at the end of the data, where there is one.
pub open spec fn closed_plan(plan: Plan, data: Seq<u8>, run_start: nat) -> Plan {
    if run_start < data.len() {
        grown(plan, data.skip(run_start as int), None)
    } else {
        plan
    }
}

/// The plan with a match taken at `at` after the literal run that stands before it.
pub open spec fn taken(plan: Plan, data: Seq<u8>, run_start: nat, at: nat, found: Match) -> Plan {
    grown(plan, data.subrange(run_start as int, at as int), Some(found))
}

/// The bytes from a position to the end, or none past it.
pub open spec fn left(len: nat, at: nat) -> nat {
    if at < len {
        (len - at) as nat
    } else {
        0
    }
}

/// Where a FAST parse stands.
pub ghost struct FastScan {
    pub table: Seq<u32>,
    pub at: nat,
    pub run_start: nat,
    /// The consecutive searched misses.
    pub streak: nat,
    pub plan: Plan,
}

impl FastScan {
    /// A FAST parse at the start of a block.
    pub open spec fn open(table: Seq<u32>, start: nat) -> FastScan {
        FastScan { table, at: start, run_start: start, streak: 0, plan: nothing() }
    }

    /// One decision: a match is taken and the positions it covers are inserted, or the miss
    /// lengthens the streak and the search moves by its jump.
    pub open spec fn step(self, data: Seq<u8>) -> FastScan {
        let table = single_insert(self.table, data, self.at);
        match single_search(self.table, data, self.at) {
            None => FastScan {
                table,
                at: self.at + jump(self.streak + 1),
                streak: self.streak + 1,
                ..self
            },
            Some(found) => FastScan {
                table: single_insert_range(
                    table,
                    data,
                    self.at + 1,
                    self.at + found.length as nat,
                ),
                at: self.at + found.length as nat,
                run_start: self.at + found.length as nat,
                streak: 0,
                plan: taken(self.plan, data, self.run_start, self.at, found),
            },
        }
    }

    /// The decisions up to the end of the data.
    pub open spec fn scan(self, data: Seq<u8>) -> FastScan
        decreases left(data.len(), self.at),
    {
        if self.at >= data.len() {
            self
        } else {
            proof {
                law_single_search_copies(self.table, data, self.at);
            }
            self.step(data).scan(data)
        }
    }

    /// Whether the scan stands in a block that starts at `start`, with its plan open.
    pub open spec fn stands(self, data: Seq<u8>, start: nat) -> bool {
        &&& start <= self.run_start <= self.at
        &&& self.run_start <= data.len()
        &&& self.streak + self.run_start <= self.at
        &&& open_plan(self.plan)
    }
}

/// Where a greedy chain parse stands.
pub ghost struct ChainScan {
    pub chain: ChainState,
    /// The first position the chain has not been given.
    pub inserted: nat,
    pub at: nat,
    pub run_start: nat,
    pub plan: Plan,
}

impl ChainScan {
    /// A greedy chain parse at the start of a block.
    pub open spec fn open(chain: ChainState, inserted: nat, start: nat) -> ChainScan {
        ChainScan { chain, inserted, at: start, run_start: start, plan: nothing() }
    }

    /// One decision: every position before this one is in the chain, this one is searched and
    /// inserted, and a match it reports is taken.
    pub open spec fn step(self, data: Seq<u8>) -> ChainScan {
        let ready = self.chain.insert_range(data, self.inserted, self.at);
        let chain = ready.insert(data, self.at);
        match ready.search(SEARCH_DEPTH as nat, data, self.at) {
            None => ChainScan { chain, inserted: self.at + 1, at: self.at + 1, ..self },
            Some(found) => ChainScan {
                chain,
                inserted: self.at + 1,
                at: self.at + found.length as nat,
                run_start: self.at + found.length as nat,
                plan: taken(self.plan, data, self.run_start, self.at, found),
            },
        }
    }

    /// The decisions up to the end of the data.
    pub open spec fn scan(self, data: Seq<u8>) -> ChainScan
        decreases data.len() - self.at,
        when self.chain.valid()
    {
        if self.at >= data.len() {
            self
        } else {
            proof {
                lemma_range_valid(self.chain, data, self.inserted, self.at);
                law_search_copies(
                    self.chain.insert_range(data, self.inserted, self.at),
                    SEARCH_DEPTH as nat,
                    data,
                    self.at,
                );
            }
            self.step(data).scan(data)
        }
    }

    /// Whether the scan stands in a block that starts at `start`, with its plan open.
    pub open spec fn stands(self, data: Seq<u8>, start: nat) -> bool {
        &&& start <= self.run_start <= self.at <= data.len()
        &&& self.inserted <= self.at
        &&& self.chain.valid()
        &&& open_plan(self.plan)
    }
}

/// Where a length-lazy chain parse stands.
pub ghost struct LazyScan {
    pub chain: ChainState,
    /// The first position the chain has not been given.
    pub inserted: nat,
    pub at: nat,
    pub run_start: nat,
    /// The consecutive searched misses.
    pub streak: nat,
    /// Whether the position was reached by delaying the match at the one before it.
    pub delayed: bool,
    pub plan: Plan,
}

impl LazyScan {
    /// A length-lazy parse at the start of a block.
    pub open spec fn open(chain: ChainState, inserted: nat, start: nat) -> LazyScan {
        LazyScan {
            chain,
            inserted,
            at: start,
            run_start: start,
            streak: 0,
            delayed: false,
            plan: nothing(),
        }
    }

    /// The chain with every position before this one.
    pub open spec fn ready(self, data: Seq<u8>) -> ChainState {
        self.chain.insert_range(data, self.inserted, self.at)
    }

    /// The match this position reports.
    pub open spec fn current(self, data: Seq<u8>) -> Option<Match> {
        self.ready(data).search(CHAIN_DEPTH_BALANCED as nat, data, self.at)
    }

    /// The match the next position reports once this one is in the chain.
    pub open spec fn next(self, data: Seq<u8>) -> Option<Match> {
        self.ready(data).insert(data, self.at).search(
            CHAIN_DEPTH_BALANCED as nat,
            data,
            self.at + 1,
        )
    }

    /// Whether the match at this position is delayed by one literal: the next position reports
    /// a strictly longer one, and this position was not itself reached by a delay.
    pub open spec fn delays(self, data: Seq<u8>) -> bool {
        &&& !self.delayed
        &&& self.current(data) matches Some(current)
        &&& self.next(data) matches Some(next)
        &&& next.length > current.length
    }

    /// The position a miss moves to.
    pub open spec fn missed(self, data: Seq<u8>, skip: bool) -> nat {
        if !skip {
            self.at + 1
        } else if self.at + jump(self.streak + 1) <= data.len() {
            self.at + jump(self.streak + 1)
        } else {
            data.len()
        }
    }

    /// One decision: a miss moves the search, a match the next position betters is delayed, and
    /// any other match is taken and the positions it covers are inserted.
    pub open spec fn step(self, data: Seq<u8>, skip: bool) -> LazyScan {
        let chain = self.ready(data).insert(data, self.at);
        match self.current(data) {
            None => LazyScan {
                chain,
                inserted: self.missed(data, skip),
                at: self.missed(data, skip),
                streak: if skip {
                    self.streak + 1
                } else {
                    self.streak
                },
                delayed: false,
                ..self
            },
            Some(found) => if self.delays(data) {
                LazyScan {
                    chain,
                    inserted: self.at + 1,
                    at: self.at + 1,
                    delayed: true,
                    ..self
                }
            } else {
                LazyScan {
                    chain: chain.insert_range(data, self.at + 1, self.at + found.length as nat),
                    inserted: self.at + found.length as nat,
                    at: self.at + found.length as nat,
                    run_start: self.at + found.length as nat,
                    streak: 0,
                    delayed: false,
                    plan: taken(self.plan, data, self.run_start, self.at, found),
                }
            },
        }
    }

    /// The decisions up to the end of the data.
    pub open spec fn scan(self, data: Seq<u8>, skip: bool) -> LazyScan
        decreases data.len() - self.at,
        when self.chain.valid()
    {
        if self.at >= data.len() {
            self
        } else {
            proof {
                lemma_range_valid(self.chain, data, self.inserted, self.at);
                law_search_copies(
                    self.ready(data),
                    CHAIN_DEPTH_BALANCED as nat,
                    data,
                    self.at,
                );
            }
            self.step(data, skip).scan(data, skip)
        }
    }

    /// Whether the scan stands in a block that starts at `start`, with its plan open.
    pub open spec fn stands(self, data: Seq<u8>, start: nat) -> bool {
        &&& start <= self.run_start <= self.at <= data.len()
        &&& self.inserted <= self.at
        &&& self.streak + self.run_start <= self.at
        &&& self.chain.valid()
        &&& open_plan(self.plan)
    }
}

/// Inserting positions keeps the tables of a chain whole.
pub proof fn lemma_range_valid(chain: ChainState, data: Seq<u8>, from: nat, to: nat)
    requires
        chain.valid(),
    ensures
        chain.insert_range(data, from, to).valid(),
    decreases to - from,
{
    if from < to {
        lemma_range_valid(chain, data, from, (to - 1) as nat);
        lemma_insert_keeps_the_tables(
            chain.insert_range(data, from, (to - 1) as nat),
            data,
            (to - 1) as nat,
        );
    }
}

/// A match that copies the bytes it stands for is inside its domains.
pub proof fn lemma_copies_in_domain(data: Seq<u8>, at: nat, found: Match)
    requires
        copies(data, at, found),
    ensures
        found.in_domain(),
{
}

/// A plan a match is taken onto stays open.
pub proof fn lemma_taken(plan: Plan, data: Seq<u8>, run_start: nat, at: nat, found: Match)
    requires
        open_plan(plan),
        run_start <= at <= data.len(),
        at - run_start <= MAX_LITERAL_RUN,
        copies(data, at, found),
    ensures
        pushable(plan, data.subrange(run_start as int, at as int), Some(found)),
        open_plan(taken(plan, data, run_start, at, found)),
{
    lemma_copies_in_domain(data, at, found);
    let after = taken(plan, data, run_start, at, found);
    lemma_grown_valid(plan, data.subrange(run_start as int, at as int), Some(found));
    assert forall|i: int| 0 <= i < after.steps.len() implies (
    #[trigger] after.steps[i]).matched is Some by {
        if i < plan.steps.len() {
            assert(after.steps[i] == plan.steps[i]);
        }
    }
}

/// A plan one admitted step grows stays valid.
pub proof fn lemma_grown_valid(plan: Plan, literals: Seq<u8>, matched: Option<Match>)
    requires
        open_plan(plan),
        literals.len() <= MAX_LITERAL_RUN,
        matched matches Some(found) ==> found.in_domain(),
    ensures
        pushable(plan, literals, matched),
        grown(plan, literals, matched).valid(),
{
    let after = grown(plan, literals, matched);
    assert(after.steps.drop_last() =~= plan.steps);
    if plan.steps.len() > 0 {
        assert(plan.steps[plan.steps.len() - 1].matched is Some);
    }
    assert forall|i: int| 0 <= i < after.steps.len() implies (
    #[trigger] after.steps[i]).in_domain() by {
        if i < plan.steps.len() {
            assert(after.steps[i] == plan.steps[i]);
        } else {
            assert(Alphabet::LiteralRun.holds(literals.len()));
        }
    }
    assert forall|i: int| 0 <= i < after.steps.len() - 1 implies (
    #[trigger] after.steps[i]).matched is Some by {
        assert(after.steps[i] == plan.steps[i]);
    }
}

/// A decision of a FAST parse moves forward and keeps its standing.
pub proof fn lemma_fast_step(scan: FastScan, data: Seq<u8>, start: nat)
    requires
        scan.stands(data, start),
        scan.at < data.len(),
        data.len() - start <= MAX_LITERAL_RUN,
    ensures
        scan.step(data).stands(data, start),
        scan.step(data).at > scan.at,
{
    law_single_search_copies(scan.table, data, scan.at);
    if let Some(found) = single_search(scan.table, data, scan.at) {
        lemma_taken(scan.plan, data, scan.run_start, scan.at, found);
    }
}

/// A decision of a greedy chain parse moves forward and keeps its standing.
pub proof fn lemma_chain_step(scan: ChainScan, data: Seq<u8>, start: nat)
    requires
        scan.stands(data, start),
        scan.at < data.len(),
        data.len() - start <= MAX_LITERAL_RUN,
    ensures
        scan.step(data).stands(data, start),
        scan.step(data).at > scan.at,
{
    let ready = scan.chain.insert_range(data, scan.inserted, scan.at);
    lemma_range_valid(scan.chain, data, scan.inserted, scan.at);
    law_search_copies(ready, SEARCH_DEPTH as nat, data, scan.at);
    lemma_insert_keeps_the_tables(ready, data, scan.at);
    if let Some(found) = ready.search(SEARCH_DEPTH as nat, data, scan.at) {
        lemma_taken(scan.plan, data, scan.run_start, scan.at, found);
    }
}

/// A decision of a length-lazy parse moves forward and keeps its standing.
pub proof fn lemma_lazy_step(scan: LazyScan, data: Seq<u8>, skip: bool, start: nat)
    requires
        scan.stands(data, start),
        scan.at < data.len(),
        data.len() - start <= MAX_LITERAL_RUN,
    ensures
        scan.step(data, skip).stands(data, start),
        scan.step(data, skip).at > scan.at,
{
    let ready = scan.ready(data);
    lemma_range_valid(scan.chain, data, scan.inserted, scan.at);
    law_search_copies(ready, CHAIN_DEPTH_BALANCED as nat, data, scan.at);
    lemma_insert_keeps_the_tables(ready, data, scan.at);
    if let Some(found) = scan.current(data) {
        lemma_taken(scan.plan, data, scan.run_start, scan.at, found);
        lemma_range_valid(
            ready.insert(data, scan.at),
            data,
            scan.at + 1,
            scan.at + found.length as nat,
        );
    }
}

/// The positions a miss streak skips over.
///
/// The schedule reads the streak and nothing else, which is what keeps the parse
/// deterministic.
pub fn skip_jump(streak: u32) -> (positions: usize)
    ensures
        positions == jump(streak as nat),
{
    assert(streak >> 6u32 == streak / 64) by (bit_vector);
    1 + (streak >> SKIP_SHIFT) as usize
}

/// Appends the step of a match taken at `at`.
fn take(sequences: &mut Sequences, data: &[u8], run_start: usize, at: usize, found: Match)
    requires
        open_plan(old(sequences)@),
        run_start <= at <= data@.len(),
        at - run_start <= MAX_LITERAL_RUN,
        copies(data@, at as nat, found),
    ensures
        final(sequences)@ == taken(
            old(sequences)@,
            data@,
            run_start as nat,
            at as nat,
            found,
        ),
        open_plan(final(sequences)@),
{
    proof {
        lemma_taken(sequences@, data@, run_start as nat, at as nat, found);
    }
    let run = vstd::slice::slice_subrange(data, run_start, at);
    let pushed = sequences.push(run, Some(found));
    assert(pushed is Ok);
}

/// Appends the step of the literal run at the end of the data, where there is one.
fn close(sequences: &mut Sequences, data: &[u8], run_start: usize)
    requires
        open_plan(old(sequences)@),
        run_start <= data@.len(),
        data@.len() - run_start <= MAX_LITERAL_RUN,
    ensures
        final(sequences)@ == closed_plan(old(sequences)@, data@, run_start as nat),
        final(sequences)@.valid(),
{
    let end: usize = data.len();
    if run_start < end {
        let run = vstd::slice::slice_subrange(data, run_start, end);
        proof {
            assert(run@ =~= data@.skip(run_start as int));
            lemma_grown_valid(sequences@, run@, None);
        }
        let pushed = sequences.push(run, None);
        assert(pushed is Ok);
    }
}

/// Inserts every position of a range into a chain, in order.
fn insert_all(chain: &mut BoundedHashChain, data: &[u8], from: usize, to: usize)
    requires
        old(chain).valid(),
    ensures
        final(chain).valid(),
        final(chain)@ == old(chain)@.insert_range(data@, from as nat, to as nat),
        final(chain).searches() == old(chain).searches(),
        final(chain).compares() == old(chain).compares(),
{
    let mut next: usize = from;
    while next < to
        invariant
            from <= next,
            from <= to ==> next <= to,
            from > to ==> next == from,
            chain.valid(),
            chain@ == old(chain)@.insert_range(data@, from as nat, next as nat),
            chain.searches() == old(chain).searches(),
            chain.compares() == old(chain).compares(),
        decreases to - next,
    {
        chain.insert(data, next);
        next = next + 1;
    }
}

/// The sequences of the FAST parse of the bytes that stand from `start` to the end of the
/// data.
///
/// The skip schedule resets at each block start: a streak never crosses a block boundary.
pub(crate) fn parse_fast(
    table: &mut SingleHash,
    data: &[u8],
    start: usize,
    sequences: &mut Sequences,
)
    requires
        old(table).valid(),
        start <= data@.len() <= 0x7FFF_FFFF,
        data@.len() - start <= MAX_LITERAL_RUN,
    ensures
        final(table).valid(),
        final(table).compares() == old(table).compares(),
        final(table)@ == FastScan::open(old(table)@, start as nat).scan(data@).table,
        final(sequences)@ == closed_plan(
            FastScan::open(old(table)@, start as nat).scan(data@).plan,
            data@,
            FastScan::open(old(table)@, start as nat).scan(data@).run_start,
        ),
        final(sequences)@.valid(),
{
    sequences.clear();
    let end: usize = data.len();
    let mut run_start: usize = start;
    let mut at: usize = start;
    let mut streak: u32 = 0;
    let ghost whole = FastScan::open(table@, start as nat).scan(data@);
    let ghost mut here = FastScan::open(table@, start as nat);
    while at < end
        invariant
            end == data@.len(),
            end <= 0x7FFF_FFFF,
            start <= end,
            end - start <= MAX_LITERAL_RUN,
            table.valid(),
            table.compares() == old(table).compares(),
            here.stands(data@, start as nat),
            here.scan(data@) == whole,
            here == (FastScan {
                table: table@,
                at: at as nat,
                run_start: run_start as nat,
                streak: streak as nat,
                plan: sequences@,
            }),
            at < end + 2000,
        decreases left(end as nat, at as nat),
    {
        let ghost before = table@;
        proof {
            lemma_fast_step(here, data@, start as nat);
            law_single_search_copies(table@, data@, at as nat);
            here = here.step(data@);
        }
        match table.search(data, at) {
            None => {
                streak = streak + 1;
                at = at + skip_jump(streak);
            },
            Some(found) => {
                streak = 0;
                take(sequences, data, run_start, at, found);
                let from: usize = at + 1;
                at = at + found.length as usize;
                run_start = at;
                // The searched position entered the table in the search; the covered ones
                // enter here. Skipped positions stay out.
                let ghost searched = table@;
                let mut covered: usize = from;
                while covered < at
                    invariant
                        from <= covered <= at,
                        table.valid(),
                        table.compares() == old(table).compares(),
                        table@ == single_insert_range(
                            searched,
                            data@,
                            from as nat,
                            covered as nat,
                        ),
                    decreases at - covered,
                {
                    table.insert(data, covered);
                    covered = covered + 1;
                }
            },
        }
    }
    close(sequences, data, run_start);
}

/// The sequences of the greedy chain parse of the bytes that stand from `start` to the end of
/// the data.
///
/// The last positions of a block are offered to a chain that cannot hash them, because the
/// bytes its hash reads are not there yet. The next call holds them, so they are offered again
/// rather than left out of the chain for good.
pub(crate) fn parse_chain(
    chain: &mut BoundedHashChain,
    data: &[u8],
    start: usize,
    inserted: usize,
    sequences: &mut Sequences,
) -> (offered: usize)
    requires
        old(chain).valid(),
        old(chain).searches() == SEARCH_DEPTH,
        inserted <= start <= data@.len() <= 0x7FFF_FFFF,
        data@.len() - start <= MAX_LITERAL_RUN,
    ensures
        final(chain).valid(),
        final(chain).searches() == old(chain).searches(),
        final(chain).compares() == old(chain).compares(),
        final(chain)@ == ChainScan::open(old(chain)@, inserted as nat, start as nat).scan(
            data@,
        ).chain,
        offered == least(
            ChainScan::open(old(chain)@, inserted as nat, start as nat).scan(data@).inserted,
            first_unhashable(data@.len()),
        ),
        final(sequences)@ == closed_plan(
            ChainScan::open(old(chain)@, inserted as nat, start as nat).scan(data@).plan,
            data@,
            ChainScan::open(old(chain)@, inserted as nat, start as nat).scan(data@).run_start,
        ),
        final(sequences)@.valid(),
{
    sequences.clear();
    let end: usize = data.len();
    let mut run_start: usize = start;
    let mut at: usize = start;
    let mut given: usize = inserted;
    let ghost whole = ChainScan::open(chain@, inserted as nat, start as nat).scan(data@);
    let ghost mut here = ChainScan::open(chain@, inserted as nat, start as nat);
    while at < end
        invariant
            end == data@.len(),
            end <= 0x7FFF_FFFF,
            start <= end,
            end - start <= MAX_LITERAL_RUN,
            chain.valid(),
            chain.searches() == old(chain).searches(),
            chain.searches() == SEARCH_DEPTH,
            chain.compares() == old(chain).compares(),
            here.stands(data@, start as nat),
            here.scan(data@) == whole,
            here == (ChainScan {
                chain: chain@,
                inserted: given as nat,
                at: at as nat,
                run_start: run_start as nat,
                plan: sequences@,
            }),
        decreases end - at,
    {
        proof {
            lemma_chain_step(here, data@, start as nat);
            here = here.step(data@);
        }
        // Searching at a position requires every position before it to be in the chain, which
        // the positions a taken match covered are not yet.
        insert_all(chain, data, given, at);
        proof {
            law_search_copies(chain@, SEARCH_DEPTH as nat, data@, at as nat);
        }
        let found = chain.step(data, at);
        given = at + 1;
        match found.matched {
            None => {
                at = at + 1;
            },
            Some(found) => {
                take(sequences, data, run_start, at, found);
                at = at + found.length as usize;
                run_start = at;
            },
        }
    }
    close(sequences, data, run_start);
    let reach: usize = BoundedHashChain::insertable_end(end);
    if given < reach {
        given
    } else {
        reach
    }
}

/// The sequences of the BALANCED length-lazy parse of the bytes that stand from `start` to the
/// end of the data.
///
/// At a position with a match, the parse inserts it, reads the match the next position
/// reports, and delays one literal when that one is strictly longer. After one delay the match
/// is taken: no second consecutive delay exists.
///
/// When `skip` holds, consecutive searched misses advance the search by the streak's jump, a
/// taken match and each block start reset the streak, and skipped positions are never searched
/// nor inserted. When it is cleared the parse searches every position.
pub(crate) fn parse_balanced(
    chain: &mut BoundedHashChain,
    data: &[u8],
    start: usize,
    inserted: usize,
    skip: bool,
    sequences: &mut Sequences,
) -> (offered: usize)
    requires
        old(chain).valid(),
        old(chain).searches() == CHAIN_DEPTH_BALANCED,
        inserted <= start <= data@.len() <= 0x7FFF_FFFF,
        data@.len() - start <= MAX_LITERAL_RUN,
    ensures
        final(chain).valid(),
        final(chain).searches() == old(chain).searches(),
        final(chain).compares() == old(chain).compares(),
        final(chain)@ == LazyScan::open(old(chain)@, inserted as nat, start as nat).scan(
            data@,
            skip,
        ).chain,
        offered == least(
            LazyScan::open(old(chain)@, inserted as nat, start as nat).scan(data@, skip).inserted,
            first_unhashable(data@.len()),
        ),
        final(sequences)@ == closed_plan(
            LazyScan::open(old(chain)@, inserted as nat, start as nat).scan(data@, skip).plan,
            data@,
            LazyScan::open(old(chain)@, inserted as nat, start as nat).scan(data@, skip).run_start,
        ),
        final(sequences)@.valid(),
{
    sequences.clear();
    let end: usize = data.len();
    let mut run_start: usize = start;
    let mut at: usize = start;
    let mut given: usize = inserted;
    let mut streak: u32 = 0;
    let mut delayed: bool = false;
    let mut pending: Option<Match> = None;
    let ghost whole = LazyScan::open(chain@, inserted as nat, start as nat).scan(data@, skip);
    let ghost mut here = LazyScan::open(chain@, inserted as nat, start as nat);
    while at < end
        invariant
            end == data@.len(),
            end <= 0x7FFF_FFFF,
            start <= end,
            end - start <= MAX_LITERAL_RUN,
            chain.valid(),
            chain.searches() == old(chain).searches(),
            chain.searches() == CHAIN_DEPTH_BALANCED,
            chain.compares() == old(chain).compares(),
            here.stands(data@, start as nat),
            here.scan(data@, skip) == whole,
            here == (LazyScan {
                chain: chain@,
                inserted: given as nat,
                at: at as nat,
                run_start: run_start as nat,
                streak: streak as nat,
                delayed,
                plan: sequences@,
            }),
            pending is Some ==> given == at && pending == chain@.search(
                CHAIN_DEPTH_BALANCED as nat,
                data@,
                at as nat,
            ),
        decreases end - at,
    {
        let ghost stood = here;
        proof {
            lemma_lazy_step(here, data@, skip, start as nat);
            here = here.step(data@, skip);
        }
        insert_all(chain, data, given, at);
        proof {
            law_search_copies(chain@, CHAIN_DEPTH_BALANCED as nat, data@, at as nat);
        }
        let current: Option<Match> = match pending {
            Some(found) => Some(found),
            None => chain.peek(data, at).matched,
        };
        assert(current == stood.current(data@));
        pending = None;
        chain.insert(data, at);
        given = at + 1;
        match current {
            None => {
                if skip {
                    streak = streak + 1;
                    let moved: usize = at + skip_jump(streak);
                    at = if moved <= end {
                        moved
                    } else {
                        end
                    };
                    // Skipped positions stay out of the chain: the miss was searched and
                    // inserted, the jumped-over positions are neither.
                    given = at;
                } else {
                    at = at + 1;
                }
                delayed = false;
            },
            Some(found) => {
                let next: Option<Match> = if delayed {
                    None
                } else {
                    chain.peek(data, at + 1).matched
                };
                let longer: bool = match next {
                    Some(next) => next.length > found.length,
                    None => false,
                };
                assert(longer == stood.delays(data@));
                if longer {
                    at = at + 1;
                    pending = next;
                    delayed = true;
                } else {
                    take(sequences, data, run_start, at, found);
                    let take_end: usize = at + found.length as usize;
                    insert_all(chain, data, given, take_end);
                    given = take_end;
                    at = take_end;
                    run_start = take_end;
                    streak = 0;
                    delayed = false;
                }
            },
        }
    }
    close(sequences, data, run_start);
    let reach: usize = BoundedHashChain::insertable_end(end);
    if given < reach {
        given
    } else {
        reach
    }
}

} // verus!
