//! Owns what holds of every parse: that its sequences decode to the block, that they fit the
//! storage a block declares, and what the parser carries to the next block.

use vstd::prelude::*;

use crate::block::expand::{
    expansion, lemma_copied_unique, lemma_steps_expanded, match_expanded, steps_expanded,
};
use crate::block::laws::lemma_step_count;
use crate::entropy::least;
use crate::format::Error;
use crate::matchfinder::{
    copies, first_unhashable, law_search_copies, law_single_search_copies,
    lemma_insert_keeps_the_tables, single_insert, single_insert_range, single_search, ChainState,
    CHAIN_DEPTH_BALANCED, HEAD_ENTRIES, SEARCH_DEPTH,
};
use crate::parser::scan::{
    closed_plan, left, lemma_chain_step, lemma_fast_step, lemma_grown_valid, lemma_lazy_step,
    lemma_range_valid, open_plan, taken, ChainScan, FastScan, LazyScan,
};
use crate::parser::{MatcherState, ParserState, CAPACITY, MAX_PARSE_BYTES};
use crate::sequence::{decoded_total, grown, Match, Plan, Step, MAX_LITERAL_RUN};

verus! {

/// Whether a history ends in the bytes another one holds.
pub open spec fn ends_in(history: Seq<u8>, tail: Seq<u8>) -> bool {
    &&& tail.len() <= history.len()
    &&& history.skip(history.len() - tail.len()) == tail
}

/// The last window of the bytes before a position.
pub open spec fn recent(data: Seq<u8>, start: nat) -> Seq<u8> {
    if start <= MAX_PARSE_BYTES {
        data.take(start as int)
    } else {
        data.subrange(start - MAX_PARSE_BYTES, start as int)
    }
}

/// Whether a plan's steps expand to the data from `start` to `upto`.
pub open spec fn covers(
    plan: Plan,
    data: Seq<u8>,
    start: nat,
    upto: nat,
    history: Seq<u8>,
) -> bool {
    steps_expanded(plan, history, (data.len() - start) as nat, plan.steps.len()) == Ok::<
        (Seq<u8>, nat),
        (Error, Seq<u8>),
    >((data.subrange(start as int, upto as int), plan.literals.len()))
}

/// One more step leaves what the steps before it expand to.
proof fn lemma_grown_prefix(
    plan: Plan,
    literals: Seq<u8>,
    matched: Option<Match>,
    history: Seq<u8>,
    limit: nat,
    count: nat,
)
    requires
        count <= plan.steps.len(),
        steps_expanded(plan, history, limit, count) is Ok,
    ensures
        steps_expanded(grown(plan, literals, matched), history, limit, count) == steps_expanded(
            plan,
            history,
            limit,
            count,
        ),
    decreases count,
{
    if count > 0 {
        lemma_grown_prefix(plan, literals, matched, history, limit, (count - 1) as nat);
        let after = grown(plan, literals, matched);
        assert(after.steps[count - 1] == plan.steps[count - 1]);
        let (_, taken) = steps_expanded(plan, history, limit, (count - 1) as nat)->Ok_0;
        let run = plan.steps[count - 1].run as nat;
        assert(after.literals.subrange(taken as int, (taken + run) as int)
            =~= plan.literals.subrange(taken as int, (taken + run) as int));
    }
}

/// A match that copies the bytes it stands for expands to them, over any history that ends in
/// the last window before the block.
proof fn lemma_match_expands(
    data: Seq<u8>,
    start: nat,
    at: nat,
    found: Match,
    history: Seq<u8>,
)
    requires
        start <= at,
        copies(data, at, found),
        ends_in(history, recent(data, start)),
        history.len() + data.len() - start <= usize::MAX,
    ensures
        match_expanded(
            history,
            (data.len() - start) as nat,
            data.subrange(start as int, at as int),
            found,
        ) == Ok::<Seq<u8>, Error>(data.subrange(start as int, (at + found.length) as int)),
{
    let written = data.subrange(start as int, at as int);
    let region = history + written;
    let distance = found.distance as int;
    let end = at + found.length;
    let whole = history + data.subrange(start as int, end as int);
    let h = history.len() as int;
    let tail = recent(data, start);
    assert(found.distance <= region.len());
    assert forall|i: int| region.len() <= i < whole.len() implies #[trigger] whole[i] == whole[i
        - distance] by {
        let p = i - h + start;
        let k = p - at;
        assert(whole[i] == data[p]);
        assert(data[(at - distance) + k] == data[at + k]);
        assert(data[p - distance] == data[p]);
        if p - distance >= start {
            assert(whole[i - distance] == data[p - distance]);
        } else {
            let back = start - (p - distance);
            assert(1 <= back <= tail.len());
            assert(history[h - back] == history.skip(h - tail.len())[tail.len() - back]);
            assert(tail[tail.len() - back] == data[start - back]);
            assert(whole[i - distance] == history[h - back]);
        }
    }
    lemma_copied_unique(region, found.distance as nat, found.length as nat, whole);
    assert(whole.skip(h) =~= data.subrange(start as int, end as int));
}

/// A plan that covers the data up to the end of its last match covers one more match taken
/// after a literal run.
proof fn lemma_taken_covers(
    plan: Plan,
    data: Seq<u8>,
    start: nat,
    run_start: nat,
    at: nat,
    found: Match,
    history: Seq<u8>,
)
    requires
        covers(plan, data, start, run_start, history),
        start <= run_start <= at,
        at - run_start <= MAX_LITERAL_RUN,
        copies(data, at, found),
        ends_in(history, recent(data, start)),
        history.len() + data.len() - start <= usize::MAX,
    ensures
        covers(
            taken(plan, data, run_start, at, found),
            data,
            start,
            at + found.length as nat,
            history,
        ),
{
    let literals = data.subrange(run_start as int, at as int);
    let after = taken(plan, data, run_start, at, found);
    let limit = (data.len() - start) as nat;
    let count = plan.steps.len();
    lemma_grown_prefix(plan, literals, Some(found), history, limit, count);
    assert(after.steps[count as int] == (Step { run: literals.len() as u32, matched: Some(found) }));
    assert(after.literals.subrange(
        plan.literals.len() as int,
        (plan.literals.len() + literals.len()) as int,
    ) =~= literals);
    assert(data.subrange(start as int, run_start as int) + literals =~= data.subrange(
        start as int,
        at as int,
    ));
    lemma_match_expands(data, start, at, found, history);
}

/// A plan that covers the data up to the end of its last match decodes to the block once the
/// literal run at its end is placed.
proof fn lemma_closed_decodes(
    plan: Plan,
    data: Seq<u8>,
    start: nat,
    run_start: nat,
    history: Seq<u8>,
)
    requires
        open_plan(plan),
        covers(plan, data, start, run_start, history),
        start <= run_start <= data.len(),
        data.len() - start <= MAX_LITERAL_RUN,
    ensures
        closed_plan(plan, data, run_start).valid(),
        expansion(closed_plan(plan, data, run_start), history, (data.len() - start) as nat) == Ok::<
            Seq<u8>,
            (Error, Seq<u8>),
        >(data.skip(start as int)),
{
    let limit = (data.len() - start) as nat;
    if run_start < data.len() {
        let literals = data.skip(run_start as int);
        let after = closed_plan(plan, data, run_start);
        let count = plan.steps.len();
        lemma_grown_valid(plan, literals, None);
        lemma_grown_prefix(plan, literals, None, history, limit, count);
        assert(after.steps[count as int] == (Step { run: literals.len() as u32, matched: None }));
        assert(after.literals.subrange(
            plan.literals.len() as int,
            (plan.literals.len() + literals.len()) as int,
        ) =~= literals);
        assert(data.subrange(start as int, run_start as int) + literals =~= data.skip(
            start as int,
        ));
    } else {
        assert(data.subrange(start as int, run_start as int) =~= data.skip(start as int));
    }
}

/// A plan that has placed no step covers nothing.
proof fn lemma_nothing_covers(data: Seq<u8>, start: nat, history: Seq<u8>)
    requires
        start <= data.len(),
    ensures
        open_plan(crate::parser::scan::nothing()),
        covers(crate::parser::scan::nothing(), data, start, start, history),
{
    assert(data.subrange(start as int, start as int) =~= Seq::empty());
}

/// The decisions of a FAST parse cover the data up to the end of the last match.
proof fn lemma_fast_covers(scan: FastScan, data: Seq<u8>, start: nat, history: Seq<u8>)
    requires
        scan.stands(data, start),
        scan.table.len() == HEAD_ENTRIES,
        data.len() - start <= MAX_LITERAL_RUN,
        covers(scan.plan, data, start, scan.run_start, history),
        ends_in(history, recent(data, start)),
        history.len() + data.len() - start <= usize::MAX,
    ensures
        scan.scan(data).stands(data, start),
        scan.scan(data).table.len() == HEAD_ENTRIES,
        covers(scan.scan(data).plan, data, start, scan.scan(data).run_start, history),
    decreases left(data.len(), scan.at),
{
    if scan.at < data.len() {
        lemma_fast_step(scan, data, start);
        law_single_search_copies(scan.table, data, scan.at);
        let table = single_insert(scan.table, data, scan.at);
        lemma_insert_keeps_the_tables(
            ChainState { head: scan.table, link: scan.table },
            data,
            scan.at,
        );
        if let Some(found) = single_search(scan.table, data, scan.at) {
            lemma_taken_covers(
                scan.plan,
                data,
                start,
                scan.run_start,
                scan.at,
                found,
                history,
            );
            lemma_single_range_len(table, data, scan.at + 1, scan.at + found.length as nat);
        }
        lemma_fast_covers(scan.step(data), data, start, history);
    }
}

/// Inserting positions keeps the single table whole.
proof fn lemma_single_range_len(table: Seq<u32>, data: Seq<u8>, from: nat, to: nat)
    requires
        table.len() == HEAD_ENTRIES,
    ensures
        single_insert_range(table, data, from, to).len() == HEAD_ENTRIES,
    decreases to - from,
{
    if from < to {
        lemma_single_range_len(table, data, from, (to - 1) as nat);
        let before = single_insert_range(table, data, from, (to - 1) as nat);
        lemma_insert_keeps_the_tables(
            ChainState { head: before, link: before },
            data,
            (to - 1) as nat,
        );
    }
}

/// The decisions of a greedy chain parse cover the data up to the end of the last match.
proof fn lemma_chain_covers(scan: ChainScan, data: Seq<u8>, start: nat, history: Seq<u8>)
    requires
        scan.stands(data, start),
        data.len() - start <= MAX_LITERAL_RUN,
        covers(scan.plan, data, start, scan.run_start, history),
        ends_in(history, recent(data, start)),
        history.len() + data.len() - start <= usize::MAX,
    ensures
        scan.scan(data).stands(data, start),
        covers(scan.scan(data).plan, data, start, scan.scan(data).run_start, history),
    decreases data.len() - scan.at,
{
    if scan.at < data.len() {
        lemma_chain_step(scan, data, start);
        let ready = scan.chain.insert_range(data, scan.inserted, scan.at);
        lemma_range_valid(scan.chain, data, scan.inserted, scan.at);
        law_search_copies(ready, SEARCH_DEPTH as nat, data, scan.at);
        if let Some(found) = ready.search(SEARCH_DEPTH as nat, data, scan.at) {
            lemma_taken_covers(
                scan.plan,
                data,
                start,
                scan.run_start,
                scan.at,
                found,
                history,
            );
        }
        lemma_chain_covers(scan.step(data), data, start, history);
    }
}

/// The decisions of a length-lazy parse cover the data up to the end of the last match.
proof fn lemma_lazy_covers(
    scan: LazyScan,
    data: Seq<u8>,
    skip: bool,
    start: nat,
    history: Seq<u8>,
)
    requires
        scan.stands(data, start),
        data.len() - start <= MAX_LITERAL_RUN,
        covers(scan.plan, data, start, scan.run_start, history),
        ends_in(history, recent(data, start)),
        history.len() + data.len() - start <= usize::MAX,
    ensures
        scan.scan(data, skip).stands(data, start),
        covers(scan.scan(data, skip).plan, data, start, scan.scan(data, skip).run_start, history),
    decreases data.len() - scan.at,
{
    if scan.at < data.len() {
        lemma_lazy_step(scan, data, skip, start);
        lemma_range_valid(scan.chain, data, scan.inserted, scan.at);
        law_search_copies(scan.ready(data), CHAIN_DEPTH_BALANCED as nat, data, scan.at);
        if let Some(found) = scan.current(data) {
            lemma_taken_covers(
                scan.plan,
                data,
                start,
                scan.run_start,
                scan.at,
                found,
                history,
            );
        }
        lemma_lazy_covers(scan.step(data, skip), data, skip, start, history);
    }
}

/// A slide keeps the history a block may reach, and leaves room for the block.
pub proof fn law_a_slide_keeps_the_history(state: ParserState, len: nat)
    requires
        state.valid(),
        len <= MAX_PARSE_BYTES,
    ensures
        state.room(len).valid(),
        state.room(len).window.len() + len <= CAPACITY,
        state.room(len).history() == state.history(),
{
    let room = state.room(len);
    assert(room.history() =~= state.history());
}

/// The last window before a staged block is the history the parser promised.
pub proof fn lemma_staged(state: ParserState, input: Seq<u8>)
    requires
        state.valid(),
        input.len() <= MAX_PARSE_BYTES,
    ensures
        state.staged(input).valid(),
        state.staged(input).window.len() == state.start(input) + input.len(),
        state.staged(input).window.skip(state.start(input) as int) == input,
        recent(state.staged(input).window, state.start(input)) == state.history(),
        state.staged(input).inserted <= state.start(input),
{
    law_a_slide_keeps_the_history(state, input.len());
    let room = state.room(input.len());
    let data = state.staged(input).window;
    assert(data.skip(room.window.len() as int) =~= input);
    assert(recent(data, state.start(input)) =~= room.history());
}

/// A parse decodes to its input: the plan is inside its domains, and it expands to exactly the
/// block over any history that ends in the one the parser carries.
pub proof fn law_parse_decodes_to_its_input(
    state: ParserState,
    input: Seq<u8>,
    history: Seq<u8>,
)
    requires
        state.valid(),
        input.len() <= MAX_PARSE_BYTES,
        ends_in(history, state.history()),
        history.len() + input.len() <= usize::MAX,
    ensures
        state.plan(input).valid(),
        expansion(state.plan(input), history, input.len()) == Ok::<Seq<u8>, (Error, Seq<u8>)>(
            input,
        ),
{
    lemma_staged(state, input);
    let staged = state.staged(input);
    let data = staged.window;
    let start = state.start(input);
    lemma_nothing_covers(data, start, history);
    match staged.matcher {
        MatcherState::Fast(table) => {
            let scan = FastScan::open(table, start);
            lemma_fast_covers(scan, data, start, history);
            let done = scan.scan(data);
            lemma_closed_decodes(done.plan, data, start, done.run_start, history);
        },
        MatcherState::Chain(chain) => {
            let scan = ChainScan::open(chain, staged.inserted, start);
            lemma_chain_covers(scan, data, start, history);
            let done = scan.scan(data);
            lemma_closed_decodes(done.plan, data, start, done.run_start, history);
        },
        MatcherState::Balanced(chain) => {
            let scan = LazyScan::open(chain, staged.inserted, start);
            lemma_lazy_covers(scan, data, staged.skip, start, history);
            let done = scan.scan(data, staged.skip);
            lemma_closed_decodes(done.plan, data, start, done.run_start, history);
        },
    }
}

/// A parser stays whole across a block, and the history it then carries is the last window of
/// the one it carried with the block after it.
pub proof fn law_history_follows_the_input(state: ParserState, input: Seq<u8>)
    requires
        state.valid(),
        input.len() <= MAX_PARSE_BYTES,
    ensures
        state.after(input).valid(),
        ends_in(state.history() + input, state.after(input).history()),
        state.after(input).history().len() == least(
            state.history().len() + input.len(),
            MAX_PARSE_BYTES as nat,
        ),
{
    lemma_staged(state, input);
    let staged = state.staged(input);
    let data = staged.window;
    let start = state.start(input);
    lemma_nothing_covers(data, start, state.history());
    assert(state.history().skip(0) =~= state.history());
    match staged.matcher {
        MatcherState::Fast(table) => {
            lemma_fast_covers(FastScan::open(table, start), data, start, state.history());
        },
        MatcherState::Chain(chain) => {
            lemma_chain_covers(
                ChainScan::open(chain, staged.inserted, start),
                data,
                start,
                state.history(),
            );
        },
        MatcherState::Balanced(chain) => {
            lemma_lazy_covers(
                LazyScan::open(chain, staged.inserted, start),
                data,
                staged.skip,
                start,
                state.history(),
            );
        },
    }
    let after = state.after(input);
    let room = state.room(input.len());
    law_a_slide_keeps_the_history(state, input.len());
    let whole = state.history() + input;
    assert(whole.skip(whole.len() - after.history().len()) =~= after.history());
}

/// A block boundary leaves no position out of a chain: no position the chain could not hash is
/// recorded as inserted.
pub proof fn law_boundary_leaves_no_position_out(state: ParserState, input: Seq<u8>)
    requires
        state.valid(),
        !(state.matcher is Fast),
    ensures
        state.after(input).inserted <= first_unhashable(state.after(input).window.len()),
{
}

/// A delayed match gives way to the longer one the next position reported, and that one is not
/// delayed again: no second consecutive delay exists.
pub proof fn law_a_delay_takes_the_longer_match(scan: LazyScan, data: Seq<u8>, skip: bool)
    requires
        scan.delays(data),
    ensures
        scan.step(data, skip).at == scan.at + 1,
        scan.step(data, skip).plan == scan.plan,
        scan.step(data, skip).current(data) == scan.next(data),
        !scan.step(data, skip).delays(data),
        scan.step(data, skip).step(data, skip).plan == taken(
            scan.plan,
            data,
            scan.run_start,
            scan.at + 1,
            scan.next(data)->0,
        ),
{
}

/// What a parser carries after a list of blocks.
pub open spec fn after_all(state: ParserState, blocks: Seq<Seq<u8>>) -> ParserState
    decreases blocks.len(),
{
    if blocks.len() == 0 {
        state
    } else {
        after_all(state, blocks.drop_last()).after(blocks.last())
    }
}

/// The plans a parser emits for a list of blocks.
pub open spec fn plans_of(state: ParserState, blocks: Seq<Seq<u8>>) -> Seq<Plan> {
    Seq::new(blocks.len(), |i: int| after_all(state, blocks.take(i)).plan(blocks[i]))
}

/// A parser keeps its kind across blocks.
proof fn lemma_after_keeps_the_kind(state: ParserState, blocks: Seq<Seq<u8>>)
    ensures
        after_all(state, blocks).skip == state.skip,
        after_all(state, blocks).matcher.emptied() == state.matcher.emptied(),
    decreases blocks.len(),
{
    if blocks.len() > 0 {
        lemma_after_keeps_the_kind(state, blocks.drop_last());
    }
}

/// A reset discards what a parser was fed: whatever blocks it parsed since it was constructed, a
/// reset leaves it as the constructor did, so it parses every later list of blocks as a fresh
/// parser of the same constructor does, and its history is empty.
pub proof fn law_a_reset_discards_the_history(
    fresh: ParserState,
    fed: Seq<Seq<u8>>,
    blocks: Seq<Seq<u8>>,
)
    requires
        fresh == ParserState::fast() || fresh == ParserState::chain() || fresh
            == ParserState::balanced(true) || fresh == ParserState::balanced(false),
    ensures
        after_all(fresh, fed).emptied() == fresh,
        after_all(fresh, fed).emptied().history() == Seq::<u8>::empty(),
        plans_of(after_all(fresh, fed).emptied(), blocks) == plans_of(fresh, blocks),
{
    lemma_after_keeps_the_kind(fresh, fed);
}

/// A reset parser is a fresh one: what it holds no longer depends on what it was fed.
pub proof fn law_reset_parser_is_a_fresh_one(state: ParserState)
    ensures
        state.matcher is Fast && state.skip ==> state.emptied() == ParserState::fast(),
        state.matcher is Chain && state.skip ==> state.emptied() == ParserState::chain(),
        state.matcher is Balanced ==> state.emptied() == ParserState::balanced(state.skip),
        state.emptied().history() == Seq::<u8>::empty(),
{
}

/// A block's steps fit the storage the block declares: one per minimum match, and one for the
/// literal run at the end.
pub proof fn law_steps_fit_their_capacity(state: ParserState, input: Seq<u8>)
    requires
        state.valid(),
        input.len() <= MAX_PARSE_BYTES,
    ensures
        state.plan(input).steps.len() <= input.len() / 4 + 1,
        state.plan(input).literals.len() <= input.len(),
        decoded_total(state.plan(input).steps) == input.len(),
{
    let plan = state.plan(input);
    let history = state.history();
    assert(history.skip(0) =~= history);
    assert(history.len() + input.len() <= usize::MAX);
    law_parse_decodes_to_its_input(state, input, history);
    lemma_steps_expanded(plan, history, input.len(), plan.steps.len());
    assert(plan.steps.take(plan.steps.len() as int) =~= plan.steps);
    lemma_step_count(plan.steps);
}

} // verus!
