//! Owns what each parse decides, position by position: which positions it searches, what it makes
//! of what the search reports, and which positions its search structure is given.
//!
//! A parse is told as the list of positions it looked at. Each look names the position, what had
//! been entered by then, and what the search reported there; the next look stands where that
//! report sends it.

use vstd::prelude::*;

use crate::matchfinder::recent::{
    entered_all, entered_single, law_a_range_enters_every_position, positions,
};
use crate::matchfinder::{
    law_search_copies, law_single_search_copies, single_insert, single_search, ChainState,
};
use crate::parser::laws::{ends_in, lemma_staged};
use crate::parser::scan::{
    closed_plan, left, lemma_chain_step, lemma_fast_step, lemma_lazy_step, lemma_range_valid,
    ChainScan, FastScan, LazyScan,
};
use crate::parser::{MatcherState, ParserState};
use crate::sequence::{Match, Plan, Step};

verus! {

/// The steps a block is told in: one for each position a match was taken at, of the bytes between
/// the end of the match before it and that position, and the match; then one of the bytes after
/// the last match, where there are any.
pub open spec fn told(decided: Seq<(nat, Option<Match>)>, run_start: nat, len: nat) -> Seq<Step>
    decreases decided.len(),
{
    if decided.len() == 0 {
        if run_start < len {
            seq![Step { run: (len - run_start) as u32, matched: None }]
        } else {
            Seq::empty()
        }
    } else {
        let (at, taken) = decided[0];
        match taken {
            Some(found) => seq![
                Step { run: (at - run_start) as u32, matched: Some(found) },
            ] + told(decided.drop_first(), at + found.length as nat, len),
            None => told(decided.drop_first(), run_start, len),
        }
    }
}

/// The first decision is told before the ones after it.
proof fn lemma_told_front(
    first: (nat, Option<Match>),
    rest: Seq<(nat, Option<Match>)>,
    run_start: nat,
    len: nat,
)
    ensures
        told(seq![first] + rest, run_start, len) == match first.1 {
            Some(found) => seq![
                Step { run: (first.0 - run_start) as u32, matched: Some(found) },
            ] + told(rest, first.0 + found.length as nat, len),
            None => told(rest, run_start, len),
        },
{
    assert((seq![first] + rest).drop_first() =~= rest);
}

/// The steps a decision adds, with what is told after it, are what is told from it on.
proof fn lemma_told_joins(
    first: (nat, Option<Match>),
    rest: Seq<(nat, Option<Match>)>,
    runs: (nat, nat),
    len: nat,
    steps: (Seq<Step>, Seq<Step>),
)
    requires
        runs.1 == match first.1 {
            Some(found) => first.0 + found.length as nat,
            None => runs.0,
        },
        steps.1 == match first.1 {
            Some(found) => steps.0.push(
                Step { run: (first.0 - runs.0) as u32, matched: Some(found) },
            ),
            None => steps.0,
        },
    ensures
        steps.1 + told(rest, runs.1, len) == steps.0 + told(seq![first] + rest, runs.0, len),
{
    lemma_told_front(first, rest, runs.0, len);
    assert(steps.1 + told(rest, runs.1, len) =~= steps.0 + told(
        seq![first] + rest,
        runs.0,
        len,
    ));
}

/// Where nothing is left to decide, what is told is the run at the end.
proof fn lemma_told_close(plan: Plan, data: Seq<u8>, run_start: nat)
    requires
        run_start <= data.len(),
    ensures
        closed_plan(plan, data, run_start).steps == plan.steps + told(
            Seq::empty(),
            run_start,
            data.len(),
        ),
{
    assert(closed_plan(plan, data, run_start).steps =~= plan.steps + told(
        Seq::empty(),
        run_start,
        data.len(),
    ));
}

/// One position a FAST parse looked at.
#[verifier::ext_equal]
pub ghost struct FastLook {
    pub at: nat,
    /// The consecutive looks before this one that reported nothing.
    pub misses: nat,
    /// The positions of the block the table had been given.
    pub entered: Seq<nat>,
    pub found: Option<Match>,
}

impl FastLook {
    /// Where the parse looks next: past the match reported, or as many positions on as the
    /// misses in a row earn, one and one more for every 64.
    pub open spec fn next_at(self) -> nat {
        match self.found {
            Some(found) => self.at + found.length as nat,
            None => self.at + 1 + (self.misses + 1) / 64,
        }
    }

    /// The misses in a row at the next look.
    pub open spec fn next_misses(self) -> nat {
        match self.found {
            Some(_) => 0,
            None => self.misses + 1,
        }
    }

    /// What the table has been given by the next look: this position, and the ones a match
    /// covered.
    pub open spec fn next_entered(self) -> Seq<nat> {
        match self.found {
            Some(found) => self.entered + positions(self.at, self.at + found.length as nat),
            None => self.entered.push(self.at),
        }
    }

    /// What the parse decided here: a match reported is a match taken.
    pub open spec fn decided(self) -> (nat, Option<Match>) {
        (self.at, self.found)
    }
}

/// Whether a list of looks is how a FAST parse walks the data from a look on: each reports what
/// the table it then held reports, each stands where the one before it sent it, and the last sends
/// it past the end with the positions of `done` entered.
pub open spec fn fast_walk(
    table: Seq<u32>,
    data: Seq<u8>,
    at: nat,
    misses: nat,
    entered: Seq<nat>,
    looks: Seq<FastLook>,
    done: Seq<nat>,
) -> bool {
    &&& looks.len() == 0 <==> at >= data.len()
    &&& looks.len() == 0 ==> done == entered
    &&& looks.len() > 0 ==> {
        &&& looks[0].at == at && looks[0].misses == misses && looks[0].entered == entered
        &&& looks.last().next_at() >= data.len()
        &&& looks.last().next_entered() == done
    }
    &&& forall|i: int|
        0 <= i < looks.len() ==> (#[trigger] looks[i]).at < data.len() && looks[i].found
            == single_search(entered_single(table, data, looks[i].entered), data, looks[i].at)
    &&& forall|i: int|
        0 < i < looks.len() ==> (#[trigger] looks[i]).at == looks[i - 1].next_at()
            && looks[i].misses == looks[i - 1].next_misses() && looks[i].entered == looks[i
            - 1].next_entered()
}

/// What a FAST parse decided at each look.
pub open spec fn fast_decided(looks: Seq<FastLook>) -> Seq<(nat, Option<Match>)> {
    Seq::new(looks.len(), |i: int| looks[i].decided())
}

/// Entering two lists is entering the one and then the other.
proof fn lemma_single_joins(table: Seq<u32>, data: Seq<u8>, one: Seq<nat>, other: Seq<nat>)
    ensures
        entered_single(entered_single(table, data, one), data, other) == entered_single(
            table,
            data,
            one + other,
        ),
    decreases other.len(),
{
    if other.len() == 0 {
        assert(one + other =~= one);
    } else {
        lemma_single_joins(table, data, one, other.drop_last());
        assert((one + other).drop_last() =~= one + other.drop_last());
        assert((one + other).last() == other.last());
    }
}

/// Entering two lists is entering the one and then the other.
proof fn lemma_chain_joins(chain: ChainState, data: Seq<u8>, one: Seq<nat>, other: Seq<nat>)
    ensures
        entered_all(entered_all(chain, data, one), data, other) == entered_all(
            chain,
            data,
            one + other,
        ),
    decreases other.len(),
{
    if other.len() == 0 {
        assert(one + other =~= one);
    } else {
        lemma_chain_joins(chain, data, one, other.drop_last());
        assert((one + other).drop_last() =~= one + other.drop_last());
        assert((one + other).last() == other.last());
    }
}

/// A position and the ones after it are the ones from it on.
proof fn lemma_positions_front(entered: Seq<nat>, at: nat, to: nat)
    requires
        at < to,
    ensures
        entered.push(at) + positions(at + 1, to) == entered + positions(at, to),
{
    assert(entered.push(at) + positions(at + 1, to) =~= entered + positions(at, to));
}

/// A look in front of a walk from where it sends the parse is a walk.
#[verifier::spinoff_prover]
proof fn lemma_fast_front(
    table: Seq<u32>,
    data: Seq<u8>,
    look: FastLook,
    rest: Seq<FastLook>,
    done: Seq<nat>,
)
    requires
        look.at < data.len(),
        look.found == single_search(entered_single(table, data, look.entered), data, look.at),
        fast_walk(
            table,
            data,
            look.next_at(),
            look.next_misses(),
            look.next_entered(),
            rest,
            done,
        ),
    ensures
        fast_walk(table, data, look.at, look.misses, look.entered, seq![look] + rest, done),
        fast_decided(seq![look] + rest) == seq![look.decided()] + fast_decided(rest),
{
    let looks = seq![look] + rest;
    assert forall|i: int| 0 <= i < looks.len() implies (#[trigger] looks[i]).at < data.len()
        && looks[i].found == single_search(
        entered_single(table, data, looks[i].entered),
        data,
        looks[i].at,
    ) by {
        if i > 0 {
            assert(looks[i] == rest[i - 1]);
        }
    }
    assert forall|i: int| 0 < i < looks.len() implies (#[trigger] looks[i]).at == looks[i
        - 1].next_at() && looks[i].misses == looks[i - 1].next_misses() && looks[i].entered
        == looks[i - 1].next_entered() by {
        assert(looks[i] == rest[i - 1]);
        if i > 1 {
            assert(looks[i - 1] == rest[i - 2]);
        }
    }
    if rest.len() > 0 {
        assert(looks.last() == rest.last());
    }
    assert(fast_decided(looks) =~= seq![look.decided()] + fast_decided(rest));
}

/// What one decision of a FAST scan does.
proof fn lemma_fast_look(
    scan: FastScan,
    data: Seq<u8>,
    start: nat,
    table: Seq<u32>,
    look: FastLook,
)
    requires
        scan.stands(data, start),
        scan.at < data.len(),
        data.len() - start <= 65_536,
        scan.table == entered_single(table, data, look.entered),
        look.at == scan.at,
        look.misses == scan.streak,
        look.found == single_search(scan.table, data, scan.at),
    ensures
        ({
            let next = scan.step(data);
            &&& next.stands(data, start)
            &&& next.at > scan.at
            &&& next.at == look.next_at()
            &&& next.streak == look.next_misses()
            &&& next.table == entered_single(table, data, look.next_entered())
            &&& next.run_start == match look.found {
                Some(_) => next.at,
                None => scan.run_start,
            }
            &&& next.plan.steps == match look.found {
                Some(found) => scan.plan.steps.push(
                    Step { run: (scan.at - scan.run_start) as u32, matched: Some(found) },
                ),
                None => scan.plan.steps,
            }
        }),
{
    let with = single_insert(scan.table, data, scan.at);
    lemma_fast_step(scan, data, start);
    assert(look.entered.push(scan.at).drop_last() =~= look.entered);
    assert(entered_single(table, data, look.entered.push(scan.at)) == with);
    if let Some(found) = look.found {
        law_single_search_copies(scan.table, data, scan.at);
        let to = scan.at + found.length as nat;
        law_a_range_enters_every_position(ChainState::fresh(), with, data, scan.at + 1, to);
        lemma_single_joins(table, data, look.entered.push(scan.at), positions(scan.at + 1, to));
        lemma_positions_front(look.entered, scan.at, to);
    }
}

/// How a FAST scan walks the rest of the data.
#[verifier::spinoff_prover]
#[verifier::rlimit(60)]
proof fn lemma_fast_walks(
    scan: FastScan,
    data: Seq<u8>,
    start: nat,
    table: Seq<u32>,
    entered: Seq<nat>,
) -> (walk: (Seq<FastLook>, Seq<nat>))
    requires
        scan.stands(data, start),
        data.len() - start <= 65_536,
        scan.table == entered_single(table, data, entered),
    ensures
        fast_walk(table, data, scan.at, scan.streak, entered, walk.0, walk.1),
        scan.scan(data).table == entered_single(table, data, walk.1),
        closed_plan(scan.scan(data).plan, data, scan.scan(data).run_start).steps == scan.plan.steps
            + told(fast_decided(walk.0), scan.run_start, data.len()),
    decreases left(data.len(), scan.at),
{
    if scan.at >= data.len() {
        assert(fast_decided(Seq::empty()) =~= Seq::empty());
        lemma_told_close(scan.plan, data, scan.run_start);
        (Seq::empty(), entered)
    } else {
        let found = single_search(scan.table, data, scan.at);
        let look = FastLook { at: scan.at, misses: scan.streak, entered, found };
        let next = scan.step(data);
        lemma_fast_look(scan, data, start, table, look);
        assert(scan.scan(data) == next.scan(data));
        let (rest, done) = lemma_fast_walks(next, data, start, table, look.next_entered());
        lemma_fast_front(table, data, look, rest, done);
        lemma_told_joins(
            look.decided(),
            fast_decided(rest),
            (scan.run_start, next.run_start),
            data.len(),
            (scan.plan.steps, next.plan.steps),
        );
        (seq![look] + rest, done)
    }
}

/// Whether looks are how a FAST parser parses a block: the walk starts where the block does with
/// nothing of it entered, the plan is what was decided, and the table keeps what was entered.
pub open spec fn parsed_fast(
    state: ParserState,
    input: Seq<u8>,
    looks: Seq<FastLook>,
    done: Seq<nat>,
) -> bool {
    let data = state.staged(input).window;
    let start = (data.len() - input.len()) as nat;
    let table = state.staged(input).matcher->Fast_0;
    &&& fast_walk(table, data, start, 0, Seq::empty(), looks, done)
    &&& state.plan(input).steps == told(fast_decided(looks), start, data.len())
    &&& state.after(input).matcher == MatcherState::Fast(entered_single(table, data, done))
}

/// The FAST parse is greedy and skips by its schedule. It looks first where the block starts.
/// Wherever the table reports a match at a look, the plan takes that match, with its length and
/// its distance, at that position, and looks next right after it; wherever it reports none, it
/// looks one position on, and one more for every 64 misses in a row. The table has been given the
/// positions looked at and the positions matches covered, and no others, and carries them to the
/// next block.
pub proof fn law_fast_parse_takes_what_its_table_reports(state: ParserState, input: Seq<u8>)
    requires
        state.valid(),
        state.matcher is Fast,
        input.len() <= 65_536,
    ensures
        exists|looks: Seq<FastLook>, done: Seq<nat>| parsed_fast(state, input, looks, done),
{
    lemma_staged(state, input);
    let data = state.staged(input).window;
    let start = state.start(input);
    let table = state.staged(input).matcher->Fast_0;
    let scan = FastScan::open(table, start);
    let (looks, done) = lemma_fast_walks(scan, data, start, table, Seq::empty());
    let goal = told(fast_decided(looks), start, data.len());
    assert(scan.plan.steps + goal =~= goal);
    assert(parsed_fast(state, input, looks, done));
}

/// What a parse is given: the block stands at the end of the data, after bytes that end in the
/// history the parser carried. The buffer, and the search structure with it, has moved by one
/// window where it did not hold the block, and otherwise not at all. The parser carries all of it
/// to the next block.
pub proof fn law_a_block_is_staged_after_the_history(state: ParserState, input: Seq<u8>)
    requires
        state.valid(),
        input.len() <= 65_536,
    ensures
        ({
            let data = state.staged(input).window;
            let start = data.len() - input.len();
            &&& 0 <= start
            &&& data.skip(start) == input
            &&& ends_in(data.take(start), state.history())
            &&& data.len() <= 196_608
            &&& state.window.len() + input.len() <= 196_608 ==> data == state.window + input
                && state.staged(input).matcher == state.matcher && state.staged(input).inserted
                == state.inserted
            &&& state.window.len() + input.len() > 196_608 ==> data == state.window.skip(65_536)
                + input && state.staged(input).matcher == state.matcher.slide()
                && state.staged(input).inserted == if state.inserted <= 65_536 {
                0
            } else {
                state.inserted - 65_536
            }
            &&& state.staged(input).skip == state.skip
            &&& state.after(input).window == data
            &&& state.after(input).skip == state.skip
        }),
{
    lemma_staged(state, input);
    let data = state.staged(input).window;
    let start = state.start(input) as int;
    let before = data.take(start);
    let history = state.history();
    assert(before.skip(before.len() - history.len()) =~= history);
}

/// One position a BALANCED parse looked at.
#[verifier::ext_equal]
pub ghost struct LazyLook {
    pub at: nat,
    /// The looks since the last match taken that reported nothing.
    pub misses: nat,
    /// Whether the look before this one put its match off.
    pub delayed: bool,
    /// The positions the chain had been given since the block before.
    pub entered: Seq<nat>,
    pub found: Option<Match>,
    /// What the position after this one reports once this one is entered too.
    pub follow: Option<Match>,
}

impl LazyLook {
    /// Whether the match here is put off: the position after it reports a strictly longer one,
    /// and the look before did not put one off.
    pub open spec fn puts_off(self) -> bool {
        &&& !self.delayed
        &&& self.found is Some
        &&& self.follow is Some
        &&& (self.follow->0).length > (self.found->0).length
    }

    /// The match taken here.
    pub open spec fn taken(self) -> Option<Match> {
        if self.puts_off() {
            None
        } else {
            self.found
        }
    }

    /// Where the parse looks next: past the match taken, one position on where a match is put
    /// off, and on a miss one position on, and with the schedule one more for every 64 misses,
    /// but not past the end.
    pub open spec fn next_at(self, len: nat, skip: bool) -> nat {
        if self.taken() is Some {
            self.at + (self.taken()->0).length as nat
        } else if self.found is Some || !skip || self.misses + 1 < 64 {
            self.at + 1
        } else if self.at + 1 + (self.misses + 1) / 64 < len {
            self.at + 1 + (self.misses + 1) / 64
        } else {
            len
        }
    }

    /// The misses at the next look.
    pub open spec fn next_misses(self, skip: bool) -> nat {
        if self.taken() is Some {
            0
        } else if self.found is None && skip {
            self.misses + 1
        } else {
            self.misses
        }
    }

    /// What the chain has been given by the next look: this position, and the ones a match taken
    /// covered.
    pub open spec fn next_entered(self) -> Seq<nat> {
        if self.taken() is Some {
            self.entered + positions(self.at, self.at + (self.taken()->0).length as nat)
        } else {
            self.entered.push(self.at)
        }
    }

    /// Where this look sends the parse, before that look reports.
    pub open spec fn sends(self, len: nat, skip: bool) -> LazyLook {
        LazyLook {
            at: self.next_at(len, skip),
            misses: self.next_misses(skip),
            delayed: self.puts_off(),
            entered: self.next_entered(),
            found: None,
            follow: None,
        }
    }
}

/// Whether a look reports what a chain of depth 32 reports, here and one position on.
#[verifier::opaque]
pub open spec fn lazy_reports(chain: ChainState, data: Seq<u8>, look: LazyLook) -> bool {
    &&& look.at < data.len()
    &&& look.found == entered_all(chain, data, look.entered).search(32, data, look.at)
    &&& look.follow == entered_all(chain, data, look.entered.push(look.at)).search(
        32,
        data,
        look.at + 1,
    )
}

/// Whether a list of looks is how a BALANCED parse walks the data from a look on.
pub open spec fn lazy_walk(
    chain: ChainState,
    data: Seq<u8>,
    skip: bool,
    first: LazyLook,
    looks: Seq<LazyLook>,
    done: Seq<nat>,
) -> bool {
    &&& looks.len() == 0 <==> first.at >= data.len()
    &&& looks.len() == 0 ==> done == first.entered
    &&& looks.len() > 0 ==> {
        &&& looks[0].at == first.at && looks[0].misses == first.misses
        &&& looks[0].delayed == first.delayed && looks[0].entered == first.entered
        &&& looks.last().next_at(data.len(), skip) >= data.len()
        &&& looks.last().next_entered() == done
    }
    &&& forall|i: int|
        0 <= i < looks.len() ==> lazy_reports(chain, data, #[trigger] looks[i])
    &&& forall|i: int|
        0 < i < looks.len() ==> (#[trigger] looks[i]).at == looks[i - 1].next_at(data.len(), skip)
            && looks[i].misses == looks[i - 1].next_misses(skip) && looks[i].delayed == looks[i
            - 1].puts_off() && looks[i].entered == looks[i - 1].next_entered()
}

/// What a BALANCED parse decided at each look.
pub open spec fn lazy_decided(looks: Seq<LazyLook>) -> Seq<(nat, Option<Match>)> {
    Seq::new(looks.len(), |i: int| (looks[i].at, looks[i].taken()))
}

/// A look in front of a walk from where it sends the parse is a walk.
#[verifier::spinoff_prover]
proof fn lemma_lazy_front(
    chain: ChainState,
    data: Seq<u8>,
    skip: bool,
    look: LazyLook,
    rest: Seq<LazyLook>,
    done: Seq<nat>,
)
    requires
        look.at < data.len(),
        lazy_reports(chain, data, look),
        lazy_walk(chain, data, skip, look.sends(data.len(), skip), rest, done),
    ensures
        lazy_walk(chain, data, skip, look, seq![look] + rest, done),
        lazy_decided(seq![look] + rest) == seq![(look.at, look.taken())] + lazy_decided(rest),
{
    let looks = seq![look] + rest;
    assert forall|i: int| 0 <= i < looks.len() implies lazy_reports(
        chain,
        data,
        #[trigger] looks[i],
    ) by {
        if i > 0 {
            assert(looks[i] == rest[i - 1]);
        }
    }
    assert forall|i: int| 0 < i < looks.len() implies (#[trigger] looks[i]).at == looks[i
        - 1].next_at(data.len(), skip) && looks[i].misses == looks[i - 1].next_misses(skip)
        && looks[i].delayed == looks[i - 1].puts_off() && looks[i].entered == looks[i
        - 1].next_entered() by {
        assert(looks[i] == rest[i - 1]);
        if i > 1 {
            assert(looks[i - 1] == rest[i - 2]);
        }
    }
    if rest.len() > 0 {
        assert(looks.last() == rest.last());
    }
    assert(lazy_decided(looks) =~= seq![(look.at, look.taken())] + lazy_decided(rest));
}

/// What one decision of a length-lazy scan does.
#[verifier::spinoff_prover]
#[verifier::rlimit(60)]
proof fn lemma_lazy_look(
    scan: LazyScan,
    data: Seq<u8>,
    skip: bool,
    start: nat,
    chain: ChainState,
    look: LazyLook,
)
    requires
        scan.stands(data, start),
        scan.at < data.len(),
        data.len() - start <= 65_536,
        scan.ready(data) == entered_all(chain, data, look.entered),
        look.at == scan.at,
        look.misses == scan.streak,
        look.delayed == scan.delayed,
        look.found == scan.current(data),
        look.follow == scan.next(data),
    ensures
        lazy_reports(chain, data, look),
        ({
            let next = scan.step(data, skip);
            &&& next.stands(data, start)
            &&& next.at > scan.at
            &&& next.inserted == next.at
            &&& next.at == look.next_at(data.len(), skip)
            &&& next.streak == look.next_misses(skip)
            &&& next.delayed == look.puts_off()
            &&& next.ready(data) == entered_all(chain, data, look.next_entered())
            &&& next.run_start == match look.taken() {
                Some(_) => next.at,
                None => scan.run_start,
            }
            &&& next.plan.steps == match look.taken() {
                Some(found) => scan.plan.steps.push(
                    Step { run: (scan.at - scan.run_start) as u32, matched: Some(found) },
                ),
                None => scan.plan.steps,
            }
        }),
{
    reveal(lazy_reports);
    let ready = scan.ready(data);
    let with = ready.insert(data, scan.at);
    lemma_lazy_step(scan, data, skip, start);
    assert(look.entered.push(scan.at).drop_last() =~= look.entered);
    assert(entered_all(chain, data, look.entered.push(scan.at)) == with);
    assert(look.puts_off() == scan.delays(data));
    if let Some(found) = look.taken() {
        lemma_range_valid(scan.chain, data, scan.inserted, scan.at);
        law_search_copies(ready, 32, data, scan.at);
        let to = scan.at + found.length as nat;
        law_a_range_enters_every_position(with, Seq::empty(), data, scan.at + 1, to);
        lemma_chain_joins(chain, data, look.entered.push(scan.at), positions(scan.at + 1, to));
        lemma_positions_front(look.entered, scan.at, to);
    }
}

/// One decision of a length-lazy scan, and the scan it leaves.
#[verifier::spinoff_prover]
#[verifier::rlimit(60)]
proof fn lemma_lazy_turn(
    scan: LazyScan,
    data: Seq<u8>,
    skip: bool,
    start: nat,
    chain: ChainState,
    first: LazyLook,
) -> (turn: (LazyLook, LazyScan))
    requires
        scan.stands(data, start),
        scan.at < data.len(),
        data.len() - start <= 65_536,
        scan.ready(data) == entered_all(chain, data, first.entered),
        first.at == scan.at,
        first.misses == scan.streak,
        first.delayed == scan.delayed,
    ensures
        ({
            let (look, next) = turn;
            &&& look.at == first.at && look.misses == first.misses
            &&& look.delayed == first.delayed && look.entered == first.entered
            &&& lazy_reports(chain, data, look)
            &&& scan.scan(data, skip) == next.scan(data, skip)
            &&& next.stands(data, start)
            &&& next.at > scan.at
            &&& next.inserted == next.at
            &&& next.at == look.sends(data.len(), skip).at
            &&& next.streak == look.sends(data.len(), skip).misses
            &&& next.delayed == look.sends(data.len(), skip).delayed
            &&& next.ready(data) == entered_all(chain, data, look.sends(data.len(), skip).entered)
            &&& next.run_start == match look.taken() {
                Some(found) => scan.at + found.length as nat,
                None => scan.run_start,
            }
            &&& next.plan.steps == match look.taken() {
                Some(found) => scan.plan.steps.push(
                    Step { run: (scan.at - scan.run_start) as u32, matched: Some(found) },
                ),
                None => scan.plan.steps,
            }
        }),
{
    let look = LazyLook { found: scan.current(data), follow: scan.next(data), ..first };
    lemma_lazy_look(scan, data, skip, start, chain, look);
    (look, scan.step(data, skip))
}

/// How a length-lazy scan walks the rest of the data.
#[verifier::spinoff_prover]
#[verifier::rlimit(60)]
proof fn lemma_lazy_walks(
    scan: LazyScan,
    data: Seq<u8>,
    skip: bool,
    start: nat,
    chain: ChainState,
    first: LazyLook,
) -> (walk: (Seq<LazyLook>, Seq<nat>))
    requires
        scan.stands(data, start),
        data.len() - start <= 65_536,
        scan.ready(data) == entered_all(chain, data, first.entered),
        scan.at >= data.len() ==> scan.inserted == scan.at,
        first.at == scan.at,
        first.misses == scan.streak,
        first.delayed == scan.delayed,
    ensures
        lazy_walk(chain, data, skip, first, walk.0, walk.1),
        scan.scan(data, skip).chain == entered_all(chain, data, walk.1),
        scan.scan(data, skip).inserted == data.len(),
        closed_plan(scan.scan(data, skip).plan, data, scan.scan(data, skip).run_start).steps
            == scan.plan.steps + told(lazy_decided(walk.0), scan.run_start, data.len()),
    decreases data.len() - scan.at,
{
    if scan.at >= data.len() {
        assert(lazy_decided(Seq::empty()) =~= Seq::empty());
        lemma_told_close(scan.plan, data, scan.run_start);
        (Seq::empty(), first.entered)
    } else {
        let (look, next) = lemma_lazy_turn(scan, data, skip, start, chain, first);
        let (rest, done) = lemma_lazy_walks(
            next,
            data,
            skip,
            start,
            chain,
            look.sends(data.len(), skip),
        );
        lemma_lazy_front(chain, data, skip, look, rest, done);
        lemma_told_joins(
            (look.at, look.taken()),
            lazy_decided(rest),
            (scan.run_start, next.run_start),
            data.len(),
            (scan.plan.steps, next.plan.steps),
        );
        (seq![look] + rest, done)
    }
}

/// Whether looks are how a BALANCED parser parses a block: the walk starts where the block does
/// with the positions left from before it entered, the plan is what was decided, and the chain
/// keeps what was entered.
pub open spec fn parsed_lazily(
    state: ParserState,
    input: Seq<u8>,
    looks: Seq<LazyLook>,
    done: Seq<nat>,
) -> bool {
    let data = state.staged(input).window;
    let start = (data.len() - input.len()) as nat;
    let chain = state.staged(input).matcher->Balanced_0;
    let first = LazyLook {
        at: start,
        misses: 0,
        delayed: false,
        entered: positions(state.staged(input).inserted, start),
        found: None,
        follow: None,
    };
    &&& lazy_walk(chain, data, state.skip, first, looks, done)
    &&& state.plan(input).steps == told(lazy_decided(looks), start, data.len())
    &&& input.len() > 0 ==> {
        &&& state.after(input).matcher == MatcherState::Balanced(entered_all(chain, data, done))
        &&& state.after(input).inserted == if data.len() < 4 {
            0
        } else {
            data.len() - 3
        }
    }
}

/// The BALANCED parse is lazy by one position and skips by its schedule. It looks first where the
/// block starts. A match a chain of depth 32 reports at a look is taken, with its length and its
/// distance, at that position, unless the position after it reports a strictly longer one and the
/// look before did not put one off; then the one after is looked at next. A miss moves the look
/// one position on for the first 63 since the last match, and one more for every 64, never past
/// the end, and by one always where the schedule is off. The chain has been given the positions
/// left from the block before, the positions looked at and the positions matches covered, and
/// carries them to the next block, which is given again the last three that had no four bytes.
pub proof fn law_balanced_parse_takes_what_its_chain_reports(state: ParserState, input: Seq<u8>)
    requires
        state.valid(),
        state.matcher is Balanced,
        input.len() <= 65_536,
    ensures
        exists|looks: Seq<LazyLook>, done: Seq<nat>| parsed_lazily(state, input, looks, done),
{
    lemma_staged(state, input);
    let staged = state.staged(input);
    let data = staged.window;
    let start = state.start(input);
    let chain = staged.matcher->Balanced_0;
    let scan = LazyScan::open(chain, staged.inserted, start);
    let entered = positions(staged.inserted, start);
    let first = LazyLook {
        at: start,
        misses: 0,
        delayed: false,
        entered,
        found: None,
        follow: None,
    };
    law_a_range_enters_every_position(chain, Seq::empty(), data, staged.inserted, start);
    if input.len() > 0 {
        let (looks, done) = lemma_lazy_walks(scan, data, staged.skip, start, chain, first);
        let goal = told(lazy_decided(looks), start, data.len());
        assert(scan.plan.steps + goal =~= goal);
        assert(parsed_lazily(state, input, looks, done));
    } else {
        let looks = Seq::<LazyLook>::empty();
        assert(lazy_decided(looks) =~= Seq::empty());
        assert(state.plan(input).steps =~= told(lazy_decided(looks), start, data.len()));
        assert(parsed_lazily(state, input, looks, entered));
    }
}

/// One position a greedy chain parse looked at.
#[verifier::ext_equal]
pub ghost struct ChainLook {
    pub at: nat,
    /// The positions the chain had been given since the block before.
    pub entered: Seq<nat>,
    pub found: Option<Match>,
}

impl ChainLook {
    /// Where the parse looks next: past the match reported, or one position on.
    pub open spec fn next_at(self) -> nat {
        match self.found {
            Some(found) => self.at + found.length as nat,
            None => self.at + 1,
        }
    }
}

/// Whether a list of looks is how a greedy chain parse walks the data from a look on: every
/// position before a look has been entered by it.
pub open spec fn chain_walk(
    chain: ChainState,
    data: Seq<u8>,
    at: nat,
    entered: Seq<nat>,
    looks: Seq<ChainLook>,
) -> bool {
    &&& looks.len() == 0 <==> at >= data.len()
    &&& looks.len() > 0 ==> {
        &&& looks[0].at == at && looks[0].entered == entered
        &&& looks.last().next_at() >= data.len()
    }
    &&& forall|i: int|
        0 <= i < looks.len() ==> (#[trigger] looks[i]).at < data.len() && looks[i].found
            == entered_all(chain, data, looks[i].entered).search(8, data, looks[i].at)
    &&& forall|i: int|
        0 < i < looks.len() ==> (#[trigger] looks[i]).at == looks[i - 1].next_at()
            && looks[i].entered == looks[i - 1].entered + positions(looks[i - 1].at, looks[i].at)
}

/// What a greedy chain parse decided at each look.
pub open spec fn chain_decided(looks: Seq<ChainLook>) -> Seq<(nat, Option<Match>)> {
    Seq::new(looks.len(), |i: int| (looks[i].at, looks[i].found))
}

/// A look in front of a walk from where it sends the parse is a walk.
#[verifier::spinoff_prover]
proof fn lemma_chain_front(
    chain: ChainState,
    data: Seq<u8>,
    look: ChainLook,
    rest: Seq<ChainLook>,
)
    requires
        look.at < data.len(),
        look.found == entered_all(chain, data, look.entered).search(8, data, look.at),
        chain_walk(
            chain,
            data,
            look.next_at(),
            look.entered + positions(look.at, look.next_at()),
            rest,
        ),
    ensures
        chain_walk(chain, data, look.at, look.entered, seq![look] + rest),
        chain_decided(seq![look] + rest) == seq![(look.at, look.found)] + chain_decided(rest),
{
    let looks = seq![look] + rest;
    assert forall|i: int| 0 <= i < looks.len() implies (#[trigger] looks[i]).at < data.len()
        && looks[i].found == entered_all(chain, data, looks[i].entered).search(
        8,
        data,
        looks[i].at,
    ) by {
        if i > 0 {
            assert(looks[i] == rest[i - 1]);
        }
    }
    assert forall|i: int| 0 < i < looks.len() implies (#[trigger] looks[i]).at == looks[i
        - 1].next_at() && looks[i].entered == looks[i - 1].entered + positions(
        looks[i - 1].at,
        looks[i].at,
    ) by {
        assert(looks[i] == rest[i - 1]);
        if i > 1 {
            assert(looks[i - 1] == rest[i - 2]);
        }
    }
    if rest.len() > 0 {
        assert(looks.last() == rest.last());
    }
    assert(chain_decided(looks) =~= seq![(look.at, look.found)] + chain_decided(rest));
}

/// What one decision of a greedy chain scan does.
#[verifier::spinoff_prover]
#[verifier::rlimit(60)]
proof fn lemma_chain_look(
    scan: ChainScan,
    data: Seq<u8>,
    start: nat,
    chain: ChainState,
    look: ChainLook,
)
    requires
        scan.stands(data, start),
        scan.at < data.len(),
        data.len() - start <= 65_536,
        scan.chain.insert_range(data, scan.inserted, scan.at) == entered_all(
            chain,
            data,
            look.entered,
        ),
        look.at == scan.at,
        look.found == scan.chain.insert_range(data, scan.inserted, scan.at).search(
            8,
            data,
            scan.at,
        ),
    ensures
        ({
            let next = scan.step(data);
            &&& next.stands(data, start)
            &&& next.at > scan.at
            &&& next.at == look.next_at()
            &&& next.inserted == scan.at + 1
            &&& next.chain == entered_all(chain, data, look.entered.push(look.at))
            &&& next.chain.insert_range(data, next.inserted, next.at) == entered_all(
                chain,
                data,
                look.entered + positions(look.at, next.at),
            )
            &&& next.run_start == match look.found {
                Some(_) => next.at,
                None => scan.run_start,
            }
            &&& next.plan.steps == match look.found {
                Some(found) => scan.plan.steps.push(
                    Step { run: (scan.at - scan.run_start) as u32, matched: Some(found) },
                ),
                None => scan.plan.steps,
            }
        }),
{
    let ready = scan.chain.insert_range(data, scan.inserted, scan.at);
    let with = ready.insert(data, scan.at);
    let next = scan.step(data);
    lemma_chain_step(scan, data, start);
    assert(look.entered.push(scan.at).drop_last() =~= look.entered);
    assert(entered_all(chain, data, look.entered.push(scan.at)) == with);
    law_a_range_enters_every_position(with, Seq::empty(), data, scan.at + 1, next.at);
    lemma_chain_joins(chain, data, look.entered.push(scan.at), positions(scan.at + 1, next.at));
    lemma_positions_front(look.entered, scan.at, next.at);
}

/// One decision of a greedy chain scan, and the scan it leaves.
#[verifier::spinoff_prover]
#[verifier::rlimit(60)]
proof fn lemma_chain_turn(
    scan: ChainScan,
    data: Seq<u8>,
    start: nat,
    chain: ChainState,
    entered: Seq<nat>,
) -> (turn: (ChainLook, ChainScan))
    requires
        scan.stands(data, start),
        scan.at < data.len(),
        data.len() - start <= 65_536,
        scan.chain.insert_range(data, scan.inserted, scan.at) == entered_all(chain, data, entered),
    ensures
        ({
            let (look, next) = turn;
            &&& look.at == scan.at && look.entered == entered
            &&& look.found == entered_all(chain, data, look.entered).search(8, data, look.at)
            &&& scan.scan(data) == next.scan(data)
            &&& next.at >= data.len() ==> next.scan(data) == next
            &&& next.stands(data, start)
            &&& next.at > scan.at
            &&& next.at == look.next_at()
            &&& next.inserted == look.at + 1
            &&& next.chain == entered_all(chain, data, look.entered.push(look.at))
            &&& next.chain.insert_range(data, next.inserted, next.at) == entered_all(
                chain,
                data,
                look.entered + positions(look.at, look.next_at()),
            )
            &&& next.run_start == match look.found {
                Some(found) => scan.at + found.length as nat,
                None => scan.run_start,
            }
            &&& next.plan.steps == match look.found {
                Some(found) => scan.plan.steps.push(
                    Step { run: (scan.at - scan.run_start) as u32, matched: Some(found) },
                ),
                None => scan.plan.steps,
            }
        }),
{
    let found = scan.chain.insert_range(data, scan.inserted, scan.at).search(8, data, scan.at);
    let look = ChainLook { at: scan.at, entered, found };
    lemma_chain_look(scan, data, start, chain, look);
    (look, scan.step(data))
}

/// How a greedy chain scan walks the rest of the data.
#[verifier::spinoff_prover]
#[verifier::rlimit(60)]
proof fn lemma_chain_walks(
    scan: ChainScan,
    data: Seq<u8>,
    start: nat,
    chain: ChainState,
    entered: Seq<nat>,
) -> (looks: Seq<ChainLook>)
    requires
        scan.stands(data, start),
        data.len() - start <= 65_536,
        scan.chain.insert_range(data, scan.inserted, scan.at) == entered_all(chain, data, entered),
    ensures
        chain_walk(chain, data, scan.at, entered, looks),
        scan.at < data.len() ==> {
            &&& looks.len() > 0
            &&& scan.scan(data).chain == entered_all(
                chain,
                data,
                looks.last().entered.push(looks.last().at),
            )
            &&& scan.scan(data).inserted == looks.last().at + 1
        },
        closed_plan(scan.scan(data).plan, data, scan.scan(data).run_start).steps == scan.plan.steps
            + told(chain_decided(looks), scan.run_start, data.len()),
    decreases data.len() - scan.at,
{
    if scan.at >= data.len() {
        assert(chain_decided(Seq::empty()) =~= Seq::empty());
        lemma_told_close(scan.plan, data, scan.run_start);
        Seq::empty()
    } else {
        let (look, next) = lemma_chain_turn(scan, data, start, chain, entered);
        let more = look.entered + positions(look.at, look.next_at());
        let rest = lemma_chain_walks(next, data, start, chain, more);
        lemma_chain_front(chain, data, look, rest);
        lemma_told_joins(
            (look.at, look.found),
            chain_decided(rest),
            (scan.run_start, next.run_start),
            data.len(),
            (scan.plan.steps, next.plan.steps),
        );
        let looks = seq![look] + rest;
        if rest.len() > 0 {
            assert(looks.last() == rest.last());
        } else {
            assert(looks.last() == look);
        }
        looks
    }
}

/// Whether looks are how a greedy chain parser parses a block.
pub open spec fn parsed_greedily(state: ParserState, input: Seq<u8>, looks: Seq<ChainLook>) -> bool {
    let data = state.staged(input).window;
    let start = (data.len() - input.len()) as nat;
    let chain = state.staged(input).matcher->Chain_0;
    let entered = positions(state.staged(input).inserted, start);
    &&& chain_walk(chain, data, start, entered, looks)
    &&& state.plan(input).steps == told(chain_decided(looks), start, data.len())
    &&& state.after(input).matcher == MatcherState::Chain(
        entered_all(chain, data, looks.last().entered.push(looks.last().at)),
    )
    &&& state.after(input).inserted == if data.len() < 4 {
        0
    } else if looks.last().at + 1 < data.len() - 3 {
        looks.last().at + 1
    } else {
        (data.len() - 3) as nat
    }
}

/// The chain parse is greedy over every position: it looks first where the block starts, takes
/// every match a chain of depth eight reports at a look, and looks next right after it, or one
/// position on where none is reported. Every position before a look has been entered by it, once,
/// and the chain carries them to the next block.
pub proof fn law_chain_parse_takes_what_its_chain_reports(state: ParserState, input: Seq<u8>)
    requires
        state.valid(),
        state.matcher is Chain,
        0 < input.len() <= 65_536,
    ensures
        exists|looks: Seq<ChainLook>| parsed_greedily(state, input, looks),
{
    lemma_staged(state, input);
    let staged = state.staged(input);
    let data = staged.window;
    let start = state.start(input);
    let chain = staged.matcher->Chain_0;
    let scan = ChainScan::open(chain, staged.inserted, start);
    let entered = positions(staged.inserted, start);
    law_a_range_enters_every_position(chain, Seq::empty(), data, staged.inserted, start);
    let looks = lemma_chain_walks(scan, data, start, chain, entered);
    let goal = told(chain_decided(looks), start, data.len());
    assert(scan.plan.steps + goal =~= goal);
    assert(parsed_greedily(state, input, looks));
}

} // verus!
