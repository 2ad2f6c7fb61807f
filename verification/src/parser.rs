//! Owns parse strategy: which of the representations a match finder's proposals admit the
//! encoder emits.
//!
//! This module does not own match search or entropy coding. It decides what to emit.
//!
//! Three strategies. FAST is greedy over a single-entry table with an adaptive skip: it
//! searches at the position it stands on, takes the match the table reports when it reaches
//! the minimum, and never revisits the decision. Consecutive searched misses advance the search
//! by `1 + (streak >> 6)`; a taken match and each block start reset the streak. Skipped
//! positions are never searched nor inserted. The greedy chain at search depth 8 is the
//! reference behind `chain`. BALANCED is the chain at depth 32 behind a length-lazy parse.
//!
//! # What the parser holds
//!
//! The parser owns the window a match reaches into. The buffer is three windows wide, which is
//! what lets the slide that makes room move by exactly one window and still leave a whole
//! window of history behind it, whatever block length the caller feeds.
//!
//! ```text
//! single table                 65 536 bytes     the finder's
//! window buffer                196 608 bytes    three windows
//! literal bytes                the block        the block's worst case, every byte a literal
//! steps                        the block / 4    the block's worst case, one step per match
//! ```
//!
//! The figure is what the parser allocates and holds. It does not count the input fragment,
//! which the caller owns and passes in.
//!
//! # The horizon
//!
//! A decision at a position reads at most one maximum match length ahead of it, so the
//! lookahead the strategy requires is 256 bytes and does not move with the input.
//!
//! # Determinism
//!
//! The same input, cut into the same blocks, produces the same sequences: the plan a parse
//! emits is a function of the parser's state and of the input, and of nothing else.

use vstd::prelude::*;

use crate::entropy::least;
use crate::format::Error;
use crate::matchfinder::{
    first_unhashable, slid, BoundedHashChain, ChainState, SingleHash, CHAIN_DEPTH_BALANCED,
    HEAD_ENTRIES, SEARCH_DEPTH, SINGLE_STATE_BYTES, STATE_BYTES,
};
use crate::sequence::{Plan, Sequences, Step};
use crate::simd::{Kernel, SELECTED};

pub mod decisions;
pub mod laws;
pub mod scan;

pub use scan::skip_jump;
use scan::{closed_plan, parse_balanced, parse_chain, parse_fast};
use scan::{ChainScan, FastScan, LazyScan};

verus! {

/// The input bytes one call may parse.
///
/// One window, which is also the longest literal run the representation expresses, so a block
/// of this length that holds no match at all is still one sequence.
pub const MAX_PARSE_BYTES: usize = 65_536;

/// The bytes the parser's buffer holds.
///
/// Three windows. A slide moves by one window exactly so that every stored position keeps its
/// link slot, and at three windows a slide is reached only above two windows filled, so a
/// whole window always survives it.
pub const CAPACITY: usize = MAX_PARSE_BYTES * 3;

/// The bytes the strategy reads ahead of the position it decides at.
pub const LOOKAHEAD_BYTES: usize = 256;

/// What a search structure holds.
pub ghost enum MatcherState {
    Fast(Seq<u32>),
    Chain(ChainState),
    Balanced(ChainState),
}

impl MatcherState {
    /// Whether the tables have the entries the hash and the window index.
    pub open spec fn valid(self) -> bool {
        match self {
            MatcherState::Fast(table) => table.len() == HEAD_ENTRIES,
            MatcherState::Chain(chain) => chain.valid(),
            MatcherState::Balanced(chain) => chain.valid(),
        }
    }

    /// The same structure with no position in it.
    pub open spec fn emptied(self) -> MatcherState {
        match self {
            MatcherState::Fast(_) => MatcherState::Fast(ChainState::fresh().head),
            MatcherState::Chain(_) => MatcherState::Chain(ChainState::fresh()),
            MatcherState::Balanced(_) => MatcherState::Balanced(ChainState::fresh()),
        }
    }

    /// The structure with every position moved back by one window.
    pub open spec fn slide(self) -> MatcherState {
        match self {
            MatcherState::Fast(table) => MatcherState::Fast(
                table.map_values(|entry: u32| slid(entry)),
            ),
            MatcherState::Chain(chain) => MatcherState::Chain(chain.slide()),
            MatcherState::Balanced(chain) => MatcherState::Balanced(chain.slide()),
        }
    }
}

/// What a parser carries from one block to the next.
pub ghost struct ParserState {
    pub matcher: MatcherState,
    /// The bytes the buffer holds.
    pub window: Seq<u8>,
    /// The first position of the buffer a chain has not been given.
    pub inserted: nat,
    /// Whether a BALANCED parse carries the skip schedule.
    pub skip: bool,
}

impl ParserState {
    /// Whether the state is one a parser can be in.
    pub open spec fn valid(self) -> bool {
        &&& self.matcher.valid()
        &&& self.window.len() <= CAPACITY
        &&& self.inserted <= self.window.len()
    }

    /// The same parser with no history.
    pub open spec fn emptied(self) -> ParserState {
        ParserState {
            matcher: self.matcher.emptied(),
            window: Seq::empty(),
            inserted: 0,
            skip: self.skip,
        }
    }

    /// A FAST parser with no history.
    pub open spec fn fast() -> ParserState {
        ParserState {
            matcher: MatcherState::Fast(ChainState::fresh().head),
            window: Seq::empty(),
            inserted: 0,
            skip: true,
        }
    }

    /// A greedy chain parser with no history.
    pub open spec fn chain() -> ParserState {
        ParserState { matcher: MatcherState::Chain(ChainState::fresh()), ..ParserState::fast() }
    }

    /// A BALANCED parser with no history, with or without the skip schedule.
    pub open spec fn balanced(skip: bool) -> ParserState {
        ParserState {
            matcher: MatcherState::Balanced(ChainState::fresh()),
            skip,
            ..ParserState::fast()
        }
    }

    /// The bytes a match in the next block may reach back into: the last window of them.
    pub open spec fn history(self) -> Seq<u8> {
        if self.window.len() <= MAX_PARSE_BYTES {
            self.window
        } else {
            self.window.skip(self.window.len() - MAX_PARSE_BYTES)
        }
    }

    /// The state with room for `len` more bytes: slid by exactly one window when the buffer
    /// does not hold them.
    pub open spec fn room(self, len: nat) -> ParserState {
        if self.window.len() + len <= CAPACITY {
            self
        } else {
            ParserState {
                matcher: self.matcher.slide(),
                window: self.window.skip(MAX_PARSE_BYTES as int),
                inserted: if self.inserted <= MAX_PARSE_BYTES {
                    0
                } else {
                    (self.inserted - MAX_PARSE_BYTES) as nat
                },
                skip: self.skip,
            }
        }
    }

    /// The state with a block's bytes appended to the history.
    pub open spec fn staged(self, input: Seq<u8>) -> ParserState {
        ParserState {
            window: self.room(input.len()).window + input,
            ..self.room(input.len())
        }
    }

    /// Where a staged block starts.
    pub open spec fn start(self, input: Seq<u8>) -> nat {
        self.room(input.len()).window.len()
    }

    /// What the parser carries after a block.
    pub open spec fn after(self, input: Seq<u8>) -> ParserState {
        let staged = self.staged(input);
        let data = staged.window;
        let start = self.start(input);
        match staged.matcher {
            MatcherState::Fast(table) => ParserState {
                matcher: MatcherState::Fast(FastScan::open(table, start).scan(data).table),
                ..staged
            },
            MatcherState::Chain(chain) => {
                let done = ChainScan::open(chain, staged.inserted, start).scan(data);
                ParserState {
                    matcher: MatcherState::Chain(done.chain),
                    inserted: least(done.inserted, first_unhashable(data.len())),
                    ..staged
                }
            },
            MatcherState::Balanced(chain) => {
                let done = LazyScan::open(chain, staged.inserted, start).scan(data, staged.skip);
                ParserState {
                    matcher: MatcherState::Balanced(done.chain),
                    inserted: least(done.inserted, first_unhashable(data.len())),
                    ..staged
                }
            },
        }
    }

    /// The plan the parser emits for a block.
    pub open spec fn plan(self, input: Seq<u8>) -> Plan {
        let staged = self.staged(input);
        let data = staged.window;
        let start = self.start(input);
        match staged.matcher {
            MatcherState::Fast(table) => {
                let done = FastScan::open(table, start).scan(data);
                closed_plan(done.plan, data, done.run_start)
            },
            MatcherState::Chain(chain) => {
                let done = ChainScan::open(chain, staged.inserted, start).scan(data);
                closed_plan(done.plan, data, done.run_start)
            },
            MatcherState::Balanced(chain) => {
                let done = LazyScan::open(chain, staged.inserted, start).scan(data, staged.skip);
                closed_plan(done.plan, data, done.run_start)
            },
        }
    }
}

/// Which search structure a parse runs on.
///
/// FAST is the shipped path. The chain is the reference the FAST trade was measured against.
/// BALANCED is the deeper chain behind the length-lazy parse.
enum Matcher {
    Fast(SingleHash),
    Chain(BoundedHashChain),
    Balanced(BoundedHashChain),
}

impl View for Matcher {
    type V = MatcherState;

    closed spec fn view(&self) -> MatcherState {
        match self {
            Matcher::Fast(table) => MatcherState::Fast(table@),
            Matcher::Chain(chain) => MatcherState::Chain(chain@),
            Matcher::Balanced(chain) => MatcherState::Balanced(chain@),
        }
    }
}

impl Matcher {
    spec fn valid(self) -> bool {
        match self {
            Matcher::Fast(table) => table.valid(),
            Matcher::Chain(chain) => chain.valid() && chain.searches() == SEARCH_DEPTH,
            Matcher::Balanced(chain) => chain.valid() && chain.searches() == CHAIN_DEPTH_BALANCED,
        }
    }

    spec fn compares(self) -> Kernel {
        match self {
            Matcher::Fast(table) => table.compares(),
            Matcher::Chain(chain) => chain.compares(),
            Matcher::Balanced(chain) => chain.compares(),
        }
    }
}

/// A parse that carries its history from one block to the next.
pub struct Parser {
    matcher: Matcher,
    window: Vec<u8>,
    /// The bytes of `window` that hold input.
    filled: usize,
    /// The first position of `window` the chain has not been given. The FAST path inserts
    /// inline and leaves this alone.
    inserted: usize,
    /// Whether the BALANCED parse carries the FAST skip schedule.
    balanced_skip: bool,
    /// The sequences of the block last parsed. Emptied and refilled, never reallocated.
    sequences: Sequences,
}

impl View for Parser {
    type V = ParserState;

    closed spec fn view(&self) -> ParserState {
        ParserState {
            matcher: self.matcher@,
            window: self.window@.take(self.filled as int),
            inserted: self.inserted as nat,
            skip: self.balanced_skip,
        }
    }
}

impl Default for Parser {
    fn default() -> (parser: Self)
        ensures
            parser.valid(),
            parser@ == ParserState::fast(),
            parser.compares() == SELECTED,
    {
        Self::new()
    }
}

impl Parser {
    /// Whether the buffer and the search structure are whole.
    pub closed spec fn valid(self) -> bool {
        &&& self.matcher.valid()
        &&& self.window@.len() == CAPACITY
        &&& self.inserted <= self.filled <= CAPACITY
    }

    /// The kernel the matcher compares candidates with.
    pub closed spec fn compares(self) -> Kernel {
        self.matcher.compares()
    }

    /// A parser's state is one a parser can be in.
    pub proof fn lemma_valid(self)
        requires
            self.valid(),
        ensures
            self@.valid(),
    {
    }

    /// A FAST parser with no history, on the kernel this build selected.
    pub fn new() -> (parser: Self)
        ensures
            parser.valid(),
            parser@ == ParserState::fast(),
            parser.compares() == SELECTED,
    {
        Self::of(Matcher::Fast(SingleHash::new()), true)
    }

    /// A FAST parser with no history, on a named kernel.
    pub fn with_kernel(kernel: Kernel) -> (parser: Self)
        ensures
            parser.valid(),
            parser@ == ParserState::fast(),
            parser.compares() == kernel,
    {
        Self::of(Matcher::Fast(SingleHash::with_kernel(kernel)), true)
    }

    /// A chain-driven parser with no history, on the kernel this build selected.
    ///
    /// It round-trips every input the FAST path does, and its bytes are not the FAST bytes: the
    /// skip changes the history a later search reads, by design.
    pub fn chain() -> (parser: Self)
        ensures
            parser.valid(),
            parser@ == ParserState::chain(),
            parser.compares() == SELECTED,
    {
        Self::of(Matcher::Chain(BoundedHashChain::new()), true)
    }

    /// A chain-driven parser with no history, on a named kernel.
    pub fn chain_with_kernel(kernel: Kernel) -> (parser: Self)
        ensures
            parser.valid(),
            parser@ == ParserState::chain(),
            parser.compares() == kernel,
    {
        Self::of(Matcher::Chain(BoundedHashChain::with_kernel(kernel)), true)
    }

    /// A BALANCED parser with no history, on the kernel this build selected.
    pub fn balanced() -> (parser: Self)
        ensures
            parser.valid(),
            parser@ == ParserState::balanced(true),
            parser.compares() == SELECTED,
    {
        Self::of(Matcher::Balanced(BoundedHashChain::with_depth(CHAIN_DEPTH_BALANCED)), true)
    }

    /// A BALANCED parser with no history, on a named kernel.
    pub fn balanced_with_kernel(kernel: Kernel) -> (parser: Self)
        ensures
            parser.valid(),
            parser@ == ParserState::balanced(true),
            parser.compares() == kernel,
    {
        Self::of(
            Matcher::Balanced(
                BoundedHashChain::with_depth_and_kernel(CHAIN_DEPTH_BALANCED, kernel),
            ),
            true,
        )
    }

    /// A BALANCED parser without the skip schedule, on the kernel this build selected.
    ///
    /// The comparison that measures what the skip costs runs the two on the same inputs.
    pub fn balanced_without_skip() -> (parser: Self)
        ensures
            parser.valid(),
            parser@ == ParserState::balanced(false),
            parser.compares() == SELECTED,
    {
        Self::of(Matcher::Balanced(BoundedHashChain::with_depth(CHAIN_DEPTH_BALANCED)), false)
    }

    /// The kernel the matcher compares candidates with.
    pub fn kernel(&self) -> (kernel: Kernel)
        ensures
            kernel == self.compares(),
    {
        match &self.matcher {
            Matcher::Fast(matcher) => matcher.kernel(),
            Matcher::Chain(matcher) => matcher.kernel(),
            Matcher::Balanced(matcher) => matcher.kernel(),
        }
    }

    /// The bytes the buffer holds.
    pub fn window(&self) -> (window: &[u8])
        requires
            self.valid(),
        ensures
            window@ == self@.window,
    {
        let window = vstd::slice::slice_subrange(self.window.as_slice(), 0, self.filled);
        assert(window@ =~= self@.window);
        window
    }

    /// The first position of the buffer a chain has not been given.
    pub fn inserted(&self) -> (inserted: usize)
        ensures
            inserted == self@.inserted,
    {
        self.inserted
    }

    /// The bytes a FAST parser holds between calls, whatever the input is.
    pub fn state_bytes() -> (bytes: usize)
        ensures
            bytes == SINGLE_STATE_BYTES + CAPACITY,
            bytes == 262_144,
    {
        SingleHash::state_bytes() + CAPACITY
    }

    /// The bytes a chain-driven parser holds between calls, whatever the input is.
    pub fn chain_state_bytes() -> (bytes: usize)
        ensures
            bytes == STATE_BYTES + CAPACITY,
            bytes == 524_288,
    {
        BoundedHashChain::state_bytes() + CAPACITY
    }

    /// The bytes a BALANCED parser holds between calls, whatever the input is.
    ///
    /// The depth moves the walk bound only, so the figure equals the chain figure.
    pub fn balanced_state_bytes() -> (bytes: usize)
        ensures
            bytes == STATE_BYTES + CAPACITY,
            bytes == 524_288,
    {
        Self::chain_state_bytes()
    }

    /// The bytes a FAST parser allocates and holds, for a block of `block_bytes`, held at the
    /// largest figure a size carries.
    ///
    /// This is every allocation the parser makes, held from the moment it is built until it is
    /// dropped. It does not count the input fragment, which the caller owns and passes in.
    pub fn declared_bytes(block_bytes: usize) -> (bytes: usize)
        ensures
            bytes == declared(262_144, block_bytes as nat),
    {
        declared_for(Self::state_bytes(), block_bytes)
    }

    /// The bytes a BALANCED parser allocates and holds, for a block of `block_bytes`.
    ///
    /// Same accounting as the FAST declaration, over the chain state the BALANCED matcher
    /// holds.
    pub fn balanced_declared_bytes(block_bytes: usize) -> (bytes: usize)
        ensures
            bytes == declared(524_288, block_bytes as nat),
    {
        declared_for(Self::balanced_state_bytes(), block_bytes)
    }

    /// The bytes a match in the next call may reach back into.
    ///
    /// At most one window, because that is the farthest a distance can name. Every byte
    /// returned survives the slide the next call may perform, so this is what the next block
    /// can reach and not what the buffer happens to hold.
    pub fn history(&self) -> (history: &[u8])
        requires
            self.valid(),
        ensures
            history@ == self@.history(),
    {
        let from: usize = if self.filled <= MAX_PARSE_BYTES {
            0
        } else {
            self.filled - MAX_PARSE_BYTES
        };
        let history = vstd::slice::slice_subrange(self.window.as_slice(), from, self.filled);
        assert(history@ =~= self@.history());
        history
    }

    /// Discards the history.
    ///
    /// A region boundary is what calls this. Nothing a later region emits may name a position
    /// an earlier one produced.
    pub fn reset(&mut self)
        requires
            old(self).valid(),
        ensures
            final(self).valid(),
            final(self)@ == old(self)@.emptied(),
            final(self).compares() == old(self).compares(),
    {
        match &mut self.matcher {
            Matcher::Fast(matcher) => matcher.reset(),
            Matcher::Chain(matcher) => matcher.reset(),
            Matcher::Balanced(matcher) => matcher.reset(),
        }
        self.filled = 0;
        self.inserted = 0;
        assert(self@.window =~= Seq::empty());
    }

    /// The sequences of one block of input.
    ///
    /// The bytes are appended to the history first, so a match may reach back into the blocks
    /// before this one, as far as the window. The sequences decode to exactly `input`.
    ///
    /// The result borrows the storage the parser reuses, so the next call overwrites it. A
    /// caller that needs two blocks at once clones the first.
    ///
    /// Refuses, and leaves the parser as it was, exactly when `input` is longer than one call
    /// may parse.
    pub fn parse(&mut self, input: &[u8]) -> (parsed: Result<&Sequences, Error>)
        requires
            old(self).valid(),
        ensures
            final(self).valid(),
            final(self).compares() == old(self).compares(),
            input@.len() > MAX_PARSE_BYTES ==> {
                &&& parsed == Err::<&Sequences, Error>(Error::InvalidParameter)
                &&& final(self)@ == old(self)@
            },
            input@.len() <= MAX_PARSE_BYTES ==> {
                &&& parsed matches Ok(sequences)
                &&& sequences@ == old(self)@.plan(input@)
                &&& sequences@.valid()
                &&& final(self)@ == old(self)@.after(input@)
            },
    {
        if input.len() > MAX_PARSE_BYTES {
            return Err(Error::InvalidParameter);
        }
        let ghost before = self@;
        self.make_room(input.len());
        let start: usize = self.filled;
        self.append(input);
        assert(self@ == before.staged(input@));
        let end: usize = self.filled;
        let data = vstd::slice::slice_subrange(self.window.as_slice(), 0, end);
        assert(data@ =~= self@.window);
        match &mut self.matcher {
            Matcher::Fast(matcher) => {
                parse_fast(matcher, data, start, &mut self.sequences);
            },
            Matcher::Chain(matcher) => {
                self.inserted = parse_chain(
                    matcher,
                    data,
                    start,
                    self.inserted,
                    &mut self.sequences,
                );
            },
            Matcher::Balanced(matcher) => {
                self.inserted = parse_balanced(
                    matcher,
                    data,
                    start,
                    self.inserted,
                    self.balanced_skip,
                    &mut self.sequences,
                );
            },
        }
        Ok(&self.sequences)
    }

    fn of(matcher: Matcher, balanced_skip: bool) -> (parser: Self)
        requires
            matcher.valid(),
        ensures
            parser.valid(),
            parser@ == (ParserState {
                matcher: matcher@,
                window: Seq::empty(),
                inserted: 0,
                skip: balanced_skip,
            }),
            parser.compares() == matcher.compares(),
    {
        let parser = Parser {
            matcher,
            window: vec![0u8; CAPACITY],
            filled: 0,
            inserted: 0,
            balanced_skip,
            sequences: Sequences::with_capacity(MAX_PARSE_BYTES, step_capacity(MAX_PARSE_BYTES)),
        };
        assert(parser@.window =~= Seq::empty());
        parser
    }

    /// Makes room for `len` more bytes, sliding by exactly one window when the buffer is full.
    ///
    /// The shift is one window, so every stored position keeps its slot and the matcher moves
    /// with one pass over its own entries.
    fn make_room(&mut self, len: usize)
        requires
            old(self).valid(),
            len <= MAX_PARSE_BYTES,
        ensures
            final(self).valid(),
            final(self)@ == old(self)@.room(len as nat),
            final(self).compares() == old(self).compares(),
            final(self).filled + len <= CAPACITY,
    {
        if self.filled + len <= CAPACITY {
            return ;
        }
        let kept: usize = self.filled - MAX_PARSE_BYTES;
        let mut at: usize = 0;
        while at < kept
            invariant
                at <= kept,
                kept + MAX_PARSE_BYTES == self.filled,
                self.filled <= CAPACITY,
                self.window@.len() == CAPACITY,
                self.matcher == old(self).matcher,
                self.filled == old(self).filled,
                self.inserted == old(self).inserted,
                self.balanced_skip == old(self).balanced_skip,
                forall|i: int|
                    0 <= i < at ==> #[trigger] self.window@[i] == old(self).window@[i
                        + MAX_PARSE_BYTES],
                forall|i: int|
                    at <= i < CAPACITY ==> #[trigger] self.window@[i] == old(self).window@[i],
            decreases kept - at,
        {
            let byte: u8 = self.window[at + MAX_PARSE_BYTES];
            self.window[at] = byte;
            at = at + 1;
        }
        self.filled = kept;
        self.inserted = if self.inserted <= MAX_PARSE_BYTES {
            0
        } else {
            self.inserted - MAX_PARSE_BYTES
        };
        assert(self.window@.take(kept as int) =~= old(self)@.window.skip(MAX_PARSE_BYTES as int));
        match &mut self.matcher {
            Matcher::Fast(matcher) => matcher.slide(),
            Matcher::Chain(matcher) => matcher.slide(),
            Matcher::Balanced(matcher) => matcher.slide(),
        }
    }

    /// Appends a block's bytes to the ones the buffer holds.
    fn append(&mut self, input: &[u8])
        requires
            old(self).valid(),
            old(self).filled + input@.len() <= CAPACITY,
        ensures
            final(self).valid(),
            final(self)@ == (ParserState {
                window: old(self)@.window + input@,
                ..old(self)@
            }),
            final(self).filled == old(self).filled + input@.len(),
            final(self).compares() == old(self).compares(),
    {
        let start: usize = self.filled;
        let total: usize = input.len();
        let mut at: usize = 0;
        while at < total
            invariant
                at <= total,
                total == input@.len(),
                start + total <= CAPACITY,
                self.window@.len() == CAPACITY,
                self.matcher == old(self).matcher,
                start == old(self).filled,
                self.filled == old(self).filled,
                self.inserted == old(self).inserted,
                self.balanced_skip == old(self).balanced_skip,
                forall|i: int| 0 <= i < start ==> #[trigger] self.window@[i] == old(self).window@[i],
                forall|i: int|
                    start <= i < start + at ==> #[trigger] self.window@[i] == input@[i - start],
            decreases total - at,
        {
            self.window[start + at] = input[at];
            at = at + 1;
        }
        self.filled = start + total;
        assert(self@.window =~= old(self)@.window + input@);
    }
}

/// The bytes a parser of `state` bytes holds for a block: its state, the block's literal bytes,
/// and the steps the block can hold.
pub open spec fn declared(state: nat, block_bytes: nat) -> nat {
    least(
        state + block_bytes + (block_bytes / 4 + 1) * vstd::layout::size_of::<Step>(),
        usize::MAX as nat,
    )
}

/// The bytes a parser of `state` bytes holds for a block, held at the largest figure a size
/// carries.
fn declared_for(state: usize, block_bytes: usize) -> (bytes: usize)
    ensures
        bytes == declared(state as nat, block_bytes as nat),
{
    let steps: usize = step_capacity(block_bytes);
    let step_bytes: usize = core::mem::size_of::<Step>();
    let held: usize = match steps.checked_mul(step_bytes) {
        Some(held) => held,
        None => usize::MAX,
    };
    state.saturating_add(block_bytes).saturating_add(held)
}

/// The steps a block of `block_bytes` can hold.
///
/// Every step but the last carries a match, and a step that carries one covers its run and at
/// least the minimum match length, so a block holds at most one step per minimum match plus
/// the step a trailing literal run closes.
pub fn step_capacity(block_bytes: usize) -> (steps: usize)
    ensures
        steps == block_bytes / 4 + 1,
{
    block_bytes / 4 + 1
}

} // verus!
