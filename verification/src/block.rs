//! Owns the COMPRESSED block: what its payload carries, the state a decoder carries across the
//! blocks of one region, and the order the two are read in.
//!
//! This module does not own the prologue's fields, which the format module parses and
//! validates, the coders the streams pass through, the sequence representation their symbols
//! are drawn from, or the streaming machine that drives blocks.
//!
//! One coder per symbol class, in the order a block carries the streams:
//!
//! ```text
//! literal byte      canonical Huffman, single-level table
//! literal run       rANS, 1 state
//! match length      rANS, 2 states
//! match distance    rANS, 4 states
//! ```
//!
//! # The two histories
//!
//! A region carries two dependencies between its blocks: the table in force for each symbol
//! class, and the offset cache. Both are unchanged across a RAW block and across an RLE block,
//! because a decoder never sees the sequences of one and cannot update a history from it. Both
//! are discarded at a region boundary, so every dependency this representation creates stays
//! inside one region and the frame flag that declares region independence still covers all of
//! them.
//!
//! # The expansion bound
//!
//! A COMPRESSED block whose stored payload is not below the size it decodes to is refused as
//! corrupt, before the payload is read. The version 1 bound on what a frame may add to its
//! content then holds for every stream a decoder accepts, and not only for every stream a
//! conforming encoder wrote. It costs a conforming encoder nothing: a rule that assembles
//! every type and emits the cheapest never produces such a block.
//!
//! # The table bound
//!
//! The bound is taken over the state the mechanism holds, which is the four tables in force,
//! and not over the four tables one block declares. The two are equal exactly when every
//! stream of the block carries symbols; a class whose stream is empty holds a table the block
//! does not declare and the decoder still holds it. So the decoder holds the figure it will
//! hold against policy, and the encoder gives each class a quarter of the ceiling, which makes
//! the state it holds bounded by the same figure whichever streams a block carries.

pub mod acceptance;
pub mod choices;
pub mod content;
pub mod encoder;
pub mod expand;
pub mod laws;
pub mod prologues;
pub mod refusals;
pub mod tables;

use vstd::prelude::*;
use crate::entropy::bits::{bytes_for, window, BitBuf};
use crate::entropy::least;
use crate::format::prologue::{padded, prologue_read, BlockPrologue, Extents};
use crate::format::{Corruption, DecoderPolicy, Error};
use crate::sequence::cache::OffsetCache;
use crate::sequence::streams::{plan_of, StreamShape, Streams, StreamsShape, SymbolStream};
pub use encoder::{Assembly, Coded, Encoder, Terms, TABLE_SHARES};
use expand::expansion;
pub use expand::{expand, expand_rule, expand_scalar, expand_width, COPY_WIDTH};
use tables::{alphabet_at, class_of, coder_at, described, ClassTable};
pub use tables::{Admitted, Built, Coder, InForce};

verus! {

/// One COMPRESSED block, as a decoder meets it inside its region.
#[derive(Clone, Copy, Debug)]
pub struct Block<'a> {
    /// The stored bytes of this block's payload that have arrived, from its first byte.
    pub arrived: &'a [u8],
    /// The stored bytes the region still declares, this block's payload included.
    pub declared: u64,
    /// Whether this is the first block of its region, where the mode field is absent.
    pub first_in_region: bool,
    /// The bytes the region produced before this block, at most one window of them.
    pub history: &'a [u8],
}

/// Where one section sits inside a block's stored body.
#[derive(Clone, Copy, Debug)]
pub struct Span {
    /// The first byte of the section.
    pub at: usize,
    /// The bytes of the section.
    pub len: usize,
    /// The bits of the section.
    pub bits: u64,
}

impl Span {
    /// The bytes of the body this section occupies.
    ///
    /// Refuses a section the body does not hold.
    pub fn of<'a>(&self, body: &'a [u8]) -> (section: Result<&'a [u8], Error>)
        ensures
            self.at + self.len <= body@.len() ==> (section matches Ok(bytes) && bytes@
                == body@.subrange(self.at as int, self.at + self.len)),
            self.at + self.len > body@.len() ==> section == Err::<&'a [u8], Error>(
                Error::CorruptData(Corruption::BlockExtent),
            ),
    {
        if self.at > body.len() || self.len > body.len() - self.at {
            return Err(Error::CorruptData(Corruption::BlockExtent));
        }
        Ok(vstd::slice::slice_subrange(body, self.at, self.at + self.len))
    }
}

/// Locates one group of four sections, each starting on a byte.
///
/// Refuses a group memory cannot index, and leaves the position where it was.
pub fn locate(bits: &[u64; 4], at: &mut usize) -> (spans: Result<[Span; 4], Error>)
    ensures
        *old(at) + padded(bits@) <= usize::MAX ==> {
            &&& spans matches Ok(spans) && forall|i: int|
                0 <= i < 4 ==> (#[trigger] spans@[i]).at == *old(at) + padded(bits@.take(i))
                    && spans@[i].len == bytes_for(bits@[i] as nat) && spans@[i].bits == bits@[i]
            &&& *final(at) == *old(at) + padded(bits@)
        },
        *old(at) + padded(bits@) > usize::MAX ==> spans == Err::<[Span; 4], Error>(
            Error::CorruptData(Corruption::BlockExtent),
        ) && *final(at) == *old(at),
{
    let mut spans = [
        Span { at: 0, len: 0, bits: 0 },
        Span { at: 0, len: 0, bits: 0 },
        Span { at: 0, len: 0, bits: 0 },
        Span { at: 0, len: 0, bits: 0 },
    ];
    let mut reached: usize = *at;
    let mut index: usize = 0;
    proof {
        assert(bits@.take(0) =~= Seq::empty());
        assert(bits@.take(4) =~= bits@);
    }
    while index < 4
        invariant
            index <= 4,
            *at == *old(at),
            bits@.len() == 4,
            bits@.take(4) == bits@,
            reached == *at + padded(bits@.take(index as int)),
            forall|i: int|
                0 <= i < index ==> (#[trigger] spans@[i]).at == *at + padded(bits@.take(i))
                    && spans@[i].len == bytes_for(bits@[i] as nat) && spans@[i].bits == bits@[i],
        decreases 4 - index,
    {
        let declared: u64 = bits[index];
        proof {
            assert(bits@.take(index + 1).drop_last() =~= bits@.take(index as int));
            lemma_padded_grows(bits@, index + 1);
        }
        let bytes: u64 = declared / 8 + if declared % 8 == 0 { 0 } else { 1 };
        if bytes > (usize::MAX - reached) as u64 {
            return Err(Error::CorruptData(Corruption::BlockExtent));
        }
        let len: usize = bytes as usize;
        spans[index] = Span { at: reached, len, bits: declared };
        reached = reached + len;
        index = index + 1;
    }
    *at = reached;
    Ok(spans)
}

/// The sections of a group take at least what the first ones take.
pub proof fn lemma_padded_grows(bits: Seq<u64>, n: int)
    requires
        0 <= n <= bits.len(),
    ensures
        padded(bits.take(n)) <= padded(bits),
    decreases bits.len(),
{
    if n < bits.len() {
        lemma_padded_grows(bits.drop_last(), n);
        assert(bits.drop_last().take(n) =~= bits.take(n));
    } else {
        assert(bits.take(n) =~= bits);
    }
}

/// The bytes of one section of a group that starts at `start`.
pub open spec fn section(body: Seq<u8>, start: nat, bits: Seq<u64>, index: int) -> Seq<u8> {
    let at = start + padded(bits.take(index));
    body.subrange(at as int, (at + bytes_for(bits[index] as nat)) as int)
}

/// The bytes of one stream's description.
pub open spec fn description_section(extents: Extents, body: Seq<u8>, index: int) -> Seq<u8> {
    section(body, 0, extents.description_bits, index)
}

/// The bytes of one stream's coded symbols.
pub open spec fn payload_section(extents: Extents, body: Seq<u8>, index: int) -> Seq<u8> {
    section(body, padded(extents.description_bits), extents.payload_bits, index)
}

/// The bytes of one stream's raw suffixes.
pub open spec fn suffix_section(extents: Extents, body: Seq<u8>, index: int) -> Seq<u8> {
    section(
        body,
        padded(extents.description_bits) + padded(extents.payload_bits),
        extents.suffix_bits,
        index,
    )
}

/// What a decoder carries across the blocks of one region.
#[verifier::ext_equal]
pub struct DecoderState {
    /// The table in force for each class.
    pub tables: Seq<Option<ClassTable>>,
    /// What the offset slot holds.
    pub slot: Option<u32>,
    /// The tables built so far.
    pub built: u64,
    /// The widest set of tables held so far.
    pub peak: u64,
    /// The refusal the decoder stopped at.
    pub poison: Option<Error>,
}

/// What a decoder meets as one block.
pub struct BlockShape {
    pub arrived: Seq<u8>,
    pub declared: u64,
    pub first: bool,
    pub history: Seq<u8>,
}

/// The bytes a table in force occupies.
pub open spec fn table_bytes_of(table: Option<ClassTable>) -> nat {
    match table {
        Some(table) => table.table_bytes(),
        None => 0,
    }
}

/// The bytes the four tables in force occupy together.
pub open spec fn held_bytes(tables: Seq<Option<ClassTable>>) -> nat {
    table_bytes_of(tables[0]) + table_bytes_of(tables[1]) + table_bytes_of(tables[2])
        + table_bytes_of(tables[3])
}

/// The tables in force once a block's fresh tables replace the ones they name.
pub open spec fn replaced(
    tables: Seq<Option<ClassTable>>,
    fresh: Seq<Option<ClassTable>>,
) -> Seq<Option<ClassTable>> {
    Seq::new(
        4,
        |i: int|
            if fresh[i] is Some {
                fresh[i]
            } else {
                tables[i]
            },
    )
}

/// The tables a block builds.
pub open spec fn fresh_count(fresh: Seq<Option<ClassTable>>) -> nat
    decreases fresh.len(),
{
    if fresh.len() == 0 {
        0
    } else {
        fresh_count(fresh.drop_last()) + if fresh.last() is Some {
            1nat
        } else {
            0
        }
    }
}

/// The stored body of a block, or why it has none.
///
/// A body the region cannot hold is corruption, and a body the input does not yet hold is
/// truncation. The twelve extents are what separate the two.
pub open spec fn body_of(block: BlockShape, extents: Extents, used: nat, size: u32) -> Result<
    Seq<u8>,
    Error,
> {
    let stored = used + extents.body();
    if stored > u64::MAX {
        Err(Error::CorruptData(Corruption::BlockExtent))
    } else if stored >= size {
        Err(Error::CorruptData(Corruption::BlockExpansion))
    } else if stored > block.declared {
        Err(Error::CorruptData(Corruption::BlockExtent))
    } else if stored > block.arrived.len() {
        Err(Error::TruncatedInput { needed: stored as usize })
    } else {
        Ok(block.arrived.subrange(used as int, stored as int))
    }
}

/// The table one stream's description declares, where it carries one, or the refusal.
pub open spec fn fresh_at(extents: Extents, body: Seq<u8>, index: int) -> Result<
    Option<ClassTable>,
    Error,
> {
    if extents.counts[index] == 0 || extents.repeats(index) {
        Ok(None)
    } else {
        match described(
            coder_at(index),
            alphabet_at(index),
            description_section(extents, body, index),
            extents.description_bits[index] as nat,
        ) {
            Ok(table) => Ok(Some(table)),
            Err(error) => Err(error),
        }
    }
}

/// The tables the first `count` streams' descriptions declare, or the first refusal.
pub open spec fn fresh_tables(extents: Extents, body: Seq<u8>, count: nat) -> Result<
    Seq<Option<ClassTable>>,
    Error,
>
    decreases count,
{
    if count == 0 {
        Ok(Seq::empty())
    } else {
        match fresh_tables(extents, body, (count - 1) as nat) {
            Err(error) => Err(error),
            Ok(fresh) => match fresh_at(extents, body, count - 1) {
                Err(error) => Err(error),
                Ok(table) => Ok(fresh.push(table)),
            },
        }
    }
}

/// The bytes the tables of the first `count` streams that carry symbols occupy.
pub open spec fn required_bytes(
    extents: Extents,
    after: Seq<Option<ClassTable>>,
    count: nat,
) -> nat
    decreases count,
{
    if count == 0 {
        0
    } else {
        required_bytes(extents, after, (count - 1) as nat) + if extents.counts[count - 1] > 0 {
            table_bytes_of(after[count - 1])
        } else {
            0
        }
    }
}

/// Whether a stream names a table nothing built.
pub open spec fn names_unset(tables: Seq<Option<ClassTable>>, extents: Extents, index: int) -> bool {
    extents.counts[index] > 0 && extents.repeats(index) && tables[index] is None
}

/// The refusal of a block's tables, where there is one.
pub open spec fn commit_refused(
    tables: Seq<Option<ClassTable>>,
    extents: Extents,
    fresh: Seq<Option<ClassTable>>,
    limit: u64,
) -> Option<Error> {
    let after = replaced(tables, fresh);
    if exists|i: int| 0 <= i < 4 && #[trigger] names_unset(tables, extents, i) {
        Some(Error::CorruptData(Corruption::TableUnset))
    } else if required_bytes(extents, after, 4) != extents.table_bytes {
        Some(Error::CorruptData(Corruption::TableMemory))
    } else if held_bytes(after) > limit {
        Some(Error::LimitExceeded { declared: held_bytes(after) as u64, allowed: limit })
    } else {
        None
    }
}

/// A decoder once a block's tables are built.
pub open spec fn committed(state: DecoderState, fresh: Seq<Option<ClassTable>>) -> DecoderState {
    let after = replaced(state.tables, fresh);
    DecoderState {
        tables: after,
        built: least(state.built as nat + fresh_count(fresh), u64::MAX as nat) as u64,
        peak: if held_bytes(after) > state.peak {
            held_bytes(after) as u64
        } else {
            state.peak
        },
        ..state
    }
}

/// What one stream of a block holds, or the refusal of its payload.
pub open spec fn stream_at(
    tables: Seq<Option<ClassTable>>,
    extents: Extents,
    body: Seq<u8>,
    index: int,
) -> Result<StreamShape, Error> {
    let suffix = window(
        suffix_section(extents, body, index),
        0,
        extents.suffix_bits[index] as nat,
    );
    if extents.counts[index] == 0 {
        Ok(StreamShape { symbols: Seq::empty(), suffix })
    } else {
        match tables[index] {
            None => Err(Error::CorruptData(Corruption::TableUnset)),
            Some(table) => match table.decoded(
                payload_section(extents, body, index),
                extents.payload_bits[index] as nat,
                extents.counts[index] as nat,
            ) {
                Err(error) => Err(error),
                Ok((symbols, spent)) => if spent != extents.payload_bits[index] {
                    Err(Error::CorruptData(Corruption::BlockPayload))
                } else {
                    Ok(StreamShape { symbols, suffix })
                },
            },
        }
    }
}

/// What the four streams of a block hold, or the first refusal.
pub open spec fn streams_at(
    tables: Seq<Option<ClassTable>>,
    extents: Extents,
    body: Seq<u8>,
) -> Result<StreamsShape, Error> {
    match stream_at(tables, extents, body, 0) {
        Err(error) => Err(error),
        Ok(literal_byte) => match stream_at(tables, extents, body, 1) {
            Err(error) => Err(error),
            Ok(literal_run) => match stream_at(tables, extents, body, 2) {
                Err(error) => Err(error),
                Ok(match_length) => match stream_at(tables, extents, body, 3) {
                    Err(error) => Err(error),
                    Ok(match_distance) => Ok(
                        StreamsShape { literal_byte, literal_run, match_length, match_distance },
                    ),
                },
            },
        },
    }
}

/// What a decoder whose tables are built answers for the content of a block: the stored bytes
/// it spent or the refusal, the state it leaves, and the output it leaves.
pub open spec fn content_read(
    state: DecoderState,
    extents: Extents,
    body: Seq<u8>,
    used: nat,
    history: Seq<u8>,
    out: Seq<u8>,
) -> (Result<nat, Error>, DecoderState, Seq<u8>) {
    match streams_at(state.tables, extents, body) {
        Err(error) => (Err(error), state, out),
        Ok(streams) => match plan_of(streams, state.slot) {
            (Err(error), _) => (Err(error), state, out),
            (Ok(plan), slot) => match expansion(plan, history, out.len()) {
                Err((error, written)) => (
                    Err(error),
                    state,
                    written + out.skip(written.len() as int),
                ),
                Ok(content) => (Ok(used + body.len()), DecoderState { slot, ..state }, content),
            },
        },
    }
}

/// What a decoder answers for a block, leaving its poison as it was.
pub open spec fn block_expanded(state: DecoderState, block: BlockShape, limit: u64, out: Seq<u8>)
    -> (Result<nat, Error>, DecoderState, Seq<u8>) {
    if out.len() > u32::MAX {
        (Err(Error::CorruptData(Corruption::BlockSize)), state, out)
    } else {
        match prologue_read(block.arrived, out.len() as u32, block.first, limit) {
            Err(error) => (Err(error), state, out),
            Ok((extents, used)) => match body_of(block, extents, used, out.len() as u32) {
                Err(error) => (Err(error), state, out),
                Ok(body) => match fresh_tables(extents, body, 4) {
                    Err(error) => (Err(error), state, out),
                    Ok(fresh) => match commit_refused(state.tables, extents, fresh, limit) {
                        Some(error) => (Err(error), state, out),
                        None => content_read(
                            committed(state, fresh),
                            extents,
                            body,
                            used,
                            block.history,
                            out,
                        ),
                    },
                },
            },
        }
    }
}

/// What a decoder answers for a block: the stored bytes it spent or the refusal, the state it
/// leaves, and the output it leaves.
///
/// A decoder that has refused a block answers every later one with the same refusal.
pub open spec fn block_read(state: DecoderState, block: BlockShape, limit: u64, out: Seq<u8>) -> (
    Result<nat, Error>,
    DecoderState,
    Seq<u8>,
) {
    match state.poison {
        Some(error) => (Err(error), state, out),
        None => {
            let (told, next, written) = block_expanded(state, block, limit, out);
            match told {
                Ok(spent) => (Ok(spent), next, written),
                Err(error) => (
                    Err(error),
                    DecoderState { poison: Some(error), ..next },
                    written,
                ),
            }
        },
    }
}

/// The state a decoder carries across the blocks of one region.
///
/// The table in force for each symbol class, and the offset cache. A region starts holding
/// neither.
pub struct Decoder {
    tables: [Option<InForce>; 4],
    cache: OffsetCache,
    tables_built: u64,
    peak_table_bytes: u64,
    poison: Option<Error>,
}

/// The model of a table slot.
pub open spec fn in_force_model(slot: Option<InForce>) -> Option<ClassTable> {
    match slot {
        Some(table) => Some(table@),
        None => None,
    }
}

/// The model of an admitted slot.
pub open spec fn admitted_model(slot: Option<Admitted>) -> Option<ClassTable> {
    match slot {
        Some(admitted) => Some(admitted@),
        None => None,
    }
}

impl View for Decoder {
    type V = DecoderState;

    closed spec fn view(&self) -> DecoderState {
        DecoderState {
            tables: Seq::new(4, |i: int| in_force_model(self.tables@[i])),
            slot: self.cache@,
            built: self.tables_built,
            peak: self.peak_table_bytes,
            poison: self.poison,
        }
    }
}

/// The tables of a decoder that holds none.
pub open spec fn no_tables() -> Seq<Option<ClassTable>> {
    Seq::new(4, |i: int| None)
}

/// A decoder at a region start.
pub open spec fn fresh_decoder() -> DecoderState {
    DecoderState { tables: no_tables(), slot: None, built: 0, peak: 0, poison: None }
}

/// A table of a described class occupies at most what 16 bits and a bit count.
pub proof fn lemma_table_bytes(table: ClassTable)
    requires
        match table {
            ClassTable::Huffman(shape) => shape.valid(),
            ClassTable::Rans(shape, _) => shape.valid(),
        },
    ensures
        table.table_bytes() <= 65_536,
{
    vstd::arithmetic::power2::lemma2_to64();
    match table {
        ClassTable::Huffman(shape) => {
            if shape.single is None {
                crate::entropy::huffman::lemma_widest(shape.lengths);
                let widest = crate::entropy::huffman::widest(shape.lengths) as nat;
                if widest < 15 {
                    vstd::arithmetic::power2::lemma_pow2_strictly_increases(widest, 15);
                }
            }
        },
        ClassTable::Rans(shape, _) => {
            if shape.log < 12 {
                vstd::arithmetic::power2::lemma_pow2_strictly_increases(shape.log as nat, 12);
            }
        },
    }
}

impl Decoder {
    /// Whether every table in force holds what its model says.
    pub closed spec fn wf(&self) -> bool {
        forall|i: int|
            0 <= i < 4 ==> (#[trigger] self.tables@[i] matches Some(table) ==> table.wf())
    }

    /// The state a region starts in: no table in force, and an unset offset slot.
    #[must_use]
    pub fn at_region_start() -> (decoder: Self)
        ensures
            decoder.wf(),
            decoder@ == fresh_decoder(),
    {
        let decoder = Decoder {
            tables: [None, None, None, None],
            cache: OffsetCache::reset(),
            tables_built: 0,
            peak_table_bytes: 0,
            poison: None,
        };
        proof {
            assert(decoder@.tables =~= no_tables());
        }
        decoder
    }

    /// Discards both histories, which is what a region boundary does to them.
    ///
    /// The tables this decoder has built and the widest set it has held are counts of its own
    /// work and not histories, so a region boundary leaves both where they are. A decoder that
    /// has failed stays failed: a region boundary is a position in a stream this decoder has
    /// already refused to read.
    pub fn reset(&mut self)
        ensures
            final(self).wf(),
            final(self)@ == (DecoderState { tables: no_tables(), slot: None, ..old(self)@ }),
    {
        self.tables = [None, None, None, None];
        self.cache = OffsetCache::reset();
        proof {
            assert(self@.tables =~= no_tables());
        }
    }

    /// The tables this decoder has built, over every block it has read.
    ///
    /// A count and not a time. It is what makes the position of a refusal measurable: a block
    /// refused before the commitment point leaves it where it was.
    #[must_use]
    pub fn tables_built(&self) -> (built: u64)
        ensures
            built == self@.built,
    {
        self.tables_built
    }

    /// The widest set of tables this decoder has ever held, over every block it has read.
    ///
    /// The figure covers the transition from one block's tables to the next one's and not only
    /// the state each block settles at, so it is the peak the memory bound is taken over and
    /// not a figure the decoder passes above on its way to it.
    #[must_use]
    pub fn peak_table_bytes(&self) -> (bytes: u64)
        ensures
            bytes == self@.peak,
    {
        self.peak_table_bytes
    }

    /// The bytes the tables in force occupy together.
    ///
    /// This is the state the mechanism holds, which is the figure the bound is taken over.
    #[must_use]
    pub fn table_bytes(&self) -> (bytes: u64)
        requires
            self.wf(),
        ensures
            bytes as nat == held_bytes(self@.tables),
            bytes <= 4 * 65_536,
    {
        self.slot_bytes(0) + self.slot_bytes(1) + self.slot_bytes(2) + self.slot_bytes(3)
    }

    /// The bytes one table in force occupies.
    fn slot_bytes(&self, index: usize) -> (bytes: u64)
        requires
            self.wf(),
            index < 4,
        ensures
            bytes as nat == table_bytes_of(self@.tables[index as int]),
            bytes <= 65_536,
    {
        proof {
            assert(self.tables@[index as int] == self.tables[index as int]);
        }
        match &self.tables[index] {
            Some(table) => {
                proof {
                    match table {
                        InForce::Huffman(held) => held.lemma_wf(),
                        InForce::Rans(held, _) => held.lemma_wf(),
                    }
                    lemma_table_bytes(table@);
                }
                table.table_bytes()
            },
            None => 0,
        }
    }

    /// The distance the offset slot holds, if a match of this region has set it.
    #[must_use]
    pub fn offset_slot(&self) -> (slot: Option<u32>)
        ensures
            slot == self@.slot,
    {
        self.cache.slot()
    }

    /// Reads one COMPRESSED block, and reports the stored bytes it spent.
    ///
    /// `out` is sized by the caller from the decoded size the block header declared, and that
    /// is the one source for the figure. Every declared quantity is validated before anything
    /// is sized from it, and the tables are built only once the block's whole requirement has
    /// been checked against what this decoder will hold.
    ///
    /// A decoder that has refused a block is poisoned and answers every later call with the
    /// same error. The read order commits the tables before it decodes the payloads and moves
    /// the offset cache only after, so a failure between the two leaves a state no stream
    /// establishes, and reading on from it would decode against tables and a cache that no
    /// block put together.
    ///
    /// Refuses with `UnsupportedFeature` a symbol model this build does not implement, with
    /// `LimitExceeded` tables above policy, with `CorruptData` a declared quantity that
    /// contradicts another or the block's own content or a block that stores at least the bytes
    /// it decodes to, and with `TruncatedInput` stored bytes that have not arrived.
    pub fn read(&mut self, block: &Block<'_>, policy: &DecoderPolicy, out: &mut [u8]) -> (told:
        Result<usize, Error>)
        requires
            old(self).wf(),
        ensures
            final(self).wf(),
            ({
                let (answer, state, written) = block_read(
                    old(self)@,
                    BlockShape {
                        arrived: block.arrived@,
                        declared: block.declared,
                        first: block.first_in_region,
                        history: block.history@,
                    },
                    policy.table_limit(),
                    old(out)@,
                );
                &&& final(self)@ == state
                &&& final(out)@ == written
                &&& match answer {
                    Ok(spent) => told matches Ok(told) && told == spent,
                    Err(error) => told == Err::<usize, Error>(error),
                }
            }),
    {
        if let Some(error) = self.poison {
            return Err(error);
        }
        match self.expand_block(block, policy, out) {
            Ok(spent) => Ok(spent),
            Err(error) => {
                self.poison = Some(error);
                Err(error)
            },
        }
    }

    /// Reads one block, leaving this decoder in whatever state the failure reached.
    ///
    /// A block is read in an order that commits before it decodes: the tables are built once
    /// the block's whole requirement is admitted, and the offset cache moves only once the
    /// block has produced every byte it declared. So a failure between the two leaves the
    /// tables of this block beside the cache of the block before it, which is a state no
    /// stream establishes. `read` is what makes that state unreachable, by refusing to read
    /// again from it.
    fn expand_block(&mut self, block: &Block<'_>, policy: &DecoderPolicy, out: &mut [u8]) -> (told:
        Result<usize, Error>)
        requires
            old(self).wf(),
        ensures
            final(self).wf(),
            ({
                let (answer, state, written) = block_expanded(
                    old(self)@,
                    BlockShape {
                        arrived: block.arrived@,
                        declared: block.declared,
                        first: block.first_in_region,
                        history: block.history@,
                    },
                    policy.table_limit(),
                    old(out)@,
                );
                &&& final(self)@ == state
                &&& final(out)@ == written
                &&& match answer {
                    Ok(spent) => told matches Ok(told) && told == spent,
                    Err(error) => told == Err::<usize, Error>(error),
                }
            }),
    {
        if out.len() > u32::MAX as usize {
            return Err(Error::CorruptData(Corruption::BlockSize));
        }
        let decoded_size: u32 = out.len() as u32;
        proof {
            if prologue_read(
                block.arrived@,
                decoded_size,
                block.first_in_region,
                policy.table_limit(),
            ) is Ok {
                crate::format::prologue::law_read_prologue_is_admissible(
                    block.arrived@,
                    decoded_size,
                    block.first_in_region,
                    policy.table_limit(),
                );
            }
        }
        let (prologue, used) = match BlockPrologue::decode(
            block.arrived,
            decoded_size,
            block.first_in_region,
            policy,
        ) {
            Ok(read) => read,
            Err(error) => {
                return Err(error);
            },
        };
        let body = match Self::locate_body(block, &prologue, used, decoded_size) {
            Ok(body) => body,
            Err(error) => {
                return Err(error);
            },
        };
        let mut at: usize = 0;
        let descriptions = match locate(&prologue.description_bits, &mut at) {
            Ok(spans) => spans,
            Err(error) => {
                return Err(error);
            },
        };
        let payloads = match locate(&prologue.payload_bits, &mut at) {
            Ok(spans) => spans,
            Err(error) => {
                return Err(error);
            },
        };
        let suffixes = match locate(&prologue.suffix_bits, &mut at) {
            Ok(spans) => spans,
            Err(error) => {
                return Err(error);
            },
        };
        let ghost extents = prologue@;
        proof {
            lemma_spans(extents, body@.len());
        }
        let fresh = match Self::admit_descriptions(&prologue, &descriptions, body) {
            Ok(fresh) => fresh,
            Err(error) => {
                return Err(error);
            },
        };
        proof {
            let tables = fresh_tables(extents, body@, 4)->Ok_0;
            assert(tables =~= Seq::new(4, |i: int| admitted_model(fresh@[i])));
            assert forall|i: int| 0 <= i < 4 implies (#[trigger] fresh@[i] matches Some(admitted)
                ==> admitted.wf()) by {
                assert(admitted_model(fresh@[i]) == tables[i]);
            }
            assert(block.arrived.len() == block.arrived@.len());
        }
        match self.commit(&prologue, &fresh, policy) {
            Ok(()) => {},
            Err(error) => {
                return Err(error);
            },
        }
        self.read_content(&prologue, &payloads, &suffixes, body, used, block.history, out)
    }

    /// Decodes the four streams under the tables in force and writes the content they name.
    fn read_content(
        &mut self,
        prologue: &BlockPrologue,
        payloads: &[Span; 4],
        suffixes: &[Span; 4],
        body: &[u8],
        used: usize,
        history: &[u8],
        out: &mut [u8],
    ) -> (told: Result<usize, Error>)
        requires
            old(self).wf(),
            used + body@.len() <= usize::MAX,
            forall|i: int| 0 <= i < 4 ==> #[trigger] prologue@.counts[i] <= u32::MAX,
            spanned(
                payloads@,
                padded(prologue@.description_bits),
                prologue@.payload_bits,
                body@.len(),
            ),
            spanned(
                suffixes@,
                padded(prologue@.description_bits) + padded(prologue@.payload_bits),
                prologue@.suffix_bits,
                body@.len(),
            ),
        ensures
            final(self).wf(),
            ({
                let (answer, state, written) = content_read(
                    old(self)@,
                    prologue@,
                    body@,
                    used as nat,
                    history@,
                    old(out)@,
                );
                &&& final(self)@ == state
                &&& final(out)@ == written
                &&& match answer {
                    Ok(spent) => told matches Ok(told) && told == spent,
                    Err(error) => told == Err::<usize, Error>(error),
                }
            }),
    {
        let literal_byte = match self.decode_stream(0, prologue, payloads, suffixes, body) {
            Ok(stream) => stream,
            Err(error) => {
                return Err(error);
            },
        };
        let literal_run = match self.decode_stream(1, prologue, payloads, suffixes, body) {
            Ok(stream) => stream,
            Err(error) => {
                return Err(error);
            },
        };
        let match_length = match self.decode_stream(2, prologue, payloads, suffixes, body) {
            Ok(stream) => stream,
            Err(error) => {
                return Err(error);
            },
        };
        let match_distance = match self.decode_stream(3, prologue, payloads, suffixes, body) {
            Ok(stream) => stream,
            Err(error) => {
                return Err(error);
            },
        };
        let streams = Streams::new(literal_byte, literal_run, match_length, match_distance);
        let mut cache: OffsetCache = self.cache;
        let sequences = match streams.sequences(&mut cache) {
            Ok(sequences) => sequences,
            Err(error) => {
                return Err(error);
            },
        };
        match expand(&sequences, history, out) {
            Ok(()) => {},
            Err(error) => {
                return Err(error);
            },
        }
        let ghost before = self@;
        self.cache = cache;
        proof {
            assert(self@.tables =~= before.tables);
        }
        Ok(used + body.len())
    }

    /// The block's stored body, located from the twelve extents alone.
    fn locate_body<'a>(
        block: &Block<'a>,
        prologue: &BlockPrologue,
        used: usize,
        decoded_size: u32,
    ) -> (body: Result<&'a [u8], Error>)
        requires
            used <= block.arrived@.len(),
        ensures
            match body_of(
                BlockShape {
                    arrived: block.arrived@,
                    declared: block.declared,
                    first: block.first_in_region,
                    history: block.history@,
                },
                prologue@,
                used as nat,
                decoded_size,
            ) {
                Ok(bytes) => body matches Ok(body) && body@ == bytes && body@.len()
                    == prologue@.body() && used + body@.len() <= block.arrived@.len(),
                Err(error) => body == Err::<&'a [u8], Error>(error),
            },
    {
        let body_bytes: u64 = match prologue.body_bytes() {
            Some(bytes) => bytes,
            None => {
                return Err(Error::CorruptData(Corruption::BlockExtent));
            },
        };
        let stored: u64 = match (used as u64).checked_add(body_bytes) {
            Some(stored) => stored,
            None => {
                return Err(Error::CorruptData(Corruption::BlockExtent));
            },
        };
        if stored >= decoded_size as u64 {
            return Err(Error::CorruptData(Corruption::BlockExpansion));
        }
        if stored > block.declared {
            return Err(Error::CorruptData(Corruption::BlockExtent));
        }
        let end: usize = stored as usize;
        if end > block.arrived.len() {
            return Err(Error::TruncatedInput { needed: end });
        }
        Ok(vstd::slice::slice_subrange(block.arrived, used, end))
    }

    /// Parses and validates the descriptions of the streams that carry one.
    ///
    /// Nothing here allocates a table. A malformed description is refused before one exists.
    fn admit_descriptions(
        prologue: &BlockPrologue,
        descriptions: &[Span; 4],
        body: &[u8],
    ) -> (fresh: Result<[Option<Admitted>; 4], Error>)
        requires
            spanned(descriptions@, 0, prologue@.description_bits, body@.len()),
        ensures
            match fresh_tables(prologue@, body@, 4) {
                Ok(tables) => fresh matches Ok(slots) && (forall|i: int|
                    0 <= i < 4 ==> admitted_model(#[trigger] slots@[i]) == tables[i] && (
                    slots@[i] matches Some(admitted) ==> admitted.wf())) && tables.len() == 4,
                Err(error) => fresh == Err::<[Option<Admitted>; 4], Error>(error),
            },
    {
        proof {
            reveal_with_fuel(fresh_tables, 5);
        }
        let literal_byte = match Self::admit_stream(prologue, descriptions, body, 0) {
            Ok(slot) => slot,
            Err(error) => {
                return Err(error);
            },
        };
        let literal_run = match Self::admit_stream(prologue, descriptions, body, 1) {
            Ok(slot) => slot,
            Err(error) => {
                return Err(error);
            },
        };
        let match_length = match Self::admit_stream(prologue, descriptions, body, 2) {
            Ok(slot) => slot,
            Err(error) => {
                return Err(error);
            },
        };
        let match_distance = match Self::admit_stream(prologue, descriptions, body, 3) {
            Ok(slot) => slot,
            Err(error) => {
                return Err(error);
            },
        };
        Ok([literal_byte, literal_run, match_length, match_distance])
    }

    /// Parses and validates the description of one stream, where it carries one.
    fn admit_stream(
        prologue: &BlockPrologue,
        descriptions: &[Span; 4],
        body: &[u8],
        index: usize,
    ) -> (fresh: Result<Option<Admitted>, Error>)
        requires
            index < 4,
            spanned(descriptions@, 0, prologue@.description_bits, body@.len()),
        ensures
            match fresh_at(prologue@, body@, index as int) {
                Ok(table) => fresh matches Ok(slot) && admitted_model(slot) == table && (
                slot matches Some(admitted) ==> admitted.wf()),
                Err(error) => fresh == Err::<Option<Admitted>, Error>(error),
            },
    {
        let stream = match prologue.stream(index) {
            Some(stream) => stream,
            None => {
                return Err(Error::InvalidParameter);
            },
        };
        if stream.count == 0 || stream.repeats {
            return Ok(None);
        }
        let (coder, alphabet) = match class_of(index) {
            Ok(class) => class,
            Err(error) => {
                return Err(error);
            },
        };
        let span: Span = descriptions[index];
        let section = match span.of(body) {
            Ok(section) => section,
            Err(error) => {
                return Err(error);
            },
        };
        match Admitted::read(coder, alphabet, section, span.bits) {
            Ok(admitted) => Ok(Some(admitted)),
            Err(error) => Err(error),
        }
    }

    /// Decodes one stream under the table in force for its class.
    fn decode_stream(
        &self,
        index: usize,
        prologue: &BlockPrologue,
        payloads: &[Span; 4],
        suffixes: &[Span; 4],
        body: &[u8],
    ) -> (read: Result<SymbolStream, Error>)
        requires
            self.wf(),
            index < 4,
            prologue@.counts[index as int] <= u32::MAX,
            spanned(
                payloads@,
                padded(prologue@.description_bits),
                prologue@.payload_bits,
                body@.len(),
            ),
            spanned(
                suffixes@,
                padded(prologue@.description_bits) + padded(prologue@.payload_bits),
                prologue@.suffix_bits,
                body@.len(),
            ),
        ensures
            match stream_at(self@.tables, prologue@, body@, index as int) {
                Ok(shape) => read matches Ok(stream) && stream@ == shape,
                Err(error) => read == Err::<SymbolStream, Error>(error),
            },
    {
        let stream = match prologue.stream(index) {
            Some(stream) => stream,
            None => {
                return Err(Error::InvalidParameter);
            },
        };
        let count: usize = stream.count as usize;
        let mut symbols: Vec<u16> = vec![0u16; count];
        if count > 0 {
            let span: Span = payloads[index];
            let section = match span.of(body) {
                Ok(section) => section,
                Err(error) => {
                    return Err(error);
                },
            };
            proof {
                assert(self.tables@[index as int] == self.tables[index as int]);
            }
            match &self.tables[index] {
                None => {
                    return Err(Error::CorruptData(Corruption::TableUnset));
                },
                Some(table) => {
                    let ghost held = symbols@.len();
                    match table.decode(section, span.bits, symbols.as_mut_slice()) {
                        Ok(spent) => {
                            if spent != span.bits {
                                return Err(Error::CorruptData(Corruption::BlockPayload));
                            }
                        },
                        Err(error) => {
                            return Err(error);
                        },
                    }
                },
            }
        } else {
            proof {
                assert(symbols@ =~= Seq::empty());
            }
        }
        let span: Span = suffixes[index];
        let section = match span.of(body) {
            Ok(section) => section,
            Err(error) => {
                return Err(error);
            },
        };
        let bytes: Vec<u8> = vstd::slice::slice_to_vec(section);
        match BitBuf::new(bytes, span.bits) {
            Ok(suffix) => Ok(SymbolStream::new(symbols, suffix)),
            Err(error) => Err(error),
        }
    }

    /// Checks the block's requirement and the state this decoder will hold, then builds.
    ///
    /// Both figures come from the descriptions and from the tables already in force, so the
    /// refusal precedes every allocation the block would size.
    ///
    /// The build is two passes, and the order is the bound. Every table this block replaces is
    /// freed before any replacement is built, so the state grows from the tables the block
    /// keeps to the figure policy admitted and passes above neither. Freeing and building one
    /// stream at a time would hold a new table beside the old tables of the streams not
    /// reached yet, and that sum is above the admitted figure whenever a block replaces a small
    /// table with a large one.
    fn commit(
        &mut self,
        prologue: &BlockPrologue,
        fresh: &[Option<Admitted>; 4],
        policy: &DecoderPolicy,
    ) -> (told: Result<(), Error>)
        requires
            old(self).wf(),
            forall|i: int|
                0 <= i < 4 ==> (#[trigger] fresh@[i] matches Some(admitted) ==> admitted.wf()),
        ensures
            final(self).wf(),
            ({
                let tables = Seq::new(4, |i: int| admitted_model(fresh@[i]));
                match commit_refused(old(self)@.tables, prologue@, tables, policy.table_limit()) {
                    Some(error) => told == Err::<(), Error>(error) && final(self)@ == old(self)@,
                    None => told == Ok::<(), Error>(()) && final(self)@ == committed(
                        old(self)@,
                        tables,
                    ),
                }
            }),
    {
        let ghost tables = Seq::new(4, |i: int| admitted_model(fresh@[i]));
        let ghost after = replaced(self@.tables, tables);
        let ghost start = self@;
        let mut required: u64 = 0;
        let mut held: u64 = 0;
        let mut index: usize = 0;
        while index < 4
            invariant
                index <= 4,
                self.wf(),
                self@ == start,
                start == old(self)@,
                tables == Seq::new(4, |i: int| admitted_model(fresh@[i])),
                after == replaced(start.tables, tables),
                forall|i: int|
                    0 <= i < 4 ==> (#[trigger] fresh@[i] matches Some(admitted) ==> admitted.wf()),
                required as nat == required_bytes(prologue@, after, index as nat),
                held as nat == held_prefix(after, index as nat),
                held <= 65_536 * index,
                required <= 65_536 * index,
                forall|i: int| 0 <= i < index ==> !#[trigger] names_unset(start.tables, prologue@, i),
            decreases 4 - index,
        {
            let stream = match prologue.stream(index) {
                Some(stream) => stream,
                None => {
                    return Err(Error::InvalidParameter);
                },
            };
            proof {
                assert(self.tables@[index as int] == self.tables[index as int]);
                assert(fresh@[index as int] == fresh[index as int]);
            }
            let bytes: u64 = match &fresh[index] {
                Some(admitted) => {
                    proof {
                        match admitted {
                            Admitted::Huffman(read) => read.lemma_wf(),
                            Admitted::Rans(read, _) => read.lemma_wf(),
                        }
                        lemma_table_bytes(admitted@);
                    }
                    admitted.table_bytes()
                },
                None => self.slot_bytes(index),
            };
            proof {
                assert(bytes as nat == table_bytes_of(after[index as int]));
            }
            held = held + bytes;
            if stream.count != 0 {
                if stream.repeats && self.tables[index].is_none() {
                    proof {
                        assert(names_unset(start.tables, prologue@, index as int));
                    }
                    return Err(Error::CorruptData(Corruption::TableUnset));
                }
                required = required + bytes;
            }
            index = index + 1;
        }
        proof {
            lemma_held_prefix(after);
        }
        if required != prologue.table_bytes {
            return Err(Error::CorruptData(Corruption::TableMemory));
        }
        match policy.admit_table_bytes(held) {
            Ok(_) => {},
            Err(error) => {
                return Err(error);
            },
        }
        self.release(fresh);
        proof {
            assert(self@.tables =~= kept_tables(start.tables, tables));
        }
        self.observe_peak();
        self.install(fresh);
        proof {
            lemma_commit_state(start, tables, self@);
        }
        Ok(())
    }

    /// Frees every table a block replaces.
    fn release(&mut self, fresh: &[Option<Admitted>; 4])
        requires
            old(self).wf(),
        ensures
            final(self).wf(),
            final(self)@ == (DecoderState {
                tables: Seq::new(
                    4,
                    |i: int|
                        if fresh@[i] is Some {
                            None
                        } else {
                            old(self)@.tables[i]
                        },
                ),
                ..old(self)@
            }),
    {
        let ghost start = self@;
        let mut index: usize = 0;
        while index < 4
            invariant
                index <= 4,
                self.wf(),
                start == old(self)@,
                self@.slot == start.slot,
                self@.built == start.built,
                self@.peak == start.peak,
                self@.poison == start.poison,
                self@.tables.len() == 4,
                forall|i: int|
                    0 <= i < 4 ==> #[trigger] self@.tables[i] == (if i < index && fresh@[i] is Some {
                        None
                    } else {
                        start.tables[i]
                    }),
            decreases 4 - index,
        {
            if fresh[index].is_some() {
                let ghost before = *self;
                self.tables[index] = None;
                proof {
                    assert forall|i: int| 0 <= i < 4 implies #[trigger] self.tables@[i] == (if i
                        == index {
                        None
                    } else {
                        before.tables@[i]
                    }) by {}
                    assert forall|i: int| 0 <= i < 4 implies #[trigger] self@.tables[i] == (if i
                        == index {
                        None
                    } else {
                        before@.tables[i]
                    }) by {
                        assert(self.tables@[i] == if i == index {
                            None
                        } else {
                            before.tables@[i]
                        });
                    }
                }
            }
            index = index + 1;
        }
        proof {
            assert(self@.tables =~= Seq::new(
                4,
                |i: int|
                    if fresh@[i] is Some {
                        None
                    } else {
                        start.tables[i]
                    },
            ));
        }
    }

    /// Builds every table a block's descriptions declare, recording each against the peak.
    fn install(&mut self, fresh: &[Option<Admitted>; 4])
        requires
            old(self).wf(),
            forall|i: int|
                0 <= i < 4 ==> (#[trigger] fresh@[i] matches Some(admitted) ==> admitted.wf()),
            forall|i: int|
                0 <= i < 4 && #[trigger] fresh@[i] is Some ==> old(self)@.tables[i] is None,
            held_bytes(old(self)@.tables) <= old(self)@.peak,
        ensures
            final(self).wf(),
            final(self)@ == committed(
                old(self)@,
                Seq::new(4, |i: int| admitted_model(fresh@[i])),
            ),
    {
        let ghost start = self@;
        let ghost tables = Seq::new(4, |i: int| admitted_model(fresh@[i]));
        let mut index: usize = 0;
        proof {
            assert(tables.take(0) =~= Seq::empty());
            assert(self@.tables =~= installed(start.tables, tables, 0));
        }
        while index < 4
            invariant
                index <= 4,
                self.wf(),
                start == old(self)@,
                tables == Seq::new(4, |i: int| admitted_model(fresh@[i])),
                forall|i: int|
                    0 <= i < 4 ==> (#[trigger] fresh@[i] matches Some(admitted) ==> admitted.wf()),
                forall|i: int|
                    0 <= i < 4 && #[trigger] fresh@[i] is Some ==> start.tables[i] is None,
                self@.slot == start.slot,
                self@.poison == start.poison,
                self@.tables == installed(start.tables, tables, index as int),
                self@.built as nat == least(
                    start.built as nat + fresh_count(tables.take(index as int)),
                    u64::MAX as nat,
                ),
                self@.peak >= start.peak,
                self@.peak >= held_bytes(self@.tables),
                self@.peak == start.peak || self@.peak == held_bytes(self@.tables),
            decreases 4 - index,
        {
            proof {
                assert(tables.take(index + 1).drop_last() =~= tables.take(index as int));
                assert(fresh@[index as int] == fresh[index as int]);
            }
            match &fresh[index] {
                None => {
                    proof {
                        assert(installed(start.tables, tables, index + 1) =~= installed(
                            start.tables,
                            tables,
                            index as int,
                        ));
                    }
                },
                Some(admitted) => {
                    match admitted.build() {
                        Ok(table) => {
                            let ghost before = *self;
                            self.tables[index] = Some(table);
                            proof {
                                assert forall|i: int| 0 <= i < 4 implies #[trigger] self.tables@[i]
                                    == (if i == index {
                                    Some(table)
                                } else {
                                    before.tables@[i]
                                }) by {}
                                assert(self@.tables =~= installed(start.tables, tables, index + 1));
                                lemma_installed_grows(start.tables, tables, index as int);
                            }
                        },
                        Err(_) => {},
                    }
                    self.tables_built = self.tables_built.saturating_add(1);
                    proof {
                        assert(self@.tables =~= installed(start.tables, tables, index + 1));
                    }
                    self.observe_peak();
                },
            }
            index = index + 1;
        }
        proof {
            assert(tables.take(4) =~= tables);
            assert(installed(start.tables, tables, 4) =~= replaced(start.tables, tables));
            assert(self@ =~= committed(start, tables));
        }
    }

    /// Records the tables in force against the widest set this decoder has ever held.
    ///
    /// Called after the tables a block replaces are freed and after each replacement is built,
    /// so the figure covers the transition and not only the state a block settles at. It is
    /// four additions and a comparison per table built, which is once per description and not
    /// once per symbol.
    fn observe_peak(&mut self)
        requires
            old(self).wf(),
        ensures
            final(self).wf(),
            final(self)@ == (DecoderState {
                peak: if held_bytes(old(self)@.tables) > old(self)@.peak {
                    held_bytes(old(self)@.tables) as u64
                } else {
                    old(self)@.peak
                },
                ..old(self)@
            }),
            held_bytes(old(self)@.tables) <= 4 * 65_536,
    {
        let held: u64 = self.table_bytes();
        let ghost before = self@;
        if held > self.peak_table_bytes {
            self.peak_table_bytes = held;
        }
        proof {
            assert(self@.tables =~= before.tables);
        }
    }
}

/// Whether spans are where a group of sections that starts at `start` stands, inside a body.
pub open spec fn spanned(spans: Seq<Span>, start: nat, bits: Seq<u64>, len: nat) -> bool {
    &&& spans.len() == 4
    &&& bits.len() == 4
    &&& start + padded(bits) <= len
    &&& forall|i: int|
        0 <= i < 4 ==> (#[trigger] spans[i]).at == start + padded(bits.take(i)) && spans[i].len
            == bytes_for(bits[i] as nat) && spans[i].bits == bits[i] && spans[i].at + spans[i].len
            <= len
}

/// A section ends inside its group.
pub proof fn lemma_section_inside(bits: Seq<u64>, index: int)
    requires
        0 <= index < bits.len(),
    ensures
        padded(bits.take(index)) + bytes_for(bits[index] as nat) <= padded(bits),
{
    assert(bits.take(index + 1).drop_last() =~= bits.take(index));
    lemma_padded_grows(bits, index + 1);
}

/// The three groups of sections stand inside a body of the bytes they declare.
proof fn lemma_spans(extents: Extents, len: nat)
    requires
        extents.four(),
        len == extents.body(),
    ensures
        forall|i: int|
            0 <= i < 4 ==> #[trigger] padded(extents.description_bits.take(i)) + bytes_for(
                extents.description_bits[i] as nat,
            ) <= padded(extents.description_bits),
        forall|i: int|
            0 <= i < 4 ==> #[trigger] padded(extents.payload_bits.take(i)) + bytes_for(
                extents.payload_bits[i] as nat,
            ) <= padded(extents.payload_bits),
        forall|i: int|
            0 <= i < 4 ==> #[trigger] padded(extents.suffix_bits.take(i)) + bytes_for(
                extents.suffix_bits[i] as nat,
            ) <= padded(extents.suffix_bits),
{
    assert forall|i: int| 0 <= i < 4 implies #[trigger] padded(extents.description_bits.take(i))
        + bytes_for(extents.description_bits[i] as nat) <= padded(extents.description_bits) by {
        lemma_section_inside(extents.description_bits, i);
    }
    assert forall|i: int| 0 <= i < 4 implies #[trigger] padded(extents.payload_bits.take(i))
        + bytes_for(extents.payload_bits[i] as nat) <= padded(extents.payload_bits) by {
        lemma_section_inside(extents.payload_bits, i);
    }
    assert forall|i: int| 0 <= i < 4 implies #[trigger] padded(extents.suffix_bits.take(i))
        + bytes_for(extents.suffix_bits[i] as nat) <= padded(extents.suffix_bits) by {
        lemma_section_inside(extents.suffix_bits, i);
    }
}

/// The bytes the first tables in force occupy.
spec fn held_prefix(tables: Seq<Option<ClassTable>>, count: nat) -> nat
    decreases count,
{
    if count == 0 {
        0
    } else {
        held_prefix(tables, (count - 1) as nat) + table_bytes_of(tables[count - 1])
    }
}

proof fn lemma_held_prefix(tables: Seq<Option<ClassTable>>)
    ensures
        held_prefix(tables, 4) == held_bytes(tables),
{
    reveal_with_fuel(held_prefix, 5);
}

/// The tables in force once the first fresh tables are built.
spec fn installed(
    tables: Seq<Option<ClassTable>>,
    fresh: Seq<Option<ClassTable>>,
    count: int,
) -> Seq<Option<ClassTable>> {
    Seq::new(
        4,
        |i: int|
            if i < count && fresh[i] is Some {
                fresh[i]
            } else {
                tables[i]
            },
    )
}

/// The tables a block keeps.
spec fn kept_tables(
    tables: Seq<Option<ClassTable>>,
    fresh: Seq<Option<ClassTable>>,
) -> Seq<Option<ClassTable>> {
    Seq::new(
        4,
        |i: int|
            if fresh[i] is Some {
                None
            } else {
                tables[i]
            },
    )
}

/// Building a table where none stands adds its bytes.
proof fn lemma_installed_grows(
    tables: Seq<Option<ClassTable>>,
    fresh: Seq<Option<ClassTable>>,
    index: int,
)
    requires
        0 <= index < 4,
        tables[index] is None,
    ensures
        held_bytes(installed(tables, fresh, index)) <= held_bytes(
            installed(tables, fresh, index + 1),
        ),
{
    let a = installed(tables, fresh, index);
    let b = installed(tables, fresh, index + 1);
    assert(forall|i: int| 0 <= i < 4 && i != index ==> a[i] == b[i]);
    assert(a[index] is None);
}

/// Freeing, recording, and building is one commitment.
proof fn lemma_commit_state(
    start: DecoderState,
    fresh: Seq<Option<ClassTable>>,
    end: DecoderState,
)
    requires
        start.tables.len() == 4,
        fresh.len() == 4,
        ({
            let kept = kept_tables(start.tables, fresh);
            end == committed(
                DecoderState {
                    tables: kept,
                    peak: if held_bytes(kept) > start.peak {
                        held_bytes(kept) as u64
                    } else {
                        start.peak
                    },
                    ..start
                },
                fresh,
            )
        }),
        held_bytes(replaced(start.tables, fresh)) <= u64::MAX,
    ensures
        end == committed(start, fresh),
{
    let kept = kept_tables(start.tables, fresh);
    assert(replaced(kept, fresh) =~= replaced(start.tables, fresh));
    let after = replaced(start.tables, fresh);
    assert forall|i: int| 0 <= i < 4 implies table_bytes_of(#[trigger] kept[i]) <= table_bytes_of(
        after[i],
    ) by {}
    assert(table_bytes_of(kept[0]) <= table_bytes_of(after[0]));
    assert(table_bytes_of(kept[1]) <= table_bytes_of(after[1]));
    assert(table_bytes_of(kept[2]) <= table_bytes_of(after[2]));
    assert(table_bytes_of(kept[3]) <= table_bytes_of(after[3]));
}

} // verus!
