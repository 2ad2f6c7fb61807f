//! Owns the encoder engine: the path from input bytes to a compliant block.
//!
//! This module does not own the format contract, match finding, parse strategy, or entropy
//! coding. It composes them, and it owns the choice of which block type carries a block.
//!
//! The layout this module states is encoder policy. It decides how staged input becomes
//! regions and blocks, and a decoder never learns it: every size it implies is declared in a
//! header the decoder reads.
//!
//! # The selection rule
//!
//! For each block the encoder assembles every type the block admits and emits the one that
//! stores the fewest bytes. A tie goes to the type a decoder pays least for, which is RAW,
//! then RLE, then COMPRESSED. An all-equal block and a block the early-RAW rule claims skip the
//! assembly. The rule is encoder freedom; the type it chose is declared in the block header, so
//! a reader learns it without decoding a payload.

pub mod bound;
pub mod frames;
pub mod laws;
pub mod record;
pub mod signal;

use vstd::prelude::*;

use crate::block::encoder::{
    adopted, assembled, Assembly, AssemblyShape, Encoder, EncoderState, Terms,
};
use crate::block::laws::tables_valid;
use crate::block::refusals::law_assembly_refuses_only_its_tables;
use crate::block::no_tables;
use crate::entropy::least;
use crate::format::laws::lemma_ceiling_step;
use crate::format::{
    ceiling, BlockHeader, BlockType, DecoderPolicy, Error, IntegrityMode, RegionHeader, BLOCK_HEADER_BYTES,
    MAX_BLOCK_BYTES,
};
use crate::parser::laws::{law_parse_decodes_to_its_input, law_steps_fit_their_capacity};
use crate::parser::{declared, Parser, ParserState, MAX_PARSE_BYTES};
use crate::sequence::{decoded_total, Step};
pub use signal::{abort_to_raw, log2_fixed, shannon_scaled};
use signal::aborts;

verus! {

/// The input bytes one region holds before the encoder closes it.
///
/// The value is provisional. It is not a format constant: the region header declares the
/// sizes a decoder needs.
pub const DEFAULT_REGION_BYTES: usize = 1_048_576;

/// The input bytes one block holds.
///
/// Provisional on the same terms as the region size, and never above the bytes one parse may
/// take.
pub const DEFAULT_BLOCK_BYTES: u32 = 65_536;

/// How the encoder divides staged input into regions and blocks.
///
/// The layout decides where a block ends. Which type carries it is the selection rule's, and
/// the two are separate.
#[derive(Clone, Copy, Debug, PartialEq, Eq)]
pub struct Layout {
    region_bytes: usize,
    block_bytes: u32,
}

impl Layout {
    #[verifier::type_invariant]
    spec fn valid(self) -> bool {
        self.region_bytes > 0 && 0 < self.block_bytes <= MAX_BLOCK_BYTES
    }

    /// The input bytes one region holds.
    pub closed spec fn region_size(self) -> usize {
        self.region_bytes
    }

    /// The input bytes one block holds.
    pub closed spec fn block_size(self) -> u32 {
        self.block_bytes
    }

    /// A layout that stages `region_bytes` of input and cuts it into `block_bytes` blocks.
    ///
    /// Refuses a size of zero, and a block size above what a block header can declare.
    pub fn new(region_bytes: usize, block_bytes: u32) -> (made: Result<Self, Error>)
        ensures
            region_bytes > 0 && 0 < block_bytes <= MAX_BLOCK_BYTES ==> (made matches Ok(layout)
                && layout.region_size() == region_bytes && layout.block_size() == block_bytes),
            !(region_bytes > 0 && 0 < block_bytes <= MAX_BLOCK_BYTES) ==> made == Err::<Self, Error>(
                Error::InvalidParameter,
            ),
    {
        if region_bytes == 0 || block_bytes == 0 || block_bytes > MAX_BLOCK_BYTES {
            return Err(Error::InvalidParameter);
        }
        Ok(Layout { region_bytes, block_bytes })
    }

    /// The input bytes one region holds.
    pub fn region_bytes(self) -> (bytes: usize)
        ensures
            bytes == self.region_size(),
            bytes > 0,
    {
        proof {
            use_type_invariant(self);
        }
        self.region_bytes
    }

    /// The input bytes one block holds.
    pub fn block_bytes(self) -> (bytes: u32)
        ensures
            bytes == self.block_size(),
            0 < bytes <= MAX_BLOCK_BYTES,
    {
        proof {
            use_type_invariant(self);
        }
        self.block_bytes
    }

    /// The header of a region of `logical` staged bytes whose blocks occupy `physical`.
    ///
    /// The physical size is what the blocks actually stored, so it is known only once they are
    /// assembled.
    ///
    /// Refuses sizes that cannot describe a region this layout can fill.
    pub fn region(self, logical: usize, physical: u64, integrity: IntegrityMode) -> (made: Result<
        RegionHeader,
        Error,
    >)
        ensures
            ({
                let header = RegionHeader {
                    logical_size: logical as u64,
                    physical_size: physical,
                    integrity: if integrity == IntegrityMode::PerRegion {
                        Some(0u64)
                    } else {
                        None
                    },
                };
                if logical <= self.region_size() && header.holds_a_block() {
                    made == Ok::<RegionHeader, Error>(header)
                } else {
                    made == Err::<RegionHeader, Error>(Error::InvalidParameter)
                }
            }),
    {
        if logical > self.region_bytes {
            return Err(Error::InvalidParameter);
        }
        RegionHeader::new(logical as u64, physical, integrity)
    }

    /// The bytes the blocks of a region of `logical` staged bytes occupy at most.
    ///
    /// Every block type stores at most its own decoded size, so a region never stores more
    /// than its content and one header per block. It is the capacity a caller reserves for the
    /// blocks of one region.
    ///
    /// Refuses a total above what a size carries.
    pub fn physical_bytes(self, logical: usize) -> (bytes: Result<u64, Error>)
        ensures
            ({
                let total = logical + BLOCK_HEADER_BYTES * ceiling(
                    logical as nat,
                    self.block_size() as nat,
                );
                if total <= usize::MAX {
                    bytes == Ok::<u64, Error>(total as u64)
                } else {
                    bytes == Err::<u64, Error>(Error::InvalidParameter)
                }
            }),
    {
        let block_bytes: usize = self.block_bytes() as usize;
        let whole: usize = logical / block_bytes;
        let rest: usize = logical % block_bytes;
        proof {
            lemma_no_more_blocks_than_bytes(logical as nat, block_bytes as nat);
        }
        let blocks: usize = if rest == 0 {
            whole
        } else {
            whole + 1
        };
        match blocks.checked_mul(BLOCK_HEADER_BYTES) {
            Some(overhead) => match logical.checked_add(overhead) {
                Some(total) => Ok(total as u64),
                None => Err(Error::InvalidParameter),
            },
            None => Err(Error::InvalidParameter),
        }
    }

    /// Where the block that starts at `at` in a staged region of `len` bytes ends, and whether
    /// it is the last block of that region.
    ///
    /// Refuses an empty block, and a start the block size cannot be added to.
    pub fn block(self, at: usize, len: usize) -> (cut: Result<(usize, bool), Error>)
        ensures
            ({
                let end = least((at + self.block_size()) as nat, len as nat);
                if at < len && at + self.block_size() <= usize::MAX {
                    cut == Ok::<(usize, bool), Error>((end as usize, end == len))
                } else {
                    cut == Err::<(usize, bool), Error>(Error::InvalidParameter)
                }
            }),
    {
        let block_bytes: usize = self.block_bytes() as usize;
        match at.checked_add(block_bytes) {
            None => Err(Error::InvalidParameter),
            Some(reach) => {
                let end: usize = if reach < len {
                    reach
                } else {
                    len
                };
                if end <= at {
                    return Err(Error::InvalidParameter);
                }
                Ok((end, end == len))
            },
        }
    }
}

/// A block takes a byte at least, so there are no more blocks than bytes.
proof fn lemma_no_more_blocks_than_bytes(logical: nat, block_bytes: nat)
    requires
        block_bytes > 0,
    ensures
        ceiling(logical, block_bytes) <= logical,
    decreases logical,
{
    lemma_ceiling_step(logical, block_bytes);
    if logical > block_bytes {
        lemma_no_more_blocks_than_bytes((logical - block_bytes) as nat, block_bytes);
    }
}

/// What an encoder recorded about the blocks it emitted.
///
/// Every field is a count over the life of the encoder that reports it, held at the largest
/// figure 64 bits carry. Reading them changes no byte the encoder writes.
#[derive(Clone, Copy, Debug, PartialEq, Eq)]
pub struct Statistics {
    /// The input bytes the blocks covered.
    pub input_bytes: u64,
    /// The stored bytes the blocks occupied, their headers counted.
    pub output_bytes: u64,
    /// The blocks emitted.
    pub blocks: u64,
    /// The blocks emitted as RAW.
    pub raw_blocks: u64,
    /// The blocks emitted as RLE.
    pub rle_blocks: u64,
    /// The blocks emitted as COMPRESSED.
    pub compressed_blocks: u64,
    /// The blocks whose COMPRESSED assembly asked for more table memory than policy allows.
    ///
    /// Such a block is emitted under another type. The count is what makes that visible, so a
    /// caller reading a frame of RAW blocks can tell a ceiling from an incompressible input.
    pub table_limited_blocks: u64,
    /// The streams that named the table already in force for their class.
    pub streams_repeated: u64,
}

impl Default for Statistics {
    fn default() -> (statistics: Self)
        ensures
            statistics == no_statistics(),
    {
        Statistics {
            input_bytes: 0,
            output_bytes: 0,
            blocks: 0,
            raw_blocks: 0,
            rle_blocks: 0,
            compressed_blocks: 0,
            table_limited_blocks: 0,
            streams_repeated: 0,
        }
    }
}

/// The record of an encoder that has emitted nothing.
pub open spec fn no_statistics() -> Statistics {
    Statistics {
        input_bytes: 0,
        output_bytes: 0,
        blocks: 0,
        raw_blocks: 0,
        rle_blocks: 0,
        compressed_blocks: 0,
        table_limited_blocks: 0,
        streams_repeated: 0,
    }
}

/// Which encoder contract a block is assembled under.
///
/// FAST is the shipped path. BALANCED is the deeper chain beside it. The mode selects the
/// matcher and the parse only; the format and the decoder never learn it.
#[derive(Clone, Copy, Debug, PartialEq, Eq, Structural)]
pub enum Mode {
    /// The shipped single-table greedy path.
    Fast,
    /// The bounded chain at depth 32 behind the length-lazy parse.
    Balanced,
}

/// The bytes the matches of a list of steps copy.
pub open spec fn matched_total(steps: Seq<Step>) -> nat
    decreases steps.len(),
{
    if steps.len() == 0 {
        0
    } else {
        matched_total(steps.drop_last()) + match steps.last().matched {
            Some(matched) => matched.length as nat,
            None => 0,
        }
    }
}

/// Whether a block is one byte, repeated.
pub open spec fn all_equal(input: Seq<u8>) -> bool {
    input.len() > 1 && forall|i: int| 0 <= i < input.len() ==> #[trigger] input[i] == input[0]
}

/// What an emitter holds.
pub ghost struct EmitterState {
    pub parser: ParserState,
    pub tables: EncoderState,
    /// The table memory the policy allows.
    pub limit: u64,
    pub block_bytes: nat,
    pub mode: Mode,
    pub statistics: Statistics,
}

/// What one block is emitted as.
pub ghost struct Emission {
    pub kind: BlockType,
    /// The stored bytes after the header.
    pub payload: Seq<u8>,
    /// What a COMPRESSED block's assembly leaves.
    pub assembly: Option<AssemblyShape>,
    /// Whether the assembly asked for more table memory than the policy allows.
    pub limited: bool,
}

impl EmitterState {
    /// Whether the state is one an emitter can be in.
    pub open spec fn valid(self) -> bool {
        &&& self.parser.valid()
        &&& tables_valid(self.tables.tables)
        &&& self.drives_its_mode()
    }

    /// Whether the parse is the one the mode selects.
    pub open spec fn drives_its_mode(self) -> bool {
        &&& self.parser.skip
        &&& match self.mode {
            Mode::Fast => self.parser.matcher is Fast,
            Mode::Balanced => self.parser.matcher is Balanced,
        }
    }

    /// The emitter with everything a region boundary discards gone.
    pub open spec fn at_boundary(self) -> EmitterState {
        EmitterState {
            parser: self.parser.emptied(),
            tables: EncoderState { tables: no_tables(), slot: None },
            ..self
        }
    }

    /// Whether the assembly of a block is skipped: the block is one byte repeated, or the
    /// early-RAW rule claims it.
    pub open spec fn skips(self, input: Seq<u8>) -> bool {
        let plan = self.parser.plan(input);
        all_equal(input) || aborts(matched_total(plan.steps), plan.literals, input.len())
    }

    /// What the COMPRESSED assembly of a block answers, where it is not skipped.
    #[verifier::opaque]
    pub open spec fn assembly(self, input: Seq<u8>, first: bool) -> Result<
        Option<(Seq<u8>, AssemblyShape)>,
        Error,
    > {
        if self.skips(input) {
            Ok(None)
        } else {
            assembled(
                self.tables,
                self.parser.plan(input),
                Terms { first_in_region: first, repeat: None, ceiling: input.len() as usize },
                self.limit,
            )
        }
    }

    /// What a block is emitted as: COMPRESSED where it assembled to fewer bytes than its
    /// content, else RLE where it is one byte repeated, else RAW.
    pub open spec fn emission(self, input: Seq<u8>, first: bool) -> Emission {
        match self.assembly(input, first) {
            Ok(Some((payload, shape))) => Emission {
                kind: BlockType::Compressed,
                payload,
                assembly: Some(shape),
                limited: false,
            },
            answer => Emission {
                kind: if all_equal(input) {
                    BlockType::Rle
                } else {
                    BlockType::Raw
                },
                payload: if all_equal(input) {
                    seq![input[0]]
                } else {
                    input
                },
                assembly: None,
                limited: answer is Err,
            },
        }
    }

    /// What an emitter holds after a block: the parse has moved over it whatever its type, and
    /// the tables and the offset slot only where it was emitted COMPRESSED.
    pub open spec fn after(self, input: Seq<u8>, first: bool) -> EmitterState {
        let emission = self.emission(input, first);
        EmitterState {
            parser: self.parser.after(input),
            tables: match emission.assembly {
                Some(shape) => adopted(self.tables, shape),
                None => self.tables,
            },
            statistics: recorded(self.statistics, input.len(), emission),
            ..self
        }
    }
}

/// The stored bytes of a block: its header, then its payload.
pub open spec fn stored_block(emission: Emission, last: bool, size: nat) -> Seq<u8> {
    (BlockHeader { last, kind: emission.kind, size: size as u32 }).wire() + emission.payload
}

/// A count after `more`, held at the largest figure 64 bits carry.
pub open spec fn raised(count: u64, more: nat) -> u64 {
    least(count as nat + more, u64::MAX as nat) as u64
}

/// How many streams a block named a table for.
pub open spec fn named(repeated: Seq<bool>) -> nat {
    (if repeated[0] {
        1nat
    } else {
        0
    }) + (if repeated[1] {
        1nat
    } else {
        0
    }) + (if repeated[2] {
        1nat
    } else {
        0
    }) + (if repeated[3] {
        1nat
    } else {
        0
    })
}

/// The record after one more block.
pub open spec fn recorded(before: Statistics, size: nat, emission: Emission) -> Statistics {
    Statistics {
        input_bytes: raised(before.input_bytes, size),
        output_bytes: raised(
            before.output_bytes,
            emission.payload.len() + BLOCK_HEADER_BYTES as nat,
        ),
        blocks: raised(before.blocks, 1),
        raw_blocks: if emission.kind == BlockType::Raw {
            raised(before.raw_blocks, 1)
        } else {
            before.raw_blocks
        },
        rle_blocks: if emission.kind == BlockType::Rle {
            raised(before.rle_blocks, 1)
        } else {
            before.rle_blocks
        },
        compressed_blocks: if emission.kind == BlockType::Compressed {
            raised(before.compressed_blocks, 1)
        } else {
            before.compressed_blocks
        },
        table_limited_blocks: if emission.limited {
            raised(before.table_limited_blocks, 1)
        } else {
            before.table_limited_blocks
        },
        streams_repeated: match emission.assembly {
            Some(shape) => raised(before.streams_repeated, named(shape.repeated)),
            None => before.streams_repeated,
        },
    }
}

/// The bytes the matches of a list of steps copy, held at the largest figure a size carries.
fn matched_bytes(steps: &[Step]) -> (total: usize)
    ensures
        total == least(matched_total(steps@), usize::MAX as nat),
{
    let count: usize = steps.len();
    let mut total: usize = 0;
    let mut at: usize = 0;
    proof {
        assert(steps@.take(0) =~= Seq::empty());
    }
    while at < count
        invariant
            at <= count,
            count == steps@.len(),
            total == least(matched_total(steps@.take(at as int)), usize::MAX as nat),
        decreases count - at,
    {
        proof {
            assert(steps@.take(at + 1).drop_last() =~= steps@.take(at as int));
        }
        match steps[at].matched {
            Some(matched) => {
                total = total.saturating_add(matched.length as usize);
            },
            None => {},
        }
        at = at + 1;
    }
    proof {
        assert(steps@.take(at as int) =~= steps@);
    }
    total
}

/// The matches of a list of steps copy no more than the steps decode to.
proof fn lemma_matched_total(steps: Seq<Step>)
    ensures
        matched_total(steps) <= decoded_total(steps),
    decreases steps.len(),
{
    if steps.len() > 0 {
        lemma_matched_total(steps.drop_last());
    }
}

/// Whether a block is one byte, repeated.
fn is_all_equal(input: &[u8]) -> (equal: bool)
    ensures
        equal == all_equal(input@),
{
    let total: usize = input.len();
    if total <= 1 {
        return false;
    }
    let value: u8 = input[0];
    let mut at: usize = 1;
    while at < total
        invariant
            1 <= at <= total,
            total == input@.len(),
            value == input@[0],
            forall|i: int| 0 <= i < at ==> #[trigger] input@[i] == value,
        decreases total - at,
    {
        if input[at] != value {
            return false;
        }
        at = at + 1;
    }
    true
}

/// How many streams a block named a table for.
fn count_named(repeated: [bool; 4]) -> (count: u64)
    ensures
        count == named(repeated@),
{
    let mut count: u64 = 0;
    if repeated[0] {
        count = count + 1;
    }
    if repeated[1] {
        count = count + 1;
    }
    if repeated[2] {
        count = count + 1;
    }
    if repeated[3] {
        count = count + 1;
    }
    count
}

/// Appends one block, header first, and reports the bytes its payload stored.
fn write_block(out: &mut Vec<u8>, header: BlockHeader, input: &[u8], payload: &[u8]) -> (stored:
    usize)
    requires
        input@.len() > 0,
    ensures
        ({
            let kept = match header.kind {
                BlockType::Raw => input@,
                BlockType::Rle => seq![input@[0]],
                BlockType::Compressed => payload@,
            };
            final(out)@ == old(out)@ + (header.wire() + kept) && stored == kept.len()
        }),
{
    let encoded = header.encode();
    out.extend_from_slice(encoded.as_bytes());
    match header.kind {
        BlockType::Raw => {
            out.extend_from_slice(input);
            assert(out@ =~= old(out)@ + (header.wire() + input@));
            input.len()
        },
        BlockType::Rle => {
            out.push(input[0]);
            assert(out@ =~= old(out)@ + (header.wire() + seq![input@[0]]));
            1
        },
        BlockType::Compressed => {
            out.extend_from_slice(payload);
            assert(out@ =~= old(out)@ + (header.wire() + payload@));
            payload.len()
        },
    }
}

/// Turns one block of input into the cheapest block type it can assemble.
///
/// The emitter owns the two things a block needs and a layout does not: the parse the
/// sequences come from, and the tables and offset cache a region carries across its blocks.
/// Both are discarded at a region boundary, which `reset` performs.
pub struct Emitter {
    parser: Parser,
    tables: Encoder,
    payload: Vec<u8>,
    policy: DecoderPolicy,
    block_bytes: usize,
    mode: Mode,
    statistics: Statistics,
}

impl View for Emitter {
    type V = EmitterState;

    closed spec fn view(&self) -> EmitterState {
        EmitterState {
            parser: self.parser@,
            tables: self.tables@,
            limit: self.policy.table_limit(),
            block_bytes: self.block_bytes as nat,
            mode: self.mode,
            statistics: self.statistics,
        }
    }
}

impl Emitter {
    /// Whether the parse and the tables are whole.
    pub closed spec fn valid(self) -> bool {
        self.parser.valid() && self.tables.wf() && self@.drives_its_mode()
    }

    /// An emitter's state is one an emitter can be in.
    pub proof fn lemma_valid(self)
        requires
            self.valid(),
        ensures
            self@.valid(),
    {
        self.parser.lemma_valid();
        self.tables.lemma_tables_valid();
    }

    /// An emitter at a region start, assembling blocks of at most `block_bytes` for a decoder
    /// holding `policy`, on the FAST path.
    ///
    /// Refuses a block size of zero or above the bytes one parse may take.
    pub fn new(policy: DecoderPolicy, block_bytes: u32) -> (made: Result<Self, Error>)
        ensures
            0 < block_bytes <= MAX_PARSE_BYTES ==> (made matches Ok(emitter) && emitter.valid()
                && emitter@ == fresh_emitter(policy.table_limit(), block_bytes as nat, Mode::Fast)),
            !(0 < block_bytes <= MAX_PARSE_BYTES) ==> made == Err::<Self, Error>(
                Error::InvalidParameter,
            ),
    {
        Self::with_mode(policy, block_bytes, Mode::Fast)
    }

    /// An emitter at a region start, under `mode`.
    ///
    /// The one place mode threads into the engine: FAST builds the single-table parser,
    /// BALANCED builds the chain parser. Everything downstream reads the sequences and never
    /// the mode.
    ///
    /// Refuses a block size of zero or above the bytes one parse may take.
    pub fn with_mode(policy: DecoderPolicy, block_bytes: u32, mode: Mode) -> (made: Result<
        Self,
        Error,
    >)
        ensures
            0 < block_bytes <= MAX_PARSE_BYTES ==> (made matches Ok(emitter) && emitter.valid()
                && emitter@ == fresh_emitter(policy.table_limit(), block_bytes as nat, mode)),
            !(0 < block_bytes <= MAX_PARSE_BYTES) ==> made == Err::<Self, Error>(
                Error::InvalidParameter,
            ),
    {
        if block_bytes == 0 || block_bytes as usize > MAX_PARSE_BYTES {
            return Err(Error::InvalidParameter);
        }
        let parser = match mode {
            Mode::Fast => Parser::new(),
            Mode::Balanced => Parser::balanced(),
        };
        Ok(
            Emitter {
                parser,
                tables: Encoder::at_region_start(),
                // A COMPRESSED block stores fewer bytes than it decodes to, and an assembly
                // that does not is never written here, so the block length is the whole of
                // what this buffer ever holds.
                payload: Vec::with_capacity(block_bytes as usize),
                policy,
                block_bytes: block_bytes as usize,
                mode,
                statistics: Statistics::default(),
            },
        )
    }

    /// Which contract this emitter assembles under.
    pub fn mode(&self) -> (mode: Mode)
        ensures
            mode == self@.mode,
    {
        self.mode
    }

    /// What this emitter recorded about the blocks it emitted.
    pub fn statistics(&self) -> (statistics: Statistics)
        ensures
            statistics == self@.statistics,
    {
        self.statistics
    }

    /// The bytes this emitter holds between calls, held at the largest figure a size carries.
    ///
    /// The parse state and the payload scratch are allocated once and never grow. The tables
    /// in force are replaced per block and are counted at the ceiling the policy admits, which
    /// is what bounds them; a ceiling above what a size carries counts for nothing.
    pub fn steady_state_bytes(&self) -> (bytes: usize)
        ensures
            bytes == steady_bytes(self@),
    {
        let held: usize = match self.mode {
            Mode::Fast => Parser::declared_bytes(self.block_bytes),
            Mode::Balanced => Parser::balanced_declared_bytes(self.block_bytes),
        };
        let ceiling: u64 = self.policy.max_table_bytes();
        let tables: usize = if ceiling > usize::MAX as u64 {
            0
        } else {
            ceiling as usize
        };
        held.saturating_add(self.block_bytes).saturating_add(tables)
    }

    /// Discards everything a region boundary discards: the parse history, the tables in force,
    /// and the offset cache.
    pub fn reset(&mut self)
        requires
            old(self).valid(),
        ensures
            final(self).valid(),
            final(self)@ == old(self)@.at_boundary(),
    {
        self.parser.reset();
        self.tables.reset();
    }

    /// Emits one block of `input` into `out`, header first, and reports the type it chose.
    ///
    /// Every type the block admits is assembled and the one storing the fewest bytes is
    /// emitted, except that an all-equal block and a block the early-RAW rule claims skip the
    /// assembly. A tie goes to RAW, then RLE, then COMPRESSED, which is the order a decoder
    /// pays for them in.
    ///
    /// A block whose COMPRESSED assembly asks for more table memory than policy allows is
    /// emitted under another type and counted, which is what keeps the fallback visible rather
    /// than silent. A block that skipped the assembly is not counted there.
    ///
    /// Refuses, and leaves everything as it was, exactly when the block is empty or longer
    /// than one parse may take.
    pub fn emit(&mut self, input: &[u8], last: bool, first_in_region: bool, out: &mut Vec<u8>)
        -> (emitted: Result<BlockType, Error>)
        requires
            old(self).valid(),
        ensures
            final(self).valid(),
            0 < input@.len() <= MAX_PARSE_BYTES ==> {
                let emission = old(self)@.emission(input@, first_in_region);
                &&& emitted == Ok::<BlockType, Error>(emission.kind)
                &&& final(out)@ == old(out)@ + stored_block(emission, last, input@.len())
                &&& final(self)@ == old(self)@.after(input@, first_in_region)
            },
            !(0 < input@.len() <= MAX_PARSE_BYTES) ==> {
                &&& emitted == Err::<BlockType, Error>(Error::InvalidParameter)
                &&& final(out)@ == old(out)@
                &&& final(self)@ == old(self)@
            },
    {
        if input.len() == 0 || input.len() > MAX_PARSE_BYTES {
            return Err(Error::InvalidParameter);
        }
        let size: u32 = input.len() as u32;
        let equal: bool = is_all_equal(input);
        let ghost state = self@;
        let ghost emission = state.emission(input@, first_in_region);
        proof {
            self.lemma_valid();
            lemma_only_tables_refuse(state, input@, first_in_region);
        }
        let mut limited: bool = false;
        let assembly: Option<Assembly> = match self.assemble(input, equal, first_in_region) {
            Ok(assembly) => assembly,
            Err(Error::LimitExceeded { .. }) => {
                limited = true;
                None
            },
            Err(error) => {
                return Err(error);
            },
        };
        let kind = if assembly.is_some() {
            BlockType::Compressed
        } else if equal {
            BlockType::Rle
        } else {
            BlockType::Raw
        };
        let stored: usize = write_block(
            out,
            BlockHeader { last, kind, size },
            input,
            self.payload.as_slice(),
        );
        let mut repeated: u64 = 0;
        match assembly {
            Some(assembly) => {
                repeated = count_named(assembly.repeated());
                self.tables.adopt(assembly);
            },
            None => {},
        }
        self.record(kind, size, stored, limited, repeated);
        Ok(kind)
    }

    /// Parses a block and assembles it COMPRESSED, where the assembly is not skipped.
    fn assemble(&mut self, input: &[u8], equal: bool, first_in_region: bool) -> (answer: Result<
        Option<Assembly>,
        Error,
    >)
        requires
            old(self).valid(),
            0 < input@.len() <= MAX_PARSE_BYTES,
            equal == all_equal(input@),
        ensures
            final(self).valid(),
            final(self)@ == (EmitterState {
                parser: old(self)@.parser.after(input@),
                ..old(self)@
            }),
            match old(self)@.assembly(input@, first_in_region) {
                Ok(Some((payload, shape))) => answer matches Ok(Some(assembly)) && assembly.wf()
                    && assembly@ == shape && final(self).payload@ == payload,
                Ok(None) => answer matches Ok(None),
                Err(error) => answer == Err::<Option<Assembly>, Error>(error),
            },
    {
        let ghost state = self@;
        let ghost plan = state.parser.plan(input@);
        proof {
            self.lemma_valid();
            law_steps_fit_their_capacity(state.parser, input@);
            lemma_matched_total(plan.steps);
            reveal(EmitterState::assembly);
        }
        let sequences = match self.parser.parse(input) {
            Ok(sequences) => sequences,
            Err(error) => {
                return Err(error);
            },
        };
        // The parse still runs on a skipped block, so history and downstream bytes match.
        let matched: usize = matched_bytes(sequences.steps());
        if equal || abort_to_raw(matched, sequences.literals(), input.len()) {
            return Ok(None);
        }
        self.tables.assemble_into(
            sequences,
            Terms { first_in_region, repeat: None, ceiling: input.len() },
            &self.policy,
            &mut self.payload,
        )
    }

    /// Records one emitted block.
    fn record(&mut self, kind: BlockType, size: u32, stored: usize, limited: bool, repeated: u64)
        requires
            stored <= MAX_PARSE_BYTES,
        ensures
            *final(self) == (Emitter { statistics: final(self).statistics, ..*old(self) }),
            final(self).statistics == (Statistics {
                input_bytes: raised(old(self).statistics.input_bytes, size as nat),
                output_bytes: raised(
                    old(self).statistics.output_bytes,
                    stored as nat + BLOCK_HEADER_BYTES as nat,
                ),
                blocks: raised(old(self).statistics.blocks, 1),
                raw_blocks: if kind == BlockType::Raw {
                    raised(old(self).statistics.raw_blocks, 1)
                } else {
                    old(self).statistics.raw_blocks
                },
                rle_blocks: if kind == BlockType::Rle {
                    raised(old(self).statistics.rle_blocks, 1)
                } else {
                    old(self).statistics.rle_blocks
                },
                compressed_blocks: if kind == BlockType::Compressed {
                    raised(old(self).statistics.compressed_blocks, 1)
                } else {
                    old(self).statistics.compressed_blocks
                },
                table_limited_blocks: if limited {
                    raised(old(self).statistics.table_limited_blocks, 1)
                } else {
                    old(self).statistics.table_limited_blocks
                },
                streams_repeated: raised(
                    old(self).statistics.streams_repeated,
                    repeated as nat,
                ),
            }),
    {
        let mut statistics = self.statistics;
        statistics.blocks = statistics.blocks.saturating_add(1);
        statistics.input_bytes = statistics.input_bytes.saturating_add(size as u64);
        statistics.output_bytes = statistics.output_bytes.saturating_add(
            (stored + BLOCK_HEADER_BYTES) as u64,
        );
        match kind {
            BlockType::Raw => {
                statistics.raw_blocks = statistics.raw_blocks.saturating_add(1);
            },
            BlockType::Rle => {
                statistics.rle_blocks = statistics.rle_blocks.saturating_add(1);
            },
            BlockType::Compressed => {
                statistics.compressed_blocks = statistics.compressed_blocks.saturating_add(1);
            },
        }
        if limited {
            statistics.table_limited_blocks = statistics.table_limited_blocks.saturating_add(1);
        }
        statistics.streams_repeated = statistics.streams_repeated.saturating_add(repeated);
        self.statistics = statistics;
    }
}

/// An emitter at a region start.
pub open spec fn fresh_emitter(limit: u64, block_bytes: nat, mode: Mode) -> EmitterState {
    EmitterState {
        parser: match mode {
            Mode::Fast => ParserState::fast(),
            Mode::Balanced => ParserState::balanced(true),
        },
        tables: EncoderState { tables: no_tables(), slot: None },
        limit,
        block_bytes,
        mode,
        statistics: no_statistics(),
    }
}

/// The bytes an emitter holds between calls.
pub open spec fn steady_bytes(state: EmitterState) -> nat {
    least(
        declared(
            match state.mode {
                Mode::Fast => 262_144,
                Mode::Balanced => 524_288,
            },
            state.block_bytes,
        ) + state.block_bytes + if state.limit <= usize::MAX {
            state.limit as nat
        } else {
            0
        },
        usize::MAX as nat,
    )
}

/// Of a block one parse takes, an assembly refuses nothing but its table memory.
pub proof fn lemma_only_tables_refuse(state: EmitterState, input: Seq<u8>, first: bool)
    requires
        state.valid(),
        0 < input.len() <= MAX_PARSE_BYTES,
    ensures
        state.assembly(input, first) matches Err(error) ==> error is LimitExceeded,
        state.assembly(input, first) matches Ok(Some((payload, _))) ==> 1 <= payload.len()
            < input.len(),
{
    reveal(EmitterState::assembly);
    let plan = state.parser.plan(input);
    let history = state.parser.history();
    assert(history.skip(0) =~= history);
    law_parse_decodes_to_its_input(state.parser, input, history);
    law_steps_fit_their_capacity(state.parser, input);
    law_assembly_refuses_only_its_tables(
        state.tables,
        plan,
        Terms { first_in_region: first, repeat: None, ceiling: input.len() as usize },
        state.limit,
    );
}

} // verus!
