//! Owns the four symbol streams of one block: what a sequence vector becomes, and what becomes
//! a sequence vector again.
//!
//! This module does not own the block that carries the streams, the entropy coding their
//! symbols pass through, or the declared extents a block header states for them.
//!
//! Four streams, one per symbol class, in the order the alphabet list gives them. Each stream
//! carries its coded symbols and its raw suffixes separately, so a suffix is never interleaved
//! with a symbol and a decoder reads each through its own position.
//!
//! ```text
//! literal byte      one symbol per literal, no suffix
//! literal run       one symbol per sequence
//! match length      one symbol per sequence, the terminal included
//! match distance    one symbol per sequence that carries a match
//! ```
//!
//! The literal-run count and the match-length count are equal, because every sequence carries
//! both. The match-distance count does not exceed them, because the terminal symbol ends a run
//! that no match follows.

use vstd::prelude::*;
use vstd::arithmetic::power2::{lemma2_to64, lemma_pow2_strictly_increases};
use super::cache::{resolved, OffsetCache, REPEAT_CODE};
use super::{ends_once, lemma_naming_width, steps_in_domain, Alphabet, Match, Plan, Sequences, Step};
use crate::entropy::bits::{
    bits_of, lemma_bits_of_len, lemma_bits_of_value, lemma_value_of_bits, short_field, value_of,
    window, BitBuf, BitReader, BitWriter,
};
use crate::entropy::low_byte;
use crate::format::{Corruption, Error};

verus! {

/// The match-length symbol that ends a block, which the loop tests every symbol against.
pub const TERMINAL_LENGTH: u16 = 27;

/// What one symbol stream holds: its symbols, and the bits of its raw suffixes.
#[verifier::ext_equal]
pub struct StreamShape {
    pub symbols: Seq<u16>,
    pub suffix: Seq<bool>,
}

/// What the four streams of one block hold.
#[verifier::ext_equal]
pub struct StreamsShape {
    pub literal_byte: StreamShape,
    pub literal_run: StreamShape,
    pub match_length: StreamShape,
    pub match_distance: StreamShape,
}

impl StreamsShape {
    /// The stream of one symbol class.
    pub open spec fn stream(self, alphabet: Alphabet) -> StreamShape {
        match alphabet {
            Alphabet::LiteralByte => self.literal_byte,
            Alphabet::LiteralRun => self.literal_run,
            Alphabet::MatchLength => self.match_length,
            Alphabet::MatchDistance => self.match_distance,
        }
    }
}

/// A stream that holds nothing.
pub open spec fn nothing() -> StreamShape {
    StreamShape { symbols: Seq::empty(), suffix: Seq::empty() }
}

/// The suffix bits of a coded value.
pub open spec fn suffix_of(alphabet: Alphabet, coded: nat) -> Seq<bool> {
    let symbol = alphabet.symbol_for(coded);
    bits_of((coded - alphabet.low(symbol)) as nat, alphabet.width(symbol))
}

/// A stream with one more coded value.
pub open spec fn emitted(stream: StreamShape, alphabet: Alphabet, coded: nat) -> StreamShape {
    StreamShape {
        symbols: stream.symbols.push(alphabet.symbol_for(coded) as u16),
        suffix: stream.suffix + suffix_of(alphabet, coded),
    }
}

/// A stream with one more symbol that carries no suffix.
pub open spec fn emitted_symbol(stream: StreamShape, symbol: u16) -> StreamShape {
    StreamShape { symbols: stream.symbols.push(symbol), suffix: stream.suffix }
}

/// The literal-byte stream of a list of literals.
pub open spec fn bytes_of(literals: Seq<u8>) -> StreamShape {
    StreamShape { symbols: literals.map_values(|byte: u8| byte as u16), suffix: Seq::empty() }
}

/// The literal-run stream of a list of steps.
pub open spec fn runs_of(steps: Seq<Step>) -> StreamShape
    decreases steps.len(),
{
    if steps.len() == 0 {
        nothing()
    } else {
        emitted(
            runs_of(steps.drop_last()),
            Alphabet::LiteralRun,
            Alphabet::LiteralRun.code(steps.last().run as nat),
        )
    }
}

/// The match-length stream of a list of steps.
pub open spec fn lengths_of(steps: Seq<Step>) -> StreamShape
    decreases steps.len(),
{
    if steps.len() == 0 {
        nothing()
    } else {
        let before = lengths_of(steps.drop_last());
        match steps.last().matched {
            Some(matched) => emitted(
                before,
                Alphabet::MatchLength,
                Alphabet::MatchLength.code(matched.length as nat),
            ),
            None => emitted_symbol(before, TERMINAL_LENGTH),
        }
    }
}

/// What the offset slot holds after a list of steps.
pub open spec fn slot_after(steps: Seq<Step>, slot: Option<u32>) -> Option<u32>
    decreases steps.len(),
{
    if steps.len() == 0 {
        slot
    } else {
        match steps.last().matched {
            Some(matched) => Some(matched.distance),
            None => slot_after(steps.drop_last(), slot),
        }
    }
}

/// The coded value of a distance: the repeat code where the slot names it.
pub open spec fn distance_code(slot: Option<u32>, distance: u32) -> nat {
    if slot == Some(distance) {
        REPEAT_CODE as nat
    } else {
        Alphabet::MatchDistance.code(distance as nat)
    }
}

/// The match-distance stream of a list of steps that starts at `slot`.
pub open spec fn distances_of(steps: Seq<Step>, slot: Option<u32>) -> StreamShape
    decreases steps.len(),
{
    if steps.len() == 0 {
        nothing()
    } else {
        let before = distances_of(steps.drop_last(), slot);
        match steps.last().matched {
            Some(matched) => emitted(
                before,
                Alphabet::MatchDistance,
                distance_code(slot_after(steps.drop_last(), slot), matched.distance),
            ),
            None => before,
        }
    }
}

/// The four streams a plan codes to from a slot.
pub open spec fn streams_of(plan: Plan, slot: Option<u32>) -> StreamsShape {
    StreamsShape {
        literal_byte: bytes_of(plan.literals),
        literal_run: runs_of(plan.steps),
        match_length: lengths_of(plan.steps),
        match_distance: distances_of(plan.steps, slot),
    }
}

/// The steps before the first one outside its domains.
pub open spec fn leading(steps: Seq<Step>) -> nat
    decreases steps.len(),
{
    if steps.len() == 0 {
        0
    } else if leading(steps.drop_last()) == steps.len() - 1 && steps.last().in_domain() {
        steps.len()
    } else {
        leading(steps.drop_last())
    }
}

/// The steps whose suffixes a 64-bit bit count holds, whatever they are.
pub open spec fn suffixes_fit(steps: Seq<Step>) -> bool {
    14 * steps.len() <= u64::MAX
}

/// Whether steps can be coded: inside their domains, and few enough.
pub open spec fn codable(steps: Seq<Step>) -> bool {
    steps_in_domain(steps) && suffixes_fit(steps)
}

/// What a symbol and the suffix bits at a position name.
pub open spec fn value_read(
    alphabet: Alphabet,
    symbol: u16,
    suffix: Seq<bool>,
    at: nat,
) -> Result<nat, Error> {
    let width = alphabet.width(symbol as nat);
    if symbol >= alphabet.naming() {
        Err(Error::CorruptData(Corruption::SequenceSymbol))
    } else if at + width > suffix.len() {
        Err(short_field(at, width))
    } else {
        let coded = alphabet.low(symbol as nat) + value_of(
            suffix.subrange(at as int, (at + width) as int),
        );
        if coded > alphabet.coded_domain().1 {
            Err(Error::CorruptData(Corruption::SequenceSuffix))
        } else {
            Ok(coded)
        }
    }
}

/// How far a decode of the streams has come.
#[verifier::ext_equal]
pub struct Progress {
    /// The steps read.
    pub steps: Seq<Step>,
    /// The suffix bits read of the run, the length, and the distance stream.
    pub run_at: nat,
    pub length_at: nat,
    pub distance_at: nat,
    /// The distance symbols read.
    pub taken: nat,
    /// What the offset slot holds.
    pub slot: Option<u32>,
}

/// A decode that has read one more sequence, or the refusal and the slot it leaves.
pub open spec fn step_read(streams: StreamsShape, done: Progress) -> Result<
    Progress,
    (Error, Option<u32>),
> {
    let index = done.steps.len();
    let count = streams.literal_run.symbols.len();
    let run_symbol = streams.literal_run.symbols[index as int];
    let length_symbol = streams.match_length.symbols[index as int];
    match value_read(Alphabet::LiteralRun, run_symbol, streams.literal_run.suffix, done.run_at) {
        Err(error) => Err((error, done.slot)),
        Ok(run) => {
            let run_at = done.run_at + Alphabet::LiteralRun.width(run_symbol as nat);
            let run = (run - 1) as u32;
            if length_symbol == TERMINAL_LENGTH {
                if index + 1 != count {
                    Err((Error::CorruptData(Corruption::TerminalSymbol), done.slot))
                } else {
                    Ok(
                        Progress {
                            steps: done.steps.push(Step { run, matched: None }),
                            run_at,
                            ..done
                        },
                    )
                }
            } else {
                match match_read(streams, done, length_symbol) {
                    Err(error) => Err((error, done.slot)),
                    Ok(matched) => Ok(
                        Progress {
                            steps: done.steps.push(Step { run, matched: Some(matched) }),
                            run_at,
                            length_at: done.length_at + Alphabet::MatchLength.width(
                                length_symbol as nat,
                            ),
                            distance_at: done.distance_at + Alphabet::MatchDistance.width(
                                streams.match_distance.symbols[done.taken as int] as nat,
                            ),
                            taken: done.taken + 1,
                            slot: Some(matched.distance),
                        },
                    ),
                }
            }
        },
    }
}

/// The match the length and the distance stream hold next.
pub open spec fn match_read(
    streams: StreamsShape,
    done: Progress,
    length_symbol: u16,
) -> Result<Match, Error> {
    match value_read(
        Alphabet::MatchLength,
        length_symbol,
        streams.match_length.suffix,
        done.length_at,
    ) {
        Err(error) => Err(error),
        Ok(length) => if done.taken >= streams.match_distance.symbols.len() {
            Err(Error::CorruptData(Corruption::SequenceCount))
        } else {
            match value_read(
                Alphabet::MatchDistance,
                streams.match_distance.symbols[done.taken as int],
                streams.match_distance.suffix,
                done.distance_at,
            ) {
                Err(error) => Err(error),
                Ok(coded) => if coded == REPEAT_CODE {
                    match resolved(done.slot) {
                        Err(error) => Err(error),
                        Ok(distance) => Ok(Match { length: (length + 3) as u32, distance }),
                    }
                } else {
                    Ok(Match { length: (length + 3) as u32, distance: (coded - 1) as u32 })
                },
            }
        },
    }
}

/// The decode of the first `count` sequences, or the first refusal and the slot it leaves.
pub open spec fn steps_read(streams: StreamsShape, slot: Option<u32>, count: nat) -> Result<
    Progress,
    (Error, Option<u32>),
>
    decreases count,
{
    if count == 0 {
        Ok(
            Progress {
                steps: Seq::empty(),
                run_at: 0,
                length_at: 0,
                distance_at: 0,
                taken: 0,
                slot,
            },
        )
    } else {
        match steps_read(streams, slot, (count - 1) as nat) {
            Err(refusal) => Err(refusal),
            Ok(done) => step_read(streams, done),
        }
    }
}

/// Whether the symbol counts are those of one block.
pub open spec fn counts_agree(streams: StreamsShape) -> bool {
    &&& streams.match_length.symbols.len() == streams.literal_run.symbols.len()
    &&& streams.match_distance.symbols.len() <= streams.literal_run.symbols.len()
}

/// Whether every literal symbol is a byte.
pub open spec fn all_bytes(symbols: Seq<u16>) -> bool {
    forall|i: int| 0 <= i < symbols.len() ==> #[trigger] symbols[i] < 256
}

/// The plan four streams code from a slot and the slot they leave, or the refusal and the slot
/// it leaves.
pub open spec fn plan_of(streams: StreamsShape, slot: Option<u32>) -> (
    Result<Plan, Error>,
    Option<u32>,
) {
    if !counts_agree(streams) {
        (Err(Error::CorruptData(Corruption::SequenceCount)), slot)
    } else if !all_bytes(streams.literal_byte.symbols) {
        (Err(Error::CorruptData(Corruption::SequenceSymbol)), slot)
    } else {
        match steps_read(streams, slot, streams.literal_run.symbols.len()) {
            Err((error, left)) => (Err(error), left),
            Ok(done) => (plan_read(streams, done), done.slot),
        }
    }
}

/// The plan of streams whose sequences have all been read.
pub open spec fn plan_read(streams: StreamsShape, done: Progress) -> Result<Plan, Error> {
    let plan = Plan {
        literals: streams.literal_byte.symbols.map_values(|symbol: u16| symbol as u8),
        steps: done.steps,
    };
    if done.taken != streams.match_distance.symbols.len() {
        Err(Error::CorruptData(Corruption::SequenceCount))
    } else if done.run_at != streams.literal_run.suffix.len() || done.length_at
        != streams.match_length.suffix.len() || done.distance_at
        != streams.match_distance.suffix.len() {
        Err(Error::CorruptData(Corruption::SequenceExtent))
    } else if !plan.valid() {
        Err(Error::CorruptData(Corruption::SequenceCount))
    } else {
        Ok(plan)
    }
}

/// One symbol class of one block: its coded symbols, and the raw suffixes they declare.
#[derive(Debug, PartialEq, Eq)]
pub struct SymbolStream {
    symbols: Vec<u16>,
    suffix: BitBuf,
}

impl View for SymbolStream {
    type V = StreamShape;

    closed spec fn view(&self) -> StreamShape {
        StreamShape { symbols: self.symbols@, suffix: self.suffix@ }
    }
}

impl Default for SymbolStream {
    fn default() -> (stream: Self)
        ensures
            stream@ == nothing(),
            stream.buffer().wf(),
            stream.buffer().tight(),
    {
        let stream = SymbolStream { symbols: Vec::new(), suffix: BitBuf::default() };
        proof {
            assert(stream@ =~= nothing());
        }
        stream
    }
}

impl Clone for SymbolStream {
    fn clone(&self) -> (copy: Self)
        ensures
            copy@ == self@,
            copy.buffer().packed() == self.buffer().packed(),
            copy.buffer()@ == self.buffer()@,
            self.buffer().wf() ==> copy.buffer().wf(),
    {
        let symbols = self.symbols.clone();
        proof {
            assert(symbols@ =~= self.symbols@);
        }
        SymbolStream { symbols, suffix: self.suffix.clone() }
    }
}

impl SymbolStream {
    /// A stream from symbols a decoder has decoded and the suffix bits its block carried.
    #[must_use]
    pub fn new(symbols: Vec<u16>, suffix: BitBuf) -> (stream: Self)
        ensures
            stream@ == (StreamShape { symbols: symbols@, suffix: suffix@ }),
            stream.buffer() == suffix,
    {
        SymbolStream { symbols, suffix }
    }

    /// The buffer that holds the suffixes.
    pub closed spec fn buffer(&self) -> BitBuf {
        self.suffix
    }

    /// The coded symbols, in block order.
    #[must_use]
    pub fn symbols(&self) -> (symbols: &[u16])
        ensures
            symbols@ == self@.symbols,
    {
        self.symbols.as_slice()
    }

    /// The raw suffixes, in the order the symbols declare them.
    #[must_use]
    pub fn suffix(&self) -> (suffix: &BitBuf)
        ensures
            suffix@ == self@.suffix,
            *suffix == self.buffer(),
    {
        &self.suffix
    }
}

/// The four streams of one block.
#[derive(Debug, PartialEq, Eq)]
pub struct Streams {
    literal_byte: SymbolStream,
    literal_run: SymbolStream,
    match_length: SymbolStream,
    match_distance: SymbolStream,
}

impl View for Streams {
    type V = StreamsShape;

    closed spec fn view(&self) -> StreamsShape {
        StreamsShape {
            literal_byte: self.literal_byte@,
            literal_run: self.literal_run@,
            match_length: self.match_length@,
            match_distance: self.match_distance@,
        }
    }
}

impl Default for Streams {
    fn default() -> (streams: Self)
        ensures
            streams@ == streams_of(Plan { literals: Seq::empty(), steps: Seq::empty() }, None),
            streams.tight(),
    {
        let streams = Streams {
            literal_byte: SymbolStream::default(),
            literal_run: SymbolStream::default(),
            match_length: SymbolStream::default(),
            match_distance: SymbolStream::default(),
        };
        proof {
            assert(bytes_of(Seq::empty()) =~= nothing());
        }
        streams
    }
}

impl Clone for Streams {
    fn clone(&self) -> (copy: Self)
        ensures
            copy@ == self@,
            forall|alphabet: Alphabet|
                (#[trigger] copy.buffer(alphabet)).packed() == self.buffer(alphabet).packed()
                    && copy.buffer(alphabet)@ == self.buffer(alphabet)@,
            self.tight() ==> copy.tight(),
    {
        let copy = Streams {
            literal_byte: self.literal_byte.clone(),
            literal_run: self.literal_run.clone(),
            match_length: self.match_length.clone(),
            match_distance: self.match_distance.clone(),
        };
        proof {
            if self.tight() {
                assert forall|alphabet: Alphabet|
                    (#[trigger] copy.buffer(alphabet)).wf() && copy.buffer(alphabet).tight() by {
                    assert(self.buffer(alphabet).wf() && self.buffer(alphabet).tight());
                }
            }
        }
        copy
    }
}

impl Streams {
    /// The buffer that holds the suffixes of one symbol class.
    pub closed spec fn buffer(&self, alphabet: Alphabet) -> BitBuf {
        match alphabet {
            Alphabet::LiteralByte => self.literal_byte.buffer(),
            Alphabet::LiteralRun => self.literal_run.buffer(),
            Alphabet::MatchLength => self.match_length.buffer(),
            Alphabet::MatchDistance => self.match_distance.buffer(),
        }
    }

    /// Whether every suffix buffer holds its bits and nothing in the padding.
    pub open spec fn tight(&self) -> bool {
        forall|alphabet: Alphabet|
            (#[trigger] self.buffer(alphabet)).wf() && self.buffer(alphabet).tight()
    }

    /// The streams a decoder has read, in the order a block carries them.
    #[must_use]
    pub fn new(
        literal_byte: SymbolStream,
        literal_run: SymbolStream,
        match_length: SymbolStream,
        match_distance: SymbolStream,
    ) -> (streams: Self)
        ensures
            streams@ == (StreamsShape {
                literal_byte: literal_byte@,
                literal_run: literal_run@,
                match_length: match_length@,
                match_distance: match_distance@,
            }),
            streams.buffer(Alphabet::LiteralByte) == literal_byte.buffer(),
            streams.buffer(Alphabet::LiteralRun) == literal_run.buffer(),
            streams.buffer(Alphabet::MatchLength) == match_length.buffer(),
            streams.buffer(Alphabet::MatchDistance) == match_distance.buffer(),
    {
        Streams { literal_byte, literal_run, match_length, match_distance }
    }

    /// The stream of one symbol class.
    #[must_use]
    pub fn stream(&self, alphabet: Alphabet) -> (stream: &SymbolStream)
        ensures
            stream@ == self@.stream(alphabet),
            stream.buffer() == self.buffer(alphabet),
    {
        match alphabet {
            Alphabet::LiteralByte => &self.literal_byte,
            Alphabet::LiteralRun => &self.literal_run,
            Alphabet::MatchLength => &self.match_length,
            Alphabet::MatchDistance => &self.match_distance,
        }
    }

    /// The four streams one sequence vector codes to.
    ///
    /// The cache is the caller's, because the slot carries across the blocks of a region and
    /// is discarded at a region boundary. A match whose distance the slot already names codes
    /// the repeat code instead, and the slot is updated on every match either way.
    ///
    /// Refuses a value outside the domain its alphabet declares, which `Sequences` refuses at
    /// construction, and leaves the slot as the steps before it left it. Refuses more steps than
    /// a 64-bit count of suffix bits holds, which no memory does.
    pub fn of(sequences: &Sequences, cache: &mut OffsetCache) -> (streams: Result<Self, Error>)
        ensures
            codable(sequences@.steps) ==> {
                &&& streams matches Ok(coded) && coded@ == streams_of(sequences@, old(cache)@)
                    && coded.tight()
                &&& final(cache)@ == slot_after(sequences@.steps, old(cache)@)
            },
            !codable(sequences@.steps) ==> {
                &&& streams == Err::<Self, Error>(Error::InvalidParameter)
                &&& suffixes_fit(sequences@.steps) ==> final(cache)@ == slot_after(
                    sequences@.steps.take(leading(sequences@.steps) as int),
                    old(cache)@,
                )
                &&& !suffixes_fit(sequences@.steps) ==> final(cache)@ == old(cache)@
            },
    {
        if sequences.steps().len() as u64 > u64::MAX / 14 {
            return Err(Error::InvalidParameter);
        }
        let literals = sequences.literals();
        let mut literal_symbols: Vec<u16> = Vec::with_capacity(literals.len());
        let mut at: usize = 0;
        while at < literals.len()
            invariant
                at <= literals@.len(),
                literal_symbols@ =~= bytes_of(literals@.take(at as int)).symbols,
            decreases literals@.len() - at,
        {
            literal_symbols.push(literals[at] as u16);
            at = at + 1;
        }
        proof {
            assert(literals@.take(at as int) =~= literals@);
        }

        let steps = sequences.steps();
        let mut runs = Emitter::with_capacity(steps.len());
        let mut lengths = Emitter::with_capacity(steps.len());
        let mut distances = Emitter::with_capacity(steps.len());
        let mut index: usize = 0;
        proof {
            assert(steps@.take(0) =~= Seq::empty());
        }
        while index < steps.len()
            invariant
                index <= steps@.len(),
                steps@ == sequences@.steps,
                suffixes_fit(steps@),
                runs@ == runs_of(steps@.take(index as int)),
                lengths@ == lengths_of(steps@.take(index as int)),
                distances@ == distances_of(steps@.take(index as int), old(cache)@),
                cache@ == slot_after(steps@.take(index as int), old(cache)@),
                leading(steps@.take(index as int)) == index,
                runs.wf(),
                lengths.wf(),
                distances.wf(),
            decreases steps@.len() - index,
        {
            let step: Step = steps[index];
            let ghost here = steps@.take(index as int);
            let ghost next = steps@.take(index + 1);
            proof {
                assert(next.drop_last() =~= here);
                assert(next.last() == step);
                lemma_leading(steps@, index as nat);
            }
            match runs.emit(Alphabet::LiteralRun, step.run as u64) {
                Ok(()) => {},
                Err(error) => {
                    return Err(error);
                },
            }
            match step.matched {
                Some(matched) => {
                    match lengths.emit(Alphabet::MatchLength, matched.length as u64) {
                        Ok(()) => {},
                        Err(error) => {
                            return Err(error);
                        },
                    }
                    if Alphabet::MatchDistance.coded_value(matched.distance as u64).is_none() {
                        return Err(Error::InvalidParameter);
                    }
                    let sent = if cache.names(matched.distance) {
                        distances.emit_coded(Alphabet::MatchDistance, REPEAT_CODE)
                    } else {
                        distances.emit(Alphabet::MatchDistance, matched.distance as u64)
                    };
                    match sent {
                        Ok(()) => {},
                        Err(error) => {
                            return Err(error);
                        },
                    }
                    cache.use_distance(matched.distance);
                },
                None => {
                    lengths.emit_symbol(TERMINAL_LENGTH);
                },
            }
            index = index + 1;
        }
        proof {
            assert(steps@.take(index as int) =~= steps@);
            lemma_all_leading(steps@);
            lemma_suffix_lens(steps@, old(cache)@);
        }

        let empty: BitBuf = BitWriter::new().finish();
        proof {
            assert(empty@ =~= Seq::<bool>::empty());
        }
        let coded = Streams {
            literal_byte: SymbolStream::new(literal_symbols, empty),
            literal_run: runs.finish(),
            match_length: lengths.finish(),
            match_distance: distances.finish(),
        };
        proof {
            assert(coded@ =~= streams_of(sequences@, old(cache)@));
        }
        Ok(coded)
    }

    /// The sequence vector the four streams code.
    ///
    /// Every symbol and every suffix here is chosen by whoever wrote the block, so each is
    /// checked against the alphabet that owns it before anything relies on it. The cache is
    /// the caller's, for the reason `of` states, and it is left holding what the last match of
    /// these streams used.
    ///
    /// Refuses stream lengths that do not describe one block, a symbol its alphabet does not
    /// hold, a suffix that takes a value past its domain, a terminal symbol anywhere but last,
    /// a repeat code that names a slot that names no distance, and a suffix stream shorter or
    /// longer than the widths its symbols declare.
    pub fn sequences(&self, cache: &mut OffsetCache) -> (read: Result<Sequences, Error>)
        ensures
            plan_of(self@, old(cache)@).0 matches Ok(plan) ==> (read matches Ok(sequences)
                && sequences@ == plan),
            plan_of(self@, old(cache)@).0 matches Err(error) ==> read == Err::<Sequences, Error>(
                error,
            ),
            final(cache)@ == plan_of(self@, old(cache)@).1,
    {
        let count: usize = self.literal_run.symbols.len();
        if self.match_length.symbols.len() != count || self.match_distance.symbols.len() > count {
            return Err(Error::CorruptData(Corruption::SequenceCount));
        }
        let literals: Vec<u8> = match self.literals() {
            Ok(literals) => literals,
            Err(error) => {
                return Err(error);
            },
        };
        let mut run_bits = BitReader::over(&self.literal_run.suffix);
        let mut length_bits = BitReader::over(&self.match_length.suffix);
        let mut distance_bits = BitReader::over(&self.match_distance.suffix);
        let mut steps: Vec<Step> = Vec::with_capacity(count);
        let mut taken: usize = 0;
        let ghost first = cache@;
        proof {
            self.literal_run.suffix.lemma_view();
            self.match_length.suffix.lemma_view();
            self.match_distance.suffix.lemma_view();
        }
        while steps.len() < count
            invariant
                steps@.len() <= count,
                counts_agree(self@),
                all_bytes(self@.literal_byte.symbols),
                first == old(cache)@,
                count == self@.literal_run.symbols.len(),
                count == self.literal_run.symbols@.len(),
                self.match_length.symbols@.len() == count,
                readable(&run_bits) == self@.literal_run.suffix,
                readable(&length_bits) == self@.match_length.suffix,
                readable(&distance_bits) == self@.match_distance.suffix,
                taken <= steps@.len(),
                steps_read(self@, first, steps@.len()) == Ok::<Progress, (Error, Option<u32>)>(
                    Progress {
                        steps: steps@,
                        run_at: run_bits.position(),
                        length_at: length_bits.position(),
                        distance_at: distance_bits.position(),
                        taken: taken as nat,
                        slot: cache@,
                    },
                ),
            decreases count - steps@.len(),
        {
            let index: usize = steps.len();
            let ghost done = Progress {
                steps: steps@,
                run_at: run_bits.position(),
                length_at: length_bits.position(),
                distance_at: distance_bits.position(),
                taken: taken as nat,
                slot: cache@,
            };
            proof {
                lemma_refusal_stands(self@, first, index as nat + 1, count as nat);
            }
            let run: u32 = match read_literal_run(self.literal_run.symbols[index], &mut run_bits) {
                Ok(coded) => (coded - 1) as u32,
                Err(error) => {
                    return Err(error);
                },
            };
            let length_symbol: u16 = self.match_length.symbols[index];
            let matched: Option<Match> = if length_symbol == TERMINAL_LENGTH {
                if index + 1 != count {
                    return Err(Error::CorruptData(Corruption::TerminalSymbol));
                }
                None
            } else {
                let length: u32 = match read_match_length(length_symbol, &mut length_bits) {
                    Ok(coded) => (coded + 3) as u32,
                    Err(error) => {
                        return Err(error);
                    },
                };
                if taken >= self.match_distance.symbols.len() {
                    return Err(Error::CorruptData(Corruption::SequenceCount));
                }
                let coded: u64 = match read_match_distance(
                    self.match_distance.symbols[taken],
                    &mut distance_bits,
                ) {
                    Ok(coded) => coded,
                    Err(error) => {
                        return Err(error);
                    },
                };
                taken = taken + 1;
                let distance: u32 = if coded == REPEAT_CODE {
                    match cache.resolve() {
                        Ok(distance) => distance,
                        Err(error) => {
                            return Err(error);
                        },
                    }
                } else {
                    (coded - 1) as u32
                };
                cache.use_distance(distance);
                Some(Match { length, distance })
            };
            steps.push(Step { run, matched });
        }
        proof {
            self.literal_run.suffix.lemma_view();
            self.match_length.suffix.lemma_view();
            self.match_distance.suffix.lemma_view();
        }
        if taken != self.match_distance.symbols.len() {
            return Err(Error::CorruptData(Corruption::SequenceCount));
        }
        if run_bits.consumed() != self.literal_run.suffix.bits() || length_bits.consumed()
            != self.match_length.suffix.bits() || distance_bits.consumed()
            != self.match_distance.suffix.bits() {
            return Err(Error::CorruptData(Corruption::SequenceExtent));
        }
        match Sequences::new(literals, steps) {
            Ok(sequences) => Ok(sequences),
            Err(_) => Err(Error::CorruptData(Corruption::SequenceCount)),
        }
    }

    /// The bytes of the literal-byte stream, or the refusal of a symbol no byte is.
    fn literals(&self) -> (read: Result<Vec<u8>, Error>)
        ensures
            all_bytes(self@.literal_byte.symbols) ==> (read matches Ok(literals) && literals@
                == self@.literal_byte.symbols.map_values(|symbol: u16| symbol as u8)),
            !all_bytes(self@.literal_byte.symbols) ==> read == Err::<Vec<u8>, Error>(
                Error::CorruptData(Corruption::SequenceSymbol),
            ),
    {
        let mut literals: Vec<u8> = Vec::with_capacity(self.literal_byte.symbols.len());
        let mut at: usize = 0;
        while at < self.literal_byte.symbols.len()
            invariant
                at <= self.literal_byte.symbols@.len(),
                literals@.len() == at,
                forall|i: int| 0 <= i < at ==> #[trigger] self.literal_byte.symbols@[i] < 256,
                forall|i: int|
                    0 <= i < at ==> #[trigger] literals@[i] == self.literal_byte.symbols@[i] as u8,
            decreases self.literal_byte.symbols@.len() - at,
        {
            match Alphabet::LiteralByte.reconstruct(self.literal_byte.symbols[at], 0) {
                Ok(coded) => {
                    literals.push(low_byte(coded));
                },
                Err(error) => {
                    proof {
                        lemma2_to64();
                        assert(self@.literal_byte.symbols[at as int] >= 256);
                    }
                    return Err(error);
                },
            }
            proof {
                lemma2_to64();
            }
            at = at + 1;
        }
        proof {
            assert(literals@ =~= self@.literal_byte.symbols.map_values(|symbol: u16| symbol as u8));
        }
        Ok(literals)
    }
}

/// The bits a reader reads, from the first.
pub open spec fn readable(reader: &BitReader<'_>) -> Seq<bool> {
    window(reader.source(), 0, reader.declared())
}

/// One stream under construction: its symbols, and the suffix bits they declare.
struct Emitter {
    symbols: Vec<u16>,
    suffix: BitWriter,
}

impl View for Emitter {
    type V = StreamShape;

    closed spec fn view(&self) -> StreamShape {
        StreamShape { symbols: self.symbols@, suffix: self.suffix@ }
    }
}

impl Emitter {
    spec fn wf(&self) -> bool {
        self.suffix.wf()
    }

    fn with_capacity(steps: usize) -> (emitter: Self)
        ensures
            emitter@ == nothing(),
            emitter.wf(),
    {
        let emitter = Emitter { symbols: Vec::with_capacity(steps), suffix: BitWriter::new() };
        proof {
            assert(emitter@ =~= nothing());
        }
        emitter
    }

    fn emit(&mut self, alphabet: Alphabet, raw: u64) -> (sent: Result<(), Error>)
        requires
            old(self).wf(),
        ensures
            final(self).wf(),
            alphabet.holds(raw as nat) ==> sent == Ok::<(), Error>(()) && final(self)@ == emitted(
                old(self)@,
                alphabet,
                alphabet.code(raw as nat),
            ),
            !alphabet.holds(raw as nat) ==> sent == Err::<(), Error>(Error::InvalidParameter),
    {
        match alphabet.coded_value(raw) {
            Some(coded) => self.emit_coded(alphabet, coded),
            None => Err(Error::InvalidParameter),
        }
    }

    fn emit_coded(&mut self, alphabet: Alphabet, coded: u64) -> (sent: Result<(), Error>)
        requires
            old(self).wf(),
        ensures
            final(self).wf(),
            alphabet.codes(coded as nat) ==> sent == Ok::<(), Error>(()) && final(self)@
                == emitted(old(self)@, alphabet, coded as nat),
            !alphabet.codes(coded as nat) ==> sent == Err::<(), Error>(Error::InvalidParameter),
    {
        match alphabet.split(coded) {
            Ok(split) => {
                proof {
                    alphabet.law_symbol_names_its_value(coded as nat, 0);
                }
                self.symbols.push(split.symbol);
                self.suffix.push(split.suffix, split.width);
                Ok(())
            },
            Err(error) => Err(error),
        }
    }

    fn emit_symbol(&mut self, symbol: u16)
        requires
            old(self).wf(),
        ensures
            final(self).wf(),
            final(self)@ == emitted_symbol(old(self)@, symbol),
    {
        self.symbols.push(symbol);
    }

    fn finish(self) -> (stream: SymbolStream)
        requires
            self.wf(),
        ensures
            self@.suffix.len() <= u64::MAX ==> stream@ == self@ && stream.buffer().wf()
                && stream.buffer().tight(),
    {
        SymbolStream::new(self.symbols, self.suffix.finish())
    }
}

/// The coded value a symbol and the suffix bits it declares name.
///
/// A symbol the alphabet names no value with is refused first, then a suffix stream shorter
/// than the symbol's width, then a value past the domain.
fn read_value(alphabet: Alphabet, symbol: u16, bits: &mut BitReader<'_>) -> (read: Result<
    u64,
    Error,
>)
    ensures
        readable(final(bits)) == readable(old(bits)),
        final(bits).source() == old(bits).source(),
        final(bits).declared() == old(bits).declared(),
        match value_read(alphabet, symbol, readable(old(bits)), old(bits).position()) {
            Ok(coded) => read == Ok::<u64, Error>(coded as u64) && coded <= 65_537 && coded
                >= alphabet.coded_domain().0 && final(bits).position() == old(bits).position()
                + alphabet.width(symbol as nat),
            Err(error) => read == Err::<u64, Error>(error),
        },
{
    if symbol as usize >= alphabet.value_symbols() {
        return Err(Error::CorruptData(Corruption::SequenceSymbol));
    }
    let bucket = alphabet.bucket(symbol as u32);
    proof {
        lemma_naming_width(alphabet, symbol as nat);
        let at = bits.position();
        let width = alphabet.width(symbol as nat);
        if at + width <= bits.declared() {
            let field = window(bits.source(), at, width);
            assert(readable(bits).subrange(at as int, (at + width) as int) =~= field);
            lemma_bits_of_value(field);
            lemma2_to64();
            lemma_pow2_strictly_increases(width, 16);
        }
    }
    let suffix: u64 = match bits.take(bucket.width) {
        Ok(suffix) => suffix,
        Err(error) => {
            return Err(error);
        },
    };
    let coded: u64 = bucket.low as u64 + suffix;
    if coded > alphabet.coded_max() {
        return Err(Error::CorruptData(Corruption::SequenceSuffix));
    }
    Ok(coded)
}

/// The coded value a literal-run symbol and the suffix bits it declares name.
pub fn read_literal_run(symbol: u16, bits: &mut BitReader<'_>) -> (read: Result<u64, Error>)
    ensures
        readable(final(bits)) == readable(old(bits)),
        match value_read(Alphabet::LiteralRun, symbol, readable(old(bits)), old(bits).position()) {
            Ok(coded) => read == Ok::<u64, Error>(coded as u64) && 1 <= coded <= 65_537
                && final(bits).position() == old(bits).position() + Alphabet::LiteralRun.width(
                symbol as nat,
            ),
            Err(error) => read == Err::<u64, Error>(error),
        },
{
    read_value(Alphabet::LiteralRun, symbol, bits)
}

/// The coded value a match-length symbol and the suffix bits it declares name.
///
/// The terminal names no length, so a terminal symbol reaching here is refused as a symbol the
/// alphabet holds no value for. The decode tests for the terminal first, so none does.
pub fn read_match_length(symbol: u16, bits: &mut BitReader<'_>) -> (read: Result<u64, Error>)
    ensures
        readable(final(bits)) == readable(old(bits)),
        match value_read(
            Alphabet::MatchLength,
            symbol,
            readable(old(bits)),
            old(bits).position(),
        ) {
            Ok(coded) => read == Ok::<u64, Error>(coded as u64) && 1 <= coded <= 253 && final(
                bits).position() == old(bits).position() + Alphabet::MatchLength.width(
                symbol as nat,
            ),
            Err(error) => read == Err::<u64, Error>(error),
        },
{
    read_value(Alphabet::MatchLength, symbol, bits)
}

/// The coded value a match-distance symbol and the suffix bits it declares name.
///
/// Coded, and not the distance, because the repeat code is a coded value the alphabet names no
/// distance for and the caller resolves it against the offset slot.
pub fn read_match_distance(symbol: u16, bits: &mut BitReader<'_>) -> (read: Result<u64, Error>)
    ensures
        readable(final(bits)) == readable(old(bits)),
        match value_read(
            Alphabet::MatchDistance,
            symbol,
            readable(old(bits)),
            old(bits).position(),
        ) {
            Ok(coded) => read == Ok::<u64, Error>(coded as u64) && 1 <= coded <= 65_537
                && final(bits).position() == old(bits).position() + Alphabet::MatchDistance.width(
                symbol as nat,
            ),
            Err(error) => read == Err::<u64, Error>(error),
        },
{
    read_value(Alphabet::MatchDistance, symbol, bits)
}

/// Where every step up to one is inside its domains, the one decides how many lead.
proof fn lemma_leading(steps: Seq<Step>, index: nat)
    requires
        index < steps.len(),
        leading(steps.take(index as int)) == index,
    ensures
        steps[index as int].in_domain() ==> leading(steps.take(index as int + 1)) == index + 1,
        !steps[index as int].in_domain() ==> leading(steps) == index && !steps_in_domain(steps),
    decreases steps.len(),
{
    assert(steps.take(index as int + 1).drop_last() =~= steps.take(index as int));
    if !steps[index as int].in_domain() {
        if index + 1 < steps.len() {
            let shorter = steps.drop_last();
            assert(shorter.take(index as int) =~= steps.take(index as int));
            lemma_leading(shorter, index);
        } else {
            assert(steps.take(index as int + 1) =~= steps);
        }
    }
}

/// Steps that all lead are all inside their domains.
proof fn lemma_all_leading(steps: Seq<Step>)
    requires
        leading(steps) == steps.len(),
    ensures
        steps_in_domain(steps),
    decreases steps.len(),
{
    if steps.len() > 0 {
        let shorter = steps.drop_last();
        lemma_leading_bound(shorter);
        lemma_all_leading(shorter);
        assert forall|i: int| 0 <= i < steps.len() implies (#[trigger] steps[i]).in_domain() by {
            if i < steps.len() - 1 {
                assert(steps[i] == shorter[i]);
            }
        }
    }
}

proof fn lemma_leading_bound(steps: Seq<Step>)
    ensures
        leading(steps) <= steps.len(),
    decreases steps.len(),
{
    if steps.len() > 0 {
        lemma_leading_bound(steps.drop_last());
    }
}

/// A suffix is at most fourteen bits.
proof fn lemma_suffix_len(alphabet: Alphabet, coded: nat)
    requires
        alphabet.codes(coded),
    ensures
        suffix_of(alphabet, coded).len() == alphabet.width(alphabet.symbol_for(coded)),
        suffix_of(alphabet, coded).len() <= 14,
{
    let symbol = alphabet.symbol_for(coded);
    alphabet.law_symbol_names_its_value(coded, 0);
    lemma_bits_of_len((coded - alphabet.low(symbol)) as nat, alphabet.width(symbol));
}

/// The suffixes of a stream are at most fourteen bits a step.
pub proof fn lemma_suffix_lens(steps: Seq<Step>, slot: Option<u32>)
    requires
        steps_in_domain(steps),
    ensures
        runs_of(steps).suffix.len() <= 14 * steps.len(),
        lengths_of(steps).suffix.len() <= 14 * steps.len(),
        distances_of(steps, slot).suffix.len() <= 14 * steps.len(),
        runs_of(steps).symbols.len() == steps.len(),
        lengths_of(steps).symbols.len() == steps.len(),
        distances_of(steps, slot).symbols.len() <= steps.len(),
    decreases steps.len(),
{
    if steps.len() > 0 {
        let shorter = steps.drop_last();
        let last = steps.last();
        assert forall|i: int| 0 <= i < shorter.len() implies (#[trigger] shorter[i]).in_domain() by {
            assert(shorter[i] == steps[i]);
        }
        lemma_suffix_lens(shorter, slot);
        assert(last.in_domain()) by {
            assert(last == steps[steps.len() - 1]);
        }
        lemma_suffix_len(Alphabet::LiteralRun, Alphabet::LiteralRun.code(last.run as nat));
        if let Some(matched) = last.matched {
            lemma_suffix_len(
                Alphabet::MatchLength,
                Alphabet::MatchLength.code(matched.length as nat),
            );
            lemma_suffix_len(
                Alphabet::MatchDistance,
                distance_code(slot_after(shorter, slot), matched.distance),
            );
        }
    }
}

/// A refusal of the first sequences is the refusal of all of them.
proof fn lemma_refusal_stands(
    streams: StreamsShape,
    slot: Option<u32>,
    count: nat,
    total: nat,
)
    requires
        count <= total,
    ensures
        steps_read(streams, slot, count) matches Err(refusal) ==> steps_read(streams, slot, total)
            == Err::<Progress, (Error, Option<u32>)>(refusal),
    decreases total,
{
    if count < total {
        lemma_refusal_stands(streams, slot, count, (total - 1) as nat);
    }
}

/// A coded value reads back from its symbol and its suffix.
proof fn lemma_value_reads_back(alphabet: Alphabet, coded: nat, suffix: Seq<bool>, at: nat)
    requires
        alphabet.codes(coded),
        at + suffix_of(alphabet, coded).len() <= suffix.len(),
        suffix.subrange(at as int, (at + suffix_of(alphabet, coded).len()) as int) == suffix_of(
            alphabet,
            coded,
        ),
    ensures
        value_read(alphabet, alphabet.symbol_for(coded) as u16, suffix, at) == Ok::<nat, Error>(
            coded,
        ),
        suffix_of(alphabet, coded).len() == alphabet.width(alphabet.symbol_for(coded)),
        (alphabet.symbol_for(coded) as u16) as nat == alphabet.symbol_for(coded),
{
    let symbol = alphabet.symbol_for(coded);
    alphabet.law_symbol_names_its_value(coded, 0);
    lemma_suffix_len(alphabet, coded);
    lemma_value_of_bits((coded - alphabet.low(symbol)) as nat, alphabet.width(symbol));
}

/// The streams of the first steps are the start of the streams of all of them.
proof fn lemma_streams_grow(steps: Seq<Step>, slot: Option<u32>, n: int)
    requires
        0 <= n <= steps.len(),
    ensures
        prefix_of(runs_of(steps.take(n)), runs_of(steps)),
        prefix_of(lengths_of(steps.take(n)), lengths_of(steps)),
        prefix_of(distances_of(steps.take(n), slot), distances_of(steps, slot)),
    decreases steps.len(),
{
    if n < steps.len() {
        let shorter = steps.drop_last();
        lemma_streams_grow(shorter, slot, n);
        assert(shorter.take(n) =~= steps.take(n));
    } else {
        assert(steps.take(n) =~= steps);
    }
}

/// Whether one stream is the start of another.
spec fn prefix_of(a: StreamShape, b: StreamShape) -> bool {
    &&& a.symbols.len() <= b.symbols.len()
    &&& a.suffix.len() <= b.suffix.len()
    &&& b.symbols.take(a.symbols.len() as int) =~= a.symbols
    &&& b.suffix.take(a.suffix.len() as int) =~= a.suffix
}

/// How far a decode of the streams of `steps` has come after the first `n`.
spec fn reached(steps: Seq<Step>, slot: Option<u32>, n: int) -> Progress {
    let here = steps.take(n);
    Progress {
        steps: here,
        run_at: runs_of(here).suffix.len(),
        length_at: lengths_of(here).suffix.len(),
        distance_at: distances_of(here, slot).suffix.len(),
        taken: distances_of(here, slot).symbols.len(),
        slot: slot_after(here, slot),
    }
}

/// A value emitted on a stream that grew into another reads back from the other.
proof fn lemma_emitted_reads_back(
    before: StreamShape,
    alphabet: Alphabet,
    coded: nat,
    all: StreamShape,
)
    requires
        alphabet.codes(coded),
        prefix_of(emitted(before, alphabet, coded), all),
    ensures
        before.symbols.len() < all.symbols.len(),
        all.symbols[before.symbols.len() as int] == alphabet.symbol_for(coded) as u16,
        value_read(
            alphabet,
            all.symbols[before.symbols.len() as int],
            all.suffix,
            before.suffix.len(),
        ) == Ok::<nat, Error>(coded),
        before.suffix.len() + alphabet.width(all.symbols[before.symbols.len() as int] as nat)
            == emitted(before, alphabet, coded).suffix.len(),
{
    let after = emitted(before, alphabet, coded);
    let at = before.symbols.len() as int;
    assert(all.symbols.take(after.symbols.len() as int)[at] == after.symbols[at]);
    let start = before.suffix.len() as int;
    let end = after.suffix.len() as int;
    assert(all.suffix.subrange(start, end) =~= all.suffix.take(end).subrange(start, end));
    assert(after.suffix.subrange(start, end) =~= suffix_of(alphabet, coded));
    lemma_value_reads_back(alphabet, coded, all.suffix, before.suffix.len());
}

/// The streams of a plan hold its match where a decode looks for it.
proof fn lemma_match_reads_back(plan: Plan, slot: Option<u32>, k: nat)
    requires
        steps_in_domain(plan.steps),
        k < plan.steps.len(),
        plan.steps[k as int].matched is Some,
    ensures
        ({
            let streams = streams_of(plan, slot);
            let done = reached(plan.steps, slot, k as int);
            let after = reached(plan.steps, slot, k as int + 1);
            let symbol = streams.match_length.symbols[k as int];
            &&& symbol != TERMINAL_LENGTH
            &&& match_read(streams, done, symbol) == Ok::<Match, Error>(
                plan.steps[k as int].matched->0,
            )
            &&& done.length_at + Alphabet::MatchLength.width(symbol as nat) == after.length_at
            &&& done.distance_at + Alphabet::MatchDistance.width(
                streams.match_distance.symbols[done.taken as int] as nat,
            ) == after.distance_at
            &&& done.taken + 1 == after.taken
            &&& after.slot == Some((plan.steps[k as int].matched->0).distance)
        }),
{
    let steps = plan.steps;
    let streams = streams_of(plan, slot);
    let here = steps.take(k as int);
    let next = steps.take(k as int + 1);
    let step = steps[k as int];
    let matched = step.matched->0;
    assert(next.drop_last() =~= here);
    assert(next.last() == step);
    assert(step.in_domain());
    lemma_prefix_in_domain(steps, k as int);
    lemma_suffix_lens(here, slot);
    lemma_streams_grow(steps, slot, k as int + 1);
    let length = Alphabet::MatchLength.code(matched.length as nat);
    lemma_emitted_reads_back(lengths_of(here), Alphabet::MatchLength, length, streams.match_length);
    Alphabet::MatchLength.law_symbol_names_its_value(length, 0);
    let coded = distance_code(slot_after(here, slot), matched.distance);
    lemma_emitted_reads_back(
        distances_of(here, slot),
        Alphabet::MatchDistance,
        coded,
        streams.match_distance,
    );
}

/// The streams of a plan hold its step where a decode looks for it.
proof fn lemma_step_reads_back(plan: Plan, slot: Option<u32>, k: nat)
    requires
        steps_in_domain(plan.steps),
        ends_once(plan.steps),
        k < plan.steps.len(),
    ensures
        step_read(streams_of(plan, slot), reached(plan.steps, slot, k as int)) == Ok::<
            Progress,
            (Error, Option<u32>),
        >(reached(plan.steps, slot, k as int + 1)),
{
    let steps = plan.steps;
    let streams = streams_of(plan, slot);
    let here = steps.take(k as int);
    let next = steps.take(k as int + 1);
    let step = steps[k as int];
    let done = reached(steps, slot, k as int);
    assert(next.drop_last() =~= here);
    assert(next.last() == step);
    assert(here.push(step) =~= next);
    assert(step.in_domain());
    lemma_suffix_lens(steps, slot);
    lemma_prefix_in_domain(steps, k as int);
    lemma_suffix_lens(here, slot);
    lemma_streams_grow(steps, slot, k as int + 1);
    let run = Alphabet::LiteralRun.code(step.run as nat);
    lemma_emitted_reads_back(runs_of(here), Alphabet::LiteralRun, run, streams.literal_run);
    match step.matched {
        Some(matched) => {
            lemma_match_reads_back(plan, slot, k);
            assert(Step { run: step.run, matched: Some(matched) } == step);
        },
        None => {
            assert(k == steps.len() - 1);
            let after = lengths_of(next);
            assert(streams.match_length.symbols.take(after.symbols.len() as int)[k as int]
                == after.symbols[k as int]);
            assert(Step { run: step.run, matched: None } == step);
        },
    }
    assert(step_read(streams, done)->Ok_0 =~= reached(steps, slot, k as int + 1));
}

/// The decode of the streams of a plan reads its steps back, one after another.
proof fn lemma_steps_read_back(plan: Plan, slot: Option<u32>, n: nat)
    requires
        steps_in_domain(plan.steps),
        ends_once(plan.steps),
        n <= plan.steps.len(),
    ensures
        steps_read(streams_of(plan, slot), slot, n) == Ok::<Progress, (Error, Option<u32>)>(
            reached(plan.steps, slot, n as int),
        ),
    decreases n,
{
    if n == 0 {
        assert(plan.steps.take(0) =~= Seq::empty());
        assert(steps_read(streams_of(plan, slot), slot, 0)->Ok_0 =~= reached(plan.steps, slot, 0));
    } else {
        lemma_steps_read_back(plan, slot, (n - 1) as nat);
        lemma_step_reads_back(plan, slot, (n - 1) as nat);
    }
}

proof fn lemma_prefix_in_domain(steps: Seq<Step>, n: int)
    requires
        steps_in_domain(steps),
        0 <= n <= steps.len(),
    ensures
        steps_in_domain(steps.take(n)),
{
    assert forall|i: int| 0 <= i < n implies (#[trigger] steps.take(n)[i]).in_domain() by {
        assert(steps.take(n)[i] == steps[i]);
    }
}

/// The four streams of sequences decode to the sequences they code, from the slot they were
/// coded from, and leave the slot the coding left.
pub proof fn law_streams_give_back_the_sequences(plan: Plan, slot: Option<u32>)
    requires
        plan.valid(),
    ensures
        plan_of(streams_of(plan, slot), slot) == (
            Ok::<Plan, Error>(plan),
            slot_after(plan.steps, slot),
        ),
{
    let steps = plan.steps;
    let streams = streams_of(plan, slot);
    lemma_suffix_lens(steps, slot);
    lemma_steps_read_back(plan, slot, steps.len());
    assert(steps.take(steps.len() as int) =~= steps);
    let back = streams.literal_byte.symbols.map_values(|symbol: u16| symbol as u8);
    assert(back =~= plan.literals);
    assert(Plan { literals: back, steps } == plan);
}

/// Sequences carry as many literal-run symbols as match-length symbols, no more match-distance
/// symbols than either, and no suffix on the literal bytes.
pub proof fn law_stream_counts(plan: Plan, slot: Option<u32>)
    requires
        plan.valid(),
    ensures
        counts_agree(streams_of(plan, slot)),
        streams_of(plan, slot).literal_run.symbols.len() == plan.steps.len(),
        streams_of(plan, slot).literal_byte.symbols.len() == plan.literals.len(),
        streams_of(plan, slot).literal_byte.suffix.len() == 0,
{
    lemma_suffix_lens(plan.steps, slot);
}

} // verus!
