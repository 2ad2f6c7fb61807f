//! Owns the encoder side of a COMPRESSED block: the tables and the offset cache an encoder
//! carries across the blocks of one region, and the payload it assembles from one block's
//! sequences.

use vstd::prelude::*;
use vstd::arithmetic::power2::{lemma2_to64, pow2};
use crate::entropy::bits::{lemma_pack, pack, BitBuf};
use crate::entropy::huffman::laws::{law_cost_is_what_is_spelled, occurrences};
use crate::entropy::huffman::LENGTH_LIMIT;
use crate::entropy::least;
use crate::entropy::rans::law_normalized_table_keeps_every_symbol;
use crate::format::prologue::{mode_mask, mode_unit, padded, BlockPrologue, Extents};
use crate::format::{DecoderPolicy, Error};
use crate::sequence::cache::OffsetCache;
use crate::sequence::streams::{codable, slot_after, streams_of, Streams, StreamsShape};
use crate::sequence::{Alphabet, Plan, Sequences};
use super::tables::{
    alphabet_at, build, class_of, coder_at, histogram, table_for, Built, ClassTable, Coder,
};
use super::{held_bytes, no_tables, replaced, table_bytes_of};

verus! {

/// The classes a block may spend its table ceiling over.
///
/// The encoder gives each class this share, so the four tables in force sum to at most the
/// ceiling whatever the streams of one block carry.
pub const TABLE_SHARES: u64 = 4;

/// What an encoder carries across the blocks of one region.
#[verifier::ext_equal]
pub struct EncoderState {
    /// The table in force for each class.
    pub tables: Seq<Option<ClassTable>>,
    /// What the offset slot holds.
    pub slot: Option<u32>,
}

/// What one stream codes to: the bits of its description and of its symbols, and the table.
#[verifier::ext_equal]
pub struct ClassCoded {
    pub description: Seq<bool>,
    pub payload: Seq<bool>,
    pub table: ClassTable,
    pub repeats: bool,
}

/// One stream coded under a table built for it, or the refusal.
pub open spec fn fresh_coded(coder: Coder, alphabet: Alphabet, symbols: Seq<u16>, share: u64)
    -> Result<ClassCoded, Error> {
    match table_for(coder, alphabet, symbols, share) {
        Err(error) => Err(error),
        Ok(table) => match table.payload(symbols) {
            Err(error) => Err(error),
            Ok(payload) => Ok(
                ClassCoded { description: table.description(), payload, table, repeats: false },
            ),
        },
    }
}

/// One stream coded under a table in force.
pub open spec fn repeat_coded(held: ClassTable, payload: Seq<bool>) -> ClassCoded {
    ClassCoded { description: Seq::empty(), payload, table: held, repeats: true }
}

/// The cheaper of a stream coded fresh and coded under the table in force: the second only where
/// its bits are fewer than the description and the payload of the first together.
pub open spec fn cheaper_coded(fresh: ClassCoded, held: Option<ClassTable>, symbols: Seq<u16>)
    -> Result<ClassCoded, Error> {
    match held {
        None => Ok(fresh),
        Some(held) => if !held.carries_all(symbols) {
            Ok(fresh)
        } else {
            match held.payload(symbols) {
                Err(error) => Err(error),
                Ok(payload) => if payload.len() >= least(
                    fresh.description.len() + fresh.payload.len(),
                    u64::MAX as nat,
                ) {
                    Ok(fresh)
                } else {
                    Ok(repeat_coded(held, payload))
                },
            }
        },
    }
}

impl Terms {
    /// Whether the caller named one stream outright.
    pub open spec fn names_stream(self, index: int) -> bool {
        self.repeat matches Some(mask) && mask@[index]
    }
}

/// What one stream of a block codes to under its terms, or the refusal. A stream without symbols
/// codes to nothing.
pub open spec fn stream_coded(
    tables: Seq<Option<ClassTable>>,
    terms: Terms,
    share: u64,
    symbols: Seq<u16>,
    index: int,
) -> Result<Option<ClassCoded>, Error> {
    let held = if terms.first_in_region {
        None
    } else {
        tables[index]
    };
    if symbols.len() == 0 {
        if terms.names_stream(index) {
            Err(Error::InvalidParameter)
        } else {
            Ok(None)
        }
    } else if terms.names_stream(index) {
        match held {
            None => Err(Error::InvalidParameter),
            Some(held) => match held.payload(symbols) {
                Err(error) => Err(error),
                Ok(payload) => Ok(Some(repeat_coded(held, payload))),
            },
        }
    } else {
        match fresh_coded(coder_at(index), alphabet_at(index), symbols, share) {
            Err(error) => Err(error),
            Ok(fresh) => if terms.repeat is Some {
                Ok(Some(fresh))
            } else {
                match cheaper_coded(fresh, held, symbols) {
                    Err(error) => Err(error),
                    Ok(chosen) => Ok(Some(chosen)),
                }
            },
        }
    }
}

/// The symbols of one stream.
pub open spec fn symbols_at(streams: StreamsShape, index: int) -> Seq<u16> {
    streams.stream(alphabet_at(index)).symbols
}

/// The suffix bits of one stream.
pub open spec fn suffix_at(streams: StreamsShape, index: int) -> Seq<bool> {
    streams.stream(alphabet_at(index)).suffix
}

/// What the first `count` streams of a block code to, or the first refusal.
pub open spec fn streams_coded(
    tables: Seq<Option<ClassTable>>,
    terms: Terms,
    share: u64,
    streams: StreamsShape,
    count: nat,
) -> Result<Seq<Option<ClassCoded>>, Error>
    decreases count,
{
    if count == 0 {
        Ok(Seq::empty())
    } else {
        match streams_coded(tables, terms, share, streams, (count - 1) as nat) {
            Err(error) => Err(error),
            Ok(codes) => match stream_coded(
                tables,
                terms,
                share,
                symbols_at(streams, count - 1),
                count - 1,
            ) {
                Err(error) => Err(error),
                Ok(code) => Ok(codes.push(code)),
            },
        }
    }
}

/// The bits of a stream's description.
pub open spec fn description_of(code: Option<ClassCoded>) -> Seq<bool> {
    match code {
        Some(code) => code.description,
        None => Seq::empty(),
    }
}

/// The bits of a stream's coded symbols.
pub open spec fn payload_of(code: Option<ClassCoded>) -> Seq<bool> {
    match code {
        Some(code) => code.payload,
        None => Seq::empty(),
    }
}

/// Whether a stream names the table in force for its class.
pub open spec fn repeats(code: Option<ClassCoded>) -> bool {
    code matches Some(code) && code.repeats
}

/// The table a stream builds.
pub open spec fn fresh_of(code: Option<ClassCoded>) -> Option<ClassTable> {
    match code {
        Some(code) => if code.repeats {
            None
        } else {
            Some(code.table)
        },
        None => None,
    }
}

/// The table memory of the first `count` streams of a block.
pub open spec fn coded_bytes(codes: Seq<Option<ClassCoded>>, count: nat) -> nat
    decreases count,
{
    if count == 0 {
        0
    } else {
        coded_bytes(codes, (count - 1) as nat) + match codes[count - 1] {
            Some(code) => code.table.table_bytes(),
            None => 0,
        }
    }
}

/// The mode field of the first `count` streams of a block.
pub open spec fn coded_mode(codes: Seq<Option<ClassCoded>>, count: nat) -> nat
    decreases count,
{
    if count == 0 {
        0
    } else {
        coded_mode(codes, (count - 1) as nat) + if repeats(codes[count - 1]) {
            mode_unit(count - 1)
        } else {
            0
        }
    }
}

/// What the prologue of a coded block declares.
pub open spec fn extents_of(streams: StreamsShape, codes: Seq<Option<ClassCoded>>) -> Extents {
    Extents {
        table_bytes: coded_bytes(codes, 4) as u64,
        mode: coded_mode(codes, 4) as u8,
        counts: Seq::new(4, |i: int| symbols_at(streams, i).len() as u64),
        description_bits: Seq::new(4, |i: int| description_of(codes[i]).len() as u64),
        payload_bits: Seq::new(4, |i: int| payload_of(codes[i]).len() as u64),
        suffix_bits: Seq::new(4, |i: int| suffix_at(streams, i).len() as u64),
    }
}

/// Sections one after another, each padded to a byte.
pub open spec fn packed_group(sections: Seq<Seq<bool>>) -> Seq<u8>
    decreases sections.len(),
{
    if sections.len() == 0 {
        Seq::empty()
    } else {
        packed_group(sections.drop_last()) + pack(sections.last())
    }
}

/// The body of a coded block: the descriptions, the payloads, and the suffixes.
pub open spec fn body_bytes(streams: StreamsShape, codes: Seq<Option<ClassCoded>>) -> Seq<u8> {
    packed_group(Seq::new(4, |i: int| description_of(codes[i]))) + packed_group(
        Seq::new(4, |i: int| payload_of(codes[i])),
    ) + packed_group(Seq::new(4, |i: int| suffix_at(streams, i)))
}

/// The histories one assembled block leaves, and what its streams did.
#[verifier::ext_equal]
pub struct AssemblyShape {
    pub fresh: Seq<Option<ClassTable>>,
    pub slot: Option<u32>,
    pub repeated: Seq<bool>,
}

/// The tables a coded block builds.
pub open spec fn fresh_seq(codes: Seq<Option<ClassCoded>>) -> Seq<Option<ClassTable>> {
    Seq::new(4, |i: int| fresh_of(codes[i]))
}

/// The payload one block's sequences assemble to and the histories it leaves, nothing where it
/// would not stay below its ceiling, or the refusal.
pub open spec fn assembled(state: EncoderState, plan: Plan, terms: Terms, limit: u64) -> Result<
    Option<(Seq<u8>, AssemblyShape)>,
    Error,
> {
    let streams = streams_of(plan, state.slot);
    if !codable(plan.steps) {
        Err(Error::InvalidParameter)
    } else {
        match streams_coded(state.tables, terms, (limit / TABLE_SHARES) as u64, streams, 4) {
            Err(error) => Err(error),
            Ok(codes) => {
                let fresh = fresh_seq(codes);
                let held = held_bytes(replaced(state.tables, fresh));
                let prologue = extents_of(streams, codes).wire(terms.first_in_region);
                let body = body_bytes(streams, codes);
                let stored = prologue.len() + body.len();
                if held > limit {
                    Err(Error::LimitExceeded { declared: held as u64, allowed: limit })
                } else if stored > usize::MAX {
                    Err(Error::InvalidParameter)
                } else if stored >= terms.ceiling {
                    Ok(None)
                } else {
                    Ok(
                        Some(
                            (
                                prologue + body,
                                AssemblyShape {
                                    fresh,
                                    slot: slot_after(plan.steps, state.slot),
                                    repeated: Seq::new(4, |i: int| repeats(codes[i])),
                                },
                            ),
                        ),
                    )
                }
            },
        }
    }
}

/// An encoder once it has taken the histories of an assembly.
pub open spec fn adopted(state: EncoderState, assembly: AssemblyShape) -> EncoderState {
    EncoderState { tables: replaced(state.tables, assembly.fresh), slot: assembly.slot }
}

/// The terms one block is assembled under.
#[derive(Clone, Copy, Debug, PartialEq, Eq)]
pub struct Terms {
    /// Whether this is the first block of its region, where the mode field is absent.
    pub first_in_region: bool,
    /// The streams that name the table already in force for their class, whatever it costs
    /// them, or `None` for the trigger that names one only when it spends fewer bits.
    ///
    /// No shipped path names a stream. The field exists so that a comparison which holds the
    /// trigger against every mask a block admits can assemble those masks.
    pub repeat: Option<[bool; 4]>,
    /// The stored length this block must stay below, which is the decoded size a decoder
    /// refuses a COMPRESSED block at.
    pub ceiling: usize,
}

impl Terms {
    /// Whether the caller named one stream outright.
    fn names(&self, stream: usize) -> (named: bool)
        requires
            stream < 4,
        ensures
            named == self.names_stream(stream as int),
    {
        match self.repeat {
            Some(mask) => mask[stream],
            None => false,
        }
    }
}

/// The two histories one assembled block leaves behind, and what its streams did.
///
/// An assembly is produced without changing the encoder that made it, so a caller that
/// assembles several candidates and emits one passes that one to `adopt` and drops the rest.
#[derive(Debug)]
pub struct Assembly {
    fresh: [Option<Built>; 4],
    cache: OffsetCache,
    repeated: [bool; 4],
}

/// The model of a table an encoder holds.
pub open spec fn built_model(slot: Option<Built>) -> Option<ClassTable> {
    match slot {
        Some(built) => Some(built@),
        None => None,
    }
}

/// Whether a slot holds a table of its class, or none.
pub open spec fn slot_wf(slot: Option<Built>, index: int) -> bool {
    slot matches Some(built) ==> built.wf() && built@.of_class(
        coder_at(index),
        alphabet_at(index),
    )
}

impl View for Assembly {
    type V = AssemblyShape;

    closed spec fn view(&self) -> AssemblyShape {
        AssemblyShape {
            fresh: Seq::new(4, |i: int| built_model(self.fresh@[i])),
            slot: self.cache@,
            repeated: self.repeated@,
        }
    }
}

impl Assembly {
    /// Whether every fresh table is one of its class.
    pub closed spec fn wf(&self) -> bool {
        forall|i: int| 0 <= i < 4 ==> slot_wf(#[trigger] self.fresh@[i], i)
    }

    /// The streams of this block that named the table already in force for their class.
    #[must_use]
    pub fn repeated(&self) -> (repeated: [bool; 4])
        ensures
            repeated@ == self@.repeated,
    {
        self.repeated
    }
}

/// One stream's coded form, and the table it was coded under.
#[derive(Debug)]
pub struct Coded {
    /// The description a decoder rebuilds the table from, or nothing for a table in force.
    pub description: BitBuf,
    /// The coded symbols.
    pub payload: BitBuf,
    /// The table the symbols were coded under.
    pub built: Built,
    /// Whether the stream names the table already in force for its class.
    pub repeats: bool,
}

impl View for Coded {
    type V = ClassCoded;

    open spec fn view(&self) -> ClassCoded {
        ClassCoded {
            description: self.description@,
            payload: self.payload@,
            table: self.built@,
            repeats: self.repeats,
        }
    }
}

impl Coded {
    /// Whether the buffers hold their bits and nothing else.
    pub open spec fn wf(&self) -> bool {
        &&& self.built.wf()
        &&& self.description.wf()
        &&& self.description.tight()
        &&& self.payload.wf()
        &&& self.payload.tight()
    }
}

/// The state an encoder carries across the blocks of one region.
#[derive(Debug)]
pub struct Encoder {
    /// The table in force for each class.
    pub tables: [Option<Built>; 4],
    /// The offset cache.
    pub cache: OffsetCache,
}

impl View for Encoder {
    type V = EncoderState;

    open spec fn view(&self) -> EncoderState {
        EncoderState {
            tables: Seq::new(4, |i: int| built_model(self.tables@[i])),
            slot: self.cache@,
        }
    }
}

/// What one block's four streams coded to.
struct Assembled {
    prologue: BlockPrologue,
    descriptions: Vec<BitBuf>,
    payloads: Vec<BitBuf>,
    suffixes: Vec<BitBuf>,
    fresh: [Option<Built>; 4],
    repeated: [bool; 4],
}

/// Whether buffers hold the bits of sections, one for one.
spec fn buffers_hold(buffers: Seq<BitBuf>, sections: Seq<Seq<bool>>) -> bool {
    &&& buffers.len() == sections.len()
    &&& forall|i: int|
        0 <= i < buffers.len() ==> (#[trigger] buffers[i])@ == sections[i] && buffers[i].wf()
            && buffers[i].tight()
}

impl Assembled {
    /// Whether this is what the first `count` streams coded to.
    spec fn holds(
        &self,
        streams: StreamsShape,
        codes: Seq<Option<ClassCoded>>,
        count: int,
    ) -> bool {
        &&& codes.len() == count
        &&& count <= 4
        &&& buffers_hold(self.descriptions@, Seq::new(count as nat, |i: int| description_of(codes[i])))
        &&& buffers_hold(self.payloads@, Seq::new(count as nat, |i: int| payload_of(codes[i])))
        &&& buffers_hold(self.suffixes@, Seq::new(count as nat, |i: int| suffix_at(streams, i)))
        &&& forall|i: int|
            0 <= i < 4 ==> slot_wf(#[trigger] self.fresh@[i], i) && built_model(self.fresh@[i])
                == (if i < count {
                fresh_of(codes[i])
            } else {
                None
            })
        &&& forall|i: int|
            0 <= i < 4 ==> #[trigger] self.repeated@[i] == (i < count && repeats(codes[i]))
        &&& self.prologue@.table_bytes == coded_bytes(codes, count as nat)
        &&& self.prologue@.mode == coded_mode(codes, count as nat)
        &&& coded_bytes(codes, count as nat) <= 65_536 * count
        &&& coded_mode(codes, count as nat) < pow2(count as nat)
        &&& forall|i: int|
            0 <= i < count ==> #[trigger] self.prologue@.counts[i] == symbols_at(streams, i).len()
        &&& forall|i: int|
            0 <= i < count ==> #[trigger] self.prologue@.description_bits[i] == description_of(
                codes[i],
            ).len()
        &&& forall|i: int|
            0 <= i < count ==> #[trigger] self.prologue@.payload_bits[i] == payload_of(
                codes[i],
            ).len()
        &&& forall|i: int|
            0 <= i < count ==> #[trigger] self.prologue@.suffix_bits[i] == suffix_at(
                streams,
                i,
            ).len()
    }
}

impl Encoder {
    /// Whether every table in force is one of its class.
    pub open spec fn wf(&self) -> bool {
        forall|i: int| 0 <= i < 4 ==> slot_wf(#[trigger] self.tables@[i], i)
    }

    /// The tables in force are valid ones of their classes.
    pub proof fn lemma_tables_valid(&self)
        requires
            self.wf(),
        ensures
            crate::block::laws::tables_valid(self@.tables),
    {
        assert forall|i: int| 0 <= i < 4 implies (#[trigger] self@.tables[i] matches Some(table)
            ==> table.valid() && table.of_class(coder_at(i), alphabet_at(i))) by {
            assert(slot_wf(self.tables@[i], i));
            if let Some(built) = self.tables@[i] {
                built.lemma_wf();
            }
        }
    }

    /// The state a region starts in: no table in force, and an unset offset slot.
    #[must_use]
    pub fn at_region_start() -> (encoder: Self)
        ensures
            encoder.wf(),
            encoder@ == (EncoderState { tables: no_tables(), slot: None }),
    {
        let encoder = Encoder { tables: [None, None, None, None], cache: OffsetCache::reset() };
        proof {
            assert(encoder@.tables =~= no_tables());
        }
        encoder
    }

    /// The bytes a decoder allocates for the tables this encoder holds in force.
    ///
    /// The encoder itself never allocates them; the figure is what the blocks it writes ask a
    /// decoder for.
    #[must_use]
    pub fn table_bytes(&self) -> (bytes: u64)
        requires
            self.wf(),
        ensures
            bytes as nat == held_bytes(self@.tables),
    {
        self.slot_bytes(0) + self.slot_bytes(1) + self.slot_bytes(2) + self.slot_bytes(3)
    }

    /// The bytes a decoder allocates for one table in force.
    fn slot_bytes(&self, index: usize) -> (bytes: u64)
        requires
            self.wf(),
            index < 4,
        ensures
            bytes as nat == table_bytes_of(self@.tables[index as int]),
            bytes <= 65_536,
    {
        proof {
            assert(self.tables@[index as int] == self.tables[index as int]);
        }
        match &self.tables[index] {
            Some(built) => {
                proof {
                    built.lemma_wf();
                    super::lemma_table_bytes(built@);
                }
                built.table_bytes()
            },
            None => 0,
        }
    }

    /// Discards both histories, which is what a region boundary does to them.
    pub fn reset(&mut self)
        ensures
            final(self).wf(),
            final(self)@ == (EncoderState { tables: no_tables(), slot: None }),
    {
        *self = Self::at_region_start();
    }

    /// Assembles the payload of one COMPRESSED block into `out`, leaving this encoder unmoved.
    ///
    /// `out` is cleared and filled with the block's stored payload. Nothing here changes the
    /// two histories: the caller decides whether this block is the one it emits, and a block
    /// it discards must leave no trace, because a decoder never sees a candidate. `adopt`
    /// takes the returned assembly when the caller emits it.
    ///
    /// `terms.repeat` states how a stream may name the table already in force for its class.
    /// Which streams do is the encoder's choice and not the format's; what the format decides
    /// is that a block may carry no description for such a stream.
    ///
    /// `ceiling` is the stored length this block must stay below, which is the decoded size a
    /// decoder refuses a COMPRESSED block at. An assembly that does not is answered with
    /// `None` and nothing is written, so `out` never holds more than `ceiling` bytes.
    ///
    /// Each class may spend a quarter of the policy ceiling on its table, so the four tables
    /// this encoder holds stay inside the ceiling whichever streams a block carries.
    ///
    /// Refuses with `InvalidParameter` a stream named to repeat a table that cannot code it or
    /// that no block has built, and anything the first block of a region is named to repeat.
    /// Refuses with `LimitExceeded` a table that does not fit its share of the ceiling, which is
    /// the block the caller emits under another type.
    pub fn assemble_into(
        &self,
        sequences: &Sequences,
        terms: Terms,
        policy: &DecoderPolicy,
        out: &mut Vec<u8>,
    ) -> (made: Result<Option<Assembly>, Error>)
        requires
            self.wf(),
        ensures
            match assembled(self@, sequences@, terms, policy.table_limit()) {
                Err(error) => made == Err::<Option<Assembly>, Error>(error) && final(out)@ == old(
                    out)@,
                Ok(None) => made matches Ok(None) && final(out)@ == old(out)@,
                Ok(Some((payload, shape))) => made matches Ok(Some(assembly)) && assembly@ == shape
                    && assembly.wf() && final(out)@ == payload,
            },
    {
        let mut cache: OffsetCache = self.cache;
        let streams = match Streams::of(sequences, &mut cache) {
            Ok(streams) => streams,
            Err(error) => {
                return Err(error);
            },
        };
        let share: u64 = policy.max_table_bytes() / TABLE_SHARES;
        let parts = match self.code(&streams, terms, share) {
            Ok(parts) => parts,
            Err(error) => {
                return Err(error);
            },
        };
        let ghost codes = streams_coded(self@.tables, terms, share, streams@, 4)->Ok_0;
        let held: u64 = self.held_after(&parts.fresh);
        proof {
            let models = Seq::new(4, |i: int| built_model(parts.fresh@[i]));
            assert(models =~= fresh_seq(codes));
        }
        match policy.admit_table_bytes(held) {
            Ok(_) => {},
            Err(error) => {
                return Err(error);
            },
        }
        let prologue = parts.prologue.encode(terms.first_in_region);
        proof {
            lemma_parts(&parts, streams@, codes);
        }
        let body: usize = match parts.prologue.body_bytes() {
            Some(bytes) => {
                if bytes > usize::MAX as u64 {
                    return Err(Error::InvalidParameter);
                }
                bytes as usize
            },
            None => {
                return Err(Error::InvalidParameter);
            },
        };
        let stored: usize = match prologue.len().checked_add(body) {
            Some(stored) => stored,
            None => {
                return Err(Error::InvalidParameter);
            },
        };
        if stored >= terms.ceiling {
            return Ok(None);
        }
        out.clear();
        out.extend_from_slice(prologue.as_bytes());
        append_group(out, &parts.descriptions);
        append_group(out, &parts.payloads);
        append_group(out, &parts.suffixes);
        let assembly = Assembly { fresh: parts.fresh, cache, repeated: parts.repeated };
        proof {
            assert(assembly@.fresh =~= fresh_seq(codes));
            assert(assembly@.repeated =~= Seq::new(4, |i: int| repeats(codes[i])));
            assert(out@ =~= extents_of(streams@, codes).wire(terms.first_in_region) + body_bytes(
                streams@,
                codes,
            ));
        }
        Ok(Some(assembly))
    }

    /// The bytes of the tables in force once a block's fresh tables replace the ones they name.
    fn held_after(&self, fresh: &[Option<Built>; 4]) -> (bytes: u64)
        requires
            self.wf(),
            forall|i: int| 0 <= i < 4 ==> slot_wf(#[trigger] fresh@[i], i),
        ensures
            bytes as nat == held_bytes(
                replaced(self@.tables, Seq::new(4, |i: int| built_model(fresh@[i]))),
            ),
    {
        self.slot_after_bytes(fresh, 0) + self.slot_after_bytes(fresh, 1) + self.slot_after_bytes(
            fresh,
            2,
        ) + self.slot_after_bytes(fresh, 3)
    }

    /// The bytes of one table once a block's fresh table replaces it.
    fn slot_after_bytes(&self, fresh: &[Option<Built>; 4], index: usize) -> (bytes: u64)
        requires
            self.wf(),
            index < 4,
            forall|i: int| 0 <= i < 4 ==> slot_wf(#[trigger] fresh@[i], i),
        ensures
            bytes as nat == table_bytes_of(
                replaced(self@.tables, Seq::new(4, |i: int| built_model(fresh@[i])))[index as int],
            ),
            bytes <= 65_536,
    {
        proof {
            assert(slot_wf(fresh@[index as int], index as int));
            assert(fresh@[index as int] == fresh[index as int]);
        }
        match &fresh[index] {
            Some(built) => {
                proof {
                    built.lemma_wf();
                    super::lemma_table_bytes(built@);
                }
                built.table_bytes()
            },
            None => self.slot_bytes(index),
        }
    }

    /// Takes the two histories of an assembly this encoder produced and the caller emitted.
    ///
    /// A block that was assembled and not emitted is never adopted, because a decoder that
    /// never saw it rebuilds neither history from it.
    pub fn adopt(&mut self, assembly: Assembly)
        requires
            old(self).wf(),
            assembly.wf(),
        ensures
            final(self).wf(),
            final(self)@ == adopted(old(self)@, assembly@),
    {
        let ghost start = self@;
        let mut index: usize = 0;
        while index < 4
            invariant
                index <= 4,
                self.wf(),
                assembly.wf(),
                self@.slot == start.slot,
                forall|i: int|
                    0 <= i < 4 ==> #[trigger] self@.tables[i] == (if i < index
                        && assembly@.fresh[i] is Some {
                        assembly@.fresh[i]
                    } else {
                        start.tables[i]
                    }),
            decreases 4 - index,
        {
            proof {
                assert(slot_wf(assembly.fresh@[index as int], index as int));
                assert(assembly.fresh@[index as int] == assembly.fresh[index as int]);
            }
            match &assembly.fresh[index] {
                Some(built) => {
                    let ghost before = *self;
                    let copy = built.clone();
                    self.tables[index] = Some(copy);
                    proof {
                        assert forall|i: int| 0 <= i < 4 implies #[trigger] self.tables@[i] == (if i
                            == index {
                            Some(copy)
                        } else {
                            before.tables@[i]
                        }) by {}
                        assert forall|i: int| 0 <= i < 4 implies #[trigger] self@.tables[i] == (if i
                            == index {
                            Some(copy@)
                        } else {
                            before@.tables[i]
                        }) by {
                            assert(self.tables@[i] == if i == index {
                                Some(copy)
                            } else {
                                before.tables@[i]
                            });
                        }
                    }
                },
                None => {},
            }
            index = index + 1;
        }
        let ghost done = self@.tables;
        proof {
            assert(done =~= replaced(start.tables, assembly@.fresh));
        }
        self.cache = assembly.cache;
        proof {
            assert(self@.tables =~= done);
        }
    }

    /// One stream coded under a table built for it, with the description that rebuilds it.
    ///
    /// Returns the histogram the table was built over alongside the coded stream, so the reuse
    /// decision that follows reads the same counts without a second pass.
    pub fn fresh(coder: Coder, alphabet: Alphabet, symbols: &[u16], share: u64) -> (made: Result<
        (Coded, Vec<u64>),
        Error,
    >)
        ensures
            match fresh_coded(coder, alphabet, symbols@, share) {
                Ok(code) => made matches Ok((coded, counts)) && coded@ == code && coded.wf()
                    && counts@ == histogram(symbols@, alphabet.symbols()) && counted(
                    counts@,
                    symbols@,
                ) && coded.built@.of_class(coder, alphabet),
                Err(error) => made == Err::<(Coded, Vec<u64>), Error>(error),
            },
    {
        let (built, counts) = match build(coder, alphabet, symbols, share) {
            Ok(made) => made,
            Err(error) => {
                return Err(error);
            },
        };
        let description = built.describe();
        let payload = match built.write(symbols) {
            Ok(payload) => payload,
            Err(error) => {
                return Err(error);
            },
        };
        proof {
            lemma_table_for_class(coder, alphabet, symbols@, share);
        }
        Ok((Coded { description, payload, built, repeats: false }, counts))
    }

    /// The cheaper of coding a stream fresh and coding it under the table in force.
    ///
    /// The trigger is self-financing and it is per stream: a stream names the table in force
    /// only when the bits it then spends are fewer than the description and the payload a
    /// fresh table would cost together. The mode field is not on either side of the
    /// comparison, because a block that is not the first of its region carries it whether or
    /// not a bit of it is set.
    ///
    /// A literal-byte stream costs its held table analytically from the counts the fresh table
    /// was built over, which is exactly what a trial encode would report, so a fresh win skips
    /// the held encode and its buffer. Every other class runs the exact production trial.
    pub fn cheaper(
        fresh: Coded,
        counts: &[u64],
        in_force: Option<&Built>,
        symbols: &[u16],
    ) -> (chosen: Result<Coded, Error>)
        requires
            in_force matches Some(held) ==> held.wf() && (held@ matches ClassTable::Huffman(shape)
                ==> counts@.len() == shape.lengths.len()),
            counted(counts@, symbols@),
        ensures
            match cheaper_coded(
                fresh@,
                match in_force {
                    Some(held) => Some(held@),
                    None => None,
                },
                symbols@,
            ) {
                Ok(code) => chosen matches Ok(coded) && coded@ == code && (fresh.wf()
                    ==> coded.wf()),
                Err(error) => chosen == Err::<Coded, Error>(error),
            },
    {
        let held: &Built = match in_force {
            Some(held) => held,
            None => {
                return Ok(fresh);
            },
        };
        if !held.carries(symbols) {
            return Ok(fresh);
        }
        proof {
            fresh.description.lemma_view();
            fresh.payload.lemma_view();
        }
        let spent: u64 = fresh.description.bits().saturating_add(fresh.payload.bits());
        if let Built::Huffman(code) = held {
            if symbols.len() as u64 > u64::MAX / LENGTH_LIMIT as u64 {
                return Err(Error::InvalidParameter);
            }
            proof {
                code.lemma_wf();
                law_cost_is_what_is_spelled(code@, symbols@, counts@);
                crate::entropy::huffman::laws::lemma_spell_len(code@, symbols@);
                lemma_counted_carries(code@, symbols@, counts@);
            }
            match code.encoded_bits_for_counts(counts) {
                Ok(bits) => {
                    if bits >= spent {
                        return Ok(fresh);
                    }
                },
                Err(error) => {
                    return Err(error);
                },
            }
        }
        let payload = match held.write(symbols) {
            Ok(payload) => payload,
            Err(error) => {
                return Err(error);
            },
        };
        proof {
            payload.lemma_view();
        }
        if payload.bits() >= spent {
            return Ok(fresh);
        }
        let chosen = Coded {
            description: BitBuf::default(),
            payload,
            built: held.clone(),
            repeats: true,
        };
        Ok(chosen)
    }

    /// Codes the four streams and declares what each one spent.
    fn code(&self, streams: &Streams, terms: Terms, share: u64) -> (made: Result<Assembled, Error>)
        requires
            self.wf(),
            streams.tight(),
        ensures
            match streams_coded(self@.tables, terms, share, streams@, 4) {
                Ok(codes) => made matches Ok(parts) && parts.holds(streams@, codes, 4),
                Err(error) => made matches Err(told) && told == error,
            },
    {
        let mut parts = Assembled {
            prologue: BlockPrologue::default(),
            descriptions: Vec::new(),
            payloads: Vec::new(),
            suffixes: Vec::new(),
            fresh: [None, None, None, None],
            repeated: [false, false, false, false],
        };
        let ghost mut codes: Seq<Option<ClassCoded>> = Seq::empty();
        let mut index: usize = 0;
        proof {
            lemma2_to64();
            assert forall|i: int| 0 <= i < 4 implies (#[trigger] parts.fresh@[i]) is None by {}
            assert forall|i: int| 0 <= i < 4 implies !(#[trigger] parts.repeated@[i]) by {}
        }
        while index < 4
            invariant
                index <= 4,
                self.wf(),
                streams.tight(),
                streams_coded(self@.tables, terms, share, streams@, index as nat) == Ok::<
                    Seq<Option<ClassCoded>>,
                    Error,
                >(codes),
                parts.holds(streams@, codes, index as int),
            decreases 4 - index,
        {
            proof {
                lemma_coded_refusal(self@.tables, terms, share, streams@, index as nat + 1, 4);
            }
            let alphabet: Alphabet = match class_of(index) {
                Ok((_, alphabet)) => alphabet,
                Err(error) => {
                    return Err(error);
                },
            };
            let stream = streams.stream(alphabet);
            let code = match self.code_stream(stream.symbols(), terms, share, index) {
                Ok(code) => code,
                Err(error) => {
                    return Err(error);
                },
            };
            let ghost model = coded_model(code);
            proof {
                assert(streams.buffer(alphabet).wf());
            }
            parts.take(
                stream.symbols().len(),
                stream.suffix().clone(),
                code,
                index,
                Ghost(streams@),
                Ghost(codes),
            );
            proof {
                codes = codes.push(model);
            }
            index = index + 1;
        }
        Ok(parts)
    }

    /// Codes one stream under its terms, or nothing for a stream without symbols.
    fn code_stream(&self, symbols: &[u16], terms: Terms, share: u64, index: usize) -> (made: Result<
        Option<Coded>,
        Error,
    >)
        requires
            self.wf(),
            index < 4,
        ensures
            match stream_coded(self@.tables, terms, share, symbols@, index as int) {
                Ok(model) => made matches Ok(code) && coded_model(code) == model && coded_wf(
                    code,
                    index as int,
                ),
                Err(error) => made == Err::<Option<Coded>, Error>(error),
            },
    {
        let named: bool = terms.names(index);
        if symbols.len() == 0 {
            if named {
                return Err(Error::InvalidParameter);
            }
            return Ok(None);
        }
        proof {
            assert(slot_wf(self.tables@[index as int], index as int));
            assert(self.tables@[index as int] == self.tables[index as int]);
        }
        let in_force: Option<&Built> = if terms.first_in_region {
            None
        } else {
            self.tables[index].as_ref()
        };
        if named {
            let held: &Built = match in_force {
                Some(held) => held,
                None => {
                    return Err(Error::InvalidParameter);
                },
            };
            let payload = match held.write(symbols) {
                Ok(payload) => payload,
                Err(error) => {
                    return Err(error);
                },
            };
            return Ok(
                Some(
                    Coded {
                        description: BitBuf::default(),
                        payload,
                        built: held.clone(),
                        repeats: true,
                    },
                ),
            );
        }
        let (coder, alphabet) = match class_of(index) {
            Ok(class) => class,
            Err(error) => {
                return Err(error);
            },
        };
        let (fresh, counts) = match Self::fresh(coder, alphabet, symbols, share) {
            Ok(made) => made,
            Err(error) => {
                return Err(error);
            },
        };
        if terms.repeat.is_some() {
            return Ok(Some(fresh));
        }
        match Self::cheaper(fresh, counts.as_slice(), in_force, symbols) {
            Ok(chosen) => Ok(Some(chosen)),
            Err(error) => Err(error),
        }
    }
}

/// The model of a coded stream.
spec fn coded_model(code: Option<Coded>) -> Option<ClassCoded> {
    match code {
        Some(code) => Some(code@),
        None => None,
    }
}

/// Whether a coded stream's buffers and table are what their class needs.
spec fn coded_wf(code: Option<Coded>, index: int) -> bool {
    code matches Some(code) ==> code.wf() && code.built@.of_class(
        coder_at(index),
        alphabet_at(index),
    )
}

/// Whether counts are how often each symbol occurs in a stream.
pub open spec fn counted(counts: Seq<u64>, symbols: Seq<u16>) -> bool {
    forall|s: int| 0 <= s < counts.len() ==> #[trigger] counts[s] as nat == occurrences(symbols, s)
}

/// A symbol that occurs is one of the stream.
proof fn lemma_occurs(symbols: Seq<u16>, symbol: int) -> (at: int)
    requires
        occurrences(symbols, symbol) > 0,
    ensures
        0 <= at < symbols.len(),
        symbols[at] == symbol,
    decreases symbols.len(),
{
    if symbols.last() == symbol {
        symbols.len() - 1
    } else {
        lemma_occurs(symbols.drop_last(), symbol)
    }
}

/// A symbol of the stream occurs.
pub proof fn lemma_occurs_at(symbols: Seq<u16>, at: int)
    requires
        0 <= at < symbols.len(),
    ensures
        occurrences(symbols, symbols[at] as int) > 0,
    decreases symbols.len(),
{
    if at < symbols.len() - 1 {
        lemma_occurs_at(symbols.drop_last(), at);
    }
}

/// A code that carries a stream carries every symbol the stream counts.
proof fn lemma_counted_carries(
    shape: crate::entropy::huffman::CodeShape,
    symbols: Seq<u16>,
    counts: Seq<u64>,
)
    requires
        shape.carries_all(symbols),
        counted(counts, symbols),
        counts.len() <= 65_536,
    ensures
        forall|s: int|
            0 <= s < counts.len() && #[trigger] counts[s] > 0 ==> shape.carries(s as u16),
{
    assert forall|s: int| 0 <= s < counts.len() && #[trigger] counts[s] > 0 implies shape.carries(
        s as u16,
    ) by {
        let at = lemma_occurs(symbols, s);
        assert(shape.carries(symbols[at]));
    }
}

/// A table built for a class is one of the class.
pub proof fn lemma_table_for_class(coder: Coder, alphabet: Alphabet, symbols: Seq<u16>, share: u64)
    ensures
        table_for(coder, alphabet, symbols, share) matches Ok(table) ==> table.of_class(
            coder,
            alphabet,
        ),
{
    let counts = histogram(symbols, alphabet.symbols());
    if let Ok(table) = table_for(coder, alphabet, symbols, share) {
        match coder {
            Coder::Huffman => {},
            Coder::Rans { states } => {
                law_normalized_table_keeps_every_symbol(counts, alphabet.symbols() as u32);
            },
        }
    }
}

proof fn lemma_coded_refusal(
    tables: Seq<Option<ClassTable>>,
    terms: Terms,
    share: u64,
    streams: StreamsShape,
    count: nat,
    total: nat,
)
    requires
        count <= total,
    ensures
        streams_coded(tables, terms, share, streams, count) matches Err(error) ==> streams_coded(
            tables,
            terms,
            share,
            streams,
            total,
        ) == Err::<Seq<Option<ClassCoded>>, Error>(error),
    decreases total,
{
    if count < total {
        lemma_coded_refusal(tables, terms, share, streams, count, (total - 1) as nat);
    }
}

/// What one more stream adds to the table memory and the mode of a block.
proof fn lemma_codes_push(
    codes: Seq<Option<ClassCoded>>,
    code: Option<ClassCoded>,
    count: nat,
)
    requires
        codes.len() == count,
    ensures
        coded_bytes(codes.push(code), count + 1) == coded_bytes(codes, count) + match code {
            Some(code) => code.table.table_bytes(),
            None => 0,
        },
        coded_mode(codes.push(code), count + 1) == coded_mode(codes, count) + if repeats(code) {
            mode_unit(count as int)
        } else {
            0
        },
{
    lemma_codes_prefix(codes, code, count);
}

proof fn lemma_codes_prefix(
    codes: Seq<Option<ClassCoded>>,
    code: Option<ClassCoded>,
    count: nat,
)
    requires
        count <= codes.len(),
    ensures
        coded_bytes(codes.push(code), count) == coded_bytes(codes, count),
        coded_mode(codes.push(code), count) == coded_mode(codes, count),
    decreases count,
{
    if count > 0 {
        lemma_codes_prefix(codes, code, (count - 1) as nat);
    }
}

/// What the parts of a block say of its prologue and its body.
proof fn lemma_parts(parts: &Assembled, streams: StreamsShape, codes: Seq<Option<ClassCoded>>)
    requires
        parts.holds(streams, codes, 4),
    ensures
        parts.prologue@ == extents_of(streams, codes),
        extents_of(streams, codes).body() == body_bytes(streams, codes).len(),
        Seq::new(parts.descriptions@.len(), |i: int| parts.descriptions@[i]@) == Seq::new(
            4,
            |i: int| description_of(codes[i]),
        ),
        Seq::new(parts.payloads@.len(), |i: int| parts.payloads@[i]@) == Seq::new(
            4,
            |i: int| payload_of(codes[i]),
        ),
        Seq::new(parts.suffixes@.len(), |i: int| parts.suffixes@[i]@) == Seq::new(
            4,
            |i: int| suffix_at(streams, i),
        ),
{
    lemma2_to64();
    let extents = extents_of(streams, codes);
    assert(parts.prologue@.counts =~= extents.counts);
    assert(parts.prologue@.description_bits =~= extents.description_bits);
    assert(parts.prologue@.payload_bits =~= extents.payload_bits);
    assert(parts.prologue@.suffix_bits =~= extents.suffix_bits);
    let d = Seq::new(4, |i: int| description_of(codes[i]));
    let p = Seq::new(4, |i: int| payload_of(codes[i]));
    let f = Seq::new(4, |i: int| suffix_at(streams, i));
    assert(Seq::new(parts.descriptions@.len(), |i: int| parts.descriptions@[i]@) =~= d);
    assert(Seq::new(parts.payloads@.len(), |i: int| parts.payloads@[i]@) =~= p);
    assert(Seq::new(parts.suffixes@.len(), |i: int| parts.suffixes@[i]@) =~= f);
    assert forall|i: int| 0 <= i < 4 implies (#[trigger] d[i]).len() == extents.description_bits[i]
        && p[i].len() == extents.payload_bits[i] && f[i].len() == extents.suffix_bits[i] by {
        assert(parts.prologue@.description_bits[i] == d[i].len());
        assert(parts.prologue@.payload_bits[i] == p[i].len());
        assert(parts.prologue@.suffix_bits[i] == f[i].len());
    }
    lemma_group_len(d, extents.description_bits);
    lemma_group_len(p, extents.payload_bits);
    lemma_group_len(f, extents.suffix_bits);
}

/// A group of sections occupies the bytes its extents declare.
pub proof fn lemma_group_len(sections: Seq<Seq<bool>>, bits: Seq<u64>)
    requires
        sections.len() == bits.len(),
        forall|i: int| 0 <= i < bits.len() ==> (#[trigger] sections[i]).len() == bits[i],
    ensures
        packed_group(sections).len() == padded(bits),
    decreases sections.len(),
{
    if sections.len() > 0 {
        let less = sections.drop_last();
        let fewer = bits.drop_last();
        assert forall|i: int| 0 <= i < fewer.len() implies (#[trigger] less[i]).len()
            == fewer[i] by {
            assert(sections[i].len() == bits[i]);
        }
        lemma_group_len(less, fewer);
        lemma_pack(sections.last());
        assert(sections[sections.len() - 1].len() == bits[bits.len() - 1]);
    }
}

/// Appends the bytes of every section of a group.
fn append_group(out: &mut Vec<u8>, sections: &Vec<BitBuf>)
    requires
        forall|i: int| 0 <= i < sections@.len() ==> (#[trigger] sections@[i]).tight(),
    ensures
        final(out)@ == old(out)@ + packed_group(
            Seq::new(sections@.len(), |i: int| sections@[i]@),
        ),
{
    let ghost start = out@;
    let ghost all = Seq::new(sections@.len(), |i: int| sections@[i]@);
    let mut at: usize = 0;
    proof {
        assert(all.take(0) =~= Seq::empty());
        assert(start + packed_group(all.take(0)) =~= start);
    }
    while at < sections.len()
        invariant
            at <= sections@.len(),
            all == Seq::new(sections@.len(), |i: int| sections@[i]@),
            forall|i: int| 0 <= i < sections@.len() ==> (#[trigger] sections@[i]).tight(),
            out@ == start + packed_group(all.take(at as int)),
        decreases sections@.len() - at,
    {
        out.extend_from_slice(sections[at].bytes());
        proof {
            let next = all.take(at + 1);
            assert(next.drop_last() =~= all.take(at as int));
            assert(next.last() == sections@[at as int]@);
            assert(out@ =~= start + packed_group(next));
        }
        at = at + 1;
    }
    proof {
        assert(all.take(at as int) =~= all);
    }
}

impl Assembled {
    /// Takes what one more stream coded to.
    fn take(
        &mut self,
        count: usize,
        suffix: BitBuf,
        code: Option<Coded>,
        index: usize,
        Ghost(streams): Ghost<StreamsShape>,
        Ghost(codes): Ghost<Seq<Option<ClassCoded>>>,
    )
        requires
            index < 4,
            old(self).holds(streams, codes, index as int),
            count == symbols_at(streams, index as int).len(),
            suffix@ == suffix_at(streams, index as int),
            suffix.wf(),
            suffix.tight(),
            coded_wf(code, index as int),
        ensures
            final(self).holds(streams, codes.push(coded_model(code)), index + 1),
    {
        let ghost before = *self;
        let ghost model = coded_model(code);
        let ghost next = codes.push(model);
        proof {
            lemma_codes_push(codes, model, index as nat);
            suffix.lemma_view();
            lemma2_to64();
        }
        self.prologue.counts[index] = count as u64;
        self.prologue.suffix_bits[index] = suffix.bits();
        self.suffixes.push(suffix);
        match code {
            None => {
                self.prologue.description_bits[index] = 0;
                self.prologue.payload_bits[index] = 0;
                self.descriptions.push(BitBuf::default());
                self.payloads.push(BitBuf::default());
            },
            Some(coded) => {
                proof {
                    coded.description.lemma_view();
                    coded.payload.lemma_view();
                    coded.built.lemma_wf();
                    super::lemma_table_bytes(coded.built@);
                }
                self.prologue.description_bits[index] = coded.description.bits();
                self.prologue.payload_bits[index] = coded.payload.bits();
                self.prologue.table_bytes = self.prologue.table_bytes + coded.built.table_bytes();
                self.descriptions.push(coded.description);
                self.payloads.push(coded.payload);
                if coded.repeats {
                    let mask: u8 = match mode_mask(index) {
                        Ok(mask) => mask,
                        Err(_) => 0,
                    };
                    self.prologue.mode = self.prologue.mode + mask;
                    self.repeated[index] = true;
                } else {
                    self.fresh[index] = Some(coded.built);
                }
            },
        }
        proof {
            let count = index + 1;
            assert(buffers_hold(
                self.suffixes@,
                Seq::new(count as nat, |i: int| suffix_at(streams, i)),
            ));
            assert forall|i: int| 0 <= i < self.descriptions@.len() implies (
            #[trigger] self.descriptions@[i])@ == description_of(next[i])
                && self.descriptions@[i].wf() && self.descriptions@[i].tight() by {
                if i < index {
                    assert(self.descriptions@[i] == before.descriptions@[i]);
                    assert(next[i] == codes[i]);
                }
            }
            assert forall|i: int| 0 <= i < self.payloads@.len() implies (
            #[trigger] self.payloads@[i])@ == payload_of(next[i]) && self.payloads@[i].wf()
                && self.payloads@[i].tight() by {
                if i < index {
                    assert(self.payloads@[i] == before.payloads@[i]);
                    assert(next[i] == codes[i]);
                }
            }
            assert forall|i: int| 0 <= i < 4 implies slot_wf(#[trigger] self.fresh@[i], i)
                && built_model(self.fresh@[i]) == (if i < count {
                fresh_of(next[i])
            } else {
                None
            }) by {
                assert(slot_wf(before.fresh@[i], i));
                if i != index {
                    assert(self.fresh@[i] == before.fresh@[i]);
                }
            }
            assert forall|i: int| 0 <= i < 4 implies #[trigger] self.repeated@[i] == (i < count
                && repeats(next[i])) by {
                assert(before.repeated@[i] == (i < index && repeats(codes[i])));
            }
            assert forall|i: int| 0 <= i < count implies #[trigger] self.prologue@.counts[i]
                == symbols_at(streams, i).len() by {
                if i < index {
                    assert(before.prologue@.counts[i] == symbols_at(streams, i).len());
                }
            }
            assert forall|i: int| 0 <= i < count implies #[trigger] self.prologue@.suffix_bits[i]
                == suffix_at(streams, i).len() by {
                if i < index {
                    assert(before.prologue@.suffix_bits[i] == suffix_at(streams, i).len());
                }
            }
            assert forall|i: int|
                0 <= i < count implies #[trigger] self.prologue@.description_bits[i]
                == description_of(next[i]).len() by {
                if i < index {
                    assert(before.prologue@.description_bits[i] == description_of(codes[i]).len());
                }
            }
            assert forall|i: int| 0 <= i < count implies #[trigger] self.prologue@.payload_bits[i]
                == payload_of(next[i]).len() by {
                if i < index {
                    assert(before.prologue@.payload_bits[i] == payload_of(codes[i]).len());
                }
            }
        }
    }
}

} // verus!
