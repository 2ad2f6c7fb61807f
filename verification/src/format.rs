//! Owns the format contract: the frame, region, and block structure, the declared limits a
//! decoder inspects, and the validated types a decoded field becomes.
//!
//! This module does not own encoder policy, decoder execution, or entropy table layout.
//!
//! Parsing allocates nothing. A decoded header is a fixed-size value and a decoded payload
//! stays a borrow of the caller's input, so a length read from a stream can never size an
//! allocation before the boundary that owns the field has validated it.
//!
//! Every multi-byte field is little-endian, and every one is read and written by explicit
//! byte position.
//!
//! A frame is a header, then a sequence of tagged records, then nothing more:
//!
//! ```text
//! frame header          the parameters and the declared limits of the whole object
//! record tag 0x01       a region header, then the blocks the region holds
//! record tag 0x00       the terminator, which ends the frame
//! ```
//!
//! Reserved capacity is split by meaning, and the split is fixed at version 1. A set bit in
//! reject-reserved space is corruption. A set bit in ignore-reserved space that this version
//! does not define is a well-formed feature this build does not implement, and the two carry
//! different errors so a caller can tell them apart.

pub mod laws;
pub mod layout;
pub mod message;
pub mod prologue;
pub mod wire;

use vstd::prelude::*;
use vstd::arithmetic::power2::lemma2_to64;
use crate::entropy::MAX_BLOCK_TABLE_BYTES;
pub use prologue::{
    BlockPrologue, StreamExtents, BLOCK_MODEL_V1, BLOCK_STREAMS, LITERAL_BYTE_STREAM,
    LITERAL_RUN_STREAM, MATCH_DISTANCE_STREAM, MATCH_LENGTH_STREAM, PROLOGUE_MAX_BYTES,
};
pub use wire::{byte_of, Encoded};
use wire::{field, le, lemma_le_len, lemma_le_of_value, Reader, Writer};

verus! {

/// The first four bytes of every frame, stored little-endian as `E7 51 B3 2A`.
///
/// The value avoids a trivial pattern, carries byte values outside the ASCII range, and is
/// not a valid UTF-8 sequence, so a frame is identifiable by inspection.
pub const MAGIC: u32 = 0x2AB3_51E7;

/// The only major version this build decodes.
pub const MAJOR_VERSION: u8 = 1;

/// The bytes every frame header carries, before any optional field.
pub const FRAME_HEADER_FIXED_BYTES: usize = 16;

/// The bytes the widest frame header occupies.
pub const FRAME_HEADER_MAX_BYTES: usize = 36;

/// The bytes a region header carries, before its integrity field.
pub const REGION_HEADER_FIXED_BYTES: usize = 16;

/// The bytes the widest region header occupies, without its record tag.
pub const REGION_HEADER_MAX_BYTES: usize = 24;

/// The bytes the widest record occupies, tag included.
pub const RECORD_MAX_BYTES: usize = 25;

/// The width of the integrity field a region header carries when the frame declares one.
///
/// The field is reserved at this width and nothing computes it. The algorithm and the bytes
/// it covers are not decided.
pub const INTEGRITY_FIELD_BYTES: usize = 8;

/// The bytes every block header occupies.
pub const BLOCK_HEADER_BYTES: usize = 4;

/// The bytes a record tag occupies.
pub const RECORD_TAG_BYTES: usize = 1;

/// The bytes the terminator occupies.
pub const TERMINATOR_BYTES: usize = RECORD_TAG_BYTES;

/// The largest size a block header can declare.
///
/// The block size field is 29 bits wide. The width is provisional.
pub const MAX_BLOCK_BYTES: u32 = 0x1FFF_FFFF;

/// The frame flags version 1 defines.
pub const FLAG_REGION_INDEPENDENT: u8 = 0b0000_0001;

pub const FLAG_CONTENT_LENGTH: u8 = 0b0000_0010;

pub const FLAG_DICTIONARY_ID: u8 = 0b0000_0100;

pub const FLAG_INDEX: u8 = 0b0000_1000;

/// The flag bits that version 1 does not define, and that a decoder rejects when set.
pub const FLAG_REJECT_RESERVED: u8 = 0b1111_0000;

/// The tag of the terminator.
pub const TAG_TERMINATOR: u8 = 0x00;

/// The tag of a region.
pub const TAG_REGION: u8 = 0x01;

/// The smallest region a block can fill: one block header and one payload byte.
pub const MIN_REGION_PHYSICAL_BYTES: u64 = 5;

/// The class of a failure the format contract defines.
///
/// The set is matchable and stable. It names the contract that failed and carries only what
/// a caller needs to act on.
#[derive(Clone, Copy, Debug, PartialEq, Eq, Structural)]
pub enum Error {
    /// The bytes do not start an Entroq frame.
    InvalidFormat,
    /// The frame declares a major version this build does not decode.
    UnsupportedVersion {
        /// The version the frame declared.
        major: u8,
    },
    /// The stream is well formed and asks for something this build does not implement.
    UnsupportedFeature(Feature),
    /// The stream violates the format contract.
    CorruptData(Corruption),
    /// The structure needs more bytes than the input holds.
    ///
    /// A streaming caller treats this as a request for more input, not as a failure.
    TruncatedInput {
        /// The bytes the structure needs, counted from the start of the input it was read
        /// from.
        needed: usize,
    },
    /// A declared requirement is above what local policy allows.
    LimitExceeded {
        /// The requirement the stream declared.
        declared: u64,
        /// The largest requirement policy allows.
        allowed: u64,
    },
    /// The caller-supplied output buffer is too small for the declared output.
    OutputTooSmall {
        /// The bytes the output needs.
        needed: usize,
    },
    /// The caller asked for something the format cannot represent.
    InvalidParameter,
}

/// A well-formed feature that this build does not implement.
#[derive(Clone, Copy, Debug, PartialEq, Eq, Structural)]
pub enum Feature {
    /// A frame flag in ignore-reserved space that version 1 does not define.
    ReservedFrameFlag,
    /// A compressed block, where a reader of stored content meets one.
    CompressedBlock,
    /// A symbol model other than the one this build implements.
    BlockModel {
        /// The model the block declared.
        model: u8,
    },
}

/// The format contract a stream violated.
#[derive(Clone, Copy, Debug, PartialEq, Eq, Structural)]
pub enum Corruption {
    /// A frame flag in reject-reserved space is set.
    FrameFlag,
    /// A bit of the frame's reject-reserved word is set.
    FrameReserved,
    /// The declared resource class is outside the enumeration.
    ResourceClass,
    /// The declared integrity mode is outside the enumeration.
    IntegrityMode,
    /// The record tag is neither a region nor the terminator.
    RecordTag,
    /// The block type is reserved and no version can define it.
    BlockType,
    /// The block declares a size the format does not permit.
    BlockSize,
    /// The region declares a logical size the format does not permit.
    RegionLogicalSize,
    /// The region declares a physical size too small to hold one block.
    RegionPhysicalSize,
    /// The bytes a region holds do not match the sizes its header declared.
    RegionMismatch,
    /// The frame decoded to a length other than the one it declared.
    ContentLength,
    /// A header needs more bytes than the widest form the format defines.
    HeaderWidth,
    /// A coded stream spends more bits than it declares, or names no symbol.
    CodedStream,
    /// A description names a symbol outside its alphabet.
    SymbolAlphabet,
    /// A description declares a length count its alphabet contradicts.
    LengthCount,
    /// A code length is above the limit.
    CodeLength,
    /// The code lengths are not a complete prefix code.
    KraftSum,
    /// A description token names something no token before it declared.
    DescriptionToken,
    /// A table log is outside the range the format permits.
    TableLog,
    /// The frequencies do not sum to the table they declare.
    FrequencySum,
    /// A sequence symbol is outside its alphabet.
    SequenceSymbol,
    /// A terminal symbol stands where no sequence ends.
    TerminalSymbol,
    /// A raw suffix carries more or fewer bits than its symbols name.
    SequenceSuffix,
    /// The symbol counts of one block contradict each other.
    SequenceCount,
    /// A sequence value is outside the extent the format permits.
    SequenceExtent,
    /// A repeat code names an offset slot nothing has set.
    RepeatUnset,
    /// A match names a distance that repeats nothing.
    RepeatDistance,
    /// The extents of one block contradict the bytes it declares.
    BlockExtent,
    /// A payload extent disagrees with what its coder consumed.
    BlockPayload,
    /// A symbol count is above what the decoded size admits.
    BlockCount,
    /// A stream names a table that no block built.
    TableUnset,
    /// A description extent contradicts the table its stream named.
    BlockDescription,
    /// The declared table memory disagrees with the descriptions.
    TableMemory,
    /// A compressed block stores at least the bytes it decodes to.
    BlockExpansion,
    /// The block's content runs past the size it declared, or short of it.
    BlockContent,
    /// A match reaches past the bytes its region produced.
    MatchReach,
    /// A stream declares a section its class does not carry.
    BlockSection,
    /// A reject-reserved bit of the mode field is set.
    ModeReserved,
    /// The mode field names a stream that carries no symbols.
    ModeStream,
    /// A declared quantity is wider than 64 bits.
    Varint,
}

/// The memory class a decoder sizes itself from.
///
/// The class is enumerated rather than derived from a window length, so every accepted value
/// names a bound and no arithmetic sits between the field and the memory it implies. The
/// members are provisional until they are measured.
#[derive(Clone, Copy, Debug, PartialEq, Eq, Structural)]
pub enum ResourceClass {
    /// 64 KiB of decoder history.
    Minimal,
    /// 1 MiB of decoder history.
    Small,
    /// 8 MiB of decoder history.
    Medium,
    /// 64 MiB of decoder history.
    Large,
    /// 256 MiB of decoder history.
    Huge,
}

impl ResourceClass {
    /// The history a frame of this class asks for.
    pub open spec fn history(self) -> u64 {
        match self {
            ResourceClass::Minimal => 65_536,
            ResourceClass::Small => 1_048_576,
            ResourceClass::Medium => 8_388_608,
            ResourceClass::Large => 67_108_864,
            ResourceClass::Huge => 268_435_456,
        }
    }

    /// The byte that declares this class.
    pub open spec fn byte(self) -> u8 {
        match self {
            ResourceClass::Minimal => 0,
            ResourceClass::Small => 1,
            ResourceClass::Medium => 2,
            ResourceClass::Large => 3,
            ResourceClass::Huge => 4,
        }
    }

    /// The class a byte declares.
    pub open spec fn of_byte(byte: u8) -> Option<ResourceClass> {
        match byte {
            0 => Some(ResourceClass::Minimal),
            1 => Some(ResourceClass::Small),
            2 => Some(ResourceClass::Medium),
            3 => Some(ResourceClass::Large),
            4 => Some(ResourceClass::Huge),
            _ => None,
        }
    }

    /// The history a decoder reserves for a frame of this class.
    #[must_use]
    pub fn history_bytes(self) -> (bytes: u64)
        ensures
            bytes == self.history(),
    {
        match self {
            ResourceClass::Minimal => 65_536,
            ResourceClass::Small => 1_048_576,
            ResourceClass::Medium => 8_388_608,
            ResourceClass::Large => 67_108_864,
            ResourceClass::Huge => 268_435_456,
        }
    }

    fn code(self) -> (code: u8)
        ensures
            code == self.byte(),
    {
        match self {
            ResourceClass::Minimal => 0,
            ResourceClass::Small => 1,
            ResourceClass::Medium => 2,
            ResourceClass::Large => 3,
            ResourceClass::Huge => 4,
        }
    }

    fn from_code(code: u8) -> (class: Option<Self>)
        ensures
            class == Self::of_byte(code),
    {
        match code {
            0 => Some(ResourceClass::Minimal),
            1 => Some(ResourceClass::Small),
            2 => Some(ResourceClass::Medium),
            3 => Some(ResourceClass::Large),
            4 => Some(ResourceClass::Huge),
            _ => None,
        }
    }
}

/// Whether a region inherits anything from the region before it.
#[derive(Clone, Copy, Debug, PartialEq, Eq, Structural)]
pub enum RegionIndependence {
    /// A region continues the state the region before it left.
    Dependent,
    /// A region inherits nothing: no history, no entropy state, no offset history.
    Independent,
}

/// Where the frame places its integrity fields.
#[derive(Clone, Copy, Debug, PartialEq, Eq, Structural)]
pub enum IntegrityMode {
    /// The frame carries no integrity field.
    Absent,
    /// Every region header carries an integrity field.
    PerRegion,
}

impl IntegrityMode {
    /// The byte that declares this mode.
    pub open spec fn byte(self) -> u8 {
        match self {
            IntegrityMode::Absent => 0,
            IntegrityMode::PerRegion => 1,
        }
    }

    /// The mode a byte declares.
    pub open spec fn of_byte(byte: u8) -> Option<IntegrityMode> {
        match byte {
            0 => Some(IntegrityMode::Absent),
            1 => Some(IntegrityMode::PerRegion),
            _ => None,
        }
    }

    /// The bytes a region header spends on integrity.
    pub open spec fn width(self) -> nat {
        match self {
            IntegrityMode::Absent => 0,
            IntegrityMode::PerRegion => INTEGRITY_FIELD_BYTES as nat,
        }
    }

    fn code(self) -> (code: u8)
        ensures
            code == self.byte(),
    {
        match self {
            IntegrityMode::Absent => 0,
            IntegrityMode::PerRegion => 1,
        }
    }

    fn from_code(code: u8) -> (mode: Option<Self>)
        ensures
            mode == Self::of_byte(code),
    {
        match code {
            0 => Some(IntegrityMode::Absent),
            1 => Some(IntegrityMode::PerRegion),
            _ => None,
        }
    }

    /// The bytes a region header spends on integrity under this mode.
    #[must_use]
    pub fn field_bytes(self) -> (bytes: usize)
        ensures
            bytes == self.width(),
    {
        match self {
            IntegrityMode::Absent => 0,
            IntegrityMode::PerRegion => INTEGRITY_FIELD_BYTES,
        }
    }
}

/// What a decoder learns about a frame before it decodes a byte of it.
///
/// ```text
///  0   4  magic
///  4   1  major version
///  5   1  flags, of which bits 4 to 7 are reject-reserved
///  6   1  resource class
///  7   1  integrity mode
///  8   4  ignore-reserved bits
/// 12   4  reject-reserved bits
/// 16   8  logical content length, when the flags declare it
///     4   dictionary identifier, when the flags declare it
///     8   index location, when the flags declare it
/// ```
#[derive(Clone, Copy, Debug, PartialEq, Eq)]
pub struct FrameHeader {
    /// The memory class a decoder sizes itself from.
    pub resource_class: ResourceClass,
    /// Whether a region inherits state from the region before it.
    pub independence: RegionIndependence,
    /// Where the frame places its integrity fields.
    pub integrity: IntegrityMode,
    /// The decoded length of the whole frame, when the encoder knew it.
    pub content_length: Option<u64>,
    /// The dictionary the frame was built against, by identity only.
    pub dictionary_id: Option<u32>,
    /// Where the index sits in the stream.
    ///
    /// Nothing reads the structure this points at. The field declares that an index is
    /// present and where it starts.
    pub index_location: Option<u64>,
}

/// Whether a flag byte has one bit set.
pub open spec fn flag_set(flags: u8, unit: nat) -> bool {
    (flags as nat / unit) % 2 == 1
}

/// The bytes of a field that may be absent.
pub open spec fn optional_wire(value: Option<nat>, width: nat) -> Seq<u8> {
    match value {
        Some(value) => le(value, width),
        None => Seq::empty(),
    }
}

/// A field that may be absent, read at a position, and where it ends.
pub open spec fn optional_read(input: Seq<u8>, at: nat, present: bool, width: nat) -> Result<
    (Option<nat>, nat),
    Error,
> {
    if !present {
        Ok((None, at))
    } else if at + width > input.len() {
        Err(Error::TruncatedInput { needed: (at + width) as usize })
    } else {
        Ok((Some(field(input, at, width)), at + width))
    }
}

/// The value of an optional field, widened.
pub open spec fn widened(value: Option<u64>) -> Option<nat> {
    match value {
        Some(value) => Some(value as nat),
        None => None,
    }
}

pub open spec fn widened_u32(value: Option<u32>) -> Option<nat> {
    match value {
        Some(value) => Some(value as nat),
        None => None,
    }
}

pub open spec fn narrowed(value: Option<nat>) -> Option<u64> {
    match value {
        Some(value) => Some(value as u64),
        None => None,
    }
}

pub open spec fn narrowed_u32(value: Option<nat>) -> Option<u32> {
    match value {
        Some(value) => Some(value as u32),
        None => None,
    }
}

/// The header the first bytes of an input hold and the bytes it occupies, or why there is none.
pub open spec fn frame_read(input: Seq<u8>) -> Result<(FrameHeader, nat), Error> {
    if input.len() >= 4 && field(input, 0, 4) != MAGIC {
        Err(Error::InvalidFormat)
    } else if input.len() < FRAME_HEADER_FIXED_BYTES {
        Err(Error::TruncatedInput { needed: FRAME_HEADER_FIXED_BYTES })
    } else if input[4] != MAJOR_VERSION {
        Err(Error::UnsupportedVersion { major: input[4] })
    } else if input[5] >= 16 {
        Err(Error::CorruptData(Corruption::FrameFlag))
    } else if field(input, 12, 4) != 0 {
        Err(Error::CorruptData(Corruption::FrameReserved))
    } else if field(input, 8, 4) != 0 {
        Err(Error::UnsupportedFeature(Feature::ReservedFrameFlag))
    } else if ResourceClass::of_byte(input[6]) is None {
        Err(Error::CorruptData(Corruption::ResourceClass))
    } else if IntegrityMode::of_byte(input[7]) is None {
        Err(Error::CorruptData(Corruption::IntegrityMode))
    } else {
        match optional_read(input, 16, flag_set(input[5], 2), 8) {
            Err(error) => Err(error),
            Ok((content, at)) => match optional_read(input, at, flag_set(input[5], 4), 4) {
                Err(error) => Err(error),
                Ok((dictionary, at)) => match optional_read(input, at, flag_set(input[5], 8), 8) {
                    Err(error) => Err(error),
                    Ok((index, at)) => Ok(
                        (
                            FrameHeader {
                                resource_class: ResourceClass::of_byte(input[6])->0,
                                independence: if flag_set(input[5], 1) {
                                    RegionIndependence::Independent
                                } else {
                                    RegionIndependence::Dependent
                                },
                                integrity: IntegrityMode::of_byte(input[7])->0,
                                content_length: narrowed(content),
                                dictionary_id: narrowed_u32(dictionary),
                                index_location: narrowed(index),
                            },
                            at,
                        ),
                    ),
                },
            },
        }
    }
}

/// `a / b`, rounded up.
pub open spec fn ceiling(a: nat, b: nat) -> nat {
    if a % b == 0 {
        a / b
    } else {
        a / b + 1
    }
}

/// The blocks of content cut into regions and each region into blocks.
pub open spec fn raw_blocks(logical: nat, region: nat, block: nat) -> nat {
    (logical / region) * ceiling(region, block) + ceiling(logical % region, block)
}

/// `a / b`, rounded up.
fn divide_up(a: u64, b: u64) -> (quotient: u64)
    requires
        b > 0,
    ensures
        quotient as nat == ceiling(a as nat, b as nat),
{
    if a % b == 0 {
        a / b
    } else {
        proof {
            vstd::arithmetic::div_mod::lemma_fundamental_div_mod(a as int, b as int);
            assert(a / b + 1 <= a) by (nonlinear_arith)
                requires
                    a == b * (a / b) + a % b,
                    a % b > 0,
                    b > 0,
                    b > 1 || a % b == 0,
                    a / b >= 0,
            ;
        }
        a / b + 1
    }
}

impl FrameHeader {
    /// The flag byte of this header.
    pub open spec fn flag_byte(self) -> nat {
        (if self.independence == RegionIndependence::Independent {
            1nat
        } else {
            0
        }) + (if self.content_length is Some {
            2nat
        } else {
            0
        }) + (if self.dictionary_id is Some {
            4nat
        } else {
            0
        }) + (if self.index_location is Some {
            8nat
        } else {
            0
        })
    }

    /// The wire bytes of this header.
    pub open spec fn wire(self) -> Seq<u8> {
        le(MAGIC as nat, 4) + seq![
            MAJOR_VERSION,
            self.flag_byte() as u8,
            self.resource_class.byte(),
            self.integrity.byte(),
        ] + le(0, 4) + le(0, 4) + optional_wire(widened(self.content_length), 8) + optional_wire(
            widened_u32(self.dictionary_id),
            4,
        ) + optional_wire(widened(self.index_location), 8)
    }

    /// The bytes of this header on the wire.
    pub open spec fn width(self) -> nat {
        16 + (if self.content_length is Some {
            8nat
        } else {
            0
        }) + (if self.dictionary_id is Some {
            4nat
        } else {
            0
        }) + (if self.index_location is Some {
            8nat
        } else {
            0
        })
    }

    /// The bytes a frame of RAW blocks occupies under this header.
    pub open spec fn raw_total(self, logical: nat, region: nat, block: nat) -> nat {
        self.width() + ceiling(logical, region) * (17 + self.integrity.width()) + 4 * raw_blocks(
            logical,
            region,
            block,
        ) + logical + 1
    }

    /// A frame header with no optional field set.
    #[must_use]
    pub fn new(
        resource_class: ResourceClass,
        independence: RegionIndependence,
        integrity: IntegrityMode,
    ) -> (header: Self)
        ensures
            header == (FrameHeader {
                resource_class,
                independence,
                integrity,
                content_length: None,
                dictionary_id: None,
                index_location: None,
            }),
    {
        FrameHeader {
            resource_class,
            independence,
            integrity,
            content_length: None,
            dictionary_id: None,
            index_location: None,
        }
    }

    /// A header occupies the bytes its fields do.
    pub proof fn lemma_width(self)
        ensures
            self.wire().len() == self.width(),
            self.width() <= FRAME_HEADER_MAX_BYTES,
    {
        lemma_le_len(MAGIC as nat, 4);
        lemma_le_len(0, 4);
        if let Some(value) = self.content_length {
            lemma_le_len(value as nat, 8);
        }
        if let Some(value) = self.dictionary_id {
            lemma_le_len(value as nat, 4);
        }
        if let Some(value) = self.index_location {
            lemma_le_len(value as nat, 8);
        }
    }

    /// The bytes this header occupies on the wire.
    #[must_use]
    pub fn encoded_len(&self) -> (len: usize)
        ensures
            len == self.width(),
            len == self.wire().len(),
    {
        proof {
            self.lemma_width();
        }
        let mut length: usize = FRAME_HEADER_FIXED_BYTES;
        if self.content_length.is_some() {
            length = length + 8;
        }
        if self.dictionary_id.is_some() {
            length = length + 4;
        }
        if self.index_location.is_some() {
            length = length + 8;
        }
        length
    }

    /// Serializes this header.
    #[must_use]
    pub fn encode(&self) -> (encoded: Encoded<FRAME_HEADER_MAX_BYTES>)
        ensures
            encoded@ == self.wire(),
    {
        proof {
            self.lemma_width();
            lemma_le_len(MAGIC as nat, 4);
            lemma_le_len(0, 4);
        }
        let mut writer = Writer::<FRAME_HEADER_MAX_BYTES>::new();
        writer.put(MAGIC as u64, 4);
        writer.push(MAJOR_VERSION);
        writer.push(self.flags());
        writer.push(self.resource_class.code());
        writer.push(self.integrity.code());
        writer.put(0, 4);
        writer.put(0, 4);
        let ghost fixed = writer@;
        proof {
            assert(fixed =~= le(MAGIC as nat, 4) + seq![
                MAJOR_VERSION,
                self.flag_byte() as u8,
                self.resource_class.byte(),
                self.integrity.byte(),
            ] + le(0, 4) + le(0, 4));
        }
        if let Some(length) = self.content_length {
            proof {
                lemma_le_len(length as nat, 8);
            }
            writer.put(length, 8);
        }
        proof {
            assert(writer@ =~= fixed + optional_wire(widened(self.content_length), 8));
        }
        if let Some(identifier) = self.dictionary_id {
            proof {
                lemma_le_len(identifier as nat, 4);
            }
            writer.put(identifier as u64, 4);
        }
        proof {
            assert(writer@ =~= fixed + optional_wire(widened(self.content_length), 8)
                + optional_wire(widened_u32(self.dictionary_id), 4));
        }
        if let Some(location) = self.index_location {
            proof {
                lemma_le_len(location as nat, 8);
            }
            writer.put(location, 8);
        }
        proof {
            assert(writer@ =~= self.wire());
        }
        writer.finish()
    }

    /// Parses a frame header and reports the bytes it consumed.
    ///
    /// The magic is checked first, then the major version, then the two reserved classes,
    /// then every enumerated field. Nothing later in the stream is read, and nothing is
    /// allocated, so a caller learns whether it can proceed before it commits anything.
    ///
    /// Refuses with `InvalidFormat` when the magic does not match, `UnsupportedVersion` when
    /// the major version is not implemented, `CorruptData` when a reject-reserved bit is set
    /// or an enumerated field is outside its enumeration, `UnsupportedFeature` when an
    /// ignore-reserved bit this version does not define is set, and `TruncatedInput` when
    /// the input is shorter than the header the flags describe. Four bytes decide the magic, so
    /// an input that holds them and is not a frame is refused before it is waited for.
    pub fn decode(input: &[u8]) -> (read: Result<(Self, usize), Error>)
        ensures
            match frame_read(input@) {
                Ok((header, used)) => read matches Ok((got, at)) && got == header && at == used,
                Err(error) => read == Err::<(Self, usize), Error>(error),
            },
    {
        if input.len() >= 4 && !starts_frame(input)? {
            return Err(Error::InvalidFormat);
        }
        if input.len() < FRAME_HEADER_FIXED_BYTES {
            return Err(Error::TruncatedInput { needed: FRAME_HEADER_FIXED_BYTES });
        }
        let fixed = match FrameFixed::read(input) {
            Ok(fixed) => fixed,
            Err(error) => {
                return Err(error);
            },
        };
        if fixed.major != MAJOR_VERSION {
            return Err(Error::UnsupportedVersion { major: fixed.major });
        }
        proof {
            lemma_flags(fixed.flags);
        }
        if fixed.flags & FLAG_REJECT_RESERVED != 0 {
            return Err(Error::CorruptData(Corruption::FrameFlag));
        }
        if fixed.reject_reserved != 0 {
            return Err(Error::CorruptData(Corruption::FrameReserved));
        }
        if fixed.ignore_reserved != 0 {
            return Err(Error::UnsupportedFeature(Feature::ReservedFrameFlag));
        }
        let resource_class = match ResourceClass::from_code(fixed.resource) {
            Some(class) => class,
            None => {
                return Err(Error::CorruptData(Corruption::ResourceClass));
            },
        };
        let integrity = match IntegrityMode::from_code(fixed.integrity) {
            Some(mode) => mode,
            None => {
                return Err(Error::CorruptData(Corruption::IntegrityMode));
            },
        };
        let independence = if fixed.flags & FLAG_REGION_INDEPENDENT == 0 {
            RegionIndependence::Dependent
        } else {
            RegionIndependence::Independent
        };
        let mut reader = fixed.reader;
        let content_length = if fixed.flags & FLAG_CONTENT_LENGTH == 0 {
            None
        } else {
            match reader.take(8) {
                Ok(value) => Some(value),
                Err(error) => {
                    return Err(error);
                },
            }
        };
        let dictionary_id = if fixed.flags & FLAG_DICTIONARY_ID == 0 {
            None
        } else {
            let ghost at = reader.at();
            match reader.take(4) {
                Ok(value) => {
                    proof {
                        lemma_narrow(input@, at);
                    }
                    Some(value as u32)
                },
                Err(error) => {
                    return Err(error);
                },
            }
        };
        let index_location = if fixed.flags & FLAG_INDEX == 0 {
            None
        } else {
            match reader.take(8) {
                Ok(value) => Some(value),
                Err(error) => {
                    return Err(error);
                },
            }
        };
        Ok(
            (
                FrameHeader {
                    resource_class,
                    independence,
                    integrity,
                    content_length,
                    dictionary_id,
                    index_location,
                },
                reader.position(),
            ),
        )
    }

    /// The bytes a frame occupies when `logical_bytes` are stored as RAW blocks.
    ///
    /// ```text
    /// regions = ceil(logical / region_bytes)
    /// blocks  = sum over regions of ceil(region logical / block_bytes)
    /// total   = frame header
    ///         + regions * (1 + region header)
    ///         + blocks * 4
    ///         + logical
    ///         + 1
    /// ```
    ///
    /// The region header is 16 bytes, and 24 when the frame declares per-region integrity.
    /// Refuses a size of zero, a block size no header declares, and a total that does not fit
    /// in 64 bits.
    pub fn raw_frame_bytes(
        &self,
        logical_bytes: u64,
        region_bytes: u64,
        block_bytes: u32,
    ) -> (bytes: Result<u64, Error>)
        ensures
            ({
                let total = self.raw_total(
                    logical_bytes as nat,
                    region_bytes as nat,
                    block_bytes as nat,
                );
                if region_bytes == 0 || block_bytes == 0 || block_bytes > MAX_BLOCK_BYTES || total
                    > u64::MAX {
                    bytes == Err::<u64, Error>(Error::InvalidParameter)
                } else {
                    bytes == Ok::<u64, Error>(total as u64)
                }
            }),
    {
        if region_bytes == 0 || block_bytes == 0 || block_bytes > MAX_BLOCK_BYTES {
            return Err(Error::InvalidParameter);
        }
        let full_regions: u64 = logical_bytes / region_bytes;
        let last_region: u64 = logical_bytes % region_bytes;
        let per_full_region: u64 = divide_up(region_bytes, block_bytes as u64);
        let per_last: u64 = divide_up(last_region, block_bytes as u64);
        let ghost blocks_total = raw_blocks(
            logical_bytes as nat,
            region_bytes as nat,
            block_bytes as nat,
        );
        let ghost regions_total = ceiling(logical_bytes as nat, region_bytes as nat);
        let ghost cost = 17 + self.integrity.width();
        proof {
            assert(full_regions * per_full_region >= 0) by (nonlinear_arith)
                requires
                    full_regions >= 0,
                    per_full_region >= 0,
            ;
            assert(regions_total * cost >= 0) by (nonlinear_arith)
                requires
                    regions_total >= 0,
                    cost >= 0,
            ;
            assert(regions_total * cost >= regions_total) by (nonlinear_arith)
                requires
                    regions_total >= 0,
                    cost >= 1,
            ;
        }
        let blocks: u64 = match full_regions.checked_mul(per_full_region) {
            Some(count) => match count.checked_add(per_last) {
                Some(blocks) => blocks,
                None => {
                    return Err(Error::InvalidParameter);
                },
            },
            None => {
                return Err(Error::InvalidParameter);
            },
        };
        let regions: u64 = divide_up(logical_bytes, region_bytes);
        let region_cost: u64 = 17 + self.integrity.field_bytes() as u64;
        let region_bytes_total: u64 = match regions.checked_mul(region_cost) {
            Some(total) => total,
            None => {
                return Err(Error::InvalidParameter);
            },
        };
        let block_bytes_total: u64 = match blocks.checked_mul(BLOCK_HEADER_BYTES as u64) {
            Some(total) => total,
            None => {
                return Err(Error::InvalidParameter);
            },
        };
        let header: u64 = self.encoded_len() as u64;
        match region_bytes_total.checked_add(block_bytes_total) {
            Some(total) => match total.checked_add(logical_bytes) {
                Some(total) => match total.checked_add(header + TERMINATOR_BYTES as u64) {
                    Some(total) => Ok(total),
                    None => Err(Error::InvalidParameter),
                },
                None => Err(Error::InvalidParameter),
            },
            None => Err(Error::InvalidParameter),
        }
    }

    /// The bytes a RAW frame adds over a copy of its content.
    ///
    /// Refuses what `raw_frame_bytes` refuses.
    pub fn raw_overhead_bytes(
        &self,
        logical_bytes: u64,
        region_bytes: u64,
        block_bytes: u32,
    ) -> (bytes: Result<u64, Error>)
        ensures
            ({
                let total = self.raw_total(
                    logical_bytes as nat,
                    region_bytes as nat,
                    block_bytes as nat,
                );
                if region_bytes == 0 || block_bytes == 0 || block_bytes > MAX_BLOCK_BYTES || total
                    > u64::MAX {
                    bytes == Err::<u64, Error>(Error::InvalidParameter)
                } else {
                    bytes == Ok::<u64, Error>((total - logical_bytes) as u64)
                }
            }),
    {
        match self.raw_frame_bytes(logical_bytes, region_bytes, block_bytes) {
            Ok(total) => {
                proof {
                    let regions = ceiling(logical_bytes as nat, region_bytes as nat);
                    let cost = 17 + self.integrity.width();
                    assert(regions * cost >= 0) by (nonlinear_arith)
                        requires
                            regions >= 0,
                            cost >= 0,
                    ;
                }
                Ok(total - logical_bytes)
            },
            Err(error) => Err(error),
        }
    }

    fn flags(&self) -> (flags: u8)
        ensures
            flags as nat == self.flag_byte(),
    {
        let mut flags: u8 = match self.independence {
            RegionIndependence::Dependent => 0,
            RegionIndependence::Independent => FLAG_REGION_INDEPENDENT,
        };
        if self.content_length.is_some() {
            flags = flags + FLAG_CONTENT_LENGTH;
        }
        if self.dictionary_id.is_some() {
            flags = flags + FLAG_DICTIONARY_ID;
        }
        if self.index_location.is_some() {
            flags = flags + FLAG_INDEX;
        }
        flags
    }
}

/// What the bits of a flag byte are.
proof fn lemma_flags(flags: u8)
    ensures
        flags & FLAG_REJECT_RESERVED != 0 <==> flags >= 16,
        flags & FLAG_REGION_INDEPENDENT == 0 <==> !flag_set(flags, 1),
        flags & FLAG_CONTENT_LENGTH == 0 <==> !flag_set(flags, 2),
        flags & FLAG_DICTIONARY_ID == 0 <==> !flag_set(flags, 4),
        flags & FLAG_INDEX == 0 <==> !flag_set(flags, 8),
{
    assert(flags & 0b1111_0000 != 0 <==> flags >= 16) by (bit_vector);
    assert((flags & 0b0000_0001 == 0 <==> (flags / 1) % 2 == 0) && (flags & 0b0000_0010 == 0 <==> (
    flags / 2) % 2 == 0) && (flags & 0b0000_0100 == 0 <==> (flags / 4) % 2 == 0) && (flags
        & 0b0000_1000 == 0 <==> (flags / 8) % 2 == 0)) by (bit_vector);
}

/// Four bytes hold a 32-bit value.
proof fn lemma_narrow(input: Seq<u8>, at: nat)
    requires
        at + 4 <= input.len(),
    ensures
        field(input, at, 4) <= u32::MAX,
{
    lemma2_to64();
    lemma_le_of_value(input.subrange(at as int, (at + 4) as int));
}

/// One byte is its own value.
proof fn lemma_one_byte(input: Seq<u8>, at: nat)
    requires
        at < input.len(),
    ensures
        field(input, at, 1) == input[at as int] as nat,
{
    let bytes = input.subrange(at as int, (at + 1) as int);
    reveal_with_fuel(wire::le_value, 2);
    assert(bytes.skip(1) =~= Seq::empty());
}

/// Whether an input starts with the magic.
fn starts_frame(input: &[u8]) -> (starts: Result<bool, Error>)
    requires
        input@.len() >= 4,
    ensures
        starts == Ok::<bool, Error>(field(input@, 0, 4) == MAGIC),
{
    let mut reader = Reader::new(input);
    let magic: u64 = reader.take(4)?;
    Ok(magic == MAGIC as u64)
}

/// The fields every frame header carries after the magic, and the reader past them.
struct FrameFixed<'a> {
    major: u8,
    flags: u8,
    resource: u8,
    integrity: u8,
    ignore_reserved: u64,
    reject_reserved: u64,
    reader: Reader<'a>,
}

impl<'a> FrameFixed<'a> {
    fn read(input: &'a [u8]) -> (read: Result<FrameFixed<'a>, Error>)
        requires
            input@.len() >= FRAME_HEADER_FIXED_BYTES,
        ensures
            read matches Ok(fixed) && {
                &&& fixed.major == input@[4]
                &&& fixed.flags == input@[5]
                &&& fixed.resource == input@[6]
                &&& fixed.integrity == input@[7]
                &&& fixed.ignore_reserved == field(input@, 8, 4)
                &&& fixed.reject_reserved == field(input@, 12, 4)
                &&& fixed.reader.input() == input@
                &&& fixed.reader.at() == 16
            },
    {
        let mut reader = Reader::new(input);
        proof {
            lemma_one_byte(input@, 4);
            lemma_one_byte(input@, 5);
            lemma_one_byte(input@, 6);
            lemma_one_byte(input@, 7);
        }
        let _magic: u64 = reader.take(4)?;
        let major: u64 = reader.take(1)?;
        let flags: u64 = reader.take(1)?;
        let resource: u64 = reader.take(1)?;
        let integrity: u64 = reader.take(1)?;
        let ignore_reserved: u64 = reader.take(4)?;
        let reject_reserved: u64 = reader.take(4)?;
        Ok(
            FrameFixed {
                major: major as u8,
                flags: flags as u8,
                resource: resource as u8,
                integrity: integrity as u8,
                ignore_reserved,
                reject_reserved,
                reader,
            },
        )
    }
}

/// The limits a caller places on a frame before a decoder commits memory to it.
#[derive(Clone, Copy, Debug, PartialEq, Eq)]
pub struct DecoderPolicy {
    max_history_bytes: u64,
    max_table_bytes: u64,
}

impl DecoderPolicy {
    /// The default policy, which admits a frame up to the small resource class and a block up
    /// to the version 1 table ceiling.
    ///
    /// A caller raises the limit deliberately.
    #[must_use]
    pub fn conservative() -> (policy: Self)
        ensures
            policy.history_limit() == ResourceClass::Small.history(),
            policy.table_limit() == MAX_BLOCK_TABLE_BYTES,
    {
        DecoderPolicy {
            max_history_bytes: ResourceClass::Small.history_bytes(),
            max_table_bytes: MAX_BLOCK_TABLE_BYTES,
        }
    }

    /// The history this policy admits.
    pub closed spec fn history_limit(self) -> u64 {
        self.max_history_bytes
    }

    /// The table memory this policy admits.
    pub closed spec fn table_limit(self) -> u64 {
        self.max_table_bytes
    }

    /// A policy that admits a frame declaring at most `bytes` of decoder history, and a block
    /// up to the version 1 table ceiling.
    #[must_use]
    pub fn with_max_history_bytes(bytes: u64) -> (policy: Self)
        ensures
            policy.history_limit() == bytes,
            policy.table_limit() == MAX_BLOCK_TABLE_BYTES,
    {
        DecoderPolicy { max_history_bytes: bytes, max_table_bytes: MAX_BLOCK_TABLE_BYTES }
    }

    /// This policy with a table ceiling of `bytes`.
    #[must_use]
    pub fn with_max_table_bytes(self, bytes: u64) -> (policy: Self)
        ensures
            policy.history_limit() == self.history_limit(),
            policy.table_limit() == bytes,
    {
        DecoderPolicy { max_history_bytes: self.max_history_bytes, max_table_bytes: bytes }
    }

    /// The largest table memory a block may declare.
    #[must_use]
    pub fn max_table_bytes(&self) -> (bytes: u64)
        ensures
            bytes == self.table_limit(),
    {
        self.max_table_bytes
    }

    /// The history a decoder must reserve for this frame, when policy admits it.
    ///
    /// Refuses, with the declared requirement and the allowed maximum, a frame that asks for
    /// more than policy allows.
    pub fn admit_frame(&self, header: &FrameHeader) -> (admitted: Result<u64, Error>)
        ensures
            ({
                let declared = header.resource_class.history();
                if declared > self.history_limit() {
                    admitted == Err::<u64, Error>(
                        Error::LimitExceeded { declared, allowed: self.history_limit() },
                    )
                } else {
                    admitted == Ok::<u64, Error>(declared)
                }
            }),
    {
        let declared: u64 = header.resource_class.history_bytes();
        if declared > self.max_history_bytes {
            return Err(Error::LimitExceeded { declared, allowed: self.max_history_bytes });
        }
        Ok(declared)
    }

    /// The table memory a block declares or holds, when policy admits it.
    pub fn admit_table_bytes(&self, declared: u64) -> (admitted: Result<u64, Error>)
        ensures
            declared > self.table_limit() ==> admitted == Err::<u64, Error>(
                Error::LimitExceeded { declared, allowed: self.table_limit() },
            ),
            declared <= self.table_limit() ==> admitted == Ok::<u64, Error>(declared),
    {
        if declared > self.max_table_bytes {
            return Err(Error::LimitExceeded { declared, allowed: self.max_table_bytes });
        }
        Ok(declared)
    }
}

/// What follows the frame header, and what follows each region.
#[derive(Clone, Copy, Debug, PartialEq, Eq)]
pub enum Record {
    /// A region, and the header that declares its sizes.
    Region(RegionHeader),
    /// The end of the frame.
    Terminator,
}

/// The record the first bytes of an input hold and the bytes it occupies, or why there is none.
pub open spec fn record_read(input: Seq<u8>, integrity: IntegrityMode) -> Result<
    (Record, nat),
    Error,
> {
    if input.len() < 1 {
        Err(Error::TruncatedInput { needed: RECORD_TAG_BYTES })
    } else if input[0] == TAG_TERMINATOR {
        Ok((Record::Terminator, 1))
    } else if input[0] == TAG_REGION {
        match region_read(input.skip(1), integrity) {
            Err(error) => Err(after_tag_of(error)),
            Ok((header, used)) => Ok((Record::Region(header), used + 1)),
        }
    } else {
        Err(Error::CorruptData(Corruption::RecordTag))
    }
}

/// A region-header truncation as the bytes the whole record needs.
pub open spec fn after_tag_of(error: Error) -> Error {
    match error {
        Error::TruncatedInput { needed } => Error::TruncatedInput {
            needed: crate::entropy::least(needed as nat + 1, usize::MAX as nat) as usize,
        },
        _ => error,
    }
}

/// Restates a region-header truncation as the bytes the whole record needs.
fn after_tag(error: Error) -> (restated: Error)
    ensures
        restated == after_tag_of(error),
{
    match error {
        Error::TruncatedInput { needed } => Error::TruncatedInput {
            needed: needed.saturating_add(RECORD_TAG_BYTES),
        },
        other => other,
    }
}

impl Record {
    /// The wire bytes of this record, tag included.
    pub open spec fn wire(self) -> Seq<u8> {
        match self {
            Record::Region(header) => seq![TAG_REGION] + header.wire(),
            Record::Terminator => seq![TAG_TERMINATOR],
        }
    }

    /// The bytes this record occupies on the wire, tag included.
    #[must_use]
    pub fn encoded_len(&self) -> (len: usize)
        ensures
            len == self.wire().len(),
    {
        match self {
            Record::Region(header) => RECORD_TAG_BYTES + header.encoded_len(),
            Record::Terminator => RECORD_TAG_BYTES,
        }
    }

    /// Serializes this record, tag included.
    #[must_use]
    pub fn encode(&self) -> (encoded: Encoded<RECORD_MAX_BYTES>)
        ensures
            encoded@ == self.wire(),
    {
        let mut writer = Writer::<RECORD_MAX_BYTES>::new();
        match self {
            Record::Region(header) => {
                writer.push(TAG_REGION);
                header.put(&mut writer);
                proof {
                    assert(writer@ =~= self.wire());
                }
            },
            Record::Terminator => {
                writer.push(TAG_TERMINATOR);
                proof {
                    assert(writer@ =~= self.wire());
                }
            },
        }
        writer.finish()
    }

    /// Parses the next record and reports the bytes it consumed.
    ///
    /// Refuses with `CorruptData` an undefined tag or a region header out of range, and with
    /// `TruncatedInput` an input shorter than the record. The truncation count is the whole
    /// record, tag included, so a caller that waits for it reads a record and not a header.
    pub fn decode(input: &[u8], integrity: IntegrityMode) -> (read: Result<(Self, usize), Error>)
        ensures
            match record_read(input@, integrity) {
                Ok((record, used)) => read matches Ok((got, at)) && got == record && at == used,
                Err(error) => read == Err::<(Self, usize), Error>(error),
            },
    {
        if input.len() < RECORD_TAG_BYTES {
            return Err(Error::TruncatedInput { needed: RECORD_TAG_BYTES });
        }
        let tag: u8 = input[0];
        if tag == TAG_TERMINATOR {
            return Ok((Record::Terminator, RECORD_TAG_BYTES));
        }
        if tag != TAG_REGION {
            return Err(Error::CorruptData(Corruption::RecordTag));
        }
        let rest = vstd::slice::slice_subrange(input, RECORD_TAG_BYTES, input.len());
        proof {
            assert(rest@ =~= input@.skip(1));
        }
        match RegionHeader::decode(rest, integrity) {
            Ok((header, used)) => Ok((Record::Region(header), used + RECORD_TAG_BYTES)),
            Err(error) => Err(after_tag(error)),
        }
    }
}

/// What a decoder learns about one region before it reads a block of it.
///
/// ```text
///  0   8  logical size, the bytes the region decodes to
///  8   8  physical size, the bytes its blocks occupy after this header
/// 16   8  integrity field, when the frame declares per-region integrity
/// ```
///
/// The physical size is what lets a reader reach the next record without an index. Nothing
/// computes the integrity field.
#[derive(Clone, Copy, Debug, PartialEq, Eq)]
pub struct RegionHeader {
    /// The bytes this region decodes to.
    pub logical_size: u64,
    /// The bytes this region's blocks occupy, counted after this header.
    pub physical_size: u64,
    /// The reserved integrity field, present when the frame declares per-region integrity.
    pub integrity: Option<u64>,
}

/// The region header the first bytes of an input hold and the bytes it occupies, or why there
/// is none.
pub open spec fn region_read(input: Seq<u8>, integrity: IntegrityMode) -> Result<
    (RegionHeader, nat),
    Error,
> {
    if input.len() < 8 {
        Err(Error::TruncatedInput { needed: 8 })
    } else if input.len() < 16 {
        Err(Error::TruncatedInput { needed: 16 })
    } else {
        match optional_read(input, 16, integrity == IntegrityMode::PerRegion, 8) {
            Err(error) => Err(error),
            Ok((checked, used)) => if field(input, 0, 8) == 0 {
                Err(Error::CorruptData(Corruption::RegionLogicalSize))
            } else if field(input, 8, 8) < MIN_REGION_PHYSICAL_BYTES {
                Err(Error::CorruptData(Corruption::RegionPhysicalSize))
            } else {
                Ok(
                    (
                        RegionHeader {
                            logical_size: field(input, 0, 8) as u64,
                            physical_size: field(input, 8, 8) as u64,
                            integrity: narrowed(checked),
                        },
                        used,
                    ),
                )
            },
        }
    }
}

impl RegionHeader {
    /// The wire bytes of this header, without its record tag.
    pub open spec fn wire(self) -> Seq<u8> {
        le(self.logical_size as nat, 8) + le(self.physical_size as nat, 8) + optional_wire(
            widened(self.integrity),
            8,
        )
    }

    /// Whether the sizes describe a region that holds at least one block.
    pub open spec fn holds_a_block(self) -> bool {
        self.logical_size > 0 && self.physical_size >= MIN_REGION_PHYSICAL_BYTES
    }

    /// A region header for a frame with the given integrity mode.
    ///
    /// Refuses sizes that cannot describe a region that holds at least one block.
    pub fn new(logical_size: u64, physical_size: u64, integrity: IntegrityMode) -> (made: Result<
        Self,
        Error,
    >)
        ensures
            ({
                let header = RegionHeader {
                    logical_size,
                    physical_size,
                    integrity: if integrity == IntegrityMode::PerRegion {
                        Some(0u64)
                    } else {
                        None
                    },
                };
                if header.holds_a_block() {
                    made == Ok::<Self, Error>(header)
                } else {
                    made == Err::<Self, Error>(Error::InvalidParameter)
                }
            }),
    {
        if logical_size == 0 || physical_size < MIN_REGION_PHYSICAL_BYTES {
            return Err(Error::InvalidParameter);
        }
        Ok(
            RegionHeader {
                logical_size,
                physical_size,
                integrity: match integrity {
                    IntegrityMode::Absent => None,
                    IntegrityMode::PerRegion => Some(0),
                },
            },
        )
    }

    /// A region header occupies the bytes its fields do.
    pub proof fn lemma_width(self)
        ensures
            self.wire().len() == (if self.integrity is Some {
                24nat
            } else {
                16
            }),
    {
        lemma_le_len(self.logical_size as nat, 8);
        lemma_le_len(self.physical_size as nat, 8);
        if let Some(value) = self.integrity {
            lemma_le_len(value as nat, 8);
        }
    }

    /// The bytes this header occupies on the wire.
    #[must_use]
    pub fn encoded_len(&self) -> (len: usize)
        ensures
            len == self.wire().len(),
            len <= REGION_HEADER_MAX_BYTES,
    {
        proof {
            self.lemma_width();
        }
        if self.integrity.is_some() {
            REGION_HEADER_FIXED_BYTES + INTEGRITY_FIELD_BYTES
        } else {
            REGION_HEADER_FIXED_BYTES
        }
    }

    /// Serializes this header, without its record tag.
    #[must_use]
    pub fn encode(&self) -> (encoded: Encoded<REGION_HEADER_MAX_BYTES>)
        ensures
            encoded@ == self.wire(),
    {
        let mut writer = Writer::<REGION_HEADER_MAX_BYTES>::new();
        self.put(&mut writer);
        proof {
            assert(writer@ =~= self.wire());
        }
        writer.finish()
    }

    fn put<const N: usize>(&self, writer: &mut Writer<N>)
        requires
            old(writer)@.len() + 24 <= N,
        ensures
            final(writer)@ == old(writer)@ + self.wire(),
    {
        proof {
            self.lemma_width();
            lemma_le_len(self.logical_size as nat, 8);
            lemma_le_len(self.physical_size as nat, 8);
        }
        let ghost before = writer@;
        writer.put(self.logical_size, 8);
        writer.put(self.physical_size, 8);
        if let Some(value) = self.integrity {
            writer.put(value, 8);
        }
        proof {
            assert(writer@ =~= before + self.wire());
        }
    }

    /// Parses a region header, without its record tag, and reports the bytes it consumed.
    ///
    /// Refuses with `CorruptData` a declared size that cannot describe a region, and with
    /// `TruncatedInput` an input shorter than the header.
    pub fn decode(input: &[u8], integrity: IntegrityMode) -> (read: Result<(Self, usize), Error>)
        ensures
            match region_read(input@, integrity) {
                Ok((header, used)) => read matches Ok((got, at)) && got == header && at == used,
                Err(error) => read == Err::<(Self, usize), Error>(error),
            },
            read matches Ok((_, at)) ==> at <= 24,
    {
        let mut reader = Reader::new(input);
        let logical_size: u64 = match reader.take(8) {
            Ok(value) => value,
            Err(error) => {
                return Err(error);
            },
        };
        let physical_size: u64 = match reader.take(8) {
            Ok(value) => value,
            Err(error) => {
                return Err(error);
            },
        };
        let checked = match integrity {
            IntegrityMode::Absent => None,
            IntegrityMode::PerRegion => match reader.take(INTEGRITY_FIELD_BYTES) {
                Ok(value) => Some(value),
                Err(error) => {
                    return Err(error);
                },
            },
        };
        if logical_size == 0 {
            return Err(Error::CorruptData(Corruption::RegionLogicalSize));
        }
        if physical_size < MIN_REGION_PHYSICAL_BYTES {
            return Err(Error::CorruptData(Corruption::RegionPhysicalSize));
        }
        Ok((RegionHeader { logical_size, physical_size, integrity: checked }, reader.position()))
    }
}

/// How a block stores its content.
#[derive(Clone, Copy, Debug, PartialEq, Eq, Structural)]
pub enum BlockType {
    /// The payload is the content, byte for byte.
    Raw,
    /// The payload is one byte, repeated to the declared size.
    Rle,
    /// The payload is a compressed block, which declares its own extents.
    Compressed,
}

impl BlockType {
    /// The type field of a block header.
    pub open spec fn code(self) -> nat {
        match self {
            BlockType::Raw => 0,
            BlockType::Rle => 1,
            BlockType::Compressed => 2,
        }
    }
}

/// What a decoder learns about one block before it reads the payload.
///
/// The header is one little-endian 32-bit word:
///
/// ```text
/// bit 0        last block in its region
/// bits 1 to 2  block type
/// bits 3 to 31 size
/// ```
///
/// The size is the decoded size for every type. A RAW block stores that many bytes and an
/// RLE block stores one, which is what makes a run cost one byte instead of a length and a
/// value.
#[derive(Clone, Copy, Debug, PartialEq, Eq)]
pub struct BlockHeader {
    /// Whether this is the last block of its region.
    pub last: bool,
    /// How this block stores its content.
    pub kind: BlockType,
    /// The bytes this block decodes to.
    pub size: u32,
}

/// The block header the first bytes of an input hold and the bytes it occupies, or why there is
/// none.
pub open spec fn block_read(input: Seq<u8>) -> Result<(BlockHeader, nat), Error> {
    let word = field(input, 0, 4);
    if input.len() < 4 {
        Err(Error::TruncatedInput { needed: BLOCK_HEADER_BYTES })
    } else if (word / 2) % 4 == 2 {
        Err(Error::UnsupportedFeature(Feature::CompressedBlock))
    } else if (word / 2) % 4 == 3 {
        Err(Error::CorruptData(Corruption::BlockType))
    } else if word / 8 == 0 {
        Err(Error::CorruptData(Corruption::BlockSize))
    } else {
        Ok(
            (
                BlockHeader {
                    last: word % 2 == 1,
                    kind: if (word / 2) % 4 == 0 {
                        BlockType::Raw
                    } else {
                        BlockType::Rle
                    },
                    size: (word / 8) as u32,
                },
                4,
            ),
        )
    }
}

impl BlockHeader {
    /// The 32-bit word of this header.
    pub open spec fn word(self) -> nat {
        (if self.last {
            1nat
        } else {
            0
        }) + 2 * self.kind.code() + 8 * (self.size as nat % 0x2000_0000)
    }

    /// The wire bytes of this header.
    pub open spec fn wire(self) -> Seq<u8> {
        le(self.word(), 4)
    }

    /// Whether the size is one the format permits.
    pub open spec fn sized(self) -> bool {
        0 < self.size <= MAX_BLOCK_BYTES
    }

    /// The bytes a payload of this header stores, where the header decides it.
    pub open spec fn stored(self) -> u32 {
        if self.kind == BlockType::Rle {
            1
        } else {
            self.size
        }
    }

    /// A RAW block header.
    ///
    /// Refuses a size of zero or above the field's range.
    pub fn raw(last: bool, size: u32) -> (made: Result<Self, Error>)
        ensures
            made == Self::built(last, BlockType::Raw, size),
    {
        Self::build(last, BlockType::Raw, size)
    }

    /// An RLE block header, which declares the decoded size of a one-byte payload.
    ///
    /// Refuses a size of zero or above the field's range.
    pub fn rle(last: bool, size: u32) -> (made: Result<Self, Error>)
        ensures
            made == Self::built(last, BlockType::Rle, size),
    {
        Self::build(last, BlockType::Rle, size)
    }

    /// A COMPRESSED block header, whose payload declares its own extents.
    ///
    /// Refuses a size of zero or above the field's range.
    pub fn compressed(last: bool, size: u32) -> (made: Result<Self, Error>)
        ensures
            made == Self::built(last, BlockType::Compressed, size),
    {
        Self::build(last, BlockType::Compressed, size)
    }

    /// The bytes this block's payload occupies on the wire.
    ///
    /// A compressed payload declares its own extent, so its header does not answer this.
    #[must_use]
    pub fn stored_len(&self) -> (stored: u32)
        requires
            self.kind != BlockType::Compressed,
        ensures
            stored == self.stored(),
    {
        match self.kind {
            BlockType::Rle => 1,
            _ => self.size,
        }
    }

    /// The bytes this block decodes to.
    #[must_use]
    pub fn decoded_len(&self) -> (decoded: u32)
        ensures
            decoded == self.size,
    {
        self.size
    }

    /// Serializes this header.
    #[must_use]
    pub fn encode(&self) -> (encoded: Encoded<BLOCK_HEADER_BYTES>)
        ensures
            encoded@ == self.wire(),
    {
        let code: u32 = match self.kind {
            BlockType::Raw => 0,
            BlockType::Rle => 1,
            BlockType::Compressed => 2,
        };
        let last: u32 = if self.last { 1 } else { 0 };
        let word: u32 = last + 2 * code + 8 * (self.size % 0x2000_0000);
        let mut writer = Writer::<BLOCK_HEADER_BYTES>::new();
        writer.put(word as u64, 4);
        proof {
            assert(writer@ =~= self.wire());
        }
        writer.finish()
    }

    /// Parses a block header and reports the bytes it consumed.
    ///
    /// Refuses with `UnsupportedFeature` a compressed block, with `CorruptData` the reserved
    /// block type or a size the format does not permit, and with `TruncatedInput` an input
    /// shorter than the header.
    pub fn decode(input: &[u8]) -> (read: Result<(Self, usize), Error>)
        ensures
            match block_read(input@) {
                Ok((header, used)) => read matches Ok((got, at)) && got == header && at == used,
                Err(error) => read == Err::<(Self, usize), Error>(error),
            },
    {
        let mut reader = Reader::new(input);
        let word: u64 = match reader.take(BLOCK_HEADER_BYTES) {
            Ok(word) => word,
            Err(error) => {
                return Err(error);
            },
        };
        proof {
            lemma_narrow(input@, 0);
        }
        let code: u64 = (word / 2) % 4;
        if code == 2 {
            return Err(Error::UnsupportedFeature(Feature::CompressedBlock));
        }
        if code == 3 {
            return Err(Error::CorruptData(Corruption::BlockType));
        }
        let kind = if code == 0 { BlockType::Raw } else { BlockType::Rle };
        let size: u32 = (word / 8) as u32;
        if size == 0 {
            return Err(Error::CorruptData(Corruption::BlockSize));
        }
        Ok((BlockHeader { last: word % 2 == 1, kind, size }, reader.position()))
    }

    /// Borrows this block's payload from the bytes that follow its header.
    ///
    /// Refuses with `TruncatedInput` an input shorter than the payload.
    pub fn payload<'a>(&self, input: &'a [u8]) -> (payload: Result<&'a [u8], Error>)
        requires
            self.kind != BlockType::Compressed,
        ensures
            self.stored() <= input@.len() ==> (payload matches Ok(stored) && stored@ == input@.take(
                self.stored() as int,
            )),
            self.stored() > input@.len() ==> payload == Err::<&'a [u8], Error>(
                Error::TruncatedInput { needed: self.stored() as usize },
            ),
    {
        let stored: usize = self.stored_len() as usize;
        if stored > input.len() {
            return Err(Error::TruncatedInput { needed: stored });
        }
        let payload = vstd::slice::slice_subrange(input, 0, stored);
        proof {
            assert(payload@ =~= input@.take(stored as int));
        }
        Ok(payload)
    }

    /// The content a stored payload expands to.
    pub open spec fn content(self, payload: Seq<u8>) -> Seq<u8> {
        if self.kind == BlockType::Rle {
            Seq::new(self.size as nat, |i: int| payload[0])
        } else {
            payload
        }
    }

    /// Writes this block's content into a caller-supplied buffer.
    ///
    /// Nothing is allocated. The caller sizes the buffer from `decoded_len`, which the
    /// header declared and this call validates against the payload it was given.
    ///
    /// Refuses with `OutputTooSmall` a buffer shorter than the declared size, and with
    /// `CorruptData` a payload that does not match what the header declared. A refusal writes
    /// nothing.
    pub fn expand(&self, payload: &[u8], out: &mut [u8]) -> (expanded: Result<usize, Error>)
        requires
            self.kind != BlockType::Compressed,
        ensures
            final(out)@.len() == old(out)@.len(),
            payload@.len() != self.stored() ==> expanded == Err::<usize, Error>(
                Error::CorruptData(Corruption::BlockSize),
            ) && final(out)@ == old(out)@,
            payload@.len() == self.stored() && old(out)@.len() < self.size ==> expanded == Err::<
                usize,
                Error,
            >(Error::OutputTooSmall { needed: self.size as usize }) && final(out)@ == old(out)@,
            payload@.len() == self.stored() && old(out)@.len() >= self.size ==> expanded == Ok::<
                usize,
                Error,
            >(self.size as usize) && final(out)@ == self.content(payload@) + old(out)@.skip(
                self.size as int,
            ),
    {
        let stored: usize = self.stored_len() as usize;
        let decoded: usize = self.decoded_len() as usize;
        if payload.len() != stored {
            return Err(Error::CorruptData(Corruption::BlockSize));
        }
        if out.len() < decoded {
            return Err(Error::OutputTooSmall { needed: decoded });
        }
        let mut at: usize = 0;
        while at < decoded
            invariant
                at <= decoded <= out@.len(),
                out@.len() == old(out)@.len(),
                decoded == self.size,
                self.kind != BlockType::Compressed,
                payload@.len() == self.stored(),
                forall|i: int|
                    0 <= i < at ==> #[trigger] out@[i] == self.content(payload@)[i],
                forall|i: int| at <= i < out@.len() ==> #[trigger] out@[i] == old(out)@[i],
            decreases decoded - at,
        {
            let byte: u8 = match self.kind {
                BlockType::Rle => payload[0],
                _ => payload[at],
            };
            out[at] = byte;
            at = at + 1;
        }
        proof {
            assert(out@ =~= self.content(payload@) + old(out)@.skip(self.size as int));
        }
        Ok(decoded)
    }

    /// The header of a type and a size, or the refusal of the size.
    pub open spec fn built(last: bool, kind: BlockType, size: u32) -> Result<Self, Error> {
        if size == 0 || size > MAX_BLOCK_BYTES {
            Err(Error::InvalidParameter)
        } else {
            Ok(BlockHeader { last, kind, size })
        }
    }

    fn build(last: bool, kind: BlockType, size: u32) -> (made: Result<Self, Error>)
        ensures
            made == Self::built(last, kind, size),
    {
        if size == 0 || size > MAX_BLOCK_BYTES {
            return Err(Error::InvalidParameter);
        }
        Ok(BlockHeader { last, kind, size })
    }
}

} // verus!
