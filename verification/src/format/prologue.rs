//! Owns the prologue of a compressed block: what a decoder learns about the four symbol streams
//! before it reads a byte of them.
//!
//! ```text
//! 1 byte    the symbol model
//! quantity  the table memory the block needs
//! 1 byte    the mode field, absent on the first block of a region
//! 4 x       the symbol count of each stream
//! 4 x       the bits of each description
//! 4 x       the bits of each payload
//! 4 x       the bits of each raw suffix
//! ```
//!
//! A quantity is written in seven-bit groups, so a small extent costs one byte. The four streams
//! stand in the order the alphabet list gives them, and the body holds the four descriptions,
//! then the four payloads, then the four suffixes, each padded to a byte.
//!
//! Everything a decoder refuses about a block's shape is refused here, before a description is
//! parsed or a table exists.

use vstd::prelude::*;
use vstd::arithmetic::power2::{lemma2_to64, lemma_pow2_strictly_increases};
use crate::entropy::bits::bytes_for;
use super::wire::{
    lemma_varint_bound, lemma_varint_len, lemma_varint_reads_back, lemma_varint_width, varint,
    varint_read, Encoded, Reader, Writer,
};
use super::{flag_set, Corruption, DecoderPolicy, Error, Feature};

verus! {

/// The symbol streams of one block.
pub const BLOCK_STREAMS: usize = 4;

/// The stream of the literal bytes.
pub const LITERAL_BYTE_STREAM: usize = 0;

/// The stream of the literal runs.
pub const LITERAL_RUN_STREAM: usize = 1;

/// The stream of the match lengths.
pub const MATCH_LENGTH_STREAM: usize = 2;

/// The stream of the match distances.
pub const MATCH_DISTANCE_STREAM: usize = 3;

/// The one symbol model this build implements.
pub const BLOCK_MODEL_V1: u8 = 1;

/// The bytes the widest prologue occupies.
pub const PROLOGUE_MAX_BYTES: usize = 172;

/// The place of one stream in the mode field.
pub open spec fn mode_unit(index: int) -> nat {
    if index == 0 {
        1
    } else if index == 1 {
        2
    } else if index == 2 {
        4
    } else {
        8
    }
}

/// What a prologue declares.
#[verifier::ext_equal]
pub struct Extents {
    pub table_bytes: u64,
    pub mode: u8,
    pub counts: Seq<u64>,
    pub description_bits: Seq<u64>,
    pub payload_bits: Seq<u64>,
    pub suffix_bits: Seq<u64>,
}

/// The wire bytes of several quantities.
pub open spec fn quantities_wire(values: Seq<u64>) -> Seq<u8>
    decreases values.len(),
{
    if values.len() == 0 {
        Seq::empty()
    } else {
        quantities_wire(values.drop_last()) + varint(values.last() as nat)
    }
}

/// Several quantities read at a position, and where they end.
pub open spec fn quantities_read(input: Seq<u8>, at: nat, count: nat) -> Result<
    (Seq<u64>, nat),
    Error,
>
    decreases count,
{
    if count == 0 {
        Ok((Seq::empty(), at))
    } else {
        match quantities_read(input, at, (count - 1) as nat) {
            Err(error) => Err(error),
            Ok((values, at)) => match varint_read(input, at, 0) {
                Err(error) => Err(error),
                Ok((value, next)) => Ok((values.push(value as u64), next)),
            },
        }
    }
}

/// The bytes several sections occupy, each padded to a byte.
pub open spec fn padded(bits: Seq<u64>) -> nat
    decreases bits.len(),
{
    if bits.len() == 0 {
        0
    } else {
        padded(bits.drop_last()) + bytes_for(bits.last() as nat)
    }
}

impl Extents {
    /// Whether a stream names the table already in force for its class.
    pub open spec fn repeats(self, index: int) -> bool {
        flag_set(self.mode, mode_unit(index))
    }

    /// Whether the four quantities of each kind are there.
    pub open spec fn four(self) -> bool {
        &&& self.counts.len() == 4
        &&& self.description_bits.len() == 4
        &&& self.payload_bits.len() == 4
        &&& self.suffix_bits.len() == 4
    }

    /// Whether no stream counts more symbols than the block decodes bytes.
    pub open spec fn counts_fit(self, decoded_size: u32) -> bool {
        forall|i: int| 0 <= i < 4 ==> #[trigger] self.counts[i] <= decoded_size
    }

    /// Whether the four counts describe one block.
    pub open spec fn counts_agree(self) -> bool {
        self.counts[1] == self.counts[2] && self.counts[3] <= self.counts[2]
    }

    /// Whether every stream that names a table carries symbols.
    pub open spec fn names_streams(self) -> bool {
        forall|i: int| 0 <= i < 4 && self.repeats(i) ==> #[trigger] self.counts[i] > 0
    }

    /// Whether exactly the streams that build a table carry a description.
    pub open spec fn descriptions_stand(self) -> bool {
        forall|i: int|
            0 <= i < 4 ==> (#[trigger] self.description_bits[i] > 0 <==> self.counts[i] > 0
                && !self.repeats(i))
    }

    /// Whether no stream declares a section its class does not carry.
    pub open spec fn sections_stand(self) -> bool {
        &&& self.suffix_bits[0] == 0
        &&& forall|i: int|
            0 <= i < 4 && #[trigger] self.counts[i] == 0 ==> self.payload_bits[i] == 0
                && self.suffix_bits[i] == 0
    }

    /// Whether a decoder admits the prologue of a block.
    pub open spec fn admissible(self, decoded_size: u32, first: bool, limit: u64) -> bool {
        &&& self.four()
        &&& self.table_bytes <= limit
        &&& self.mode < 16
        &&& first ==> self.mode == 0
        &&& self.counts_fit(decoded_size)
        &&& self.counts_agree()
        &&& self.names_streams()
        &&& self.descriptions_stand()
        &&& self.sections_stand()
    }

    /// The wire bytes of the prologue.
    pub open spec fn wire(self, first: bool) -> Seq<u8> {
        seq![BLOCK_MODEL_V1] + varint(self.table_bytes as nat) + (if first {
            Seq::<u8>::empty()
        } else {
            seq![self.mode]
        }) + quantities_wire(self.counts) + quantities_wire(self.description_bits)
            + quantities_wire(self.payload_bits) + quantities_wire(self.suffix_bits)
    }

    /// The bytes the body occupies.
    pub open spec fn body(self) -> nat {
        padded(self.description_bits) + padded(self.payload_bits) + padded(self.suffix_bits)
    }
}

/// The refusal of the counts of a block, where there is one.
pub open spec fn counts_refused(extents: Extents, decoded_size: u32) -> Option<Error> {
    if !extents.counts_fit(decoded_size) {
        Some(Error::CorruptData(Corruption::BlockCount))
    } else if !extents.counts_agree() {
        Some(Error::CorruptData(Corruption::SequenceCount))
    } else if !extents.names_streams() {
        Some(Error::CorruptData(Corruption::ModeStream))
    } else {
        None
    }
}

/// The refusal of the sections of a block, where there is one.
pub open spec fn sections_refused(extents: Extents) -> Option<Error> {
    if !extents.descriptions_stand() {
        Some(Error::CorruptData(Corruption::BlockDescription))
    } else if !extents.sections_stand() {
        Some(Error::CorruptData(Corruption::BlockSection))
    } else {
        None
    }
}

/// The mode field at a position, and where it ends.
pub open spec fn mode_read(input: Seq<u8>, at: nat, first: bool) -> Result<(u8, nat), Error> {
    if first {
        Ok((0, at))
    } else if at >= input.len() {
        Err(
            Error::TruncatedInput {
                needed: crate::entropy::least(at + 1, usize::MAX as nat) as usize,
            },
        )
    } else if input[at as int] >= 16 {
        Err(Error::CorruptData(Corruption::ModeReserved))
    } else {
        Ok((input[at as int], at + 1))
    }
}

/// The prologue the first bytes of a block hold and the bytes it occupies, or why it has none.
///
/// The model is checked first, then the declared table memory, then the mode field, then the
/// counts, then the sections.
pub open spec fn prologue_read(
    input: Seq<u8>,
    decoded_size: u32,
    first: bool,
    limit: u64,
) -> Result<(Extents, nat), Error> {
    if input.len() == 0 {
        Err(Error::TruncatedInput { needed: 1 })
    } else if input[0] != BLOCK_MODEL_V1 {
        Err(Error::UnsupportedFeature(Feature::BlockModel { model: input[0] }))
    } else {
        match varint_read(input, 1, 0) {
            Err(error) => Err(error),
            Ok((table_bytes, at)) => if table_bytes > limit {
                Err(Error::LimitExceeded { declared: table_bytes as u64, allowed: limit })
            } else {
                match mode_read(input, at, first) {
                    Err(error) => Err(error),
                    Ok((mode, at)) => counted_read(
                        input,
                        at,
                        decoded_size,
                        table_bytes as u64,
                        mode,
                    ),
                }
            },
        }
    }
}

/// The rest of a prologue, from its counts on.
pub open spec fn counted_read(
    input: Seq<u8>,
    at: nat,
    decoded_size: u32,
    table_bytes: u64,
    mode: u8,
) -> Result<(Extents, nat), Error> {
    match quantities_read(input, at, 4) {
        Err(error) => Err(error),
        Ok((counts, at)) => {
            let counted = Extents {
                table_bytes,
                mode,
                counts,
                description_bits: Seq::empty(),
                payload_bits: Seq::empty(),
                suffix_bits: Seq::empty(),
            };
            match counts_refused(counted, decoded_size) {
                Some(error) => Err(error),
                None => sections_read(input, at, counted),
            }
        },
    }
}

/// The rest of a prologue, from its descriptions on.
pub open spec fn sections_read(input: Seq<u8>, at: nat, counted: Extents) -> Result<
    (Extents, nat),
    Error,
> {
    match quantities_read(input, at, 4) {
        Err(error) => Err(error),
        Ok((description_bits, at)) => match quantities_read(input, at, 4) {
            Err(error) => Err(error),
            Ok((payload_bits, at)) => match quantities_read(input, at, 4) {
                Err(error) => Err(error),
                Ok((suffix_bits, at)) => {
                    let extents = Extents {
                        description_bits,
                        payload_bits,
                        suffix_bits,
                        ..counted
                    };
                    match sections_refused(extents) {
                        Some(error) => Err(error),
                        None => Ok((extents, at)),
                    }
                },
            },
        },
    }
}

/// What the prologue of a compressed block declares.
#[derive(Clone, Copy, Debug, PartialEq, Eq)]
pub struct BlockPrologue {
    /// The decode table memory the block needs, over the tables it builds and the ones it names.
    pub table_bytes: u64,
    /// The streams that name the table already in force for their class, one bit each.
    pub mode: u8,
    /// The symbols of each stream.
    pub counts: [u64; 4],
    /// The bits of each stream's table description.
    pub description_bits: [u64; 4],
    /// The bits of each stream's coded symbols.
    pub payload_bits: [u64; 4],
    /// The bits of each stream's raw suffixes.
    pub suffix_bits: [u64; 4],
}

/// What a prologue declares about one stream.
#[derive(Clone, Copy, Debug, PartialEq, Eq)]
pub struct StreamExtents {
    /// The symbols the stream carries.
    pub count: u64,
    /// Whether the stream names the table already in force for its class.
    pub repeats: bool,
    /// The bits of the stream's table description.
    pub description_bits: u64,
    /// The bits of the stream's coded symbols.
    pub payload_bits: u64,
    /// The bits of the stream's raw suffixes.
    pub suffix_bits: u64,
}

impl View for BlockPrologue {
    type V = Extents;

    open spec fn view(&self) -> Extents {
        Extents {
            table_bytes: self.table_bytes,
            mode: self.mode,
            counts: self.counts@,
            description_bits: self.description_bits@,
            payload_bits: self.payload_bits@,
            suffix_bits: self.suffix_bits@,
        }
    }
}

impl Default for BlockPrologue {
    fn default() -> (prologue: Self)
        ensures
            prologue@ == (Extents {
                table_bytes: 0,
                mode: 0,
                counts: seq![0, 0, 0, 0],
                description_bits: seq![0, 0, 0, 0],
                payload_bits: seq![0, 0, 0, 0],
                suffix_bits: seq![0, 0, 0, 0],
            }),
    {
        let prologue = BlockPrologue {
            table_bytes: 0,
            mode: 0,
            counts: [0, 0, 0, 0],
            description_bits: [0, 0, 0, 0],
            payload_bits: [0, 0, 0, 0],
            suffix_bits: [0, 0, 0, 0],
        };
        proof {
            assert(prologue.counts@ =~= seq![0u64, 0, 0, 0]);
            assert(prologue.description_bits@ =~= seq![0u64, 0, 0, 0]);
            assert(prologue.payload_bits@ =~= seq![0u64, 0, 0, 0]);
            assert(prologue.suffix_bits@ =~= seq![0u64, 0, 0, 0]);
        }
        prologue
    }
}

/// The bit of the mode field that one stream owns.
///
/// Refuses an index no stream has.
pub fn mode_mask(index: usize) -> (mask: Result<u8, Error>)
    ensures
        index < 4 ==> mask == Ok::<u8, Error>(mode_unit(index as int) as u8),
        index >= 4 ==> mask == Err::<u8, Error>(Error::InvalidParameter),
{
    match index {
        0 => Ok(1),
        1 => Ok(2),
        2 => Ok(4),
        3 => Ok(8),
        _ => Err(Error::InvalidParameter),
    }
}

/// Whether a mode field names the table in force for one stream.
fn names(mode: u8, index: usize) -> (named: bool)
    requires
        index < 4,
    ensures
        named == flag_set(mode, mode_unit(index as int)),
{
    assert(mode / 1 == mode);
    match index {
        0 => mode % 2 == 1,
        1 => (mode / 2) % 2 == 1,
        2 => (mode / 4) % 2 == 1,
        _ => (mode / 8) % 2 == 1,
    }
}

/// The bytes a section of this many bits occupies.
fn section_bytes(bits: u64) -> (bytes: u64)
    ensures
        bytes as nat == bytes_for(bits as nat),
{
    bits / 8 + if bits % 8 == 0 { 0 } else { 1 }
}

/// The bytes four sections occupy.
fn padded_bytes(bits: &[u64; 4]) -> (bytes: u64)
    ensures
        bytes as nat == padded(bits@),
        bytes <= 4 * 0x2000_0000_0000_0000,
{
    proof {
        reveal_with_fuel(padded, 5);
        let all = bits@;
        assert(all.drop_last().drop_last().drop_last().drop_last() =~= Seq::empty());
    }
    section_bytes(bits[0]) + section_bytes(bits[1]) + section_bytes(bits[2]) + section_bytes(
        bits[3],
    )
}

/// Four quantities, one after another.
fn read_four(reader: &mut Reader<'_>) -> (read: Result<[u64; 4], Error>)
    ensures
        final(reader).input() == old(reader).input(),
        match quantities_read(old(reader).input(), old(reader).at(), 4) {
            Ok((values, next)) => read matches Ok(four) && four@ == values && final(reader).at()
                == next,
            Err(error) => read == Err::<[u64; 4], Error>(error),
        },
{
    let ghost input = reader.input();
    let ghost start = reader.at();
    let mut four: [u64; 4] = [0, 0, 0, 0];
    let mut index: usize = 0;
    proof {
        assert(four@.take(0) =~= Seq::empty());
    }
    while index < 4
        invariant
            index <= 4,
            reader.input() == input,
            input == old(reader).input(),
            start == old(reader).at(),
            quantities_read(input, start, index as nat) == Ok::<(Seq<u64>, nat), Error>(
                (four@.take(index as int), reader.at()),
            ),
        decreases 4 - index,
    {
        proof {
            lemma_quantities_refusal(input, start, index as nat + 1, 4);
        }
        let ghost before = four@;
        match reader.varint() {
            Ok(value) => {
                four[index] = value;
                proof {
                    assert(four@.take(index + 1) =~= before.take(index as int).push(value));
                }
            },
            Err(error) => {
                return Err(error);
            },
        }
        index = index + 1;
    }
    proof {
        assert(four@.take(4) =~= four@);
    }
    Ok(four)
}

proof fn lemma_quantities_refusal(input: Seq<u8>, at: nat, count: nat, total: nat)
    requires
        count <= total,
    ensures
        quantities_read(input, at, count) matches Err(error) ==> quantities_read(input, at, total)
            == Err::<(Seq<u64>, nat), Error>(error),
    decreases total,
{
    if count < total {
        lemma_quantities_refusal(input, at, count, (total - 1) as nat);
    }
}

/// Four quantities occupy at most forty bytes.
proof fn lemma_quantities_len(values: Seq<u64>)
    ensures
        quantities_wire(values).len() <= 10 * values.len(),
    decreases values.len(),
{
    if values.len() > 0 {
        lemma_quantities_len(values.drop_last());
        lemma_quantity_len(values.last());
    }
}

/// A prologue occupies at least one byte and at most what its longest fields do.
pub proof fn lemma_wire_len(extents: Extents, first: bool)
    requires
        extents.counts.len() == 4,
        extents.description_bits.len() == 4,
        extents.payload_bits.len() == 4,
        extents.suffix_bits.len() == 4,
    ensures
        1 <= extents.wire(first).len() <= PROLOGUE_MAX_BYTES,
{
    lemma_quantity_len(extents.table_bytes);
    lemma_quantities_len(extents.counts);
    lemma_quantities_len(extents.description_bits);
    lemma_quantities_len(extents.payload_bits);
    lemma_quantities_len(extents.suffix_bits);
}

/// A quantity occupies at most ten bytes.
proof fn lemma_quantity_len(value: u64)
    ensures
        1 <= varint(value as nat).len() <= 10,
{
    lemma2_to64();
    lemma_pow2_strictly_increases(64, 70);
    lemma_varint_len(value as nat);
    lemma_varint_width(value as nat, 10);
}

/// Writes four quantities, one after another.
fn put_four<const N: usize>(writer: &mut Writer<N>, values: &[u64; 4])
    requires
        old(writer)@.len() + 40 <= N,
    ensures
        final(writer)@ == old(writer)@ + quantities_wire(values@),
{
    let ghost before = writer@;
    let mut index: usize = 0;
    proof {
        assert(values@.take(0) =~= Seq::empty());
        assert(before + quantities_wire(values@.take(0)) =~= before);
    }
    while index < 4
        invariant
            index <= 4,
            before.len() + 40 <= N,
            writer@ == before + quantities_wire(values@.take(index as int)),
        decreases 4 - index,
    {
        let value: u64 = values[index];
        let ghost here = values@.take(index as int);
        let ghost next = values@.take(index + 1);
        proof {
            assert(next.drop_last() =~= here);
            assert(next.last() == value);
            lemma_quantities_len(here);
            lemma_quantity_len(value);
        }
        writer.put_varint(value);
        proof {
            assert(writer@ =~= before + quantities_wire(next));
        }
        index = index + 1;
    }
    proof {
        assert(values@.take(4) =~= values@);
    }
}

impl BlockPrologue {
    /// Serializes this prologue, with the mode field where the block is not the first of its
    /// region.
    #[must_use]
    pub fn encode(&self, first_in_region: bool) -> (encoded: Encoded<PROLOGUE_MAX_BYTES>)
        ensures
            encoded@ == self@.wire(first_in_region),
    {
        let mut writer = Writer::<PROLOGUE_MAX_BYTES>::new();
        writer.push(BLOCK_MODEL_V1);
        proof {
            lemma_quantity_len(self.table_bytes);
            lemma_quantities_len(self.counts@);
            lemma_quantities_len(self.description_bits@);
            lemma_quantities_len(self.payload_bits@);
            lemma_quantities_len(self.suffix_bits@);
        }
        writer.put_varint(self.table_bytes);
        if !first_in_region {
            writer.push(self.mode);
        }
        let ghost head = seq![BLOCK_MODEL_V1] + varint(self.table_bytes as nat) + (
        if first_in_region {
            Seq::<u8>::empty()
        } else {
            seq![self.mode]
        });
        proof {
            assert(writer@ =~= head);
        }
        put_four(&mut writer, &self.counts);
        put_four(&mut writer, &self.description_bits);
        put_four(&mut writer, &self.payload_bits);
        put_four(&mut writer, &self.suffix_bits);
        writer.finish()
    }

    /// Parses a prologue and reports the bytes it consumed.
    ///
    /// Refuses with `UnsupportedFeature` a symbol model this build does not implement, with
    /// `LimitExceeded` a declared table memory above what policy allows, with `CorruptData` a
    /// field that contradicts another or the decoded size, and with `TruncatedInput` an input
    /// that ends inside the prologue.
    pub fn decode(
        arrived: &[u8],
        decoded_size: u32,
        first_in_region: bool,
        policy: &DecoderPolicy,
    ) -> (read: Result<(Self, usize), Error>)
        ensures
            match prologue_read(arrived@, decoded_size, first_in_region, policy.table_limit()) {
                Ok((extents, used)) => read matches Ok((prologue, at)) && prologue@ == extents && at
                    == used,
                Err(error) => read == Err::<(Self, usize), Error>(error),
            },
    {
        if arrived.len() == 0 {
            return Err(Error::TruncatedInput { needed: 1 });
        }
        let mut reader = Reader::new(arrived);
        let model: u8 = arrived[0];
        if model != BLOCK_MODEL_V1 {
            return Err(Error::UnsupportedFeature(Feature::BlockModel { model }));
        }
        let _skipped = reader.take(1);
        let table_bytes: u64 = match reader.varint() {
            Ok(value) => value,
            Err(error) => {
                return Err(error);
            },
        };
        match policy.admit_table_bytes(table_bytes) {
            Ok(_) => {},
            Err(error) => {
                return Err(error);
            },
        }
        let mode: u8 = if first_in_region {
            0
        } else {
            let at: usize = reader.position();
            if at >= arrived.len() {
                return Err(Error::TruncatedInput { needed: at.saturating_add(1) });
            }
            let mode: u8 = arrived[at];
            let _skipped = reader.take(1);
            if mode >= 16 {
                return Err(Error::CorruptData(Corruption::ModeReserved));
            }
            mode
        };
        let counts: [u64; 4] = match read_four(&mut reader) {
            Ok(counts) => counts,
            Err(error) => {
                return Err(error);
            },
        };
        match check_counts(table_bytes, mode, &counts, decoded_size) {
            Some(error) => {
                return Err(error);
            },
            None => {},
        }
        let description_bits: [u64; 4] = match read_four(&mut reader) {
            Ok(bits) => bits,
            Err(error) => {
                return Err(error);
            },
        };
        let payload_bits: [u64; 4] = match read_four(&mut reader) {
            Ok(bits) => bits,
            Err(error) => {
                return Err(error);
            },
        };
        let suffix_bits: [u64; 4] = match read_four(&mut reader) {
            Ok(bits) => bits,
            Err(error) => {
                return Err(error);
            },
        };
        let prologue = BlockPrologue {
            table_bytes,
            mode,
            counts,
            description_bits,
            payload_bits,
            suffix_bits,
        };
        match prologue.check_sections() {
            Some(error) => {
                return Err(error);
            },
            None => {},
        }
        Ok((prologue, reader.position()))
    }

    /// The bytes the block's body occupies, or nothing when 64 bits do not hold the sum.
    #[must_use]
    pub fn body_bytes(&self) -> (bytes: Option<u64>)
        ensures
            self@.body() <= u64::MAX ==> bytes == Some(self@.body() as u64),
            self@.body() > u64::MAX ==> bytes is None,
    {
        let descriptions: u64 = padded_bytes(&self.description_bits);
        let payloads: u64 = padded_bytes(&self.payload_bits);
        let suffixes: u64 = padded_bytes(&self.suffix_bits);
        match descriptions.checked_add(payloads) {
            Some(bytes) => bytes.checked_add(suffixes),
            None => None,
        }
    }

    /// What this prologue declares about one stream, or nothing for an index no stream has.
    #[must_use]
    pub fn stream(&self, index: usize) -> (stream: Option<StreamExtents>)
        ensures
            index < 4 ==> stream == Some(
                StreamExtents {
                    count: self@.counts[index as int],
                    repeats: self@.repeats(index as int),
                    description_bits: self@.description_bits[index as int],
                    payload_bits: self@.payload_bits[index as int],
                    suffix_bits: self@.suffix_bits[index as int],
                },
            ),
            index >= 4 ==> stream is None,
    {
        if index >= BLOCK_STREAMS {
            return None;
        }
        Some(
            StreamExtents {
                count: self.counts[index],
                repeats: names(self.mode, index),
                description_bits: self.description_bits[index],
                payload_bits: self.payload_bits[index],
                suffix_bits: self.suffix_bits[index],
            },
        )
    }

    /// The refusal of the sections this prologue declares, where there is one.
    fn check_sections(&self) -> (refusal: Option<Error>)
        ensures
            refusal == sections_refused(self@),
    {
        let mut index: usize = 0;
        while index < BLOCK_STREAMS
            invariant
                index <= 4,
                forall|i: int|
                    0 <= i < index ==> (#[trigger] self@.description_bits[i] > 0
                        <==> self@.counts[i] > 0 && !self@.repeats(i)),
            decreases 4 - index,
        {
            let builds: bool = self.counts[index] > 0 && !names(self.mode, index);
            if (self.description_bits[index] > 0) != builds {
                proof {
                    assert(self@.description_bits[index as int] == self.description_bits[index as int]);
                }
                return Some(Error::CorruptData(Corruption::BlockDescription));
            }
            index = index + 1;
        }
        if self.suffix_bits[LITERAL_BYTE_STREAM] > 0 {
            return Some(Error::CorruptData(Corruption::BlockSection));
        }
        index = 0;
        while index < BLOCK_STREAMS
            invariant
                index <= 4,
                self@.descriptions_stand(),
                self@.suffix_bits[0] == 0,
                forall|i: int|
                    0 <= i < index && #[trigger] self@.counts[i] == 0 ==> self@.payload_bits[i] == 0
                        && self@.suffix_bits[i] == 0,
            decreases 4 - index,
        {
            if self.counts[index] == 0 && (self.payload_bits[index] > 0 || self.suffix_bits[index]
                > 0) {
                proof {
                    assert(self@.counts[index as int] == 0);
                }
                return Some(Error::CorruptData(Corruption::BlockSection));
            }
            index = index + 1;
        }
        None
    }
}


/// The refusal of the counts a prologue declares, where there is one.
fn check_counts(table_bytes: u64, mode: u8, counts: &[u64; 4], decoded_size: u32) -> (refusal:
    Option<Error>)
    ensures
        refusal == counts_refused(
            Extents {
                table_bytes,
                mode,
                counts: counts@,
                description_bits: Seq::empty(),
                payload_bits: Seq::empty(),
                suffix_bits: Seq::empty(),
            },
            decoded_size,
        ),
{
    let ghost extents = Extents {
        table_bytes,
        mode,
        counts: counts@,
        description_bits: Seq::empty(),
        payload_bits: Seq::empty(),
        suffix_bits: Seq::empty(),
    };
    let mut index: usize = 0;
    while index < BLOCK_STREAMS
        invariant
            index <= 4,
            extents.counts == counts@,
            forall|i: int| 0 <= i < index ==> #[trigger] extents.counts[i] <= decoded_size,
        decreases 4 - index,
    {
        if counts[index] > decoded_size as u64 {
            proof {
                assert(extents.counts[index as int] > decoded_size);
            }
            return Some(Error::CorruptData(Corruption::BlockCount));
        }
        index = index + 1;
    }
    if counts[LITERAL_RUN_STREAM] != counts[MATCH_LENGTH_STREAM] || counts[MATCH_DISTANCE_STREAM]
        > counts[MATCH_LENGTH_STREAM] {
        return Some(Error::CorruptData(Corruption::SequenceCount));
    }
    index = 0;
    while index < BLOCK_STREAMS
        invariant
            index <= 4,
            extents.counts == counts@,
            extents.mode == mode,
            extents.counts_fit(decoded_size),
            extents.counts_agree(),
            forall|i: int|
                0 <= i < index && extents.repeats(i) ==> #[trigger] extents.counts[i] > 0,
        decreases 4 - index,
    {
        if counts[index] == 0 && names(mode, index) {
            proof {
                assert(extents.counts[index as int] == 0);
            }
            return Some(Error::CorruptData(Corruption::ModeStream));
        }
        index = index + 1;
    }
    None
}

/// Quantities read back where they were written.
proof fn lemma_quantities_read_back(input: Seq<u8>, at: nat, values: Seq<u64>)
    requires
        at + quantities_wire(values).len() <= input.len(),
        input.subrange(at as int, (at + quantities_wire(values).len()) as int) == quantities_wire(
            values,
        ),
    ensures
        quantities_read(input, at, values.len()) == Ok::<(Seq<u64>, nat), Error>(
            (values, at + quantities_wire(values).len()),
        ),
    decreases values.len(),
{
    let all = quantities_wire(values);
    if values.len() > 0 {
        let front = values.drop_last();
        let last = values.last();
        let head = quantities_wire(front);
        let tail = varint(last as nat);
        let window = input.subrange(at as int, (at + all.len()) as int);
        assert(input.subrange(at as int, (at + head.len()) as int) =~= window.take(
            head.len() as int,
        ));
        assert(window.take(head.len() as int) =~= head);
        lemma_quantities_read_back(input, at, front);
        let next = at + head.len();
        assert(input.subrange(next as int, (next + tail.len()) as int) =~= window.skip(
            head.len() as int,
        ));
        assert(window.skip(head.len() as int) =~= tail);
        lemma2_to64();
        lemma_varint_reads_back(input, next, 0, last as nat);
        assert(front.push(last) =~= values);
    } else {
        assert(values =~= Seq::empty());
    }
}

/// Where each part of a prologue stands in an input that starts with it.
proof fn lemma_parts(extents: Extents, first: bool, rest: Seq<u8>)
    ensures
        ({
            let input = extents.wire(first) + rest;
            let table = varint(extents.table_bytes as nat);
            let a = 1 + table.len();
            let b = a + (if first {
                0nat
            } else {
                1
            });
            let c = b + quantities_wire(extents.counts).len();
            let d = c + quantities_wire(extents.description_bits).len();
            let e = d + quantities_wire(extents.payload_bits).len();
            let f = e + quantities_wire(extents.suffix_bits).len();
            &&& input.len() == f + rest.len()
            &&& extents.wire(first).len() == f
            &&& input[0] == BLOCK_MODEL_V1
            &&& input.subrange(1, a as int) == table
            &&& !first ==> input[a as int] == extents.mode
            &&& input.subrange(b as int, c as int) == quantities_wire(extents.counts)
            &&& input.subrange(c as int, d as int) == quantities_wire(extents.description_bits)
            &&& input.subrange(d as int, e as int) == quantities_wire(extents.payload_bits)
            &&& input.subrange(e as int, f as int) == quantities_wire(extents.suffix_bits)
        }),
{
    let p0 = seq![BLOCK_MODEL_V1];
    let p1 = varint(extents.table_bytes as nat);
    let p2 = if first {
        Seq::<u8>::empty()
    } else {
        seq![extents.mode]
    };
    let p3 = quantities_wire(extents.counts);
    let p4 = quantities_wire(extents.description_bits);
    let p5 = quantities_wire(extents.payload_bits);
    let p6 = quantities_wire(extents.suffix_bits);
    let input = extents.wire(first) + rest;
    let s1 = p0 + p1;
    let s2 = s1 + p2;
    let s3 = s2 + p3;
    let s4 = s3 + p4;
    let s5 = s4 + p5;
    let s6 = s5 + p6;
    assert(input == s6 + rest);
    lemma_middle(s5, p6, rest);
    assert(input =~= s4 + p5 + (p6 + rest));
    lemma_middle(s4, p5, p6 + rest);
    assert(input =~= s3 + p4 + (p5 + p6 + rest));
    lemma_middle(s3, p4, p5 + p6 + rest);
    assert(input =~= s2 + p3 + (p4 + p5 + p6 + rest));
    lemma_middle(s2, p3, p4 + p5 + p6 + rest);
    assert(input =~= s1 + p2 + (p3 + p4 + p5 + p6 + rest));
    lemma_middle(s1, p2, p3 + p4 + p5 + p6 + rest);
    assert(input =~= p0 + p1 + (p2 + p3 + p4 + p5 + p6 + rest));
    lemma_middle(p0, p1, p2 + p3 + p4 + p5 + p6 + rest);
    if !first {
        assert(input.subrange(s1.len() as int, s1.len() as int + 1)[0] == p2[0]);
    }
}

/// What stands between two sequences stands there in their sum.
proof fn lemma_middle(before: Seq<u8>, part: Seq<u8>, after: Seq<u8>)
    ensures
        (before + part + after).subrange(
            before.len() as int,
            (before.len() + part.len()) as int,
        ) == part,
{
    assert((before + part + after).subrange(
        before.len() as int,
        (before.len() + part.len()) as int,
    ) =~= part);
}

/// A prologue a decoder admits reads back from its wire bytes, whatever follows them.
pub proof fn law_prologue_reads_back(
    extents: Extents,
    decoded_size: u32,
    first: bool,
    limit: u64,
    rest: Seq<u8>,
)
    requires
        extents.admissible(decoded_size, first, limit),
    ensures
        prologue_read(extents.wire(first) + rest, decoded_size, first, limit) == Ok::<
            (Extents, nat),
            Error,
        >((extents, extents.wire(first).len())),
{
    let input = extents.wire(first) + rest;
    lemma2_to64();
    lemma_parts(extents, first, rest);
    let table = varint(extents.table_bytes as nat);
    let a = 1 + table.len();
    let b = a + (if first {
        0nat
    } else {
        1
    });
    let c = b + quantities_wire(extents.counts).len();
    let d = c + quantities_wire(extents.description_bits).len();
    let e = d + quantities_wire(extents.payload_bits).len();
    lemma_varint_reads_back(input, 1, 0, extents.table_bytes as nat);
    lemma_quantities_read_back(input, b, extents.counts);
    lemma_quantities_read_back(input, c, extents.description_bits);
    lemma_quantities_read_back(input, d, extents.payload_bits);
    lemma_quantities_read_back(input, e, extents.suffix_bits);
    let counted = Extents {
        table_bytes: extents.table_bytes,
        mode: extents.mode,
        counts: extents.counts,
        description_bits: Seq::empty(),
        payload_bits: Seq::empty(),
        suffix_bits: Seq::empty(),
    };
    assert(counted.counts_fit(decoded_size));
    assert(counted.counts_agree());
    assert(counted.names_streams()) by {
        assert forall|i: int| 0 <= i < 4 && counted.repeats(i) implies #[trigger] counted.counts[i]
            > 0 by {
            assert(extents.repeats(i));
            assert(extents.counts[i] > 0);
        }
    }
    assert(sections_read(input, c, counted) == Ok::<(Extents, nat), Error>(
        (extents, extents.wire(first).len()),
    ));
}

/// A prologue that reads is one a decoder admits.
pub proof fn law_read_prologue_is_admissible(
    input: Seq<u8>,
    decoded_size: u32,
    first: bool,
    limit: u64,
)
    requires
        prologue_read(input, decoded_size, first, limit) is Ok,
    ensures
        ({
            let (extents, used) = prologue_read(input, decoded_size, first, limit)->Ok_0;
            &&& extents.admissible(decoded_size, first, limit)
            &&& used <= input.len()
        }),
{
    let (extents, used) = prologue_read(input, decoded_size, first, limit)->Ok_0;
    lemma2_to64();
    lemma_varint_bound(input, 1, 0);
    let (table_bytes, a) = varint_read(input, 1, 0)->Ok_0;
    let (mode, b) = mode_read(input, a, first)->Ok_0;
    lemma_quantities_bound(input, b, 4);
    let (counts, c) = quantities_read(input, b, 4)->Ok_0;
    lemma_quantities_bound(input, c, 4);
    let (description_bits, d) = quantities_read(input, c, 4)->Ok_0;
    lemma_quantities_bound(input, d, 4);
    let (payload_bits, e) = quantities_read(input, d, 4)->Ok_0;
    lemma_quantities_bound(input, e, 4);
    let counted = Extents {
        table_bytes: table_bytes as u64,
        mode,
        counts,
        description_bits: Seq::empty(),
        payload_bits: Seq::empty(),
        suffix_bits: Seq::empty(),
    };
    assert(counts_refused(counted, decoded_size) is None);
    assert(extents.counts == counted.counts);
    assert forall|i: int| 0 <= i < 4 && extents.repeats(i) implies #[trigger] extents.counts[i]
        > 0 by {
        assert(counted.repeats(i));
        assert(counted.counts[i] > 0);
    }
    assert forall|i: int| 0 <= i < 4 implies #[trigger] extents.counts[i] <= decoded_size by {
        assert(counted.counts[i] <= decoded_size);
    }
}

/// Quantities that read end inside their input.
proof fn lemma_quantities_bound(input: Seq<u8>, at: nat, count: nat)
    requires
        at <= input.len(),
    ensures
        quantities_read(input, at, count) matches Ok((values, next)) ==> values.len() == count && at
            <= next <= input.len(),
    decreases count,
{
    if count > 0 {
        lemma_quantities_bound(input, at, (count - 1) as nat);
        if let Ok((_, next)) = quantities_read(input, at, (count - 1) as nat) {
            lemma_varint_bound(input, next, 0);
        }
    }
}

} // verus!
