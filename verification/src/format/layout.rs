//! Owns where the fields of the frame stand, byte by byte, and when a reader asks for more.

use vstd::arithmetic::power2::*;
use vstd::prelude::*;

use super::laws::{law_frame_header_reads_back, law_region_header_reads_back};
use super::wire::{field, le_value, lemma_field_reads_back, lemma_le_len, varint_read};
use super::{
    block_read, frame_read, record_read, BlockHeader, BlockType, Corruption, Error,
    Feature, FrameHeader, IntegrityMode, Record, RegionHeader, RegionIndependence, ResourceClass,
};

verus! {

/// The four bytes at a position as a number, least significant first.
pub open spec fn four_bytes(input: Seq<u8>, at: int) -> nat {
    (input[at] + 256 * input[at + 1] + 65_536 * input[at + 2] + 16_777_216 * input[at + 3]) as nat
}

/// The eight bytes at a position as a number, least significant first.
pub open spec fn eight_bytes(input: Seq<u8>, at: int) -> nat {
    four_bytes(input, at) + 4_294_967_296 * four_bytes(input, at + 4)
}

/// A field is the number its bytes spell.
#[verifier::spinoff_prover]
proof fn lemma_field_bytes(input: Seq<u8>, at: nat)
    ensures
        at + 4 <= input.len() ==> field(input, at, 4) == four_bytes(input, at as int),
        at + 8 <= input.len() ==> field(input, at, 8) == eight_bytes(input, at as int),
{
    reveal_with_fuel(le_value, 9);
    if at + 4 <= input.len() {
        let a0 = input.subrange(at as int, (at + 4) as int);
        assert(a0.skip(1).skip(1) =~= a0.skip(2));
        assert(a0.skip(2).skip(1) =~= a0.skip(3));
        assert(a0.skip(3).skip(1).len() == 0);
        assert(le_value(a0.skip(3).skip(1)) == 0);
        assert(le_value(a0) == four_bytes(input, at as int));
    }
    if at + 8 <= input.len() {
        let b0 = input.subrange(at as int, (at + 8) as int);
        let b4 = input.subrange((at + 4) as int, (at + 8) as int);
        assert(b0.skip(1).skip(1) =~= b0.skip(2));
        assert(b0.skip(2).skip(1) =~= b0.skip(3));
        assert(b0.skip(3).skip(1) =~= b4);
        assert(b4.skip(1).skip(1) =~= b4.skip(2));
        assert(b4.skip(2).skip(1) =~= b4.skip(3));
        assert(b4.skip(3).skip(1).len() == 0);
        assert(le_value(b4.skip(3).skip(1)) == 0);
        assert(le_value(b4) == four_bytes(input, (at + 4) as int));
    }
}

/// Where the optional fields of a frame header stand: the content length first, the dictionary
/// after it, the index last.
pub open spec fn optional_places(header: FrameHeader) -> (int, int, int) {
    let dictionary = 16 + if header.content_length is Some {
        8int
    } else {
        0
    };
    let index = dictionary + if header.dictionary_id is Some {
        4int
    } else {
        0
    };
    (16, dictionary, index)
}

/// A frame header on the wire: the magic, the version, the flags, the resource class and the
/// integrity mode in the first eight bytes, eight bytes of zero, and the optional fields that are
/// there, in their order.
#[verifier::spinoff_prover]
#[verifier::rlimit(60)]
pub proof fn law_frame_header_places_its_fields(header: FrameHeader)
    ensures
        ({
            let bytes = header.wire();
            let (content, dictionary, index) = optional_places(header);
            &&& bytes.len() == index + if header.index_location is Some {
                8int
            } else {
                0
            }
            &&& bytes[0] == 0xE7 && bytes[1] == 0x51 && bytes[2] == 0xB3 && bytes[3] == 0x2A
            &&& bytes[4] == 1
            &&& bytes[5] < 16
            &&& bytes[5] % 2 == 1 <==> header.independence == RegionIndependence::Independent
            &&& (bytes[5] / 2) % 2 == 1 <==> header.content_length is Some
            &&& (bytes[5] / 4) % 2 == 1 <==> header.dictionary_id is Some
            &&& bytes[5] / 8 == 1 <==> header.index_location is Some
            &&& bytes[6] == match header.resource_class {
                ResourceClass::Minimal => 0u8,
                ResourceClass::Small => 1,
                ResourceClass::Medium => 2,
                ResourceClass::Large => 3,
                ResourceClass::Huge => 4,
            }
            &&& bytes[7] == match header.integrity {
                IntegrityMode::Absent => 0u8,
                IntegrityMode::PerRegion => 1,
            }
            &&& four_bytes(bytes, 8) == 0 && four_bytes(bytes, 12) == 0
            &&& header.content_length matches Some(value) ==> eight_bytes(bytes, content) == value
            &&& header.dictionary_id matches Some(value) ==> four_bytes(bytes, dictionary) == value
            &&& header.index_location matches Some(value) ==> eight_bytes(bytes, index) == value
        }),
{
    let bytes = header.wire();
    let (content, dictionary, index) = optional_places(header);
    law_frame_header_reads_back(header, Seq::empty());
    assert(bytes + Seq::<u8>::empty() =~= bytes);
    lemma_field_bytes(bytes, 0);
    lemma_field_bytes(bytes, 8);
    lemma_field_bytes(bytes, 12);
    lemma_field_bytes(bytes, content as nat);
    lemma_field_bytes(bytes, dictionary as nat);
    lemma_field_bytes(bytes, index as nat);
    assert(four_bytes(bytes, 0) == 0x2AB3_51E7);
    assert(0x2AB3_51E7 == 0xE7 + 256 * 0x51 + 65_536 * 0xB3 + 16_777_216 * 0x2A);
}

/// A class asks for the history it is named by, sixteen times more for the second, and eight,
/// eight and four times more for the ones after it.
pub proof fn law_classes_ask_for_their_history()
    ensures
        ResourceClass::Minimal.history() == 64 * 1024,
        ResourceClass::Small.history() == 16 * ResourceClass::Minimal.history(),
        ResourceClass::Medium.history() == 8 * ResourceClass::Small.history(),
        ResourceClass::Large.history() == 8 * ResourceClass::Medium.history(),
        ResourceClass::Huge.history() == 4 * ResourceClass::Large.history(),
{
}

/// Why a frame header is refused, in the order the reasons are looked at: another magic as soon as
/// there are four bytes, fewer than sixteen bytes, another version, an unknown flag, a reserved
/// word, a feature word, an unknown class, an unknown integrity mode.
pub proof fn law_frame_headers_are_refused_in_order(input: Seq<u8>)
    ensures
        input.len() >= 4 && four_bytes(input, 0) != 0x2AB3_51E7 ==> frame_read(input) == Err::<
            (FrameHeader, nat),
            Error,
        >(Error::InvalidFormat),
        input.len() < 16 && (input.len() >= 4 ==> four_bytes(input, 0) == 0x2AB3_51E7)
            ==> frame_read(input) == Err::<(FrameHeader, nat), Error>(
            Error::TruncatedInput { needed: 16 },
        ),
        input.len() >= 16 && four_bytes(input, 0) == 0x2AB3_51E7 ==> {
            let answer = frame_read(input);
            if input[4] != 1 {
                answer == Err::<(FrameHeader, nat), Error>(
                    Error::UnsupportedVersion { major: input[4] },
                )
            } else if input[5] > 15 {
                answer == Err::<(FrameHeader, nat), Error>(
                    Error::CorruptData(Corruption::FrameFlag),
                )
            } else if four_bytes(input, 12) != 0 {
                answer == Err::<(FrameHeader, nat), Error>(
                    Error::CorruptData(Corruption::FrameReserved),
                )
            } else if four_bytes(input, 8) != 0 {
                answer == Err::<(FrameHeader, nat), Error>(
                    Error::UnsupportedFeature(Feature::ReservedFrameFlag),
                )
            } else if input[6] > 4 {
                answer == Err::<(FrameHeader, nat), Error>(
                    Error::CorruptData(Corruption::ResourceClass),
                )
            } else if input[7] > 1 {
                answer == Err::<(FrameHeader, nat), Error>(
                    Error::CorruptData(Corruption::IntegrityMode),
                )
            } else {
                &&& answer is Err ==> answer->Err_0 is TruncatedInput
                &&& input.len() >= 36 ==> answer is Ok
            }
        },
{
    lemma_field_bytes(input, 0);
    lemma_field_bytes(input, 8);
    lemma_field_bytes(input, 12);
}

/// What a frame header is answered stands. A header read, or refused for any reason but its
/// length, is answered the same with more bytes behind it. A need is for more bytes than there
/// are, and is never asked again once they are there.
#[verifier::spinoff_prover]
#[verifier::rlimit(60)]
pub proof fn law_a_frame_header_is_answered_once(input: Seq<u8>, more: Seq<u8>)
    ensures
        match frame_read(input) {
            Err(Error::TruncatedInput { needed }) => {
                &&& input.len() < needed <= 36
                &&& input.len() + more.len() >= needed ==> frame_read(input + more) != Err::<
                    (FrameHeader, nat),
                    Error,
                >(Error::TruncatedInput { needed })
            },
            answer => frame_read(input + more) == answer,
        },
{
    let all = input + more;
    lemma_field_bytes(input, 0);
    lemma_field_bytes(input, 8);
    lemma_field_bytes(input, 12);
    lemma_field_bytes(all, 0);
    lemma_field_bytes(all, 8);
    lemma_field_bytes(all, 12);
    assert forall|at: int, width: int|
        0 <= at && 0 <= width && at + width <= input.len() implies #[trigger] all.subrange(
        at,
        at + width,
    ) == input.subrange(at, at + width) by {
        assert(all.subrange(at, at + width) =~= input.subrange(at, at + width));
    }
}

/// A region header on the wire: the logical size, the physical size, and the integrity field where
/// there is one, eight bytes each.
pub proof fn law_region_header_places_its_fields(header: RegionHeader)
    requires
        header.holds_a_block(),
    ensures
        ({
            let bytes = header.wire();
            &&& bytes.len() == 16 + if header.integrity is Some {
                8int
            } else {
                0
            }
            &&& eight_bytes(bytes, 0) == header.logical_size
            &&& eight_bytes(bytes, 8) == header.physical_size
            &&& header.integrity matches Some(value) ==> eight_bytes(bytes, 16) == value
        }),
{
    let bytes = header.wire();
    let integrity = if header.integrity is Some {
        IntegrityMode::PerRegion
    } else {
        IntegrityMode::Absent
    };
    header.lemma_width();
    law_region_header_reads_back(header, integrity, Seq::empty());
    assert(bytes + Seq::<u8>::empty() =~= bytes);
    lemma_field_bytes(bytes, 0);
    lemma_field_bytes(bytes, 8);
    lemma_field_bytes(bytes, 16);
}

/// What a record is answered, from its bytes. A zero ends the frame and a one opens a region; any
/// other tag is refused. A region header is answered once its bytes are there, and then refused
/// only where it holds no content, or fewer bytes than a block header and one byte.
pub proof fn law_a_record_is_told_by_its_tag(input: Seq<u8>, integrity: IntegrityMode)
    ensures
        input.len() == 0 ==> record_read(input, integrity) == Err::<(Record, nat), Error>(
            Error::TruncatedInput { needed: 1 },
        ),
        input.len() > 0 && input[0] == 0 ==> record_read(input, integrity) == Ok::<
            (Record, nat),
            Error,
        >((Record::Terminator, 1)),
        input.len() > 0 && input[0] > 1 ==> record_read(input, integrity) == Err::<
            (Record, nat),
            Error,
        >(Error::CorruptData(Corruption::RecordTag)),
        input.len() > 0 && input[0] == 1 ==> {
            let answer = record_read(input, integrity);
            let whole = if integrity == IntegrityMode::PerRegion {
                25int
            } else {
                17
            };
            if input.len() < 9 {
                answer == Err::<(Record, nat), Error>(Error::TruncatedInput { needed: 9 })
            } else if input.len() < 17 {
                answer == Err::<(Record, nat), Error>(Error::TruncatedInput { needed: 17 })
            } else if input.len() < whole {
                answer == Err::<(Record, nat), Error>(Error::TruncatedInput { needed: 25 })
            } else if eight_bytes(input, 1) == 0 {
                answer == Err::<(Record, nat), Error>(
                    Error::CorruptData(Corruption::RegionLogicalSize),
                )
            } else if eight_bytes(input, 9) < 5 {
                answer == Err::<(Record, nat), Error>(
                    Error::CorruptData(Corruption::RegionPhysicalSize),
                )
            } else {
                answer is Ok && (answer->Ok_0).1 == whole
            }
        },
{
    if input.len() > 0 && input[0] == 1 {
        let rest = input.skip(1);
        lemma_field_bytes(rest, 0);
        lemma_field_bytes(rest, 8);
    }
}

/// A block header on the wire is one word: a bit that marks the last block, two bits of type, RAW,
/// RLE and COMPRESSED in turn, and 29 bits of size.
pub proof fn law_block_header_places_its_fields(header: BlockHeader)
    requires
        0 < header.size < 0x2000_0000,
    ensures
        header.wire().len() == 4,
        four_bytes(header.wire(), 0) == 8 * header.size + (match header.kind {
            BlockType::Raw => 0int,
            BlockType::Rle => 2,
            BlockType::Compressed => 4,
        }) + if header.last {
            1int
        } else {
            0
        },
{
    let bytes = header.wire();
    lemma2_to64();
    lemma_le_len(header.word(), 4);
    lemma_field_bytes(bytes, 0);
    lemma_field_reads_back(Seq::empty(), header.word(), 4, Seq::empty());
    assert(Seq::<u8>::empty() + bytes + Seq::<u8>::empty() =~= bytes);
}

/// What a stored block's header is answered, from its bytes: a need for four of them, then the
/// type, then a size of zero.
pub proof fn law_block_headers_are_refused_in_order(input: Seq<u8>)
    ensures
        input.len() < 4 ==> block_read(input) == Err::<(BlockHeader, nat), Error>(
            Error::TruncatedInput { needed: 4 },
        ),
        input.len() >= 4 ==> {
            let answer = block_read(input);
            let kind = (input[0] / 2) % 4;
            if kind == 2 {
                answer == Err::<(BlockHeader, nat), Error>(
                    Error::UnsupportedFeature(Feature::CompressedBlock),
                )
            } else if kind == 3 {
                answer == Err::<(BlockHeader, nat), Error>(Error::CorruptData(Corruption::BlockType))
            } else if four_bytes(input, 0) < 8 {
                answer == Err::<(BlockHeader, nat), Error>(Error::CorruptData(Corruption::BlockSize))
            } else {
                answer is Ok
            }
        },
{
    lemma_field_bytes(input, 0);
}

/// The number a marked run of `count` bytes and the byte after it spell, seven bits of each, least
/// significant first.
pub open spec fn seven_bits(input: Seq<u8>, at: int, count: nat) -> nat
    decreases count,
{
    if count == 0 {
        (input[at] % 128) as nat
    } else {
        (input[at] % 128) as nat + 128 * seven_bits(input, at + 1, (count - 1) as nat)
    }
}

/// A quantity is told by its bytes. Bytes of 128 and more continue it, and the first below ends
/// it. Its value takes seven bits of each, least significant first. It is at most ten bytes, the
/// tenth no more than one; a tenth above that is refused, whatever follows. Input that ends first
/// is asked for one more byte.
pub proof fn law_a_quantity_is_told_by_its_bytes(input: Seq<u8>, at: nat, count: nat)
    requires
        count <= 9,
        at + count <= input.len() < usize::MAX,
        forall|i: int| at <= i < at + count ==> #[trigger] input[i] >= 128,
    ensures
        ({
            let end = at + count;
            let answer = varint_read(input, at, 0);
            if end == input.len() {
                answer == Err::<(nat, nat), Error>(
                    Error::TruncatedInput { needed: (end + 1) as usize },
                )
            } else if count == 9 && input[end as int] > 1 {
                answer == Err::<(nat, nat), Error>(Error::CorruptData(Corruption::Varint))
            } else if input[end as int] < 128 {
                answer == Ok::<(nat, nat), Error>((seven_bits(input, at as int, count), end + 1))
            } else {
                count < 9
            }
        }),
{
    lemma_quantity(input, at, count, 0);
}

proof fn lemma_quantity(input: Seq<u8>, at: nat, count: nat, lane: nat)
    requires
        lane + count <= 9,
        at + count <= input.len() < usize::MAX,
        forall|i: int| at <= i < at + count ==> #[trigger] input[i] >= 128,
    ensures
        ({
            let end = at + count;
            let answer = varint_read(input, at, lane);
            if end == input.len() {
                answer == Err::<(nat, nat), Error>(
                    Error::TruncatedInput { needed: (end + 1) as usize },
                )
            } else if lane + count == 9 && input[end as int] > 1 {
                answer == Err::<(nat, nat), Error>(Error::CorruptData(Corruption::Varint))
            } else if input[end as int] < 128 {
                answer == Ok::<(nat, nat), Error>((seven_bits(input, at as int, count), end + 1))
            } else {
                lane + count < 9
            }
        }),
    decreases count,
{
    if count > 0 {
        assert(input[at as int] >= 128);
        lemma_quantity(input, at + 1, (count - 1) as nat, lane + 1);
        assert((input[at as int] - 128) as nat == (input[at as int] % 128) as nat);
    }
}

} // verus!
