//! What the headers promise of each other: what is written reads back, and what is read is what
//! would have been written.

use vstd::prelude::*;
use vstd::arithmetic::div_mod::{
    lemma_basic_div, lemma_div_minus_one, lemma_mod_sub_multiples_vanish, lemma_small_mod,
};
use vstd::arithmetic::power2::{lemma2_to64, pow2};
use super::wire::{field, le, lemma_field_reads_back, lemma_le_len, lemma_le_of_value, lemma_le_reads_back};
use super::{
    block_read, ceiling, flag_set, frame_read, optional_read, optional_wire, raw_blocks,
    record_read, region_read, widened, widened_u32, BlockHeader, BlockType, Error, FrameHeader,
    IntegrityMode, Record, RegionHeader, RegionIndependence, MAGIC, MAJOR_VERSION,
    BLOCK_HEADER_BYTES, RECORD_TAG_BYTES, REGION_HEADER_FIXED_BYTES, TAG_REGION, TAG_TERMINATOR,
    TERMINATOR_BYTES,
};

verus! {

/// A field that may be absent reads back where it was written.
proof fn lemma_optional_reads_back(
    input: Seq<u8>,
    before: Seq<u8>,
    value: Option<nat>,
    width: nat,
    after: Seq<u8>,
)
    requires
        value matches Some(value) ==> value < pow2(8 * width),
        input == before + optional_wire(value, width) + after,
        input.len() <= usize::MAX || before.len() + width <= usize::MAX,
    ensures
        optional_read(input, before.len(), value is Some, width) == Ok::<
            (Option<nat>, nat),
            Error,
        >((value, before.len() + optional_wire(value, width).len())),
        optional_wire(value, width).len() == (if value is Some {
            width
        } else {
            0
        }),
{
    if let Some(value) = value {
        lemma_field_reads_back(before, value, width, after);
        lemma_le_len(value, width);
    }
}

/// The fields every header carries read back from the first sixteen bytes.
proof fn lemma_fixed_reads_back(magic: nat, middle: Seq<u8>, tail: Seq<u8>)
    requires
        magic < pow2(32),
        middle.len() == 4,
    ensures
        ({
            let input = le(magic, 4) + middle + le(0, 4) + le(0, 4) + tail;
            &&& input.len() == 16 + tail.len()
            &&& field(input, 0, 4) == magic
            &&& field(input, 8, 4) == 0
            &&& field(input, 12, 4) == 0
            &&& input[4] == middle[0]
            &&& input[5] == middle[1]
            &&& input[6] == middle[2]
            &&& input[7] == middle[3]
        }),
{
    lemma2_to64();
    let zero = le(0, 4);
    let head = le(magic, 4);
    lemma_le_len(magic, 4);
    lemma_le_len(0, 4);
    let input = head + middle + zero + zero + tail;
    lemma_le_reads_back(magic, 4);
    lemma_le_reads_back(0, 4);
    assert(input.subrange(0, 4) =~= head);
    assert(input.subrange(8, 12) =~= zero);
    assert(input.subrange(12, 16) =~= zero);
}

/// Three fields that may be absent read back one after another.
proof fn lemma_optionals_read_back(
    fixed: Seq<u8>,
    content: Option<nat>,
    dictionary: Option<nat>,
    index: Option<nat>,
    rest: Seq<u8>,
)
    requires
        fixed.len() == 16,
        content matches Some(value) ==> value < pow2(64),
        dictionary matches Some(value) ==> value < pow2(32),
        index matches Some(value) ==> value < pow2(64),
    ensures
        ({
            let w0 = optional_wire(content, 8);
            let w1 = optional_wire(dictionary, 4);
            let w2 = optional_wire(index, 8);
            let input = fixed + w0 + w1 + w2 + rest;
            let a = 16 + w0.len();
            let b = a + w1.len();
            &&& optional_read(input, 16, content is Some, 8) == Ok::<(Option<nat>, nat), Error>(
                (content, a),
            )
            &&& optional_read(input, a, dictionary is Some, 4) == Ok::<(Option<nat>, nat), Error>(
                (dictionary, b),
            )
            &&& optional_read(input, b, index is Some, 8) == Ok::<(Option<nat>, nat), Error>(
                (index, b + w2.len()),
            )
        }),
{
    let w0 = optional_wire(content, 8);
    let w1 = optional_wire(dictionary, 4);
    let w2 = optional_wire(index, 8);
    let input = fixed + w0 + w1 + w2 + rest;
    assert(input =~= fixed + w0 + (w1 + w2 + rest));
    lemma_optional_reads_back(input, fixed, content, 8, w1 + w2 + rest);
    assert(input =~= (fixed + w0) + w1 + (w2 + rest));
    lemma_optional_reads_back(input, fixed + w0, dictionary, 4, w2 + rest);
    lemma_optional_reads_back(input, fixed + w0 + w1, index, 8, rest);
}

/// A frame header reads back from its wire bytes, whatever follows them.
pub proof fn law_frame_header_reads_back(header: FrameHeader, rest: Seq<u8>)
    ensures
        frame_read(header.wire() + rest) == Ok::<(FrameHeader, nat), Error>(
            (header, header.wire().len()),
        ),
        header.wire().len() == header.width(),
{
    lemma2_to64();
    header.lemma_width();
    let middle = seq![
        MAJOR_VERSION,
        header.flag_byte() as u8,
        header.resource_class.byte(),
        header.integrity.byte(),
    ];
    let content = widened(header.content_length);
    let dictionary = widened_u32(header.dictionary_id);
    let index = widened(header.index_location);
    let w0 = optional_wire(content, 8);
    let w1 = optional_wire(dictionary, 4);
    let w2 = optional_wire(index, 8);
    let fixed = le(MAGIC as nat, 4) + middle + le(0, 4) + le(0, 4);
    lemma_le_len(MAGIC as nat, 4);
    lemma_le_len(0, 4);
    let tail = w0 + w1 + w2 + rest;
    let input = fixed + w0 + w1 + w2 + rest;
    assert(header.wire() + rest =~= input);
    assert(input =~= fixed + tail);
    lemma_fixed_reads_back(MAGIC as nat, middle, tail);
    lemma_optionals_read_back(fixed, content, dictionary, index, rest);
    lemma_flag_bits(header);
}

/// The flags of a header are the bits of its flag byte.
proof fn lemma_flag_bits(header: FrameHeader)
    ensures
        header.flag_byte() < 16,
        flag_set(header.flag_byte() as u8, 1) == (header.independence
            == RegionIndependence::Independent),
        flag_set(header.flag_byte() as u8, 2) == (header.content_length is Some),
        flag_set(header.flag_byte() as u8, 4) == (header.dictionary_id is Some),
        flag_set(header.flag_byte() as u8, 8) == (header.index_location is Some),
{
}

/// The bytes a field that may be absent was read from are its wire bytes.
proof fn lemma_optional_was_written(input: Seq<u8>, at: nat, present: bool, width: nat)
    requires
        optional_read(input, at, present, width) is Ok,
        at <= input.len(),
    ensures
        ({
            let (value, next) = optional_read(input, at, present, width)->Ok_0;
            &&& input.subrange(at as int, next as int) == optional_wire(value, width)
            &&& at <= next <= input.len()
            &&& next == at + (if present {
                width
            } else {
                0
            })
            &&& value is Some == present
            &&& value matches Some(value) ==> value < pow2(8 * width)
        }),
{
    if present {
        lemma_le_of_value(input.subrange(at as int, (at + width) as int));
    } else {
        assert(input.subrange(at as int, at as int) =~= Seq::empty());
    }
}

/// An input that reads as a frame header starts with that header's wire bytes: no two encodings
/// of one header exist.
pub proof fn law_frame_header_is_its_bytes(input: Seq<u8>)
    requires
        frame_read(input) is Ok,
    ensures
        ({
            let (header, used) = frame_read(input)->Ok_0;
            &&& used <= input.len()
            &&& input.take(used as int) == header.wire()
        }),
{
    lemma2_to64();
    let (header, used) = frame_read(input)->Ok_0;
    let flags = input[5];
    let (content, a) = optional_read(input, 16, flag_set(flags, 2), 8)->Ok_0;
    let (dictionary, b) = optional_read(input, a, flag_set(flags, 4), 4)->Ok_0;
    let (index, c) = optional_read(input, b, flag_set(flags, 8), 8)->Ok_0;
    lemma_optional_was_written(input, 16, flag_set(flags, 2), 8);
    lemma_optional_was_written(input, a, flag_set(flags, 4), 4);
    lemma_optional_was_written(input, b, flag_set(flags, 8), 8);
    assert(widened(header.content_length) == content);
    assert(widened_u32(header.dictionary_id) == dictionary);
    assert(widened(header.index_location) == index);
    lemma_le_of_value(input.subrange(0, 4));
    lemma_le_of_value(input.subrange(8, 12));
    lemma_le_of_value(input.subrange(12, 16));
    assert(header.flag_byte() == flags as nat) by {
        assert(flags == flags % 2 + 2 * ((flags / 2) % 2) + 4 * ((flags / 4) % 2) + 8 * ((flags / 8)
            % 2));
    }
    assert(header.resource_class.byte() == input[6]);
    assert(header.integrity.byte() == input[7]);
    let middle = seq![
        MAJOR_VERSION,
        header.flag_byte() as u8,
        header.resource_class.byte(),
        header.integrity.byte(),
    ];
    assert(input.subrange(4, 8) =~= middle);
    assert(input.take(used as int) =~= input.subrange(0, 4) + input.subrange(4, 8)
        + input.subrange(8, 12) + input.subrange(12, 16) + input.subrange(16, a as int)
        + input.subrange(a as int, b as int) + input.subrange(b as int, c as int));
}

/// A region header reads back from its wire bytes, under the integrity mode it was made for.
pub proof fn law_region_header_reads_back(
    header: RegionHeader,
    integrity: IntegrityMode,
    rest: Seq<u8>,
)
    requires
        header.holds_a_block(),
        header.integrity is Some == (integrity == IntegrityMode::PerRegion),
    ensures
        region_read(header.wire() + rest, integrity) == Ok::<(RegionHeader, nat), Error>(
            (header, header.wire().len()),
        ),
{
    lemma2_to64();
    header.lemma_width();
    let input = header.wire() + rest;
    let logical = le(header.logical_size as nat, 8);
    let physical = le(header.physical_size as nat, 8);
    let checked = widened(header.integrity);
    let tail = optional_wire(checked, 8);
    lemma_le_len(header.logical_size as nat, 8);
    lemma_le_len(header.physical_size as nat, 8);
    assert(input =~= Seq::<u8>::empty() + logical + (physical + tail + rest));
    lemma_field_reads_back(Seq::empty(), header.logical_size as nat, 8, physical + tail + rest);
    assert(input =~= logical + physical + (tail + rest));
    lemma_field_reads_back(logical, header.physical_size as nat, 8, tail + rest);
    assert(input =~= (logical + physical) + tail + rest);
    lemma_optional_reads_back(input, logical + physical, checked, 8, rest);
}

/// An input that reads as a region header starts with that header's wire bytes, and the header
/// holds at least one block.
pub proof fn law_region_header_is_its_bytes(input: Seq<u8>, integrity: IntegrityMode)
    requires
        region_read(input, integrity) is Ok,
    ensures
        ({
            let (header, used) = region_read(input, integrity)->Ok_0;
            &&& used <= input.len()
            &&& input.take(used as int) == header.wire()
            &&& header.holds_a_block()
            &&& header.integrity is Some == (integrity == IntegrityMode::PerRegion)
        }),
{
    lemma2_to64();
    let (header, used) = region_read(input, integrity)->Ok_0;
    let present = integrity == IntegrityMode::PerRegion;
    let (checked, _) = optional_read(input, 16, present, 8)->Ok_0;
    lemma_optional_was_written(input, 16, present, 8);
    assert(widened(header.integrity) == checked);
    lemma_le_of_value(input.subrange(0, 8));
    lemma_le_of_value(input.subrange(8, 16));
    assert(input.take(used as int) =~= input.subrange(0, 8) + input.subrange(8, 16)
        + input.subrange(16, used as int));
}

/// A record reads back from its wire bytes, tag included.
pub proof fn law_record_reads_back(record: Record, integrity: IntegrityMode, rest: Seq<u8>)
    requires
        record matches Record::Region(header) ==> header.holds_a_block() && header.integrity is Some
            == (integrity == IntegrityMode::PerRegion),
    ensures
        record_read(record.wire() + rest, integrity) == Ok::<(Record, nat), Error>(
            (record, record.wire().len()),
        ),
{
    let input = record.wire() + rest;
    match record {
        Record::Region(header) => {
            law_region_header_reads_back(header, integrity, rest);
            assert(input.skip(1) =~= header.wire() + rest);
            assert(input[0] == TAG_REGION);
        },
        Record::Terminator => {
            assert(input[0] == TAG_TERMINATOR);
        },
    }
}

/// A stored block header reads back from its wire bytes.
pub proof fn law_block_header_reads_back(header: BlockHeader, rest: Seq<u8>)
    requires
        header.sized(),
    ensures
        header.kind != BlockType::Compressed ==> block_read(header.wire() + rest) == Ok::<
            (BlockHeader, nat),
            Error,
        >((header, 4)),
        header.kind == BlockType::Compressed ==> block_read(header.wire() + rest) == Err::<
            (BlockHeader, nat),
            Error,
        >(Error::UnsupportedFeature(super::Feature::CompressedBlock)),
        header.wire().len() == 4,
{
    lemma2_to64();
    lemma_le_len(header.word(), 4);
    assert(header.wire() + rest =~= Seq::<u8>::empty() + header.wire() + rest);
    lemma_field_reads_back(Seq::empty(), header.word(), 4, rest);
}

/// An input that reads as a block header starts with that header's wire bytes.
pub proof fn law_block_header_is_its_bytes(input: Seq<u8>)
    requires
        block_read(input) is Ok,
    ensures
        ({
            let (header, used) = block_read(input)->Ok_0;
            &&& used == 4
            &&& input.len() >= 4
            &&& input.take(4) == header.wire()
            &&& header.sized()
        }),
{
    lemma2_to64();
    lemma_le_of_value(input.subrange(0, 4));
    let (header, _) = block_read(input)->Ok_0;
    let word = field(input, 0, 4);
    assert(word == word % 2 + 2 * ((word / 2) % 4) + 8 * (word / 8));
    assert(header.word() == word);
    assert(input.take(4) =~= input.subrange(0, 4));
}

/// Cutting one piece off leaves one piece fewer.
pub proof fn lemma_ceiling_step(a: nat, b: nat)
    requires
        b > 0,
    ensures
        ceiling(0, b) == 0,
        0 < a <= b ==> ceiling(a, b) == 1,
        a > b ==> ceiling(a, b) == 1 + ceiling((a - b) as nat, b),
        a >= b ==> a / b == 1 + (a - b) as nat / b,
        a >= b ==> a % b == (a - b) as nat % b,
        a < b ==> a / b == 0 && a % b == a,
{
    lemma_small_mod(0, b);
    lemma_basic_div(0, b as int);
    if a < b {
        lemma_small_mod(a, b);
        lemma_basic_div(a as int, b as int);
    } else {
        lemma_div_minus_one(a as int, b as int);
        lemma_mod_sub_multiples_vanish(a as int, b as int);
    }
}

/// The bytes the blocks of a region of `len` bytes occupy when each is stored RAW: a header and
/// its content.
pub open spec fn laid_blocks(len: nat, block: nat) -> nat
    decreases len,
{
    if len == 0 || block == 0 {
        0
    } else if len <= block {
        BLOCK_HEADER_BYTES as nat + len
    } else {
        BLOCK_HEADER_BYTES as nat + block + laid_blocks((len - block) as nat, block)
    }
}

/// The bytes the regions of a frame occupy when every block of them is stored RAW: a record tag,
/// a region header, and the blocks.
pub open spec fn laid_regions(integrity: IntegrityMode, len: nat, region: nat, block: nat) -> nat
    decreases len,
{
    let record = RECORD_TAG_BYTES as nat + REGION_HEADER_FIXED_BYTES as nat + integrity.width();
    if len == 0 || region == 0 {
        0
    } else if len <= region {
        record + laid_blocks(len, block)
    } else {
        record + laid_blocks(region, block) + laid_regions(
            integrity,
            (len - region) as nat,
            region,
            block,
        )
    }
}

/// RAW blocks occupy their content and one header each.
proof fn lemma_laid_blocks(len: nat, block: nat)
    requires
        block > 0,
    ensures
        laid_blocks(len, block) == len + 4 * ceiling(len, block),
    decreases len,
{
    lemma_ceiling_step(len, block);
    if len > block {
        lemma_laid_blocks((len - block) as nat, block);
    }
}

/// RAW regions occupy their content, one record each, and one header for each block.
proof fn lemma_laid_regions(integrity: IntegrityMode, len: nat, region: nat, block: nat)
    requires
        region > 0,
        block > 0,
    ensures
        laid_regions(integrity, len, region, block) == ceiling(len, region) * (17
            + integrity.width()) + 4 * raw_blocks(len, region, block) + len,
    decreases len,
{
    let record = 17 + integrity.width();
    let each = ceiling(region, block);
    lemma_ceiling_step(len, region);
    lemma_laid_blocks(len, block);
    lemma_laid_blocks(region, block);
    lemma_ceiling_step(0, block);
    if len == 0 {
        assert(0 * record == 0);
        assert(0 * each == 0);
    } else if len < region {
        assert(1 * record == record);
        assert(0 * each == 0);
    } else if len == region {
        lemma_ceiling_step(region, region);
        assert((len - region) as nat == 0);
        lemma_ceiling_step(0, region);
        assert(1 * record == record);
        assert(1 * each == each);
    } else {
        let rest = (len - region) as nat;
        lemma_laid_regions(integrity, rest, region, block);
        let regions = ceiling(rest, region);
        let full = rest / region;
        assert((1 + regions) * record == record + regions * record) by (nonlinear_arith);
        assert((1 + full) * each == each + full * each) by (nonlinear_arith);
    }
}

/// The RAW bound is what a frame of RAW blocks occupies: the frame header, the regions, each with
/// its record and its blocks, and the terminator.
pub proof fn law_raw_total_is_the_frame_laid_out(
    header: FrameHeader,
    logical: nat,
    region: nat,
    block: nat,
)
    requires
        region > 0,
        block > 0,
    ensures
        header.raw_total(logical, region, block) == header.wire().len() + laid_regions(
            header.integrity,
            logical,
            region,
            block,
        ) + TERMINATOR_BYTES,
{
    lemma_laid_regions(header.integrity, logical, region, block);
    header.lemma_width();
}

} // verus!
