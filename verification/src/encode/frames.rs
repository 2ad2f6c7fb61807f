//! Owns what holds of a whole frame of emitted regions: that its bytes read back to the content
//! of its regions, and that a region is reached by the sizes before it alone.

use vstd::prelude::*;

use crate::block::fresh_decoder;
use crate::encode::laws::{
    law_block_stores_no_more_than_its_content, law_blocks_tile_the_region,
    law_decoding_undoes_encoding, law_region_stays_within_its_physical_bytes, region_blocks,
    region_read,
};
use crate::encode::{fresh_emitter, Mode};
use crate::entropy::least;
use crate::format::laws::{law_frame_header_reads_back, law_record_reads_back};
use crate::format::wire::lemma_le_len;
use crate::format::{
    ceiling, frame_read, record_read, BlockHeader, FrameHeader, IntegrityMode, Record,
    RegionHeader,
};
use crate::parser::MAX_PARSE_BYTES;

verus! {

/// How the regions of a frame are written: the table ceiling, the block size and the mode.
pub struct Writing {
    /// The table memory a block may declare.
    pub limit: u64,
    /// The input bytes one block holds.
    pub block_bytes: nat,
    /// The mode of the emitter.
    pub mode: Mode,
}

impl Writing {
    /// The blocks a fresh emitter writes for a region.
    pub open spec fn blocks(self, region: Seq<u8>) -> Seq<u8> {
        region_blocks(
            fresh_emitter(self.limit, self.block_bytes, self.mode),
            region,
            self.block_bytes,
            0,
        )
    }

    /// Whether a region is one a header declares: it holds a byte, and its stored bytes are a
    /// count of 64 bits.
    pub open spec fn holds(self, region: Seq<u8>) -> bool {
        &&& 0 < region.len()
        &&& region.len() + 4 * ceiling(region.len(), self.block_bytes) <= u64::MAX
    }
}

/// The header of a region: its size, the size of its blocks, and the integrity field its frame
/// declares.
pub open spec fn region_header(region: Seq<u8>, blocks: Seq<u8>, integrity: IntegrityMode)
    -> RegionHeader {
    RegionHeader {
        logical_size: region.len() as u64,
        physical_size: blocks.len() as u64,
        integrity: if integrity == IntegrityMode::PerRegion {
            Some(0u64)
        } else {
            None
        },
    }
}

/// The records of a frame: each region's header and blocks, and the terminator.
pub open spec fn records_wire(writing: Writing, regions: Seq<Seq<u8>>, integrity: IntegrityMode)
    -> Seq<u8>
    decreases regions.len(),
{
    if regions.len() == 0 {
        Record::Terminator.wire()
    } else {
        let blocks = writing.blocks(regions[0]);
        Record::Region(region_header(regions[0], blocks, integrity)).wire() + (blocks
            + records_wire(writing, regions.drop_first(), integrity))
    }
}

/// The bytes of a frame.
pub open spec fn frame_wire(header: FrameHeader, writing: Writing, regions: Seq<Seq<u8>>) -> Seq<
    u8,
> {
    header.wire() + records_wire(writing, regions, header.integrity)
}

/// What a decoder makes of the records of a frame: the content of its regions up to the
/// terminator, which ends the bytes. Each region is cut off by its physical size and read on a
/// fresh decoder. Nothing where a record or a region is refused, or a region's content is not of
/// its logical size.
pub open spec fn records_content(input: Seq<u8>, integrity: IntegrityMode, limit: u64) -> Option<
    Seq<u8>,
>
    decreases input.len(),
{
    match record_read(input, integrity) {
        Err(_) => None,
        Ok((Record::Terminator, used)) => if used == input.len() {
            Some(Seq::empty())
        } else {
            None
        },
        Ok((Record::Region(header), used)) => {
            let rest = input.skip(used as int);
            let size = header.physical_size as int;
            if used == 0 || used > input.len() || size > rest.len() {
                None
            } else {
                match (
                    region_read(fresh_decoder(), rest.take(size), true, Seq::empty(), limit),
                    records_content(rest.skip(size), integrity, limit),
                ) {
                    (Some(content), Some(more)) => if content.len() == header.logical_size {
                        Some(content + more)
                    } else {
                        None
                    },
                    _ => None,
                }
            }
        },
    }
}

/// What a decoder makes of a frame.
pub open spec fn frame_content(input: Seq<u8>, limit: u64) -> Option<Seq<u8>> {
    match frame_read(input) {
        Err(_) => None,
        Ok((header, used)) => records_content(input.skip(used as int), header.integrity, limit),
    }
}

/// The blocks of a region are of the sizes a header declares.
proof fn lemma_blocks_sized(writing: Writing, region: Seq<u8>)
    requires
        0 < writing.block_bytes <= MAX_PARSE_BYTES,
        writing.holds(region),
    ensures
        5 <= writing.blocks(region).len() <= u64::MAX,
{
    let state = fresh_emitter(writing.limit, writing.block_bytes, writing.mode);
    let end = least(writing.block_bytes, region.len());
    let input = region.subrange(0, end as int);
    law_region_stays_within_its_physical_bytes(state, region, writing.block_bytes, 0);
    law_blocks_tile_the_region(0, region.len(), writing.block_bytes);
    law_block_stores_no_more_than_its_content(state, input, end == region.len(), true);
    let header = BlockHeader {
        last: end == region.len(),
        kind: state.emission(input, true).kind,
        size: input.len() as u32,
    };
    lemma_le_len(header.word(), 4);
}

/// The records of a frame read back to the content of its regions.
proof fn lemma_records_read_back(
    writing: Writing,
    regions: Seq<Seq<u8>>,
    integrity: IntegrityMode,
)
    requires
        0 < writing.block_bytes <= MAX_PARSE_BYTES,
        forall|i: int| 0 <= i < regions.len() ==> writing.holds(#[trigger] regions[i]),
    ensures
        records_content(
            records_wire(writing, regions, integrity),
            integrity,
            writing.limit,
        ) == Some(regions.flatten()),
    decreases regions.len(),
{
    let input = records_wire(writing, regions, integrity);
    if regions.len() == 0 {
        law_record_reads_back(Record::Terminator, integrity, Seq::empty());
        assert(Record::Terminator.wire() + Seq::<u8>::empty() =~= input);
    } else {
        let region = regions[0];
        let blocks = writing.blocks(region);
        let header = region_header(region, blocks, integrity);
        let record = Record::Region(header);
        let rest = records_wire(writing, regions.drop_first(), integrity);
        lemma_blocks_sized(writing, region);
        law_record_reads_back(record, integrity, blocks + rest);
        let used = record.wire().len() as int;
        assert(input.skip(used) =~= blocks + rest);
        assert((blocks + rest).take(blocks.len() as int) =~= blocks);
        assert((blocks + rest).skip(blocks.len() as int) =~= rest);
        law_decoding_undoes_encoding(region, writing.limit, writing.block_bytes, writing.mode);
        lemma_records_read_back(writing, regions.drop_first(), integrity);
        assert(regions.flatten() == region + regions.drop_first().flatten());
    }
}

/// A frame reads back: whatever its header declares and however its content is cut into regions
/// and blocks, the bytes of the frame decode to that content.
pub proof fn law_frame_reads_back(header: FrameHeader, writing: Writing, regions: Seq<Seq<u8>>)
    requires
        0 < writing.block_bytes <= MAX_PARSE_BYTES,
        forall|i: int| 0 <= i < regions.len() ==> writing.holds(#[trigger] regions[i]),
    ensures
        frame_content(frame_wire(header, writing, regions), writing.limit) == Some(
            regions.flatten(),
        ),
{
    let records = records_wire(writing, regions, header.integrity);
    law_frame_header_reads_back(header, records);
    assert(frame_wire(header, writing, regions).skip(header.wire().len() as int) =~= records);
    lemma_records_read_back(writing, regions, header.integrity);
}

/// A region is reached by the sizes its header declares: the bytes after a region's blocks are
/// the next record, without reading a block.
pub proof fn law_a_region_is_skipped_by_its_physical_size(
    writing: Writing,
    regions: Seq<Seq<u8>>,
    integrity: IntegrityMode,
)
    requires
        0 < writing.block_bytes <= MAX_PARSE_BYTES,
        0 < regions.len(),
        writing.holds(regions[0]),
    ensures
        ({
            let input = records_wire(writing, regions, integrity);
            record_read(input, integrity) matches Ok((Record::Region(header), used))
                && header.logical_size == regions[0].len()
                && input.skip(used + header.physical_size) == records_wire(
                writing,
                regions.drop_first(),
                integrity,
            )
        }),
{
    let input = records_wire(writing, regions, integrity);
    let blocks = writing.blocks(regions[0]);
    let record = Record::Region(region_header(regions[0], blocks, integrity));
    let rest = records_wire(writing, regions.drop_first(), integrity);
    lemma_blocks_sized(writing, regions[0]);
    law_record_reads_back(record, integrity, blocks + rest);
    assert(input.skip((record.wire().len() + blocks.len()) as int) =~= rest);
}

} // verus!
