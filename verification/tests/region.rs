use entroq::block::{Block, Decoder};
use entroq::encode::{Emitter, Layout, Mode, Statistics, DEFAULT_BLOCK_BYTES, DEFAULT_REGION_BYTES};
use entroq::format::{
    BLOCK_HEADER_BYTES, BlockHeader, BlockType, DecoderPolicy, Error, Feature, FrameHeader,
    IntegrityMode, Record, RegionIndependence, ResourceClass,
};
use entroq::parser::{MAX_PARSE_BYTES, Parser};
use entroq::sequence::WINDOW;

/// Bytes that depend on their position alone and repeat nothing.
fn noise(len: usize, seed: u64) -> Vec<u8> {
    let mut state = seed;
    (0..len)
        .map(|_| {
            state = state
                .wrapping_mul(6_364_136_223_846_793_005)
                .wrapping_add(1_442_695_040_888_963_407);
            entroq::entropy::low_byte(state >> 40)
        })
        .collect()
}

/// One region's content: a phrase, a run, bytes nothing repeats, and the phrase once more.
fn staged() -> Vec<u8> {
    let phrase = b"a block is emitted under the type its content earns; ";
    let mut out = Vec::new();
    while out.len() < 20_000 {
        out.extend_from_slice(phrase);
    }
    out.resize(36_384, 0x2A);
    out.extend_from_slice(&noise(16_384, 7));
    while out.len() < 90_000 {
        out.extend_from_slice(phrase);
    }
    out
}

/// The fields of a block header's word: whether the block is the last, its type code, its size.
fn fields(bytes: &[u8]) -> (bool, u32, usize) {
    let word = u32::from_le_bytes([bytes[0], bytes[1], bytes[2], bytes[3]]);
    (word & 1 == 1, (word >> 1) & 3, (word >> 3) as usize)
}

/// Emits `content` block by block, as one region.
fn emit_region(emitter: &mut Emitter, content: &[u8], layout: Layout) -> Result<(Vec<u8>, Vec<BlockType>), Error> {
    let mut out = Vec::new();
    let mut kinds = Vec::new();
    let mut at = 0;
    while at < content.len() {
        let (end, last) = layout.block(at, content.len())?;
        kinds.push(emitter.emit(&content[at..end], last, at == 0, &mut out)?);
        at = end;
    }
    Ok((out, kinds))
}

/// Reads a region of blocks back: RAW and RLE by their headers, COMPRESSED by the block decoder.
fn read_region(stored: &[u8], policy: &DecoderPolicy) -> Result<Vec<u8>, Error> {
    let mut decoder = Decoder::at_region_start();
    let mut content: Vec<u8> = Vec::new();
    let mut at = 0;
    loop {
        let (last, code, size) = fields(&stored[at..]);
        let header = BlockHeader::decode(&stored[at..]);
        at += BLOCK_HEADER_BYTES;
        let mut out = vec![0u8; size];
        if code == 2 {
            assert_eq!(header, Err(Error::UnsupportedFeature(Feature::CompressedBlock)));
            let history = content[content.len().saturating_sub(WINDOW as usize)..].to_vec();
            let block = Block {
                arrived: &stored[at..],
                declared: (stored.len() - at) as u64,
                first_in_region: content.is_empty(),
                history: &history,
            };
            at += decoder.read(&block, policy, &mut out)?;
        } else {
            let (header, width) = header?;
            assert_eq!(width, BLOCK_HEADER_BYTES);
            assert_eq!((header.last, header.size as usize), (last, size));
            let payload = header.payload(&stored[at..])?;
            assert_eq!(header.expand(payload, &mut out), Ok(size));
            at += payload.len();
        }
        content.extend_from_slice(&out);
        if last {
            assert_eq!(at, stored.len(), "bytes past the last block");
            return Ok(content);
        }
    }
}

#[test]
fn decoding_a_region_undoes_encoding_it_in_every_mode() -> Result<(), Error> {
    let content = staged();
    let policy = DecoderPolicy::conservative();
    for mode in [Mode::Fast, Mode::Balanced] {
        for block_bytes in [1_000u32, 8_192, 65_536] {
            let layout = Layout::new(DEFAULT_REGION_BYTES, block_bytes)?;
            let mut emitter = Emitter::with_mode(policy, block_bytes, mode)?;
            let (stored, kinds) = emit_region(&mut emitter, &content, layout)?;
            assert!(kinds.contains(&BlockType::Compressed));
            assert!(stored.len() as u64 <= layout.physical_bytes(content.len())?);
            assert_eq!(read_region(&stored, &policy)?, content);
        }
    }
    Ok(())
}

#[test]
fn a_region_of_noise_is_raw_and_reaches_its_physical_bytes() -> Result<(), Error> {
    let content = noise(10_000, 3);
    let layout = Layout::new(DEFAULT_REGION_BYTES, 4_096)?;
    let mut emitter = Emitter::new(DecoderPolicy::conservative(), 4_096)?;
    let (stored, kinds) = emit_region(&mut emitter, &content, layout)?;
    assert_eq!(kinds, vec![BlockType::Raw; 3]);
    assert_eq!(stored.len(), 10_000 + 3 * BLOCK_HEADER_BYTES);
    assert_eq!(layout.physical_bytes(10_000), Ok(10_012));
    assert_eq!(read_region(&stored, &DecoderPolicy::conservative())?, content);
    Ok(())
}

#[test]
fn an_all_equal_block_is_five_stored_bytes() -> Result<(), Error> {
    let mut emitter = Emitter::new(DecoderPolicy::conservative(), 100)?;
    let mut out = Vec::new();
    assert_eq!(emitter.emit(&[9u8; 100], true, true, &mut out)?, BlockType::Rle);
    // 100 << 3, the RLE code at bit 1, the last bit: 803.
    assert_eq!(out, vec![0x23, 0x03, 0, 0, 9]);
    Ok(())
}

#[test]
fn one_byte_is_raw_because_a_tie_takes_the_cheaper_read() -> Result<(), Error> {
    let mut emitter = Emitter::new(DecoderPolicy::conservative(), 16)?;
    let mut out = Vec::new();
    assert_eq!(emitter.emit(&[5u8], false, true, &mut out)?, BlockType::Raw);
    assert_eq!(out, vec![0x08, 0, 0, 0, 5]);
    Ok(())
}

#[test]
fn the_type_counts_add_up_to_the_blocks() -> Result<(), Error> {
    let content = staged();
    let layout = Layout::new(DEFAULT_REGION_BYTES, 2_048)?;
    let mut emitter = Emitter::new(DecoderPolicy::conservative(), 2_048)?;
    let (stored, kinds) = emit_region(&mut emitter, &content, layout)?;
    let told: Statistics = emitter.statistics();
    assert_eq!(told.input_bytes, content.len() as u64);
    assert_eq!(told.output_bytes, stored.len() as u64);
    assert_eq!(told.blocks, kinds.len() as u64);
    assert_eq!(told.raw_blocks + told.rle_blocks + told.compressed_blocks, told.blocks);
    let raw = kinds.iter().filter(|kind| **kind == BlockType::Raw).count() as u64;
    let rle = kinds.iter().filter(|kind| **kind == BlockType::Rle).count() as u64;
    assert_eq!((told.raw_blocks, told.rle_blocks), (raw, rle));
    assert!(told.raw_blocks > 0 && told.rle_blocks > 0 && told.compressed_blocks > 0);
    assert_eq!(told.table_limited_blocks, 0);
    Ok(())
}

#[test]
fn a_reset_emitter_writes_what_a_fresh_one_writes() -> Result<(), Error> {
    let content = staged();
    let layout = Layout::new(DEFAULT_REGION_BYTES, 4_096)?;
    for mode in [Mode::Fast, Mode::Balanced] {
        let mut emitter = Emitter::with_mode(DecoderPolicy::conservative(), 4_096, mode)?;
        let (first, _) = emit_region(&mut emitter, &content, layout)?;
        emitter.reset();
        let (again, _) = emit_region(&mut emitter, &content, layout)?;
        assert_eq!(first, again);
        assert_eq!(emitter.statistics().input_bytes, 2 * content.len() as u64);
    }
    Ok(())
}

#[test]
fn an_emitter_refuses_a_block_no_parse_takes() -> Result<(), Error> {
    let policy = DecoderPolicy::conservative();
    assert!(matches!(Emitter::new(policy, 0), Err(Error::InvalidParameter)));
    let above = u32::try_from(MAX_PARSE_BYTES + 1).unwrap_or(u32::MAX);
    assert!(matches!(Emitter::new(policy, above), Err(Error::InvalidParameter)));
    let mut emitter = Emitter::new(policy, 16)?;
    let mut out = vec![1, 2, 3];
    assert_eq!(emitter.emit(&[], true, true, &mut out), Err(Error::InvalidParameter));
    assert_eq!(out, vec![1, 2, 3]);
    Ok(())
}

#[test]
fn the_default_layout_states_its_sizes() -> Result<(), Error> {
    let layout = Layout::new(DEFAULT_REGION_BYTES, DEFAULT_BLOCK_BYTES)?;
    assert_eq!((layout.region_bytes(), layout.block_bytes()), (1_048_576, 65_536));
    assert_eq!(layout.physical_bytes(0), Ok(0));
    assert_eq!(layout.physical_bytes(65_536), Ok(65_540));
    assert_eq!(layout.physical_bytes(65_537), Ok(65_545));
    assert_eq!(layout.physical_bytes(usize::MAX), Err(Error::InvalidParameter));
    assert_eq!(layout.block(65_536, 65_537), Ok((65_537, true)));
    assert_eq!(layout.block(0, 65_537), Ok((65_536, false)));
    assert_eq!(layout.block(4, 4), Err(Error::InvalidParameter));
    assert_eq!(layout.block(usize::MAX, usize::MAX), Err(Error::InvalidParameter));
    Ok(())
}

#[test]
fn the_raw_bound_is_the_frame_laid_out_region_by_region() -> Result<(), Error> {
    let header = FrameHeader::new(
        ResourceClass::Small,
        RegionIndependence::Dependent,
        IntegrityMode::PerRegion,
    );
    for (logical, region, block) in [(0u64, 10u64, 4u32), (1, 10, 4), (10, 10, 4), (25, 10, 4), (40, 10, 10), (7, 1, 9)] {
        let mut total = header.encoded_len() as u64;
        let mut left = logical;
        while left > 0 {
            let held = left.min(region);
            total += 1 + 16 + 8;
            let mut inside = held;
            while inside > 0 {
                let taken = inside.min(u64::from(block));
                total += 4 + taken;
                inside -= taken;
            }
            left -= held;
        }
        total += 1;
        assert_eq!(header.raw_frame_bytes(logical, region, block), Ok(total));
        assert_eq!(header.raw_overhead_bytes(logical, region, block), Ok(total - logical));
    }
    assert_eq!(header.raw_frame_bytes(1, 0, 4), Err(Error::InvalidParameter));
    assert_eq!(header.raw_frame_bytes(1, 4, 0), Err(Error::InvalidParameter));
    assert_eq!(header.raw_frame_bytes(u64::MAX, 10, 4), Err(Error::InvalidParameter));
    Ok(())
}

#[test]
fn the_steady_state_is_the_parser_the_payload_and_the_tables() -> Result<(), Error> {
    let policy = DecoderPolicy::conservative();
    for block_bytes in [1usize, 1_024, 65_536] {
        let size = u32::try_from(block_bytes).unwrap_or(0);
        let limit = usize::try_from(policy.max_table_bytes()).unwrap_or(0);
        let fast = Emitter::new(policy, size)?;
        assert_eq!(
            fast.steady_state_bytes(),
            Parser::declared_bytes(block_bytes) + block_bytes + limit
        );
        let balanced = Emitter::with_mode(policy, size, Mode::Balanced)?;
        assert_eq!(
            balanced.steady_state_bytes(),
            Parser::balanced_declared_bytes(block_bytes) + block_bytes + limit
        );
    }
    Ok(())
}

#[test]
fn a_policy_without_table_memory_leaves_blocks_raw() -> Result<(), Error> {
    let policy = DecoderPolicy::conservative().with_max_table_bytes(0);
    let phrase: Vec<u8> = b"abcabcabd".iter().copied().cycle().take(4_000).collect();
    let mut emitter = Emitter::new(policy, 4_000)?;
    let mut out = Vec::new();
    assert_eq!(emitter.emit(&phrase, true, true, &mut out)?, BlockType::Raw);
    assert_eq!(emitter.statistics().table_limited_blocks, 1);
    assert_eq!(read_region(&out, &policy)?, phrase);
    Ok(())
}

#[test]
fn a_frame_of_regions_reads_back_to_its_content() -> Result<(), Error> {
    let regions = [staged(), noise(3_000, 11), vec![7u8; 5_000]];
    let policy = DecoderPolicy::conservative();
    for integrity in [IntegrityMode::Absent, IntegrityMode::PerRegion] {
        let header = FrameHeader::new(ResourceClass::Small, RegionIndependence::Independent, integrity);
        let layout = Layout::new(DEFAULT_REGION_BYTES, 16_384)?;
        let mut emitter = Emitter::with_mode(policy, 16_384, Mode::Balanced)?;
        let mut frame = header.encode().as_bytes().to_vec();
        for region in &regions {
            emitter.reset();
            let (blocks, _) = emit_region(&mut emitter, region, layout)?;
            let declared = layout.region(region.len(), blocks.len() as u64, integrity)?;
            frame.extend_from_slice(Record::Region(declared).encode().as_bytes());
            frame.extend_from_slice(&blocks);
        }
        frame.extend_from_slice(Record::Terminator.encode().as_bytes());

        let (read, mut at) = FrameHeader::decode(&frame)?;
        assert_eq!(read, header);
        let mut found = Vec::new();
        loop {
            let (record, used) = Record::decode(&frame[at..], read.integrity)?;
            at += used;
            match record {
                Record::Terminator => break,
                Record::Region(declared) => {
                    let end = at + declared.physical_size as usize;
                    let content = read_region(&frame[at..end], &policy)?;
                    assert_eq!(content.len() as u64, declared.logical_size);
                    found.push(content);
                    at = end;
                }
            }
        }
        assert_eq!(at, frame.len());
        assert_eq!(found, regions);
    }
    Ok(())
}
