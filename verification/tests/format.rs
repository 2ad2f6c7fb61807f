use entroq::format::{
    BLOCK_HEADER_BYTES, BlockHeader, BlockType, Corruption, DecoderPolicy, Error,
    FLAG_REJECT_RESERVED, FRAME_HEADER_FIXED_BYTES, Feature, FrameHeader,
    INTEGRITY_FIELD_BYTES, IntegrityMode, MAGIC, MAJOR_VERSION, MAX_BLOCK_BYTES,
    RECORD_TAG_BYTES, REGION_HEADER_FIXED_BYTES, Record, RegionHeader, RegionIndependence,
    ResourceClass, TAG_REGION, TERMINATOR_BYTES, byte_of,
};

/// The largest block the test decoder will size a buffer for.
///
/// The walker below models the contract the module states: a declared length is checked
/// against a limit before anything is sized from it.
const BLOCK_LIMIT: u32 = 1_048_576;

const CLASSES: [ResourceClass; 5] = [
    ResourceClass::Minimal,
    ResourceClass::Small,
    ResourceClass::Medium,
    ResourceClass::Large,
    ResourceClass::Huge,
];
const INDEPENDENCE: [RegionIndependence; 2] = [
    RegionIndependence::Dependent,
    RegionIndependence::Independent,
];
const INTEGRITY: [IntegrityMode; 2] = [IntegrityMode::Absent, IntegrityMode::PerRegion];

fn sample(len: usize) -> Vec<u8> {
    let mut data = Vec::with_capacity(len);
    let mut state: u32 = 0x1234_5678;
    while data.len() < len {
        state = state.wrapping_mul(1_664_525).wrapping_add(1_013_904_223);
        data.push(byte_of(u64::from(state), 2));
    }
    data
}

fn build_raw_region(region: &[u8], block_bytes: usize) -> Result<Vec<u8>, Error> {
    let mut body = Vec::new();
    let mut at = 0;
    while at < region.len() {
        let end = at.saturating_add(block_bytes).min(region.len());
        let chunk = region.get(at..end).ok_or(Error::InvalidParameter)?;
        let size = u32::try_from(chunk.len()).map_err(|_| Error::InvalidParameter)?;
        let block = BlockHeader::raw(end == region.len(), size)?;
        body.extend_from_slice(block.encode().as_bytes());
        body.extend_from_slice(chunk);
        at = end;
    }
    Ok(body)
}

fn build_raw_frame(
    header: &FrameHeader,
    data: &[u8],
    region_bytes: usize,
    block_bytes: usize,
) -> Result<Vec<u8>, Error> {
    let mut out = Vec::new();
    out.extend_from_slice(header.encode().as_bytes());
    let mut offset = 0;
    while offset < data.len() {
        let end = offset.saturating_add(region_bytes).min(data.len());
        let region = data.get(offset..end).ok_or(Error::InvalidParameter)?;
        let body = build_raw_region(region, block_bytes)?;
        let logical = u64::try_from(region.len()).map_err(|_| Error::InvalidParameter)?;
        let physical = u64::try_from(body.len()).map_err(|_| Error::InvalidParameter)?;
        let region_header = RegionHeader::new(logical, physical, header.integrity)?;
        out.extend_from_slice(Record::Region(region_header).encode().as_bytes());
        out.extend_from_slice(&body);
        offset = end;
    }
    out.extend_from_slice(Record::Terminator.encode().as_bytes());
    Ok(out)
}

fn decode_region(
    bytes: &[u8],
    start: usize,
    region: &RegionHeader,
    out: &mut Vec<u8>,
) -> Result<usize, Error> {
    let mut at = start;
    let mut logical: u64 = 0;
    loop {
        let rest = bytes
            .get(at..)
            .ok_or(Error::TruncatedInput { needed: at })?;
        let (block, used) = BlockHeader::decode(rest)?;
        let declared = block.decoded_len();
        if declared > BLOCK_LIMIT {
            return Err(Error::LimitExceeded {
                declared: u64::from(declared),
                allowed: u64::from(BLOCK_LIMIT),
            });
        }
        at = at.checked_add(used).ok_or(Error::InvalidParameter)?;
        let rest = bytes
            .get(at..)
            .ok_or(Error::TruncatedInput { needed: at })?;
        let payload = block.payload(rest)?;
        let decoded = usize::try_from(declared).map_err(|_| Error::InvalidParameter)?;
        let base = out.len();
        out.resize(base.checked_add(decoded).ok_or(Error::InvalidParameter)?, 0);
        let target = out.get_mut(base..).ok_or(Error::InvalidParameter)?;
        let written = block.expand(payload, target)?;
        logical = logical
            .checked_add(u64::try_from(written).map_err(|_| Error::InvalidParameter)?)
            .ok_or(Error::InvalidParameter)?;
        at = at
            .checked_add(payload.len())
            .ok_or(Error::InvalidParameter)?;
        if block.last {
            break;
        }
    }
    let spent = at.checked_sub(start).ok_or(Error::InvalidParameter)?;
    let physical = u64::try_from(spent).map_err(|_| Error::InvalidParameter)?;
    if logical != region.logical_size || physical != region.physical_size {
        return Err(Error::CorruptData(Corruption::RegionMismatch));
    }
    Ok(at)
}

fn decode_frame(bytes: &[u8]) -> Result<(FrameHeader, Vec<u8>), Error> {
    let (header, used) = FrameHeader::decode(bytes)?;
    let mut at = used;
    let mut out = Vec::new();
    loop {
        let rest = bytes
            .get(at..)
            .ok_or(Error::TruncatedInput { needed: at })?;
        let (record, consumed) = Record::decode(rest, header.integrity)?;
        at = at.checked_add(consumed).ok_or(Error::InvalidParameter)?;
        match record {
            Record::Terminator => break,
            Record::Region(region) => {
                at = decode_region(bytes, at, &region, &mut out)?;
            }
        }
    }
    if let Some(declared) = header.content_length {
        let produced = u64::try_from(out.len()).map_err(|_| Error::InvalidParameter)?;
        if declared != produced {
            return Err(Error::CorruptData(Corruption::RegionMismatch));
        }
    }
    Ok((header, out))
}

fn every_legal_header() -> Vec<FrameHeader> {
    let mut headers = Vec::new();
    for class in CLASSES {
        for independence in INDEPENDENCE {
            for integrity in INTEGRITY {
                for content in [None, Some(0x0102_0304_0506_0708_u64)] {
                    for dictionary in [None, Some(0x0A0B_0C0D_u32)] {
                        for index in [None, Some(0x1112_1314_1516_1718_u64)] {
                            let mut header = FrameHeader::new(class, independence, integrity);
                            header.content_length = content;
                            header.dictionary_id = dictionary;
                            header.index_location = index;
                            headers.push(header);
                        }
                    }
                }
            }
        }
    }
    headers
}

#[test]
fn the_magic_avoids_a_trivial_pattern() {
    let wire = [
        byte_of(u64::from(MAGIC), 0),
        byte_of(u64::from(MAGIC), 1),
        byte_of(u64::from(MAGIC), 2),
        byte_of(u64::from(MAGIC), 3),
    ];
    assert!(wire.iter().all(|byte| *byte != 0x00 && *byte != 0xFF));
    assert!(wire.iter().any(|byte| *byte >= 0x80));
    for (position, byte) in wire.iter().enumerate() {
        let later = wire.get(position.saturating_add(1)..).unwrap_or(&[]);
        assert!(!later.contains(byte), "the magic repeats a byte");
    }
    assert!(core::str::from_utf8(&wire).is_err(), "the magic is UTF-8");
}

#[test]
fn a_frame_header_round_trips_over_every_legal_field_combination() -> Result<(), Error> {
    for header in every_legal_header() {
        let encoded = header.encode();
        assert_eq!(encoded.len(), header.encoded_len());
        let (decoded, consumed) = FrameHeader::decode(encoded.as_bytes())?;
        assert_eq!(decoded, header);
        assert_eq!(consumed, encoded.len());
    }
    Ok(())
}

#[test]
fn every_multi_byte_field_is_little_endian() {
    let mut header = FrameHeader::new(
        ResourceClass::Medium,
        RegionIndependence::Independent,
        IntegrityMode::PerRegion,
    );
    header.content_length = Some(0x0807_0605_0403_0201);
    header.dictionary_id = Some(0x0D0C_0B0A);
    let encoded = header.encode();
    assert_eq!(
        encoded.as_bytes(),
        &[
            0xE7,
            0x51,
            0xB3,
            0x2A,
            0x01,
            0b0000_0111,
            0x02,
            0x01,
            0x00,
            0x00,
            0x00,
            0x00,
            0x00,
            0x00,
            0x00,
            0x00,
            0x01,
            0x02,
            0x03,
            0x04,
            0x05,
            0x06,
            0x07,
            0x08,
            0x0A,
            0x0B,
            0x0C,
            0x0D,
        ]
    );
}

#[test]
fn bytes_that_are_not_a_frame_are_rejected_before_any_field() {
    let mut bytes = FrameHeader::new(
        ResourceClass::Small,
        RegionIndependence::Dependent,
        IntegrityMode::Absent,
    )
    .encode()
    .as_bytes()
    .to_vec();
    if let Some(slot) = bytes.first_mut() {
        *slot ^= 0xFF;
    }
    assert_eq!(FrameHeader::decode(&bytes), Err(Error::InvalidFormat));
}

#[test]
fn an_unimplemented_major_version_has_its_own_error() {
    let base = FrameHeader::new(
        ResourceClass::Small,
        RegionIndependence::Dependent,
        IntegrityMode::Absent,
    )
    .encode();
    for major in 0..=u8::MAX {
        if major == MAJOR_VERSION {
            continue;
        }
        let mut bytes = base.as_bytes().to_vec();
        if let Some(slot) = bytes.get_mut(4) {
            *slot = major;
        }
        assert_eq!(
            FrameHeader::decode(&bytes),
            Err(Error::UnsupportedVersion { major }),
            "version {major}"
        );
    }
}

#[test]
fn a_set_reject_reserved_bit_is_corrupt_data() {
    let base = FrameHeader::new(
        ResourceClass::Small,
        RegionIndependence::Dependent,
        IntegrityMode::Absent,
    )
    .encode();
    for bit in 0..8_u32 {
        let mask = byte_of(1, 0).checked_shl(bit).unwrap_or(0);
        if mask & FLAG_REJECT_RESERVED == 0 {
            continue;
        }
        let mut bytes = base.as_bytes().to_vec();
        if let Some(slot) = bytes.get_mut(5) {
            *slot |= mask;
        }
        assert_eq!(
            FrameHeader::decode(&bytes),
            Err(Error::CorruptData(Corruption::FrameFlag)),
            "flag bit {bit}"
        );
    }
    for position in 12..16 {
        for bit in 0..8_u32 {
            let mut bytes = base.as_bytes().to_vec();
            if let Some(slot) = bytes.get_mut(position) {
                *slot |= byte_of(1, 0).checked_shl(bit).unwrap_or(0);
            }
            assert_eq!(
                FrameHeader::decode(&bytes),
                Err(Error::CorruptData(Corruption::FrameReserved)),
                "reserved byte {position} bit {bit}"
            );
        }
    }
}

#[test]
fn an_undefined_ignore_reserved_bit_is_an_unsupported_feature() {
    let base = FrameHeader::new(
        ResourceClass::Small,
        RegionIndependence::Dependent,
        IntegrityMode::Absent,
    )
    .encode();
    for position in 8..12 {
        for bit in 0..8_u32 {
            let mut bytes = base.as_bytes().to_vec();
            if let Some(slot) = bytes.get_mut(position) {
                *slot |= byte_of(1, 0).checked_shl(bit).unwrap_or(0);
            }
            assert_eq!(
                FrameHeader::decode(&bytes),
                Err(Error::UnsupportedFeature(Feature::ReservedFrameFlag)),
                "ignore-reserved byte {position} bit {bit}"
            );
        }
    }
}

#[test]
fn a_resource_class_outside_the_enumeration_is_corrupt_data() {
    let base = FrameHeader::new(
        ResourceClass::Small,
        RegionIndependence::Dependent,
        IntegrityMode::Absent,
    )
    .encode();
    for code in 5..=u8::MAX {
        let mut bytes = base.as_bytes().to_vec();
        if let Some(slot) = bytes.get_mut(6) {
            *slot = code;
        }
        assert_eq!(
            FrameHeader::decode(&bytes),
            Err(Error::CorruptData(Corruption::ResourceClass)),
            "class {code}"
        );
    }
}

#[test]
fn an_integrity_mode_outside_the_enumeration_is_corrupt_data() {
    let base = FrameHeader::new(
        ResourceClass::Small,
        RegionIndependence::Dependent,
        IntegrityMode::Absent,
    )
    .encode();
    for code in 2..=u8::MAX {
        let mut bytes = base.as_bytes().to_vec();
        if let Some(slot) = bytes.get_mut(7) {
            *slot = code;
        }
        assert_eq!(
            FrameHeader::decode(&bytes),
            Err(Error::CorruptData(Corruption::IntegrityMode)),
            "mode {code}"
        );
    }
}

#[test]
fn a_short_frame_header_asks_for_more_input() {
    let mut header = FrameHeader::new(
        ResourceClass::Small,
        RegionIndependence::Dependent,
        IntegrityMode::Absent,
    );
    header.content_length = Some(1);
    let encoded = header.encode();
    for length in 0..encoded.len() {
        let short = encoded.as_bytes().get(..length).unwrap_or(&[]);
        let result = FrameHeader::decode(short);
        assert!(
            matches!(result, Err(Error::TruncatedInput { needed }) if needed > length),
            "length {length} gave {result:?}"
        );
    }
}

#[test]
fn the_policy_rejects_a_frame_that_declares_more_than_it_allows() -> Result<(), Error> {
    let small = FrameHeader::new(
        ResourceClass::Small,
        RegionIndependence::Dependent,
        IntegrityMode::Absent,
    );
    let huge = FrameHeader::new(
        ResourceClass::Huge,
        RegionIndependence::Dependent,
        IntegrityMode::Absent,
    );
    assert_eq!(
        DecoderPolicy::conservative().admit_frame(&small)?,
        ResourceClass::Small.history_bytes()
    );
    assert_eq!(
        DecoderPolicy::conservative().admit_frame(&huge),
        Err(Error::LimitExceeded {
            declared: ResourceClass::Huge.history_bytes(),
            allowed: ResourceClass::Small.history_bytes(),
        })
    );
    Ok(())
}

#[test]
fn a_region_is_reached_by_physical_size_alone() -> Result<(), Error> {
    let header = FrameHeader::new(
        ResourceClass::Small,
        RegionIndependence::Independent,
        IntegrityMode::PerRegion,
    );
    let data = sample(3_000);
    let bytes = build_raw_frame(&header, &data, 1_024, 300)?;
    assert!(header.index_location.is_none());

    let (decoded, used) = FrameHeader::decode(&bytes)?;
    let mut at = used;
    let mut regions: u32 = 0;
    loop {
        let rest = bytes.get(at..).ok_or(Error::InvalidParameter)?;
        let (record, consumed) = Record::decode(rest, decoded.integrity)?;
        at = at.checked_add(consumed).ok_or(Error::InvalidParameter)?;
        match record {
            Record::Terminator => break,
            Record::Region(region) => {
                regions = regions.saturating_add(1);
                let skip = usize::try_from(region.physical_size)
                    .map_err(|_| Error::InvalidParameter)?;
                at = at.checked_add(skip).ok_or(Error::InvalidParameter)?;
            }
        }
    }
    assert_eq!(regions, 3);
    assert_eq!(at, bytes.len());
    Ok(())
}

#[test]
fn raw_blocks_round_trip() -> Result<(), Error> {
    for header in every_legal_header() {
        let data = sample(700);
        let mut header = header;
        header.content_length = header.content_length.map(|_| 700);
        let bytes = build_raw_frame(&header, &data, 256, 100)?;
        let (decoded, content) = decode_frame(&bytes)?;
        assert_eq!(decoded, header);
        assert_eq!(content, data);
    }
    Ok(())
}

#[test]
fn an_empty_frame_carries_no_region() -> Result<(), Error> {
    let header = FrameHeader::new(
        ResourceClass::Minimal,
        RegionIndependence::Independent,
        IntegrityMode::Absent,
    );
    let bytes = build_raw_frame(&header, &[], 1_024, 256)?;
    assert_eq!(
        bytes.len(),
        header.encoded_len().saturating_add(TERMINATOR_BYTES)
    );
    let (_, content) = decode_frame(&bytes)?;
    assert!(content.is_empty());
    Ok(())
}

#[test]
fn the_raw_expansion_bound_holds_at_the_sizes_that_stress_it() -> Result<(), Error> {
    let region_bytes: usize = 4_096;
    let block_bytes: usize = 1_024;
    let sizes = [
        0, 1, 2, 1_023, 1_024, 1_025, 4_095, 4_096, 4_097, 8_192, 8_193, 12_290,
    ];
    for integrity in INTEGRITY {
        let header = FrameHeader::new(
            ResourceClass::Small,
            RegionIndependence::Independent,
            integrity,
        );
        for size in sizes {
            let data = sample(size);
            let bytes = build_raw_frame(&header, &data, region_bytes, block_bytes)?;
            let logical = u64::try_from(size).map_err(|_| Error::InvalidParameter)?;
            let predicted = header.raw_frame_bytes(
                logical,
                u64::try_from(region_bytes).map_err(|_| Error::InvalidParameter)?,
                u32::try_from(block_bytes).map_err(|_| Error::InvalidParameter)?,
            )?;
            let actual = u64::try_from(bytes.len()).map_err(|_| Error::InvalidParameter)?;
            assert_eq!(predicted, actual, "size {size}");
            assert_eq!(
                header.raw_overhead_bytes(
                    logical,
                    u64::try_from(region_bytes).map_err(|_| Error::InvalidParameter)?,
                    u32::try_from(block_bytes).map_err(|_| Error::InvalidParameter)?,
                )?,
                actual.saturating_sub(logical)
            );
        }
    }
    Ok(())
}

#[test]
fn rle_declares_its_decoded_size_with_a_one_byte_payload() -> Result<(), Error> {
    let count: u32 = 131_072;
    let block = BlockHeader::rle(true, count)?;
    assert_eq!(block.stored_len(), 1);
    assert_eq!(block.decoded_len(), count);

    let encoded = block.encode();
    assert_eq!(encoded.len(), BLOCK_HEADER_BYTES);
    let (decoded, used) = BlockHeader::decode(encoded.as_bytes())?;
    assert_eq!(used, BLOCK_HEADER_BYTES);
    assert_eq!(decoded, block);
    assert_eq!(decoded.kind, BlockType::Rle);

    let mut out = vec![0_u8; 131_072];
    let written = decoded.expand(&[0x5A], &mut out)?;
    assert_eq!(written, 131_072);
    assert!(out.iter().all(|byte| *byte == 0x5A));
    Ok(())
}

#[test]
fn an_rle_region_round_trips_through_the_frame() -> Result<(), Error> {
    let header = FrameHeader::new(
        ResourceClass::Small,
        RegionIndependence::Independent,
        IntegrityMode::PerRegion,
    );
    let block = BlockHeader::rle(true, 4_096)?;
    let mut body = block.encode().as_bytes().to_vec();
    body.push(0x7E);
    let physical = u64::try_from(body.len()).map_err(|_| Error::InvalidParameter)?;
    let region = RegionHeader::new(4_096, physical, header.integrity)?;

    let mut bytes = header.encode().as_bytes().to_vec();
    bytes.extend_from_slice(Record::Region(region).encode().as_bytes());
    bytes.extend_from_slice(&body);
    bytes.extend_from_slice(Record::Terminator.encode().as_bytes());

    let (_, content) = decode_frame(&bytes)?;
    assert_eq!(content.len(), 4_096);
    assert!(content.iter().all(|byte| *byte == 0x7E));
    assert_eq!(bytes.len(), 16 + 25 + 5 + 1);
    Ok(())
}

#[test]
fn a_compressed_block_is_an_unsupported_feature() {
    let word: u32 = 0b0000_0100 | 0b1000_0000;
    let bytes = [
        byte_of(u64::from(word), 0),
        byte_of(u64::from(word), 1),
        byte_of(u64::from(word), 2),
        byte_of(u64::from(word), 3),
    ];
    assert_eq!(
        BlockHeader::decode(&bytes),
        Err(Error::UnsupportedFeature(Feature::CompressedBlock))
    );
}

#[test]
fn a_reserved_block_type_is_corrupt_data() {
    let word: u32 = 0b0000_0110 | 0b1000_0000;
    let bytes = [
        byte_of(u64::from(word), 0),
        byte_of(u64::from(word), 1),
        byte_of(u64::from(word), 2),
        byte_of(u64::from(word), 3),
    ];
    assert_eq!(
        BlockHeader::decode(&bytes),
        Err(Error::CorruptData(Corruption::BlockType))
    );
}

#[test]
fn a_block_that_decodes_to_nothing_is_corrupt_data() {
    assert_eq!(
        BlockHeader::decode(&[0, 0, 0, 0]),
        Err(Error::CorruptData(Corruption::BlockSize))
    );
    assert_eq!(BlockHeader::raw(true, 0), Err(Error::InvalidParameter));
    assert_eq!(
        BlockHeader::raw(true, MAX_BLOCK_BYTES.saturating_add(1)),
        Err(Error::InvalidParameter)
    );
}

#[test]
fn an_undefined_record_tag_is_corrupt_data() {
    for tag in 2..=u8::MAX {
        assert_eq!(
            Record::decode(&[tag], IntegrityMode::Absent),
            Err(Error::CorruptData(Corruption::RecordTag)),
            "tag {tag}"
        );
    }
}

#[test]
fn a_region_that_decodes_to_nothing_is_corrupt_data() {
    let mut bytes = vec![TAG_REGION];
    bytes.resize(
        RECORD_TAG_BYTES.saturating_add(REGION_HEADER_FIXED_BYTES),
        0,
    );
    if let Some(slot) = bytes.get_mut(9) {
        *slot = 0x10;
    }
    assert_eq!(
        Record::decode(&bytes, IntegrityMode::Absent),
        Err(Error::CorruptData(Corruption::RegionLogicalSize))
    );
    assert_eq!(
        RegionHeader::new(0, 64, IntegrityMode::Absent),
        Err(Error::InvalidParameter)
    );
    assert_eq!(
        RegionHeader::new(64, 4, IntegrityMode::Absent),
        Err(Error::InvalidParameter)
    );
}

#[test]
fn a_region_too_small_to_hold_a_block_is_corrupt_data() {
    let mut bytes = vec![TAG_REGION];
    bytes.extend_from_slice(&[1, 0, 0, 0, 0, 0, 0, 0]);
    bytes.extend_from_slice(&[4, 0, 0, 0, 0, 0, 0, 0]);
    assert_eq!(
        Record::decode(&bytes, IntegrityMode::Absent),
        Err(Error::CorruptData(Corruption::RegionPhysicalSize))
    );
}

#[test]
fn a_stream_cut_at_every_byte_offset_fails() -> Result<(), Error> {
    let mut header = FrameHeader::new(
        ResourceClass::Small,
        RegionIndependence::Independent,
        IntegrityMode::PerRegion,
    );
    header.content_length = Some(2_000);
    header.dictionary_id = Some(9);
    let data = sample(2_000);
    let bytes = build_raw_frame(&header, &data, 768, 200)?;
    assert!(decode_frame(&bytes).is_ok());

    for length in 0..bytes.len() {
        let cut = bytes.get(..length).ok_or(Error::InvalidParameter)?;
        assert!(
            decode_frame(cut).is_err(),
            "a stream cut at {length} decoded as a whole frame"
        );
    }
    Ok(())
}

#[test]
fn a_frame_with_a_content_length_decodes_to_the_same_bytes_as_one_without() -> Result<(), Error>
{
    let data = sample(1_500);
    let plain = FrameHeader::new(
        ResourceClass::Small,
        RegionIndependence::Independent,
        IntegrityMode::Absent,
    );
    let mut declared = plain;
    declared.content_length = Some(1_500);

    let (_, without) = decode_frame(&build_raw_frame(&plain, &data, 512, 128)?)?;
    let (_, with) = decode_frame(&build_raw_frame(&declared, &data, 512, 128)?)?;
    assert_eq!(without, data);
    assert_eq!(with, data);
    assert_eq!(
        declared.encoded_len(),
        plain.encoded_len().saturating_add(8)
    );
    Ok(())
}

#[test]
fn a_declared_length_is_checked_before_anything_is_sized_from_it() -> Result<(), Error> {
    let block = BlockHeader::raw(true, MAX_BLOCK_BYTES)?;
    let encoded = block.encode();
    let (decoded, used) = BlockHeader::decode(encoded.as_bytes())?;
    assert_eq!(used, BLOCK_HEADER_BYTES);
    assert_eq!(decoded.decoded_len(), MAX_BLOCK_BYTES);
    assert_eq!(
        decoded.payload(&[]),
        Err(Error::TruncatedInput {
            needed: usize::try_from(MAX_BLOCK_BYTES).map_err(|_| Error::InvalidParameter)?,
        })
    );
    let mut small = [0_u8; 8];
    assert_eq!(
        decoded.expand(&[], &mut small),
        Err(Error::CorruptData(Corruption::BlockSize))
    );

    let header = FrameHeader::new(
        ResourceClass::Small,
        RegionIndependence::Independent,
        IntegrityMode::Absent,
    );
    let region = RegionHeader::new(u64::MAX, u64::MAX, IntegrityMode::Absent)?;
    let mut bytes = header.encode().as_bytes().to_vec();
    bytes.extend_from_slice(Record::Region(region).encode().as_bytes());
    bytes.extend_from_slice(block.encode().as_bytes());
    assert_eq!(
        decode_frame(&bytes),
        Err(Error::LimitExceeded {
            declared: u64::from(MAX_BLOCK_BYTES),
            allowed: u64::from(BLOCK_LIMIT),
        })
    );
    Ok(())
}

#[test]
fn a_region_header_carries_its_integrity_field_only_when_the_frame_declares_one()
-> Result<(), Error> {
    let absent = RegionHeader::new(64, 64, IntegrityMode::Absent)?;
    let present = RegionHeader::new(64, 64, IntegrityMode::PerRegion)?;
    assert_eq!(absent.encoded_len(), REGION_HEADER_FIXED_BYTES);
    assert_eq!(
        present.encoded_len(),
        REGION_HEADER_FIXED_BYTES.saturating_add(INTEGRITY_FIELD_BYTES)
    );
    assert!(absent.integrity.is_none());
    assert_eq!(present.integrity, Some(0));

    let encoded = present.encode();
    let (decoded, used) = RegionHeader::decode(encoded.as_bytes(), IntegrityMode::PerRegion)?;
    assert_eq!(decoded, present);
    assert_eq!(used, present.encoded_len());
    Ok(())
}

#[test]
fn every_structure_serializes_to_the_width_it_declares() -> Result<(), Error> {
    for header in every_legal_header() {
        assert_eq!(header.encode().len(), header.encoded_len());
    }
    for integrity in INTEGRITY {
        let region = RegionHeader::new(64, 64, integrity)?;
        assert_eq!(region.encode().len(), region.encoded_len());
        let record = Record::Region(region);
        assert_eq!(record.encode().len(), record.encoded_len());
    }
    assert_eq!(
        Record::Terminator.encode().len(),
        Record::Terminator.encoded_len()
    );
    let block = BlockHeader::raw(true, 1)?;
    assert_eq!(block.encode().len(), BLOCK_HEADER_BYTES);
    Ok(())
}

#[test]
fn a_short_record_asks_for_the_whole_record_including_its_tag() -> Result<(), Error> {
    for integrity in INTEGRITY {
        let region = RegionHeader::new(64, 64, integrity)?;
        let record = Record::Region(region);
        let encoded = record.encode();
        for length in 0..encoded.len() {
            let short = encoded.as_bytes().get(..length).unwrap_or(&[]);
            let result = Record::decode(short, integrity);
            assert!(
                matches!(result, Err(Error::TruncatedInput { needed }) if needed > length),
                "length {length} gave {result:?}"
            );
        }
        let one_short = encoded
            .as_bytes()
            .get(..record.encoded_len().saturating_sub(1))
            .unwrap_or(&[]);
        assert_eq!(
            Record::decode(one_short, integrity),
            Err(Error::TruncatedInput {
                needed: record.encoded_len()
            })
        );
    }
    Ok(())
}

#[test]
fn the_fixed_frame_header_is_the_width_the_format_states() {
    let header = FrameHeader::new(
        ResourceClass::Minimal,
        RegionIndependence::Dependent,
        IntegrityMode::Absent,
    );
    assert_eq!(header.encoded_len(), FRAME_HEADER_FIXED_BYTES);
}
