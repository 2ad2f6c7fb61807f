use entroq::block::{
    Block, Decoder, Encoder, Terms, expand, expand_rule, expand_scalar, expand_width,
};
use entroq::decode::{Moved, Payload};
use entroq::encode::{abort_to_raw, log2_fixed, shannon_scaled};
use entroq::entropy::bits::{BitBuf, BitReader, BitWriter};
use entroq::entropy::{ceil_log2, huffman, rans, width_for};
use entroq::format::{
    BLOCK_STREAMS, BlockHeader, BlockPrologue, Corruption, DecoderPolicy, Encoded, Error,
    FRAME_HEADER_MAX_BYTES, Feature,
    FrameHeader, IntegrityMode, Record, RegionHeader, RegionIndependence, ResourceClass,
};
use entroq::matchfinder::{BoundedHashChain, SingleHash};
use entroq::parser::{Parser, skip_jump, step_capacity};
use entroq::sequence::cache::OffsetCache;
use entroq::sequence::streams::Streams;
use entroq::sequence::{Alphabet, Match, Sequences, Step};
use entroq::simd::{ALL, Kernel, common_prefix, neon, scalar, word};

#[test]
fn every_error_says_what_it_is() {
    let cases = [
        (Error::InvalidFormat, "the bytes do not start an Entroq frame"),
        (Error::UnsupportedVersion { major: 12 }, "major version 12 is not implemented"),
        (
            Error::UnsupportedFeature(Feature::ReservedFrameFlag),
            "unsupported feature: a frame flag this version does not define",
        ),
        (
            Error::UnsupportedFeature(Feature::CompressedBlock),
            "unsupported feature: a compressed block",
        ),
        (
            Error::UnsupportedFeature(Feature::BlockModel { model: 3 }),
            "unsupported feature: symbol model 3",
        ),
        (
            Error::CorruptData(Corruption::KraftSum),
            "corrupt data: the code lengths are not a complete code",
        ),
        (Error::TruncatedInput { needed: 1_030 }, "the structure needs 1030 bytes"),
        (
            Error::LimitExceeded { declared: 100, allowed: 9 },
            "declared 100 bytes, policy allows 9",
        ),
        (Error::OutputTooSmall { needed: 0 }, "the output needs 0 bytes"),
        (Error::InvalidParameter, "the format cannot represent the request"),
    ];
    for (error, text) in cases {
        assert_eq!(error.message(), text);
    }
}

#[test]
fn the_vector_formulation_compares_as_the_byte_loop_does() {
    let mut data: Vec<u8> = (0..200u16).map(|at| (at % 5) as u8).collect();
    data[150] = 9;
    for (earlier, later) in [(0usize, 5usize), (0, 10), (5, 100), (3, 4), (0, 150), (150, 150), (0, 500)] {
        for cap in [0usize, 1, 7, 8, 15, 16, 17, 31, 33, 64, 1_000] {
            let expected = scalar(&data, earlier, later, cap);
            assert_eq!(word(&data, earlier, later, cap), expected);
            assert_eq!(neon(&data, earlier, later, cap), expected);
            for kernel in ALL {
                assert_eq!(common_prefix(kernel, &data, earlier, later, cap), expected);
            }
        }
    }
    assert_eq!(neon(&data, 0, 5, 1_000), 145);
    assert_eq!(Kernel::Scalar.name(), "scalar-byte");
    assert_eq!(Kernel::Word.name(), "scalar-word8");
    assert_eq!((Kernel::Scalar.widest_load_bytes(), Kernel::Word.widest_load_bytes()), (1, 8));
}

#[test]
fn a_single_table_reports_the_most_recent_position() {
    let data = b"abcdXabcdYabcdefgh!abcdefgh";
    let mut table = SingleHash::new();
    assert_eq!(table.search(data, 0), None);
    assert_eq!(table.search(data, 5), Some(Match { length: 4, distance: 5 }));
    table.insert(data, 10);
    assert_eq!(table.search(data, 19), Some(Match { length: 8, distance: 9 }));
    table.reset();
    assert_eq!(table.search(data, 19), None);
    assert_eq!(table.search(data, 25), None);
    assert_eq!(SingleHash::state_bytes(), 65_536);
}

#[test]
fn a_slide_moves_a_single_table_by_one_window() {
    let mut data = vec![0u8; 131_072 + 32];
    data[65_536..65_544].copy_from_slice(b"wxyzWXYZ");
    let mut table = SingleHash::new();
    table.insert(&data, 65_536);
    table.slide();
    let mut slid = vec![0u8; 64];
    slid[0..8].copy_from_slice(b"wxyzWXYZ");
    slid[40..48].copy_from_slice(b"wxyzWXYZ");
    assert_eq!(table.search(&slid, 40), Some(Match { length: 24, distance: 40 }));
    table.reset();
    table.insert(&data, 65_535);
    table.slide();
    assert_eq!(table.search(&slid, 40), None, "a position before the window is discarded");
}

#[test]
fn a_chain_of_depth_one_finds_what_the_single_table_finds() {
    let data: Vec<u8> = b"abracadabra abracadabra, cadabra abra!".to_vec();
    let mut chain = BoundedHashChain::with_depth(1);
    let mut table = SingleHash::new();
    for at in 0..data.len() {
        let peeked = chain.peek(&data, at);
        let found = chain.step(&data, at);
        assert_eq!(peeked, found);
        assert!(found.candidates <= 1);
        if let Some(single) = table.search(&data, at) {
            assert_eq!(found.matched, Some(single));
        }
    }
}

#[test]
fn the_longest_candidate_wins_and_the_nearest_of_equals() {
    let data = b"abcdef--abcd--abcd--abcdef";
    let mut chain = BoundedHashChain::new();
    for at in 0..20 {
        chain.insert(data, at);
    }
    assert_eq!(chain.peek(data, 20).matched, Some(Match { length: 6, distance: 20 }));
    assert_eq!(chain.peek(data, 20).candidates, 3);
    let tied = b"abcd-abcd-abcd";
    let mut chain = BoundedHashChain::new();
    for at in 0..10 {
        chain.insert(tied, at);
    }
    assert_eq!(chain.peek(tied, 10).matched, Some(Match { length: 4, distance: 5 }));
}

#[test]
fn a_field_reads_back_from_the_bits_that_carry_it() {
    let mut writer = BitWriter::new();
    writer.push(0b101, 3);
    writer.push(0xABCD, 16);
    writer.push(u64::MAX, 64);
    writer.push(0, 0);
    let buf = writer.finish();
    assert_eq!(buf.bits(), 83);
    assert_eq!(buf.bytes().len(), 11);
    assert_eq!(buf.bytes()[0], 0b1011_0101);
    let mut reader = BitReader::over(&buf);
    assert_eq!(reader.take(3), Ok(0b101));
    assert_eq!(reader.take(16), Ok(0xABCD));
    assert_eq!(reader.take(64), Ok(u64::MAX));
    assert_eq!(reader.finish(), Ok(()));
    assert!(reader.take(1).is_err());
    assert!(matches!(BitBuf::new(vec![0, 0], 8), Err(Error::InvalidParameter)));
    assert!(matches!(BitBuf::new(vec![0], 9), Err(Error::InvalidParameter)));
}

#[test]
fn logarithms_and_widths_take_their_values() {
    assert_eq!([0u64, 1, 2, 3, 4, 5, 256, 257].map(ceil_log2), [0, 0, 1, 2, 2, 3, 8, 9]);
    assert_eq!([0u64, 1, 2, 3, 4, 255, 256].map(width_for), [1, 1, 2, 2, 3, 8, 9]);
    assert_eq!([0u32, 1, 2, 4, 1_024].map(log2_fixed), [0, 0, 256, 512, 2_560]);
    assert!(log2_fixed(3) > log2_fixed(2) && log2_fixed(3) < log2_fixed(4));
    assert_eq!(shannon_scaled(&[7; 50]), 0);
    // Two symbols four times each: eight bits at one bit a symbol.
    assert_eq!(shannon_scaled(&[0, 1, 0, 1, 0, 1, 0, 1]), 8 * 256);
}

#[test]
fn the_early_rule_keeps_a_block_a_match_covers() {
    let uniform: Vec<u8> = (0..=255u8).cycle().take(4_096).collect();
    assert!(abort_to_raw(0, &uniform, 4_096));
    assert!(!abort_to_raw(4_096, &[], 4_096));
    assert!(!abort_to_raw(0, &[1; 4_096], 4_096));
}

#[test]
fn a_prefix_code_gives_back_what_it_wrote() -> Result<(), Error> {
    let symbols: Vec<u16> = [0u16, 1, 0, 2, 0, 3, 0, 1, 0, 0].to_vec();
    let code = huffman::Code::build(&[6, 2, 1, 1], 4, 15)?;
    assert_eq!(code.lengths(), &[1, 2, 3, 3]);
    assert_eq!(code.max_length(), 3);
    assert_eq!(code.table_bytes(), 16);
    assert_eq!(code.encoded_bits_for_counts(&[6, 2, 1, 1]), Ok(16));
    assert_eq!(code.encoded_bits_for_counts(&[6, 2]), Err(Error::InvalidParameter));
    let mut description = BitWriter::new();
    code.describe(&mut description);
    let description = description.finish();
    let read = huffman::Declared::parse(&mut BitReader::over(&description), 4)?.validate()?;
    assert_eq!(read.code(), &code);
    let mut payload = BitWriter::new();
    code.encoder()?.write(&symbols, &mut payload)?;
    let payload = payload.finish();
    assert_eq!(payload.bits(), 16);
    let mut out = vec![9u16; symbols.len()];
    let table = read.build()?;
    assert_eq!(table.allocated_bytes(), 16);
    table.decode(&mut BitReader::over(&payload), &mut out)?;
    assert_eq!(out, symbols);
    Ok(())
}

#[test]
fn a_code_is_built_inside_its_budget() -> Result<(), Error> {
    let counts: Vec<u64> = (0..16u32).map(|at| 1u64 << at).collect();
    assert_eq!(huffman::Code::build_within(&counts, 16, u64::MAX)?.max_length(), 15);
    let narrow = huffman::Code::build_within(&counts, 16, 64)?;
    assert_eq!((narrow.max_length(), narrow.table_bytes()), (5, 64));
    assert_eq!(
        huffman::Code::build_within(&counts, 16, 31),
        Err(Error::LimitExceeded { declared: 32, allowed: 31 })
    );
    assert_eq!(
        huffman::Code::build_within(&[0, 0], 2, 64),
        Err(Error::InvalidParameter)
    );
    let single = huffman::Code::build_within(&[0, 9], 2, 0)?;
    assert!(single.carries(1) && !single.carries(0));
    assert_eq!(
        huffman::Code::build_within(&vec![1u64; 300], 300, 65_536),
        Err(Error::InvalidParameter)
    );
    assert_eq!(
        huffman::Code::build_within(&vec![1u64; 40_000], 40_000, u64::MAX),
        Err(Error::InvalidParameter)
    );
    Ok(())
}

#[test]
fn interleaved_states_give_back_the_symbols() -> Result<(), Error> {
    let symbols: Vec<u16> = (0..500u16).map(|at| (at * at) % 7).collect();
    let mut counts = vec![0u64; 8];
    for symbol in &symbols {
        counts[usize::from(*symbol)] += 1;
    }
    let table = rans::Table::normalize(&counts, 8)?;
    for symbol in 0..8u16 {
        assert_eq!(table.carries(symbol), counts[usize::from(symbol)] > 0);
    }
    let mut description = BitWriter::new();
    table.describe(&mut description);
    let description = description.finish();
    let read = rans::Declared::parse(&mut BitReader::over(&description), 8)?.validate()?;
    assert_eq!(read.table(), &table);
    let decode = read.build()?;
    assert_eq!(decode.allocated_bytes(), 4 << table.log());
    for states in [1usize, 2, 4] {
        let bytes = table.encoder()?.write(&symbols, states)?;
        let mut out = vec![0u16; symbols.len()];
        assert_eq!(decode.decode(&bytes, &mut out, states)?, bytes.len());
        assert_eq!(out, symbols);
    }
    assert!(matches!(
        table.encoder()?.write(&[7], 1),
        Err(Error::InvalidParameter)
    ));
    Ok(())
}

fn steps() -> (Vec<u8>, Vec<Step>) {
    (
        b"abcdxyz".to_vec(),
        vec![
            Step { run: 4, matched: Some(Match { length: 9, distance: 4 }) },
            Step { run: 0, matched: Some(Match { length: 4, distance: 4 }) },
            Step { run: 2, matched: Some(Match { length: 5, distance: 1 }) },
            Step { run: 1, matched: None },
        ],
    )
}

#[test]
fn the_streams_give_back_the_sequences() -> Result<(), Error> {
    let (literals, steps) = steps();
    let sequences = Sequences::new(literals, steps)?;
    let mut cache = OffsetCache::reset();
    let streams = Streams::of(&sequences, &mut cache)?;
    assert_eq!(cache.slot(), Some(1));
    assert_eq!(streams.stream(Alphabet::LiteralByte).symbols().len(), 7);
    assert_eq!(streams.stream(Alphabet::LiteralRun).symbols().len(), 4);
    assert_eq!(streams.stream(Alphabet::MatchLength).symbols().len(), 4);
    assert_eq!(streams.stream(Alphabet::MatchDistance).symbols().len(), 3);
    let mut other = OffsetCache::reset();
    assert_eq!(streams.sequences(&mut other)?, sequences);
    assert_eq!(other.slot(), Some(1));
    Ok(())
}

#[test]
fn every_expansion_places_the_same_bytes() -> Result<(), Error> {
    let (literals, steps) = steps();
    let sequences = Sequences::new(literals, steps)?;
    // Four literals and nine copied, four copied, two literals and five copied, one literal.
    let expected = b"abcdabcdabcdabcdaxyyyyyyz";
    let expected: Vec<u8> = {
        let mut out: Vec<u8> = b"abcd".to_vec();
        for (run, length, distance) in [("", 9usize, 4usize), ("", 4, 4), ("xy", 5, 1)] {
            out.extend_from_slice(run.as_bytes());
            for _ in 0..length {
                out.push(out[out.len() - distance]);
            }
        }
        out.push(b'z');
        assert_eq!(out, expected);
        out
    };
    for place in [expand, expand_scalar, expand_rule, expand_width::<1>, expand_width::<16>] {
        let mut out = vec![0u8; expected.len()];
        assert_eq!(place(&sequences, &[], &mut out), Ok(()));
        assert_eq!(out, expected);
        let mut short = vec![0u8; expected.len() - 1];
        assert!(place(&sequences, &[], &mut short).is_err());
    }
    let reaching = Sequences::new(
        Vec::new(),
        vec![Step { run: 0, matched: Some(Match { length: 4, distance: 3 }) }],
    );
    if let Ok(reaching) = reaching {
        for place in [expand, expand_scalar, expand_rule] {
            let mut out = [0u8; 4];
            assert_eq!(place(&reaching, b"pqr", &mut out), Ok(()));
            assert_eq!(&out, b"pqrp");
            assert_eq!(
                place(&reaching, b"qr", &mut out),
                Err(Error::CorruptData(Corruption::MatchReach))
            );
        }
    }
    Ok(())
}

#[test]
fn a_payload_in_pieces_writes_its_whole_content() -> Result<(), Error> {
    let mut payload = Payload::new(BlockHeader::raw(true, 6)?);
    let mut content = Vec::new();
    let stored = b"abcdefgh";
    let mut at = 0;
    for room in [2usize, 0, 3, 5] {
        assert_eq!(payload.stored_remaining(), 6 - at);
        let mut out = vec![0u8; room];
        let moved: Moved = payload.step(&stored[at..], &mut out)?;
        assert_eq!(moved.consumed, moved.produced);
        content.extend_from_slice(&out[..moved.produced]);
        at += moved.consumed;
    }
    assert!(payload.is_done());
    assert_eq!((at, content.as_slice()), (6, &stored[..6]));
    let mut payload = Payload::new(BlockHeader::rle(true, 3)?);
    let mut out = [0u8; 2];
    assert_eq!(payload.step(b"x", &mut out)?, Moved { consumed: 1, produced: 0 });
    assert_eq!(payload.step(b"", &mut out)?, Moved { consumed: 0, produced: 2 });
    assert_eq!(payload.step(b"", &mut out)?, Moved { consumed: 0, produced: 1 });
    assert!(payload.is_done());
    Ok(())
}

#[test]
fn headers_are_their_bytes() -> Result<(), Error> {
    let mut frame = FrameHeader::new(
        ResourceClass::Medium,
        RegionIndependence::Independent,
        IntegrityMode::PerRegion,
    );
    frame.content_length = Some(0x0102_0304_0506);
    frame.dictionary_id = Some(7);
    let mut bytes = frame.encode().as_bytes().to_vec();
    let width = bytes.len();
    assert_eq!(width, frame.encoded_len());
    bytes.extend_from_slice(b"more");
    assert_eq!(FrameHeader::decode(&bytes), Ok((frame, width)));
    for short in 0..width {
        assert!(FrameHeader::decode(&bytes[..short]).is_err());
    }
    let region = RegionHeader::new(100, 60, IntegrityMode::PerRegion)?;
    let record = Record::Region(region);
    assert_eq!(record.encoded_len(), 25);
    assert_eq!(
        Record::decode(record.encode().as_bytes(), IntegrityMode::PerRegion),
        Ok((record, 25))
    );
    assert_eq!(
        Record::decode(&[0], IntegrityMode::Absent),
        Ok((Record::Terminator, 1))
    );
    let block = BlockHeader::rle(false, 70_000)?;
    assert_eq!((block.stored_len(), block.decoded_len()), (1, 70_000));
    assert_eq!(BlockHeader::decode(block.encode().as_bytes()), Ok((block, 4)));
    Ok(())
}

#[test]
fn a_policy_admits_what_it_allows() {
    let policy = DecoderPolicy::with_max_history_bytes(1_048_576);
    let header = |class| {
        FrameHeader::new(class, RegionIndependence::Dependent, IntegrityMode::Absent)
    };
    assert_eq!(policy.admit_frame(&header(ResourceClass::Small)), Ok(1_048_576));
    assert_eq!(
        policy.admit_frame(&header(ResourceClass::Medium)),
        Err(Error::LimitExceeded { declared: 8_388_608, allowed: 1_048_576 })
    );
    let policy = policy.with_max_table_bytes(10);
    assert_eq!(policy.admit_table_bytes(10), Ok(10));
    assert_eq!(
        policy.admit_table_bytes(11),
        Err(Error::LimitExceeded { declared: 11, allowed: 10 })
    );
}

#[test]
fn a_symbol_names_its_value() -> Result<(), Error> {
    for alphabet in [Alphabet::LiteralRun, Alphabet::MatchLength, Alphabet::MatchDistance] {
        for raw in [alphabet.min_raw(), alphabet.min_raw() + 1, 100, 257, alphabet.max_raw()] {
            let Some(coded) = alphabet.coded_value(raw) else {
                continue;
            };
            let split = alphabet.split(coded)?;
            assert_eq!(alphabet.reconstruct(split.symbol, split.suffix)?, coded);
            assert_eq!(alphabet.raw_value(coded), Some(raw));
            assert_eq!(alphabet.suffix_width(split.symbol)?, split.width);
        }
        assert_eq!(alphabet.coded_value(alphabet.max_raw() + 1), None);
    }
    assert_eq!((Alphabet::max_size(), Alphabet::total_size()), (256, 256 + 60 + 28 + 61));
    Ok(())
}

#[test]
fn a_refused_block_poisons_its_region() {
    let mut decoder = Decoder::at_region_start();
    let policy = DecoderPolicy::conservative();
    let block = Block {
        arrived: &[0xFF; 8],
        declared: 8,
        first_in_region: true,
        history: &[],
    };
    let mut out = [0u8; 64];
    let refused = decoder.read(&block, &policy, &mut out);
    assert!(refused.is_err());
    assert_eq!(decoder.read(&block, &policy, &mut out), refused);
    assert_eq!((decoder.tables_built(), decoder.table_bytes(), decoder.peak_table_bytes()), (0, 0, 0));
    decoder.reset();
    assert_eq!(decoder.offset_slot(), None);
}

#[test]
fn a_prologue_reads_back_from_its_bytes() -> Result<(), Error> {
    let content: Vec<u8> = b"the prologue of a block declares its streams; ".repeat(40);
    let size = u32::try_from(content.len()).unwrap_or(0);
    let policy = DecoderPolicy::conservative();
    let mut parser = Parser::new();
    let mut encoder = Encoder::at_region_start();
    let mut payload = Vec::new();
    let terms = Terms { first_in_region: true, repeat: None, ceiling: content.len() };
    let assembly = encoder
        .assemble_into(parser.parse(&content)?, terms, &policy, &mut payload)?
        .ok_or(Error::InvalidParameter)?;
    assert_eq!(assembly.repeated(), [false; BLOCK_STREAMS]);
    encoder.adopt(assembly);
    let (prologue, width) = BlockPrologue::decode(&payload, size, true, &policy)?;
    assert_eq!(prologue.encode(true).as_bytes(), &payload[..width]);
    assert_eq!(prologue.body_bytes(), Some((payload.len() - width) as u64));
    assert_eq!(prologue.table_bytes, encoder.table_bytes());
    assert_eq!(
        BlockPrologue::decode(&[], size, true, &policy),
        Err(Error::TruncatedInput { needed: 1 })
    );
    assert_eq!(
        BlockPrologue::decode(&[9], size, true, &policy),
        Err(Error::UnsupportedFeature(Feature::BlockModel { model: 9 }))
    );
    Ok(())
}

#[test]
fn a_boundary_leaves_no_position_out_and_a_reset_starts_over() -> Result<(), Error> {
    let block: Vec<u8> = b"one block, and then the same block again ".repeat(20);
    for make in [Parser::new, Parser::chain, Parser::balanced, Parser::balanced_without_skip] {
        let mut parser = make();
        let first = parser.parse(&block)?.clone();
        assert_eq!(parser.history(), &block[..]);
        let second = parser.parse(&block)?.clone();
        assert!(second.literals().len() < first.literals().len());
        assert_eq!(parser.history().len(), 2 * block.len());
        assert!(first.steps().len() <= step_capacity(block.len()));
        parser.reset();
        assert_eq!(parser.history(), &[] as &[u8]);
        assert_eq!(parser.parse(&block)?, &first);
    }
    assert_eq!([0u32, 63, 64, 128].map(skip_jump), [1, 1, 2, 3]);
    Ok(())
}

#[test]
fn four_bytes_decide_the_magic() {
    assert_eq!(FrameHeader::decode(b"GIF89a"), Err(Error::InvalidFormat));
    assert_eq!(FrameHeader::decode(b"GIF8"), Err(Error::InvalidFormat));
    assert_eq!(FrameHeader::decode(b"GIF"), Err(Error::TruncatedInput { needed: 16 }));
    let magic = [0xE7, 0x51, 0xB3, 0x2A];
    assert_eq!(FrameHeader::decode(&magic), Err(Error::TruncatedInput { needed: 16 }));
    assert_eq!(FrameHeader::decode(&[]), Err(Error::TruncatedInput { needed: 16 }));
    let header = FrameHeader::new(
        ResourceClass::Small,
        RegionIndependence::Dependent,
        IntegrityMode::Absent,
    );
    let encoded: Encoded<FRAME_HEADER_MAX_BYTES> = header.encode();
    assert_eq!(&encoded.as_bytes()[..4], &magic);
}

#[test]
fn a_payload_that_ends_early_leaves_the_symbols_before_its_end() -> Result<(), Error> {
    let symbols: Vec<u16> = (0..400u16).map(|at| (at * 7) % 5).collect();
    let table = rans::Table::normalize(&[80, 80, 80, 80, 80], 5)?;
    let mut description = BitWriter::new();
    table.describe(&mut description);
    let description = description.finish();
    let decode = rans::Declared::parse(&mut BitReader::over(&description), 5)?
        .validate()?
        .build()?;
    let bytes = table.encoder()?.write(&symbols, 2)?;
    let mut out = vec![99u16; symbols.len()];
    let short = &bytes[..bytes.len() / 2];
    assert_eq!(
        decode.decode(short, &mut out, 2),
        Err(Error::CorruptData(Corruption::CodedStream))
    );
    let kept = out.iter().take_while(|symbol| **symbol != 99).count();
    assert!(kept > 0 && kept < symbols.len());
    assert_eq!(out[..kept], symbols[..kept]);
    assert!(out[kept..].iter().all(|symbol| *symbol == 99));
    let mut out = vec![99u16; 3];
    assert_eq!(decode.decode(&bytes, &mut out, 3), Err(Error::InvalidParameter));
    assert_eq!(out, vec![99; 3]);
    Ok(())
}

#[test]
fn a_refused_description_leaves_the_reader_where_it_was_refused() {
    // A table log of thirty-one is read and refused.
    let mut writer = BitWriter::new();
    writer.push(31, 5);
    let buf = writer.finish();
    let mut reader = BitReader::over(&buf);
    assert_eq!(
        rans::Declared::parse(&mut reader, 8),
        Err(Error::CorruptData(Corruption::TableLog))
    );
    assert_eq!(reader.consumed(), 5);
    // Two flags and the count of a repeat with no length before it are read and refused.
    let mut writer = BitWriter::new();
    writer.push(0b0, 1);
    writer.push(0b10, 2);
    writer.push(0, 7);
    let buf = writer.finish();
    let mut reader = BitReader::over(&buf);
    assert_eq!(
        huffman::Declared::parse(&mut reader, 8),
        Err(Error::CorruptData(Corruption::DescriptionToken))
    );
    assert_eq!(reader.consumed(), 10);
    // A field the bits end inside is not read.
    let mut writer = BitWriter::new();
    writer.push(0, 4);
    let buf = writer.finish();
    let mut reader = BitReader::over(&buf);
    assert!(matches!(
        huffman::Declared::parse(&mut reader, 8),
        Err(Error::TruncatedInput { .. })
    ));
    assert_eq!(reader.consumed(), 2);
}

#[test]
fn a_copy_of_the_streams_keeps_their_bytes() -> Result<(), Error> {
    let (literals, steps) = steps();
    let sequences = Sequences::new(literals, steps)?;
    let streams = Streams::of(&sequences, &mut OffsetCache::reset())?;
    let copy = streams.clone();
    for alphabet in [
        Alphabet::LiteralByte,
        Alphabet::LiteralRun,
        Alphabet::MatchLength,
        Alphabet::MatchDistance,
    ] {
        assert_eq!(copy.stream(alphabet).symbols(), streams.stream(alphabet).symbols());
        assert_eq!(
            copy.stream(alphabet).suffix().bytes(),
            streams.stream(alphabet).suffix().bytes()
        );
    }
    Ok(())
}

#[test]
fn a_single_symbol_stream_takes_no_bits() -> Result<(), Error> {
    let code = huffman::Code::build(&[0, 0, 5, 0], 4, 15)?;
    let mut payload = BitWriter::new();
    code.encoder()?.write(&[2, 2, 2, 2, 2], &mut payload)?;
    let payload = payload.finish();
    assert_eq!(payload.bits(), 0);
    let mut description = BitWriter::new();
    code.describe(&mut description);
    let description = description.finish();
    let table = huffman::Declared::parse(&mut BitReader::over(&description), 4)?
        .validate()?
        .build()?;
    let mut out = [0u16; 5];
    let mut reader = BitReader::over(&payload);
    table.decode(&mut reader, &mut out)?;
    assert_eq!(out, [2; 5]);
    assert_eq!(reader.consumed(), 0);
    Ok(())
}

#[test]
fn a_slid_position_is_found_one_window_lower_or_forgotten() {
    let mut data: Vec<u8> = (0..131_072u32).map(|at| (at.wrapping_mul(at) >> 7) as u8 ^ at as u8).collect();
    let word = *b"sixteen bytes...";
    data[65_536..65_552].copy_from_slice(&word);
    data[65_636..65_652].copy_from_slice(&word);
    let mut chain = BoundedHashChain::new();
    chain.insert(&data, 65_536);
    let before = chain.peek(&data, 65_636);
    chain.slide();
    let found = chain.peek(&data[65_536..], 100);
    assert_eq!(found, before);
    assert_eq!(found.candidates, 1);
    let matched = found.matched.unwrap_or(Match { length: 0, distance: 0 });
    assert!(matched.length >= 16);
    assert_eq!(matched.distance, 100);

    data[65_500..65_516].copy_from_slice(&word);
    let mut chain = BoundedHashChain::new();
    chain.insert(&data, 65_500);
    assert_eq!(chain.peek(&data, 65_636).candidates, 1);
    chain.slide();
    let found = chain.peek(&data[65_536..], 100);
    assert_eq!((found.matched, found.candidates), (None, 0));
}

#[test]
fn a_growing_vector_refuses_what_the_finished_one_refuses() {
    let inside = Match { length: 4, distance: 1 };
    let cases: [(usize, Option<Match>); 7] = [
        (3, Some(inside)),
        (0, Some(Match { length: 3, distance: 1 })),
        (65_537, Some(inside)),
        (65_536, Some(Match { length: 256, distance: 65_536 })),
        (1, Some(Match { length: 4, distance: 0 })),
        (2, None),
        (0, Some(inside)),
    ];
    let mut grown = Sequences::with_capacity(16, 4);
    for (run, matched) in cases {
        let literals = vec![1u8; run];
        let mut all = grown.literals().to_vec();
        all.extend_from_slice(&literals);
        let mut steps = grown.steps().to_vec();
        steps.push(Step { run: run as u32, matched });
        let finished = Sequences::new(all, steps);
        let told = grown.push(&literals, matched);
        assert_eq!(told.is_ok(), finished.is_ok());
        if let Ok(finished) = finished {
            assert_eq!(grown, finished);
        }
        assert_eq!(
            Sequences::new(grown.literals().to_vec(), grown.steps().to_vec()).as_ref(),
            Ok(&grown)
        );
    }
    assert_eq!(grown.steps().len(), 3);
}

#[test]
fn a_compressed_block_round_trips_and_so_does_the_next() -> Result<(), Error> {
    let policy = DecoderPolicy::conservative();
    let mut parser = Parser::balanced();
    let mut encoder = Encoder::at_region_start();
    let mut decoder = Decoder::at_region_start();
    let mut history: Vec<u8> = Vec::new();
    for round in 0..3u8 {
        let content: Vec<u8> = b"one block after another, each in step; "
            .iter()
            .map(|byte| byte ^ (round & 1))
            .cycle()
            .take(3_000 + usize::from(round))
            .collect();
        let terms = Terms { first_in_region: round == 0, repeat: None, ceiling: content.len() };
        let mut payload = Vec::new();
        let assembly = encoder
            .assemble_into(parser.parse(&content)?, terms, &policy, &mut payload)?
            .ok_or(Error::InvalidParameter)?;
        encoder.adopt(assembly);
        let mut out = vec![0u8; content.len()];
        let block = Block {
            arrived: &payload,
            declared: payload.len() as u64,
            first_in_region: round == 0,
            history: &history,
        };
        assert_eq!(decoder.read(&block, &policy, &mut out), Ok(payload.len()));
        assert_eq!(out, content);
        assert!(decoder.peak_table_bytes() <= policy.max_table_bytes());
        assert_eq!(decoder.table_bytes(), encoder.table_bytes());
        history.extend_from_slice(&content);
    }
    Ok(())
}
