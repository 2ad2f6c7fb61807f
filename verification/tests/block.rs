use entroq::block::{
    Block, Built, Coded, Coder, Decoder, Encoder, TABLE_SHARES, Terms, expand, expand_scalar,
};
use entroq::entropy::huffman;
use entroq::sequence::streams::Streams;
use entroq::entropy::bits::{BitBuf, BitReader, BitWriter};
use entroq::format::{
    BLOCK_MODEL_V1, BLOCK_STREAMS, BlockPrologue, Corruption, DecoderPolicy, Error, Feature,
    LITERAL_BYTE_STREAM, LITERAL_RUN_STREAM, MATCH_DISTANCE_STREAM, MATCH_LENGTH_STREAM,
};
use entroq::sequence::{Alphabet, MAX_MATCH_LENGTH, MIN_MATCH, Match, Sequences, Step, WINDOW};

/// No stream repeats a table in force.
const FRESH: [bool; BLOCK_STREAMS] = [false; BLOCK_STREAMS];

/// A deterministic stream of values, so a failure reproduces from its seed alone.
struct Source {
    state: u64,
}

impl Source {
    fn new(seed: u64) -> Self {
        Self { state: seed | 1 }
    }

    fn byte(&mut self) -> u8 {
        self.state = self
            .state
            .wrapping_mul(6_364_136_223_846_793_005)
            .wrapping_add(1_442_695_040_888_963_407);
        u8::try_from((self.state >> 33) & 0xFF).unwrap_or(0)
    }
}

/// One block's content and the sequences that name it, built together.
///
/// The content is produced by this builder and never by the module under test, so the round
/// trip is checked against bytes a second implementation placed.
struct Plan {
    content: Vec<u8>,
    sequences: Sequences,
}

struct Builder {
    history: Vec<u8>,
    produced: usize,
    literals: Vec<u8>,
    steps: Vec<Step>,
    source: Source,
    alphabet: u16,
}

impl Builder {
    fn new(history: &[u8], seed: u64, alphabet: u16) -> Self {
        Self {
            history: history.to_vec(),
            produced: 0,
            literals: Vec::new(),
            steps: Vec::new(),
            source: Source::new(seed),
            alphabet,
        }
    }

    fn literal(&mut self) -> u8 {
        if self.alphabet <= 1 {
            return b'a';
        }
        self.source
            .byte()
            .checked_rem(u8::try_from(self.alphabet).unwrap_or(u8::MAX))
            .unwrap_or(0)
    }

    fn step(&mut self, run: u32, matched: Option<Match>) -> Option<()> {
        for _ in 0..run {
            let byte = self.literal();
            self.literals.push(byte);
            self.history.push(byte);
            self.produced = self.produced.checked_add(1)?;
        }
        if let Some(matched) = matched {
            let distance = usize::try_from(matched.distance).ok()?;
            let start = self.history.len().checked_sub(distance)?;
            for lane in 0..usize::try_from(matched.length).ok()? {
                let at = start.checked_add(lane)?;
                let byte = self.history.get(at).copied()?;
                self.history.push(byte);
                self.produced = self.produced.checked_add(1)?;
            }
        }
        self.steps.push(Step { run, matched });
        Some(())
    }

    fn finish(self, history_bytes: usize) -> Option<Plan> {
        let content = self.history.get(history_bytes..)?.to_vec();
        let sequences = Sequences::new(self.literals, self.steps).ok()?;
        Some(Plan { content, sequences })
    }
}

/// The shape of one block: how long its literal runs are, and what its matches look like.
#[derive(Clone, Copy, Debug)]
struct Shape {
    run: u32,
    length: u32,
    distance: u32,
    alphabet: u16,
}

/// Builds one block of exactly `size` decoded bytes in the declared shape.
///
/// The first run is widened to prime the window when the history is short, so a shape that
/// asks for a distance the block has not yet produced still produces that distance.
fn plan(shape: Shape, size: usize, history: &[u8], seed: u64) -> Option<Plan> {
    let mut builder = Builder::new(history, seed, shape.alphabet);
    fill(&mut builder, shape, size, history.len())?;
    builder.finish(history.len())
}

/// Steps a builder in `shape` until the block it is building holds `size` bytes.
///
/// A block a test builds by hand is a few dozen bytes, and the expansion bound refuses a
/// COMPRESSED block that small whatever it holds. So a test that needs a readable block
/// tops its own steps up to a length a table can pay for.
fn fill(builder: &mut Builder, shape: Shape, size: usize, history_bytes: usize) -> Option<()> {
    let mut first = builder.produced == 0;
    let distance = usize::try_from(shape.distance).ok()?;
    while builder.produced < size {
        let left = size.checked_sub(builder.produced)?;
        let reach = history_bytes.checked_add(builder.produced)?;
        let mut run = usize::try_from(shape.run).ok()?.min(left);
        if first && reach < distance {
            run = run.max(distance.checked_sub(reach)?).min(left);
        }
        first = false;
        let after = left.checked_sub(run)?;
        let reach = reach.checked_add(run)?;
        let room = usize::try_from(shape.length).ok()?.min(after);
        if shape.distance == 0
            || shape.distance > WINDOW
            || room < MIN_MATCH as usize
            || reach < distance
        {
            builder.step(u32::try_from(left).ok()?, None)?;
            break;
        }
        builder.step(
            u32::try_from(run).ok()?,
            Some(Match {
                length: u32::try_from(room).ok()?,
                distance: shape.distance,
            }),
        )?;
    }
    Some(())
}

/// The shapes every round trip is checked over.
fn shapes() -> Vec<Shape> {
    vec![
        Shape {
            run: u32::MAX,
            length: 0,
            distance: 0,
            alphabet: 256,
        },
        Shape {
            run: 0,
            length: MIN_MATCH,
            distance: 1,
            alphabet: 256,
        },
        Shape {
            run: 3,
            length: MAX_MATCH_LENGTH,
            distance: 4,
            alphabet: 256,
        },
        Shape {
            run: 17,
            length: 31,
            distance: 1_024,
            alphabet: 256,
        },
        Shape {
            run: 1,
            length: 64,
            distance: 3,
            alphabet: 2,
        },
        Shape {
            run: 40,
            length: MIN_MATCH,
            distance: 4_093,
            alphabet: 64,
        },
    ]
}

/// Assembles one block's payload and adopts it, which is what emitting it would do.
fn assemble(
    encoder: &mut Encoder,
    sequences: &Sequences,
    first_in_region: bool,
    repeat: [bool; BLOCK_STREAMS],
) -> Result<Vec<u8>, Error> {
    let mut payload = Vec::new();
    let assembly = encoder
        .assemble_into(
            sequences,
            Terms {
                first_in_region,
                repeat: Some(repeat),
                ceiling: usize::MAX,
            },
            &DecoderPolicy::conservative(),
            &mut payload,
        )?
        .ok_or(Error::InvalidParameter)?;
    encoder.adopt(assembly);
    Ok(payload)
}

/// Assembles one block and reads it back, and reports its stored payload.
fn round_trip(
    plan: &Plan,
    history: &[u8],
    first_in_region: bool,
    repeat: [bool; BLOCK_STREAMS],
    encoder: &mut Encoder,
    decoder: &mut Decoder,
) -> Result<Vec<u8>, Error> {
    let policy = DecoderPolicy::conservative();
    let mut payload = Vec::new();
    let assembly = encoder
        .assemble_into(
            &plan.sequences,
            Terms {
                first_in_region,
                repeat: Some(repeat),
                ceiling: usize::MAX,
            },
            &policy,
            &mut payload,
        )?
        .ok_or(Error::InvalidParameter)?;
    encoder.adopt(assembly);
    let mut out = vec![0_u8; plan.content.len()];
    let block = Block {
        arrived: &payload,
        declared: u64::try_from(payload.len()).unwrap_or(u64::MAX),
        first_in_region,
        history,
    };
    let spent = decoder.read(&block, &policy, &mut out)?;
    assert_eq!(
        spent,
        payload.len(),
        "the block spent other than its payload"
    );
    assert!(
        decoder.peak_table_bytes() <= policy.max_table_bytes(),
        "the decoder held {} table bytes against a ceiling of {}",
        decoder.peak_table_bytes(),
        policy.max_table_bytes()
    );
    assert_eq!(out, plan.content, "the block did not decode to its content");
    Ok(payload)
}

/// One block, assembled and read at a region start.
fn one_block(plan: &Plan) -> Result<Vec<u8>, Error> {
    let mut encoder = Encoder::at_region_start();
    let mut decoder = Decoder::at_region_start();
    round_trip(plan, &[], true, FRESH, &mut encoder, &mut decoder)
}

/// Reads a prologue back and re-encodes it with one field changed.
///
/// The two flags are separate because a block assembled at a region start carries no mode
/// field, and giving it one is how a block that names a table in force there is built at
/// all.
fn edited(
    payload: &[u8],
    parsed_first: bool,
    written_first: bool,
    edit: impl FnOnce(&mut BlockPrologue),
) -> Result<Vec<u8>, Error> {
    let policy = DecoderPolicy::conservative();
    let (mut prologue, used) = BlockPrologue::decode(payload, u32::MAX, parsed_first, &policy)?;
    edit(&mut prologue);
    let mut out = Vec::new();
    out.extend_from_slice(prologue.encode(written_first).as_bytes());
    out.extend_from_slice(payload.get(used..).ok_or(Error::InvalidParameter)?);
    Ok(out)
}

/// Reads one payload at a declared stored length and a declared decoded size.
fn read_with(
    payload: &[u8],
    declared: u64,
    size: usize,
    first_in_region: bool,
    history: &[u8],
    decoder: &mut Decoder,
) -> Result<usize, Error> {
    let mut out = vec![0_u8; size];
    let block = Block {
        arrived: payload,
        declared,
        first_in_region,
        history,
    };
    decoder.read(&block, &DecoderPolicy::conservative(), &mut out)
}

/// Reads one payload the way a decoder that has just met it would, and reports the tables
/// it had built when it answered.
fn refuse(payload: &[u8], size: usize) -> (Error, u64) {
    let mut decoder = Decoder::at_region_start();
    let declared = u64::try_from(payload.len()).unwrap_or(u64::MAX);
    let error = read_with(payload, declared, size, true, &[], &mut decoder)
        .err()
        .unwrap_or(Error::InvalidParameter);
    (error, decoder.tables_built())
}

#[test]
fn a_compressed_block_round_trips_at_every_shape_and_size() -> Result<(), Error> {
    let sizes = [1_usize, 2, 4_096, 16_384, 65_536];
    let mut checked = 0usize;
    let mut carried = 0usize;
    for size in sizes {
        for (index, shape) in shapes().into_iter().enumerate() {
            let seed = u64::try_from(index).unwrap_or(0).saturating_add(1);
            let plan = plan(shape, size, &[], seed).ok_or(Error::InvalidParameter)?;
            assert_eq!(plan.content.len(), size, "the plan did not fill the block");
            let mut encoder = Encoder::at_region_start();
            let mut decoder = Decoder::at_region_start();
            let mut payload = Vec::new();
            let assembly = encoder
                .assemble_into(
                    &plan.sequences,
                    Terms {
                        first_in_region: true,
                        repeat: Some(FRESH),
                        ceiling: usize::MAX,
                    },
                    &DecoderPolicy::conservative(),
                    &mut payload,
                )?
                .ok_or(Error::InvalidParameter)?;
            encoder.adopt(assembly);
            assert!(
                !payload.is_empty(),
                "a block of {size} bytes in shape {index} stored nothing"
            );
            checked = checked.saturating_add(1);

            let compresses = payload.len() < size;
            let read = read_with(
                &payload,
                u64::try_from(payload.len()).unwrap_or(u64::MAX),
                size,
                true,
                &[],
                &mut decoder,
            );
            if compresses {
                assert_eq!(
                    read,
                    Ok(payload.len()),
                    "shape {index} at {size} bytes did not spend its payload"
                );
                carried = carried.saturating_add(1);
            } else {
                assert_eq!(
                    read,
                    Err(Error::CorruptData(Corruption::BlockExpansion)),
                    "shape {index} at {size} bytes stored {} bytes and was not refused",
                    payload.len()
                );
            }

            // A block of one or two bytes is narrower than any prologue, and the shape
            // that holds no structure is above its own size until the literal code has a
            // whole block of symbols to amortize its description over.
            let expands = size < 4_096 || (index == 0 && size < 65_536);
            assert_eq!(
                compresses,
                !expands,
                "shape {index} at {size} bytes stored {} bytes",
                payload.len()
            );
        }
    }
    assert_eq!(
        checked,
        sizes.len().saturating_mul(shapes().len()),
        "a shape was skipped rather than round-tripped"
    );
    assert_eq!(
        carried, 16,
        "every block below its own decoded size carried, and no other did"
    );
    Ok(())
}

/// A literal code whose decode table is wider than a quarter of the version 1 ceiling.
///
/// The encoder never builds one, because it gives each class a quarter share. A decoder
/// admits one, because what it holds a block to is the sum over the four classes. So this
/// is a table only a stream a caller did not write can ask for.
fn wide_literal_code() -> Result<huffman::Code, Error> {
    let mut counts = vec![0_u64; 256];
    let (mut a, mut b) = (1_u64, 1_u64);
    for symbol in 0..15_usize {
        let slot = counts.get_mut(symbol).ok_or(Error::InvalidParameter)?;
        *slot = a;
        let next = a.saturating_add(b);
        a = b;
        b = next;
    }
    huffman::Code::build(&counts, 256, 15)
}

/// Rebuilds a block's stored body with one description replaced, restating the prologue.
fn with_description(
    payload: &[u8],
    first_in_region: bool,
    index: usize,
    description: &BitBuf,
    table_bytes: u64,
) -> Result<Vec<u8>, Error> {
    let policy = DecoderPolicy::conservative();
    let (mut prologue, used) =
        BlockPrologue::decode(payload, u32::MAX, first_in_region, &policy)?;
    let body = payload.get(used..).ok_or(Error::InvalidParameter)?;
    let mut at = 0_usize;
    let descriptions = entroq::block::locate(&prologue.description_bits, &mut at)?;
    let payloads = entroq::block::locate(&prologue.payload_bits, &mut at)?;
    let suffixes = entroq::block::locate(&prologue.suffix_bits, &mut at)?;

    let slot = prologue
        .description_bits
        .get_mut(index)
        .ok_or(Error::InvalidParameter)?;
    *slot = description.bits();
    prologue.table_bytes = table_bytes;

    let mut out = Vec::new();
    out.extend_from_slice(prologue.encode(first_in_region).as_bytes());
    for (lane, span) in descriptions.iter().enumerate() {
        if lane == index {
            out.extend_from_slice(description.bytes());
        } else {
            out.extend_from_slice(span.of(body)?);
        }
    }
    for span in &payloads {
        out.extend_from_slice(span.of(body)?);
    }
    for span in &suffixes {
        out.extend_from_slice(span.of(body)?);
    }
    Ok(out)
}

/// The table bound is taken over the transition and not only over the state a block
/// settles at.
///
/// The first block leaves three tables at the FAST preference and no literal table. The
/// second replaces all four, and its literal table alone is half the ceiling. Both states
/// are inside the ceiling, and the peak covers the move from one to the other.
#[test]
fn the_table_bound_covers_the_transition_between_two_blocks() -> Result<(), Error> {
    let policy = DecoderPolicy::conservative();
    let history: Vec<u8> = (0..4_096_u32)
        .map(|at| u8::try_from(at & 0xFF).unwrap_or(0))
        .collect();
    let matches = Shape {
        run: 0,
        length: MIN_MATCH,
        distance: 64,
        alphabet: 256,
    };
    let mut encoder = Encoder::at_region_start();
    let mut decoder = Decoder::at_region_start();
    let first = plan(matches, 65_536, &history, 71).ok_or(Error::InvalidParameter)?;
    let _first = round_trip(&first, &history, true, FRESH, &mut encoder, &mut decoder)?;
    assert_eq!(
        decoder.table_bytes(),
        12_288,
        "the first block was meant to leave three tables at the FAST preference and no literal one"
    );

    let mut region = history.clone();
    region.extend_from_slice(&first.content);
    let mixed = Shape {
        run: 4,
        length: 8,
        distance: 64,
        alphabet: 64,
    };
    let next = plan(mixed, 2_048, &region, 72).ok_or(Error::InvalidParameter)?;
    let mut payload = Vec::new();
    let assembly = encoder
        .assemble_into(
            &next.sequences,
            Terms {
                first_in_region: false,
                repeat: Some(FRESH),
                ceiling: usize::MAX,
            },
            &policy,
            &mut payload,
        )?
        .ok_or(Error::InvalidParameter)?;
    encoder.adopt(assembly);

    let (prologue, used) = BlockPrologue::decode(
        &payload,
        u32::try_from(next.content.len()).map_err(|_| Error::InvalidParameter)?,
        false,
        &policy,
    )?;
    let body = payload.get(used..).ok_or(Error::InvalidParameter)?;
    let mut at = 0_usize;
    let descriptions = entroq::block::locate(&prologue.description_bits, &mut at)?;
    let span = descriptions
        .get(LITERAL_BYTE_STREAM)
        .ok_or(Error::InvalidParameter)?;
    let mut reader = BitReader::new(span.of(body)?, span.bits);
    let narrow = huffman::Declared::parse(&mut reader, 256)?
        .validate()?
        .table_bytes();

    let wide = wide_literal_code()?;
    assert_eq!(wide.table_bytes(), 32_768);
    let mut writer = BitWriter::new();
    wide.describe(&mut writer);
    let declared = prologue
        .table_bytes
        .saturating_sub(narrow)
        .saturating_add(wide.table_bytes());
    assert!(
        declared <= policy.max_table_bytes(),
        "the edited block was meant to declare a figure policy admits, and declares {declared}"
    );

    let edited = with_description(
        &payload,
        false,
        LITERAL_BYTE_STREAM,
        &writer.finish(),
        declared,
    )?;
    let mut out = vec![0_u8; next.content.len()];
    let block = Block {
        arrived: &edited,
        declared: u64::try_from(edited.len()).unwrap_or(u64::MAX),
        first_in_region: false,
        history: &region,
    };
    let _read = decoder.read(&block, &policy, &mut out);

    assert!(
        decoder.peak_table_bytes() >= decoder.table_bytes(),
        "the peak sits below a state the decoder held"
    );
    assert!(
        decoder.peak_table_bytes() <= policy.max_table_bytes(),
        "the decoder held {} table bytes against a ceiling of {}",
        decoder.peak_table_bytes(),
        policy.max_table_bytes()
    );
    Ok(())
}

/// Capped rANS tables hold a structured block's peak to three preferences.
///
/// The fixture carries three rANS streams and no literal table, so the peak is the
/// rANS sum alone: three tables of 4096 bytes, down from 49 152 bytes uncapped.
#[test]
fn capped_tables_hold_a_structured_block_peak_to_three_preferences() -> Result<(), Error> {
    let history: Vec<u8> = (0..4_096_u32)
        .map(|at| u8::try_from(at & 0xFF).unwrap_or(0))
        .collect();
    let matches = Shape {
        run: 0,
        length: MIN_MATCH,
        distance: 64,
        alphabet: 256,
    };
    let mut encoder = Encoder::at_region_start();
    let mut decoder = Decoder::at_region_start();
    let first = plan(matches, 65_536, &history, 71).ok_or(Error::InvalidParameter)?;
    let _first = round_trip(&first, &history, true, FRESH, &mut encoder, &mut decoder)?;
    assert!(
        decoder.peak_table_bytes()
            <= 3 * entroq::entropy::rans::table_bytes_for(
                entroq::entropy::rans::FAST_TABLE_LOG_MAX
            ),
        "a structured block peaked at {} rANS table bytes",
        decoder.peak_table_bytes()
    );
    Ok(())
}

/// The expansion bound: a block that stores at least what it decodes to is refused, and
/// the refusal precedes every allocation the block would size.
#[test]
fn a_compressed_block_that_stores_its_decoded_size_is_refused_before_its_payload()
-> Result<(), Error> {
    let shape = Shape {
        run: 8,
        length: 0,
        distance: 0,
        alphabet: 256,
    };
    let plan = plan(shape, 64, &[], 91).ok_or(Error::InvalidParameter)?;
    let mut encoder = Encoder::at_region_start();
    let mut payload = Vec::new();
    let assembly = encoder
        .assemble_into(
            &plan.sequences,
            Terms {
                first_in_region: true,
                repeat: Some(FRESH),
                ceiling: usize::MAX,
            },
            &DecoderPolicy::conservative(),
            &mut payload,
        )?
        .ok_or(Error::InvalidParameter)?;
    encoder.adopt(assembly);
    assert!(
        payload.len() >= plan.content.len(),
        "the block was meant to be one no encoder would emit"
    );

    let mut refused = Vec::new();
    assert!(
        encoder
            .assemble_into(
                &plan.sequences,
                Terms {
                    first_in_region: true,
                    repeat: Some(FRESH),
                    ceiling: plan.content.len(),
                },
                &DecoderPolicy::conservative(),
                &mut refused,
            )?
            .is_none(),
        "an assembly at the size a decoder refuses was written out"
    );
    assert!(refused.is_empty(), "a refused assembly wrote bytes");

    let (error, built) = refuse(&payload, plan.content.len());
    assert_eq!(error, Error::CorruptData(Corruption::BlockExpansion));
    assert_eq!(
        built, 0,
        "the bound is read from the twelve extents, before a table exists"
    );

    // One byte of decoded size more than the block stores is the first size it is not
    // refused at, which is what makes the refusal a boundary and not a constant.
    let mut wider = plan.content.clone();
    wider.resize(payload.len().saturating_add(1), 0);
    let mut decoder = Decoder::at_region_start();
    let read = read_with(
        &payload,
        u64::try_from(payload.len()).unwrap_or(u64::MAX),
        wider.len(),
        true,
        &[],
        &mut decoder,
    );
    assert_ne!(read, Err(Error::CorruptData(Corruption::BlockExpansion)));
    Ok(())
}

/// The reuse trigger: a stream names the table in force only when that spends fewer bits.
#[test]
fn a_stream_repeats_a_table_only_when_repeating_is_cheaper() -> Result<(), Error> {
    let shape = Shape {
        run: 9,
        length: 14,
        distance: 48,
        alphabet: 40,
    };
    let mut encoder = Encoder::at_region_start();
    let mut decoder = Decoder::at_region_start();
    let first = plan(shape, 4_096, &[], 51).ok_or(Error::InvalidParameter)?;
    let _first = round_trip(&first, &[], true, FRESH, &mut encoder, &mut decoder)?;

    let next = plan(shape, 4_096, &first.content, 52).ok_or(Error::InvalidParameter)?;
    let policy = DecoderPolicy::conservative();
    let mut fresh = Vec::new();
    let _fresh = encoder.assemble_into(
        &next.sequences,
        Terms {
            first_in_region: false,
            repeat: Some(FRESH),
            ceiling: usize::MAX,
        },
        &policy,
        &mut fresh,
    )?;
    let mut chosen = Vec::new();
    let assembly = encoder
        .assemble_into(
            &next.sequences,
            Terms {
                first_in_region: false,
                repeat: None,
                ceiling: usize::MAX,
            },
            &policy,
            &mut chosen,
        )?
        .ok_or(Error::InvalidParameter)?;
    let repeated = assembly.repeated();
    encoder.adopt(assembly);

    assert!(
        repeated.iter().any(|&stream| stream),
        "no stream of a block that follows a like block named the table in force"
    );
    assert!(
        chosen.len() <= fresh.len(),
        "the trigger chose {} stored bytes where a description in every stream cost {}",
        chosen.len(),
        fresh.len()
    );

    let size = u32::try_from(next.content.len()).map_err(|_| Error::InvalidParameter)?;
    let (prologue, _used) = BlockPrologue::decode(&chosen, size, false, &policy)?;
    for index in 0..BLOCK_STREAMS {
        let stream = prologue.stream(index).ok_or(Error::InvalidParameter)?;
        assert_eq!(
            stream.repeats,
            repeated.get(index).copied().unwrap_or(false),
            "stream {index} declared a mode bit the assembly did not report"
        );
        if stream.repeats {
            assert_eq!(
                stream.description_bits, 0,
                "stream {index} repeated and described"
            );
        }
    }

    let mut out = vec![0_u8; next.content.len()];
    let block = Block {
        arrived: &chosen,
        declared: u64::try_from(chosen.len()).unwrap_or(u64::MAX),
        first_in_region: false,
        history: &first.content,
    };
    let spent = decoder.read(&block, &policy, &mut out)?;
    assert_eq!(spent, chosen.len());
    assert_eq!(
        out, next.content,
        "a repeating block did not decode to its content"
    );
    Ok(())
}

/// The decision the exact trial encode reaches, over the inputs the shipped rule reads.
fn repeats_by_trial(fresh: &Coded, held: &Built, symbols: &[u16]) -> Result<bool, Error> {
    if !held.carries(symbols) {
        return Ok(false);
    }
    let spent = fresh
        .description
        .bits()
        .saturating_add(fresh.payload.bits());
    Ok(held.write(symbols)?.bits() < spent)
}

/// The literal-byte opportunity one block presents to the table in force.
struct Opportunity {
    fresh: Coded,
    counts: Vec<u64>,
    symbols: Vec<u16>,
}

/// The fresh table a block's literal bytes build, the counts it was built over, and the
/// symbols a held table would have to code.
///
/// A block whose literal-byte stream is empty presents no opportunity, because the encoder
/// codes no section for it and reaches no decision about it.
fn literal_byte_opportunity(
    encoder: &Encoder,
    sequences: &Sequences,
    share: u64,
) -> Result<Option<Opportunity>, Error> {
    let mut cache = encoder.cache;
    let streams = Streams::of(sequences, &mut cache)?;
    let symbols = streams.stream(Alphabet::LiteralByte).symbols().to_vec();
    if symbols.is_empty() {
        return Ok(None);
    }
    let (fresh, counts) =
        Encoder::fresh(Coder::Huffman, Alphabet::LiteralByte, &symbols, share)?;
    Ok(Some(Opportunity {
        fresh,
        counts,
        symbols,
    }))
}

/// A coded stream that declares exactly `payload` bits and no description, for holding the
/// trigger against a held cost that lands on its total exactly.
fn fresh_costing(built: Built, payload: u64) -> Coded {
    let mut writer = BitWriter::new();
    let mut left = payload;
    while left > 0 {
        let width = u32::try_from(left.min(32)).unwrap_or(32);
        writer.push(0, width);
        left = left.saturating_sub(u64::from(width));
    }
    Coded {
        description: BitWriter::new().finish(),
        payload: writer.finish(),
        built,
        repeats: false,
    }
}

/// Every literal-byte reuse opportunity a region presents decides the way the trial encode
/// decided it, and the analytic cost is the bit count that trial would have reported.
#[test]
fn the_analytic_literal_byte_cost_decides_as_the_trial_encode_did() -> Result<(), Error> {
    let policy = DecoderPolicy::conservative();
    let share = policy
        .max_table_bytes()
        .checked_div(TABLE_SHARES)
        .ok_or(Error::InvalidParameter)?;
    let mut repeat_wins = 0usize;
    let mut fresh_wins = 0usize;
    let all = shapes();
    for (lane, pair) in all
        .iter()
        .flat_map(|first| all.iter().map(move |second| (*first, *second)))
        .enumerate()
    {
        let mut encoder = Encoder::at_region_start();
        let mut history: Vec<u8> = Vec::new();
        let mut out = Vec::new();
        for block in 0..4usize {
            let seed = u64::try_from(lane.saturating_mul(16).saturating_add(block))
                .unwrap_or(0)
                .saturating_add(101);
            let taken = if block % 2 == 0 { pair.0 } else { pair.1 };
            let next = plan(taken, 4_096, &history, seed).ok_or(Error::InvalidParameter)?;
            let first_in_region = block == 0;
            let presented = literal_byte_opportunity(&encoder, &next.sequences, share)?;
            let mut expected = false;
            if let Some(Opportunity {
                fresh,
                counts,
                symbols,
            }) = presented
            {
                let held = if first_in_region {
                    None
                } else {
                    encoder
                        .tables
                        .get(LITERAL_BYTE_STREAM)
                        .and_then(Option::as_ref)
                };
                if let Some(table) = held {
                    if table.carries(&symbols) {
                        let Built::Huffman(ref code) = *table else {
                            return Err(Error::InvalidParameter);
                        };
                        assert_eq!(
                            code.encoded_bits_for_counts(&counts)?,
                            table.write(&symbols)?.bits(),
                            "pair {lane} block {block} costed the held table differently \
                             from the trial encode"
                        );
                        expected = repeats_by_trial(&fresh, table, &symbols)?;
                        if expected {
                            repeat_wins = repeat_wins.saturating_add(1);
                        } else {
                            fresh_wins = fresh_wins.saturating_add(1);
                        }
                    }
                }
                let chosen = Encoder::cheaper(fresh, &counts, held, &symbols)?;
                assert_eq!(
                    chosen.repeats, expected,
                    "pair {lane} block {block} decided against the trial encode"
                );
            }

            let assembly = encoder
                .assemble_into(
                    &next.sequences,
                    Terms {
                        first_in_region,
                        repeat: None,
                        ceiling: usize::MAX,
                    },
                    &policy,
                    &mut out,
                )?
                .ok_or(Error::InvalidParameter)?;
            assert_eq!(
                assembly
                    .repeated()
                    .get(LITERAL_BYTE_STREAM)
                    .copied()
                    .unwrap_or(false),
                expected,
                "pair {lane} block {block} emitted a mode bit the decision did not name"
            );
            encoder.adopt(assembly);
            history.extend_from_slice(&next.content);
        }
    }
    assert!(
        repeat_wins > 0 && fresh_wins > 0,
        "the opportunities exercised {repeat_wins} repeat wins and {fresh_wins} fresh wins, \
         so one side of the comparison went unread"
    );
    Ok(())
}

/// A held cost that lands exactly on what the fresh table spends takes the fresh table, and
/// one bit either side of it decides the other way.
#[test]
fn the_analytic_trigger_holds_the_tie_to_the_fresh_table() -> Result<(), Error> {
    let mut counts = vec![0u64; 256];
    for (symbol, count) in [(0usize, 4u64), (1, 2), (2, 1)] {
        let slot = counts.get_mut(symbol).ok_or(Error::InvalidParameter)?;
        *slot = count;
    }
    let symbols = [0u16, 0, 0, 0, 1, 1, 2];
    let code = huffman::Code::build_within(&counts, 256, u64::MAX)?;
    let held = Built::Huffman(code);
    let Built::Huffman(ref code) = held else {
        return Err(Error::InvalidParameter);
    };
    let exact = code.encoded_bits_for_counts(&counts)?;
    assert_eq!(
        exact,
        held.write(&symbols)?.bits(),
        "the analytic cost differs from the trial encode"
    );

    for (spent, repeats) in [
        (exact.saturating_sub(1), false),
        (exact, false),
        (exact.saturating_add(1), true),
    ] {
        let fresh = fresh_costing(held.clone(), spent);
        let chosen = Encoder::cheaper(fresh, &counts, Some(&held), &symbols)?;
        assert_eq!(
            chosen.repeats, repeats,
            "a held cost of {exact} against a fresh cost of {spent} decided the wrong way"
        );
    }
    Ok(())
}

/// A table in force that cannot code a symbol of the next block is not named by it.
#[test]
fn a_stream_does_not_repeat_a_table_that_cannot_code_it() -> Result<(), Error> {
    let narrow = Shape {
        run: 6,
        length: 10,
        distance: 32,
        alphabet: 2,
    };
    let wide = Shape {
        run: 6,
        length: 10,
        distance: 32,
        alphabet: 200,
    };
    let mut encoder = Encoder::at_region_start();
    let mut decoder = Decoder::at_region_start();
    let first = plan(narrow, 4_096, &[], 61).ok_or(Error::InvalidParameter)?;
    let _first = round_trip(&first, &[], true, FRESH, &mut encoder, &mut decoder)?;

    let next = plan(wide, 4_096, &first.content, 62).ok_or(Error::InvalidParameter)?;
    let policy = DecoderPolicy::conservative();
    let mut payload = Vec::new();
    let assembly = encoder
        .assemble_into(
            &next.sequences,
            Terms {
                first_in_region: false,
                repeat: None,
                ceiling: usize::MAX,
            },
            &policy,
            &mut payload,
        )?
        .ok_or(Error::InvalidParameter)?;
    let repeated = assembly.repeated();
    encoder.adopt(assembly);
    assert!(
        !repeated.get(LITERAL_BYTE_STREAM).copied().unwrap_or(true),
        "a literal code built over two symbols was named for a block of two hundred"
    );

    let mut out = vec![0_u8; next.content.len()];
    let block = Block {
        arrived: &payload,
        declared: u64::try_from(payload.len()).unwrap_or(u64::MAX),
        first_in_region: false,
        history: &first.content,
    };
    let _spent = decoder.read(&block, &policy, &mut out)?;
    assert_eq!(out, next.content);
    Ok(())
}

/// A table in force at zero bytes is still in force.
///
/// A Huffman code over one distinct symbol writes no bits and needs no decode table, so it
/// is in force and occupies nothing. The decoder read the bytes for the fact and refused
/// the next block that named it, which is a valid stream refused as corrupt. The encoder
/// writes such a pair whenever a block's literals are one repeated byte, so the defect was
/// reachable from real content.
#[test]
fn a_literal_table_of_one_symbol_is_in_force_at_no_bytes() -> Result<(), Error> {
    let shape = Shape {
        run: 6,
        length: 12,
        distance: 40,
        alphabet: 1,
    };
    let policy = DecoderPolicy::conservative();
    let mut encoder = Encoder::at_region_start();
    let mut decoder = Decoder::at_region_start();

    let first = plan(shape, 2_048, &[], 71).ok_or(Error::InvalidParameter)?;
    let opening = round_trip(&first, &[], true, FRESH, &mut encoder, &mut decoder)?;

    // The literal code of the first block, read back from the block's own description.
    let (declared, used) = BlockPrologue::decode(
        &opening,
        u32::try_from(first.content.len()).map_err(|_| Error::InvalidParameter)?,
        true,
        &policy,
    )?;
    let bits = declared
        .description_bits
        .get(LITERAL_BYTE_STREAM)
        .copied()
        .ok_or(Error::InvalidParameter)?;
    let body = opening.get(used..).ok_or(Error::InvalidParameter)?;
    let section = body
        .get(..usize::try_from(bits.div_ceil(8)).map_err(|_| Error::InvalidParameter)?)
        .ok_or(Error::InvalidParameter)?;
    let code = huffman::Declared::parse(
        &mut BitReader::new(section, bits),
        Alphabet::LiteralByte.size(),
    )?
    .validate()?;
    assert_eq!(
        code.table_bytes(),
        0,
        "a code over one distinct symbol asked for a table"
    );

    // The second block names it, so it carries no description for its literals at all.
    let mut repeat = FRESH;
    let slot = repeat
        .get_mut(LITERAL_BYTE_STREAM)
        .ok_or(Error::InvalidParameter)?;
    *slot = true;
    let next = plan(shape, 2_048, &first.content, 72).ok_or(Error::InvalidParameter)?;
    let payload = round_trip(
        &next,
        &first.content,
        false,
        repeat,
        &mut encoder,
        &mut decoder,
    )?;
    let (named, _used) = BlockPrologue::decode(
        &payload,
        u32::try_from(next.content.len()).map_err(|_| Error::InvalidParameter)?,
        false,
        &policy,
    )?;
    let literals = named
        .stream(LITERAL_BYTE_STREAM)
        .ok_or(Error::InvalidParameter)?;
    assert!(literals.count > 0 && literals.repeats && literals.description_bits == 0);
    Ok(())
}

/// The carry: a RAW block between two COMPRESSED ones leaves both histories untouched, and
/// the repeat code after it is what proves the offset slot crossed.
#[test]
fn a_region_carries_both_histories_across_a_block_that_is_not_compressed() -> Result<(), Error>
{
    let shape = Shape {
        run: 6,
        length: 12,
        distance: 40,
        alphabet: 32,
    };
    let mut encoder = Encoder::at_region_start();
    let mut decoder = Decoder::at_region_start();

    let first = plan(shape, 2_048, &[], 11).ok_or(Error::InvalidParameter)?;
    let _first = round_trip(&first, &[], true, FRESH, &mut encoder, &mut decoder)?;
    let tables = decoder.table_bytes();
    let slot = decoder.offset_slot();
    assert!(tables > 0 && slot.is_some());

    // The RAW block. Neither side sees a sequence of it, so neither history moves.
    let mut region = first.content.clone();
    let stored: Vec<u8> = (0..64_u32)
        .map(|at| u8::try_from(at & 0xFF).unwrap_or(0))
        .collect();
    region.extend_from_slice(&stored);
    assert_eq!(
        decoder.table_bytes(),
        tables,
        "a RAW block moved the tables"
    );
    assert_eq!(decoder.offset_slot(), slot, "a RAW block moved the slot");

    // The third block opens with a match at the distance the slot already holds, so its
    // first coded offset is the repeat code and it resolves only if the slot crossed.
    let distance = slot.ok_or(Error::InvalidParameter)?;
    let mut builder = Builder::new(&region, 12, 32);
    builder
        .step(
            0,
            Some(Match {
                length: 9,
                distance,
            }),
        )
        .ok_or(Error::InvalidParameter)?;
    builder
        .step(
            5,
            Some(Match {
                length: 7,
                distance,
            }),
        )
        .ok_or(Error::InvalidParameter)?;
    // The tail is one literal run rather than more matches, so the block is long enough
    // for a table to pay for itself and still carries exactly the two coded offsets.
    let tail = 2_048_usize
        .checked_sub(builder.produced)
        .ok_or(Error::InvalidParameter)?;
    builder
        .step(
            u32::try_from(tail).map_err(|_| Error::InvalidParameter)?,
            None,
        )
        .ok_or(Error::InvalidParameter)?;
    let third = builder
        .finish(region.len())
        .ok_or(Error::InvalidParameter)?;
    let payload = round_trip(&third, &region, false, FRESH, &mut encoder, &mut decoder)?;

    let (prologue, _used) = BlockPrologue::decode(
        &payload,
        u32::try_from(third.content.len()).unwrap_or(u32::MAX),
        false,
        &DecoderPolicy::conservative(),
    )?;
    let distances = prologue
        .stream(MATCH_DISTANCE_STREAM)
        .ok_or(Error::InvalidParameter)?;
    assert_eq!(distances.count, 2);
    assert_eq!(
        distances.suffix_bits, 0,
        "the repeat code carries no raw suffix, so neither distance spent one"
    );
    Ok(())
}

/// A region boundary discards both histories, read from the decoder's own state.
#[test]
fn a_region_boundary_discards_both_histories() -> Result<(), Error> {
    let shape = Shape {
        run: 6,
        length: 12,
        distance: 40,
        alphabet: 32,
    };
    let mut encoder = Encoder::at_region_start();
    let mut decoder = Decoder::at_region_start();
    let first = plan(shape, 2_048, &[], 21).ok_or(Error::InvalidParameter)?;
    let _first = round_trip(&first, &[], true, FRESH, &mut encoder, &mut decoder)?;

    let distance = decoder.offset_slot().ok_or(Error::InvalidParameter)?;
    let mut builder = Builder::new(&first.content, 22, 32);
    builder
        .step(
            0,
            Some(Match {
                length: 9,
                distance,
            }),
        )
        .ok_or(Error::InvalidParameter)?;
    fill(&mut builder, shape, 2_048, first.content.len()).ok_or(Error::InvalidParameter)?;
    let next = builder
        .finish(first.content.len())
        .ok_or(Error::InvalidParameter)?;
    let payload = assemble(&mut encoder, &next.sequences, false, FRESH)?;

    decoder.reset();
    assert_eq!(decoder.table_bytes(), 0, "a region boundary kept a table");
    assert_eq!(decoder.offset_slot(), None, "a region boundary kept a slot");

    let declared = u64::try_from(payload.len()).unwrap_or(u64::MAX);
    let refused = read_with(
        &payload,
        declared,
        next.content.len(),
        false,
        &first.content,
        &mut decoder,
    );
    assert_eq!(
        refused,
        Err(Error::CorruptData(Corruption::RepeatUnset)),
        "the first coded offset of the next region named a slot nothing had set"
    );
    assert!(
        decoder.tables_built() > 0,
        "the refusal is answered in the sequence loop, after the block's own tables exist"
    );
    Ok(())
}

/// The mode field is absent on the first block of a region, so nothing there names a table.
#[test]
fn the_first_block_of_a_region_cannot_express_a_mode() -> Result<(), Error> {
    let shape = Shape {
        run: 8,
        length: 16,
        distance: 24,
        alphabet: 48,
    };
    let plan = plan(shape, 1_024, &[], 31).ok_or(Error::InvalidParameter)?;
    let payload = one_block(&plan)?;
    let (prologue, used) = BlockPrologue::decode(
        &payload,
        u32::try_from(plan.content.len()).unwrap_or(u32::MAX),
        true,
        &DecoderPolicy::conservative(),
    )?;
    assert_eq!(prologue.mode, 0);
    assert_eq!(
        prologue.encode(false).len(),
        used.saturating_add(1),
        "the mode field is the one byte the first block of a region does not carry"
    );

    let named = edited(&payload, true, false, |prologue| {
        prologue.mode = 0b0000_0010;
    })?;
    let (error, built) = refuse(&named, plan.content.len());
    assert!(
        matches!(error, Error::CorruptData(_)),
        "a block naming a table in force at a region start is corrupt, and was {}",
        error.message()
    );
    assert_eq!(
        error,
        Error::CorruptData(Corruption::SequenceCount),
        "the byte a block spends on a mode field is read as a symbol count there, and the              four counts no longer describe one block"
    );
    assert_eq!(built, 0, "it was refused before a table existed");
    Ok(())
}

#[test]
fn a_model_this_build_does_not_implement_is_an_unsupported_feature() -> Result<(), Error> {
    let shape = Shape {
        run: 8,
        length: 16,
        distance: 24,
        alphabet: 48,
    };
    let plan = plan(shape, 512, &[], 41).ok_or(Error::InvalidParameter)?;
    let mut payload = one_block(&plan)?;
    assert_eq!(payload.first().copied(), Some(BLOCK_MODEL_V1));
    let slot = payload.first_mut().ok_or(Error::InvalidParameter)?;
    *slot = 7;
    let (error, built) = refuse(&payload, plan.content.len());
    assert_eq!(
        error,
        Error::UnsupportedFeature(Feature::BlockModel { model: 7 })
    );
    assert_eq!(built, 0);
    Ok(())
}

#[test]
fn a_declared_peak_above_the_ceiling_is_limit_exceeded() -> Result<(), Error> {
    let shape = Shape {
        run: 8,
        length: 16,
        distance: 24,
        alphabet: 48,
    };
    let plan = plan(shape, 512, &[], 51).ok_or(Error::InvalidParameter)?;
    let payload = one_block(&plan)?;
    let raised = edited(&payload, true, true, |prologue| {
        prologue.table_bytes = 65_537;
    })?;
    let (error, built) = refuse(&raised, plan.content.len());
    assert_eq!(
        error,
        Error::LimitExceeded {
            declared: 65_537,
            allowed: 65_536
        }
    );
    assert_eq!(built, 0, "it was refused before a count was read");
    Ok(())
}

#[test]
fn a_declared_peak_that_disagrees_with_the_descriptions_is_corrupt() -> Result<(), Error> {
    let shape = Shape {
        run: 8,
        length: 16,
        distance: 24,
        alphabet: 48,
    };
    let plan = plan(shape, 512, &[], 61).ok_or(Error::InvalidParameter)?;
    let payload = one_block(&plan)?;
    let moved = edited(&payload, true, true, |prologue| {
        prologue.table_bytes = prologue.table_bytes.saturating_sub(2);
    })?;
    let (error, built) = refuse(&moved, plan.content.len());
    assert_eq!(error, Error::CorruptData(Corruption::TableMemory));
    assert_eq!(built, 0, "no table was built for a block that disagreed");
    Ok(())
}

#[test]
fn a_symbol_count_above_what_the_decoded_size_admits_is_corrupt() -> Result<(), Error> {
    let shape = Shape {
        run: 8,
        length: 16,
        distance: 24,
        alphabet: 48,
    };
    let plan = plan(shape, 512, &[], 71).ok_or(Error::InvalidParameter)?;
    let payload = one_block(&plan)?;
    let raised = edited(&payload, true, true, |prologue| {
        if let Some(slot) = prologue.counts.get_mut(LITERAL_BYTE_STREAM) {
            *slot = 513;
        }
    })?;
    let (error, built) = refuse(&raised, plan.content.len());
    assert_eq!(error, Error::CorruptData(Corruption::BlockCount));
    assert_eq!(built, 0, "it was refused before a description was parsed");
    Ok(())
}

#[test]
fn a_literal_run_count_that_differs_from_the_match_length_count_is_corrupt() -> Result<(), Error>
{
    let shape = Shape {
        run: 8,
        length: 16,
        distance: 24,
        alphabet: 48,
    };
    let plan = plan(shape, 512, &[], 81).ok_or(Error::InvalidParameter)?;
    let payload = one_block(&plan)?;
    let moved = edited(&payload, true, true, |prologue| {
        if let Some(slot) = prologue.counts.get_mut(LITERAL_RUN_STREAM) {
            *slot = slot.saturating_add(1);
        }
    })?;
    let (error, built) = refuse(&moved, plan.content.len());
    assert_eq!(error, Error::CorruptData(Corruption::SequenceCount));
    assert_eq!(built, 0);

    let above = edited(&payload, true, true, |prologue| {
        let length = prologue
            .counts
            .get(MATCH_LENGTH_STREAM)
            .copied()
            .unwrap_or(0);
        if let Some(slot) = prologue.counts.get_mut(MATCH_DISTANCE_STREAM) {
            *slot = length.saturating_add(1);
        }
    })?;
    assert_eq!(
        refuse(&above, plan.content.len()).0,
        Error::CorruptData(Corruption::SequenceCount),
        "a match-distance count above the match-length count is corrupt"
    );
    Ok(())
}

#[test]
fn a_description_extent_contradicting_the_table_a_stream_named_is_corrupt() -> Result<(), Error>
{
    let shape = Shape {
        run: 8,
        length: 16,
        distance: 24,
        alphabet: 48,
    };
    let plan = plan(shape, 512, &[], 91).ok_or(Error::InvalidParameter)?;
    let payload = one_block(&plan)?;

    let silent = edited(&payload, true, true, |prologue| {
        if let Some(slot) = prologue.description_bits.get_mut(LITERAL_BYTE_STREAM) {
            *slot = 0;
        }
    })?;
    let (error, built) = refuse(&silent, plan.content.len());
    assert_eq!(error, Error::CorruptData(Corruption::BlockDescription));
    assert_eq!(built, 0);

    let repeating = edited(&payload, true, false, |prologue| {
        prologue.mode = 0b0000_0001;
    })?;
    let mut decoder = Decoder::at_region_start();
    let declared = u64::try_from(repeating.len()).unwrap_or(u64::MAX);
    assert_eq!(
        read_with(
            &repeating,
            declared,
            plan.content.len(),
            false,
            &[],
            &mut decoder
        ),
        Err(Error::CorruptData(Corruption::BlockDescription)),
        "a stream that names a table in force and declares a description carries bytes \
         nothing names"
    );
    Ok(())
}

#[test]
fn a_stream_declares_no_section_its_class_does_not_carry() -> Result<(), Error> {
    let shape = Shape {
        run: 8,
        length: 16,
        distance: 24,
        alphabet: 48,
    };
    let plan = plan(shape, 512, &[], 101).ok_or(Error::InvalidParameter)?;
    let payload = one_block(&plan)?;
    let sectioned = edited(&payload, true, true, |prologue| {
        if let Some(slot) = prologue.suffix_bits.get_mut(LITERAL_BYTE_STREAM) {
            *slot = 8;
        }
    })?;
    let (error, built) = refuse(&sectioned, plan.content.len());
    assert_eq!(
        error,
        Error::CorruptData(Corruption::BlockSection),
        "the literal-byte alphabet carries no raw suffix"
    );
    assert_eq!(built, 0);
    Ok(())
}

#[test]
fn extents_that_overspend_the_body_are_corrupt_and_a_short_body_is_truncation()
-> Result<(), Error> {
    let shape = Shape {
        run: 8,
        length: 16,
        distance: 24,
        alphabet: 48,
    };
    let plan = plan(shape, 512, &[], 111).ok_or(Error::InvalidParameter)?;
    let payload = one_block(&plan)?;
    let declared = u64::try_from(payload.len()).unwrap_or(u64::MAX);

    let overspent = edited(&payload, true, true, |prologue| {
        if let Some(slot) = prologue.suffix_bits.get_mut(MATCH_DISTANCE_STREAM) {
            *slot = slot.saturating_add(8);
        }
    })?;
    let mut decoder = Decoder::at_region_start();
    assert_eq!(
        read_with(
            &overspent,
            declared,
            plan.content.len(),
            true,
            &[],
            &mut decoder
        ),
        Err(Error::CorruptData(Corruption::BlockExtent)),
        "twelve extents that spend more than the region left for the block are corrupt"
    );
    assert_eq!(decoder.tables_built(), 0);

    let mut decoder = Decoder::at_region_start();
    let short = payload
        .get(..payload.len().saturating_sub(1))
        .unwrap_or(&[]);
    assert_eq!(
        read_with(short, declared, plan.content.len(), true, &[], &mut decoder),
        Err(Error::TruncatedInput {
            needed: payload.len()
        }),
        "a section the arrived bytes do not reach is a request for more input"
    );
    assert_eq!(decoder.tables_built(), 0);
    Ok(())
}

#[test]
fn a_set_reject_reserved_bit_of_the_mode_field_is_corrupt() -> Result<(), Error> {
    let shape = Shape {
        run: 8,
        length: 16,
        distance: 24,
        alphabet: 48,
    };
    let plan = plan(shape, 512, &[], 121).ok_or(Error::InvalidParameter)?;
    let payload = one_block(&plan)?;
    let reserved = edited(&payload, true, false, |prologue| {
        prologue.mode = 0b0001_0000;
    })?;
    let mut decoder = Decoder::at_region_start();
    let declared = u64::try_from(reserved.len()).unwrap_or(u64::MAX);
    assert_eq!(
        read_with(
            &reserved,
            declared,
            plan.content.len(),
            false,
            &[],
            &mut decoder
        ),
        Err(Error::CorruptData(Corruption::ModeReserved))
    );
    assert_eq!(decoder.tables_built(), 0);
    Ok(())
}

#[test]
fn a_stream_that_names_a_table_nothing_built_is_corrupt() -> Result<(), Error> {
    let literals = Shape {
        run: u32::MAX,
        length: 0,
        distance: 0,
        alphabet: 32,
    };
    let first = plan(literals, 256, &[], 131).ok_or(Error::InvalidParameter)?;
    let mut encoder = Encoder::at_region_start();
    let mut decoder = Decoder::at_region_start();
    let _first = round_trip(&first, &[], true, FRESH, &mut encoder, &mut decoder)?;
    assert_eq!(
        first.sequences.steps().len(),
        1,
        "a block of one literal run carries no match, so no distance table exists"
    );

    let shape = Shape {
        run: 4,
        length: 8,
        distance: 16,
        alphabet: 32,
    };
    let next = plan(shape, 256, &first.content, 132).ok_or(Error::InvalidParameter)?;
    let payload = assemble(&mut encoder, &next.sequences, false, FRESH)?;
    let named = edited(&payload, false, false, |prologue| {
        prologue.mode = 0b0000_1000;
        if let Some(slot) = prologue.description_bits.get_mut(MATCH_DISTANCE_STREAM) {
            *slot = 0;
        }
    })?;
    let declared = u64::try_from(named.len()).unwrap_or(u64::MAX);
    let refused = read_with(
        &named,
        declared,
        next.content.len(),
        false,
        &first.content,
        &mut decoder,
    );
    assert_eq!(refused, Err(Error::CorruptData(Corruption::TableUnset)));

    // A stream that declares no symbols names no table either, which is the other half of
    // the same rule and is answered before a description is parsed.
    let quiet = plan(literals, 256, &first.content, 133).ok_or(Error::InvalidParameter)?;
    let payload = assemble(&mut encoder, &quiet.sequences, false, FRESH)?;
    let named = edited(&payload, false, false, |prologue| {
        prologue.mode = 0b0000_1000;
    })?;
    let declared = u64::try_from(named.len()).unwrap_or(u64::MAX);
    let mut fresh = Decoder::at_region_start();
    assert_eq!(
        read_with(
            &named,
            declared,
            quiet.content.len(),
            false,
            &first.content,
            &mut fresh
        ),
        Err(Error::CorruptData(Corruption::ModeStream))
    );
    assert_eq!(fresh.tables_built(), 0);
    Ok(())
}

#[test]
fn a_sequence_past_the_blocks_remaining_decoded_bytes_is_corrupt() -> Result<(), Error> {
    let shape = Shape {
        run: 4,
        length: 64,
        distance: 16,
        alphabet: 48,
    };
    let matched = plan(shape, 4_096, &[], 141).ok_or(Error::InvalidParameter)?;
    let payload = one_block(&matched)?;
    let declared = u64::try_from(payload.len()).unwrap_or(u64::MAX);
    let mut decoder = Decoder::at_region_start();
    assert_eq!(
        read_with(&payload, declared, 4_095, true, &[], &mut decoder),
        Err(Error::CorruptData(Corruption::BlockContent)),
        "a match that runs past the block's remaining decoded bytes is corrupt"
    );

    // A block that ends on a match, so the refusal lands on the match and not on the run
    // before it.
    let mut builder = Builder::new(&[], 142, 48);
    for _ in 0..8 {
        builder
            .step(
                16,
                Some(Match {
                    length: 32,
                    distance: 12,
                }),
            )
            .ok_or(Error::InvalidParameter)?;
    }
    let ends_on_match = builder.finish(0).ok_or(Error::InvalidParameter)?;
    let payload = one_block(&ends_on_match)?;
    let declared = u64::try_from(payload.len()).unwrap_or(u64::MAX);
    let mut decoder = Decoder::at_region_start();
    let short = ends_on_match.content.len().saturating_sub(1);
    assert_eq!(
        read_with(&payload, declared, short, true, &[], &mut decoder),
        Err(Error::CorruptData(Corruption::BlockContent)),
        "a literal run or a match past them is corrupt"
    );
    Ok(())
}

#[test]
fn a_match_past_the_bytes_the_region_produced_is_corrupt() -> Result<(), Error> {
    let shape = Shape {
        run: 4,
        length: 16,
        distance: 2_000,
        alphabet: 48,
    };
    let history = vec![b'z'; 4_096];
    let plan = plan(shape, 1_024, &history, 151).ok_or(Error::InvalidParameter)?;
    let mut encoder = Encoder::at_region_start();
    let mut decoder = Decoder::at_region_start();
    let payload = round_trip(&plan, &history, true, FRESH, &mut encoder, &mut decoder)?;

    let mut decoder = Decoder::at_region_start();
    let declared = u64::try_from(payload.len()).unwrap_or(u64::MAX);
    assert_eq!(
        read_with(
            &payload,
            declared,
            plan.content.len(),
            true,
            &[],
            &mut decoder
        ),
        Err(Error::CorruptData(Corruption::MatchReach)),
        "the same block against a region that has produced nothing reaches past it"
    );
    Ok(())
}

/// A distance of zero has no expression: coded value 1 names the offset slot and every
/// value above it is a distance shifted by one, so the alphabet maps no symbol to zero.
#[test]
fn a_distance_of_zero_cannot_be_expressed() {
    assert_eq!(Alphabet::MatchDistance.coded_value(0), None);
    assert_eq!(Alphabet::MatchDistance.raw_value(1), None);
    assert_eq!(Alphabet::MatchDistance.raw_value(2), Some(1));
}

/// A block whose distance stream declares one symbol more than its matches spend.
///
/// The stream carries one distinct symbol, whose rANS payload is the flushed states and
/// nothing else, so the declared payload extent still agrees and the block reaches the
/// exit condition that owns the count.
#[test]
fn a_block_that_ends_with_a_symbol_count_unspent_is_corrupt() -> Result<(), Error> {
    let shape = Shape {
        run: 12,
        length: 8,
        distance: 64,
        alphabet: 48,
    };
    let mut builder = Builder::new(&[], 161, shape.alphabet);
    builder
        .step(
            100,
            Some(Match {
                length: 8,
                distance: 64,
            }),
        )
        .ok_or(Error::InvalidParameter)?;
    fill(&mut builder, shape, 2_048, 0).ok_or(Error::InvalidParameter)?;
    let plan = builder.finish(0).ok_or(Error::InvalidParameter)?;
    let payload = one_block(&plan)?;

    let raised = edited(&payload, true, true, |prologue| {
        if let Some(slot) = prologue.counts.get_mut(MATCH_DISTANCE_STREAM) {
            *slot = 2;
        }
    })?;
    let (error, _built) = refuse(&raised, plan.content.len());
    assert_eq!(error, Error::CorruptData(Corruption::SequenceCount));
    Ok(())
}

/// A declared quantity wider than a 64-bit value is corrupt, and the loop that read it
/// stops rather than continuing.
#[test]
fn a_declared_quantity_wider_than_the_format_permits_is_corrupt() {
    let mut payload = vec![BLOCK_MODEL_V1];
    payload.extend_from_slice(&[0x80_u8; 12]);
    payload.push(0);
    let (error, built) = refuse(&payload, 512);
    assert_eq!(error, Error::CorruptData(Corruption::Varint));
    assert_eq!(built, 0);
}

/// A payload extent is held against what the coder consumed, and not assumed from it.
///
/// A stream of one distinct literal codes no bits at all, so a block that declares payload
/// bits for it declares bits its coder never spends.
#[test]
fn a_payload_extent_the_coder_does_not_consume_is_corrupt() -> Result<(), Error> {
    let shape = Shape {
        run: 8,
        length: 16,
        distance: 24,
        alphabet: 1,
    };
    let plan = plan(shape, 512, &[], 201).ok_or(Error::InvalidParameter)?;
    let payload = one_block(&plan)?;
    let (prologue, _used) = BlockPrologue::decode(
        &payload,
        u32::try_from(plan.content.len()).unwrap_or(u32::MAX),
        true,
        &DecoderPolicy::conservative(),
    )?;
    assert_eq!(
        prologue
            .stream(LITERAL_BYTE_STREAM)
            .ok_or(Error::InvalidParameter)?
            .payload_bits,
        0,
        "a code of one symbol writes no bits"
    );

    let mut claimed = edited(&payload, true, true, |prologue| {
        if let Some(slot) = prologue.payload_bits.get_mut(LITERAL_BYTE_STREAM) {
            *slot = 8;
        }
    })?;
    claimed.push(0);
    let mut decoder = Decoder::at_region_start();
    let declared = u64::try_from(claimed.len()).unwrap_or(u64::MAX);
    assert_eq!(
        read_with(
            &claimed,
            declared,
            plan.content.len(),
            true,
            &[],
            &mut decoder
        ),
        Err(Error::CorruptData(Corruption::BlockPayload))
    );
    Ok(())
}

/// A payload extent that disagrees with what the coder consumed is corrupt.
#[test]
fn a_payload_extent_the_coder_does_not_spend_is_corrupt() -> Result<(), Error> {
    let shape = Shape {
        run: 8,
        length: 16,
        distance: 24,
        alphabet: 48,
    };
    let plan = plan(shape, 512, &[], 171).ok_or(Error::InvalidParameter)?;
    let payload = one_block(&plan)?;
    let moved = edited(&payload, true, true, |prologue| {
        if let Some(slot) = prologue.payload_bits.get_mut(LITERAL_BYTE_STREAM) {
            *slot = slot.saturating_sub(1);
        }
    })?;
    let (error, _built) = refuse(&moved, plan.content.len());
    assert!(
        matches!(
            error,
            Error::CorruptData(Corruption::BlockPayload | Corruption::CodedStream)
        ),
        "a payload extent the coder does not spend is corrupt, and was {}",
        error.message()
    );
    Ok(())
}

/// The bound is taken over the state the mechanism holds.
///
/// A block declares the tables it decodes under. A class whose stream carries no symbols
/// holds a table the block does not declare, so the two figures are equal exactly when
/// every stream carries symbols, and the decoder holds the figure it will hold against
/// policy either way.
#[test]
fn the_bound_is_taken_over_the_state_the_mechanism_holds() -> Result<(), Error> {
    let policy = DecoderPolicy::conservative();
    let shape = Shape {
        run: 8,
        length: 16,
        distance: 24,
        alphabet: 48,
    };
    let full = plan(shape, 16_384, &[], 181).ok_or(Error::InvalidParameter)?;
    let mut encoder = Encoder::at_region_start();
    let mut decoder = Decoder::at_region_start();
    let payload = round_trip(&full, &[], true, FRESH, &mut encoder, &mut decoder)?;
    let (prologue, _used) = BlockPrologue::decode(
        &payload,
        u32::try_from(full.content.len()).unwrap_or(u32::MAX),
        true,
        &policy,
    )?;
    for index in 0..BLOCK_STREAMS {
        let stream = prologue.stream(index).ok_or(Error::InvalidParameter)?;
        assert!(
            stream.count > 0,
            "every stream of this block carries symbols"
        );
    }
    assert_eq!(
        decoder.table_bytes(),
        prologue.table_bytes,
        "the state the mechanism holds is the state this block declared"
    );
    assert!(decoder.table_bytes() <= policy.max_table_bytes());
    assert_eq!(decoder.table_bytes(), encoder.table_bytes());

    // A block with no matches leaves the distance table in force and declares nothing for
    // it, which is the case the two figures differ in.
    let literals = Shape {
        run: u32::MAX,
        length: 0,
        distance: 0,
        alphabet: 48,
    };
    let next = plan(literals, 4_096, &full.content, 182).ok_or(Error::InvalidParameter)?;
    let payload = round_trip(
        &next,
        &full.content,
        false,
        FRESH,
        &mut encoder,
        &mut decoder,
    )?;
    let (prologue, _used) = BlockPrologue::decode(
        &payload,
        u32::try_from(next.content.len()).unwrap_or(u32::MAX),
        false,
        &policy,
    )?;
    assert_eq!(
        prologue
            .stream(MATCH_DISTANCE_STREAM)
            .ok_or(Error::InvalidParameter)?
            .count,
        0
    );
    assert!(
        decoder.table_bytes() > prologue.table_bytes,
        "the decoder holds a table this block did not declare"
    );
    assert!(
        decoder.table_bytes() <= policy.max_table_bytes(),
        "and the figure it holds is the one policy admitted"
    );
    Ok(())
}

/// A stream decodes under the table in force, which is what the mode field carries.
#[test]
fn a_stream_decodes_under_the_table_already_in_force() -> Result<(), Error> {
    let matched = Match {
        length: 16,
        distance: 24,
    };
    let mut builder = Builder::new(&[], 191, 48);
    builder
        .step(24, Some(matched))
        .ok_or(Error::InvalidParameter)?;
    for _ in 0..99 {
        builder
            .step(8, Some(matched))
            .ok_or(Error::InvalidParameter)?;
    }
    let first = builder.finish(0).ok_or(Error::InvalidParameter)?;
    let mut encoder = Encoder::at_region_start();
    let mut decoder = Decoder::at_region_start();
    let fresh = round_trip(&first, &[], true, FRESH, &mut encoder, &mut decoder)?;

    // Every symbol of the three repeating streams is one the table in force already codes.
    // Which streams may repeat is the encoder's question, and the rule that answers it is
    // not this phase's.
    let mut builder = Builder::new(&first.content, 192, 48);
    for _ in 0..100 {
        builder
            .step(8, Some(matched))
            .ok_or(Error::InvalidParameter)?;
    }
    let next = builder
        .finish(first.content.len())
        .ok_or(Error::InvalidParameter)?;
    let repeat = [false, true, true, true];
    let repeated = round_trip(
        &next,
        &first.content,
        false,
        repeat,
        &mut encoder,
        &mut decoder,
    )?;
    assert!(
        repeated.len() < fresh.len(),
        "a block that transmits three fewer descriptions is smaller"
    );
    let (prologue, _used) = BlockPrologue::decode(
        &repeated,
        u32::try_from(next.content.len()).unwrap_or(u32::MAX),
        false,
        &DecoderPolicy::conservative(),
    )?;
    assert_eq!(prologue.mode, 0b0000_1110);
    for index in [
        LITERAL_RUN_STREAM,
        MATCH_LENGTH_STREAM,
        MATCH_DISTANCE_STREAM,
    ] {
        assert_eq!(
            prologue
                .stream(index)
                .ok_or(Error::InvalidParameter)?
                .description_bits,
            0
        );
    }
    Ok(())
}

/// Runs both expansions over one case.
///
/// Reports whether they agree on the logical output bytes and on the refusal class. A case
/// both paths accept must decode to the same bytes; a case both paths refuse must refuse
/// for the same reason.
fn agree(sequences: &Sequences, history: &[u8], out_len: usize) -> bool {
    let mut oracle = vec![0_u8; out_len];
    let mut production = vec![0_u8; out_len];
    let expected = expand_scalar(sequences, history, &mut oracle);
    let got = expand(sequences, history, &mut production);
    match (expected, got) {
        (Ok(()), Ok(())) => oracle == production,
        (Err(expected), Err(got)) => format!("{expected:?}") == format!("{got:?}"),
        _ => false,
    }
}

/// Assembles and reads one plan, keeping every expansion production performed.
///
/// A block the reader refuses before its expansion captures nothing, which is the same
/// case in which there is no expansion to compare.
fn capture_plan(
    plan: &Plan,
    history: &[u8],
    first_in_region: bool,
) -> Result<Vec<(Sequences, Vec<u8>, usize)>, Error> {
    let mut encoder = Encoder::at_region_start();
    let mut payload = Vec::new();
    let assembly = encoder
        .assemble_into(
            &plan.sequences,
            Terms {
                first_in_region,
                repeat: Some(FRESH),
                ceiling: usize::MAX,
            },
            &DecoderPolicy::conservative(),
            &mut payload,
        )?
        .ok_or(Error::InvalidParameter)?;
    encoder.adopt(assembly);
    let mut decoder = Decoder::at_region_start();
    let mut out = vec![0_u8; plan.content.len()];
    let block = Block {
        arrived: &payload,
        declared: u64::try_from(payload.len()).unwrap_or(u64::MAX),
        first_in_region,
        history,
    };
    let read = decoder.read(&block, &DecoderPolicy::conservative(), &mut out);
    let mut performed = Vec::new();
    if read.is_ok() {
        performed.push((plan.sequences.clone(), history.to_vec(), out.len()));
    }
    Ok(performed)
}

/// Every expansion production performs answers the scalar oracle on bytes and refusal.
#[test]
fn every_production_expansion_agrees_with_the_scalar_oracle() -> Result<(), Error> {
    let sizes = [1_usize, 2, 64, 4_096, 16_384, 65_536];
    let mut cases = 0usize;
    for size in sizes {
        for (index, shape) in shapes().into_iter().enumerate() {
            let seed = u64::try_from(index).unwrap_or(0).saturating_add(1);
            let plan = plan(shape, size, &[], seed).ok_or(Error::InvalidParameter)?;
            for (sequences, history, out_len) in capture_plan(&plan, &[], true)? {
                assert!(
                    agree(&sequences, &history, out_len),
                    "shape {index} at {size} bytes diverged"
                );
                cases = cases.saturating_add(1);
            }
        }
    }
    assert!(cases > 0, "no expansion was captured");
    Ok(())
}

/// An expansion whose source crosses the history boundary answers the scalar oracle.
#[test]
fn a_history_crossing_expansion_agrees_with_the_scalar_oracle() -> Result<(), Error> {
    let history: Vec<u8> = (0..4_096_u32)
        .map(|at| u8::try_from(at & 0xFF).unwrap_or(0))
        .collect();
    let shape = Shape {
        run: 16,
        length: MAX_MATCH_LENGTH,
        distance: 64,
        alphabet: 256,
    };
    let plan = plan(shape, 16_384, &history, 211).ok_or(Error::InvalidParameter)?;
    let mut cases = 0usize;
    for (sequences, held, out_len) in capture_plan(&plan, &history, false)? {
        assert!(
            agree(&sequences, &held, out_len),
            "a crossing case diverged"
        );
        cases = cases.saturating_add(1);
    }
    assert!(cases > 0, "no history-crossing expansion was captured");
    Ok(())
}

/// Rewrites one step of a block into a case no valid stream produces.
///
/// The values are drawn from outside every domain the sequence representation enforces, so
/// the caller uses the unchecked constructor; the two paths must still agree on both the
/// bytes and the refusal class.
fn mutate(
    sequences: &Sequences,
    at: usize,
    kind: usize,
    h: usize,
    out_len: usize,
) -> Option<Sequences> {
    let mut changed = sequences.steps().to_vec();
    let step = *changed.get(at)?;
    let mut written = 0usize;
    for prior in changed.get(..at)? {
        written = written.saturating_add(usize::try_from(prior.run).ok()?);
        if let Some(matched) = prior.matched {
            written = written.saturating_add(usize::try_from(matched.length).ok()?);
        }
    }
    let produced = h.checked_add(written)?;
    let original = step.matched.unwrap_or(Match {
        length: MIN_MATCH,
        distance: 1,
    });
    let matched = match kind {
        0 => Match {
            distance: 0,
            ..original
        },
        1 => Match {
            distance: u32::try_from(produced.checked_add(1)?).ok()?,
            ..original
        },
        2 => Match {
            length: u32::try_from(out_len.checked_sub(written)?.checked_add(1)?).ok()?,
            ..original
        },
        3 => original,
        4 => Match {
            distance: u32::try_from(written.checked_add(1)?).ok()?,
            ..original
        },
        _ => Match {
            distance: original.distance.max(1),
            length: original.distance.max(1).saturating_add(8),
        },
    };
    let new_step = if kind == 3 {
        Step {
            run: step.run.checked_add(1)?,
            matched: step.matched,
        }
    } else {
        Step {
            run: step.run,
            matched: Some(matched),
        }
    };
    *changed.get_mut(at)? = new_step;
    Some(Sequences::new_unchecked(
        sequences.literals().to_vec(),
        changed,
    ))
}

/// Every mutated case answers the scalar oracle on bytes and refusal class.
///
/// The mutations carry a zero distance, a distance past the produced bytes, a length past
/// the block's remaining output, a run that overruns the literal bytes, a source that
/// crosses the history boundary, and a true self-overlap.
#[test]
fn every_mutated_expansion_agrees_with_the_scalar_oracle() -> Result<(), Error> {
    let history: Vec<u8> = (0..4_096_u32)
        .map(|at| u8::try_from(at & 0xFF).unwrap_or(0))
        .collect();
    let mut cases = 0usize;
    for (index, shape) in shapes().into_iter().enumerate() {
        let seed = u64::try_from(index).unwrap_or(0).saturating_add(101);
        let plan = plan(shape, 16_384, &history, seed).ok_or(Error::InvalidParameter)?;
        for (sequences, held, out_len) in capture_plan(&plan, &history, false)? {
            let h = held.len();
            for at in 0..sequences.steps().len() {
                for kind in 0..6 {
                    let Some(mutated) = mutate(&sequences, at, kind, h, out_len) else {
                        continue;
                    };
                    assert!(
                        agree(&mutated, &held, out_len),
                        "shape {index} step {at} kind {kind} diverged"
                    );
                    cases = cases.saturating_add(1);
                }
            }
        }
    }
    assert!(cases > 0, "no mutation was checked");
    Ok(())
}

/// One block of `run` literals, one match, and an optional literal tail.
fn synthetic(
    run: usize,
    length: usize,
    distance: usize,
    tail: usize,
) -> Option<(Sequences, usize)> {
    let mut literals = Vec::new();
    for index in 0..run {
        literals.push(u8::try_from(index & 0xFF).ok()?);
    }
    for index in 0..tail {
        literals.push(u8::try_from((index ^ 0x5A) & 0xFF).ok()?);
    }
    let mut steps = vec![Step {
        run: u32::try_from(run).ok()?,
        matched: Some(Match {
            length: u32::try_from(length).ok()?,
            distance: u32::try_from(distance).ok()?,
        }),
    }];
    if tail > 0 {
        steps.push(Step {
            run: u32::try_from(tail).ok()?,
            matched: None,
        });
    }
    let out_len = run.checked_add(length)?.checked_add(tail)?;
    Some((Sequences::new_unchecked(literals, steps), out_len))
}

/// The kernel agrees with the oracle at every chunk boundary.
///
/// Lengths cover shorter than a chunk, exactly a chunk, one past a chunk, an exact multiple,
/// a remainder of one, and a remainder of `K - 1`. Distances cover below the width, exactly
/// the width, one past it, and a wide distance. A history of zero, one, several, and more
/// than a chunk covers a source entirely in the block output, entirely in history, and
/// crossing the boundary. A tail after the match puts the match end inside the block rather
/// than exactly at it, so the final partial chunk is exercised.
#[test]
fn the_width_chunked_kernel_agrees_at_every_chunk_boundary() {
    let k = entroq::block::COPY_WIDTH;
    let distances = [
        1,
        k.saturating_sub(1),
        k,
        k.saturating_add(1),
        k.saturating_mul(2),
    ];
    let lengths = [
        1,
        k.saturating_sub(1),
        k,
        k.saturating_add(1),
        k.saturating_mul(2),
        k.saturating_mul(2).saturating_add(1),
        k.saturating_mul(3).saturating_sub(1),
        k.saturating_mul(3),
    ];
    let mut cases = 0usize;
    for history_len in [0usize, 1, 8, 64, k.saturating_add(3)] {
        let history: Vec<u8> = (0..history_len)
            .map(|at| u8::try_from(at & 0xFF).unwrap_or(0))
            .collect();
        for distance in distances {
            for length in lengths {
                for run in [0usize, 1, 8, k] {
                    for tail in [0usize, 1] {
                        let Some((sequences, out_len)) = synthetic(run, length, distance, tail)
                        else {
                            continue;
                        };
                        assert!(
                            agree(&sequences, &history, out_len),
                            "distance {distance} length {length} run {run} tail {tail} \
                             history {history_len} diverged"
                        );
                        cases = cases.saturating_add(1);
                    }
                }
            }
        }
    }
    assert!(cases > 0, "no boundary case was checked");
}
