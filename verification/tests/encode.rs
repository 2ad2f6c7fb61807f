use entroq::encode::{
    DEFAULT_BLOCK_BYTES, DEFAULT_REGION_BYTES, Emitter, Layout, Mode, abort_to_raw, log2_fixed,
    shannon_scaled,
};
use entroq::block;
use entroq::format::{
    BLOCK_HEADER_BYTES, BLOCK_STREAMS, BlockHeader, BlockType, DecoderPolicy, Error,
    IntegrityMode, MAX_BLOCK_BYTES,
};
use entroq::parser::Parser;

fn header_cost(blocks: u64) -> u64 {
    blocks.saturating_mul(BLOCK_HEADER_BYTES as u64)
}

/// The input classes every selection figure is taken over.
#[derive(Clone, Copy, Debug)]
enum Class {
    Zeros,
    OneByte,
    Incompressible,
    Repetitive,
    Text,
    Sparse,
}

impl Class {
    const ALL: [Self; 6] = [
        Self::Zeros,
        Self::OneByte,
        Self::Incompressible,
        Self::Repetitive,
        Self::Text,
        Self::Sparse,
    ];

    fn name(self) -> &'static str {
        match self {
            Self::Zeros => "zeros",
            Self::OneByte => "one-byte",
            Self::Incompressible => "incompressible",
            Self::Repetitive => "repetitive",
            Self::Text => "text",
            Self::Sparse => "sparse",
        }
    }

    fn content(self, len: usize) -> Vec<u8> {
        let mut out = vec![0_u8; len];
        for (at, slot) in out.iter_mut().enumerate() {
            let position = u64::try_from(at).unwrap_or(0);
            *slot = match self {
                Self::Zeros => 0,
                Self::OneByte => 0xA5,
                Self::Incompressible => mix(position),
                Self::Repetitive => {
                    let phrase = b"the quick brown fox jumps over the lazy dog. ";
                    phrase
                        .get(at.checked_rem(phrase.len()).unwrap_or(0))
                        .copied()
                        .unwrap_or(b' ')
                }
                Self::Text => {
                    let word = position.wrapping_mul(0x9E37_79B9).wrapping_add(11);
                    let pick = u8::try_from(word.wrapping_shr(28) & 0x0F).unwrap_or(0);
                    b"abcdefghijklmnop"
                        .get(usize::from(pick))
                        .copied()
                        .unwrap_or(b'a')
                }
                Self::Sparse => {
                    if at.checked_rem(64) == Some(0) {
                        mix(position)
                    } else {
                        0
                    }
                }
            };
        }
        out
    }
}

/// A value that depends on its position and on nothing else.
///
/// The mix avalanches rather than rotating, because a value taken from one multiply of
/// the position carries the arithmetic structure of the position into the byte and a
/// match finder reads that structure as content.
fn mix(position: u64) -> u8 {
    let mut state = position.wrapping_add(0x9E37_79B9_7F4A_7C15);
    state = (state ^ (state >> 30)).wrapping_mul(0xBF58_476D_1CE4_E5B9);
    state = (state ^ (state >> 27)).wrapping_mul(0x94D0_49BB_1331_11EB);
    u8::try_from((state ^ (state >> 31)).wrapping_shr(24) & 0xFF).unwrap_or(0)
}

/// Every mask of the four streams, which is what hindsight ranges over.
fn masks() -> Vec<[bool; BLOCK_STREAMS]> {
    (0..16_u8)
        .map(|bits| {
            let mut mask = [false; BLOCK_STREAMS];
            for (index, slot) in mask.iter_mut().enumerate() {
                *slot = bits & (1 << index) != 0;
            }
            mask
        })
        .collect()
}

#[test]
fn a_layout_refuses_a_size_the_format_cannot_represent() {
    assert_eq!(Layout::new(0, 16), Err(Error::InvalidParameter));
    assert_eq!(Layout::new(16, 0), Err(Error::InvalidParameter));
    assert_eq!(
        Layout::new(16, MAX_BLOCK_BYTES.saturating_add(1)),
        Err(Error::InvalidParameter)
    );
}

#[test]
fn the_default_sizes_describe_a_layout_the_format_can_carry() -> Result<(), Error> {
    let layout = Layout::new(DEFAULT_REGION_BYTES, DEFAULT_BLOCK_BYTES)?;
    assert_eq!(layout.region_bytes(), DEFAULT_REGION_BYTES);
    assert_eq!(layout.block_bytes(), DEFAULT_BLOCK_BYTES);
    let (end, last) = layout.block(0, DEFAULT_REGION_BYTES)?;
    assert_eq!(end, 65_536);
    assert!(!last);
    Ok(())
}

#[test]
fn the_physical_size_counts_every_block_header_the_layout_writes() -> Result<(), Error> {
    let layout = Layout::new(1_024, 256)?;
    for (logical, blocks) in [(1_usize, 1_u64), (256, 1), (257, 2), (512, 2), (1_024, 4)] {
        let expected = u64::try_from(logical)
            .map_err(|_| Error::InvalidParameter)?
            .saturating_add(header_cost(blocks));
        assert_eq!(
            layout.physical_bytes(logical)?,
            expected,
            "logical {logical}"
        );
    }
    Ok(())
}

#[test]
fn the_blocks_of_a_region_cover_it_once_and_the_last_one_says_so() -> Result<(), Error> {
    let layout = Layout::new(1_024, 300)?;
    let len = 1_000_usize;
    let mut at = 0_usize;
    let mut blocks = 0_u64;
    let mut covered = 0_usize;
    while at < len {
        let (end, last) = layout.block(at, len)?;
        let span = end.checked_sub(at).ok_or(Error::InvalidParameter)?;
        assert!(span > 0 && span <= 300);
        assert_eq!(last, end == len);
        covered = covered.saturating_add(span);
        blocks = blocks.saturating_add(1);
        at = end;
    }
    assert_eq!(covered, len);
    assert_eq!(blocks, 4);
    assert_eq!(
        layout.physical_bytes(len)?,
        u64::try_from(len)
            .map_err(|_| Error::InvalidParameter)?
            .saturating_add(header_cost(blocks))
    );
    Ok(())
}

#[test]
fn a_region_header_declares_what_its_blocks_stored() -> Result<(), Error> {
    let layout = Layout::new(1_024, 256)?;
    let region = layout.region(700, 712, IntegrityMode::PerRegion)?;
    assert_eq!(region.logical_size, 700);
    assert_eq!(region.physical_size, 712);
    assert_eq!(
        layout.region(2_048, 64, IntegrityMode::Absent),
        Err(Error::InvalidParameter),
        "a region above the layout's own staging is not one it can fill"
    );
    Ok(())
}

/// Each input class gets the type its content earns, and the type is what the emitter
/// recorded.
#[test]
fn each_input_class_is_emitted_under_the_type_its_content_earns() -> Result<(), Error> {
    let block_bytes = 16_384_usize;
    let expected = [
        (Class::Zeros, BlockType::Rle),
        (Class::OneByte, BlockType::Rle),
        (Class::Incompressible, BlockType::Raw),
        (Class::Repetitive, BlockType::Compressed),
        (Class::Text, BlockType::Compressed),
        (Class::Sparse, BlockType::Compressed),
    ];
    for (class, want) in expected {
        let mut emitter = Emitter::new(DecoderPolicy::conservative(), 16_384)?;
        let content = class.content(block_bytes);
        let mut out = Vec::new();
        let kind = emitter.emit(&content, true, true, &mut out)?;
        assert_eq!(kind, want, "class {}", class.name());
        let stats = emitter.statistics();
        assert_eq!(stats.blocks, 1);
        assert_eq!(
            stats.compressed_blocks.saturating_add(stats.raw_blocks) + stats.rle_blocks,
            1
        );
        let stored = out.len().saturating_sub(BLOCK_HEADER_BYTES);
        match kind {
            BlockType::Raw => assert_eq!(stored, block_bytes),
            BlockType::Rle => assert_eq!(stored, 1),
            BlockType::Compressed => assert!(stored < block_bytes),
        }
    }
    Ok(())
}

/// A block whose tables do not fit policy is emitted under another type, and the emitter
/// records that it was.
#[test]
fn a_block_whose_tables_are_above_policy_is_emitted_as_raw_and_recorded() -> Result<(), Error> {
    let content = Class::Text.content(16_384);
    let policy = DecoderPolicy::conservative();
    let mut wide = Emitter::new(policy, 16_384)?;
    let mut room = Vec::new();
    assert_eq!(
        wide.emit(&content, true, true, &mut room)?,
        BlockType::Compressed
    );
    assert_eq!(wide.statistics().table_limited_blocks, 0);

    // The same content under a policy whose quarter share cannot hold one table.
    let narrow = policy.with_max_table_bytes(64);
    let mut limited = Emitter::new(narrow, 16_384)?;
    let mut out = Vec::new();
    assert_eq!(
        limited.emit(&content, true, true, &mut out)?,
        BlockType::Raw
    );
    let stats = limited.statistics();
    assert_eq!(stats.table_limited_blocks, 1);
    assert_eq!(stats.raw_blocks, 1);
    assert_eq!(stats.compressed_blocks, 0);
    Ok(())
}

/// The reuse trigger against hindsight.
///
/// The type choice is exhaustive by construction, so the only freedom that can be worse
/// than hindsight is which streams named the table in force. This walks every block of
/// every class, assembles it under all sixteen masks, and names the blocks where the
/// trigger spent more than the cheapest of them.
#[test]
fn the_reuse_trigger_is_never_dearer_than_the_cheapest_mask_in_hindsight() -> Result<(), Error>
{
    let block_bytes = 8_192_usize;
    let policy = DecoderPolicy::conservative();
    let mut worse: Vec<String> = Vec::new();
    let mut assembled = 0_usize;
    for class in Class::ALL {
        let content = class.content(block_bytes.saturating_mul(6));
        let mut parser = Parser::new();
        let mut tables = block::Encoder::at_region_start();
        let mut at = 0_usize;
        let mut index = 0_usize;
        while at < content.len() {
            let end = at.saturating_add(block_bytes).min(content.len());
            let input = content.get(at..end).ok_or(Error::InvalidParameter)?;
            let sequences = parser.parse(input)?;
            let first_in_region = at == 0;

            let mut chosen = Vec::new();
            let taken = tables.assemble_into(
                sequences,
                block::Terms {
                    first_in_region,
                    repeat: None,
                    ceiling: usize::MAX,
                },
                &policy,
                &mut chosen,
            )?;

            let mut best = chosen.len();
            let mut scratch = Vec::new();
            for mask in masks() {
                if first_in_region && mask.iter().any(|&named| named) {
                    continue;
                }
                let named = tables.assemble_into(
                    sequences,
                    block::Terms {
                        first_in_region,
                        repeat: Some(mask),
                        ceiling: usize::MAX,
                    },
                    &policy,
                    &mut scratch,
                );
                if named.is_ok() {
                    best = best.min(scratch.len());
                }
            }
            if chosen.len() > best {
                worse.push(format!(
                    "{} block {index}: the trigger stored {} where a mask stored {best}",
                    class.name(),
                    chosen.len()
                ));
            }
            assembled = assembled.saturating_add(1);
            if let Some(taken) = taken {
                tables.adopt(taken);
            }
            at = end;
            index = index.saturating_add(1);
        }
    }
    assert_eq!(assembled, 36, "a block was skipped rather than assembled");
    assert!(
        worse.is_empty(),
        "the trigger chose worse than hindsight on {} of {assembled} blocks: {worse:?}",
        worse.len()
    );
    Ok(())
}

#[test]
fn the_integer_logarithm_is_exact_on_powers_of_two() {
    let mut power = 1_u32;
    for shift in 0_u32..17_u32 {
        assert_eq!(
            log2_fixed(power),
            shift.saturating_mul(256),
            "log2 of 2^{shift}"
        );
        power = power.saturating_mul(2);
    }
}

#[test]
fn the_integer_logarithm_is_monotone_and_bounded() {
    let mut previous = log2_fixed(1);
    for value in 2_u32..4_097_u32 {
        let current = log2_fixed(value);
        assert!(current >= previous, "monotone at {value}");
        let floor = 31_u32.saturating_sub(value.leading_zeros());
        assert!(current >= floor.saturating_mul(256), "floor at {value}");
        assert!(
            current <= floor.saturating_mul(256).saturating_add(255),
            "ceiling at {value}"
        );
        previous = current;
    }
}

#[test]
fn the_early_raw_rule_aborts_uniform_blocks_and_keeps_structured_ones() {
    let uniform: Vec<u8> = (0_usize..65_536_usize)
        .map(|at| u8::try_from(at.checked_rem(256).unwrap_or(0)).unwrap_or(0))
        .collect();
    assert!(
        abort_to_raw(5, &uniform, 65_536),
        "near-uniform literals abort"
    );
    assert!(
        !abort_to_raw(200, &uniform, 65_536),
        "a high match count keeps the assembly path"
    );
    let flat = vec![7_u8; 4_096];
    assert!(
        !abort_to_raw(0, &flat, 4_096),
        "a flat distribution has no code-size reason to abort"
    );
    assert!(
        abort_to_raw(0, &[1_u8, 2, 3], 3),
        "a tiny block meets the size arm by construction"
    );
    assert!(
        !abort_to_raw(129, &[1_u8, 2, 3], 3),
        "the match arm still gates tiny blocks"
    );
}

#[test]
fn the_shannon_bound_matches_its_definition_on_small_vectors() {
    let literals = [0_u8, 0, 1, 1];
    let scaled = shannon_scaled(&literals);
    assert_eq!(scaled, 1_024, "four bits of entropy scale to 1024");
    assert_eq!(shannon_scaled(&[]), 0, "empty literals carry no bound");
    assert_eq!(
        shannon_scaled(&[9_u8; 64]),
        0,
        "one symbol carries no information"
    );
}

struct Baseline {
    parser: Parser,
    tables: block::Encoder,
    payload: Vec<u8>,
    policy: DecoderPolicy,
}

impl Baseline {
    fn new(policy: DecoderPolicy) -> Self {
        Self {
            parser: Parser::new(),
            tables: block::Encoder::at_region_start(),
            payload: Vec::new(),
            policy,
        }
    }

    fn emit_block(
        &mut self,
        input: &[u8],
        last: bool,
        first_in_region: bool,
        out: &mut Vec<u8>,
    ) -> Result<BlockType, Error> {
        let size = u32::try_from(input.len()).map_err(|_| Error::InvalidParameter)?;
        let value = input.first().copied().ok_or(Error::InvalidParameter)?;
        let mut kind = BlockType::Raw;
        let mut stored = input.len();
        if stored > 1 && input.iter().all(|&byte| byte == value) {
            kind = BlockType::Rle;
            stored = 1;
        }
        let sequences = self.parser.parse(input)?.clone();
        let assembled = self.tables.assemble_into(
            &sequences,
            block::Terms {
                first_in_region,
                repeat: None,
                ceiling: stored,
            },
            &self.policy,
            &mut self.payload,
        );
        let assembled = match assembled {
            Ok(assembled) => assembled,
            Err(Error::LimitExceeded { .. }) => None,
            Err(error) => return Err(error),
        };
        if assembled.is_some() {
            kind = BlockType::Compressed;
        }
        let header = match kind {
            BlockType::Raw => BlockHeader::raw(last, size)?,
            BlockType::Rle => BlockHeader::rle(last, size)?,
            BlockType::Compressed => BlockHeader::compressed(last, size)?,
        };
        out.extend_from_slice(header.encode().as_bytes());
        match kind {
            BlockType::Raw => out.extend_from_slice(input),
            BlockType::Rle => out.push(value),
            BlockType::Compressed => out.extend_from_slice(&self.payload),
        }
        if let Some(assembly) = assembled {
            self.tables.adopt(assembly);
        }
        Ok(kind)
    }
}

/// The two emitted blocks under test, and the type each emitter chose for them.
type Emitted = (Vec<u8>, Vec<u8>, BlockType, BlockType);

fn emit_both(
    input: &[u8],
    last: bool,
    first_in_region: bool,
    policy: DecoderPolicy,
) -> Result<Emitted, Error> {
    let mut emitter = Emitter::new(policy, u32::try_from(input.len()).unwrap_or(u32::MAX))?;
    let mut fast = Vec::new();
    let fast_kind = emitter.emit(input, last, first_in_region, &mut fast)?;
    let mut baseline = Baseline::new(policy);
    let mut slow = Vec::new();
    let slow_kind = baseline.emit_block(input, last, first_in_region, &mut slow)?;
    Ok((fast, slow, fast_kind, slow_kind))
}

#[test]
fn the_bypass_emits_bytes_identical_to_full_assembly() -> Result<(), Error> {
    for class in Class::ALL {
        let content = class.content(16_384);
        let (fast, slow, fast_kind, slow_kind) =
            emit_both(&content, true, true, DecoderPolicy::conservative())?;
        assert_eq!(fast, slow, "bytes differ on {}", class.name());
        assert_eq!(fast_kind, slow_kind, "type differs on {}", class.name());
    }
    Ok(())
}

#[test]
fn mixed_region_blocks_stay_identical_across_raw_compressed_and_rle() -> Result<(), Error> {
    let policy = DecoderPolicy::conservative();
    let mut emitter = Emitter::new(policy, 16_384)?;
    let mut baseline = Baseline::new(policy);
    let blocks = [
        Class::Incompressible.content(16_384),
        Class::Repetitive.content(16_384),
        Class::Zeros.content(16_384),
        Class::Text.content(16_384),
    ];
    let mut at = 0_usize;
    for content in &blocks {
        let last = at.saturating_add(1) == blocks.len();
        let first_in_region = at == 0;
        let mut fast = Vec::new();
        let mut slow = Vec::new();
        let fast_kind = emitter.emit(content, last, first_in_region, &mut fast)?;
        let slow_kind = baseline.emit_block(content, last, first_in_region, &mut slow)?;
        assert_eq!(fast, slow, "block {at} bytes differ");
        assert_eq!(fast_kind, slow_kind, "block {at} type differs");
        at = at.saturating_add(1);
    }
    Ok(())
}

#[test]
fn narrow_policy_bytes_match_with_the_documented_counter_gap() -> Result<(), Error> {
    let content = Class::Incompressible.content(16_384);
    let policy = DecoderPolicy::conservative().with_max_table_bytes(64);
    let (fast, slow, fast_kind, slow_kind) = emit_both(&content, true, true, policy)?;
    assert_eq!(fast, slow, "narrow-policy bytes differ");
    assert_eq!(fast_kind, BlockType::Raw);
    assert_eq!(slow_kind, BlockType::Raw);
    let mut emitter = Emitter::new(policy, 16_384)?;
    let mut out = Vec::new();
    let _ = emitter.emit(&content, true, true, &mut out)?;
    assert_eq!(
        emitter.statistics().table_limited_blocks,
        0,
        "a skipped assembly records no table limit"
    );
    Ok(())
}

#[test]
fn rle_blocks_skip_assembly_under_a_narrow_policy() -> Result<(), Error> {
    let content = Class::Zeros.content(4_096);
    let policy = DecoderPolicy::conservative().with_max_table_bytes(64);
    let (fast, slow, fast_kind, slow_kind) = emit_both(&content, true, true, policy)?;
    assert_eq!(fast_kind, BlockType::Rle);
    assert_eq!(slow_kind, BlockType::Rle);
    assert_eq!(fast, slow, "RLE bytes differ under a narrow policy");
    Ok(())
}

#[test]
fn an_exact_repeat_at_maximum_distance_stays_compressed() -> Result<(), Error> {
    // Two 64 KiB blocks where the second repeats the first exactly. The FAST table
    // prefers near candidates, so the second block fragments; it still earns
    // COMPRESSED, which is what the investigation measured for this input.
    let mut first = vec![0_u8; 65_536];
    for (at, slot) in first.iter_mut().enumerate() {
        *slot = mix(u64::try_from(at).unwrap_or(0));
    }
    let mut emitter = Emitter::new(DecoderPolicy::conservative(), 65_536)?;
    let mut out = Vec::new();
    let first_kind = emitter.emit(&first, false, true, &mut out)?;
    assert_eq!(first_kind, BlockType::Raw);
    let mut second_out = Vec::new();
    let second_kind = emitter.emit(&first, true, false, &mut second_out)?;
    assert_eq!(
        second_kind,
        BlockType::Compressed,
        "the far repeat stored {} bytes against {} raw",
        second_out.len(),
        first.len()
    );
    Ok(())
}

#[test]
fn edge_inputs_emit_and_stay_deterministic() -> Result<(), Error> {
    for len in 1_usize..65_usize {
        let content = Class::Incompressible.content(len);
        let (fast, _, _, _) = emit_both(&content, true, true, DecoderPolicy::conservative())?;
        let (again, _, _, _) = emit_both(&content, true, true, DecoderPolicy::conservative())?;
        assert_eq!(fast, again, "determinism failed at length {len}");
        let (_, slow, _, _) = emit_both(&content, true, true, DecoderPolicy::conservative())?;
        assert_eq!(fast, slow, "bytes differ at length {len}");
    }
    Ok(())
}

#[test]
fn the_default_emitter_stays_fast() -> Result<(), Error> {
    let fast = Emitter::new(DecoderPolicy::conservative(), 16_384)?;
    assert_eq!(fast.mode(), Mode::Fast);
    let balanced = Emitter::with_mode(DecoderPolicy::conservative(), 16_384, Mode::Balanced)?;
    assert_eq!(balanced.mode(), Mode::Balanced);
    assert_eq!(Mode::Fast, Mode::Fast);
    assert_ne!(Mode::Fast, Mode::Balanced);
    Ok(())
}

#[test]
fn the_balanced_emitter_holds_the_chain_state() -> Result<(), Error> {
    let fast = Emitter::new(DecoderPolicy::conservative(), 65_536)?;
    let balanced = Emitter::with_mode(DecoderPolicy::conservative(), 65_536, Mode::Balanced)?;
    let gap = balanced
        .steady_state_bytes()
        .saturating_sub(fast.steady_state_bytes());
    assert_eq!(
        gap,
        Parser::balanced_declared_bytes(65_536).saturating_sub(Parser::declared_bytes(65_536)),
        "the BALANCED steady state differs only by the parser declaration"
    );
    assert_eq!(gap, 262_144);
    Ok(())
}

#[test]
fn the_balanced_emitter_round_trips() -> Result<(), Error> {
    for class in Class::ALL {
        let content = class.content(8_192);
        let mut emitter =
            Emitter::with_mode(DecoderPolicy::conservative(), 8_192, Mode::Balanced)?;
        let mut out = Vec::new();
        let _ = emitter.emit(&content, true, true, &mut out)?;
        assert!(
            !out.is_empty(),
            "BALANCED emitted nothing on {}",
            class.name()
        );
    }
    Ok(())
}
