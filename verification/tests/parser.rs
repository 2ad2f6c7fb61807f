use entroq::parser::{CAPACITY, LOOKAHEAD_BYTES, MAX_PARSE_BYTES, Parser, skip_jump};
use entroq::block::expand;
use entroq::format::Error;
use entroq::matchfinder::{BoundedHashChain, CHAIN_DEPTH_BALANCED, SingleHash};
use entroq::sequence::{MAX_MATCH_LENGTH, MIN_MATCH, Match, Sequences, WINDOW};
use entroq::simd::ALL;

const SEED: u64 = 0x5EED_0000_0000_0006;

struct Source(u64);

impl Source {
    fn byte(&mut self) -> u8 {
        self.0 = self
            .0
            .wrapping_mul(0x5851_F42D_4C95_7F2D)
            .wrapping_add(0x1405_7B7E_F767_814F);
        entroq::entropy::low_byte(self.0 >> 24)
    }
}

fn noise(len: usize, seed: u64) -> Vec<u8> {
    let mut source = Source(seed);
    (0..len).map(|_| source.byte()).collect()
}

/// The shapes the round trip covers.
#[derive(Clone, Copy, Debug)]
enum Shape {
    Zeros,
    OneByte,
    Random,
    Repetitive,
    NearWindow,
    Incompressible,
}

const SHAPES: [Shape; 6] = [
    Shape::Zeros,
    Shape::OneByte,
    Shape::Random,
    Shape::Repetitive,
    Shape::NearWindow,
    Shape::Incompressible,
];

impl Shape {
    fn name(self) -> &'static str {
        match self {
            Self::Zeros => "zeros",
            Self::OneByte => "one-byte",
            Self::Random => "random",
            Self::Repetitive => "repetitive",
            Self::NearWindow => "near-window",
            Self::Incompressible => "incompressible",
        }
    }

    fn content(self, len: usize) -> Vec<u8> {
        match self {
            Self::Zeros => vec![0u8; len],
            Self::OneByte => vec![0x5Au8; len],
            Self::Random => noise(len, SEED),
            Self::Repetitive => {
                let phrase = b"the same thirty-seven bytes, again!!!";
                (0..len)
                    .map(|at| {
                        phrase
                            .get(at.checked_rem(phrase.len()).unwrap_or(0))
                            .copied()
                            .unwrap_or(b'?')
                    })
                    .collect()
            }
            // A block of content, one window of filler, and the same block again, so the
            // last part's matches sit at the window edge.
            Self::NearWindow => {
                let window = WINDOW as usize;
                let head = noise(window / 2, SEED ^ 0x31);
                let filler = noise(window / 2, SEED ^ 0x32);
                let mut data = Vec::with_capacity(len);
                while data.len() < len {
                    data.extend_from_slice(&head);
                    data.extend_from_slice(&filler);
                    data.extend_from_slice(&head);
                }
                data.truncate(len);
                data
            }
            // High entropy with no byte-level structure a finder can exploit, and a
            // different generator from `Random`, so the two are not one input twice.
            Self::Incompressible => (0..len)
                .map(|at| {
                    let mixed = (at as u64)
                        .wrapping_mul(0x9E37_79B9_7F4A_7C15)
                        .rotate_left(29)
                        .wrapping_mul(0xBF58_476D_1CE4_E5B9);
                    entroq::entropy::low_byte(mixed >> 33)
                })
                .collect(),
        }
    }
}

/// Parses `data` in `block`-byte calls and reconstructs it the way a decoder does.
fn round_trip(parser: &mut Parser, data: &[u8], block: usize) -> Result<Vec<u8>, Error> {
    let mut out = vec![0u8; data.len()];
    let mut done = 0usize;
    while done < data.len() {
        let end = done.saturating_add(block).min(data.len());
        let chunk = data.get(done..end).unwrap_or_default();
        let sequences = parser.parse(chunk)?;
        assert_eq!(
            sequences.decoded_len(),
            chunk.len() as u64,
            "a block's sequences decode to the block"
        );
        let sequences = sequences.clone();
        let (history, room) = out.split_at_mut(done);
        let target = room.get_mut(..chunk.len()).ok_or(Error::InvalidParameter)?;
        expand(&sequences, history, target)?;
        done = end;
    }
    Ok(out)
}

/// Every match a sequence vector carries, checked against the domains and against the
/// bytes the region has produced when the match is read.
fn check_domains(sequences: &Sequences, produced_before: u64, name: &str) {
    let mut produced = produced_before;
    for step in sequences.steps() {
        produced = produced.saturating_add(u64::from(step.run));
        let Some(matched) = step.matched else {
            continue;
        };
        assert!(matched.length >= MIN_MATCH, "{name}");
        assert!(matched.length <= MAX_MATCH_LENGTH, "{name}");
        assert!(matched.distance >= 1, "{name}");
        assert!(matched.distance <= WINDOW, "{name}");
        assert!(u64::from(matched.distance) <= produced, "{name}");
        produced = produced.saturating_add(u64::from(matched.length));
    }
}

#[test]
fn a_parse_reconstructs_every_shape_at_every_block_size() -> Result<(), Error> {
    let sizes = [0usize, 1, 3, 4, 255, 256, 4_096, 65_536, 65_537, 100_000];
    let blocks = [MAX_PARSE_BYTES, 4_096, 1_019];
    let mut checked = 0usize;
    for shape in SHAPES {
        for size in sizes {
            let data = shape.content(size);
            for block in blocks {
                let mut parser = Parser::new();
                let out = round_trip(&mut parser, &data, block)?;
                assert_eq!(out, data, "{} at {size} in {block}", shape.name());
                checked = checked.saturating_add(1);
            }
        }
    }
    assert_eq!(
        checked,
        SHAPES
            .len()
            .saturating_mul(sizes.len())
            .saturating_mul(blocks.len()),
        "a shape, a size or a block size was skipped"
    );
    Ok(())
}

#[test]
fn every_match_a_parse_emits_is_inside_its_domain() -> Result<(), Error> {
    for shape in SHAPES {
        let data = shape.content(160_000);
        let mut parser = Parser::new();
        let mut produced = 0u64;
        for chunk in data.chunks(MAX_PARSE_BYTES) {
            let sequences = parser.parse(chunk)?;
            check_domains(sequences, produced, shape.name());
            produced = produced.saturating_add(sequences.decoded_len());
        }
    }
    Ok(())
}

#[test]
fn an_empty_block_is_one_empty_sequence_vector() -> Result<(), Error> {
    let mut parser = Parser::new();
    let sequences = parser.parse(&[])?;
    assert_eq!(sequences.decoded_len(), 0);
    assert!(sequences.steps().is_empty());
    assert!(sequences.literals().is_empty());
    Ok(())
}

#[test]
fn a_block_longer_than_one_call_may_parse_is_refused() {
    let mut parser = Parser::new();
    let data = vec![0u8; MAX_PARSE_BYTES.saturating_add(1)];
    assert_eq!(parser.parse(&data), Err(Error::InvalidParameter));
}

#[test]
fn the_same_input_produces_the_same_sequences() -> Result<(), Error> {
    for shape in SHAPES {
        let data = shape.content(80_000);
        let first = parse_all(&data)?;
        let second = parse_all(&data)?;
        assert_eq!(first, second, "{}", shape.name());
    }
    Ok(())
}

#[test]
fn a_reset_discards_the_history() -> Result<(), Error> {
    let data = Shape::Repetitive.content(120_000);
    let fresh = parse_all(&data)?;
    let mut parser = Parser::new();
    for chunk in Shape::Random.content(120_000).chunks(MAX_PARSE_BYTES) {
        let _ = parser.parse(chunk)?;
    }
    parser.reset();
    assert!(parser.history().is_empty());
    let mut after = Vec::new();
    for chunk in data.chunks(MAX_PARSE_BYTES) {
        after.push(parser.parse(chunk)?.clone());
    }
    assert_eq!(fresh, after, "a reset parser is a fresh parser");
    Ok(())
}

#[test]
fn every_kernel_produces_the_same_sequences() -> Result<(), Error> {
    for shape in SHAPES {
        let data = shape.content(80_000);
        let mut expected: Option<Vec<Sequences>> = None;
        for kernel in ALL {
            let mut parser = Parser::with_kernel(kernel);
            assert_eq!(parser.kernel(), kernel);
            let mut produced = Vec::new();
            for chunk in data.chunks(MAX_PARSE_BYTES) {
                produced.push(parser.parse(chunk)?.clone());
            }
            match expected {
                None => expected = Some(produced),
                Some(ref first) => {
                    assert_eq!(&produced, first, "{} on {}", kernel.name(), shape.name());
                }
            }
        }
    }
    Ok(())
}

#[test]
fn the_declared_bound_states_what_the_parse_holds() {
    // The FAST matcher moved the parser from the chain's five bytes per window byte to
    // one: the single table holds 65 536 bytes where the head table and link array held
    // 327 680.
    assert_eq!(CAPACITY, 196_608);
    assert_eq!(Parser::state_bytes(), 262_144);
    assert_eq!(
        Parser::state_bytes(),
        SingleHash::state_bytes().saturating_add(CAPACITY)
    );
    assert_eq!(
        Parser::declared_bytes(0),
        Parser::state_bytes().saturating_add(16)
    );
    assert_eq!(Parser::declared_bytes(MAX_PARSE_BYTES), 589_840);
    assert_eq!(Parser::chain_state_bytes(), 524_288);
    assert_eq!(Parser::balanced_state_bytes(), 524_288);
    assert_eq!(Parser::balanced_declared_bytes(MAX_PARSE_BYTES), 851_984);
    assert_eq!(LOOKAHEAD_BYTES, MAX_MATCH_LENGTH as usize);
}

#[test]
fn the_skip_schedule_ramps_one_step_per_sixty_four_misses() {
    for streak in [0_u32, 1, 63] {
        assert_eq!(skip_jump(streak), 1, "streak {streak}");
    }
    for streak in [64_u32, 65, 127] {
        assert_eq!(skip_jump(streak), 2, "streak {streak}");
    }
    assert_eq!(skip_jump(128), 3);
    // The largest jump the investigation measured on incompressible input.
    assert_eq!(skip_jump(2_816), 45);
    assert_eq!(skip_jump(u32::MAX), 67_108_864);
}

#[test]
fn a_block_boundary_leaves_no_position_out_of_the_chain() -> Result<(), Error> {
    // The counter lives on the chain path only; the FAST path inserts inline and keeps
    // no bookkeeping for a boundary to rewind.
    let mut parser = Parser::chain();
    for size in [4_096usize, 1, 3, 65_536, 700] {
        let _ = parser.parse(&noise(size, SEED ^ 0x51))?;
        assert!(
            parser.inserted() <= BoundedHashChain::insertable_end(parser.window().len()),
            "a position the chain could not hash was recorded as inserted"
        );
    }
    Ok(())
}

#[test]
fn the_history_is_one_window_of_bytes_the_next_block_can_reach() -> Result<(), Error> {
    let window = WINDOW as usize;
    // Block lengths that divide the buffer evenly and ones that do not, because a slide
    // reached from a part-filled buffer is the case that loses history and a slide reached
    // from a full one is not.
    for block in [window, 40_000, 1_019] {
        let mut parser = Parser::new();
        let mut fed = 0usize;
        let mut slides = 0usize;
        // Fed until the slide has been reached twice, and no further: the input the check
        // needs is what it takes to slide, not a fixed volume.
        while slides < 2 && fed < CAPACITY.saturating_mul(4) {
            let promised = parser.history().to_vec();
            let before = parser.window().len();
            let _ = parser.parse(&noise(block, SEED ^ 0x41))?;
            fed = fed.saturating_add(block);
            if parser.window().len() < before.saturating_add(block) {
                slides = slides.saturating_add(1);
            }

            let history = parser.history();
            assert!(
                history.len() <= window,
                "a history of {} bytes at block {block}",
                history.len()
            );
            assert_eq!(
                history.len(),
                fed.min(window),
                "the history is short of the window at block {block}"
            );

            // Every byte the history named before this call is still in the buffer
            // directly before the block just parsed, which is where a match at that
            // block's first position reaches for it. A slide that dropped a promised byte
            // shortens or moves this run.
            let start = parser.window().len().saturating_sub(block);
            let kept = parser
                .window()
                .get(start.saturating_sub(promised.len())..start);
            assert_eq!(
                kept,
                Some(promised.as_slice()),
                "a slide dropped history the next block was told it could reach, at block \
                 {block}"
            );
        }
        assert_eq!(slides, 2, "block {block} did not reach the slide twice");
    }
    Ok(())
}

fn parse_all(data: &[u8]) -> Result<Vec<Sequences>, Error> {
    let mut parser = Parser::new();
    let mut out = Vec::new();
    for chunk in data.chunks(MAX_PARSE_BYTES) {
        out.push(parser.parse(chunk)?.clone());
    }
    Ok(out)
}

#[test]
fn the_chain_path_round_trips_and_is_deterministic() -> Result<(), Error> {
    // The reference stays available and tested, but its bytes are not FAST bytes: the
    // skip changes the history a later search reads, so this asserts the reference
    // against itself and against the decoded content, never against the FAST path.
    for shape in SHAPES {
        let data = shape.content(100_000);
        let mut parser = Parser::chain();
        let out = round_trip(&mut parser, &data, MAX_PARSE_BYTES)?;
        assert_eq!(out, data, "chain round trip on {}", shape.name());
        let first = parse_all_chain(&data)?;
        let second = parse_all_chain(&data)?;
        assert_eq!(first, second, "chain determinism on {}", shape.name());
    }
    Ok(())
}

fn parse_all_chain(data: &[u8]) -> Result<Vec<Sequences>, Error> {
    let mut parser = Parser::chain();
    let mut out = Vec::new();
    for chunk in data.chunks(MAX_PARSE_BYTES) {
        out.push(parser.parse(chunk)?.clone());
    }
    Ok(out)
}

#[test]
fn an_exact_repeat_at_the_window_edge_stays_valid() -> Result<(), Error> {
    let window = WINDOW as usize;
    let head = noise(32_768, SEED ^ 0x61);
    let mut first = head.clone();
    first.extend_from_slice(&noise(window.saturating_sub(head.len()), SEED ^ 0x62));
    assert_eq!(first.len(), window);
    let mut parser = Parser::new();
    let _ = parser.parse(&first)?.clone();
    // The second block repeats the first exactly at the farthest distance the window
    // admits. The FAST table prefers near candidates, so the match structure fragments;
    // what is pinned here is validity, not coverage.
    let second = parser.parse(&first)?.clone();
    for step in second.steps() {
        if let Some(found) = step.matched {
            assert!(found.distance >= 1, "a match reported itself");
            assert!(found.distance <= WINDOW, "a match reached past the window");
        }
    }
    assert_eq!(
        second.decoded_len(),
        u64::try_from(window).unwrap_or(0),
        "the far repeat decoded short"
    );
    let mut out = vec![0_u8; window];
    expand(&second, &first, &mut out)?;
    assert_eq!(out, first, "the far repeat did not expand to its content");
    Ok(())
}

#[test]
fn tiny_and_rle_blocks_parse_to_their_content() -> Result<(), Error> {
    for len in [1_usize, 2, 3, 4, 7, 63, 64] {
        for byte in [0_u8, 0xA5] {
            let content = vec![byte; len];
            let mut parser = Parser::new();
            let sequences = parser.parse(&content)?.clone();
            assert_eq!(
                sequences.decoded_len(),
                u64::try_from(len).unwrap_or(0),
                "decoded length at {len}"
            );
            let mut out = vec![0_u8; len];
            expand(&sequences, &[], &mut out)?;
            assert_eq!(out, content, "tiny RLE content at {len}");
        }
        let mixed: Vec<u8> = (0_usize..len)
            .map(|at| {
                u8::try_from(at.saturating_mul(31).checked_rem(251).unwrap_or(0)).unwrap_or(0)
            })
            .collect();
        let mut parser = Parser::new();
        let sequences = parser.parse(&mixed)?.clone();
        let mut out = vec![0_u8; len];
        expand(&sequences, &[], &mut out)?;
        assert_eq!(out, mixed, "tiny mixed content at {len}");
    }
    Ok(())
}

#[test]
fn fast_parse_round_trips_encoder_workload_classes() -> Result<(), Error> {
    // The shapes the FAST ratio trade was measured over, in the parser's own terms:
    // structured text at several entropies, sparse content, and short tokens.
    let phrase = b"the quick brown fox jumps over the lazy dog. ";
    let text: Vec<u8> = (0_usize..65_536_usize)
        .map(|at| {
            phrase
                .get(at.checked_rem(phrase.len()).unwrap_or(0))
                .copied()
                .unwrap_or(b' ')
        })
        .collect();
    let json: Vec<u8> = (0_usize..65_536_usize)
        .map(|at| {
            b"{\"key\": 0123456789, \"v\": true} "
                .get(at.checked_rem(32).unwrap_or(0))
                .copied()
                .unwrap_or(b' ')
        })
        .collect();
    let sparse: Vec<u8> = (0_usize..65_536_usize)
        .map(|at| {
            if at.checked_rem(64) == Some(0) {
                let mixed = (u64::try_from(at).unwrap_or(0))
                    .wrapping_mul(0x9E37_79B9_7F4A_7C15)
                    .rotate_left(29)
                    .wrapping_mul(0xBF58_476D_1CE4_E5B9);
                entroq::entropy::low_byte(mixed >> 33)
            } else {
                0
            }
        })
        .collect();
    for (name, data) in [("text", text), ("json", json), ("sparse", sparse)] {
        let mut parser = Parser::new();
        let out = round_trip(&mut parser, &data, MAX_PARSE_BYTES)?;
        assert_eq!(out, data, "{name}");
    }
    Ok(())
}

#[test]
fn the_balanced_parser_round_trips_and_is_deterministic() -> Result<(), Error> {
    for shape in SHAPES {
        let data = shape.content(100_000);
        let mut parser = Parser::balanced();
        let out = round_trip(&mut parser, &data, MAX_PARSE_BYTES)?;
        assert_eq!(out, data, "balanced round trip on {}", shape.name());
        let first = parse_all_balanced(&data)?;
        let second = parse_all_balanced(&data)?;
        assert_eq!(first, second, "balanced determinism on {}", shape.name());
    }
    Ok(())
}

fn parse_all_balanced(data: &[u8]) -> Result<Vec<Sequences>, Error> {
    let mut parser = Parser::balanced();
    let mut out = Vec::new();
    for chunk in data.chunks(MAX_PARSE_BYTES) {
        out.push(parser.parse(chunk)?.clone());
    }
    Ok(out)
}

#[test]
fn the_balanced_parser_keeps_block_continuity() -> Result<(), Error> {
    let data = Shape::Repetitive.content(100_000);
    let mut whole = Parser::balanced();
    let mut split = Parser::balanced();
    let mut first_out = Vec::new();
    for chunk in data.chunks(MAX_PARSE_BYTES) {
        first_out.push(whole.parse(chunk)?.clone());
    }
    let mut second_out = Vec::new();
    for chunk in data.chunks(1_019) {
        let _ = split.parse(chunk)?.clone();
    }
    split.reset();
    for chunk in data.chunks(MAX_PARSE_BYTES) {
        second_out.push(split.parse(chunk)?.clone());
    }
    assert_eq!(
        first_out, second_out,
        "a reset balanced parser is a fresh one"
    );
    let _ = second_out;
    Ok(())
}

#[test]
fn every_kernel_produces_the_same_balanced_sequences() -> Result<(), Error> {
    for shape in SHAPES {
        let data = shape.content(40_000);
        let mut expected: Option<Vec<Sequences>> = None;
        for kernel in ALL {
            let mut parser = Parser::balanced_with_kernel(kernel);
            assert_eq!(parser.kernel(), kernel);
            let mut produced = Vec::new();
            for chunk in data.chunks(MAX_PARSE_BYTES) {
                produced.push(parser.parse(chunk)?.clone());
            }
            match expected {
                None => expected = Some(produced),
                Some(ref first) => {
                    assert_eq!(&produced, first, "{} on {}", kernel.name(), shape.name());
                }
            }
        }
    }
    Ok(())
}

#[test]
fn a_balanced_block_boundary_leaves_no_position_out_of_the_chain() -> Result<(), Error> {
    let mut parser = Parser::balanced();
    for size in [4_096usize, 1, 3, 65_536, 700] {
        let _ = parser.parse(&noise(size, SEED ^ 0x51))?;
        assert!(
            parser.inserted() <= BoundedHashChain::insertable_end(parser.window().len()),
            "a position the chain could not hash was recorded as inserted"
        );
    }
    Ok(())
}

/// One lazy delay the oracle recorded.
#[allow(dead_code)]
struct Delay {
    at: usize,
    cur_len: u32,
    cur_dist: u32,
    nxt_len: u32,
    nxt_dist: u32,
}

/// An independent length-lazy depth-1 parse over `data`, recording every delay.
///
/// Uses the same chain API and the same strict-longer rule as the production
/// BALANCED parse, but written separately so the production parse is checked
/// against it rather than against itself.
#[allow(clippy::arithmetic_side_effects)]
fn lazy_oracle(data: &[u8]) -> Result<(Sequences, Vec<Delay>), Error> {
    let mut chain = BoundedHashChain::with_depth(CHAIN_DEPTH_BALANCED);
    let mut sequences = Sequences::with_capacity(data.len(), data.len() / 4 + 1);
    let mut delays: Vec<Delay> = Vec::new();
    let end = data.len();
    let mut run_start = 0usize;
    let mut at = 0usize;
    let mut inserted = 0usize;
    let mut delayed = false;
    let mut pending: Option<Option<Match>> = None;
    while at < end {
        while inserted < at {
            chain.insert(data, inserted);
            inserted = inserted.saturating_add(1);
        }
        let current = pending
            .take()
            .unwrap_or_else(|| chain.peek(data, at).matched);
        let Some(current) = current.filter(|found| found.length >= MIN_MATCH) else {
            chain.insert(data, at);
            inserted = at.saturating_add(1);
            at = at.saturating_add(1);
            delayed = false;
            continue;
        };
        if delayed {
            let run = data.get(run_start..at).ok_or(Error::InvalidParameter)?;
            sequences.push(run, Some(current))?;
            chain.insert(data, at);
            inserted = at.saturating_add(1);
            let take_end = at
                .saturating_add(usize::try_from(current.length).unwrap_or(usize::MAX))
                .min(end);
            while inserted < take_end {
                chain.insert(data, inserted);
                inserted = inserted.saturating_add(1);
            }
            at = take_end;
            run_start = at;
            delayed = false;
            continue;
        }
        chain.insert(data, at);
        inserted = at.saturating_add(1);
        let next = if at.saturating_add(1) < end {
            chain.peek(data, at.saturating_add(1)).matched
        } else {
            None
        };
        let Some(next) = next.filter(|found| found.length >= MIN_MATCH) else {
            let run = data.get(run_start..at).ok_or(Error::InvalidParameter)?;
            sequences.push(run, Some(current))?;
            let take_end = at
                .saturating_add(usize::try_from(current.length).unwrap_or(usize::MAX))
                .min(end);
            while inserted < take_end {
                chain.insert(data, inserted);
                inserted = inserted.saturating_add(1);
            }
            at = take_end;
            run_start = at;
            delayed = false;
            continue;
        };
        if next.length > current.length {
            assert!(!delayed, "a second consecutive delay at {at}");
            delays.push(Delay {
                at,
                cur_len: current.length,
                cur_dist: current.distance,
                nxt_len: next.length,
                nxt_dist: next.distance,
            });
            at = at.saturating_add(1);
            pending = Some(Some(next));
            delayed = true;
            continue;
        }
        let run = data.get(run_start..at).ok_or(Error::InvalidParameter)?;
        sequences.push(run, Some(current))?;
        let take_end = at
            .saturating_add(usize::try_from(current.length).unwrap_or(usize::MAX))
            .min(end);
        while inserted < take_end {
            chain.insert(data, inserted);
            inserted = inserted.saturating_add(1);
        }
        at = take_end;
        run_start = at;
        delayed = false;
    }
    if run_start < end {
        let run = data.get(run_start..end).ok_or(Error::InvalidParameter)?;
        sequences.push(run, None)?;
    }
    Ok((sequences, delays))
}

#[test]
fn the_lazy_oracle_never_delays_twice_on_adversarial_shapes() -> Result<(), Error> {
    let mut shapes: Vec<(&str, Vec<u8>)> = vec![
        ("zeros", vec![0u8; 16_384]),
        ("one-byte", vec![0x5Au8; 16_384]),
        (
            "periodic",
            (0..16_384usize)
                .map(|at| entroq::entropy::low_byte(u64::try_from(at % 7).unwrap_or(0)))
                .collect(),
        ),
        ("noise", noise(16_384, SEED)),
    ];
    shapes.push(("repetitive", Shape::Repetitive.content(16_384)));
    for (name, data) in shapes {
        let (sequences, delays) = lazy_oracle(&data)?;
        for delay in &delays {
            assert!(
                delay.nxt_len > delay.cur_len,
                "{name} delayed at {} on equal lengths",
                delay.at
            );
        }
        let mut parser = Parser::balanced_without_skip();
        let parsed = parser.parse(&data)?.clone();
        assert_eq!(
            parsed, sequences,
            "{name} production parse differs from the oracle"
        );
        let mut out = vec![0u8; data.len()];
        expand(&parsed, &[], &mut out)?;
        assert_eq!(out, data, "{name} did not expand to its content");
    }
    Ok(())
}

#[test]
fn equal_lengths_never_delay() -> Result<(), Error> {
    let mut equal = vec![b'.'; 64];
    for start in [0usize, 8, 16] {
        for (offset, byte) in b"WXYZAB".iter().enumerate() {
            if let Some(slot) = equal.get_mut(start.saturating_add(offset)) {
                *slot = *byte;
            }
        }
    }
    let (_, delays) = lazy_oracle(&equal)?;
    for delay in &delays {
        assert!(
            delay.nxt_len > delay.cur_len,
            "equal lengths delayed at {}",
            delay.at
        );
    }
    let mut parser = Parser::balanced_without_skip();
    let parsed = parser.parse(&equal)?.clone();
    let (oracle_sequences, _) = lazy_oracle(&equal)?;
    assert_eq!(parsed, oracle_sequences, "equal-length tie diverged");
    Ok(())
}

/// Parses `data` in one call per block through the production skip path.
fn parse_all_balanced_skip(data: &[u8]) -> Result<Vec<Sequences>, Error> {
    let mut parser = Parser::balanced();
    let mut out = Vec::new();
    for chunk in data.chunks(MAX_PARSE_BYTES) {
        out.push(parser.parse(chunk)?.clone());
    }
    Ok(out)
}

#[test]
fn the_skip_parse_is_deterministic_and_expands_to_its_content() -> Result<(), Error> {
    for (name, data) in [
        ("zeros", vec![0u8; 65_536]),
        ("one-byte", vec![0x5Au8; 65_536]),
        (
            "periodic",
            (0..65_536usize)
                .map(|at| entroq::entropy::low_byte(u64::try_from(at % 7).unwrap_or(0)))
                .collect::<Vec<u8>>(),
        ),
        ("noise", noise(65_536, SEED)),
        ("repetitive", Shape::Repetitive.content(65_536)),
        ("incompressible", Shape::Incompressible.content(65_536)),
    ] {
        let first = parse_all_balanced_skip(&data)?;
        let second = parse_all_balanced_skip(&data)?;
        assert_eq!(first, second, "{name}: the skip parse is not deterministic");
        let mut out = vec![0u8; data.len()];
        let mut done = 0_usize;
        for sequences in &first {
            let len = usize::try_from(sequences.decoded_len()).unwrap_or(usize::MAX);
            let (history, room) = out.split_at_mut(done);
            let target = room.get_mut(..len).ok_or(Error::InvalidParameter)?;
            expand(sequences, history, target)?;
            done = done.saturating_add(len);
        }
        assert_eq!(
            out, data,
            "{name}: the skip parse did not expand to its content"
        );
    }
    Ok(())
}
