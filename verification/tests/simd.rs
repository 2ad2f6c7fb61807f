use entroq::simd::{ALL, Kernel, common_prefix, scalar};

/// The comparisons the generated set must reach.
///
/// One case is one triple of two positions and a cap, and every kernel answers it, so the
/// count is the comparisons each kernel made against the oracle and not the calls the set
/// made in total.
const DIFFERENTIAL_CASES: usize = 1_000_000;

/// The alignments the constructed set places a position at.
const ALIGNMENTS: usize = 16;

/// The lengths the constructed set builds a match of.
const LENGTHS: usize = 257;

/// The seed the generated set is drawn from.
///
/// A constant rather than a clock reading, so a failure reproduces from the test name
/// alone.
const SEED: u64 = 0x5EED_0000_0000_0004;

struct Source(u64);

impl Source {
    fn next(&mut self) -> u64 {
        self.0 = self
            .0
            .wrapping_mul(0x5851_F42D_4C95_7F2D)
            .wrapping_add(0x1405_7B7E_F767_814F);
        self.0
    }

    fn byte(&mut self) -> u8 {
        entroq::entropy::low_byte(self.next() >> 24)
    }

    fn below(&mut self, bound: usize) -> usize {
        if bound == 0 {
            0
        } else {
            usize::try_from(self.next() >> 16)
                .unwrap_or(0)
                .checked_rem(bound)
                .unwrap_or(0)
        }
    }
}

/// One constructed case: a buffer, two positions, and the prefix they share.
///
/// The two positions do not overlap, `later` ends the buffer exactly, and the byte after
/// the shared prefix differs, so the answer is the constructed length whenever the cap
/// admits it.
fn constructed(
    length: usize,
    align_earlier: usize,
    align_later: usize,
) -> (Vec<u8>, usize, usize) {
    let earlier = align_earlier;
    let mut later = earlier.saturating_add(length).saturating_add(1);
    while later.checked_rem(ALIGNMENTS).unwrap_or(0) != align_later {
        later = later.saturating_add(1);
    }
    let len = later.saturating_add(length).saturating_add(1);
    let mut source = Source(SEED ^ (length as u64) ^ ((align_later as u64) << 32));
    let mut data: Vec<u8> = (0..len).map(|_| source.byte()).collect();
    for step in 0..length {
        let byte = data.get(later.saturating_add(step)).copied().unwrap_or(0);
        if let Some(slot) = data.get_mut(earlier.saturating_add(step)) {
            *slot = byte;
        }
    }
    let after = data.get(later.saturating_add(length)).copied().unwrap_or(0);
    if let Some(slot) = data.get_mut(earlier.saturating_add(length)) {
        *slot = after ^ 0xFF;
    }
    (data, earlier, later)
}

/// The buffers the generated set draws positions from.
///
/// Four characters, so the generated set exercises an immediate mismatch, a periodic
/// input that keeps the wide step firing, text-like content, and the input that drives
/// every comparison to the cap.
fn buffers() -> Vec<Vec<u8>> {
    let mut source = Source(SEED);
    let random: Vec<u8> = (0..8192).map(|_| source.byte()).collect();
    let periodic: Vec<u8> = (0..8192u32)
        .map(|at| entroq::entropy::low_byte(u64::from(at.checked_rem(16).unwrap_or(0))))
        .collect();
    let textlike: Vec<u8> = (0..8192)
        .map(|_| {
            let pick = source.below(8);
            b"the quick brown fox jumps over "
                .get(pick.saturating_mul(3).checked_rem(31).unwrap_or(0))
                .copied()
                .unwrap_or(b' ')
        })
        .collect();
    let zeros = vec![0u8; 8192];
    vec![random, periodic, textlike, zeros]
}

#[test]
fn every_kernel_agrees_with_the_oracle_on_every_length_and_alignment() {
    let mut cases = 0usize;
    for length in 0..LENGTHS {
        for align_earlier in 0..ALIGNMENTS {
            for align_later in 0..ALIGNMENTS {
                let (data, earlier, later) = constructed(length, align_earlier, align_later);
                for cap in [length, length.saturating_add(1), 256] {
                    let expected = scalar(&data, earlier, later, cap);
                    assert_eq!(expected, length.min(cap), "length {length} cap {cap}");
                    for kernel in ALL {
                        assert_eq!(
                            common_prefix(kernel, &data, earlier, later, cap),
                            expected,
                            "{} at length {length}, alignments {align_earlier} and \
                             {align_later}, cap {cap}",
                            kernel.name()
                        );
                        cases = cases.saturating_add(1);
                    }
                }
            }
        }
    }
    assert_eq!(cases, LENGTHS * ALIGNMENTS * ALIGNMENTS * 3 * ALL.len());
}

#[test]
fn every_kernel_agrees_with_the_oracle_over_a_million_generated_comparisons() {
    let buffers = buffers();
    let mut source = Source(SEED ^ 0xA5A5_A5A5);
    let mut cases = 0usize;
    while cases < DIFFERENTIAL_CASES {
        let data = buffers
            .get(source.below(buffers.len()))
            .map_or(&[][..], Vec::as_slice);
        let later = source.below(data.len());
        let earlier = if later == 0 { 0 } else { source.below(later) };
        let cap = source.below(257);
        let expected = scalar(data, earlier, later, cap);
        for kernel in ALL {
            assert_eq!(
                common_prefix(kernel, data, earlier, later, cap),
                expected,
                "{} at {earlier} and {later}, cap {cap}",
                kernel.name()
            );
        }
        cases = cases.saturating_add(1);
    }
    assert_eq!(cases, DIFFERENTIAL_CASES);
}

#[test]
fn a_cap_past_the_buffer_reads_nothing_past_it() {
    let data = vec![7u8; 64];
    for kernel in ALL {
        assert_eq!(common_prefix(kernel, &data, 0, 32, usize::MAX), 32);
        assert_eq!(common_prefix(kernel, &data, 0, 64, 16), 0);
        assert_eq!(common_prefix(kernel, &[], 0, 0, 16), 0);
    }
}

#[test]
fn an_overlapping_comparison_reports_the_self_referential_length() {
    let data = vec![9u8; 512];
    for kernel in ALL {
        assert_eq!(common_prefix(kernel, &data, 0, 1, 256), 256);
        assert_eq!(common_prefix(kernel, &data, 250, 251, 256), 256);
    }
}

#[test]
fn the_selected_kernel_is_the_one_this_build_holds() {
    assert!(ALL.contains(&entroq::simd::SELECTED));
    assert_eq!(Kernel::Scalar.widest_load_bytes(), 1);
    assert_eq!(entroq::simd::OVER_READ_BYTES, 0);
}
