use entroq::matchfinder::{BoundedHashChain, EMPTY, HEAD_ENTRIES, LINK_ENTRIES, SEARCH_DEPTH, STATE_BYTES};
use entroq::sequence::{MAX_MATCH_LENGTH, MIN_MATCH, Match, WINDOW};
use entroq::simd::{ALL, Kernel};

const SEED: u64 = 0x5EED_0000_0000_0005;

struct Source(u64);

impl Source {
    fn byte(&mut self) -> u8 {
        self.0 = self
            .0
            .wrapping_mul(0x5851_F42D_4C95_7F2D)
            .wrapping_add(0x1405_7B7E_F767_814F);
        entroq::entropy::low_byte(self.0 >> 24)
    }
}

fn noise(len: usize, seed: u64) -> Vec<u8> {
    let mut source = Source(seed);
    (0..len).map(|_| source.byte()).collect()
}

/// The inputs that drive an unbounded chain to its cap: every position shares one bucket,
/// or a small set of them.
fn adversarial(len: usize) -> Vec<(&'static str, Vec<u8>)> {
    vec![
        ("zeros", vec![0u8; len]),
        ("one-byte", vec![0x5Au8; len]),
        (
            "periodic",
            (0..len)
                .map(|at| entroq::entropy::low_byte(u64::try_from(at % 7).unwrap_or(0)))
                .collect(),
        ),
    ]
}

/// The bytes a match names, read the way a decoder reconstructs them.
fn copied(data: &[u8], at: usize, matched: Match) -> Vec<u8> {
    let mut out = Vec::with_capacity(matched.length as usize);
    let start = at.saturating_sub(matched.distance as usize);
    for step in 0..matched.length as usize {
        let from = start.saturating_add(step);
        let byte = data
            .get(from)
            .copied()
            .or_else(|| out.get(from.saturating_sub(at)).copied())
            .unwrap_or(0);
        out.push(byte);
    }
    out
}

#[test]
fn a_search_compares_at_most_the_search_depth() {
    let mut peak = 0u32;
    for (name, data) in adversarial(16_384) {
        for kernel in ALL {
            let mut finder = BoundedHashChain::with_kernel(kernel);
            for at in 0..data.len() {
                let found = finder.step(&data, at);
                assert!(
                    found.candidates <= SEARCH_DEPTH,
                    "{name} on {} compared {} candidates at {at}",
                    kernel.name(),
                    found.candidates
                );
                peak = peak.max(found.candidates);
            }
        }
    }
    assert_eq!(peak, SEARCH_DEPTH, "no shape reached the bound");
}

#[test]
fn a_reported_match_is_inside_every_domain_and_names_the_bytes_it_claims() {
    let mut shapes = adversarial(8_192);
    shapes.push(("noise", noise(8_192, SEED)));
    shapes.push((
        "runs",
        (0..8_192usize)
            .map(|at| entroq::entropy::low_byte(u64::try_from(at / 37 % 11).unwrap_or(0)))
            .collect(),
    ));
    for (name, data) in shapes {
        let mut finder = BoundedHashChain::new();
        for at in 0..data.len() {
            let Some(matched) = finder.step(&data, at).matched else {
                continue;
            };
            assert!(matched.length >= MIN_MATCH, "{name} at {at}");
            assert!(matched.length <= MAX_MATCH_LENGTH, "{name} at {at}");
            assert!(matched.distance >= 1, "{name} at {at}");
            assert!(matched.distance <= WINDOW, "{name} at {at}");
            assert!(matched.distance as usize <= at, "{name} at {at}");
            let end = at.saturating_add(matched.length as usize);
            assert!(end <= data.len(), "{name} at {at}");
            assert_eq!(
                copied(&data, at, matched),
                data.get(at..end).unwrap_or_default(),
                "{name} at {at}"
            );
        }
    }
}

#[test]
fn the_tie_break_takes_the_longest_and_then_the_nearest() {
    // Three occurrences of one four-byte token, at 0, 8 and 16. The bytes after each
    // occurrence decide which candidate the search at 16 keeps.
    let mut equal = vec![b'.'; 64];
    for start in [0usize, 8, 16] {
        for (offset, byte) in b"WXYZAB".iter().enumerate() {
            if let Some(slot) = equal.get_mut(start.saturating_add(offset)) {
                *slot = *byte;
            }
        }
    }
    let mut finder = BoundedHashChain::new();
    for at in 0..16usize {
        let _ = finder.step(&equal, at);
    }
    let found = finder.step(&equal, 16);
    assert_eq!(
        found.matched,
        Some(Match {
            length: 8,
            distance: 8
        }),
        "an equal-length tie goes to the nearer candidate"
    );

    let mut longer = equal.clone();
    // The farther candidate keeps agreeing for one byte more than the nearer one.
    if let Some(slot) = longer.get_mut(14) {
        *slot = b'!';
    }
    if let Some(slot) = longer.get_mut(6) {
        *slot = b'C';
    }
    if let Some(slot) = longer.get_mut(22) {
        *slot = b'C';
    }
    let mut finder = BoundedHashChain::new();
    for at in 0..16usize {
        let _ = finder.step(&longer, at);
    }
    let found = finder.step(&longer, 16);
    assert_eq!(
        found.matched,
        Some(Match {
            length: 8,
            distance: 16
        }),
        "a longer match beats a nearer one"
    );
}

#[test]
fn the_window_bounds_a_candidate() {
    let window = WINDOW as usize;
    for extra in [0usize, 1] {
        let later = window.saturating_add(extra);
        let mut data = noise(later.saturating_add(64), SEED ^ extra as u64);
        for offset in 0..16usize {
            let byte = data.get(offset).copied().unwrap_or(0);
            if let Some(slot) = data.get_mut(later.saturating_add(offset)) {
                *slot = byte;
            }
        }
        let mut finder = BoundedHashChain::new();
        finder.insert(&data, 0);
        let found = finder.step(&data, later);
        if extra == 0 {
            assert_eq!(
                found.matched.map(|matched| matched.distance),
                Some(WINDOW),
                "a candidate exactly one window back is reachable"
            );
        } else {
            assert_eq!(
                found.matched, None,
                "a candidate past the window is not reachable"
            );
            assert_eq!(found.candidates, 0, "and it is not even compared");
        }
    }
}

#[test]
fn a_slide_moves_every_position_by_one_window() {
    let window = WINDOW as usize;
    let mut data = noise(window.saturating_mul(2), SEED ^ 0x11);
    for offset in 0..16usize {
        let byte = data
            .get(window.saturating_add(offset))
            .copied()
            .unwrap_or(0);
        if let Some(slot) = data.get_mut(window.saturating_add(100).saturating_add(offset)) {
            *slot = byte;
        }
    }
    let mut finder = BoundedHashChain::new();
    finder.insert(&data, window);
    finder.slide();
    let slid = data.get(window..).unwrap_or_default();
    let found = finder.step(slid, 100);
    assert_eq!(
        found.matched.map(|matched| matched.distance),
        Some(100),
        "the position the slide moved is found at its new index"
    );
}

#[test]
fn a_reset_discards_every_position() {
    let data = vec![3u8; 1_024];
    let mut finder = BoundedHashChain::new();
    for at in 0..64usize {
        let _ = finder.step(&data, at);
    }
    assert!(finder.step(&data, 64).matched.is_some());
    finder.reset();
    assert!(finder.head().iter().all(|entry| *entry == EMPTY));
    assert!(finder.link().iter().all(|entry| *entry == EMPTY));
    assert_eq!(finder.step(&data, 64).matched, None);
}

#[test]
fn the_declared_state_does_not_move_with_the_input() {
    assert_eq!(STATE_BYTES, 327_680);
    assert_eq!(HEAD_ENTRIES.saturating_mul(4), 65_536);
    assert_eq!(LINK_ENTRIES.saturating_mul(4), 262_144);
    let finder = BoundedHashChain::with_kernel(Kernel::Scalar);
    assert_eq!(finder.kernel(), Kernel::Scalar);
    assert_eq!(
        finder
            .head()
            .len()
            .saturating_add(finder.link().len())
            .saturating_mul(4),
        BoundedHashChain::state_bytes()
    );
}

#[test]
fn every_kernel_reports_the_same_matches() {
    let mut shapes = adversarial(4_096);
    shapes.push(("noise", noise(4_096, SEED ^ 0x22)));
    for (name, data) in shapes {
        let mut finders: Vec<BoundedHashChain> = ALL
            .iter()
            .map(|&k| BoundedHashChain::with_kernel(k))
            .collect();
        for at in 0..data.len() {
            let mut expected = None;
            for (index, finder) in finders.iter_mut().enumerate() {
                let found = finder.step(&data, at);
                if index == 0 {
                    expected = Some(found);
                } else {
                    assert_eq!(Some(found), expected, "{name} at {at}");
                }
            }
        }
    }
}
