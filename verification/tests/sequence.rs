use entroq::sequence::{
    Alphabet, Bucket, MAX_LITERAL_RUN, MAX_MATCH_LENGTH, MIN_MATCH, Match, Sequences, Step, WINDOW, bucket_low,
    bucket_width, narrow_symbol,
};
use entroq::entropy::{MAX_ALPHABET_SIZE, bits::mask};
use entroq::format::{Corruption, Error};

/// The pair the decoder reads from a table is the pair the general methods compute, for
/// every symbol of every alphabet.
///
/// This is what keeps the table a form of the decomposition rather than a second
/// definition of it. The terminal names no value and is checked to be refused as one.
#[test]
fn every_bucket_is_what_the_general_methods_compute() -> Result<(), Error> {
    for alphabet in Alphabet::ALL {
        for index in 0..alphabet.size() {
            let symbol = narrow_symbol(index).ok_or(Error::InvalidParameter)?;
            if alphabet.terminal() == Some(symbol) {
                assert_eq!(
                    alphabet.suffix_width(symbol),
                    Err(Error::CorruptData(Corruption::TerminalSymbol)),
                    "{alphabet:?} {symbol}"
                );
                continue;
            }
            let bucket = alphabet.bucket(index);
            assert_eq!(
                bucket.width,
                alphabet.suffix_width(symbol)?,
                "{alphabet:?} {symbol} width"
            );
            assert_eq!(
                u64::from(bucket.low),
                alphabet.reconstruct(symbol, 0)?,
                "{alphabet:?} {symbol} low"
            );
            assert!(
                u64::from(bucket.low) >= alphabet.coded_min(),
                "{alphabet:?} {symbol} below the domain"
            );
        }
    }
    Ok(())
}

/// Each decode table holds one entry per symbol that names a value, in symbol order, and
/// its length is derived from the alphabet rather than written down.
#[test]
fn every_decode_table_covers_the_symbols_that_name_a_value() {
    let tables: [(Alphabet, Vec<Bucket>); 3] = [
        (Alphabet::LiteralRun, Alphabet::LiteralRun.buckets()),
        (Alphabet::MatchLength, Alphabet::MatchLength.buckets()),
        (Alphabet::MatchDistance, Alphabet::MatchDistance.buckets()),
    ];
    for (alphabet, table) in tables {
        let reserved = u32::from(alphabet.carries_terminal());
        assert_eq!(
            u32::try_from(table.len()).unwrap_or(u32::MAX),
            alphabet.size().saturating_sub(reserved),
            "{alphabet:?} table length"
        );
        for (index, bucket) in table.iter().enumerate() {
            let at = u32::try_from(index).unwrap_or(u32::MAX);
            assert_eq!(*bucket, alphabet.bucket(at), "{alphabet:?} {index}");
        }

        // The terminal is the alphabet's last symbol, so the table stops exactly below it
        // and a terminal symbol finds no entry.
        if let Some(terminal) = alphabet.terminal() {
            assert_eq!(usize::from(terminal), table.len(), "{alphabet:?} terminal");
        }
    }
}

/// Reused storage holds every invariant a finished vector holds.
#[test]
fn storage_built_once_refuses_what_the_finished_vector_refuses() -> Result<(), Error> {
    let mut sequences = Sequences::with_capacity(64, 8);
    sequences.push(
        b"abcd",
        Some(Match {
            length: MIN_MATCH,
            distance: 1,
        }),
    )?;
    assert_eq!(sequences.decoded_len(), 8);
    assert_eq!(sequences.literals(), b"abcd");

    // A step with no match is the last step, and nothing may follow it.
    sequences.push(b"ef", None)?;
    assert_eq!(sequences.push(b"gh", None), Err(Error::InvalidParameter));
    assert_eq!(sequences.decoded_len(), 10);

    // Every value is checked against the domain its alphabet declares.
    let mut fresh = Sequences::with_capacity(64, 8);
    for outside in [
        Match {
            length: MIN_MATCH.saturating_sub(1),
            distance: 1,
        },
        Match {
            length: MAX_MATCH_LENGTH.saturating_add(1),
            distance: 1,
        },
        Match {
            length: MIN_MATCH,
            distance: 0,
        },
        Match {
            length: MIN_MATCH,
            distance: WINDOW.saturating_add(1),
        },
    ] {
        assert_eq!(
            fresh.push(b"", Some(outside)),
            Err(Error::InvalidParameter),
            "{outside:?}"
        );
    }
    let long = vec![0u8; MAX_LITERAL_RUN as usize + 1];
    assert_eq!(fresh.push(&long, None), Err(Error::InvalidParameter));

    // What a refused push left behind is nothing at all.
    assert!(fresh.steps().is_empty());
    assert!(fresh.literals().is_empty());
    Ok(())
}

/// Clearing keeps the storage, which is what makes a producer allocation-free per block.
#[test]
fn clearing_empties_the_sequences_and_keeps_their_storage() -> Result<(), Error> {
    let mut sequences = Sequences::with_capacity(4_096, 64);
    let literals = sequences.literals().as_ptr();
    for _ in 0..4 {
        sequences.clear();
        assert_eq!(sequences.decoded_len(), 0);
        assert!(sequences.steps().is_empty());
        sequences.push(
            b"ab",
            Some(Match {
                length: MIN_MATCH,
                distance: 2,
            }),
        )?;
        assert_eq!(sequences.decoded_len(), 6);
    }
    assert!(
        std::ptr::eq(sequences.literals().as_ptr(), literals),
        "clearing reallocated the literal storage"
    );

    // A refilled vector is the vector the validating constructor would have accepted.
    let rebuilt = Sequences::new(sequences.literals().to_vec(), sequences.steps().to_vec())?;
    assert_eq!(rebuilt, sequences);
    Ok(())
}

/// The sizes the decomposition gives the four alphabets, and the terminal's index.
///
/// The figures a block header and the format specification both state, so they are asserted
/// here rather than derived at every reader.
#[test]
fn the_four_alphabets_hold_the_symbols_the_decomposition_gives_them() {
    assert_eq!(Alphabet::LiteralByte.size(), 256);
    assert_eq!(Alphabet::LiteralRun.size(), 60);
    assert_eq!(Alphabet::MatchLength.size(), 28);
    assert_eq!(Alphabet::MatchDistance.size(), 61);

    assert_eq!(Alphabet::MatchLength.terminal(), Some(27));
    for alphabet in Alphabet::ALL {
        assert!(alphabet.size() <= MAX_ALPHABET_SIZE);
        if !alphabet.carries_terminal() {
            assert_eq!(alphabet.terminal(), None);
        }
    }

    // One symbol below the buckets on the distance alphabet, for the offset slot, and none
    // anywhere else.
    assert_eq!(Alphabet::MatchDistance.lead_symbols(), 1);
    assert_eq!(Alphabet::LiteralRun.lead_symbols(), 0);
    assert_eq!(Alphabet::MatchLength.lead_symbols(), 0);
    assert_eq!(Alphabet::LiteralByte.lead_symbols(), 0);
}

/// The bijection, walked value for value over every alphabet's whole declared domain.
///
/// The alphabets are small enough to walk whole, and walking them is what keeps the
/// decomposition a rule rather than a table nobody checked.
#[test]
fn every_coded_value_maps_to_one_symbol_and_one_suffix_and_back() -> Result<(), Error> {
    for alphabet in Alphabet::ALL {
        let mut previous_low = None;
        for coded in alphabet.coded_min()..=alphabet.coded_max() {
            let split = alphabet.split(coded)?;
            assert!(
                u32::from(split.symbol) < alphabet.size(),
                "{alphabet:?} split {coded} onto a symbol it does not hold"
            );
            assert_eq!(
                alphabet.suffix_width(split.symbol)?,
                split.width,
                "{alphabet:?} symbol {} declares one width and split wrote another",
                split.symbol
            );
            assert!(split.suffix <= mask(split.width));
            assert_eq!(
                alphabet.reconstruct(split.symbol, split.suffix)?,
                coded,
                "{alphabet:?} did not reconstruct coded value {coded}"
            );

            // The intervals are consecutive: a symbol's low is above the previous symbol's,
            // and the suffix is the position inside it.
            let low = coded.saturating_sub(split.suffix);
            if let Some(seen) = previous_low {
                if seen != low {
                    assert!(
                        low > seen,
                        "{alphabet:?} symbol intervals are not increasing"
                    );
                }
            }
            previous_low = Some(low);

            if alphabet.lead_symbols() > 0 && coded <= u64::from(alphabet.lead_symbols()) {
                // A reserved coded value names a symbol and no raw value. The offset slot
                // holds what it names, and this alphabet does not.
                assert_eq!(alphabet.raw_value(coded), None);
            } else {
                let raw = alphabet
                    .raw_value(coded)
                    .ok_or(Error::CorruptData(Corruption::SequenceSuffix))?;
                assert_eq!(alphabet.coded_value(raw), Some(coded));
                assert!(raw >= alphabet.min_raw() && raw <= alphabet.max_raw());
            }
        }
    }
    Ok(())
}

/// Every symbol of every alphabet owns an interval, and the intervals partition the domain.
#[test]
fn the_symbols_partition_the_domain_they_cover() -> Result<(), Error> {
    for alphabet in Alphabet::ALL {
        let mut expected = alphabet.coded_min();
        for symbol in 0..alphabet.size() {
            let symbol = u16::try_from(symbol).map_err(|_| Error::InvalidParameter)?;
            if alphabet.terminal() == Some(symbol) {
                assert_eq!(
                    alphabet.suffix_width(symbol),
                    Err(Error::CorruptData(Corruption::TerminalSymbol))
                );
                continue;
            }
            let width = alphabet.suffix_width(symbol)?;
            assert_eq!(alphabet.reconstruct(symbol, 0)?, expected);
            expected = expected
                .saturating_add(mask(width))
                .saturating_add(1)
                .min(alphabet.coded_max().saturating_add(1));
        }
        assert_eq!(
            expected,
            alphabet.coded_max().saturating_add(1),
            "{alphabet:?} leaves values its symbols do not cover"
        );
    }
    Ok(())
}

#[test]
fn a_symbol_at_or_above_its_alphabet_is_refused() {
    for alphabet in Alphabet::ALL {
        for symbol in [
            alphabet.size(),
            alphabet.size().saturating_add(1),
            300,
            65_535,
        ] {
            let Ok(symbol) = u16::try_from(symbol) else {
                continue;
            };
            assert_eq!(
                alphabet.suffix_width(symbol),
                Err(Error::CorruptData(Corruption::SequenceSymbol)),
                "{alphabet:?} admitted symbol {symbol}"
            );
            assert_eq!(
                alphabet.reconstruct(symbol, 0),
                Err(Error::CorruptData(Corruption::SequenceSymbol))
            );
        }
    }
}

/// The last symbol of a bucketed alphabet owns an interval the domain ends inside, so its
/// declared share of that interval is narrower than its width. A suffix above the share is
/// refused here, which is the only place that can see it.
#[test]
fn a_suffix_the_symbol_did_not_declare_is_refused() -> Result<(), Error> {
    for alphabet in [
        Alphabet::LiteralRun,
        Alphabet::MatchLength,
        Alphabet::MatchDistance,
    ] {
        let last = alphabet.split(alphabet.coded_max())?;
        assert!(
            last.width > 0,
            "{alphabet:?} ends on a symbol with no suffix, so this clause proves nothing"
        );
        assert!(
            last.suffix < mask(last.width),
            "{alphabet:?} ends exactly on its last symbol's interval"
        );
        for suffix in [
            last.suffix.saturating_add(1),
            mask(last.width),
            mask(last.width).saturating_add(1),
            u64::MAX,
        ] {
            assert_eq!(
                alphabet.reconstruct(last.symbol, suffix),
                Err(Error::CorruptData(Corruption::SequenceSuffix)),
                "{alphabet:?} admitted suffix {suffix} on its last symbol"
            );
        }
    }
    Ok(())
}

#[test]
fn a_value_outside_the_declared_domain_is_not_representable() {
    for alphabet in Alphabet::ALL {
        assert_eq!(
            alphabet.coded_value(alphabet.max_raw().saturating_add(1)),
            None
        );
        assert_eq!(
            alphabet.split(alphabet.coded_max().saturating_add(1)),
            Err(Error::InvalidParameter)
        );
        if alphabet.coded_min() > 0 {
            assert_eq!(alphabet.split(0), Err(Error::InvalidParameter));
        }
    }
    assert_eq!(
        Alphabet::MatchLength.coded_value(u64::from(MIN_MATCH) - 1),
        None
    );
    assert_eq!(Alphabet::MatchDistance.coded_value(0), None);
}

#[test]
fn the_bucket_arithmetic_holds_at_its_boundaries() {
    // The degenerate octaves: one symbol per value, no suffix.
    for index in 0..7u32 {
        assert_eq!(bucket_width(index), 0);
        assert_eq!(bucket_low(index), u64::from(index) + 1);
    }
    // The first cut octave, four symbols of two values each.
    assert_eq!((bucket_width(7), bucket_low(7)), (1, 8));
    assert_eq!((bucket_width(10), bucket_low(10)), (1, 14));
    assert_eq!((bucket_width(11), bucket_low(11)), (2, 16));
    // The octave the window sits at.
    assert_eq!((bucket_width(59), bucket_low(59)), (14, 65_536));
}

#[test]
fn sequences_refuse_what_the_representation_cannot_express() {
    let run = Step {
        run: 1,
        matched: None,
    };
    assert!(Sequences::new(vec![0], vec![run]).is_ok());
    assert_eq!(
        Sequences::new(vec![0, 0], vec![run]),
        Err(Error::InvalidParameter),
        "the runs must sum to the literal bytes"
    );
    assert_eq!(
        Sequences::new(vec![0], vec![run, run]),
        Err(Error::InvalidParameter),
        "a step with no match is the last step"
    );
    for matched in [
        entroq::sequence::Match {
            length: MIN_MATCH - 1,
            distance: 1,
        },
        entroq::sequence::Match {
            length: MAX_MATCH_LENGTH + 1,
            distance: 1,
        },
        entroq::sequence::Match {
            length: MIN_MATCH,
            distance: 0,
        },
        entroq::sequence::Match {
            length: MIN_MATCH,
            distance: WINDOW + 1,
        },
    ] {
        assert_eq!(
            Sequences::new(
                Vec::new(),
                vec![Step {
                    run: 0,
                    matched: Some(matched),
                }]
            ),
            Err(Error::InvalidParameter),
            "{matched:?} is outside the domain the representation declares"
        );
    }
    assert_eq!(
        Sequences::new(
            Vec::new(),
            vec![Step {
                run: MAX_LITERAL_RUN + 1,
                matched: None,
            }]
        ),
        Err(Error::InvalidParameter)
    );
}
