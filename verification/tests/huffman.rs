use entroq::entropy::huffman::canonical::canonical;
use entroq::entropy::huffman::tokens::LITERAL_BITS;
use entroq::entropy::huffman::{Code, Declared, LENGTH_LIMIT, table_bytes_for};
use entroq::entropy::bits::{BitReader, BitWriter};
use entroq::entropy::shift_right_wide;
use entroq::format::{Corruption, Error};

fn declared(alphabet_size: u32, lengths: &[u32], single: Option<u16>) -> Declared {
    Declared {
        alphabet_size,
        lengths: lengths.to_vec(),
        single,
    }
}

/// The Kraft sum of a set of lengths, in units of `2^-64`.
fn kraft(lengths: &[u32]) -> u128 {
    lengths
        .iter()
        .filter(|&&length| length > 0)
        .map(|&length| shift_right_wide(entroq::entropy::huffman::KRAFT_UNIT, length))
        .sum()
}

#[test]
fn a_built_code_is_complete_and_holds_its_limit() -> Result<(), Error> {
    for limit in 4..=LENGTH_LIMIT {
        for skew in 1..=6u32 {
            let counts: Vec<u64> = (0..16u32)
                .map(|symbol| u64::from(1u32 << (skew * (16 - symbol) % 13)))
                .collect();
            let code = Code::build(&counts, 16, limit)?;
            assert!(
                code.max_length() <= limit,
                "the limit holds by construction"
            );
            assert_eq!(kraft(code.lengths()), entroq::entropy::huffman::KRAFT_UNIT);
            assert_eq!(code.table_bytes(), table_bytes_for(code.max_length()));
            let _ = canonical(code.lengths())?;
        }
    }
    Ok(())
}

#[test]
fn a_code_length_above_the_limit_is_refused_before_a_table_is_built() {
    // The literal token is four bits wide and the limit is fifteen, so this description is
    // not expressible on the wire. The rule holds at the validation boundary, which every
    // description crosses whatever structure it arrived from.
    let mut lengths = vec![1u32; 2];
    lengths.push(LENGTH_LIMIT + 1);
    assert_eq!(
        declared(3, &lengths, None).validate(),
        Err(Error::CorruptData(Corruption::CodeLength))
    );
}

#[test]
fn a_length_count_that_contradicts_its_alphabet_is_refused() {
    assert_eq!(
        declared(8, &[1, 1], None).validate(),
        Err(Error::CorruptData(Corruption::LengthCount)),
        "fewer lengths than the alphabet declares"
    );
    assert_eq!(
        declared(2, &[1, 1, 2, 2], None).validate(),
        Err(Error::CorruptData(Corruption::LengthCount)),
        "more lengths than the alphabet declares"
    );
    assert_eq!(
        declared(4, &[3, 0, 0, 0], None).validate(),
        Err(Error::CorruptData(Corruption::LengthCount)),
        "a multi-symbol code that declares one symbol"
    );
}

#[test]
fn lengths_that_are_not_a_complete_prefix_code_are_refused() {
    assert_eq!(
        declared(4, &[1, 2, 0, 0], None).validate(),
        Err(Error::CorruptData(Corruption::KraftSum)),
        "an incomplete code leaves holes a hostile stream reaches"
    );
    assert_eq!(
        declared(4, &[1, 1, 1, 0], None).validate(),
        Err(Error::CorruptData(Corruption::KraftSum)),
        "an over-subscribed code gives two symbols one prefix"
    );
}

#[test]
fn a_single_symbol_code_outside_its_alphabet_is_refused() -> Result<(), Error> {
    // Wire-reachable: the symbol field is as wide as the alphabet needs, so it carries
    // values the alphabet does not hold.
    let mut writer = BitWriter::new();
    writer.push(1, 1);
    writer.push(63, 6);
    let bits = writer.finish();
    let parsed = Declared::parse(&mut BitReader::over(&bits), 60)?;
    assert_eq!(
        parsed.validate(),
        Err(Error::CorruptData(Corruption::SymbolAlphabet))
    );
    Ok(())
}

#[test]
fn a_description_token_that_no_position_admits_is_refused() {
    // A repeat with nothing before it to repeat.
    let mut writer = BitWriter::new();
    writer.push(0, 1);
    writer.push(0b10, 2);
    writer.push(0, 7);
    let bits = writer.finish();
    assert_eq!(
        Declared::parse(&mut BitReader::over(&bits), 8),
        Err(Error::CorruptData(Corruption::DescriptionToken))
    );

    // A zero run that passes the end of the alphabet.
    let mut writer = BitWriter::new();
    writer.push(0, 1);
    writer.push(0b11, 2);
    writer.push(255, 8);
    let bits = writer.finish();
    assert_eq!(
        Declared::parse(&mut BitReader::over(&bits), 8),
        Err(Error::CorruptData(Corruption::DescriptionToken))
    );

    // A repeat that passes the end of the alphabet.
    let mut writer = BitWriter::new();
    writer.push(0, 1);
    writer.push(0, 1);
    writer.push(1, LITERAL_BITS);
    writer.push(0b10, 2);
    writer.push(127, 7);
    let bits = writer.finish();
    assert_eq!(
        Declared::parse(&mut BitReader::over(&bits), 8),
        Err(Error::CorruptData(Corruption::DescriptionToken))
    );
}
