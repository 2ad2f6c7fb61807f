use entroq::entropy::rans::{
    Declared, TABLE_LOG_MAX, TABLE_LOG_MIN, Table, entry, entry_cumulative, entry_frequency,
    entry_symbol, table_bytes_for,
};
use entroq::entropy::bits::{BitReader, BitWriter};
use entroq::format::{Corruption, Error};

fn counts_from(shape: &[u64]) -> Vec<u64> {
    shape.to_vec()
}

#[test]
fn a_packed_entry_carries_its_three_fields_exactly() {
    for &(symbol, frequency, cumulative) in &[
        (0u32, 1u32, 0u32),
        (255, 4_096, 0),
        (17, 2_048, 2_048),
        (200, 1, 4_095),
    ] {
        let packed = entry(symbol, frequency, cumulative);
        assert_eq!(u32::from(entry_symbol(packed)), symbol);
        assert_eq!(entry_frequency(packed), frequency);
        assert_eq!(entry_cumulative(packed), cumulative);
    }
}

#[test]
fn the_table_log_rule_holds_its_declared_range() -> Result<(), Error> {
    assert_eq!(Table::log_for(1, 1)?, TABLE_LOG_MIN);
    assert_eq!(Table::log_for(40, 8)?, 6);
    assert_eq!(Table::log_for(65_536, 200)?, TABLE_LOG_MAX);
    assert_eq!(Table::log_for(8, 200)?, 8);
    Ok(())
}

#[test]
fn a_normalized_table_sums_to_its_total_and_keeps_every_symbol() -> Result<(), Error> {
    let shapes: [Vec<u64>; 4] = [
        counts_from(&[1, 1, 1, 1, 1, 1, 1, 1]),
        counts_from(&[100_000, 1, 1, 1, 1, 1, 1, 1]),
        counts_from(&[1, 0, 0, 0, 0, 0, 0, 9_999]),
        counts_from(&[3, 5, 7, 11, 13, 17, 19, 23]),
    ];
    for shape in &shapes {
        let table = Table::normalize(shape, 8)?;
        let mut writer = BitWriter::new();
        table.describe(&mut writer);
        let description = writer.finish();
        let rebuilt = Declared::parse(&mut BitReader::over(&description), 8)?.validate()?;
        assert_eq!(rebuilt.table(), &table);
        assert_eq!(rebuilt.table_bytes(), table_bytes_for(table.log()));
    }
    Ok(())
}

#[test]
fn a_table_log_outside_the_declared_range_is_refused_before_a_width_depends_on_it() {
    for log in [0u64, 1, 4, 13, 31] {
        let mut writer = BitWriter::new();
        writer.push(log, 5);
        writer.push(0, 13);
        let bits = writer.finish();
        assert_eq!(
            Declared::parse(&mut BitReader::over(&bits), 8),
            Err(Error::CorruptData(Corruption::TableLog)),
            "a log of {log} is outside the declared range"
        );
    }
}

#[test]
fn frequencies_that_do_not_sum_to_the_total_are_refused() -> Result<(), Error> {
    let table = Table::normalize(&counts_from(&[3, 5, 7, 11]), 4)?;
    let mut writer = BitWriter::new();
    table.describe(&mut writer);
    let description = writer.finish();
    let declared = Declared::parse(&mut BitReader::over(&description), 4)?;

    let mut short = declared.clone();
    short.freq = vec![1, 1, 1, 1];
    assert_eq!(
        short.validate(),
        Err(Error::CorruptData(Corruption::FrequencySum))
    );

    let mut empty = declared;
    empty.freq = vec![0, 0, 0, 0];
    assert_eq!(
        empty.validate(),
        Err(Error::CorruptData(Corruption::FrequencySum))
    );
    Ok(())
}

#[test]
fn a_state_count_the_coder_does_not_ship_is_refused() -> Result<(), Error> {
    let table = Table::normalize(&counts_from(&[3, 5, 7, 11]), 4)?;
    let encoder = table.encoder()?;
    for states in [0usize, 3, 5, 8] {
        assert_eq!(
            encoder.write(&[0, 1, 2], states),
            Err(Error::InvalidParameter)
        );
    }
    Ok(())
}
