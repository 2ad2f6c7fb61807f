use entroq::entropy::bits::{BitReader, BitWriter, MAX_WIDTH, mask};
use entroq::format::{Corruption, Error};

/// The widths a round trip is checked at: the boundaries, the byte crossings, the widest
/// push the accumulator holds whole, and the widths above it that the writer splits.
const WIDTHS: [u32; 14] = [0, 1, 2, 3, 7, 8, 9, 15, 16, 17, 32, MAX_WIDTH, 58, 64];

fn value_for(width: u32, seed: u64) -> u64 {
    seed.wrapping_mul(0x9E37_79B9_7F4A_7C15) & mask(width)
}

#[test]
fn a_mask_covers_its_width_and_nothing_above_it() {
    assert_eq!(mask(0), 0);
    assert_eq!(mask(1), 1);
    assert_eq!(mask(8), 0xFF);
    assert_eq!(mask(63), u64::MAX >> 1);
    assert_eq!(mask(64), u64::MAX);
    assert_eq!(mask(200), u64::MAX);
}

#[test]
fn every_width_round_trips_at_every_bit_offset() {
    for lead in 0..8u32 {
        for &width in &WIDTHS {
            let mut writer = BitWriter::new();
            writer.push(mask(lead), lead);
            let mut expected = Vec::new();
            for step in 0..16u64 {
                let value = value_for(width, step);
                writer.push(value, width);
                expected.push(value);
            }
            let buf = writer.finish();
            assert_eq!(buf.bits(), u64::from(lead) + u64::from(width) * 16);

            let mut reader = BitReader::over(&buf);
            assert_eq!(reader.take(lead), Ok(mask(lead)));
            for value in expected {
                assert_eq!(reader.take(width), Ok(value));
            }
            assert_eq!(reader.consumed(), buf.bits());
            assert!(!reader.overrun());
        }
    }
}

#[test]
fn a_peek_does_not_consume_and_a_skip_does() {
    let mut writer = BitWriter::new();
    writer.push(0b1011_0010, 8);
    let buf = writer.finish();

    let mut reader = BitReader::over(&buf);
    assert_eq!(reader.peek(4), 0b1011);
    assert_eq!(reader.peek(4), 0b1011);
    assert_eq!(reader.consumed(), 0);
    reader.skip(4);
    assert_eq!(reader.peek(4), 0b0010);
    assert_eq!(reader.consumed(), 4);
}

#[test]
fn a_peek_past_the_end_reads_zeros_and_a_take_refuses() {
    let mut writer = BitWriter::new();
    writer.push(0b111, 3);
    let buf = writer.finish();

    let mut reader = BitReader::over(&buf);
    assert_eq!(reader.peek(8), 0b1110_0000);
    assert_eq!(
        reader.take(4),
        Err(Error::TruncatedInput { needed: 1 }),
        "a field wider than the stream is truncation, not zeros"
    );
    assert_eq!(reader.take(3), Ok(0b111));
    assert_eq!(reader.take(0), Ok(0));
}

#[test]
fn an_overrun_is_reported_when_the_decode_ends() {
    let mut writer = BitWriter::new();
    writer.push(0b1010, 4);
    let buf = writer.finish();

    let mut reader = BitReader::over(&buf);
    reader.skip(4);
    assert_eq!(reader.finish(), Ok(()));
    reader.skip(1);
    assert!(reader.overrun());
    assert_eq!(
        reader.finish(),
        Err(Error::CorruptData(Corruption::CodedStream))
    );
}

#[test]
fn an_empty_stream_carries_no_bits_and_no_bytes() {
    let buf = BitWriter::new().finish();
    assert!(buf.is_empty());
    assert_eq!(buf.bits(), 0);
    assert_eq!(buf.bytes(), &[] as &[u8]);
    let mut reader = BitReader::over(&buf);
    assert_eq!(reader.peek(16), 0);
    assert!(reader.take(1).is_err());
    assert_eq!(reader.finish(), Ok(()));
}

#[test]
fn a_width_above_what_the_accumulator_holds_is_written_in_pieces() {
    // The writer has no precondition, so a width past the accumulator is split rather than
    // refused in one build and accepted in another.
    let mut writer = BitWriter::new();
    writer.push(u64::MAX, 64);
    writer.push(0x0123_4567_89AB_CDEF, 100);
    let buf = writer.finish();
    assert_eq!(buf.bits(), 164);

    let mut reader = BitReader::over(&buf);
    assert_eq!(reader.take(64), Ok(u64::MAX));
    assert_eq!(reader.take(36), Ok(0), "a width past 64 leads with zeros");
    assert_eq!(reader.take(64), Ok(0x0123_4567_89AB_CDEF));
    assert!(!reader.overrun());
}

#[test]
fn the_final_byte_is_padded_with_zeros() {
    let mut writer = BitWriter::new();
    writer.push(0b1, 1);
    let buf = writer.finish();
    assert_eq!(buf.bits(), 1);
    assert_eq!(buf.bytes(), &[0b1000_0000]);
}
