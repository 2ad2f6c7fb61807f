use entroq::decode::{Moved, Payload};
use entroq::format::{BlockHeader, Error};

#[test]
fn a_raw_payload_copies_what_both_buffers_allow() -> Result<(), Error> {
    let block = BlockHeader::raw(true, 8)?;
    let mut payload = Payload::new(block);
    assert_eq!(payload.stored_remaining(), 8);

    let mut out = [0_u8; 8];
    let first = out.get_mut(..3).ok_or(Error::InvalidParameter)?;
    assert_eq!(
        payload.step(&[1, 2, 3, 4, 5], first)?,
        Moved {
            consumed: 3,
            produced: 3
        }
    );
    assert!(!payload.is_done());
    assert_eq!(payload.stored_remaining(), 5);

    let rest = out.get_mut(3..).ok_or(Error::InvalidParameter)?;
    assert_eq!(
        payload.step(&[4, 5, 6, 7, 8], rest)?,
        Moved {
            consumed: 5,
            produced: 5
        }
    );
    assert!(payload.is_done());
    assert_eq!(out, [1, 2, 3, 4, 5, 6, 7, 8]);
    Ok(())
}

#[test]
fn a_raw_payload_moves_nothing_when_a_buffer_is_empty() -> Result<(), Error> {
    let block = BlockHeader::raw(true, 4)?;
    let mut payload = Payload::new(block);
    let mut out = [0_u8; 4];
    assert_eq!(
        payload.step(&[], &mut out)?,
        Moved {
            consumed: 0,
            produced: 0
        }
    );
    assert_eq!(
        payload.step(&[1, 2, 3, 4], &mut [])?,
        Moved {
            consumed: 0,
            produced: 0
        }
    );
    assert!(!payload.is_done());
    Ok(())
}

#[test]
fn an_rle_payload_takes_one_stored_byte_and_then_writes_only_output() -> Result<(), Error> {
    let block = BlockHeader::rle(true, 5)?;
    let mut payload = Payload::new(block);
    assert_eq!(payload.stored_remaining(), 1);

    let mut out = [0_u8; 5];
    assert_eq!(
        payload.step(&[0xAB], &mut out)?,
        Moved {
            consumed: 1,
            produced: 0
        }
    );
    assert_eq!(payload.stored_remaining(), 0);

    let first = out.get_mut(..2).ok_or(Error::InvalidParameter)?;
    assert_eq!(
        payload.step(&[], first)?,
        Moved {
            consumed: 0,
            produced: 2
        }
    );
    assert!(!payload.is_done());

    let rest = out.get_mut(2..).ok_or(Error::InvalidParameter)?;
    assert_eq!(
        payload.step(&[], rest)?,
        Moved {
            consumed: 0,
            produced: 3
        }
    );
    assert!(payload.is_done());
    assert_eq!(out, [0xAB; 5]);
    Ok(())
}

#[test]
fn a_payload_never_writes_past_the_output_it_was_given() -> Result<(), Error> {
    let block = BlockHeader::rle(true, 1_000)?;
    let mut payload = Payload::new(block);
    let mut out = [0_u8; 16];
    let moved = payload.step(&[0x11], &mut out)?;
    assert_eq!(moved.consumed, 1);
    assert_eq!(moved.produced, 0);
    let mut written = 0_usize;
    while !payload.is_done() {
        let moved = payload.step(&[], &mut out)?;
        assert!(moved.produced <= out.len());
        written = written.saturating_add(moved.produced);
    }
    assert_eq!(written, 1_000);
    Ok(())
}
