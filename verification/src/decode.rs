//! Owns the decoder engine: the path from a validated stream back to the original bytes.
//!
//! This module does not own field validation, which the format module performs once at its
//! boundary, or the streaming state machine that drives it.
//!
//! A payload is expanded in steps. Each step reads only the input it was given and writes
//! only the output it was given, so a block larger than either buffer costs more steps and
//! never more memory. Nothing here allocates.

use vstd::prelude::*;
use crate::entropy::least;
use crate::format::{BlockHeader, BlockType, Error};

verus! {

/// What one expansion step moved.
#[derive(Clone, Copy, Debug, PartialEq, Eq)]
pub struct Moved {
    /// The stored bytes the step read.
    pub consumed: usize,
    /// The decoded bytes the step wrote.
    pub produced: usize,
}

/// The payload of one stored block, expanded across as many steps as the caller's buffers
/// require.
#[derive(Clone, Copy, Debug, PartialEq, Eq)]
pub enum Payload {
    /// The stored bytes are the content.
    Raw {
        /// The stored bytes still to copy.
        remaining: u32,
    },
    /// One stored byte, repeated to the size the header declared.
    Rle {
        /// The repeated byte, once it has arrived.
        value: Option<u8>,
        /// The decoded bytes still to write.
        remaining: u32,
    },
}

impl Payload {
    /// The payload of a header, before any of it has arrived.
    pub open spec fn of(header: BlockHeader) -> Payload {
        if header.kind == BlockType::Rle {
            Payload::Rle { value: None, remaining: header.size }
        } else {
            Payload::Raw { remaining: header.size }
        }
    }

    /// The decoded bytes still to write.
    pub open spec fn remaining(self) -> u32 {
        match self {
            Payload::Raw { remaining } => remaining,
            Payload::Rle { remaining, .. } => remaining,
        }
    }

    /// The stored bytes still to read.
    pub open spec fn stored(self) -> nat {
        match self {
            Payload::Raw { remaining } => remaining as nat,
            Payload::Rle { value, .. } => if value is None {
                1
            } else {
                0
            },
        }
    }

    /// The content still to write, where the stored bytes still to read are the first of
    /// `stored`.
    pub open spec fn owed(self, stored: Seq<u8>) -> Seq<u8> {
        match self {
            Payload::Raw { remaining } => stored.take(remaining as int),
            Payload::Rle { value, remaining } => Seq::new(
                remaining as nat,
                |i: int|
                    match value {
                        Some(byte) => byte,
                        None => stored[0],
                    },
            ),
        }
    }

    /// What one step over `input` and an output of `room` bytes leaves, moves, and writes.
    pub open spec fn stepped(self, input: Seq<u8>, room: nat) -> (Payload, Moved, Seq<u8>) {
        match self {
            Payload::Raw { remaining } => {
                let take = least(least(remaining as nat, input.len()), room);
                (
                    Payload::Raw { remaining: (remaining - take) as u32 },
                    Moved { consumed: take as usize, produced: take as usize },
                    input.take(take as int),
                )
            },
            Payload::Rle { value: Some(byte), remaining } => {
                let take = least(remaining as nat, room);
                (
                    Payload::Rle { value: Some(byte), remaining: (remaining - take) as u32 },
                    Moved { consumed: 0, produced: take as usize },
                    Seq::new(take, |i: int| byte),
                )
            },
            Payload::Rle { value: None, remaining } => if input.len() == 0 {
                (self, Moved { consumed: 0, produced: 0 }, Seq::empty())
            } else {
                (
                    Payload::Rle { value: Some(input[0]), remaining },
                    Moved { consumed: 1, produced: 0 },
                    Seq::empty(),
                )
            },
        }
    }

    /// The payload a block header describes, before any of it has arrived.
    #[must_use]
    pub fn new(header: BlockHeader) -> (payload: Self)
        requires
            header.kind != BlockType::Compressed,
        ensures
            payload == Self::of(header),
    {
        match header.kind {
            BlockType::Rle => Payload::Rle { value: None, remaining: header.size },
            _ => Payload::Raw { remaining: header.size },
        }
    }

    /// Whether every decoded byte of this payload has been written.
    #[must_use]
    pub fn is_done(self) -> (done: bool)
        ensures
            done == (self.remaining() == 0),
    {
        match self {
            Payload::Raw { remaining } => remaining == 0,
            Payload::Rle { remaining, .. } => remaining == 0,
        }
    }

    /// The stored bytes this payload still needs from the stream.
    #[must_use]
    pub fn stored_remaining(self) -> (bytes: usize)
        ensures
            bytes == self.stored(),
    {
        match self {
            Payload::Raw { remaining } => remaining as usize,
            Payload::Rle { value, .. } => if value.is_none() {
                1
            } else {
                0
            },
        }
    }

    /// Moves as much of this payload as the two buffers allow.
    ///
    /// A step that moves nothing means one of the buffers is empty, not that the payload is
    /// finished. `is_done` answers that. The caller's buffers cannot make a step fail.
    pub fn step(&mut self, input: &[u8], out: &mut [u8]) -> (moved: Result<Moved, Error>)
        ensures
            ({
                let (left, told, written) = old(self).stepped(input@, old(out)@.len());
                &&& moved == Ok::<Moved, Error>(told)
                &&& *final(self) == left
                &&& final(out)@ == written + old(out)@.skip(written.len() as int)
            }),
    {
        let ghost before = out@;
        match *self {
            Payload::Raw { remaining } => {
                let mut take: usize = remaining as usize;
                if input.len() < take {
                    take = input.len();
                }
                if out.len() < take {
                    take = out.len();
                }
                let mut at: usize = 0;
                while at < take
                    invariant
                        at <= take <= input@.len(),
                        take <= before.len(),
                        out@.len() == before.len(),
                        out@ =~= input@.take(at as int) + before.skip(at as int),
                    decreases take - at,
                {
                    out[at] = input[at];
                    at = at + 1;
                }
                *self = Payload::Raw { remaining: remaining - take as u32 };
                Ok(Moved { consumed: take, produced: take })
            },
            Payload::Rle { value: None, remaining } => {
                proof {
                    assert(before.skip(0) =~= before);
                    assert(Seq::<u8>::empty() + before =~= before);
                }
                if input.len() == 0 {
                    return Ok(Moved { consumed: 0, produced: 0 });
                }
                *self = Payload::Rle { value: Some(input[0]), remaining };
                Ok(Moved { consumed: 1, produced: 0 })
            },
            Payload::Rle { value: Some(byte), remaining } => {
                let mut take: usize = remaining as usize;
                if out.len() < take {
                    take = out.len();
                }
                let mut at: usize = 0;
                while at < take
                    invariant
                        at <= take <= before.len(),
                        out@.len() == before.len(),
                        out@ =~= Seq::new(at as nat, |i: int| byte) + before.skip(at as int),
                    decreases take - at,
                {
                    out[at] = byte;
                    at = at + 1;
                }
                *self = Payload::Rle { value: Some(byte), remaining: remaining - take as u32 };
                Ok(Moved { consumed: 0, produced: take })
            },
        }
    }
}

/// A payload before its first step owes the content its header and its stored bytes describe.
pub proof fn law_payload_owes_the_content(header: BlockHeader, stored: Seq<u8>)
    requires
        header.kind != BlockType::Compressed,
        stored.len() == header.stored(),
    ensures
        Payload::of(header).owed(stored) == header.content(stored),
{
    assert(Payload::of(header).owed(stored) =~= header.content(stored));
}

/// A step writes the start of what the payload owed and leaves it owing the rest, however the
/// stored bytes and the output were cut.
pub proof fn law_step_writes_what_is_owed(
    payload: Payload,
    input: Seq<u8>,
    more: Seq<u8>,
    room: nat,
)
    requires
        input.len() <= usize::MAX,
        room <= usize::MAX,
        payload.stored() <= input.len() + more.len(),
    ensures
        ({
            let (left, moved, written) = payload.stepped(input, room);
            let stored = input + more;
            &&& moved.consumed <= input.len()
            &&& moved.produced == written.len()
            &&& written.len() <= room
            &&& payload.owed(stored) == written + left.owed(stored.skip(moved.consumed as int))
            &&& left.stored() == payload.stored() - moved.consumed
        }),
{
    let (left, moved, written) = payload.stepped(input, room);
    let stored = input + more;
    assert(payload.owed(stored) =~= written + left.owed(stored.skip(moved.consumed as int)));
}

/// A step moves something wherever there is something to move and room to move it.
pub proof fn law_step_moves(payload: Payload, input: Seq<u8>, room: nat)
    requires
        input.len() <= usize::MAX,
        room <= usize::MAX,
        payload.remaining() > 0,
        room > 0,
        payload.stored() > 0 ==> input.len() > 0,
    ensures
        ({
            let (_, moved, _) = payload.stepped(input, room);
            moved.consumed + moved.produced > 0
        }),
{
}

/// A step moves all it can. It ends where the content is whole, where the output is full, or where
/// the bytes that arrived are read; a repeated byte is taken as soon as it arrives, and written
/// from the next step on without reading any more.
pub proof fn law_a_step_moves_all_it_can(payload: Payload, input: Seq<u8>, room: nat)
    requires
        input.len() <= usize::MAX,
        room <= usize::MAX,
    ensures
        ({
            let (left, moved, written) = payload.stepped(input, room);
            match payload {
                Payload::Raw { remaining } => {
                    &&& moved.consumed == moved.produced
                    &&& left.remaining() + moved.produced == remaining
                    &&& left.remaining() == 0 || moved.produced == room || moved.consumed
                        == input.len()
                },
                Payload::Rle { value: Some(byte), remaining } => {
                    &&& moved.consumed == 0
                    &&& left.remaining() + moved.produced == remaining
                    &&& left.remaining() == 0 || moved.produced == room
                    &&& forall|i: int| 0 <= i < written.len() ==> #[trigger] written[i] == byte
                },
                Payload::Rle { value: None, remaining } => {
                    &&& moved.produced == 0
                    &&& left.remaining() == remaining
                    &&& moved.consumed == 1 || (moved.consumed == 0 && input.len() == 0)
                },
            }
        }),
{
}

/// What steps over the stored bytes leave, read and write, where each step is given the bytes that have
/// arrived, up to its first bound, and an output of its second.
pub open spec fn steps_written(payload: Payload, stored: Seq<u8>, cuts: Seq<(usize, usize)>) -> (
    Payload,
    nat,
    Seq<u8>,
)
    decreases cuts.len(),
{
    if cuts.len() == 0 {
        (payload, 0, Seq::empty())
    } else {
        let (arrived, room) = cuts[0];
        let input = stored.take(least(arrived as nat, stored.len()) as int);
        let (left, moved, written) = payload.stepped(input, room as nat);
        let (end, read, more) = steps_written(
            left,
            stored.skip(moved.consumed as int),
            cuts.skip(1),
        );
        (end, moved.consumed as nat + read, written + more)
    }
}

/// Every chunking writes the same bytes: whatever each step is given of the stored bytes and of
/// the output, the steps together write the start of the content, and exactly the content once
/// the payload is done, which has then read exactly its stored bytes.
pub proof fn law_every_chunking_writes_the_content(
    header: BlockHeader,
    stored: Seq<u8>,
    cuts: Seq<(usize, usize)>,
)
    requires
        header.kind != BlockType::Compressed,
        stored.len() == header.stored(),
    ensures
        ({
            let (end, read, written) = steps_written(Payload::of(header), stored, cuts);
            &&& written.len() + end.remaining() == header.size
            &&& read + end.stored() == stored.len()
            &&& written == header.content(stored).take(written.len() as int)
            &&& end.remaining() == 0 ==> written == header.content(stored)
            &&& end.remaining() == 0 && header.size > 0 ==> read == stored.len()
        }),
{
    let payload = Payload::of(header);
    let (end, read, written) = steps_written(payload, stored, cuts);
    law_payload_owes_the_content(header, stored);
    lemma_steps_write_what_is_owed(payload, stored, cuts);
    assert(header.content(stored).take(header.size as int) =~= header.content(stored));
}

/// Steps write the start of what a payload owes.
proof fn lemma_steps_write_what_is_owed(
    payload: Payload,
    stored: Seq<u8>,
    cuts: Seq<(usize, usize)>,
)
    requires
        payload.stored() <= stored.len(),
    ensures
        ({
            let (end, read, written) = steps_written(payload, stored, cuts);
            &&& read + end.stored() == payload.stored()
            &&& payload.remaining() > 0 && end.stored() > 0 ==> end.remaining() > 0
            &&& written.len() + end.remaining() == payload.remaining()
            &&& written == payload.owed(stored).take(written.len() as int)
        }),
    decreases cuts.len(),
{
    let owed = payload.owed(stored);
    if cuts.len() == 0 {
        assert(owed.take(0) =~= Seq::empty());
    } else {
        let (arrived, room) = cuts[0];
        let split = least(arrived as nat, stored.len()) as int;
        let input = stored.take(split);
        let (left, moved, written) = payload.stepped(input, room as nat);
        assert(input + stored.skip(split) =~= stored);
        law_step_writes_what_is_owed(payload, input, stored.skip(split), room as nat);
        let rest = stored.skip(moved.consumed as int);
        lemma_steps_write_what_is_owed(left, rest, cuts.skip(1));
        let (end, read, more) = steps_written(left, rest, cuts.skip(1));
        let total = (written + more).len() as int;
        assert(written + more =~= owed.take(total));
    }
}

} // verus!
