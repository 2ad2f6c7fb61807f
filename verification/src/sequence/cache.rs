//! Owns the offset cache: the one slot a decoder carries across the sequences of a region, and
//! the rule that decides what the repeat code names.
//!
//! This module does not own the match-distance alphabet, the stream the code is coded on, or
//! when a region boundary resets the slot.
//!
//! ```text
//! coded value 1        names the distance the slot holds
//! coded value above 1  names a distance, one below the coded value
//! ```
//!
//! The slot updates on every match, whether or not that match named it, so the distance stream
//! is a function of every match before it inside a region. One slot, move to front, four bytes
//! of decoder state, no declared initial history, and no shifted view: a literal run of zero
//! does not change what a code means.

use vstd::prelude::*;
use crate::format::{Corruption, Error};

verus! {

/// The coded value of the match-distance alphabet that names the slot.
pub const REPEAT_CODE: u64 = 1;

/// The bytes of decoder state the cache occupies.
pub const STATE_BYTES: u64 = 4;

/// The distance the last match used, or nothing.
///
/// The cache starts unset at a region boundary and no initial history is declared, so a code
/// that names it before any match has set it names nothing and is refused.
#[derive(Clone, Copy, Debug, PartialEq, Eq)]
pub struct OffsetCache {
    slot: Option<u32>,
}

impl View for OffsetCache {
    type V = Option<u32>;

    closed spec fn view(&self) -> Option<u32> {
        self.slot
    }
}

impl Default for OffsetCache {
    fn default() -> (cache: Self)
        ensures
            cache@ is None,
    {
        Self::reset()
    }
}

/// What a slot answers for the repeat code.
pub open spec fn resolved(slot: Option<u32>) -> Result<u32, Error> {
    match slot {
        None => Err(Error::CorruptData(Corruption::RepeatUnset)),
        Some(distance) => if distance == 0 {
            Err(Error::CorruptData(Corruption::RepeatDistance))
        } else {
            Ok(distance)
        },
    }
}

impl OffsetCache {
    /// The state a region boundary restores: one slot, unset.
    #[must_use]
    pub fn reset() -> (cache: Self)
        ensures
            cache@ is None,
    {
        OffsetCache { slot: None }
    }

    /// The distance the slot holds, if it holds one.
    #[must_use]
    pub fn slot(self) -> (slot: Option<u32>)
        ensures
            slot == self@,
    {
        self.slot
    }

    /// Whether the slot already names this distance, which is what lets a match code the
    /// repeat code instead of its distance.
    #[must_use]
    pub fn names(self, distance: u32) -> (named: bool)
        ensures
            named == (self@ == Some(distance)),
    {
        match self.slot {
            Some(held) => held == distance,
            None => false,
        }
    }

    /// The distance the repeat code names.
    ///
    /// Refuses a slot that names nothing, and a slot that names a distance below one. The two
    /// are distinct: a slot nothing has set names no distance at all, and a slot holding a
    /// distance no window admits is a slot a decoder must not copy from. A decoder that
    /// collapsed them would report the wrong rule as broken.
    pub fn resolve(self) -> (distance: Result<u32, Error>)
        ensures
            distance == resolved(self@),
    {
        match self.slot {
            None => Err(Error::CorruptData(Corruption::RepeatUnset)),
            Some(distance) => if distance == 0 {
                Err(Error::CorruptData(Corruption::RepeatDistance))
            } else {
                Ok(distance)
            },
        }
    }

    /// Records the distance a match used, whichever way the match named it.
    ///
    /// Total, so that the update carries no precondition a caller can violate. `resolve` is the
    /// boundary that owns what a slot may name, and it refuses there rather than here.
    pub fn use_distance(&mut self, distance: u32)
        ensures
            final(self)@ == Some(distance),
    {
        self.slot = Some(distance);
    }
}

} // verus!
