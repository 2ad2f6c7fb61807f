use entroq::sequence::cache::OffsetCache;
use entroq::format::{Corruption, Error};

#[test]
fn a_code_that_names_an_unset_slot_is_refused_before_a_distance_exists() {
    let cache = OffsetCache::reset();
    assert_eq!(cache.slot(), None);
    assert_eq!(
        cache.resolve(),
        Err(Error::CorruptData(Corruption::RepeatUnset)),
        "the slot a region boundary leaves names nothing"
    );
    assert!(!cache.names(1));
}

/// The update is total and the resolution is the boundary that owns what a slot may name,
/// so a slot holding a distance no window admits is refused where a decoder would read it.
#[test]
fn a_code_that_resolves_to_a_distance_below_one_is_refused() {
    let mut cache = OffsetCache::reset();
    cache.use_distance(0);
    assert_eq!(
        cache.resolve(),
        Err(Error::CorruptData(Corruption::RepeatDistance))
    );
    cache.use_distance(1);
    assert_eq!(cache.resolve(), Ok(1));
}

#[test]
fn the_slot_holds_the_last_distance_a_match_used() {
    let mut cache = OffsetCache::reset();
    for distance in [7u32, 7, 12, 65_536, 1] {
        cache.use_distance(distance);
        assert_eq!(cache.slot(), Some(distance));
        assert_eq!(cache.resolve(), Ok(distance));
        assert!(cache.names(distance));
    }
}
