//! Owns what a decode makes of the symbols and the suffixes of a block, step by step.

use vstd::prelude::*;

use super::streams::{step_read, Progress, StreamShape, StreamsShape};
use super::{lemma_low_is_positive, Alphabet, Match, Step};
use crate::entropy::bits::value_of;

verus! {

/// What a symbol of a stream and the suffix bits at a position name, where they name a value: the
/// stream's class has the symbol, its suffix bits are there, and the value is in the domain.
pub open spec fn named_value(
    alphabet: Alphabet,
    stream: StreamShape,
    symbol: u16,
    at: nat,
    most: nat,
) -> Option<nat> {
    let width = alphabet.width(symbol as nat);
    if symbol < alphabet.naming() && at + width <= stream.suffix.len() {
        let value = alphabet.low(symbol as nat) + value_of(
            stream.suffix.subrange(at as int, (at + width) as int),
        );
        if value <= most {
            Some(value)
        } else {
            None
        }
    } else {
        None
    }
}

/// The distance the next distance symbol names: the slot's for the first symbol, where the slot
/// has one, and one less than its value for any other.
pub open spec fn named_distance(streams: StreamsShape, done: Progress) -> Option<nat> {
    if done.taken >= streams.match_distance.symbols.len() {
        None
    } else {
        let symbol = streams.match_distance.symbols[done.taken as int];
        match named_value(
            Alphabet::MatchDistance,
            streams.match_distance,
            symbol,
            done.distance_at,
            65_537,
        ) {
            None => None,
            Some(value) => if symbol == 0 {
                if done.slot is Some && done.slot->0 > 0 {
                    Some(done.slot->0 as nat)
                } else {
                    None
                }
            } else {
                Some((value - 1) as nat)
            },
        }
    }
}

/// What one step of a decode reads. The run is one less than the value its symbol names, and the
/// match length three more than the value of its own; the symbol 27 ends the block and stands
/// nowhere but last. A distance is named by its symbol, or by the slot where its symbol is the
/// first one, whichever of the two the writer chose. The step is read exactly where all it needs
/// is named, each stream has moved by the suffix it read, and the slot holds the distance.
#[verifier::spinoff_prover]
#[verifier::rlimit(40)]
pub proof fn law_a_step_is_read_from_its_symbols(streams: StreamsShape, done: Progress)
    requires
        done.steps.len() < streams.literal_run.symbols.len(),
        streams.match_length.symbols.len() == streams.literal_run.symbols.len(),
    ensures
        ({
            let index = done.steps.len() as int;
            let run_symbol = streams.literal_run.symbols[index];
            let length_symbol = streams.match_length.symbols[index];
            let run = named_value(
                Alphabet::LiteralRun,
                streams.literal_run,
                run_symbol,
                done.run_at,
                65_537,
            );
            let length = named_value(
                Alphabet::MatchLength,
                streams.match_length,
                length_symbol,
                done.length_at,
                253,
            );
            let distance = named_distance(streams, done);
            let answer = step_read(streams, done);
            if length_symbol == 27 {
                &&& answer is Ok <==> run is Some && index + 1 == streams.literal_run.symbols.len()
                &&& answer matches Ok(next) ==> {
                    &&& next.steps == done.steps.push(
                        Step { run: (run->0 - 1) as u32, matched: None },
                    )
                    &&& next.run_at == done.run_at + Alphabet::LiteralRun.width(run_symbol as nat)
                    &&& next.length_at == done.length_at && next.distance_at == done.distance_at
                    &&& next.taken == done.taken && next.slot == done.slot
                }
            } else {
                &&& answer is Ok <==> run is Some && length is Some && distance is Some
                &&& answer matches Ok(next) ==> {
                    &&& next.steps == done.steps.push(
                        Step {
                            run: (run->0 - 1) as u32,
                            matched: Some(
                                Match {
                                    length: (length->0 + 3) as u32,
                                    distance: distance->0 as u32,
                                },
                            ),
                        },
                    )
                    &&& next.run_at == done.run_at + Alphabet::LiteralRun.width(run_symbol as nat)
                    &&& next.length_at == done.length_at + Alphabet::MatchLength.width(
                        length_symbol as nat,
                    )
                    &&& next.distance_at == done.distance_at + Alphabet::MatchDistance.width(
                        streams.match_distance.symbols[done.taken as int] as nat,
                    )
                    &&& next.taken == done.taken + 1
                    &&& next.slot == Some(distance->0 as u32)
                }
            }
        }),
{
    if done.taken < streams.match_distance.symbols.len() {
        let symbol = streams.match_distance.symbols[done.taken as int];
        if symbol > 0 {
            lemma_low_is_positive((symbol - 1) as nat);
        } else if done.distance_at <= streams.match_distance.suffix.len() {
            let at = done.distance_at as int;
            assert(streams.match_distance.suffix.subrange(at, at).len() == 0);
        }
    }
}

} // verus!
