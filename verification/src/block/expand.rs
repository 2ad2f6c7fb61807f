//! Owns the expansion: the content one block's sequences name.
//!
//! A match copies from the bytes the region has already produced: the history is what it
//! produced before this block, and the output is what this block has produced so far. Every step
//! is checked against the block's remaining decoded bytes and against the bytes the region
//! holds, so nothing here reaches past either.
//!
//! Three expansions answer to one contract: one byte at a time, in chunks of one width, and in
//! chunks of a width the match directs. They agree on every accepted byte and every refusal.

use vstd::prelude::*;
use crate::format::{Corruption, Error};
use crate::sequence::{Match, Plan, Sequences, Step};

verus! {

/// The width of one match-copy chunk.
///
/// Provisional at 32; the copy's shape does not change with the width. A match whose distance
/// is at least this width reads only bytes the region has already produced, so no chunk read
/// reaches a byte the match is still to write.
pub const COPY_WIDTH: usize = 32;

/// A region after a match of `length` bytes at `distance`, one byte at a time.
pub open spec fn copied(region: Seq<u8>, distance: nat, length: nat) -> Seq<u8>
    decreases length,
{
    if length == 0 {
        region
    } else {
        let before = copied(region, distance, (length - 1) as nat);
        before.push(before[before.len() - distance])
    }
}

/// What a block has written after one more literal run, or the refusal of the run.
pub open spec fn run_expanded(
    literals: Seq<u8>,
    limit: nat,
    written: Seq<u8>,
    taken: nat,
    run: nat,
) -> Result<Seq<u8>, Error> {
    if taken + run > literals.len() || written.len() + run > limit {
        Err(Error::CorruptData(Corruption::BlockContent))
    } else {
        Ok(written + literals.subrange(taken as int, (taken + run) as int))
    }
}

/// What a block has written after one more match, or the refusal of the match.
pub open spec fn match_expanded(
    history: Seq<u8>,
    limit: nat,
    written: Seq<u8>,
    matched: Match,
) -> Result<Seq<u8>, Error> {
    let produced = history.len() + written.len();
    if produced > usize::MAX {
        Err(Error::CorruptData(Corruption::MatchReach))
    } else if matched.distance == 0 {
        Err(Error::CorruptData(Corruption::RepeatDistance))
    } else if matched.distance > produced {
        Err(Error::CorruptData(Corruption::MatchReach))
    } else if written.len() + matched.length > limit {
        Err(Error::CorruptData(Corruption::BlockContent))
    } else {
        Ok(
            copied(history + written, matched.distance as nat, matched.length as nat).skip(
                history.len() as int,
            ),
        )
    }
}

/// What a block has written after its first `count` steps and the literals they took, or the
/// first refusal and what was written before it.
pub open spec fn steps_expanded(
    plan: Plan,
    history: Seq<u8>,
    limit: nat,
    count: nat,
) -> Result<(Seq<u8>, nat), (Error, Seq<u8>)>
    decreases count,
{
    if count == 0 {
        Ok((Seq::empty(), 0))
    } else {
        match steps_expanded(plan, history, limit, (count - 1) as nat) {
            Err(refusal) => Err(refusal),
            Ok((written, taken)) => {
                let step = plan.steps[count - 1];
                match run_expanded(plan.literals, limit, written, taken, step.run as nat) {
                    Err(error) => Err((error, written)),
                    Ok(placed) => match step.matched {
                        None => Ok((placed, taken + step.run as nat)),
                        Some(matched) => match match_expanded(history, limit, placed, matched) {
                            Err(error) => Err((error, placed)),
                            Ok(done) => Ok((done, taken + step.run as nat)),
                        },
                    },
                }
            },
        }
    }
}

/// The `limit` bytes a plan decodes to over a history, or the refusal and what was written
/// before it.
pub open spec fn expansion(plan: Plan, history: Seq<u8>, limit: nat) -> Result<
    Seq<u8>,
    (Error, Seq<u8>),
> {
    match steps_expanded(plan, history, limit, plan.steps.len()) {
        Err(refusal) => Err(refusal),
        Ok((written, _)) => if written.len() != limit {
            Err((Error::CorruptData(Corruption::BlockContent), written))
        } else {
            Ok(written)
        },
    }
}

/// What an expansion leaves in an output that held `before`.
pub open spec fn expands(
    plan: Plan,
    history: Seq<u8>,
    before: Seq<u8>,
    after: Seq<u8>,
    told: Result<(), Error>,
) -> bool {
    match expansion(plan, history, before.len()) {
        Ok(content) => told == Ok::<(), Error>(()) && after == content,
        Err((error, written)) => told == Err::<(), Error>(error) && after == written + before.skip(
            written.len() as int,
        ),
    }
}

/// A copy keeps what the region held and repeats it at its distance.
pub proof fn lemma_copied(region: Seq<u8>, distance: nat, length: nat)
    requires
        1 <= distance <= region.len(),
    ensures
        copied(region, distance, length).len() == region.len() + length,
        copied(region, distance, length).take(region.len() as int) == region,
        forall|i: int|
            region.len() <= i < region.len() + length ==> #[trigger] copied(
                region,
                distance,
                length,
            )[i] == copied(region, distance, length)[i - distance],
    decreases length,
{
    let whole = copied(region, distance, length);
    if length > 0 {
        let before = copied(region, distance, (length - 1) as nat);
        lemma_copied(region, distance, (length - 1) as nat);
        assert(whole.take(region.len() as int) =~= before.take(region.len() as int));
        assert forall|i: int| region.len() <= i < region.len() + length implies #[trigger] whole[i]
            == whole[i - distance] by {
            if i < before.len() {
                assert(whole[i] == before[i]);
                assert(whole[i - distance] == before[i - distance]);
            }
        }
    } else {
        assert(whole.take(region.len() as int) =~= region);
    }
}

/// Nothing else keeps what the region held and repeats it at the distance.
pub proof fn lemma_copied_unique(region: Seq<u8>, distance: nat, length: nat, other: Seq<u8>)
    requires
        1 <= distance <= region.len(),
        other.len() == region.len() + length,
        forall|i: int| 0 <= i < region.len() ==> #[trigger] other[i] == region[i],
        forall|i: int|
            region.len() <= i < other.len() ==> #[trigger] other[i] == other[i - distance],
    ensures
        other == copied(region, distance, length),
    decreases length,
{
    if length > 0 {
        let front = other.drop_last();
        assert forall|i: int| 0 <= i < region.len() implies #[trigger] front[i] == region[i] by {
            assert(other[i] == region[i]);
        }
        assert forall|i: int| region.len() <= i < front.len() implies #[trigger] front[i]
            == front[i - distance] by {
            assert(other[i] == other[i - distance]);
        }
        lemma_copied_unique(region, distance, (length - 1) as nat, front);
        assert(other[other.len() - 1] == other[other.len() - 1 - distance]);
        assert(other =~= front.push(other.last()));
    } else {
        assert(other =~= region);
    }
}

/// Whether an output grew from `start` to `at` by repeating the region at a distance, and is
/// otherwise what it was.
pub open spec fn grew(
    history: Seq<u8>,
    before: Seq<u8>,
    after: Seq<u8>,
    start: int,
    at: int,
    distance: int,
) -> bool {
    &&& after.len() == before.len()
    &&& 0 <= start <= at <= before.len()
    &&& forall|i: int| 0 <= i < start ==> #[trigger] after[i] == before[i]
    &&& forall|i: int| at <= i < before.len() ==> #[trigger] after[i] == before[i]
    &&& forall|i: int|
        start <= i < at ==> #[trigger] after[i] == source(history, after, i, distance)
}

/// The byte a match at `distance` reads for the output position `i`.
pub open spec fn source(history: Seq<u8>, out: Seq<u8>, i: int, distance: int) -> u8 {
    if i >= distance {
        out[i - distance]
    } else {
        history[history.len() + i - distance]
    }
}

/// An output that grew over a whole match holds what the match copies.
proof fn lemma_grew(
    history: Seq<u8>,
    before: Seq<u8>,
    after: Seq<u8>,
    start: int,
    end: int,
    distance: int,
)
    requires
        grew(history, before, after, start, end, distance),
        1 <= distance <= history.len() + start,
    ensures
        copied(history + before.take(start), distance as nat, (end - start) as nat).skip(
            history.len() as int,
        ) == after.take(end),
{
    let region = history + before.take(start);
    let whole = history + after.take(end);
    let h = history.len() as int;
    assert forall|i: int| 0 <= i < region.len() implies #[trigger] whole[i] == region[i] by {
        if i >= h {
            assert(after[i - h] == before[i - h]);
        }
    }
    assert forall|i: int| region.len() <= i < whole.len() implies #[trigger] whole[i] == whole[i
        - distance] by {
        assert(after[i - h] == source(history, after, i - h, distance));
    }
    lemma_copied_unique(region, distance as nat, (end - start) as nat, whole);
    assert(whole.skip(h) =~= after.take(end));
}

/// Two growths one after the other are one.
proof fn lemma_grew_joins(
    history: Seq<u8>,
    before: Seq<u8>,
    middle: Seq<u8>,
    after: Seq<u8>,
    start: int,
    at: int,
    end: int,
    distance: int,
)
    requires
        grew(history, before, middle, start, at, distance),
        grew(history, middle, after, at, end, distance),
        distance >= 1,
    ensures
        grew(history, before, after, start, end, distance),
{
    assert forall|i: int| 0 <= i < start implies #[trigger] after[i] == before[i] by {
        assert(after[i] == middle[i]);
    }
    assert forall|i: int| end <= i < before.len() implies #[trigger] after[i] == before[i] by {
        assert(after[i] == middle[i]);
        assert(middle[i] == before[i]);
    }
    assert forall|i: int| start <= i < end implies #[trigger] after[i] == source(
        history,
        after,
        i,
        distance,
    ) by {
        if i < at {
            assert(after[i] == middle[i]);
            assert(middle[i] == source(history, middle, i, distance));
            if i >= distance {
                assert(after[i - distance] == middle[i - distance]);
            }
        }
    }
}

proof fn lemma_refusal_stands(plan: Plan, history: Seq<u8>, limit: nat, count: nat, total: nat)
    requires
        count <= total,
    ensures
        steps_expanded(plan, history, limit, count) matches Err(refusal) ==> steps_expanded(
            plan,
            history,
            limit,
            total,
        ) == Err::<(Seq<u8>, nat), (Error, Seq<u8>)>(refusal),
    decreases total,
{
    if count < total {
        lemma_refusal_stands(plan, history, limit, count, (total - 1) as nat);
    }
}

/// Steps write what fits, and take the literals their runs place.
pub proof fn lemma_steps_expanded(plan: Plan, history: Seq<u8>, limit: nat, count: nat)
    requires
        count <= plan.steps.len(),
    ensures
        match steps_expanded(plan, history, limit, count) {
            Ok((written, taken)) => written.len() <= limit && taken <= plan.literals.len() && taken
                == crate::sequence::run_total(plan.steps.take(count as int)) && written.len()
                == crate::sequence::decoded_total(plan.steps.take(count as int)),
            Err((_, written)) => written.len() <= limit,
        },
    decreases count,
{
    if count > 0 {
        lemma_steps_expanded(plan, history, limit, (count - 1) as nat);
        let next = plan.steps.take(count as int);
        assert(next.drop_last() =~= plan.steps.take(count - 1));
        let step = plan.steps[count - 1];
        if let Ok((written, taken)) = steps_expanded(plan, history, limit, (count - 1) as nat) {
            if let Ok(placed) = run_expanded(
                plan.literals,
                limit,
                written,
                taken,
                step.run as nat,
            ) {
                if let Some(matched) = step.matched {
                    if match_expanded(history, limit, placed, matched) is Ok {
                        lemma_copied(
                            history + placed,
                            matched.distance as nat,
                            matched.length as nat,
                        );
                    }
                }
            }
        }
    } else {
        assert(plan.steps.take(0) =~= Seq::empty());
    }
}

/// Writes the content one block's sequences name.
///
/// Refuses a step that runs past the block's remaining decoded bytes or its literals, a match
/// that reaches past the bytes its region produced, and steps that do not fill the block.
pub fn expand(sequences: &Sequences, history: &[u8], out: &mut [u8]) -> (told: Result<(), Error>)
    ensures
        expands(sequences@, history@, old(out)@, final(out)@, told),
{
    expand_width::<COPY_WIDTH>(sequences, history, out)
}

/// Copies one literal run, or refuses it.
fn copy_literals(
    literals: &[u8],
    out: &mut [u8],
    taken: usize,
    written: usize,
    run: usize,
) -> (told: Result<usize, Error>)
    requires
        taken <= literals@.len(),
        written <= old(out)@.len(),
    ensures
        match run_expanded(
            literals@,
            old(out)@.len(),
            old(out)@.take(written as int),
            taken as nat,
            run as nat,
        ) {
            Ok(placed) => told matches Ok(next) && next == taken + run && final(out)@
                == placed + old(out)@.skip(written + run),
            Err(error) => told == Err::<usize, Error>(error) && final(out)@ == old(out)@,
        },
{
    if run > literals.len() - taken || run > out.len() - written {
        return Err(Error::CorruptData(Corruption::BlockContent));
    }
    let ghost before = out@;
    let mut at: usize = 0;
    let total: usize = literals.len();
    let limit: usize = out.len();
    while at < run
        invariant
            at <= run,
            taken + run <= literals@.len() == total,
            written + run <= before.len() == limit,
            out@.len() == before.len(),
            forall|i: int| 0 <= i < written ==> #[trigger] out@[i] == before[i],
            forall|i: int|
                written <= i < written + at ==> #[trigger] out@[i] == literals@[taken + (i
                    - written)],
            forall|i: int| written + at <= i < before.len() ==> #[trigger] out@[i] == before[i],
        decreases run - at,
    {
        out[written + at] = literals[taken + at];
        at = at + 1;
    }
    proof {
        assert(out@ =~= before.take(written as int) + literals@.subrange(
            taken as int,
            taken + run,
        ) + before.skip(written + run));
    }
    Ok(taken + run)
}

/// Validates one match before its copy, and answers where it ends and its distance.
fn admit_match(history_len: usize, written: usize, logical: usize, matched: Match) -> (told: Result<
    (usize, usize),
    Error,
>)
    requires
        written <= logical,
    ensures
        forall|history: Seq<u8>, placed: Seq<u8>|
            history.len() == history_len && placed.len() == written ==> match #[trigger]
            match_expanded(history, logical as nat, placed, matched) {
                Ok(_) => told matches Ok((end, distance)) && end == written + matched.length
                    && distance == matched.distance && end <= logical && 1 <= distance <= history_len
                    + written,
                Err(error) => told == Err::<(usize, usize), Error>(error),
            },
{
    let length: usize = matched.length as usize;
    let distance: usize = matched.distance as usize;
    let produced: usize = match history_len.checked_add(written) {
        Some(produced) => produced,
        None => {
            return Err(Error::CorruptData(Corruption::MatchReach));
        },
    };
    if distance == 0 {
        return Err(Error::CorruptData(Corruption::RepeatDistance));
    }
    if distance > produced {
        return Err(Error::CorruptData(Corruption::MatchReach));
    }
    if length > logical - written {
        return Err(Error::CorruptData(Corruption::BlockContent));
    }
    Ok((written + length, distance))
}

/// Copies one match's bytes, one at a time, from the bytes its region has already produced.
///
/// The source may sit in the history, in the output, or cross the boundary between them. An
/// overlapping source propagates one byte at a time, which is what a match whose length exceeds
/// its distance requires.
fn copy_match_scalar(history: &[u8], out: &mut [u8], written: usize, end: usize, distance: usize)
    requires
        written <= end <= old(out)@.len(),
        1 <= distance <= history@.len() + written,
    ensures
        grew(history@, old(out)@, final(out)@, written as int, end as int, distance as int),
{
    let ghost before = out@;
    let h: usize = history.len();
    let mut at: usize = written;
    while at < end
        invariant
            written <= at <= end <= before.len(),
            1 <= distance <= history@.len() + written,
            h == history@.len(),
            out@.len() == before.len(),
            grew(history@, before, out@, written as int, at as int, distance as int),
        decreases end - at,
    {
        let ghost here = out@;
        let byte: u8 = if at >= distance { out[at - distance] } else { history[h - (distance - at)] };
        out[at] = byte;
        proof {
            assert(grew(history@, here, out@, at as int, at + 1, distance as int));
            lemma_grew_joins(
                history@,
                before,
                here,
                out@,
                written as int,
                at as int,
                at + 1,
                distance as int,
            );
        }
        at = at + 1;
    }
}

/// Copies one `K`-byte chunk whose source is inside the current block output.
///
/// A distance of at least `K` puts the end of the source at or before the destination, so the
/// chunk reads only bytes the match has already produced.
fn copy_out_chunk<const K: usize>(
    Ghost(history): Ghost<Seq<u8>>,
    out: &mut [u8],
    dst: usize,
    distance: usize,
)
    requires
        K <= distance <= dst,
        dst + K <= old(out)@.len(),
        K > 0,
    ensures
        grew(history, old(out)@, final(out)@, dst as int, dst + K, distance as int),
{
    let ghost before = out@;
    let limit: usize = out.len();
    let src: usize = dst - distance;
    let mut lane: usize = 0;
    while lane < K
        invariant
            lane <= K <= distance <= dst,
            src == dst - distance,
            dst + K <= before.len() == limit,
            out@.len() == before.len(),
            forall|i: int| 0 <= i < dst ==> #[trigger] out@[i] == before[i],
            forall|i: int| dst <= i < dst + lane ==> #[trigger] out@[i] == before[i - distance],
            forall|i: int| dst + lane <= i < before.len() ==> #[trigger] out@[i] == before[i],
        decreases K - lane,
    {
        out[dst + lane] = out[src + lane];
        lane = lane + 1;
    }
}

/// Copies one `K`-byte chunk whose source lies in the history.
fn copy_history_chunk<const K: usize>(
    history: &[u8],
    out: &mut [u8],
    dst: usize,
    distance: usize,
)
    requires
        dst + K <= distance <= history@.len() + dst,
        dst + K <= old(out)@.len(),
        K > 0,
    ensures
        grew(history@, old(out)@, final(out)@, dst as int, dst + K, distance as int),
{
    let ghost before = out@;
    let h: usize = history.len();
    let limit: usize = out.len();
    let src: usize = h - (distance - dst);
    let mut lane: usize = 0;
    while lane < K
        invariant
            lane <= K,
            dst + K <= distance <= history@.len() + dst,
            h == history@.len(),
            src == h - (distance - dst),
            dst + K <= before.len() == limit,
            out@.len() == before.len(),
            forall|i: int| 0 <= i < dst ==> #[trigger] out@[i] == before[i],
            forall|i: int|
                dst <= i < dst + lane ==> #[trigger] out@[i] == source(
                    history@,
                    out@,
                    i,
                    distance as int,
                ),
            forall|i: int| dst + lane <= i < before.len() ==> #[trigger] out@[i] == before[i],
        decreases K - lane,
    {
        out[dst + lane] = history[src + lane];
        lane = lane + 1;
    }
}

/// Copies whole chunks of a match whose source is the current block output, and answers the
/// destination it reached.
///
/// Only chunks whose write ends at or before the match end are copied, so no write reaches past
/// it.
fn copy_out_bulk<const K: usize>(
    Ghost(history): Ghost<Seq<u8>>,
    out: &mut [u8],
    written: usize,
    end: usize,
    distance: usize,
) -> (done: usize)
    requires
        K > 0,
        written <= end <= old(out)@.len(),
        K <= distance <= written,
    ensures
        written <= done <= end,
        end - done < K,
        grew(history, old(out)@, final(out)@, written as int, done as int, distance as int),
{
    let ghost before = out@;
    let mut dst: usize = written;
    while end - dst >= K
        invariant
            K > 0,
            written <= dst <= end <= before.len(),
            K <= distance <= written,
            out@.len() == before.len(),
            grew(history, before, out@, written as int, dst as int, distance as int),
        decreases end - dst,
    {
        let ghost here = out@;
        copy_out_chunk::<K>(Ghost(history), out, dst, distance);
        proof {
            lemma_grew_joins(
                history,
                before,
                here,
                out@,
                written as int,
                dst as int,
                dst + K,
                distance as int,
            );
        }
        dst = dst + K;
    }
    dst
}

/// Copies whole chunks of a match whose source lies in the history, and answers the destination
/// it reached.
fn copy_history_bulk<const K: usize>(
    history: &[u8],
    out: &mut [u8],
    written: usize,
    end: usize,
    distance: usize,
) -> (done: usize)
    requires
        K > 0,
        written <= end <= old(out)@.len(),
        end <= distance <= history@.len() + written,
    ensures
        written <= done <= end,
        end - done < K,
        grew(history@, old(out)@, final(out)@, written as int, done as int, distance as int),
{
    let ghost before = out@;
    let mut dst: usize = written;
    while end - dst >= K
        invariant
            K > 0,
            written <= dst <= end <= before.len(),
            end <= distance <= history@.len() + written,
            out@.len() == before.len(),
            grew(history@, before, out@, written as int, dst as int, distance as int),
        decreases end - dst,
    {
        let ghost here = out@;
        copy_history_chunk::<K>(history, out, dst, distance);
        proof {
            if distance >= 1 {
                lemma_grew_joins(
                    history@,
                    before,
                    here,
                    out@,
                    written as int,
                    dst as int,
                    dst + K,
                    distance as int,
                );
            }
        }
        dst = dst + K;
    }
    dst
}

/// The chunked half of one match copy, which answers the destination it reached.
///
/// A source wholly in the output or wholly in the history is copied in chunks. One that crosses
/// the boundary between them is left to the byte copy.
fn converge<const K: usize>(
    history: &[u8],
    out: &mut [u8],
    written: usize,
    end: usize,
    distance: usize,
) -> (done: usize)
    requires
        K > 0,
        written <= end <= old(out)@.len(),
        1 <= distance <= history@.len() + written,
        K <= distance,
    ensures
        written <= done <= end,
        grew(history@, old(out)@, final(out)@, written as int, done as int, distance as int),
{
    if written >= distance {
        copy_out_bulk::<K>(Ghost(history@), out, written, end, distance)
    } else if end <= distance {
        copy_history_bulk::<K>(history, out, written, end, distance)
    } else {
        written
    }
}

/// Copies one match in chunks of `K` bytes while a whole chunk fits, then byte by byte.
fn copy_match<const K: usize>(
    history: &[u8],
    out: &mut [u8],
    written: usize,
    end: usize,
    distance: usize,
)
    requires
        K > 0,
        written <= end <= old(out)@.len(),
        1 <= distance <= history@.len() + written,
    ensures
        grew(history@, old(out)@, final(out)@, written as int, end as int, distance as int),
{
    let ghost before = out@;
    let done: usize = if distance >= K {
        converge::<K>(history, out, written, end, distance)
    } else {
        written
    };
    let ghost middle = out@;
    copy_match_scalar(history, out, done, end, distance);
    proof {
        lemma_grew_joins(
            history@,
            before,
            middle,
            out@,
            written as int,
            done as int,
            end as int,
            distance as int,
        );
    }
}

/// Expands one block through a width-chunked match copy with an exact byte-wise tail.
///
/// A match whose validated distance is at least `K` is copied `K` bytes at a time while a
/// whole chunk fits inside the match end; the shorter final tail, every match with a smaller
/// distance, every true overlap, and every source that crosses the history boundary is copied
/// byte by byte. Every chunk read ends at or before the write cursor and every chunk write ends
/// at or before the match end.
pub fn expand_width<const K: usize>(
    sequences: &Sequences,
    history: &[u8],
    out: &mut [u8],
) -> (told: Result<(), Error>)
    requires
        K > 0,
    ensures
        expands(sequences@, history@, old(out)@, final(out)@, told),
{
    let literals = sequences.literals();
    let steps = sequences.steps();
    let logical: usize = out.len();
    let mut taken: usize = 0;
    let mut written: usize = 0;
    let mut index: usize = 0;
    let ghost plan = sequences@;
    let ghost first = out@;
    proof {
        assert(first.take(0) =~= Seq::empty());
        assert(first.skip(0) =~= first);
    }
    while index < steps.len()
        invariant
            K > 0,
            index <= steps@.len(),
            plan == sequences@,
            literals@ == plan.literals,
            steps@ == plan.steps,
            first == old(out)@,
            logical == first.len(),
            out@.len() == logical,
            taken <= literals@.len(),
            written <= logical,
            out@.skip(written as int) == first.skip(written as int),
            steps_expanded(plan, history@, logical as nat, index as nat) == Ok::<
                (Seq<u8>, nat),
                (Error, Seq<u8>),
            >((out@.take(written as int), taken as nat)),
        decreases steps@.len() - index,
    {
        let step: Step = steps[index];
        let run: usize = step.run as usize;
        let ghost before = out@;
        proof {
            lemma_refusal_stands(
                plan,
                history@,
                logical as nat,
                index as nat + 1,
                plan.steps.len(),
            );
            lemma_joined(before, first, written as int);
        }
        let ghost ran = run_expanded(
            plan.literals,
            logical as nat,
            before.take(written as int),
            taken as nat,
            run as nat,
        );
        taken = match copy_literals(literals, out, taken, written, run) {
            Ok(taken) => taken,
            Err(error) => {
                return Err(error);
            },
        };
        written = written + run;
        proof {
            lemma_placed(before, first, out@, written - run, ran->Ok_0);
            assert(ran->Ok_0 == out@.take(written as int));
        }
        match step.matched {
            None => {},
            Some(matched) => {
                let ghost placed = out@;
                let ghost start = written as int;
                let (end, distance) = match admit_match(history.len(), written, logical, matched) {
                    Ok(found) => found,
                    Err(error) => {
                        proof {
                            lemma_joined(placed, first, start);
                        }
                        return Err(error);
                    },
                };
                copy_match::<K>(history, out, written, end, distance);
                proof {
                    lemma_grew(history@, placed, out@, start, end as int, distance as int);
                    lemma_grown_tail(history@, placed, first, out@, start, end as int, distance as int);
                    assert(match_expanded(history@, logical as nat, placed.take(start), matched)
                        == Ok::<Seq<u8>, Error>(out@.take(end as int)));
                }
                written = end;
            },
        }
        index = index + 1;
    }
    if written != logical {
        proof {
            lemma_joined(out@, first, written as int);
        }
        return Err(Error::CorruptData(Corruption::BlockContent));
    }
    proof {
        assert(out@.take(written as int) =~= out@);
    }
    Ok(())
}

/// Copies one match in chunks of a width its length and its distance direct, then byte by byte.
///
/// A match of at least 64 bytes at a distance of at least 64 copies in 64-byte chunks, and one
/// of at least 16 at a distance of at least 16 in 16-byte chunks.
fn copy_match_directed(
    history: &[u8],
    out: &mut [u8],
    written: usize,
    end: usize,
    distance: usize,
)
    requires
        written <= end <= old(out)@.len(),
        1 <= distance <= history@.len() + written,
    ensures
        grew(history@, old(out)@, final(out)@, written as int, end as int, distance as int),
{
    let ghost before = out@;
    let length: usize = end - written;
    let done: usize = if length >= 64 && distance >= 64 {
        converge::<64>(history, out, written, end, distance)
    } else if length >= 16 && distance >= 16 {
        converge::<16>(history, out, written, end, distance)
    } else {
        written
    };
    let ghost middle = out@;
    copy_match_scalar(history, out, done, end, distance);
    proof {
        lemma_grew_joins(
            history@,
            before,
            middle,
            out@,
            written as int,
            done as int,
            end as int,
            distance as int,
        );
    }
}

/// Expands one block one byte at a time, exactly as the format contract requires.
///
/// The match copy it makes is the one the chunked expansions fall back to.
pub fn expand_scalar(sequences: &Sequences, history: &[u8], out: &mut [u8]) -> (told: Result<
    (),
    Error,
>)
    ensures
        expands(sequences@, history@, old(out)@, final(out)@, told),
{
    let literals = sequences.literals();
    let steps = sequences.steps();
    let logical: usize = out.len();
    let mut taken: usize = 0;
    let mut written: usize = 0;
    let mut index: usize = 0;
    let ghost plan = sequences@;
    let ghost first = out@;
    proof {
        assert(first.take(0) =~= Seq::empty());
        assert(first.skip(0) =~= first);
    }
    while index < steps.len()
        invariant
            index <= steps@.len(),
            plan == sequences@,
            literals@ == plan.literals,
            steps@ == plan.steps,
            first == old(out)@,
            logical == first.len(),
            out@.len() == logical,
            taken <= literals@.len(),
            written <= logical,
            out@.skip(written as int) == first.skip(written as int),
            steps_expanded(plan, history@, logical as nat, index as nat) == Ok::<
                (Seq<u8>, nat),
                (Error, Seq<u8>),
            >((out@.take(written as int), taken as nat)),
        decreases steps@.len() - index,
    {
        let step: Step = steps[index];
        let run: usize = step.run as usize;
        let ghost before = out@;
        proof {
            lemma_refusal_stands(
                plan,
                history@,
                logical as nat,
                index as nat + 1,
                plan.steps.len(),
            );
            lemma_joined(before, first, written as int);
        }
        let ghost ran = run_expanded(
            plan.literals,
            logical as nat,
            before.take(written as int),
            taken as nat,
            run as nat,
        );
        taken = match copy_literals(literals, out, taken, written, run) {
            Ok(taken) => taken,
            Err(error) => {
                return Err(error);
            },
        };
        written = written + run;
        proof {
            lemma_placed(before, first, out@, written - run, ran->Ok_0);
            assert(ran->Ok_0 == out@.take(written as int));
        }
        match step.matched {
            None => {},
            Some(matched) => {
                let ghost placed = out@;
                let ghost start = written as int;
                let (end, distance) = match admit_match(history.len(), written, logical, matched) {
                    Ok(found) => found,
                    Err(error) => {
                        proof {
                            lemma_joined(placed, first, start);
                        }
                        return Err(error);
                    },
                };
                copy_match_scalar(history, out, written, end, distance);
                proof {
                    lemma_grew(history@, placed, out@, start, end as int, distance as int);
                    lemma_grown_tail(history@, placed, first, out@, start, end as int, distance as int);
                    assert(match_expanded(history@, logical as nat, placed.take(start), matched)
                        == Ok::<Seq<u8>, Error>(out@.take(end as int)));
                }
                written = end;
            },
        }
        index = index + 1;
    }
    if written != logical {
        proof {
            lemma_joined(out@, first, written as int);
        }
        return Err(Error::CorruptData(Corruption::BlockContent));
    }
    proof {
        assert(out@.take(written as int) =~= out@);
    }
    Ok(())
}

/// Expands one block through a match copy whose width each match directs.
pub fn expand_rule(sequences: &Sequences, history: &[u8], out: &mut [u8]) -> (told: Result<
    (),
    Error,
>)
    ensures
        expands(sequences@, history@, old(out)@, final(out)@, told),
{
    let literals = sequences.literals();
    let steps = sequences.steps();
    let logical: usize = out.len();
    let mut taken: usize = 0;
    let mut written: usize = 0;
    let mut index: usize = 0;
    let ghost plan = sequences@;
    let ghost first = out@;
    proof {
        assert(first.take(0) =~= Seq::empty());
        assert(first.skip(0) =~= first);
    }
    while index < steps.len()
        invariant
            index <= steps@.len(),
            plan == sequences@,
            literals@ == plan.literals,
            steps@ == plan.steps,
            first == old(out)@,
            logical == first.len(),
            out@.len() == logical,
            taken <= literals@.len(),
            written <= logical,
            out@.skip(written as int) == first.skip(written as int),
            steps_expanded(plan, history@, logical as nat, index as nat) == Ok::<
                (Seq<u8>, nat),
                (Error, Seq<u8>),
            >((out@.take(written as int), taken as nat)),
        decreases steps@.len() - index,
    {
        let step: Step = steps[index];
        let run: usize = step.run as usize;
        let ghost before = out@;
        proof {
            lemma_refusal_stands(
                plan,
                history@,
                logical as nat,
                index as nat + 1,
                plan.steps.len(),
            );
            lemma_joined(before, first, written as int);
        }
        let ghost ran = run_expanded(
            plan.literals,
            logical as nat,
            before.take(written as int),
            taken as nat,
            run as nat,
        );
        taken = match copy_literals(literals, out, taken, written, run) {
            Ok(taken) => taken,
            Err(error) => {
                return Err(error);
            },
        };
        written = written + run;
        proof {
            lemma_placed(before, first, out@, written - run, ran->Ok_0);
            assert(ran->Ok_0 == out@.take(written as int));
        }
        match step.matched {
            None => {},
            Some(matched) => {
                let ghost placed = out@;
                let ghost start = written as int;
                let (end, distance) = match admit_match(history.len(), written, logical, matched) {
                    Ok(found) => found,
                    Err(error) => {
                        proof {
                            lemma_joined(placed, first, start);
                        }
                        return Err(error);
                    },
                };
                copy_match_directed(history, out, written, end, distance);
                proof {
                    lemma_grew(history@, placed, out@, start, end as int, distance as int);
                    lemma_grown_tail(history@, placed, first, out@, start, end as int, distance as int);
                    assert(match_expanded(history@, logical as nat, placed.take(start), matched)
                        == Ok::<Seq<u8>, Error>(out@.take(end as int)));
                }
                written = end;
            },
        }
        index = index + 1;
    }
    if written != logical {
        proof {
            lemma_joined(out@, first, written as int);
        }
        return Err(Error::CorruptData(Corruption::BlockContent));
    }
    proof {
        assert(out@.take(written as int) =~= out@);
    }
    Ok(())
}

/// An output is what was written and what it held beyond it.
proof fn lemma_joined(out: Seq<u8>, first: Seq<u8>, written: int)
    requires
        0 <= written <= out.len() == first.len(),
        out.skip(written) == first.skip(written),
    ensures
        out == out.take(written) + first.skip(written),
{
    assert(out =~= out.take(written) + out.skip(written));
}

/// An output after a run is what was written, the run, and what it held beyond both.
proof fn lemma_placed(
    before: Seq<u8>,
    first: Seq<u8>,
    after: Seq<u8>,
    written: int,
    placed: Seq<u8>,
)
    requires
        0 <= written <= placed.len() <= before.len() == first.len(),
        before.skip(written) == first.skip(written),
        after == placed + before.skip(placed.len() as int),
    ensures
        after.skip(placed.len() as int) == first.skip(placed.len() as int),
        after.take(placed.len() as int) == placed,
{
    let end = placed.len() as int;
    assert(after.skip(end) =~= before.skip(end));
    assert(before.skip(end) =~= before.skip(written).skip(end - written));
    assert(first.skip(end) =~= first.skip(written).skip(end - written));
    assert(after.take(end) =~= placed);
}

/// A match leaves what stands past its end.
proof fn lemma_grown_tail(
    history: Seq<u8>,
    before: Seq<u8>,
    first: Seq<u8>,
    after: Seq<u8>,
    start: int,
    end: int,
    distance: int,
)
    requires
        grew(history, before, after, start, end, distance),
        before.len() == first.len(),
        before.skip(start) == first.skip(start),
    ensures
        after.skip(end) == first.skip(end),
{
    assert forall|i: int| end <= i < before.len() implies #[trigger] after[i] == first[i] by {
        assert(before.skip(start)[i - start] == first.skip(start)[i - start]);
    }
    assert(after.skip(end) =~= first.skip(end));
}

} // verus!
