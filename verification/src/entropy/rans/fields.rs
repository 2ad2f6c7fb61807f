//! Owns the fields a table's frequencies are transmitted as.
//!
//! Each frequency is written in the width the unassigned total still admits, so the fields
//! narrow as the total is consumed and the description ends the moment nothing is left. A zero
//! is followed by a count of the zeros after it, in chunks, where a chunk at its maximum means
//! another chunk follows.

use vstd::prelude::*;
use vstd::arithmetic::power2::{lemma2_to64, lemma_pow2_strictly_increases};
use super::states::total;
use crate::entropy::bits::{
    bits_of, lemma_bits_of_len, lemma_bits_of_value, lemma_value_of_bits, short_field, value_of,
    window, BitReader, BitWriter,
};
use crate::entropy::{bit_width, lemma_bit_width, width_for};
use crate::format::{Corruption, Error};

verus! {

/// Bits the zero-run escape of a description occupies.
pub const ZERO_RUN_BITS: u32 = 4;

/// The longest zero run one escape field carries.
pub const ZERO_RUN_CAP: u32 = 15;

/// The run of zeros that starts at `at`.
pub open spec fn zeros_at(freq: Seq<u32>, at: int) -> nat
    decreases freq.len() - at,
{
    if 0 <= at < freq.len() && freq[at] == 0 {
        1 + zeros_at(freq, at + 1)
    } else {
        0
    }
}

/// The chunks of a zero run.
pub open spec fn chunks(zeros: nat) -> Seq<bool>
    decreases zeros,
{
    if zeros < ZERO_RUN_CAP {
        bits_of(zeros, ZERO_RUN_BITS as nat)
    } else {
        bits_of(ZERO_RUN_CAP as nat, ZERO_RUN_BITS as nat) + chunks((zeros - ZERO_RUN_CAP) as nat)
    }
}

/// The fields of the frequencies from `at`, where `left` of the total is unassigned.
pub open spec fn fields(freq: Seq<u32>, at: int, left: nat) -> Seq<bool>
    decreases (if at <= freq.len() { freq.len() - at } else { 0 }),
{
    if at < 0 || at >= freq.len() || left == 0 {
        Seq::empty()
    } else {
        let field = bits_of(freq[at] as nat, bit_width(left));
        if freq[at] == 0 {
            let zeros = zeros_at(freq, at + 1);
            field + (chunks(zeros) + fields(freq, at + 1 + zeros, left))
        } else {
            field + fields(
                freq,
                at + 1,
                if left >= freq[at] {
                    (left - freq[at]) as nat
                } else {
                    0
                },
            )
        }
    }
}

/// A list with zeros appended up to a length.
pub open spec fn padded(known: Seq<u32>, span: nat) -> Seq<u32> {
    known + Seq::new(
        if known.len() <= span {
            (span - known.len()) as nat
        } else {
            0
        },
        |i: int| 0u32,
    )
}

/// What a parse of a zero run reads after `known`, or why it refuses, and where it leaves the
/// reader: in front of a field the bits end inside, and past a run that is refused.
pub open spec fn parsed_zeros(source: Seq<u8>, declared: nat, at: nat, span: nat, known: Seq<u32>)
    -> Result<(Seq<u32>, nat), (Error, nat)>
    decreases span - known.len(),
{
    if at + ZERO_RUN_BITS > declared {
        Err((short_field(at, ZERO_RUN_BITS as nat), at))
    } else {
        let zeros = value_of(window(source, at, ZERO_RUN_BITS as nat));
        if known.len() + zeros > span {
            Err((Error::CorruptData(Corruption::DescriptionToken), at + ZERO_RUN_BITS as nat))
        } else if zeros < ZERO_RUN_CAP {
            Ok((known + Seq::new(zeros, |i: int| 0u32), at + ZERO_RUN_BITS as nat))
        } else {
            parsed_zeros(
                source,
                declared,
                at + ZERO_RUN_BITS as nat,
                span,
                known + Seq::new(zeros, |i: int| 0u32),
            )
        }
    }
}

/// A zero run that parses keeps what was known and stays inside the alphabet.
pub proof fn lemma_parsed_zeros_grows(
    source: Seq<u8>,
    declared: nat,
    at: nat,
    span: nat,
    known: Seq<u32>,
)
    ensures
        parsed_zeros(source, declared, at, span, known) matches Ok((more, end)) ==> known.len()
            <= more.len() <= span,
    decreases span - known.len(),
{
    if at + ZERO_RUN_BITS <= declared {
        let zeros = value_of(window(source, at, ZERO_RUN_BITS as nat));
        if known.len() + zeros <= span && zeros >= ZERO_RUN_CAP {
            lemma_parsed_zeros_grows(
                source,
                declared,
                at + ZERO_RUN_BITS as nat,
                span,
                known + Seq::new(zeros, |i: int| 0u32),
            );
        }
    }
}

/// What a parse of the fields from `at` reads, after `known`, with `left` unassigned, or why it
/// refuses, and where it leaves the reader.
pub open spec fn parsed(
    source: Seq<u8>,
    declared: nat,
    at: nat,
    span: nat,
    left: nat,
    known: Seq<u32>,
) -> Result<(Seq<u32>, nat), (Error, nat)>
    decreases span - known.len(),
{
    if known.len() >= span || left == 0 {
        Ok((padded(known, span), at))
    } else {
        let width = bit_width(left);
        if at + width > declared {
            Err((short_field(at, width), at))
        } else {
            let frequency = value_of(window(source, at, width));
            let more = known.push(frequency as u32);
            if frequency > left {
                Err((Error::CorruptData(Corruption::FrequencySum), at + width))
            } else if frequency == 0 {
                match parsed_zeros(source, declared, at + width, span, more) {
                    Err(error) => Err(error),
                    Ok((most, end)) => {
                        proof {
                            lemma_parsed_zeros_grows(source, declared, at + width, span, more);
                        }
                        parsed(source, declared, end, span, left, most)
                    },
                }
            } else {
                parsed(source, declared, at + width, span, (left - frequency) as nat, more)
            }
        }
    }
}

proof fn lemma_zeros_bound(freq: Seq<u32>, at: int)
    requires
        0 <= at <= freq.len(),
    ensures
        at + zeros_at(freq, at) <= freq.len(),
        forall|i: int| at <= i < at + zeros_at(freq, at) ==> #[trigger] freq[i] == 0,
    decreases freq.len() - at,
{
    if at < freq.len() && freq[at] == 0 {
        lemma_zeros_bound(freq, at + 1);
    }
}

/// The run of zeros that starts at `at`.
fn zero_run(freq: &Vec<u32>, at: usize) -> (run: usize)
    requires
        at <= freq@.len(),
    ensures
        run == zeros_at(freq@, at as int),
        at + run <= freq@.len(),
{
    let mut run: usize = 0;
    let count: usize = freq.len();
    while at + run < count && freq[at + run] == 0
        invariant
            count == freq@.len(),
            at + run <= freq@.len(),
            zeros_at(freq@, at as int) == run + zeros_at(freq@, at + run),
        decreases freq@.len() - at - run,
    {
        run = run + 1;
    }
    run
}

/// Writes the chunks of a zero run.
fn write_chunks(zeros: usize, out: &mut BitWriter)
    requires
        old(out).wf(),
    ensures
        final(out).wf(),
        final(out)@ == old(out)@ + chunks(zeros as nat),
{
    let mut left: usize = zeros;
    let ghost goal = out@ + chunks(zeros as nat);
    while left >= ZERO_RUN_CAP as usize
        invariant
            out.wf(),
            goal == out@ + chunks(left as nat),
        decreases left,
    {
        let ghost before = out@;
        out.push(ZERO_RUN_CAP as u64, ZERO_RUN_BITS);
        proof {
            assert(goal =~= (before + bits_of(ZERO_RUN_CAP as nat, ZERO_RUN_BITS as nat)) + chunks(
                (left - ZERO_RUN_CAP) as nat,
            ));
        }
        left = left - ZERO_RUN_CAP as usize;
    }
    out.push(left as u64, ZERO_RUN_BITS);
}

/// Writes the fields of a table's frequencies.
pub fn write_fields(freq: &Vec<u32>, sum: u64, out: &mut BitWriter)
    requires
        old(out).wf(),
        total(freq@) == sum,
    ensures
        final(out).wf(),
        final(out)@ == old(out)@ + fields(freq@, 0, sum as nat),
{
    let mut left: u64 = sum;
    let mut at: usize = 0;
    let ghost goal = out@ + fields(freq@, 0, sum as nat);
    proof {
        assert(freq@.take(0) =~= Seq::empty());
    }
    while at < freq.len() && left > 0
        invariant
            out.wf(),
            at <= freq@.len(),
            total(freq@) == sum,
            left + total(freq@.take(at as int)) == sum,
            goal == out@ + fields(freq@, at as int, left as nat),
        decreases freq@.len() - at,
    {
        let ghost before = out@;
        let frequency: u32 = freq[at];
        let width: u32 = width_for(left);
        out.push(frequency as u64, width);
        let ghost field = bits_of(frequency as nat, bit_width(left as nat));
        proof {
            lemma_take_total(freq@, at as int + 1);
            assert(freq@.take(at + 1).drop_last() =~= freq@.take(at as int));
        }
        at = at + 1;
        if frequency == 0 {
            let zeros: usize = zero_run(freq, at);
            write_chunks(zeros, out);
            proof {
                assert(goal =~= (before + field + chunks(zeros as nat)) + fields(
                    freq@,
                    at + zeros,
                    left as nat,
                ));
                lemma_zeros_bound(freq@, at as int);
                lemma_zeros_total(freq@, at as int, zeros as nat);
            }
            at = at + zeros;
        } else {
            proof {
                assert(goal =~= (before + field) + fields(
                    freq@,
                    at as int,
                    (left - frequency) as nat,
                ));
            }
            left = left - frequency as u64;
        }
    }
    proof {
        assert(fields(freq@, at as int, left as nat) =~= Seq::empty());
        assert(goal =~= out@);
    }
}

/// The frequencies before a position are part of the total.
pub proof fn lemma_take_total(freq: Seq<u32>, at: int)
    requires
        0 <= at <= freq.len(),
    ensures
        total(freq.take(at)) <= total(freq),
    decreases freq.len(),
{
    if at < freq.len() {
        lemma_take_total(freq.drop_last(), at);
        assert(freq.drop_last().take(at) =~= freq.take(at));
    } else {
        assert(freq.take(at) =~= freq);
    }
}

/// Zeros add nothing to the total before them.
proof fn lemma_zeros_total(freq: Seq<u32>, at: int, zeros: nat)
    requires
        0 <= at,
        at + zeros <= freq.len(),
        forall|i: int| at <= i < at + zeros ==> #[trigger] freq[i] == 0,
    ensures
        total(freq.take(at + zeros)) == total(freq.take(at)),
    decreases zeros,
{
    if zeros > 0 {
        lemma_zeros_total(freq, at, (zeros - 1) as nat);
        assert(freq.take(at + zeros).drop_last() =~= freq.take(at + zeros - 1));
        assert(freq[at + zeros - 1] == 0);
    }
}

/// Appends zeros to `known`.
fn append_zeros(known: &mut Vec<u32>, count: usize)
    ensures
        final(known)@ == old(known)@ + Seq::new(count as nat, |i: int| 0u32),
{
    let ghost before = known@;
    let mut done: usize = 0;
    while done < count
        invariant
            done <= count,
            known@ == before + Seq::new(done as nat, |i: int| 0u32),
        decreases count - done,
    {
        known.push(0);
        done = done + 1;
        proof {
            assert(known@ =~= before + Seq::new(done as nat, |i: int| 0u32));
        }
    }
    proof {
        assert(known@ =~= before + Seq::new(count as nat, |i: int| 0u32));
    }
}

/// Reads the chunks of a zero run.
fn read_zeros(reader: &mut BitReader, span: usize, known: &mut Vec<u32>) -> (read: Result<
    (),
    Error,
>)
    requires
        old(known)@.len() <= span <= 65_536,
    ensures
        final(reader).source() == old(reader).source(),
        final(reader).declared() == old(reader).declared(),
        match parsed_zeros(
            old(reader).source(),
            old(reader).declared(),
            old(reader).position(),
            span as nat,
            old(known)@,
        ) {
            Ok((most, at)) => read == Ok::<(), Error>(()) && final(known)@ == most
                && final(reader).position() == at && most.len() <= span && old(known)@.len() <= most.len(),
            Err((error, at)) => read == Err::<(), Error>(error) && final(reader).position() == at,
        },
{
    let ghost source = reader.source();
    let ghost declared = reader.declared();
    let ghost first = known@.len();
    let ghost goal = parsed_zeros(source, declared, reader.position(), span as nat, known@);
    proof {
        lemma2_to64();
    }
    loop
        invariant
            source == old(reader).source(),
            declared == old(reader).declared(),
            reader.source() == source,
            reader.declared() == declared,
            known@.len() <= span <= 65_536,
            first == old(known)@.len(),
            first <= known@.len(),
            goal == parsed_zeros(source, declared, reader.position(), span as nat, known@),
            goal == parsed_zeros(
                source,
                declared,
                old(reader).position(),
                span as nat,
                old(known)@,
            ),
        decreases span - known@.len(),
    {
        proof {
            lemma2_to64();
            lemma_bits_of_value(window(source, reader.position(), ZERO_RUN_BITS as nat));
        }
        let zeros: usize = match reader.take(ZERO_RUN_BITS) {
            Ok(zeros) => zeros as usize,
            Err(error) => {
                return Err(error);
            },
        };
        if zeros > span - known.len() {
            return Err(Error::CorruptData(Corruption::DescriptionToken));
        }
        append_zeros(known, zeros);
        if zeros < ZERO_RUN_CAP as usize {
            return Ok(());
        }
    }
}

/// Reads the fields of `span` frequencies whose total is `sum`.
pub fn read_fields(reader: &mut BitReader, span: usize, sum: u64) -> (read: Result<
    Vec<u32>,
    Error,
>)
    requires
        span <= 65_536,
        sum <= 65_536,
    ensures
        final(reader).source() == old(reader).source(),
        final(reader).declared() == old(reader).declared(),
        match parsed(
            old(reader).source(),
            old(reader).declared(),
            old(reader).position(),
            span as nat,
            sum as nat,
            Seq::empty(),
        ) {
            Ok((freq, at)) => read matches Ok(list) && list@ == freq && freq.len() == span
                && final(reader).position() == at,
            Err((error, at)) => read == Err::<Vec<u32>, Error>(error) && final(reader).position()
                == at,
        },
{
    let mut known: Vec<u32> = Vec::new();
    let mut left: u64 = sum;
    let ghost source = reader.source();
    let ghost declared = reader.declared();
    let ghost goal = parsed(
        source,
        declared,
        reader.position(),
        span as nat,
        sum as nat,
        Seq::empty(),
    );
    while known.len() < span && left > 0
        invariant
            span <= 65_536,
            left <= sum <= 65_536,
            known@.len() <= span,
            source == old(reader).source(),
            declared == old(reader).declared(),
            reader.source() == source,
            reader.declared() == declared,
            goal == parsed(
                source,
                declared,
                old(reader).position(),
                span as nat,
                sum as nat,
                Seq::empty(),
            ),
            goal == parsed(source, declared, reader.position(), span as nat, left as nat, known@),
        decreases span - known@.len(),
    {
        let width: u32 = width_for(left);
        let ghost at = reader.position();
        proof {
            lemma_bits_of_value(window(source, at, width as nat));
            lemma2_to64();
        }
        let frequency: u64 = match reader.take(width) {
            Ok(frequency) => frequency,
            Err(error) => {
                return Err(error);
            },
        };
        if frequency > left {
            return Err(Error::CorruptData(Corruption::FrequencySum));
        }
        known.push(frequency as u32);
        if frequency == 0 {
            match read_zeros(reader, span, &mut known) {
                Ok(()) => {},
                Err(error) => {
                    return Err(error);
                },
            }
        } else {
            left = left - frequency;
        }
    }
    let missing: usize = span - known.len();
    append_zeros(&mut known, missing);
    Ok(known)
}

/// Reading back a zero run's chunks.
proof fn lemma_chunks_read_back(
    source: Seq<u8>,
    declared: nat,
    at: nat,
    span: nat,
    known: Seq<u32>,
    zeros: nat,
    rest: Seq<bool>,
)
    requires
        known.len() + zeros <= span,
        at + (chunks(zeros) + rest).len() <= declared,
        window(source, at, (chunks(zeros) + rest).len()) == chunks(zeros) + rest,
    ensures
        parsed_zeros(source, declared, at, span, known) == Ok::<(Seq<u32>, nat), (Error, nat)>(
            (known + Seq::new(zeros, |i: int| 0u32), at + chunks(zeros).len()),
        ),
        window(source, at + chunks(zeros).len(), rest.len()) == rest,
    decreases zeros,
{
    lemma2_to64();
    let all = chunks(zeros) + rest;
    let whole = window(source, at, all.len());
    let first = if zeros < ZERO_RUN_CAP {
        zeros
    } else {
        ZERO_RUN_CAP as nat
    };
    let field = bits_of(first, 4);
    lemma_bits_of_len(first, 4);
    lemma_value_of_bits(first, 4);
    let read = window(source, at, 4);
    assert forall|i: int| 0 <= i < 4 implies read[i] == field[i] by {
        assert(whole[i] == all[i]);
        if zeros >= ZERO_RUN_CAP {
            assert(all[i] == chunks(zeros)[i]);
        }
    }
    assert(read =~= field);
    if zeros < ZERO_RUN_CAP {
        let after = window(source, at + 4, rest.len());
        assert forall|i: int| 0 <= i < rest.len() implies after[i] == rest[i] by {
            assert(whole[4 + i] == all[4 + i]);
        }
        assert(after =~= rest);
    } else {
        let less = (zeros - ZERO_RUN_CAP) as nat;
        let tail = chunks(less) + rest;
        let after = window(source, at + 4, tail.len());
        assert(chunks(zeros).len() == 4 + chunks(less).len());
        assert forall|i: int| 0 <= i < tail.len() implies after[i] == tail[i] by {
            assert(whole[4 + i] == all[4 + i]);
        }
        assert(after =~= tail);
        let more = known + Seq::new(ZERO_RUN_CAP as nat, |i: int| 0u32);
        lemma_chunks_read_back(source, declared, at + 4, span, more, less, rest);
        assert(more + Seq::new(less, |i: int| 0u32) =~= known + Seq::new(zeros, |i: int| 0u32));
    }
}

/// Reading back a table's fields gives the frequencies they were written from.
pub proof fn lemma_fields_read_back(
    source: Seq<u8>,
    declared: nat,
    at: nat,
    freq: Seq<u32>,
    done: nat,
    left: nat,
)
    requires
        done <= freq.len(),
        left + total(freq.take(done as int)) == total(freq),
        at + fields(freq, done as int, left).len() <= declared,
        window(source, at, fields(freq, done as int, left).len()) == fields(
            freq,
            done as int,
            left,
        ),
    ensures
        parsed(source, declared, at, freq.len(), left, freq.take(done as int)) == Ok::<
            (Seq<u32>, nat),
            (Error, nat),
        >((freq, at + fields(freq, done as int, left).len())),
    decreases freq.len() - done,
{
    let span = freq.len();
    let known = freq.take(done as int);
    let all = fields(freq, done as int, left);
    let whole = window(source, at, all.len());
    if done == span {
        assert(known =~= freq);
        assert(padded(known, span) =~= freq);
    } else if left == 0 {
        lemma_nothing_left(freq, done as int);
        assert(padded(known, span) =~= freq);
    } else {
        let frequency = freq[done as int];
        let width = bit_width(left);
        lemma_bit_width(left);
        lemma_take_total(freq, done as int + 1);
        assert(freq.take(done as int + 1).drop_last() =~= known);
        assert(frequency <= left);
        let field = bits_of(frequency as nat, width);
        lemma_bits_of_len(frequency as nat, width);
        lemma_value_of_bits(frequency as nat, width);
        let rest = all.skip(width as int);
        assert(all =~= field + rest);
        let read = window(source, at, width);
        assert forall|i: int| 0 <= i < width implies read[i] == field[i] by {
            assert(whole[i] == all[i]);
        }
        assert(read =~= field);
        let after = window(source, at + width, rest.len());
        assert forall|i: int| 0 <= i < rest.len() implies after[i] == rest[i] by {
            assert(whole[width + i] == all[width + i]);
        }
        assert(after =~= rest);
        assert(known.push(frequency) =~= freq.take(done as int + 1));
        if frequency == 0 {
            let zeros = zeros_at(freq, done as int + 1);
            lemma_zeros_bound(freq, done as int + 1);
            let more = fields(freq, done as int + 1 + zeros, left);
            assert(rest =~= chunks(zeros) + more);
            lemma_chunks_read_back(
                source,
                declared,
                at + width,
                span,
                freq.take(done as int + 1),
                zeros,
                more,
            );
            assert(freq.take(done as int + 1) + Seq::new(zeros, |i: int| 0u32) =~= freq.take(
                done as int + 1 + zeros,
            ));
            lemma_zeros_total(freq, done as int + 1, zeros);
            lemma_fields_read_back(
                source,
                declared,
                at + width + chunks(zeros).len(),
                freq,
                done + 1 + zeros,
                left,
            );
        } else {
            assert(rest =~= fields(freq, done as int + 1, (left - frequency) as nat));
            lemma_fields_read_back(
                source,
                declared,
                at + width,
                freq,
                done + 1,
                (left - frequency) as nat,
            );
        }
    }
}

/// When the total is assigned, the frequencies left are zeros.
proof fn lemma_nothing_left(freq: Seq<u32>, done: int)
    requires
        0 <= done <= freq.len(),
        total(freq.take(done)) == total(freq),
    ensures
        forall|i: int| done <= i < freq.len() ==> #[trigger] freq[i] == 0,
    decreases freq.len(),
{
    if done < freq.len() {
        let less = freq.drop_last();
        lemma_take_total(less, done);
        assert(less.take(done) =~= freq.take(done));
        lemma_nothing_left(less, done);
        assert forall|i: int| done <= i < freq.len() implies #[trigger] freq[i] == 0 by {
            if i < less.len() {
                assert(less[i] == freq[i]);
            }
        }
    }
}

proof fn lemma_chunks_len(zeros: nat)
    ensures
        chunks(zeros).len() <= 4 + 4 * zeros,
    decreases zeros,
{
    if zeros < ZERO_RUN_CAP {
        lemma_bits_of_len(zeros, ZERO_RUN_BITS as nat);
    } else {
        lemma_bits_of_len(ZERO_RUN_CAP as nat, ZERO_RUN_BITS as nat);
        lemma_chunks_len((zeros - ZERO_RUN_CAP) as nat);
    }
}

/// Fields spend at most seventeen bits a frequency.
pub proof fn lemma_fields_len(freq: Seq<u32>, at: int, left: nat)
    requires
        0 <= at <= freq.len(),
        left <= 4096,
    ensures
        fields(freq, at, left).len() <= 17 * (freq.len() - at),
    decreases freq.len() - at,
{
    if at < freq.len() && left > 0 {
        lemma2_to64();
        lemma_bit_width(left);
        let width = bit_width(left);
        if width > 14 {
            lemma_pow2_strictly_increases(13, (width - 1) as nat);
        }
        lemma_bits_of_len(freq[at] as nat, width);
        if freq[at] == 0 {
            let zeros = zeros_at(freq, at + 1);
            lemma_zeros_bound(freq, at + 1);
            lemma_chunks_len(zeros);
            lemma_fields_len(freq, at + 1 + zeros, left);
        } else {
            lemma_fields_len(
                freq,
                at + 1,
                if left >= freq[at] {
                    (left - freq[at]) as nat
                } else {
                    0
                },
            );
        }
    }
}

} // verus!
