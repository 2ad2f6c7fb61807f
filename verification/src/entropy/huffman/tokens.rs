//! Owns the token stream a list of code lengths is transmitted as.
//!
//! ```text
//! 0  + 4 bits    one length
//! 10 + 7 bits    a repeat of the length before it, two or more times
//! 11 + 8 bits    a run of zeros, two or more
//! ```
//!
//! At each position the longest admissible run is taken, a zero run in preference to a repeat,
//! so the token stream is a function of the lengths alone.

use vstd::prelude::*;
use vstd::arithmetic::power2::{lemma2_to64, pow2};
use crate::entropy::bits::{
    bits_of, lemma_bits_of_len, lemma_bits_of_value, lemma_value_of_bits, short_field, value_of,
    window, BitReader, BitWriter,
};
use crate::entropy::huffman::canonical::limited;
use crate::format::{Corruption, Error};

verus! {

/// Bits the literal token of a description spends on a code length.
///
/// Four, because the limit is 15 and no length the construction can produce needs a fifth bit.
pub const LITERAL_BITS: u32 = 4;

/// The token width of a repeat's count.
pub const REPEAT_COUNT_BITS: u32 = 7;

/// The token width of a zero run's count.
pub const ZERO_COUNT_BITS: u32 = 8;

/// The shortest run either form encodes. A shorter run costs less as literals.
pub const MIN_RUN: usize = 2;

/// The longest repeat one token carries.
pub const REPEAT_CAP: usize = 129;

/// The longest zero run one token carries.
pub const ZERO_CAP: usize = 257;

/// The run of `value` that starts at `at`.
pub open spec fn run_at(lengths: Seq<u32>, at: int, value: u32) -> nat
    decreases lengths.len() - at,
{
    if 0 <= at < lengths.len() && lengths[at] == value {
        1 + run_at(lengths, at + 1, value)
    } else {
        0
    }
}

/// The token of one length.
pub open spec fn literal_token(value: u32) -> Seq<bool> {
    seq![false] + bits_of(value as nat, LITERAL_BITS as nat)
}

/// The token of `count` repeats of the length before it.
pub open spec fn repeat_token(count: nat) -> Seq<bool> {
    seq![true, false] + bits_of((count - MIN_RUN) as nat, REPEAT_COUNT_BITS as nat)
}

/// The token of a run of `count` zeros.
pub open spec fn zero_token(count: nat) -> Seq<bool> {
    seq![true, true] + bits_of((count - MIN_RUN) as nat, ZERO_COUNT_BITS as nat)
}

/// The smaller of a run and what one token carries.
pub open spec fn capped(run: nat, cap: usize) -> nat {
    if run <= cap {
        run
    } else {
        cap as nat
    }
}

/// The tokens of the lengths from `at`, where the next `left` of them repeat the one before.
pub open spec fn tokens(lengths: Seq<u32>, at: int, left: nat) -> Seq<bool>
    decreases (if at <= lengths.len() { lengths.len() - at } else { 0 }), 1nat,
{
    if at >= lengths.len() || at < 0 {
        Seq::empty()
    } else if left >= MIN_RUN {
        let take = capped(left, REPEAT_CAP);
        repeat_token(take) + tokens(lengths, at + take, (left - take) as nat)
    } else if left == 1 {
        literal_token(lengths[at]) + tokens(lengths, at + 1, 0)
    } else {
        fresh_tokens(lengths, at)
    }
}

/// The tokens of the lengths from `at`, where nothing before `at` is repeated.
pub open spec fn fresh_tokens(lengths: Seq<u32>, at: int) -> Seq<bool>
    decreases (if at <= lengths.len() { lengths.len() - at } else { 0 }), 0nat,
{
    if at >= lengths.len() || at < 0 {
        Seq::empty()
    } else {
        let run = run_at(lengths, at, lengths[at]);
        if lengths[at] == 0 && run >= MIN_RUN {
            let take = capped(run, ZERO_CAP);
            zero_token(take) + tokens(lengths, at + take, 0)
        } else {
            literal_token(lengths[at]) + tokens(lengths, at + 1, (run - 1) as nat)
        }
    }
}

/// What a parse of the tokens from `at` reads, after it has read `known`.
///
/// Answers the lengths and the position after the last token, or the refusal and the position it
/// leaves the reader at: in front of a field the bits end inside, and past a run that is refused.
pub open spec fn parsed(source: Seq<u8>, declared: nat, at: nat, span: nat, known: Seq<u32>)
    -> Result<(Seq<u32>, nat), (Error, nat)>
    decreases span - known.len(),
{
    if known.len() >= span {
        Ok((known, at))
    } else if at + 1 > declared {
        Err((short_field(at, 1), at))
    } else if value_of(window(source, at, 1)) == 0 {
        if at + 1 + LITERAL_BITS > declared {
            Err((short_field(at + 1, LITERAL_BITS as nat), at + 1))
        } else {
            let value = value_of(window(source, at + 1, LITERAL_BITS as nat)) as u32;
            parsed(source, declared, at + 1 + LITERAL_BITS as nat, span, known.push(value))
        }
    } else if at + 2 > declared {
        Err((short_field(at + 1, 1), at + 1))
    } else if value_of(window(source, at + 1, 1)) == 1 {
        if at + 2 + ZERO_COUNT_BITS > declared {
            Err((short_field(at + 2, ZERO_COUNT_BITS as nat), at + 2))
        } else {
            let count = value_of(window(source, at + 2, ZERO_COUNT_BITS as nat)) + MIN_RUN as nat;
            if known.len() + count > span {
                Err(
                    (
                        Error::CorruptData(Corruption::DescriptionToken),
                        at + 2 + ZERO_COUNT_BITS as nat,
                    ),
                )
            } else {
                parsed(
                    source,
                    declared,
                    at + 2 + ZERO_COUNT_BITS as nat,
                    span,
                    known + Seq::new(count, |i: int| 0u32),
                )
            }
        }
    } else if at + 2 + REPEAT_COUNT_BITS > declared {
        Err((short_field(at + 2, REPEAT_COUNT_BITS as nat), at + 2))
    } else {
        let count = value_of(window(source, at + 2, REPEAT_COUNT_BITS as nat)) + MIN_RUN as nat;
        if known.len() == 0 || known.len() + count > span {
            Err(
                (
                    Error::CorruptData(Corruption::DescriptionToken),
                    at + 2 + REPEAT_COUNT_BITS as nat,
                ),
            )
        } else {
            parsed(
                source,
                declared,
                at + 2 + REPEAT_COUNT_BITS as nat,
                span,
                known + Seq::new(count, |i: int| known.last()),
            )
        }
    }
}

proof fn lemma_run_bound(lengths: Seq<u32>, at: int, value: u32)
    requires
        0 <= at <= lengths.len(),
    ensures
        at + run_at(lengths, at, value) <= lengths.len(),
        forall|i: int| at <= i < at + run_at(lengths, at, value) ==> #[trigger] lengths[i] == value,
    decreases lengths.len() - at,
{
    if at < lengths.len() && lengths[at] == value {
        lemma_run_bound(lengths, at + 1, value);
    }
}

/// The run of `value` that starts at `at`.
fn run_length(lengths: &Vec<u32>, at: usize, value: u32) -> (run: usize)
    requires
        at <= lengths@.len(),
    ensures
        run == run_at(lengths@, at as int, value),
        at + run <= lengths@.len(),
{
    let mut run: usize = 0;
    let count: usize = lengths.len();
    while at + run < count && lengths[at + run] == value
        invariant
            count == lengths@.len(),
            at + run <= lengths@.len(),
            run_at(lengths@, at as int, value) == run + run_at(lengths@, at + run, value),
        decreases lengths@.len() - at - run,
    {
        run = run + 1;
    }
    run
}

/// Writes the token of one length.
fn push_literal(out: &mut BitWriter, value: u32)
    requires
        old(out).wf(),
    ensures
        final(out).wf(),
        final(out)@ == old(out)@ + literal_token(value),
{
    let ghost before = out@;
    out.push(0, 1);
    out.push(value as u64, LITERAL_BITS);
    proof {
        reveal_with_fuel(bits_of, 2);
        assert(bits_of(0, 1) =~= seq![false]);
        assert(out@ =~= before + literal_token(value));
    }
}

/// Writes the token of a repeat.
fn push_repeat(out: &mut BitWriter, count: usize)
    requires
        old(out).wf(),
        count >= MIN_RUN,
    ensures
        final(out).wf(),
        final(out)@ == old(out)@ + repeat_token(count as nat),
{
    let ghost before = out@;
    out.push(2, 2);
    out.push((count - MIN_RUN) as u64, REPEAT_COUNT_BITS);
    proof {
        reveal_with_fuel(bits_of, 3);
        assert(bits_of(2, 2) =~= seq![true, false]);
        assert(out@ =~= before + repeat_token(count as nat));
    }
}

/// Writes the token of a zero run.
fn push_zeros(out: &mut BitWriter, count: usize)
    requires
        old(out).wf(),
        count >= MIN_RUN,
    ensures
        final(out).wf(),
        final(out)@ == old(out)@ + zero_token(count as nat),
{
    let ghost before = out@;
    out.push(3, 2);
    out.push((count - MIN_RUN) as u64, ZERO_COUNT_BITS);
    proof {
        reveal_with_fuel(bits_of, 3);
        assert(bits_of(3, 2) =~= seq![true, true]);
        assert(out@ =~= before + zero_token(count as nat));
    }
}

/// Writes the tokens of a list of lengths.
pub fn write_tokens(lengths: &Vec<u32>, out: &mut BitWriter)
    requires
        old(out).wf(),
    ensures
        final(out).wf(),
        final(out)@ == old(out)@ + tokens(lengths@, 0, 0),
{
    let mut at: usize = 0;
    let mut left: usize = 0;
    let ghost goal = out@ + tokens(lengths@, 0, 0);
    while at < lengths.len()
        invariant
            out.wf(),
            at + left <= lengths@.len(),
            goal == out@ + tokens(lengths@, at as int, left as nat),
        decreases lengths@.len() - at,
    {
        let ghost before = out@;
        if left >= MIN_RUN {
            let take: usize = if left < REPEAT_CAP { left } else { REPEAT_CAP };
            push_repeat(out, take);
            proof {
                assert(take == capped(left as nat, REPEAT_CAP));
                assert(goal =~= (before + repeat_token(take as nat)) + tokens(
                    lengths@,
                    at + take,
                    (left - take) as nat,
                ));
            }
            at = at + take;
            left = left - take;
        } else if left == 1 {
            push_literal(out, lengths[at]);
            proof {
                assert(goal =~= (before + literal_token(lengths@[at as int])) + tokens(
                    lengths@,
                    at + 1,
                    0,
                ));
            }
            at = at + 1;
            left = 0;
        } else {
            let value: u32 = lengths[at];
            let run: usize = run_length(lengths, at, value);
            proof {
                assert(tokens(lengths@, at as int, 0) == fresh_tokens(lengths@, at as int));
            }
            if value == 0 && run >= MIN_RUN {
                let take: usize = if run < ZERO_CAP { run } else { ZERO_CAP };
                push_zeros(out, take);
                proof {
                    assert(take == capped(run as nat, ZERO_CAP));
                    assert(goal =~= (before + zero_token(take as nat)) + tokens(
                        lengths@,
                        at + take,
                        0,
                    ));
                }
                at = at + take;
            } else {
                push_literal(out, value);
                proof {
                    assert(goal =~= (before + literal_token(value)) + tokens(
                        lengths@,
                        at + 1,
                        (run - 1) as nat,
                    ));
                }
                at = at + 1;
                left = run - 1;
            }
        }
    }
    proof {
        assert(tokens(lengths@, at as int, left as nat) =~= Seq::empty());
        assert(goal =~= out@);
    }
}

/// Appends `value` to `known`, `count` times.
fn append_run(known: &mut Vec<u32>, count: usize, value: u32)
    ensures
        final(known)@ == old(known)@ + Seq::new(count as nat, |i: int| value),
{
    let ghost before = known@;
    let mut done: usize = 0;
    while done < count
        invariant
            done <= count,
            known@ == before + Seq::new(done as nat, |i: int| value),
        decreases count - done,
    {
        known.push(value);
        done = done + 1;
        proof {
            assert(known@ =~= before + Seq::new(done as nat, |i: int| value));
        }
    }
    proof {
        assert(known@ =~= before + Seq::new(count as nat, |i: int| value));
    }
}

proof fn lemma_flag(bits: Seq<bool>)
    requires
        bits.len() == 1,
    ensures
        value_of(bits) == if bits[0] { 1nat } else { 0nat },
{
    reveal_with_fuel(value_of, 2);
}

/// Reads the tokens of `span` lengths, refusing the moment a token would pass the end of what
/// the reader was given, repeats a length nothing declared, or passes the end of the alphabet.
pub fn read_tokens(reader: &mut BitReader, span: usize) -> (read: Result<Vec<u32>, Error>)
    requires
        span <= 65_536,
    ensures
        final(reader).source() == old(reader).source(),
        final(reader).declared() == old(reader).declared(),
        match parsed(
            old(reader).source(),
            old(reader).declared(),
            old(reader).position(),
            span as nat,
            Seq::empty(),
        ) {
            Ok((lengths, at)) => read matches Ok(list) && list@ == lengths
                && final(reader).position() == at,
            Err((error, at)) => read == Err::<Vec<u32>, Error>(error) && final(reader).position()
                == at,
        },
{
    let mut lengths: Vec<u32> = Vec::new();
    let ghost source = reader.source();
    let ghost declared = reader.declared();
    let ghost goal = parsed(source, declared, reader.position(), span as nat, Seq::empty());
    proof {
        lemma2_to64();
    }
    while lengths.len() < span
        invariant
            span <= 65_536,
            lengths@.len() <= span,
            source == old(reader).source(),
            declared == old(reader).declared(),
            goal == parsed(source, declared, old(reader).position(), span as nat, Seq::empty()),
            reader.source() == source,
            reader.declared() == declared,
            goal == parsed(source, declared, reader.position(), span as nat, lengths@),
        decreases span - lengths@.len(),
    {
        let ghost at = reader.position();
        proof {
            lemma2_to64();
            lemma_bits_of_value(window(source, at, 1));
            lemma_bits_of_value(window(source, at + 1, LITERAL_BITS as nat));
            lemma_bits_of_value(window(source, at + 1, 1));
            lemma_bits_of_value(window(source, at + 2, ZERO_COUNT_BITS as nat));
            lemma_bits_of_value(window(source, at + 2, REPEAT_COUNT_BITS as nat));
        }
        let flag: u64 = match reader.take(1) {
            Ok(value) => value,
            Err(error) => {
                return Err(error);
            },
        };
        if flag == 0 {
            match reader.take(LITERAL_BITS) {
                Ok(value) => {
                    lengths.push(value as u32);
                },
                Err(error) => {
                    return Err(error);
                },
            }
            continue ;
        }
        let zero: u64 = match reader.take(1) {
            Ok(value) => value,
            Err(error) => {
                return Err(error);
            },
        };
        if zero == 1 {
            match reader.take(ZERO_COUNT_BITS) {
                Ok(value) => {
                    let count: usize = value as usize + MIN_RUN;
                    if count > span - lengths.len() {
                        return Err(Error::CorruptData(Corruption::DescriptionToken));
                    }
                    append_run(&mut lengths, count, 0);
                },
                Err(error) => {
                    return Err(error);
                },
            }
            continue ;
        }
        match reader.take(REPEAT_COUNT_BITS) {
            Ok(value) => {
                let count: usize = value as usize + MIN_RUN;
                if lengths.len() == 0 || count > span - lengths.len() {
                    return Err(Error::CorruptData(Corruption::DescriptionToken));
                }
                let previous: u32 = lengths[lengths.len() - 1];
                append_run(&mut lengths, count, previous);
            },
            Err(error) => {
                return Err(error);
            },
        }
    }
    Ok(lengths)
}

/// Reading back a token stream gives the lengths it was written from: from any position, with
/// `left` of the lengths ahead repeating the one before.
pub proof fn lemma_tokens_read_back(
    source: Seq<u8>,
    declared: nat,
    at: nat,
    lengths: Seq<u32>,
    done: nat,
    left: nat,
)
    requires
        limited(lengths),
        done + left <= lengths.len(),
        left > 0 ==> done > 0,
        forall|i: int| done <= i < done + left ==> #[trigger] lengths[i] == lengths[done - 1],
        at + tokens(lengths, done as int, left).len() <= declared,
        window(source, at, tokens(lengths, done as int, left).len()) == tokens(
            lengths,
            done as int,
            left,
        ),
    ensures
        parsed(source, declared, at, lengths.len(), lengths.take(done as int)) == Ok::<
            (Seq<u32>, nat),
            (Error, nat),
        >((lengths, at + tokens(lengths, done as int, left).len())),
    decreases lengths.len() - done,
{
    let span = lengths.len();
    let known = lengths.take(done as int);
    let all = tokens(lengths, done as int, left);
    lemma2_to64();
    if done == span {
        assert(known =~= lengths);
        assert(all =~= Seq::empty());
    } else if left >= MIN_RUN {
        let take = capped(left, REPEAT_CAP);
        let token = repeat_token(take);
        let rest = tokens(lengths, (done + take) as int, (left - take) as nat);
        lemma_bits_of_len((take - MIN_RUN) as nat, REPEAT_COUNT_BITS as nat);
        lemma_token_fields(source, at, token, rest, seq![true, false], (take - MIN_RUN) as nat, 7);
        assert(known + Seq::new(take, |i: int| known.last()) =~= lengths.take((done + take) as int));
        lemma_tokens_read_back(source, declared, at + 9, lengths, done + take, (left - take) as nat);
    } else if left == 1 {
        lemma_literal_read_back(source, declared, at, lengths, done, tokens(lengths, (done + 1) as int, 0));
        lemma_tokens_read_back(source, declared, at + 5, lengths, done + 1, 0);
    } else {
        let value = lengths[done as int];
        let run = run_at(lengths, done as int, value);
        lemma_run_bound(lengths, done as int, value);
        assert(all == fresh_tokens(lengths, done as int));
        if value == 0 && run >= MIN_RUN {
            let take = capped(run, ZERO_CAP);
            let token = zero_token(take);
            let rest = tokens(lengths, (done + take) as int, 0);
            lemma_bits_of_len((take - MIN_RUN) as nat, ZERO_COUNT_BITS as nat);
            lemma_token_fields(
                source,
                at,
                token,
                rest,
                seq![true, true],
                (take - MIN_RUN) as nat,
                8,
            );
            assert(known + Seq::new(take, |i: int| 0u32) =~= lengths.take((done + take) as int));
            lemma_tokens_read_back(source, declared, at + 10, lengths, done + take, 0);
        } else {
            lemma_literal_read_back(
                source,
                declared,
                at,
                lengths,
                done,
                tokens(lengths, (done + 1) as int, (run - 1) as nat),
            );
            assert forall|i: int| done + 1 <= i < done + 1 + (run - 1) implies #[trigger] lengths[i]
                == lengths[(done + 1) - 1] by {
                assert(lengths[i] == value);
            }
            lemma_tokens_read_back(source, declared, at + 5, lengths, done + 1, (run - 1) as nat);
        }
    }
}

/// The two flags and the count field of a run token, read where the token stands.
proof fn lemma_token_fields(
    source: Seq<u8>,
    at: nat,
    token: Seq<bool>,
    rest: Seq<bool>,
    flags: Seq<bool>,
    count: nat,
    width: nat,
)
    requires
        token == flags + bits_of(count, width),
        flags.len() == 2,
        count < pow2(width),
        window(source, at, (token + rest).len()) == token + rest,
    ensures
        value_of(window(source, at, 1)) == if flags[0] { 1nat } else { 0nat },
        value_of(window(source, at + 1, 1)) == if flags[1] { 1nat } else { 0nat },
        value_of(window(source, at + 2, width)) == count,
        (token + rest).len() == 2 + width + rest.len(),
        window(source, at + 2 + width, rest.len()) == rest,
{
    lemma_bits_of_len(count, width);
    let all = token + rest;
    let whole = window(source, at, all.len());
    assert(whole[0] == all[0]);
    assert(whole[1] == all[1]);
    lemma_flag(window(source, at, 1));
    lemma_flag(window(source, at + 1, 1));
    let field = window(source, at + 2, width);
    assert forall|i: int| 0 <= i < width implies field[i] == bits_of(count, width)[i] by {
        assert(whole[2 + i] == all[2 + i]);
    }
    assert(field =~= bits_of(count, width));
    lemma_value_of_bits(count, width);
    let after = window(source, at + 2 + width, rest.len());
    assert forall|i: int| 0 <= i < rest.len() implies after[i] == rest[i] by {
        assert(whole[2 + width + i] == all[2 + width + i]);
    }
    assert(after =~= rest);
}

/// One literal token, read where it stands.
proof fn lemma_literal_read_back(
    source: Seq<u8>,
    declared: nat,
    at: nat,
    lengths: Seq<u32>,
    done: nat,
    rest: Seq<bool>,
)
    requires
        limited(lengths),
        done < lengths.len(),
        at + (literal_token(lengths[done as int]) + rest).len() <= declared,
        window(source, at, (literal_token(lengths[done as int]) + rest).len()) == literal_token(
            lengths[done as int],
        ) + rest,
    ensures
        parsed(source, declared, at, lengths.len(), lengths.take(done as int)) == parsed(
            source,
            declared,
            at + 5,
            lengths.len(),
            lengths.take(done as int + 1),
        ),
        (literal_token(lengths[done as int]) + rest).len() == 5 + rest.len(),
        window(source, at + 5, rest.len()) == rest,
{
    let value = lengths[done as int];
    let all = literal_token(value) + rest;
    let whole = window(source, at, all.len());
    lemma_bits_of_len(value as nat, 4);
    lemma2_to64();
    assert(whole[0] == all[0]);
    lemma_flag(window(source, at, 1));
    let field = window(source, at + 1, 4);
    assert forall|i: int| 0 <= i < 4 implies field[i] == bits_of(value as nat, 4)[i] by {
        assert(whole[1 + i] == all[1 + i]);
    }
    assert(field =~= bits_of(value as nat, 4));
    lemma_value_of_bits(value as nat, 4);
    assert(lengths.take(done as int).push(value) =~= lengths.take(done as int + 1));
    let after = window(source, at + 5, rest.len());
    assert forall|i: int| 0 <= i < rest.len() implies after[i] == rest[i] by {
        assert(whole[5 + i] == all[5 + i]);
    }
    assert(after =~= rest);
}

/// Tokens spend at most ten bits a length.
pub proof fn lemma_tokens_len(lengths: Seq<u32>, at: int, left: nat)
    requires
        0 <= at <= lengths.len(),
    ensures
        tokens(lengths, at, left).len() <= 10 * (lengths.len() - at),
    decreases lengths.len() - at, 1nat,
{
    if at < lengths.len() {
        if left >= MIN_RUN {
            let take = capped(left, REPEAT_CAP);
            lemma_bits_of_len((take - MIN_RUN) as nat, REPEAT_COUNT_BITS as nat);
            if at + take <= lengths.len() {
                lemma_tokens_len(lengths, at + take, (left - take) as nat);
            }
        } else if left == 1 {
            lemma_bits_of_len(lengths[at] as nat, LITERAL_BITS as nat);
            lemma_tokens_len(lengths, at + 1, 0);
        } else {
            lemma_fresh_tokens_len(lengths, at);
        }
    }
}

proof fn lemma_fresh_tokens_len(lengths: Seq<u32>, at: int)
    requires
        0 <= at <= lengths.len(),
    ensures
        fresh_tokens(lengths, at).len() <= 10 * (lengths.len() - at),
    decreases lengths.len() - at, 0nat,
{
    if at < lengths.len() {
        let run = run_at(lengths, at, lengths[at]);
        lemma_run_bound(lengths, at, lengths[at]);
        if lengths[at] == 0 && run >= MIN_RUN {
            let take = capped(run, ZERO_CAP);
            lemma_bits_of_len((take - MIN_RUN) as nat, ZERO_COUNT_BITS as nat);
            lemma_tokens_len(lengths, at + take, 0);
        } else {
            lemma_bits_of_len(lengths[at] as nat, LITERAL_BITS as nat);
            lemma_tokens_len(lengths, at + 1, (run - 1) as nat);
        }
    }
}

} // verus!
