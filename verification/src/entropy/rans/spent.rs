//! Owns what a description spends: each frequency in the fewest bits that what is left of the
//! total allows, and a run of absent symbols in the fewest escapes that carry it; and what it may
//! be read from.

use vstd::arithmetic::power2::*;
use vstd::prelude::*;

use super::fields::{chunks, fields, parsed, parsed_zeros, zeros_at};
use crate::entropy::bits::{lemma_bits_of_len, value_of, window};
use crate::entropy::{bit_width, lemma_bit_width};
use crate::format::{Corruption, Error};

verus! {

/// Whether a field is the narrowest that holds a value of at most `bound`.
pub open spec fn narrowest_field(width: nat, bound: nat) -> bool {
    &&& 1 <= width
    &&& bound < pow2(width)
    &&& width > 1 ==> pow2((width - 1) as nat) <= bound
}

/// A run of zeros is as long as its zeros.
proof fn lemma_zeros(freq: Seq<u32>, at: int, end: int)
    requires
        0 <= at <= end <= freq.len(),
        forall|i: int| at <= i < end ==> #[trigger] freq[i] == 0,
        end < freq.len() ==> freq[end] != 0,
    ensures
        zeros_at(freq, at) == end - at,
    decreases end - at,
{
    if at < end {
        lemma_zeros(freq, at + 1, end);
    }
}

/// Escapes carry fifteen zeros each, and the last one what is left.
proof fn lemma_chunks(zeros: nat)
    ensures
        chunks(zeros).len() == 4 * (zeros / 15 + 1),
    decreases zeros,
{
    lemma_bits_of_len(zeros, 4);
    lemma_bits_of_len(15, 4);
    if zeros >= 15 {
        lemma_chunks((zeros - 15) as nat);
        assert(zeros / 15 == 1 + (zeros - 15) / 15);
    }
}

/// A frequency is described in the fewest bits that hold what is left of the total. A run of
/// absent symbols that ends at `end` is described in one such field and four bits for each fifteen
/// zeros after the first, and four more. Nothing is described once nothing of the total is left.
pub proof fn law_a_frequency_takes_the_fewest_bits(
    freq: Seq<u32>,
    at: int,
    left: nat,
    end: int,
) -> (width: nat)
    requires
        0 <= at < end <= freq.len(),
        0 < left,
        freq[at] <= left,
        freq[at] > 0 ==> end == at + 1,
        freq[at] == 0 ==> (end < freq.len() ==> freq[end] != 0) && forall|i: int|
            at <= i < end ==> #[trigger] freq[i] == 0,
    ensures
        narrowest_field(width, left),
        fields(freq, at, left).len() == width + fields(
            freq,
            end,
            (left - freq[at]) as nat,
        ).len() + if freq[at] == 0 {
            4 * ((end - at - 1) / 15 + 1)
        } else {
            0
        },
        forall|i: int| fields(freq, i, 0).len() == 0,
{
    let width = bit_width(left);
    lemma_bit_width(left);
    lemma_bits_of_len(freq[at] as nat, width);
    if freq[at] == 0 {
        lemma_zeros(freq, at + 1, end);
        lemma_chunks((end - at - 1) as nat);
    }
    width
}

/// The zeros escapes tell: fifteen for each of the first `full`, and those of the one behind.
pub open spec fn escaped(source: Seq<u8>, at: nat, full: nat) -> nat {
    15 * full + value_of(window(source, at + 4 * full, 4))
}

/// Whether the first `full` escapes from a position are full and the one behind is not.
pub open spec fn escapes_end(source: Seq<u8>, at: nat, full: nat) -> bool {
    &&& forall|k: nat| k < full ==> value_of(#[trigger] window(source, at + 4 * k, 4)) == 15
    &&& value_of(window(source, at + 4 * full, 4)) < 15
}

/// A run of zeros is read to its last escape.
proof fn lemma_escapes(
    source: Seq<u8>,
    declared: nat,
    at: nat,
    span: nat,
    known: Seq<u32>,
    full: nat,
)
    requires
        escapes_end(source, at, full),
        at + 4 * full + 4 <= declared,
        known.len() + escaped(source, at, full) <= span,
    ensures
        parsed_zeros(source, declared, at, span, known) == Ok::<(Seq<u32>, nat), (Error, nat)>(
            (
                known + Seq::new(escaped(source, at, full), |i: int| 0u32),
                at + 4 * full + 4,
            ),
        ),
    decreases full,
{
    assert(at + 4 * 0 == at);
    if full > 0 {
        assert(value_of(window(source, at + 4 * 0nat, 4)) == 15);
        let less = (full - 1) as nat;
        let more = known + Seq::new(15, |i: int| 0u32);
        assert forall|k: nat| k < less implies value_of(
            #[trigger] window(source, at + 4 + 4 * k, 4),
        ) == 15 by {
            assert(at + 4 * (k + 1) == at + 4 + 4 * k);
            assert(value_of(window(source, at + 4 * (k + 1), 4)) == 15);
        }
        assert(at + 4 + 4 * less == at + 4 * full);
        lemma_escapes(source, declared, at + 4, span, more, less);
        assert(more + Seq::new(escaped(source, at + 4, less), |i: int| 0u32) =~= known + Seq::new(
            escaped(source, at, full),
            |i: int| 0u32,
        ));
    }
}

/// What one field of a description reads, whatever the writer would have written. The field is the
/// narrowest that holds what is left of the total. More than is left is refused. A frequency is
/// taken from what is left; none is followed by escapes of four bits, fifteen zeros in each full
/// one, and the parse goes on behind the first that is not full. A description ends where nothing
/// is left, with zeros for the symbols behind, or where every symbol is told.
pub proof fn law_a_field_is_read(
    source: Seq<u8>,
    declared: nat,
    at: nat,
    span: nat,
    left: nat,
    known: Seq<u32>,
    width: nat,
    full: nat,
)
    requires
        known.len() < span,
        0 < left <= u32::MAX,
        narrowest_field(width, left),
        at + width <= declared,
    ensures
        ({
            let told = value_of(window(source, at, width));
            let next = at + width;
            let zeros = escaped(source, next, full);
            let answer = parsed(source, declared, at, span, left, known);
            &&& told > left ==> answer == Err::<(Seq<u32>, nat), (Error, nat)>(
                (Error::CorruptData(Corruption::FrequencySum), next),
            )
            &&& 0 < told <= left ==> answer == parsed(
                source,
                declared,
                next,
                span,
                (left - told) as nat,
                known.push(told as u32),
            )
            &&& told == 0 && escapes_end(source, next, full) && next + 4 * full + 4 <= declared
                && known.len() + 1 + zeros <= span ==> answer == parsed(
                source,
                declared,
                next + 4 * full + 4,
                span,
                left,
                known + Seq::new(1 + zeros, |i: int| 0u32),
            )
        }),
        parsed(source, declared, at, span, 0, known) == Ok::<(Seq<u32>, nat), (Error, nat)>(
            (known + Seq::new((span - known.len()) as nat, |i: int| 0u32), at),
        ),
        parsed(source, declared, at, known.len(), left, known) == Ok::<
            (Seq<u32>, nat),
            (Error, nat),
        >((known, at)),
{
    lemma_only_width(width, left);
    let told = value_of(window(source, at, width));
    let next = at + width;
    let zeros = escaped(source, next, full);
    if told == 0 && escapes_end(source, next, full) && next + 4 * full + 4 <= declared
        && known.len() + 1 + zeros <= span {
        lemma_escapes(source, declared, next, span, known.push(0), full);
        assert(known.push(0) + Seq::new(zeros, |i: int| 0u32) =~= known + Seq::new(
            1 + zeros,
            |i: int| 0u32,
        ));
    }
    assert(known + Seq::new(0, |i: int| 0u32) =~= known);
}

/// A bound has one narrowest field.
proof fn lemma_only_width(width: nat, bound: nat)
    requires
        narrowest_field(width, bound),
    ensures
        width == bit_width(bound),
{
    let other = bit_width(bound);
    lemma_bit_width(bound);
    if width < other {
        if width < other - 1 {
            lemma_pow2_strictly_increases(width, (other - 1) as nat);
        }
    } else if other < width {
        if other < width - 1 {
            lemma_pow2_strictly_increases(other, (width - 1) as nat);
        }
    }
}

} // verus!
