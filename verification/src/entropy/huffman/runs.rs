//! Owns what a description spends, a run of equal lengths in the fewest tokens that carry it, and
//! what it may be read from, any tokens that tell the lengths.

use vstd::arithmetic::power2::*;
use vstd::prelude::*;

use super::tokens::{
    fresh_tokens, literal_token, parsed, repeat_token, run_at, tokens, zero_token,
};
use super::CodeShape;
use crate::entropy::bits::{bits_of, lemma_bits_of_len, lemma_value_of_bits, value_of, window};
use crate::entropy::{bit_width, lemma_bit_width};
use crate::format::Error;

verus! {

/// Whether the lengths from `at` up to `end` are one value and the run ends there.
pub open spec fn is_run(lengths: Seq<u32>, at: int, end: int, value: u32) -> bool {
    &&& 0 <= at <= end <= lengths.len()
    &&& forall|i: int| at <= i < end ==> #[trigger] lengths[i] == value
    &&& end < lengths.len() ==> lengths[end] != value
}

/// The bits a run of absent symbols is described in: ten for each 257 of them, and for the rest
/// ten, or five where one is left.
pub open spec fn zero_run_bits(count: nat) -> nat {
    10 * (count / 257) + if count % 257 == 0 {
        0nat
    } else if count % 257 == 1 {
        5
    } else {
        10
    }
}

/// The bits the repeats of a length are described in: nine for each 129 of them, and for the rest
/// nine, or five where one is left.
pub open spec fn repeat_bits(count: nat) -> nat {
    9 * (count / 129) + if count % 129 == 0 {
        0nat
    } else if count % 129 == 1 {
        5
    } else {
        9
    }
}

/// A run is as long as its values.
proof fn lemma_run(lengths: Seq<u32>, at: int, end: int, value: u32)
    requires
        is_run(lengths, at, end, value),
    ensures
        run_at(lengths, at, value) == end - at,
    decreases end - at,
{
    if at < end {
        lemma_run(lengths, at + 1, end, value);
    }
}

/// A token is as long as its fields.
proof fn lemma_token_bits(value: u32, count: nat)
    ensures
        literal_token(value).len() == 5,
        repeat_token(count).len() == 9,
        zero_token(count).len() == 10,
{
    lemma_bits_of_len(value as nat, 4);
    lemma_bits_of_len((count - 2) as nat, 7);
    lemma_bits_of_len((count - 2) as nat, 8);
}

/// Repeats are described in full tokens and what is left.
proof fn lemma_repeats(lengths: Seq<u32>, at: int, left: nat)
    requires
        0 <= at,
        at + left <= lengths.len(),
    ensures
        tokens(lengths, at, left).len() == repeat_bits(left) + fresh_tokens(
            lengths,
            at + left,
        ).len(),
    decreases left,
{
    if left >= 2 {
        let take = if left <= 129 { left } else { 129 };
        lemma_token_bits(0, take);
        lemma_repeats(lengths, at + take, (left - take) as nat);
        assert(tokens(lengths, at, left).len() == 9 + tokens(
            lengths,
            at + take,
            (left - take) as nat,
        ).len());
        if left > 129 {
            assert(left / 129 == 1 + (left - 129) / 129);
            assert(left % 129 == (left - 129) % 129);
        }
    } else if left == 1 {
        lemma_token_bits(lengths[at], 2);
        assert(tokens(lengths, at + 1, 0) == fresh_tokens(lengths, at + 1));
    }
}

/// A run of equal lengths is described in as few tokens as carry it. A run of absent symbols takes
/// one token of ten bits for each 257 of it, and one for the rest; a run of a length takes five
/// bits, and nine for each 129 of its repeats, and nine for the rest. One length left over, of
/// either, takes five bits.
pub proof fn law_a_run_takes_the_fewest_tokens(lengths: Seq<u32>, at: int, end: int)
    requires
        0 <= at < end,
        is_run(lengths, at, end, lengths[at]),
    ensures
        fresh_tokens(lengths, at).len() == fresh_tokens(lengths, end).len() + if lengths[at] == 0 {
            zero_run_bits((end - at) as nat)
        } else {
            5 + repeat_bits((end - at - 1) as nat)
        },
    decreases end - at,
{
    let value = lengths[at];
    let run = (end - at) as nat;
    lemma_run(lengths, at, end, value);
    if value == 0 && run >= 2 {
        let take = if run <= 257 { run } else { 257 };
        lemma_token_bits(0, take);
        assert(fresh_tokens(lengths, at) == zero_token(take) + tokens(lengths, at + take, 0));
        assert(tokens(lengths, at + take, 0) == fresh_tokens(lengths, at + take));
        if run > 257 {
            law_a_run_takes_the_fewest_tokens(lengths, at + take, end);
            assert(run / 257 == 1 + (run - 257) / 257);
            assert(run % 257 == (run - 257) % 257);
        }
    } else {
        lemma_token_bits(value, 2);
        lemma_repeats(lengths, at + 1, (run - 1) as nat);
        assert(fresh_tokens(lengths, at) == literal_token(value) + tokens(
            lengths,
            at + 1,
            (run - 1) as nat,
        ));
    }
}

/// A description is one flag and the tokens of the lengths, or, where one symbol is all there is,
/// the flag and the fewest bits that tell the symbols of the alphabet apart.
pub proof fn law_a_description_is_a_flag_and_its_runs(shape: CodeShape)
    ensures
        shape.single is None ==> shape.description().len() == 1 + fresh_tokens(
            shape.lengths,
            0,
        ).len(),
        fresh_tokens(shape.lengths, shape.lengths.len() as int).len() == 0,
        shape.single is Some && shape.lengths.len() >= 2 ==> {
            let bits = (shape.description().len() - 1) as nat;
            &&& shape.lengths.len() <= pow2(bits)
            &&& bits >= 1
            &&& bits > 1 ==> pow2((bits - 1) as nat) < shape.lengths.len()
        },
{
    let size = shape.lengths.len();
    if let Some(symbol) = shape.single {
        if size >= 2 {
            lemma_bits_of_len(symbol as nat, bit_width((size - 1) as nat));
            lemma_bit_width((size - 1) as nat);
        }
    } else if size > 0 {
        assert(tokens(shape.lengths, 0, 0) == fresh_tokens(shape.lengths, 0));
    }
}

/// One token of a description.
pub ghost enum Token {
    /// One length.
    Length { value: u32 },
    /// Repeats of the length before it.
    Repeats { count: nat },
    /// Symbols that are absent.
    Absent { count: nat },
}

impl Token {
    /// Whether a token can stand behind lengths: a length of four bits, 2 to 129 repeats of a
    /// length that is there, or 2 to 257 absent symbols.
    pub open spec fn stands(self, known: Seq<u32>) -> bool {
        match self {
            Token::Length { value } => value < 16,
            Token::Repeats { count } => 2 <= count <= 129 && known.len() > 0,
            Token::Absent { count } => 2 <= count <= 257,
        }
    }

    /// The bits of a token: a zero and four bits of length; a one, a zero and seven bits of count;
    /// or two ones and eight bits of count. A count is told from two on.
    pub open spec fn bits(self) -> Seq<bool> {
        match self {
            Token::Length { value } => seq![false] + bits_of(value as nat, 4),
            Token::Repeats { count } => seq![true, false] + bits_of((count - 2) as nat, 7),
            Token::Absent { count } => seq![true, true] + bits_of((count - 2) as nat, 8),
        }
    }

    /// The lengths known once a token is read.
    pub open spec fn told(self, known: Seq<u32>) -> Seq<u32> {
        match self {
            Token::Length { value } => known.push(value),
            Token::Repeats { count } => known + Seq::new(count, |i: int| known.last()),
            Token::Absent { count } => known + Seq::new(count, |i: int| 0u32),
        }
    }
}

/// The bits at the front of a run of them.
proof fn lemma_front(source: Seq<u8>, at: nat, bits: Seq<bool>, from: nat, width: nat)
    requires
        window(source, at, bits.len()) == bits,
        from + width <= bits.len(),
    ensures
        window(source, at + from, width) == bits.subrange(from as int, (from + width) as int),
{
    assert forall|i: int| 0 <= i < width implies #[trigger] window(source, at + from, width)[i]
        == bits.subrange(from as int, (from + width) as int)[i] by {
        assert(window(source, at, bits.len())[from + i] == bits[from + i]);
    }
    assert(window(source, at + from, width) =~= bits.subrange(from as int, (from + width) as int));
}

/// A field behind a mark reads as its value.
proof fn lemma_marked(source: Seq<u8>, at: nat, mark: Seq<bool>, value: nat, width: nat)
    requires
        window(source, at, mark.len() + width) == mark + bits_of(value, width),
        value < pow2(width),
    ensures
        value_of(window(source, at + mark.len(), width)) == value,
        forall|i: nat|
            i < mark.len() ==> value_of(#[trigger] window(source, at + i, 1)) == if mark[i as int] {
                1nat
            } else {
                0
            },
{
    let all = mark + bits_of(value, width);
    lemma_bits_of_len(value, width);
    lemma_front(source, at, all, mark.len(), width);
    assert(all.subrange(mark.len() as int, (mark.len() + width) as int) =~= bits_of(value, width));
    lemma_value_of_bits(value, width);
    assert forall|i: nat| i < mark.len() implies value_of(#[trigger] window(source, at + i, 1))
        == if mark[i as int] {
        1nat
    } else {
        0
    } by {
        lemma_front(source, at, all, i, 1);
        let one = window(source, at + i, 1);
        assert(one.len() == 1 && one[0] == mark[i as int]);
        assert(one.drop_last().len() == 0);
        assert(value_of(one.drop_last()) == 0);
    }
}

/// Any token that can stand is read, whatever token a writer would have chosen. A parse that meets
/// its bits, with room for its lengths, goes on behind it with the lengths it tells.
pub proof fn law_any_token_is_read(
    source: Seq<u8>,
    declared: nat,
    at: nat,
    span: nat,
    known: Seq<u32>,
    token: Token,
)
    requires
        token.stands(known),
        known.len() < span,
        token.told(known).len() <= span,
        at + token.bits().len() <= declared,
        window(source, at, token.bits().len()) == token.bits(),
    ensures
        parsed(source, declared, at, span, known) == parsed(
            source,
            declared,
            at + token.bits().len(),
            span,
            token.told(known),
        ),
        parsed(source, declared, at, known.len(), known) == Ok::<
            (Seq<u32>, nat),
            (Error, nat),
        >((known, at)),
{
    lemma2_to64();
    match token {
        Token::Length { value } => {
            lemma_bits_of_len(value as nat, 4);
            lemma_marked(source, at, seq![false], value as nat, 4);
            assert(value_of(window(source, at + 0, 1)) == 0);
        },
        Token::Repeats { count } => {
            let told = (count - 2) as nat;
            lemma_bits_of_len(told, 7);
            lemma_marked(source, at, seq![true, false], told, 7);
            assert(value_of(window(source, at + 0, 1)) == 1);
            assert(value_of(window(source, at + 1, 1)) == 0);
        },
        Token::Absent { count } => {
            let told = (count - 2) as nat;
            lemma_bits_of_len(told, 8);
            lemma_marked(source, at, seq![true, true], told, 8);
            assert(value_of(window(source, at + 0, 1)) == 1);
            assert(value_of(window(source, at + 1, 1)) == 1);
        },
    }
}

} // verus!
