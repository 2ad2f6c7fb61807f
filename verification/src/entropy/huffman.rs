//! Owns canonical, length-limited Huffman: the code, the description that transmits it, the
//! validation a decoder applies before it allocates, and the single-level table it decodes
//! through.
//!
//! This module does not own which symbol class takes Huffman, and it does not own the block
//! that carries the description.
//!
//! ```text
//! build       counts -> the optimal code of at most `limit` bits per symbol
//! describe    a code -> the bits the stream carries
//! parse       bits -> what a decoder has read and does not yet trust
//! validate    what it read -> what it may allocate, or a typed rejection
//! build       an admitted description -> the decode table
//! ```
//!
//! The order is the contract. A decode table is reachable only from an `Admitted`, and an
//! `Admitted` is reachable only from `validate`, so no allocation can precede the validation
//! that sizes it.
//!
//! The lengths are optimal rather than repaired. A limit can be met by building an
//! unrestricted code and shortening what exceeds the limit, which is cheaper and is not
//! optimal. Package merge builds the optimal length-limited code directly, so the Kraft sum is
//! exactly one and the limit holds by construction.
//!
//! A stream of one distinct symbol carries a code of no bits at all, and the description says
//! so with a flag. The symbol carries no information, and the alternative is a one-bit code
//! whose Kraft sum is a half.

pub mod canonical;
pub mod laws;
pub mod merge;
pub mod order;
pub mod runs;
pub mod tokens;

use vstd::prelude::*;
use vstd::arithmetic::div_mod::{lemma_fundamental_div_mod, lemma_fundamental_div_mod_converse};
use vstd::arithmetic::power2::{
    lemma2_to64, lemma_pow2_adds, lemma_pow2_pos, lemma_pow2_strictly_increases,
    lemma_pow2_unfold, pow2,
};
use self::canonical::{
    assigned_before, assigns, canonical, code_value, complete, kraft, lemma_code_fits,
    lemma_kraft_update, lemma_kraft_zero, lemma_names_every_run, lemma_prefix_free,
    lemma_starts_with, limited, precedes, share, Assigned,
};
use self::merge::{
    ascending, lemma_merged_lengths, merged_length, naturals, package_merge, packages_fit, shares,
    spent,
};
use self::tokens::{parsed, read_tokens, tokens, write_tokens};
use super::bits::{
    bits_of, lemma_bits_of_len, lemma_bits_of_value, lemma_value_of_bits, short_field, value_of,
    window, BitReader, BitWriter,
};
use super::{
    bit_width, least, lemma_bit_width, shift_left, shift_right_wide, width_for, MAX_ALPHABET_SIZE,
};
use crate::format::{Corruption, Error};

verus! {

/// The longest code the format admits.
///
/// It bounds a decoder's table before the decoder has seen a table. A symbol that would want a
/// longer code occurs with probability below `2^-15`, so the limit costs almost nothing.
pub const LENGTH_LIMIT: u32 = 15;

/// The Kraft sum of a complete prefix code, in units of `2^-64`.
///
/// Below it the code has holes a hostile stream reaches; above it two symbols share a prefix.
pub const KRAFT_UNIT: u128 = 0x1_0000_0000_0000_0000;

/// The longest of a list of lengths.
pub open spec fn widest(lengths: Seq<u32>) -> u32
    decreases lengths.len(),
{
    if lengths.len() == 0 {
        0
    } else {
        let rest = widest(lengths.drop_last());
        if lengths.last() > rest {
            lengths.last()
        } else {
            rest
        }
    }
}

pub proof fn lemma_widest(lengths: Seq<u32>)
    ensures
        forall|s: int| 0 <= s < lengths.len() ==> #[trigger] lengths[s] <= widest(lengths),
        widest(lengths) > 0 ==> exists|s: int|
            0 <= s < lengths.len() && #[trigger] lengths[s] == widest(lengths),
    decreases lengths.len(),
{
    if lengths.len() > 0 {
        let less = lengths.drop_last();
        lemma_widest(less);
        assert forall|s: int| 0 <= s < lengths.len() implies #[trigger] lengths[s] <= widest(
            lengths,
        ) by {
            if s < less.len() {
                assert(less[s] == lengths[s]);
            }
        }
        if widest(lengths) > 0 {
            if lengths.last() > widest(less) {
                assert(lengths[lengths.len() - 1] == widest(lengths));
            } else {
                let s = choose|s: int| 0 <= s < less.len() && #[trigger] less[s] == widest(less);
                assert(lengths[s] == widest(lengths));
            }
        }
    }
}

/// What a code is: one length per symbol of its alphabet, or the one symbol it names.
#[verifier::ext_equal]
pub struct CodeShape {
    /// Zero for a symbol that does not occur, and for every symbol of a single-symbol code.
    pub lengths: Seq<u32>,
    /// The one symbol of a code of no bits.
    pub single: Option<u16>,
}

impl CodeShape {
    /// Whether this is a code over a permitted alphabet: a complete prefix code, or one symbol.
    pub open spec fn valid(self) -> bool {
        &&& 1 <= self.lengths.len() <= MAX_ALPHABET_SIZE
        &&& match self.single {
            Some(symbol) => (symbol as int) < self.lengths.len() && forall|s: int|
                0 <= s < self.lengths.len() ==> #[trigger] self.lengths[s] == 0,
            None => complete(self.lengths),
        }
    }

    /// Whether this code codes a symbol.
    pub open spec fn carries(self, symbol: u16) -> bool {
        match self.single {
            Some(only) => symbol == only,
            None => (symbol as int) < self.lengths.len() && self.lengths[symbol as int] > 0,
        }
    }

    /// Whether this code codes every symbol of a stream.
    pub open spec fn carries_all(self, symbols: Seq<u16>) -> bool {
        forall|i: int| 0 <= i < symbols.len() ==> self.carries(#[trigger] symbols[i])
    }

    /// The bits of one symbol.
    pub open spec fn word(self, symbol: u16) -> Seq<bool> {
        match self.single {
            Some(_) => Seq::empty(),
            None => canonical::word(self.lengths, symbol as int),
        }
    }

    /// The bits of a stream of symbols.
    pub open spec fn spell(self, symbols: Seq<u16>) -> Seq<bool>
        decreases symbols.len(),
    {
        if symbols.len() == 0 {
            Seq::empty()
        } else {
            self.spell(symbols.drop_last()) + self.word(symbols.last())
        }
    }

    /// The bytes a decoder allocates for this code: two for each slot of the widest code, and
    /// none for a single-symbol code.
    pub open spec fn table_bytes(self) -> nat {
        match self.single {
            Some(_) => 0,
            None => 2 * pow2(widest(self.lengths) as nat),
        }
    }

    /// The description that transmits this code.
    pub open spec fn description(self) -> Seq<bool> {
        match self.single {
            Some(symbol) => seq![true] + bits_of(
                symbol as nat,
                symbol_bits(self.lengths.len()),
            ),
            None => seq![false] + tokens(self.lengths, 0, 0),
        }
    }

    /// Whether the bits at a position start with one symbol's code.
    pub open spec fn reads(self, source: Seq<u8>, at: nat, symbol: u16) -> bool {
        self.carries(symbol) && window(source, at, self.word(symbol).len()) == self.word(symbol)
    }

    /// The symbol whose code the bits at a position start with.
    pub open spec fn symbol_at(self, source: Seq<u8>, at: nat) -> u16 {
        choose|symbol: u16| self.reads(source, at, symbol)
    }

    /// The first `count` symbols the bits from a position spell.
    pub open spec fn decoded(self, source: Seq<u8>, at: nat, count: nat) -> Seq<u16>
        decreases count,
    {
        if count == 0 {
            Seq::empty()
        } else {
            let before = self.decoded(source, at, (count - 1) as nat);
            before.push(self.symbol_at(source, at + self.spell(before).len()))
        }
    }

    /// The first `count` symbols a reader at a position decodes, and the position they leave it
    /// at. A reader's position is held at the largest count 64 bits carry.
    pub open spec fn run(self, source: Seq<u8>, at: nat, count: nat) -> (Seq<u16>, nat)
        decreases count,
    {
        if count == 0 {
            (Seq::empty(), at)
        } else {
            let (before, end) = self.run(source, at, (count - 1) as nat);
            let symbol = self.symbol_at(source, end);
            (before.push(symbol), least(end + self.word(symbol).len(), u64::MAX as nat))
        }
    }
}

/// Bits the single-symbol flag spends on its symbol.
pub open spec fn symbol_bits(alphabet_size: nat) -> nat {
    if alphabet_size <= 1 {
        1
    } else {
        bit_width((alphabet_size - 1) as nat)
    }
}

fn symbol_field_bits(alphabet_size: u32) -> (bits: u32)
    ensures
        bits as nat == symbol_bits(alphabet_size as nat),
        bits <= 64,
{
    if alphabet_size <= 1 {
        1
    } else {
        width_for((alphabet_size - 1) as u64)
    }
}

pub proof fn lemma_symbol_bits(alphabet_size: nat)
    requires
        1 <= alphabet_size <= MAX_ALPHABET_SIZE,
    ensures
        symbol_bits(alphabet_size) <= 8,
        alphabet_size <= pow2(symbol_bits(alphabet_size)) || alphabet_size == 1,
{
    lemma2_to64();
    if alphabet_size > 1 {
        let w = bit_width((alphabet_size - 1) as nat);
        lemma_bit_width((alphabet_size - 1) as nat);
        if w > 9 {
            lemma_pow2_strictly_increases(8, (w - 1) as nat);
        }
    }
}

/// The code of a word is as long as the symbol's length.
pub proof fn lemma_word_len(shape: CodeShape, symbol: u16)
    requires
        shape.valid(),
        shape.carries(symbol),
    ensures
        shape.single is None ==> shape.word(symbol).len() == shape.lengths[symbol as int],
        shape.word(symbol).len() <= LENGTH_LIMIT,
{
    if shape.single is None {
        lemma_code_fits(shape.lengths, symbol as int);
        assert(shape.lengths[symbol as int] <= LENGTH_LIMIT);
    }
}

/// Bytes the decode table occupies for a code whose longest code is `max_length`.
///
/// One entry per slot of the widest code, each holding a symbol and the width to skip.
#[must_use]
pub fn table_bytes_for(max_length: u32) -> (bytes: u64)
    ensures
        bytes as nat == (2 * pow2(max_length as nat)) % pow2(64),
        max_length <= 62 ==> bytes == 2 * pow2(max_length as nat),
{
    proof {
        lemma_pow2_unfold(63);
        lemma_pow2_unfold(64);
        lemma_pow2_pos(62);
        if max_length < 62 {
            lemma_pow2_strictly_increases(max_length as nat, 62);
        }
    }
    shift_left(2, max_length)
}

/// A built code: one length per symbol of the declared alphabet.
#[derive(Debug, PartialEq, Eq)]
pub struct Code {
    alphabet_size: u32,
    /// Zero for a symbol that does not occur. A single-symbol code declares every length zero
    /// and names its symbol, which is what separates the two.
    lengths: Vec<u32>,
    single: Option<u16>,
    max_length: u32,
}

impl View for Code {
    type V = CodeShape;

    closed spec fn view(&self) -> CodeShape {
        CodeShape { lengths: self.lengths@, single: self.single }
    }
}

impl Clone for Code {
    fn clone(&self) -> (copy: Self)
        ensures
            copy@ == self@,
            copy.wf() == self.wf(),
    {
        let lengths = self.lengths.clone();
        proof {
            assert(lengths@ =~= self.lengths@);
        }
        Code {
            alphabet_size: self.alphabet_size,
            lengths,
            single: self.single,
            max_length: self.max_length,
        }
    }
}

/// The entry a weight goes in front of: past every entry that weighs no more.
pub open spec fn place(list: Seq<(u64, u16)>, weight: u64) -> nat
    decreases list.len(),
{
    if list.len() == 0 {
        0
    } else if list.last().0 <= weight {
        list.len()
    } else {
        place(list.drop_last(), weight)
    }
}

/// The symbols that occur, by count and then by symbol.
pub open spec fn ranked(counts: Seq<u64>) -> Seq<(u64, u16)>
    decreases counts.len(),
{
    if counts.len() == 0 {
        Seq::empty()
    } else {
        let before = ranked(counts.drop_last());
        let count = counts.last();
        if count > 0 {
            before.insert(place(before, count) as int, (count, (counts.len() - 1) as u16))
        } else {
            before
        }
    }
}

/// The counts of a ranking.
pub open spec fn weights_of(list: Seq<(u64, u16)>) -> Seq<nat> {
    Seq::new(list.len(), |r: int| list[r].0 as nat)
}

/// The rank a symbol has.
pub open spec fn rank_of(list: Seq<(u64, u16)>, symbol: int) -> int {
    choose|r: int| 0 <= r < list.len() && (#[trigger] list[r]).1 == symbol
}

/// What a ranking holds: every symbol that occurs, once, with its count, lightest first.
pub open spec fn ranks(list: Seq<(u64, u16)>, counts: Seq<u64>) -> bool {
    &&& forall|r: int|
        0 <= r < list.len() ==> ((#[trigger] list[r]).1 as int) < counts.len() && list[r].0
            == counts[list[r].1 as int] && list[r].0 > 0
    &&& forall|a: int, b: int|
        0 <= a < b < list.len() ==> (#[trigger] list[a]).0 <= (#[trigger] list[b]).0 && list[a].1
            != list[b].1
    &&& forall|s: int|
        0 <= s < counts.len() && #[trigger] counts[s] > 0 ==> exists|r: int|
            0 <= r < list.len() && (#[trigger] list[r]).1 == s
}

proof fn lemma_place(list: Seq<(u64, u16)>, weight: u64)
    requires
        forall|a: int, b: int|
            0 <= a < b < list.len() ==> (#[trigger] list[a]).0 <= (#[trigger] list[b]).0,
    ensures
        place(list, weight) <= list.len(),
        forall|r: int| 0 <= r < place(list, weight) ==> (#[trigger] list[r]).0 <= weight,
        forall|r: int| place(list, weight) <= r < list.len() ==> (#[trigger] list[r]).0 > weight,
    decreases list.len(),
{
    if list.len() > 0 {
        let less = list.drop_last();
        if list.last().0 <= weight {
            assert forall|r: int| 0 <= r < list.len() implies (#[trigger] list[r]).0 <= weight by {
                if r < list.len() - 1 {
                    assert(list[r].0 <= list[list.len() - 1].0);
                }
            }
        } else {
            assert forall|a: int, b: int| 0 <= a < b < less.len() implies (#[trigger] less[a]).0
                <= (#[trigger] less[b]).0 by {
                assert(less[a] == list[a] && less[b] == list[b]);
            }
            lemma_place(less, weight);
            assert forall|r: int| 0 <= r < place(list, weight) implies (#[trigger] list[r]).0
                <= weight by {
                assert(less[r] == list[r]);
            }
            assert forall|r: int| place(list, weight) <= r < list.len() implies (
            #[trigger] list[r]).0 > weight by {
                if r < less.len() {
                    assert(less[r] == list[r]);
                }
            }
        }
    }
}

/// Inserting a symbol past the ones a ranking holds keeps it a ranking.
pub proof fn lemma_ranks_insert(before: Seq<(u64, u16)>, less: Seq<u64>, count: u64)
    requires
        ranks(before, less),
        count > 0,
        less.len() < 65_536,
    ensures
        ranks(
            before.insert(place(before, count) as int, (count, less.len() as u16)),
            less.push(count),
        ),
        place(before, count) <= before.len(),
{
    lemma_place(before, count);
    let p = place(before, count) as int;
    let counts = less.push(count);
    let list = before.insert(p, (count, less.len() as u16));
    assert forall|r: int| 0 <= r < list.len() implies ((#[trigger] list[r]).1 as int)
        < counts.len() && list[r].0 == counts[list[r].1 as int] && list[r].0 > 0 by {
        if r < p {
            assert(list[r] == before[r]);
        } else if r > p {
            assert(list[r] == before[r - 1]);
        }
    }
    assert forall|a: int, b: int| 0 <= a < b < list.len() implies (#[trigger] list[a]).0 <= (
    #[trigger] list[b]).0 && list[a].1 != list[b].1 by {
        let x = if a < p {
            a
        } else {
            a - 1
        };
        let y = if b < p {
            b
        } else {
            b - 1
        };
        if a != p {
            assert(list[a] == before[x]);
        }
        if b != p {
            assert(list[b] == before[y]);
        }
    }
    assert forall|s: int| 0 <= s < counts.len() && #[trigger] counts[s] > 0 implies exists|r: int|
        0 <= r < list.len() && (#[trigger] list[r]).1 == s by {
        if s == less.len() {
            assert(list[p].1 == s);
        } else {
            assert(less[s] == counts[s]);
            let r = choose|r: int| 0 <= r < before.len() && (#[trigger] before[r]).1 == s;
            if r < p {
                assert(list[r] == before[r]);
            } else {
                assert(list[r + 1] == before[r]);
            }
        }
    }
}

pub proof fn lemma_ranked(counts: Seq<u64>)
    requires
        counts.len() <= 65_536,
    ensures
        ranks(ranked(counts), counts),
        ranked(counts).len() <= counts.len(),
    decreases counts.len(),
{
    if counts.len() > 0 {
        let less = counts.drop_last();
        lemma_ranked(less);
        let before = ranked(less);
        assert(less.push(counts.last()) =~= counts);
        if counts.last() > 0 {
            lemma_ranks_insert(before, less, counts.last());
        } else {
            assert forall|r: int| 0 <= r < before.len() implies ((#[trigger] before[r]).1 as int)
                < counts.len() && before[r].0 == counts[before[r].1 as int] && before[r].0 > 0 by {
                assert(less[before[r].1 as int] == counts[before[r].1 as int]);
            }
            assert forall|s: int| 0 <= s < counts.len() && #[trigger] counts[s] > 0 implies exists|
                r: int,
            | 0 <= r < before.len() && (#[trigger] before[r]).1 == s by {
                assert(less[s] == counts[s]);
            }
        }
    }
}

/// The symbols that occur, by count and then by symbol.
fn rank(counts: &[u64]) -> (list: Vec<(u64, u16)>)
    requires
        counts@.len() <= MAX_ALPHABET_SIZE,
    ensures
        list@ == ranked(counts@),
        ranks(list@, counts@),
        list@.len() <= counts@.len(),
{
    let mut present: Vec<(u64, u16)> = Vec::new();
    let mut symbol: usize = 0;
    proof {
        assert(counts@.take(0) =~= Seq::empty());
    }
    while symbol < counts.len()
        invariant
            symbol <= counts@.len() <= MAX_ALPHABET_SIZE,
            present@ == ranked(counts@.take(symbol as int)),
        decreases counts@.len() - symbol,
    {
        let count: u64 = counts[symbol];
        proof {
            assert(counts@.take(symbol + 1).drop_last() =~= counts@.take(symbol as int));
            lemma_ranked(counts@.take(symbol as int));
        }
        if count > 0 {
            let mut at: usize = present.len();
            proof {
                assert(present@.take(present@.len() as int) =~= present@);
            }
            while at > 0 && present[at - 1].0 > count
                invariant
                    at <= present@.len(),
                    place(present@, count) == place(present@.take(at as int), count),
                decreases at,
            {
                proof {
                    assert(present@.take(at as int).drop_last() =~= present@.take(at - 1));
                }
                at = at - 1;
            }
            proof {
                if at > 0 {
                    assert(present@.take(at as int).last() == present@[at - 1]);
                }
            }
            present.insert(at, (count, symbol as u16));
        }
        symbol = symbol + 1;
    }
    proof {
        assert(counts@.take(symbol as int) =~= counts@);
        lemma_ranked(counts@);
    }
    present
}

/// A count is placed inside the ranking.
proof fn lemma_place_bound(list: Seq<(u64, u16)>, count: u64)
    ensures
        place(list, count) <= list.len(),
    decreases list.len(),
{
    if list.len() > 0 {
        lemma_place_bound(list.drop_last(), count);
    }
}

/// How many symbols occur.
fn occurring(counts: &[u64]) -> (symbols: usize)
    ensures
        symbols == distinct(counts@),
{
    let mut symbols: usize = 0;
    let mut at: usize = 0;
    proof {
        assert(counts@.take(0) =~= Seq::empty());
    }
    while at < counts.len()
        invariant
            symbols <= at <= counts@.len(),
            symbols == distinct(counts@.take(at as int)),
        decreases counts@.len() - at,
    {
        proof {
            assert(counts@.take(at + 1).drop_last() =~= counts@.take(at as int));
            lemma_place_bound(ranked(counts@.take(at as int)), counts@[at as int]);
        }
        if counts[at] > 0 {
            symbols = symbols + 1;
        }
        at = at + 1;
    }
    proof {
        assert(counts@.take(at as int) =~= counts@);
    }
    symbols
}

/// The lengths package merge gives the symbols that occur.
pub open spec fn built_lengths(counts: Seq<u64>, limit: nat) -> Seq<u32> {
    Seq::new(
        counts.len(),
        |s: int|
            if counts[s] > 0 {
                merged_length(
                    weights_of(ranked(counts)),
                    limit,
                    rank_of(ranked(counts), s),
                ) as u32
            } else {
                0
            },
    )
}

/// The code a build answers.
pub open spec fn built(counts: Seq<u64>, limit: nat) -> CodeShape {
    let present = ranked(counts);
    if present.len() == 1 {
        CodeShape {
            lengths: Seq::new(counts.len(), |s: int| 0u32),
            single: Some(present[0].1),
        }
    } else {
        CodeShape { lengths: built_lengths(counts, limit), single: None }
    }
}

/// Whether a build answers a code: the counts span a permitted alphabet, a symbol occurs, and
/// the limit and 64-bit weights hold the symbols that do.
pub open spec fn buildable(counts: Seq<u64>, alphabet_size: u32, limit: u32) -> bool {
    let present = ranked(counts);
    &&& counts.len() == alphabet_size
    &&& 1 <= alphabet_size <= MAX_ALPHABET_SIZE
    &&& limit <= LENGTH_LIMIT
    &&& present.len() >= 1
    &&& present.len() > 1 ==> limit > 0 && present.len() <= pow2(limit as nat) && packages_fit(
        weights_of(present),
        (limit - 1) as nat,
    )
}

/// The symbols of a stream that occur.
pub open spec fn distinct(counts: Seq<u64>) -> nat {
    ranked(counts).len()
}

/// The widest limit whose table fits a budget, at or above the narrowest that holds the symbols.
pub open spec fn limit_within(limit: nat, narrowest: nat, budget: nat) -> Option<nat>
    decreases limit,
{
    if 2 * pow2(limit) <= budget {
        Some(limit)
    } else if limit <= narrowest {
        None
    } else {
        limit_within((limit - 1) as nat, narrowest, budget)
    }
}

/// The narrowest limit that holds a number of symbols.
pub open spec fn narrowest_limit(symbols: nat) -> nat
    recommends
        symbols >= 2,
{
    bit_width((symbols - 1) as nat)
}

/// The symbols of a permitted alphabet fit a permitted limit.
pub proof fn lemma_narrowest_limit(counts: Seq<u64>)
    requires
        1 < distinct(counts),
        counts.len() <= MAX_ALPHABET_SIZE,
    ensures
        narrowest_limit(distinct(counts)) <= LENGTH_LIMIT,
{
    lemma_ranked(counts);
    let below = (distinct(counts) - 1) as nat;
    let narrowest = bit_width(below);
    lemma_bit_width(below);
    lemma2_to64();
    if narrowest > 9 {
        lemma_pow2_strictly_increases(8, (narrowest - 1) as nat);
    }
}

/// What a stream costs under code lengths, in bits.
pub open spec fn total_bits(counts: Seq<u64>, lengths: Seq<u32>) -> nat
    decreases counts.len(),
{
    if counts.len() == 0 {
        0
    } else {
        total_bits(counts.drop_last(), lengths) + counts.last() as nat * lengths[counts.len() - 1] as nat
    }
}

impl Code {
    /// The lengths span the alphabet, are a code, and the longest is the one carried.
    pub closed spec fn wf(&self) -> bool {
        &&& self@.valid()
        &&& self.lengths@.len() == self.alphabet_size
        &&& self.max_length == widest(self.lengths@)
    }

    /// What a well-formed code is.
    pub proof fn lemma_wf(&self)
        requires
            self.wf(),
        ensures
            self@.valid(),
    {
    }

    /// The optimal code of at most `limit` bits per symbol, over the counts a stream produced.
    ///
    /// `counts` is indexed by symbol and spans the declared alphabet. Scratch memory is bounded
    /// by the alphabet and the limit, never by the stream.
    ///
    /// Refuses counts that span no permitted alphabet, counts where no symbol occurs, and a
    /// limit too small to hold the symbols that do.
    pub fn build(counts: &[u64], alphabet_size: u32, limit: u32) -> (code: Result<Self, Error>)
        ensures
            buildable(counts@, alphabet_size, limit) ==> (code matches Ok(code) && code.wf()
                && code@ == built(counts@, limit as nat)),
            !buildable(counts@, alphabet_size, limit) ==> code == Err::<Self, Error>(
                Error::InvalidParameter,
            ),
    {
        if counts.len() != alphabet_size as usize || alphabet_size == 0 || alphabet_size
            > MAX_ALPHABET_SIZE || limit > LENGTH_LIMIT {
            return Err(Error::InvalidParameter);
        }
        let present: Vec<(u64, u16)> = rank(counts);
        let span: usize = counts.len();
        if present.len() == 0 {
            return Err(Error::InvalidParameter);
        }
        let mut lengths: Vec<u32> = vec![0u32; span];
        proof {
            lemma_kraft_zero(lengths@);
            lemma_widest_zero(lengths@);
        }
        if present.len() == 1 {
            proof {
                assert(lengths@ =~= Seq::new(counts@.len(), |s: int| 0u32));
            }
            return Ok(
                Code { alphabet_size, lengths, single: Some(present[0].1), max_length: 0 },
            );
        }
        let mut weights: Vec<u64> = Vec::new();
        let mut at: usize = 0;
        while at < present.len()
            invariant
                at <= present@.len(),
                weights@.len() == at,
                forall|r: int| 0 <= r < at ==> #[trigger] weights@[r] == present@[r].0,
            decreases present@.len() - at,
        {
            weights.push(present[at].0);
            at = at + 1;
        }
        let ghost leaves = weights_of(present@);
        proof {
            assert(naturals(weights@) =~= leaves);
            assert(ascending(leaves)) by {
                assert forall|i: int, j: int| 0 <= i <= j < leaves.len() implies #[trigger] leaves[i]
                    <= #[trigger] leaves[j] by {
                    if i < j {
                        assert(present@[i].0 <= present@[j].0);
                    }
                }
            }
        }
        let by_rank: Vec<u32> = match package_merge(&weights, limit) {
            Ok(by_rank) => by_rank,
            Err(error) => {
                return Err(error);
            },
        };
        proof {
            lemma_merged_lengths(leaves, limit as nat);
        }
        let ghost k = (limit - 1) as nat;
        let ghost n = (2 * leaves.len() - 2) as nat;
        let mut r: usize = 0;
        while r < present.len()
            invariant
                r <= present@.len(),
                0 < limit <= LENGTH_LIMIT,
                counts@.len() == span == lengths@.len(),
                ranks(present@, counts@),
                leaves == weights_of(present@),
                k == (limit - 1) as nat,
                n == (2 * leaves.len() - 2) as nat,
                by_rank@.len() == present@.len(),
                forall|i: int|
                    0 <= i < present@.len() ==> #[trigger] by_rank@[i] == merged_length(
                        leaves,
                        limit as nat,
                        i,
                    ),
                forall|i: int|
                    0 <= i < leaves.len() ==> 1 <= #[trigger] merged_length(leaves, limit as nat, i)
                        <= limit,
                forall|i: int|
                    0 <= i < r ==> lengths@[(#[trigger] present@[i]).1 as int] == by_rank@[i],
                forall|s: int|
                    0 <= s < span && (forall|i: int| 0 <= i < r ==> (#[trigger] present@[i]).1 != s)
                        ==> #[trigger] lengths@[s] == 0,
                limited(lengths@),
                kraft(lengths@) == shares(leaves, k, n, r as nat),
            decreases present@.len() - r,
        {
            let symbol: usize = present[r].1 as usize;
            let length: u32 = by_rank[r];
            let ghost before = lengths@;
            proof {
                assert(present@[r as int].1 < span);
                assert(before[symbol as int] == 0) by {
                    assert forall|i: int| 0 <= i < r implies (#[trigger] present@[i]).1
                        != symbol as int by {
                        assert(present@[i].1 != present@[r as int].1);
                    }
                }
                lemma_kraft_update(before, symbol as int, length);
                assert(merged_length(leaves, limit as nat, r as int) == length);
            }
            lengths.set(symbol, length);
            proof {
                assert(lengths@ == before.update(symbol as int, length));
                assert forall|i: int| 0 <= i < r + 1 implies lengths@[(
                #[trigger] present@[i]).1 as int] == by_rank@[i] by {
                    if i < r {
                        assert(present@[i].1 != present@[r as int].1);
                    }
                }
                assert forall|s: int|
                    0 <= s < span && (forall|i: int|
                        0 <= i < r + 1 ==> (#[trigger] present@[i]).1 != s) implies #[trigger] lengths@[s]
                    == 0 by {
                    assert(present@[r as int].1 != s);
                    assert(forall|i: int| 0 <= i < r ==> (#[trigger] present@[i]).1 != s);
                    assert(before[s] == 0);
                }
            }
            r = r + 1;
        }
        proof {
            let goal = built_lengths(counts@, limit as nat);
            assert forall|s: int| 0 <= s < span implies #[trigger] lengths@[s] == goal[s] by {
                if counts@[s] > 0 {
                    let i = rank_of(present@, s);
                    assert(exists|i: int| 0 <= i < present@.len() && (#[trigger] present@[i]).1 == s);
                    assert(0 <= i < present@.len() && present@[i].1 == s);
                    assert(lengths@[present@[i].1 as int] == by_rank@[i]);
                } else {
                    assert forall|i: int| 0 <= i < present@.len() implies (
                    #[trigger] present@[i]).1 != s by {
                        assert(present@[i].0 > 0);
                    }
                }
            }
            assert(lengths@ =~= goal);
        }
        let max_length: u32 = longest(&lengths);
        Ok(Code { alphabet_size, lengths, single: None, max_length })
    }

    /// The optimal code whose decode table fits `budget_bytes`.
    ///
    /// The declared limit alone admits a table of 65 536 bytes, which is the whole ceiling a
    /// block may declare over its four tables. An encoder that has already spent part of that
    /// ceiling therefore re-limits the code to what is left. A re-limited code is still the
    /// optimal complete prefix code at its own limit, not a repaired one.
    ///
    /// Answers `LimitExceeded` when no admissible limit holds the symbols that occur inside the
    /// budget, naming the bytes the narrowest code would have required.
    pub fn build_within(counts: &[u64], alphabet_size: u32, budget_bytes: u64) -> (code: Result<
        Self,
        Error,
    >)
        ensures
            distinct(counts@) <= 1 ==> {
                &&& buildable(counts@, alphabet_size, LENGTH_LIMIT) ==> (code matches Ok(code)
                    && code.wf() && code@ == built(counts@, LENGTH_LIMIT as nat))
                &&& !buildable(counts@, alphabet_size, LENGTH_LIMIT) ==> code == Err::<Self, Error>(
                    Error::InvalidParameter,
                )
            },
            distinct(counts@) > 1 && narrowest_limit(distinct(counts@)) > LENGTH_LIMIT ==> code
                == Err::<Self, Error>(Error::InvalidParameter),
            distinct(counts@) > 1 && narrowest_limit(distinct(counts@)) <= LENGTH_LIMIT
                ==> match limit_within(
                LENGTH_LIMIT as nat,
                narrowest_limit(distinct(counts@)),
                budget_bytes as nat,
            ) {
                Some(limit) => {
                    &&& buildable(counts@, alphabet_size, limit as u32) ==> (code matches Ok(code)
                        && code.wf() && code@ == built(counts@, limit) && code@.table_bytes()
                        <= budget_bytes)
                    &&& !buildable(counts@, alphabet_size, limit as u32) ==> code == Err::<
                        Self,
                        Error,
                    >(Error::InvalidParameter)
                },
                None => code == Err::<Self, Error>(
                    Error::LimitExceeded {
                        declared: (2 * pow2(narrowest_limit(distinct(counts@)))) as u64,
                        allowed: budget_bytes,
                    },
                ),
            },
    {
        let symbols: usize = occurring(counts);
        if symbols <= 1 {
            return Self::build(counts, alphabet_size, LENGTH_LIMIT);
        }
        let narrowest: u32 = width_for((symbols - 1) as u64);
        if narrowest > LENGTH_LIMIT {
            return Err(Error::InvalidParameter);
        }
        let mut limit: u32 = LENGTH_LIMIT;
        while table_bytes_for(limit) > budget_bytes
            invariant
                limit <= LENGTH_LIMIT,
                1 <= narrowest <= LENGTH_LIMIT,
                symbols == distinct(counts@),
                symbols >= 2,
                narrowest as nat == narrowest_limit(symbols as nat),
                limit_within(LENGTH_LIMIT as nat, narrowest as nat, budget_bytes as nat)
                    == limit_within(limit as nat, narrowest as nat, budget_bytes as nat),
            decreases limit,
        {
            if limit <= narrowest {
                return Err(
                    Error::LimitExceeded {
                        declared: table_bytes_for(narrowest),
                        allowed: budget_bytes,
                    },
                );
            }
            limit = limit - 1;
        }
        let code = Self::build(counts, alphabet_size, limit);
        proof {
            if buildable(counts@, alphabet_size, limit) {
                let shape = built(counts@, limit as nat);
                lemma_built_limited(counts@, limit);
                lemma_widest(shape.lengths);
                if widest(shape.lengths) < limit {
                    lemma_pow2_strictly_increases(widest(shape.lengths) as nat, limit as nat);
                }
            }
        }
        code
    }

    /// The alphabet this code spans.
    #[must_use]
    pub fn alphabet_size(&self) -> (size: u32)
        requires
            self.wf(),
        ensures
            size == self@.lengths.len(),
    {
        self.alphabet_size
    }

    /// The lengths of this code, by symbol.
    #[must_use]
    pub fn lengths(&self) -> (lengths: &[u32])
        ensures
            lengths@ == self@.lengths,
    {
        self.lengths.as_slice()
    }

    /// The longest code, which is zero for a single-symbol code.
    #[must_use]
    pub fn max_length(&self) -> (length: u32)
        requires
            self.wf(),
        ensures
            length == widest(self@.lengths),
    {
        self.max_length
    }

    /// The bytes a decoder allocates for this code.
    #[must_use]
    pub fn table_bytes(&self) -> (bytes: u64)
        requires
            self.wf(),
        ensures
            bytes as nat == self@.table_bytes(),
    {
        proof {
            lemma_widest(self.lengths@);
            assert(self.single is None ==> self.max_length <= LENGTH_LIMIT);
        }
        if self.single.is_some() {
            0
        } else {
            table_bytes_for(self.max_length)
        }
    }

    /// Whether this code codes a symbol.
    #[must_use]
    pub fn carries(&self, symbol: u16) -> (carried: bool)
        ensures
            carried == self@.carries(symbol),
    {
        match self.single {
            Some(only) => symbol == only,
            None => (symbol as usize) < self.lengths.len() && self.lengths[symbol as usize] > 0,
        }
    }

    /// The bits a stream of these counts spends under this code.
    ///
    /// Refuses counts that do not span the alphabet, a symbol that occurs and that this code
    /// does not carry, and a total 64 bits do not carry.
    pub fn encoded_bits_for_counts(&self, counts: &[u64]) -> (bits: Result<u64, Error>)
        requires
            self.wf(),
        ensures
            countable(self@, counts@) ==> bits == Ok::<u64, Error>(
                total_bits(counts@, self@.lengths) as u64,
            ),
            !countable(self@, counts@) ==> bits == Err::<u64, Error>(Error::InvalidParameter),
    {
        if counts.len() != self.lengths.len() {
            return Err(Error::InvalidParameter);
        }
        let mut total: u64 = 0;
        let mut symbol: usize = 0;
        while symbol < counts.len()
            invariant
                self.wf(),
                symbol <= counts@.len() == self@.lengths.len(),
                forall|s: int|
                    0 <= s < symbol && #[trigger] counts@[s] > 0 ==> self@.carries(s as u16),
                total == total_bits(counts@.take(symbol as int), self@.lengths),
            decreases counts@.len() - symbol,
        {
            let count: u64 = counts[symbol];
            let length: u32 = self.lengths[symbol];
            proof {
                assert(counts@.take(symbol + 1).drop_last() =~= counts@.take(symbol as int));
                lemma_total_monotone(counts@, self@.lengths, symbol as int + 1);
            }
            if count > 0 && !self.carries(symbol as u16) {
                return Err(Error::InvalidParameter);
            }
            match count.checked_mul(length as u64) {
                Some(spent) => {
                    match total.checked_add(spent) {
                        Some(sum) => {
                            total = sum;
                        },
                        None => {
                            return Err(Error::InvalidParameter);
                        },
                    }
                },
                None => {
                    return Err(Error::InvalidParameter);
                },
            }
            symbol = symbol + 1;
        }
        proof {
            assert(counts@.take(symbol as int) =~= counts@);
        }
        Ok(total)
    }

    /// Writes the description a decoder rebuilds this code from.
    ///
    /// The form is a token stream over the lengths: a literal length, a repeat of the previous
    /// length, or a run of zeros. At each position the longest admissible run is taken, a zero
    /// run in preference to a repeat, so the description is a function of the lengths alone.
    pub fn describe(&self, out: &mut BitWriter)
        requires
            self.wf(),
            old(out).wf(),
        ensures
            final(out).wf(),
            final(out)@ == old(out)@ + self@.description(),
    {
        let ghost before = out@;
        proof {
            reveal_with_fuel(bits_of, 2);
            assert(bits_of(1, 1) =~= seq![true]);
            assert(bits_of(0, 1) =~= seq![false]);
        }
        match self.single {
            Some(symbol) => {
                out.push(1, 1);
                out.push(symbol as u64, symbol_field_bits(self.alphabet_size));
                proof {
                    assert(out@ =~= before + self@.description());
                }
            },
            None => {
                out.push(0, 1);
                write_tokens(&self.lengths, out);
                proof {
                    assert(out@ =~= before + self@.description());
                }
            },
        }
    }

    /// The encoder table: the canonical code and its width, per symbol.
    pub fn encoder(&self) -> (encoder: Result<Encoder, Error>)
        requires
            self.wf(),
        ensures
            encoder matches Ok(encoder) && encoder.wf() && encoder@ == self@,
    {
        let span: usize = self.lengths.len();
        let mut table: Vec<CodeWord> = Vec::new();
        let mut filled: usize = 0;
        while filled < span
            invariant
                filled <= span,
                table@.len() == filled,
                forall|s: int|
                    0 <= s < filled ==> (#[trigger] table@[s]) == (CodeWord { value: 0, width: 0 }),
            decreases span - filled,
        {
            table.push(CodeWord { value: 0, width: 0 });
            filled = filled + 1;
        }
        if self.single.is_some() {
            return Ok(Encoder { table, single: self.single, shape: Ghost(self@) });
        }
        let assigned: Vec<Assigned> = match canonical(self.lengths.as_slice()) {
            Ok(assigned) => assigned,
            Err(error) => {
                return Err(error);
            },
        };
        let mut at: usize = 0;
        while at < assigned.len()
            invariant
                at <= assigned@.len(),
                table@.len() == span == self.lengths@.len(),
                assigned_before(self.lengths@, assigned@, LENGTH_LIMIT + 1, 0),
                forall|i: int|
                    0 <= i < at ==> words_entry(
                        self.lengths@,
                        table@[(#[trigger] assigned@[i]).symbol as int],
                        assigned@[i].symbol as int,
                    ),
                forall|s: int|
                    0 <= s < span && self.lengths@[s] == 0 ==> (#[trigger] table@[s]).width == 0,
            decreases assigned@.len() - at,
        {
            let entry: Assigned = assigned[at];
            let ghost before = table@;
            proof {
                assert(assigns(self.lengths@, assigned@[at as int]));
            }
            table.set(entry.symbol as usize, CodeWord { value: entry.value, width: entry.length });
            proof {
                assert forall|i: int| 0 <= i < at + 1 implies words_entry(
                    self.lengths@,
                    table@[(#[trigger] assigned@[i]).symbol as int],
                    assigned@[i].symbol as int,
                ) by {
                    assert(assigns(self.lengths@, assigned@[i]));
                }
            }
            at = at + 1;
        }
        proof {
            assert forall|s: int| 0 <= s < span && self.lengths@[s] > 0 implies words_entry(
                self.lengths@,
                #[trigger] table@[s],
                s,
            ) by {
                assert(limited(self.lengths@));
                assert(precedes(self.lengths@[s], s, LENGTH_LIMIT + 1, 0));
                let i = choose|i: int|
                    0 <= i < assigned@.len() && (#[trigger] assigned@[i]).symbol == s;
                assert(words_entry(
                    self.lengths@,
                    table@[assigned@[i].symbol as int],
                    assigned@[i].symbol as int,
                ));
            }
        }
        Ok(Encoder { table, single: None, shape: Ghost(self@) })
    }
}

/// Whether a stream's counts can be costed: they span the alphabet, every symbol that occurs is
/// one the code carries, and 64 bits carry the total.
pub open spec fn countable(shape: CodeShape, counts: Seq<u64>) -> bool {
    &&& counts.len() == shape.lengths.len()
    &&& forall|s: int|
        0 <= s < counts.len() && #[trigger] counts[s] > 0 ==> shape.carries(s as u16)
    &&& total_bits(counts, shape.lengths) <= u64::MAX
}

proof fn lemma_total_monotone(counts: Seq<u64>, lengths: Seq<u32>, n: int)
    requires
        0 <= n <= counts.len(),
    ensures
        total_bits(counts.take(n), lengths) <= total_bits(counts, lengths),
    decreases counts.len(),
{
    if n < counts.len() {
        lemma_total_monotone(counts.drop_last(), lengths, n);
        assert(counts.drop_last().take(n) =~= counts.take(n));
        let c = counts.last() as nat;
        let l = lengths[counts.len() - 1] as nat;
        assert(c * l >= 0) by (nonlinear_arith);
    } else {
        assert(counts.take(n) =~= counts);
    }
}

proof fn lemma_widest_zero(lengths: Seq<u32>)
    requires
        forall|s: int| 0 <= s < lengths.len() ==> #[trigger] lengths[s] == 0,
    ensures
        widest(lengths) == 0,
{
    lemma_widest(lengths);
}

/// The longest of a list of lengths.
fn longest(lengths: &Vec<u32>) -> (length: u32)
    ensures
        length == widest(lengths@),
{
    let mut length: u32 = 0;
    let mut at: usize = 0;
    proof {
        assert(lengths@.take(0) =~= Seq::empty());
    }
    while at < lengths.len()
        invariant
            at <= lengths@.len(),
            length == widest(lengths@.take(at as int)),
        decreases lengths@.len() - at,
    {
        proof {
            assert(lengths@.take(at + 1).drop_last() =~= lengths@.take(at as int));
        }
        if lengths[at] > length {
            length = lengths[at];
        }
        at = at + 1;
    }
    proof {
        assert(lengths@.take(at as int) =~= lengths@);
    }
    length
}

/// A built code's lengths hold the limit it was built at.
pub proof fn lemma_built_limited(counts: Seq<u64>, limit: u32)
    requires
        buildable(counts, counts.len() as u32, limit),
        distinct(counts) > 1,
    ensures
        forall|s: int|
            0 <= s < counts.len() ==> #[trigger] built(counts, limit as nat).lengths[s] <= limit,
{
    let present = ranked(counts);
    let leaves = weights_of(present);
    lemma_ranked(counts);
    assert forall|i: int, j: int| 0 <= i <= j < leaves.len() implies #[trigger] leaves[i]
        <= #[trigger] leaves[j] by {
        if i < j {
            assert(present[i].0 <= present[j].0);
        }
    }
    lemma_merged_lengths(leaves, limit as nat);
    assert forall|s: int| 0 <= s < counts.len() implies #[trigger] built(counts, limit as nat).lengths[s]
        <= limit by {
        if counts[s] > 0 {
            let r = rank_of(present, s);
            assert(exists|r: int| 0 <= r < present.len() && (#[trigger] present[r]).1 == s);
            assert(merged_length(leaves, limit as nat, r) <= limit);
        }
    }
}

/// The encoder's per-symbol code word.
#[derive(Clone, Copy, Debug)]
struct CodeWord {
    value: u16,
    width: u32,
}

/// Whether a word is the canonical code of one symbol.
spec fn words_entry(lengths: Seq<u32>, word: CodeWord, symbol: int) -> bool {
    word.width == lengths[symbol] && word.value as nat == code_value(lengths, symbol)
}

/// Writes symbols under a built code.
pub struct Encoder {
    table: Vec<CodeWord>,
    single: Option<u16>,
    shape: Ghost<CodeShape>,
}

impl View for Encoder {
    type V = CodeShape;

    closed spec fn view(&self) -> CodeShape {
        self.shape@
    }
}

impl Encoder {
    /// The table holds the canonical code of every symbol the code carries.
    pub closed spec fn wf(&self) -> bool {
        &&& self@.valid()
        &&& self.single == self@.single
        &&& self.table@.len() == self@.lengths.len()
        &&& self.single is None ==> forall|s: int|
            0 <= s < self.table@.len() ==> {
                &&& self@.lengths[s] > 0 ==> words_entry(
                    self@.lengths,
                    #[trigger] self.table@[s],
                    s,
                )
                &&& self@.lengths[s] == 0 ==> self.table@[s].width == 0
            }
    }

    /// Writes every symbol of `symbols`.
    ///
    /// A single-symbol code writes no bits, which is what its zero-length code means. A symbol
    /// outside the alphabet the code was built over, or that the code gave no length, is
    /// refused where it stands, after the symbols before it.
    pub fn write(&self, symbols: &[u16], out: &mut BitWriter) -> (written: Result<(), Error>)
        requires
            self.wf(),
            old(out).wf(),
        ensures
            final(out).wf(),
            self@.carries_all(symbols@) ==> written == Ok::<(), Error>(()) && final(out)@ == old(
                out,
            )@ + self@.spell(symbols@),
            !self@.carries_all(symbols@) ==> written == Err::<(), Error>(Error::InvalidParameter)
                && exists|n: int|
                0 <= n < symbols@.len() && self@.carries_all(#[trigger] symbols@.take(n))
                    && !self@.carries(symbols@[n]) && final(out)@ == old(out)@ + self@.spell(
                    symbols@.take(n),
                ),
    {
        let ghost before = out@;
        let mut at: usize = 0;
        proof {
            assert(symbols@.take(0) =~= Seq::empty());
            assert(out@ =~= before + self@.spell(symbols@.take(0)));
        }
        while at < symbols.len()
            invariant
                self.wf(),
                out.wf(),
                at <= symbols@.len(),
                before == old(out)@,
                out@ == before + self@.spell(symbols@.take(at as int)),
                self@.carries_all(symbols@.take(at as int)),
            decreases symbols@.len() - at,
        {
            let symbol: u16 = symbols[at];
            let coded: bool = match self.single {
                Some(only) => symbol == only,
                None => (symbol as usize) < self.table.len() && self.table[symbol as usize].width
                    > 0,
            };
            proof {
                assert(coded == self@.carries(symbol));
                assert(symbols@.take(at + 1).drop_last() =~= symbols@.take(at as int));
                assert(symbols@.take(at + 1).last() == symbol);
            }
            if !coded {
                proof {
                    assert(!self@.carries(symbols@[at as int]));
                }
                return Err(Error::InvalidParameter);
            }
            let ghost held = out@;
            if self.single.is_none() {
                let word: CodeWord = self.table[symbol as usize];
                out.push(word.value as u64, word.width);
            }
            proof {
                assert(out@ =~= held + self@.word(symbol));
                assert(out@ =~= before + self@.spell(symbols@.take(at + 1)));
                assert forall|i: int| 0 <= i < at + 1 implies self@.carries(
                    #[trigger] symbols@.take(at + 1)[i],
                ) by {
                    if i < at {
                        assert(symbols@.take(at as int)[i] == symbols@[i]);
                    }
                }
            }
            at = at + 1;
        }
        proof {
            assert(symbols@.take(at as int) =~= symbols@);
        }
        Ok(())
    }
}

/// A description a decoder has read and does not yet trust.
///
/// Nothing here is proportional to the bytes the stream carried: the lengths span the declared
/// alphabet, which is a property of the symbol model and not of the input.
#[derive(Debug, PartialEq, Eq)]
pub struct Declared {
    pub alphabet_size: u32,
    pub lengths: Vec<u32>,
    pub single: Option<u16>,
}

/// What a parse of a description reads, or why it refuses, and where it leaves the reader.
pub open spec fn parse_description(source: Seq<u8>, declared: nat, at: nat, alphabet_size: nat)
    -> Result<(CodeShape, nat), (Error, nat)> {
    if alphabet_size == 0 || alphabet_size > MAX_ALPHABET_SIZE {
        Err((Error::InvalidParameter, at))
    } else if at + 1 > declared {
        Err((short_field(at, 1), at))
    } else if value_of(window(source, at, 1)) == 1 {
        let width = symbol_bits(alphabet_size);
        if at + 1 + width > declared {
            Err((short_field(at + 1, width), at + 1))
        } else {
            Ok(
                (
                    CodeShape {
                        lengths: Seq::new(alphabet_size, |s: int| 0u32),
                        single: Some(value_of(window(source, at + 1, width)) as u16),
                    },
                    at + 1 + width,
                ),
            )
        }
    } else {
        match parsed(source, declared, at + 1, alphabet_size, Seq::empty()) {
            Ok((lengths, end)) => Ok((CodeShape { lengths, single: None }, end)),
            Err(error) => Err(error),
        }
    }
}

/// What validation answers for a description.
pub open spec fn validated(alphabet_size: nat, shape: CodeShape) -> Result<CodeShape, Error> {
    match shape.single {
        Some(symbol) => if symbol as nat >= alphabet_size {
            Err(Error::CorruptData(Corruption::SymbolAlphabet))
        } else {
            Ok(shape)
        },
        None => if shape.lengths.len() != alphabet_size {
            Err(Error::CorruptData(Corruption::LengthCount))
        } else if !limited(shape.lengths) {
            Err(Error::CorruptData(Corruption::CodeLength))
        } else if coded(shape.lengths) < 2 {
            Err(Error::CorruptData(Corruption::LengthCount))
        } else if kraft(shape.lengths) != pow2(64) {
            Err(Error::CorruptData(Corruption::KraftSum))
        } else {
            Ok(shape)
        },
    }
}

/// The symbols that have a length.
pub open spec fn coded(lengths: Seq<u32>) -> nat
    decreases lengths.len(),
{
    if lengths.len() == 0 {
        0
    } else {
        coded(lengths.drop_last()) + if lengths.last() > 0 {
            1nat
        } else {
            0
        }
    }
}

impl View for Declared {
    type V = CodeShape;

    open spec fn view(&self) -> CodeShape {
        CodeShape { lengths: self.lengths@, single: self.single }
    }
}

impl Declared {
    /// What a parse leaves: a permitted alphabet, and a single-symbol code of no lengths.
    pub open spec fn wf(&self) -> bool {
        &&& 1 <= self.alphabet_size <= MAX_ALPHABET_SIZE
        &&& self.single is Some ==> self.lengths@ == Seq::new(
            self.alphabet_size as nat,
            |s: int| 0u32,
        )
    }

    /// Reads a description, refusing the moment it would pass the end of what it was given.
    ///
    /// Answers `TruncatedInput` when the description ends inside a field, and `CorruptData`
    /// when a token repeats a length nothing declared or a run passes the end of the alphabet.
    pub fn parse(reader: &mut BitReader, alphabet_size: u32) -> (read: Result<Self, Error>)
        ensures
            final(reader).source() == old(reader).source(),
            final(reader).declared() == old(reader).declared(),
            match parse_description(
                old(reader).source(),
                old(reader).declared(),
                old(reader).position(),
                alphabet_size as nat,
            ) {
                Ok((shape, at)) => read matches Ok(declared) && declared.wf() && declared@ == shape
                    && declared.alphabet_size == alphabet_size && final(reader).position() == at,
                Err((error, at)) => read == Err::<Self, Error>(error) && final(reader).position()
                    == at,
            },
    {
        if alphabet_size == 0 || alphabet_size > MAX_ALPHABET_SIZE {
            return Err(Error::InvalidParameter);
        }
        let span: usize = alphabet_size as usize;
        let width: u32 = symbol_field_bits(alphabet_size);
        proof {
            lemma2_to64();
            lemma_symbol_bits(alphabet_size as nat);
            lemma_bits_of_value(
                window(reader.source(), reader.position() + 1, width as nat),
            );
            lemma_bits_of_value(window(reader.source(), reader.position(), 1));
            if width < 8 {
                lemma_pow2_strictly_increases(width as nat, 8);
            }
        }
        let flag: u64 = match reader.take(1) {
            Ok(flag) => flag,
            Err(error) => {
                return Err(error);
            },
        };
        if flag == 1 {
            let symbol: u64 = match reader.take(width) {
                Ok(symbol) => symbol,
                Err(error) => {
                    return Err(error);
                },
            };
            let lengths: Vec<u32> = vec![0u32; span];
            proof {
                assert(lengths@ =~= Seq::new(alphabet_size as nat, |s: int| 0u32));
            }
            return Ok(Declared { alphabet_size, lengths, single: Some(symbol as u16) });
        }
        match read_tokens(reader, span) {
            Ok(lengths) => Ok(Declared { alphabet_size, lengths, single: None }),
            Err(error) => Err(error),
        }
    }

    /// Applies every rule a decoder holds a description to before it allocates for it.
    ///
    /// Each rule is a property of the description alone, so an invalid table is refused without
    /// decoding a symbol under it.
    pub fn validate(self) -> (admitted: Result<Admitted, Error>)
        requires
            self.wf(),
        ensures
            match validated(self.alphabet_size as nat, self@) {
                Ok(shape) => admitted matches Ok(admitted) && admitted.wf() && admitted@ == shape,
                Err(error) => admitted == Err::<Admitted, Error>(error),
            },
    {
        let span: usize = self.alphabet_size as usize;
        match self.single {
            Some(symbol) => {
                if symbol as u32 >= self.alphabet_size {
                    return Err(Error::CorruptData(Corruption::SymbolAlphabet));
                }
                proof {
                    lemma_widest_zero(self.lengths@);
                }
                return Ok(
                    Admitted {
                        code: Code {
                            alphabet_size: self.alphabet_size,
                            lengths: self.lengths,
                            single: Some(symbol),
                            max_length: 0,
                        },
                    },
                );
            },
            None => {},
        }
        if self.lengths.len() != span {
            return Err(Error::CorruptData(Corruption::LengthCount));
        }
        let mut sum: u128 = 0;
        let mut count: u32 = 0;
        let mut at: usize = 0;
        let ghost all = self.lengths@;
        proof {
            assert(all.take(0) =~= Seq::empty());
            lemma2_to64();
        }
        while at < span
            invariant
                at <= span == all.len(),
                span <= MAX_ALPHABET_SIZE,
                all == self.lengths@,
                self.single is None,
                span == self.alphabet_size,
                forall|s: int| 0 <= s < at ==> #[trigger] all[s] <= LENGTH_LIMIT,
                sum == kraft(all.take(at as int)),
                sum <= at * 0x1_0000_0000_0000_0000,
                count == coded(all.take(at as int)),
                count <= at,
            decreases span - at,
        {
            let length: u32 = self.lengths[at];
            proof {
                assert(all.take(at + 1).drop_last() =~= all.take(at as int));
                assert(all.take(at + 1).last() == length);
                assert(all[at as int] == length);
            }
            if length > LENGTH_LIMIT {
                return Err(Error::CorruptData(Corruption::CodeLength));
            }
            if length > 0 {
                let part: u128 = shift_right_wide(KRAFT_UNIT, length);
                proof {
                    lemma2_to64();
                    lemma_pow2_adds(length as nat, (64 - length) as nat);
                    lemma_pow2_pos(length as nat);
                    lemma_pow2_pos((64 - length) as nat);
                    vstd::arithmetic::div_mod::lemma_div_by_multiple(
                        pow2((64 - length) as nat) as int,
                        pow2(length as nat) as int,
                    );
                    assert(pow2((64 - length) as nat) * pow2(length as nat) == pow2(
                        length as nat,
                    ) * pow2((64 - length) as nat)) by (nonlinear_arith);
                    assert(part == share(length));
                    lemma_pow2_strictly_increases((64 - length) as nat, 64);
                }
                count = count + 1;
                sum = sum + part;
            }
            at = at + 1;
        }
        proof {
            assert(all.take(span as int) =~= all);
            assert(limited(all));
        }
        if count < 2 {
            return Err(Error::CorruptData(Corruption::LengthCount));
        }
        if sum != KRAFT_UNIT {
            return Err(Error::CorruptData(Corruption::KraftSum));
        }
        let max_length: u32 = longest(&self.lengths);
        Ok(
            Admitted {
                code: Code {
                    alphabet_size: self.alphabet_size,
                    lengths: self.lengths,
                    single: None,
                    max_length,
                },
            },
        )
    }
}

/// A description validation has admitted, and the requirement it declares.
#[derive(Debug, PartialEq, Eq)]
pub struct Admitted {
    code: Code,
}

impl View for Admitted {
    type V = CodeShape;

    closed spec fn view(&self) -> CodeShape {
        self.code@
    }
}

impl Admitted {
    /// The code is one.
    pub closed spec fn wf(&self) -> bool {
        self.code.wf()
    }

    /// What a well-formed admission is.
    pub proof fn lemma_wf(&self)
        requires
            self.wf(),
        ensures
            self@.valid(),
    {
    }

    /// The bytes the decode table will occupy, computed from the description alone.
    #[must_use]
    pub fn table_bytes(&self) -> (bytes: u64)
        requires
            self.wf(),
        ensures
            bytes as nat == self@.table_bytes(),
    {
        self.code.table_bytes()
    }

    /// The code this description named.
    #[must_use]
    pub fn code(&self) -> (code: &Code)
        requires
            self.wf(),
        ensures
            code.wf(),
            code@ == self@,
    {
        &self.code
    }

    /// Allocates the decode table.
    ///
    /// This is the first allocation the description sizes, and it is reachable only from an
    /// admitted description.
    pub fn build(&self) -> (table: Result<DecodeTable, Error>)
        requires
            self.wf(),
        ensures
            table matches Ok(table) && table.wf() && table@ == self@,
    {
        match self.code.single {
            Some(symbol) => {
                return Ok(
                    DecodeTable {
                        entries: Vec::new(),
                        max_length: 0,
                        single: Some(symbol),
                        shape: Ghost(self@),
                    },
                );
            },
            None => {},
        }
        let ghost lengths = self.code.lengths@;
        let width: u32 = self.code.max_length;
        proof {
            lemma2_to64();
            lemma_widest(lengths);
            assert(limited(lengths));
            assert(width <= LENGTH_LIMIT);
            if width < 15 {
                lemma_pow2_strictly_increases(width as nat, 15);
            }
        }
        let size: usize = shift_left(1, width) as usize;
        let mut entries: Vec<u16> = vec![0u16; size];
        let assigned: Vec<Assigned> = match canonical(self.code.lengths.as_slice()) {
            Ok(assigned) => assigned,
            Err(error) => {
                return Err(error);
            },
        };
        let mut at: usize = 0;
        while at < assigned.len()
            invariant
                at <= assigned@.len(),
                entries@.len() == size == pow2(width as nat),
                size <= 32_768,
                width <= LENGTH_LIMIT,
                lengths.len() <= MAX_ALPHABET_SIZE,
                complete(lengths),
                forall|s: int| 0 <= s < lengths.len() ==> #[trigger] lengths[s] <= width,
                assigned_before(lengths, assigned@, LENGTH_LIMIT + 1, 0),
                forall|i: int, e: int|
                    0 <= i < at && 0 <= e < size && slot_of(
                        lengths,
                        width,
                        (#[trigger] assigned@[i]).symbol as int,
                        e,
                    ) ==> entry_reads(lengths, width, #[trigger] entries@[e], e),
            decreases assigned@.len() - at,
        {
            let given: Assigned = assigned[at];
            let ghost before = entries@;
            let ghost symbol = given.symbol as int;
            proof {
                assert(assigns(lengths, assigned@[at as int]));
                lemma_code_fits(lengths, symbol);
                lemma2_to64();
                lemma_pow2_adds(given.length as nat, (width - given.length) as nat);
                lemma_pow2_pos((width - given.length) as nat);
                if width - given.length < 15 {
                    lemma_pow2_strictly_increases((width - given.length) as nat, 15);
                }
                let p = pow2((width - given.length) as nat) as int;
                assert(given.value * p + p <= pow2(given.length as nat) * p) by (nonlinear_arith)
                    requires
                        given.value + 1 <= pow2(given.length as nat),
                        p > 0,
                ;
                assert(0 <= given.value * p) by (nonlinear_arith)
                    requires
                        p > 0,
                ;
            }
            let span: usize = shift_left(1, width - given.length) as usize;
            let base: usize = shift_left(given.value as u64, width - given.length) as usize;
            let found: u16 = entry(given.symbol, given.length);
            let mut lane: usize = 0;
            while lane < span
                invariant
                    lane <= span,
                    base + span <= size == entries@.len(),
                    before.len() == size,
                    forall|e: int|
                        0 <= e < size ==> #[trigger] entries@[e] == if base <= e < base + lane {
                            found
                        } else {
                            before[e]
                        },
                decreases span - lane,
            {
                entries.set(base + lane, found);
                lane = lane + 1;
            }
            proof {
                let p = pow2((width - given.length) as nat) as int;
                assert forall|e: int| 0 <= e < size && slot_of(lengths, width, symbol, e) implies base
                    <= e < base + span by {
                    lemma_fundamental_div_mod(e, p);
                    assert(p * (e / p) == (e / p) * p) by (nonlinear_arith);
                }
                assert forall|e: int| base <= e < base + span implies slot_of(
                    lengths,
                    width,
                    symbol,
                    e,
                ) by {
                    lemma_fundamental_div_mod_converse(e, p, given.value as int, e - base);
                }
                assert forall|i: int, e: int|
                    0 <= i < at + 1 && 0 <= e < size && slot_of(
                        lengths,
                        width,
                        (#[trigger] assigned@[i]).symbol as int,
                        e,
                    ) implies entry_reads(lengths, width, #[trigger] entries@[e], e) by {
                    if base <= e < base + span {
                        assert(slot_of(lengths, width, symbol, e));
                    } else {
                        assert(entries@[e] == before[e]);
                        assert(i != at);
                    }
                }
            }
            at = at + 1;
        }
        proof {
            assert forall|e: int| 0 <= e < size implies entry_reads(
                lengths,
                width,
                #[trigger] entries@[e],
                e,
            ) by {
                let bits = bits_of(e as nat, width as nat);
                lemma_bits_of_len(e as nat, width as nat);
                lemma_value_of_bits(e as nat, width as nat);
                let s = lemma_names_every_run(lengths, bits);
                lemma_starts_with(lengths, s, bits);
                assert(slot_of(lengths, width, s, e));
                assert(precedes(lengths[s], s, LENGTH_LIMIT + 1, 0));
                let i = choose|i: int|
                    0 <= i < assigned@.len() && (#[trigger] assigned@[i]).symbol == s;
                assert(slot_of(lengths, width, assigned@[i].symbol as int, e));
            }
        }
        Ok(DecodeTable { entries, max_length: width, single: None, shape: Ghost(self@) })
    }
}

/// Whether a slot of a table `width` bits wide starts with one symbol's code.
spec fn slot_of(lengths: Seq<u32>, width: u32, symbol: int, slot: int) -> bool {
    slot / (pow2((width - lengths[symbol]) as nat) as int) == code_value(lengths, symbol)
}

/// Whether an entry names the symbol its slot starts with, and that symbol's width.
spec fn entry_reads(lengths: Seq<u32>, width: u32, entry: u16, slot: int) -> bool {
    let symbol = entry as int / 256;
    &&& symbol < lengths.len()
    &&& entry as int % 256 == lengths[symbol] > 0
    &&& slot_of(lengths, width, symbol, slot)
}

/// The single-level decode table: one entry per slot of the widest code.
///
/// An entry holds the symbol and the width to skip, so one lookup and one stream read decode
/// one symbol.
pub struct DecodeTable {
    entries: Vec<u16>,
    max_length: u32,
    single: Option<u16>,
    shape: Ghost<CodeShape>,
}

impl View for DecodeTable {
    type V = CodeShape;

    closed spec fn view(&self) -> CodeShape {
        self.shape@
    }
}

impl DecodeTable {
    /// Every slot of the widest code names the symbol it starts with.
    pub closed spec fn wf(&self) -> bool {
        &&& self@.valid()
        &&& self.single == self@.single
        &&& match self.single {
            Some(_) => self.entries@.len() == 0,
            None => {
                &&& self.max_length == widest(self@.lengths)
                &&& self.entries@.len() == pow2(self.max_length as nat)
                &&& forall|e: int|
                    0 <= e < self.entries@.len() ==> entry_reads(
                        self@.lengths,
                        self.max_length,
                        #[trigger] self.entries@[e],
                        e,
                    )
            },
        }
    }

    /// What a well-formed table is.
    pub proof fn lemma_wf(&self)
        requires
            self.wf(),
        ensures
            self@.valid(),
    {
    }

    /// The bytes this table occupies.
    #[must_use]
    pub fn allocated_bytes(&self) -> (bytes: u64)
        requires
            self.wf(),
        ensures
            bytes as nat == self@.table_bytes(),
    {
        proof {
            lemma2_to64();
            lemma_widest(self@.lengths);
            if self.single is None && self.max_length < 15 {
                lemma_pow2_strictly_increases(self.max_length as nat, 15);
            }
        }
        self.entries.len() as u64 * 2
    }

    /// Decodes one symbol per slot of `out`.
    ///
    /// The reader peeks the widest code, which reads zeros past the end, so the decode is
    /// checked against the bit count the stream declared when it ends.
    pub fn decode(&self, reader: &mut BitReader, out: &mut [u16]) -> (ended: Result<(), Error>)
        requires
            self.wf(),
        ensures
            final(reader).source() == old(reader).source(),
            final(reader).declared() == old(reader).declared(),
            (final(out)@, final(reader).position()) == self@.run(
                old(reader).source(),
                old(reader).position(),
                old(out)@.len(),
            ),
            final(out)@.len() == old(out)@.len(),
            self@.carries_all(final(out)@),
            self@.single is Some || final(reader).position() <= final(reader).declared()
                ==> ended == Ok::<(), Error>(()),
            self@.single is None && final(reader).position() > final(reader).declared()
                ==> ended == Err::<(), Error>(Error::CorruptData(Corruption::CodedStream)),
    {
        let ghost source = reader.source();
        let ghost first = reader.position();
        let ghost shape = self@;
        let count: usize = out.len();
        let mut done: usize = 0;
        proof {
            reader.lemma_position();
        }
        while done < count
            invariant
                self.wf(),
                shape == self@,
                shape.valid(),
                done <= count == out@.len(),
                count == old(out)@.len(),
                source == old(reader).source(),
                first == old(reader).position(),
                reader.source() == source,
                reader.declared() == old(reader).declared(),
                (out@.take(done as int), reader.position()) == shape.run(
                    source,
                    first,
                    done as nat,
                ),
                reader.position() <= u64::MAX,
                shape.carries_all(out@.take(done as int)),
            decreases count - done,
        {
            let ghost at = reader.position();
            let ghost before = out@;
            let symbol: u16;
            match self.single {
                Some(only) => {
                    symbol = only;
                    proof {
                        assert(window(source, at, 0) =~= Seq::<bool>::empty());
                        assert(shape.reads(source, at, only));
                    }
                },
                None => {
                    proof {
                        lemma_bits_of_value(window(source, at, self.max_length as nat));
                        lemma_widest(shape.lengths);
                        lemma2_to64();
                        if self.max_length < 15 {
                            lemma_pow2_strictly_increases(self.max_length as nat, 15);
                        }
                    }
                    let slot: usize = reader.peek(self.max_length) as usize;
                    let found: u16 = self.entries[slot];
                    proof {
                        assert(entry_reads(
                            shape.lengths,
                            self.max_length,
                            self.entries@[slot as int],
                            slot as int,
                        ));
                        let bits = window(source, at, self.max_length as nat);
                        let s = found as int / 256;
                        lemma_starts_with(shape.lengths, s, bits);
                        let l = shape.lengths[s] as int;
                        assert(bits.take(l) =~= window(source, at, l as nat));
                        lemma_code_fits(shape.lengths, s);
                        assert(shape.reads(source, at, s as u16));
                    }
                    symbol = entry_symbol(found);
                    reader.skip(entry_width(found));
                },
            }
            proof {
                lemma_one_symbol(shape, source, at, symbol);
                lemma_word_len(shape, symbol);
            }
            out[done] = symbol;
            proof {
                let was = before.take(done as int);
                let now = out@.take(done + 1);
                assert(now.drop_last() =~= was);
                assert(now.last() == symbol);
                assert(now =~= was.push(symbol));
                assert forall|i: int| 0 <= i < now.len() implies shape.carries(#[trigger] now[i]) by {
                    if i < done {
                        assert(was[i] == now[i]);
                    }
                }
            }
            done = done + 1;
        }
        proof {
            assert(out@.take(done as int) =~= out@);
        }
        if self.single.is_some() {
            return Ok(());
        }
        reader.finish()
    }
}

/// At most one symbol's code starts the bits at a position.
pub proof fn lemma_one_symbol(shape: CodeShape, source: Seq<u8>, at: nat, symbol: u16)
    requires
        shape.valid(),
        shape.reads(source, at, symbol),
    ensures
        shape.symbol_at(source, at) == symbol,
{
    let other = shape.symbol_at(source, at);
    assert(shape.reads(source, at, other));
    if shape.single is None {
        let bits = window(source, at, LENGTH_LIMIT as nat);
        let a = symbol as int;
        let b = other as int;
        lemma_code_fits(shape.lengths, a);
        lemma_code_fits(shape.lengths, b);
        assert(shape.lengths[a] <= LENGTH_LIMIT && shape.lengths[b] <= LENGTH_LIMIT);
        assert(bits.take(shape.lengths[a] as int) =~= window(source, at, shape.lengths[a] as nat));
        assert(bits.take(shape.lengths[b] as int) =~= window(source, at, shape.lengths[b] as nat));
        lemma_prefix_free(shape.lengths, a, b, bits);
    }
}

/// The symbol above the width, in one entry.
fn entry(symbol: u16, width: u32) -> (entry: u16)
    requires
        symbol < 256,
        width < 256,
    ensures
        entry as int / 256 == symbol,
        entry as int % 256 == width,
{
    symbol * 256 + width as u16
}

/// The symbol of an entry.
fn entry_symbol(entry: u16) -> (symbol: u16)
    ensures
        symbol == entry as int / 256,
{
    entry / 256
}

/// The width of an entry.
fn entry_width(entry: u16) -> (width: u32)
    ensures
        width == entry as int % 256,
{
    (entry % 256) as u32
}

} // verus!
