//! Owns the sequence representation: the four alphabets a block's symbols are drawn from, the
//! decomposition that splits a coded value into a symbol and a raw suffix, and the sequences
//! the two describe.
//!
//! This module does not own entropy coding, the block that carries the streams, the parse that
//! produced the sequences, or the window history a match copies from.
//!
//! One alphabet per symbol class, and one decomposition rule over the three that carry a
//! magnitude:
//!
//! ```text
//! alphabet          coded value      domain            suffix   coder
//! literal byte      the byte         0 to 255          none     Huffman
//! literal run       run + 1          0 to 65 536       yes      rANS, 1 state
//! match length      length - 3       4 to 256          yes      rANS, 2 states
//! match distance    distance + 1     1 to 65 536       yes      rANS, 4 states
//! ```
//!
//! A run of zero is a real and common symbol, so the run stream codes `run + 1` and never a
//! zero. A length is coded against the shortest match the format can express, because no
//! shorter match exists and codes spent on lengths nothing can emit would price the alphabet
//! wrongly. A distance is shifted by one so that coded value 1 is free to name the offset slot.
//!
//! # The decomposition
//!
//! A bucket code over the octaves of the coded value. Symbol `i` owns the interval
//! `[lo_i, lo_i + 2^w_i)`, the symbol names the interval, and a raw suffix of `w_i` bits names
//! the position inside it, so `value = lo_i + suffix` and the pair is a bijection onto the
//! coded value by construction.
//!
//! ```text
//! an octave at or below the mantissa width gives each of its values its own symbol, and a
//!   suffix of no bits
//! an octave above it is cut into 2^m symbols, each owning 2^(b-m) consecutive values
//! ```
//!
//! The boundary set is a format constant, and it is arithmetic rather than a table.
//!
//! # The two symbols that name no magnitude
//!
//! The match-length alphabet carries one symbol beyond its buckets, as its last symbol. It
//! marks a block that ends in a literal run with no match, and it is carried there and nowhere
//! else.
//!
//! The match-distance alphabet carries one symbol below its buckets, as its first. It names the
//! distance the offset slot holds, which is why every distance is coded one above itself.

pub mod cache;
pub mod coding;
pub mod reading;
pub mod streams;

use vstd::prelude::*;
use vstd::arithmetic::div_mod::{lemma_fundamental_div_mod, lemma_mod_bound};
use vstd::arithmetic::power2::{
    lemma2_to64, lemma_pow2_adds, lemma_pow2_pos, lemma_pow2_strictly_increases,
    lemma_pow2_unfold, pow2,
};
use crate::entropy::bits::mask;
use crate::entropy::{bit_width, lemma_bit_width, shift_left, shift_right, width_for};
use crate::format::{Corruption, Error};

verus! {

/// The history a match may reach back into, in bytes.
///
/// The window of resource class 0, which is the one class the encoder declares.
pub const WINDOW: u32 = 65_536;

/// The shortest match the representation can express.
pub const MIN_MATCH: u32 = 4;

/// The longest match the representation can express.
pub const MAX_MATCH_LENGTH: u32 = 256;

/// The longest literal run the representation can express.
pub const MAX_LITERAL_RUN: u32 = 65_536;

/// The mantissa bits the decomposition promotes out of the raw suffix and into the symbol.
pub const MANTISSA_BITS: u32 = 2;

/// The symbols one octave above the mantissa width is cut into.
pub const OCTAVE_SYMBOLS: u32 = 4;

/// The symbols the octaves at or below the mantissa width hold together.
///
/// Those octaves hold `1 + 2 + ... + 2^m` values between them and give each value its own
/// symbol, so the first octave the decomposition actually cuts starts above this many.
pub const DEGENERATE_SYMBOLS: u32 = 7;

/// The suffix width of a bucket.
pub open spec fn width_of_bucket(index: nat) -> nat {
    if index < DEGENERATE_SYMBOLS {
        0
    } else {
        ((index - DEGENERATE_SYMBOLS) / OCTAVE_SYMBOLS as int + 1) as nat
    }
}

/// The smallest value a bucket owns.
pub open spec fn low_of_bucket(index: nat) -> nat {
    if index < DEGENERATE_SYMBOLS {
        index + 1
    } else {
        let width = width_of_bucket(index);
        pow2(width + MANTISSA_BITS as nat) + ((index - DEGENERATE_SYMBOLS) % OCTAVE_SYMBOLS as int)
            as nat * pow2(width)
    }
}

/// The bucket that owns a value.
pub open spec fn bucket_of(value: nat) -> nat {
    let octave = (bit_width(value) - 1) as nat;
    if value <= 1 {
        0
    } else if octave <= MANTISSA_BITS {
        (value - 1) as nat
    } else {
        let width = (octave - MANTISSA_BITS) as nat;
        (DEGENERATE_SYMBOLS + OCTAVE_SYMBOLS * (width - 1) + (value - pow2(octave)) as nat / pow2(
            width,
        )) as nat
    }
}

/// A value lies in the bucket that owns it.
pub proof fn lemma_bucket_of(value: nat)
    requires
        value >= 1,
    ensures
        low_of_bucket(bucket_of(value)) <= value < low_of_bucket(bucket_of(value)) + pow2(
            width_of_bucket(bucket_of(value)),
        ),
        value >= 8 ==> width_of_bucket(bucket_of(value)) + 3 == bit_width(value),
        value < 8 ==> width_of_bucket(bucket_of(value)) == 0 && bucket_of(value) == value - 1,
{
    lemma2_to64();
    lemma_bit_width(value);
    if value < 8 {
        reveal_with_fuel(bit_width, 4);
    } else {
        let b = bit_width(value);
        if b <= 3 {
            if b < 3 {
                lemma_pow2_strictly_increases(b, 3);
            }
            assert(false);
        }
        let octave = (b - 1) as nat;
        let width = (octave - 2) as nat;
        lemma_pow2_adds(2, width);
        lemma_pow2_unfold(b);
        lemma_pow2_pos(width);
        let inside = (value - pow2(octave)) as nat;
        let p = pow2(width);
        let part = inside / p;
        lemma_fundamental_div_mod(inside as int, p as int);
        lemma_mod_bound(inside as int, p as int);
        assert(inside < 4 * p);
        assert(part < 4) by (nonlinear_arith)
            requires
                p * part <= inside,
                inside < 4 * p,
                p > 0,
        ;
        let index = bucket_of(value);
        assert(index == 7 + 4 * (width - 1) + part);
        assert((index - 7) / 4 == width - 1);
        assert((index - 7) % 4 == part);
        assert(width_of_bucket(index) == width);
        assert(low_of_bucket(index) == pow2(octave) + part * p);
        assert(part * p == p * part) by (nonlinear_arith);
    }
}

/// The buckets partition the values: each starts where the one before it ends.
pub proof fn lemma_buckets_meet(index: nat)
    ensures
        low_of_bucket(index + 1) == low_of_bucket(index) + pow2(width_of_bucket(index)),
{
    lemma2_to64();
    if index >= 7 {
        let width = width_of_bucket(index);
        let part = ((index - 7) % 4) as nat;
        let p = pow2(width);
        if part < 3 {
            assert(width_of_bucket(index + 1) == width);
            assert((index + 1 - 7) % 4 == part + 1);
            assert((part + 1) * p == part * p + p) by (nonlinear_arith);
        } else {
            assert(width_of_bucket(index + 1) == width + 1);
            assert((index + 1 - 7) % 4 == 0);
            lemma_pow2_unfold(width + 3);
            lemma_pow2_adds(2, width);
            assert(0 * pow2(width + 1) == 0) by (nonlinear_arith);
            assert(3 * p + p == 4 * p);
        }
    } else if index == 6 {
        assert(width_of_bucket(7) == 1);
        assert(low_of_bucket(7) == pow2(3) + 0 * pow2(1));
        assert(0 * pow2(1) == 0) by (nonlinear_arith);
    }
}

/// Buckets start in order.
pub proof fn lemma_lows_ascend(a: nat, b: nat)
    requires
        a < b,
    ensures
        low_of_bucket(a) + pow2(width_of_bucket(a)) <= low_of_bucket(b),
    decreases b,
{
    lemma_buckets_meet((b - 1) as nat);
    lemma_pow2_pos(width_of_bucket((b - 1) as nat));
    if a < b - 1 {
        lemma_lows_ascend(a, (b - 1) as nat);
    }
}

/// A value inside a bucket is owned by that bucket.
pub proof fn lemma_bucket_owns(index: nat, value: nat)
    requires
        low_of_bucket(index) <= value < low_of_bucket(index) + pow2(width_of_bucket(index)),
    ensures
        bucket_of(value) == index,
        value >= 1,
{
    lemma2_to64();
    if index > 0 {
        lemma_lows_ascend(0, index);
    }
    lemma_bucket_of(value);
    let found = bucket_of(value);
    if found < index {
        lemma_lows_ascend(found, index);
    } else if found > index {
        lemma_lows_ascend(index, found);
    }
}

/// Values in one bucket or before it stand before the next.
proof fn lemma_bucket_monotone(a: nat, b: nat)
    requires
        1 <= a <= b,
    ensures
        bucket_of(a) <= bucket_of(b),
{
    lemma_bucket_of(a);
    lemma_bucket_of(b);
    if bucket_of(b) < bucket_of(a) {
        lemma_lows_ascend(bucket_of(b), bucket_of(a));
    }
}

/// A coded value as the decomposition writes it: one symbol and its raw suffix.
#[derive(Clone, Copy, Debug, PartialEq, Eq)]
pub struct Split {
    /// The symbol whose interval holds the coded value.
    pub symbol: u16,
    /// The bits the suffix occupies, which the symbol alone determines.
    pub width: u32,
    /// The position of the coded value inside the symbol's interval.
    pub suffix: u64,
}

/// The interval one symbol owns, in the form the decoder reads it.
#[derive(Clone, Copy, Debug, PartialEq, Eq)]
pub struct Bucket {
    /// The bits the symbol's raw suffix occupies.
    pub width: u32,
    /// The coded value the symbol names when its suffix is zero.
    pub low: u32,
}

/// One of the four symbol classes a block codes.
#[derive(Clone, Copy, Debug, PartialEq, Eq, Structural)]
pub enum Alphabet {
    /// The bytes of the literal runs.
    LiteralByte,
    /// The length of each literal run.
    LiteralRun,
    /// The length of each match, and the symbol that ends the block.
    MatchLength,
    /// The distance of each match, and the symbol that names the offset slot.
    MatchDistance,
}

impl Alphabet {
    /// The four classes in the order a block carries their streams.
    pub const ALL: [Alphabet; 4] = [
        Alphabet::LiteralByte,
        Alphabet::LiteralRun,
        Alphabet::MatchLength,
        Alphabet::MatchDistance,
    ];

    /// The symbols an alphabet holds.
    pub open spec fn symbols(self) -> nat {
        match self {
            Alphabet::LiteralByte => 256,
            Alphabet::LiteralRun => 60,
            Alphabet::MatchLength => 28,
            Alphabet::MatchDistance => 61,
        }
    }

    /// The symbols that name a coded value: all but the terminal.
    pub open spec fn naming(self) -> nat {
        match self {
            Alphabet::MatchLength => 27,
            _ => self.symbols(),
        }
    }

    /// The symbols reserved below the buckets.
    pub open spec fn lead(self) -> nat {
        match self {
            Alphabet::MatchDistance => 1,
            _ => 0,
        }
    }

    /// The smallest and the largest raw value of the domain.
    pub open spec fn raw_domain(self) -> (nat, nat) {
        match self {
            Alphabet::LiteralByte => (0, 255),
            Alphabet::LiteralRun => (0, MAX_LITERAL_RUN as nat),
            Alphabet::MatchLength => (MIN_MATCH as nat, MAX_MATCH_LENGTH as nat),
            Alphabet::MatchDistance => (1, WINDOW as nat),
        }
    }

    /// The smallest and the largest coded value of the domain.
    pub open spec fn coded_domain(self) -> (nat, nat) {
        match self {
            Alphabet::LiteralByte => (0, 255),
            Alphabet::LiteralRun => (1, 65_537),
            Alphabet::MatchLength => (1, 253),
            Alphabet::MatchDistance => (1, 65_537),
        }
    }

    /// The coded value of a raw value.
    pub open spec fn code(self, raw: nat) -> nat {
        match self {
            Alphabet::LiteralByte => raw,
            Alphabet::LiteralRun => raw + 1,
            Alphabet::MatchLength => (raw - 3) as nat,
            Alphabet::MatchDistance => raw + 1,
        }
    }

    /// Whether the domain holds a raw value.
    pub open spec fn holds(self, raw: nat) -> bool {
        self.raw_domain().0 <= raw <= self.raw_domain().1
    }

    /// Whether the domain holds a coded value.
    pub open spec fn codes(self, coded: nat) -> bool {
        self.coded_domain().0 <= coded <= self.coded_domain().1
    }

    /// The suffix width of a symbol.
    pub open spec fn width(self, symbol: nat) -> nat {
        if self == Alphabet::LiteralByte || symbol < self.lead() {
            0
        } else {
            width_of_bucket((symbol - self.lead()) as nat)
        }
    }

    /// The coded value a symbol names when its suffix is zero.
    pub open spec fn low(self, symbol: nat) -> nat {
        if self == Alphabet::LiteralByte {
            symbol
        } else if symbol < self.lead() {
            symbol + 1
        } else {
            low_of_bucket((symbol - self.lead()) as nat) + self.lead()
        }
    }

    /// The symbol that names a coded value.
    pub open spec fn symbol_for(self, coded: nat) -> nat {
        if self == Alphabet::LiteralByte {
            coded
        } else if coded <= self.lead() {
            (coded - 1) as nat
        } else {
            bucket_of((coded - self.lead()) as nat) + self.lead()
        }
    }

    /// The decomposition is a bijection: a coded value of the domain lies in the interval of the
    /// one symbol that names it, and no other symbol's interval holds it.
    pub proof fn law_symbol_names_its_value(self, coded: nat, symbol: nat)
        requires
            self.codes(coded),
        ensures
            self.symbol_for(coded) < self.naming(),
            self.low(self.symbol_for(coded)) <= coded < self.low(self.symbol_for(coded)) + pow2(
                self.width(self.symbol_for(coded)),
            ),
            self.width(self.symbol_for(coded)) <= 14,
            symbol < self.naming() && self.low(symbol) <= coded < self.low(symbol) + pow2(
                self.width(symbol),
            ) ==> symbol == self.symbol_for(coded),
    {
        lemma2_to64();
        if self == Alphabet::LiteralByte || coded <= self.lead() {
            if self == Alphabet::MatchDistance && 0 < symbol {
                lemma_low_is_positive((symbol - 1) as nat);
            }
        } else {
            let value = (coded - self.lead()) as nat;
            lemma_bucket_of(value);
            lemma_domain_ends();
            lemma_bucket_monotone(value, (self.coded_domain().1 - self.lead()) as nat);
            lemma_width_monotone(
                bucket_of(value),
                bucket_of((self.coded_domain().1 - self.lead()) as nat),
            );
            if symbol >= self.lead() {
                let index = (symbol - self.lead()) as nat;
                if low_of_bucket(index) <= value < low_of_bucket(index) + pow2(
                    width_of_bucket(index),
                ) {
                    lemma_bucket_owns(index, value);
                }
            }
        }
    }

    /// The symbols the alphabet holds, every reserved symbol included.
    #[must_use]
    pub fn size(self) -> (size: u32)
        ensures
            size as nat == self.symbols(),
    {
        match self {
            Alphabet::LiteralByte => 256,
            Alphabet::LiteralRun => 60,
            Alphabet::MatchLength => 28,
            Alphabet::MatchDistance => 61,
        }
    }

    /// The widest span any one stream's histogram allocates over.
    #[must_use]
    pub fn max_size() -> (size: u32)
        ensures
            size == 256,
            forall|alphabet: Alphabet| #[trigger] alphabet.symbols() <= size,
    {
        256
    }

    /// The spans of the four streams added together.
    ///
    /// Four histograms, one per alphabet, each holding its span in 64-bit counts.
    #[must_use]
    pub fn total_size() -> (size: u32)
        ensures
            size as nat == Alphabet::LiteralByte.symbols() + Alphabet::LiteralRun.symbols()
                + Alphabet::MatchLength.symbols() + Alphabet::MatchDistance.symbols(),
    {
        Alphabet::LiteralByte.size() + Alphabet::LiteralRun.size() + Alphabet::MatchLength.size()
            + Alphabet::MatchDistance.size()
    }

    /// The symbol that ends a block after a literal run no match follows.
    ///
    /// The last symbol of the match-length alphabet, and of no other.
    #[must_use]
    pub fn terminal(self) -> (terminal: Option<u16>)
        ensures
            self == Alphabet::MatchLength ==> terminal == Some(27u16),
            self != Alphabet::MatchLength ==> terminal is None,
    {
        if self.carries_terminal() {
            narrow_symbol(self.size() - 1)
        } else {
            None
        }
    }

    /// Whether the alphabet reserves its last symbol for the end of a block.
    #[must_use]
    pub fn carries_terminal(self) -> (carries: bool)
        ensures
            carries == (self == Alphabet::MatchLength),
    {
        match self {
            Alphabet::MatchLength => true,
            _ => false,
        }
    }

    /// The symbols the alphabet reserves below its buckets.
    ///
    /// One on the match-distance alphabet, for the offset slot. None anywhere else.
    #[must_use]
    pub fn lead_symbols(self) -> (lead: u32)
        ensures
            lead as nat == self.lead(),
    {
        match self {
            Alphabet::MatchDistance => 1,
            _ => 0,
        }
    }

    /// The smallest raw value the domain admits.
    #[must_use]
    pub fn min_raw(self) -> (raw: u64)
        ensures
            raw as nat == self.raw_domain().0,
    {
        match self {
            Alphabet::LiteralByte => 0,
            Alphabet::LiteralRun => 0,
            Alphabet::MatchLength => MIN_MATCH as u64,
            Alphabet::MatchDistance => 1,
        }
    }

    /// The largest raw value the domain admits.
    #[must_use]
    pub fn max_raw(self) -> (raw: u64)
        ensures
            raw as nat == self.raw_domain().1,
    {
        match self {
            Alphabet::LiteralByte => 255,
            Alphabet::LiteralRun => MAX_LITERAL_RUN as u64,
            Alphabet::MatchLength => MAX_MATCH_LENGTH as u64,
            Alphabet::MatchDistance => WINDOW as u64,
        }
    }

    /// The smallest coded value the domain reaches.
    #[must_use]
    pub fn coded_min(self) -> (coded: u64)
        ensures
            coded as nat == self.coded_domain().0,
    {
        match self {
            Alphabet::LiteralByte => 0,
            _ => 1,
        }
    }

    /// The largest coded value the domain reaches.
    #[must_use]
    pub fn coded_max(self) -> (coded: u64)
        ensures
            coded as nat == self.coded_domain().1,
            coded as nat == self.code(self.raw_domain().1),
    {
        match self {
            Alphabet::LiteralByte => 255,
            Alphabet::LiteralRun => MAX_LITERAL_RUN as u64 + 1,
            Alphabet::MatchLength => MAX_MATCH_LENGTH as u64 - (MIN_MATCH as u64 - 1),
            Alphabet::MatchDistance => WINDOW as u64 + 1,
        }
    }

    /// The coded value a raw value takes, or `None` when the domain does not hold it.
    #[must_use]
    pub fn coded_value(self, raw: u64) -> (coded: Option<u64>)
        ensures
            self.holds(raw as nat) ==> (coded matches Some(coded) && coded as nat == self.code(
                raw as nat,
            )),
            !self.holds(raw as nat) ==> coded is None,
    {
        if raw < self.min_raw() || raw > self.max_raw() {
            return None;
        }
        Some(
            match self {
                Alphabet::LiteralByte => raw,
                Alphabet::LiteralRun => raw + 1,
                Alphabet::MatchDistance => raw + 1,
                Alphabet::MatchLength => raw - (MIN_MATCH as u64 - 1),
            },
        )
    }

    /// The raw value a coded value names, or `None` when the coded value names no raw value.
    ///
    /// A coded value the alphabet reserves below its buckets names no raw value at all. On the
    /// match-distance alphabet that is the repeat code, whose distance the offset slot holds
    /// and this alphabet does not.
    #[must_use]
    pub fn raw_value(self, coded: u64) -> (raw: Option<u64>)
        ensures
            self.codes(coded as nat) && !(self.lead() > 0 && coded <= self.lead()) ==> (
            raw matches Some(raw) && self.holds(raw as nat) && self.code(raw as nat) == coded),
            !self.codes(coded as nat) || (self.lead() > 0 && coded <= self.lead()) ==> raw is None,
    {
        let lead: u64 = self.lead_symbols() as u64;
        if coded < self.coded_min() || coded > self.coded_max() || (lead > 0 && coded <= lead) {
            return None;
        }
        Some(
            match self {
                Alphabet::LiteralByte => coded,
                Alphabet::LiteralRun => coded - 1,
                Alphabet::MatchDistance => coded - 1,
                Alphabet::MatchLength => coded + (MIN_MATCH as u64 - 1),
            },
        )
    }

    /// The symbol and raw suffix that name a coded value.
    ///
    /// Refuses a coded value outside the domain the alphabet declares, which is a value no
    /// parse this format admits can produce.
    pub fn split(self, coded: u64) -> (split: Result<Split, Error>)
        ensures
            self.codes(coded as nat) ==> (split matches Ok(split) && {
                &&& split.symbol as nat == self.symbol_for(coded as nat)
                &&& split.width as nat == self.width(split.symbol as nat)
                &&& coded as nat == self.low(split.symbol as nat) + split.suffix as nat
                &&& (split.suffix as nat) < pow2(split.width as nat)
            }),
            !self.codes(coded as nat) ==> split == Err::<Split, Error>(Error::InvalidParameter),
    {
        if coded < self.coded_min() || coded > self.coded_max() {
            return Err(Error::InvalidParameter);
        }
        proof {
            self.law_symbol_names_its_value(coded as nat, 0);
            lemma2_to64();
        }
        let lead: u32 = self.lead_symbols();
        match self {
            Alphabet::LiteralByte => {
                return Ok(Split { symbol: coded as u16, width: 0, suffix: 0 });
            },
            _ => {},
        }
        if coded <= lead as u64 {
            return Ok(Split { symbol: (coded - 1) as u16, width: 0, suffix: 0 });
        }
        let (index, width, suffix) = bucket_split(coded - lead as u64);
        Ok(Split { symbol: (index + lead) as u16, width, suffix })
    }

    /// The bits the raw suffix of a symbol occupies.
    ///
    /// Refuses a symbol at or above the alphabet's size, and the terminal, which names no coded
    /// value and carries no suffix.
    pub fn suffix_width(self, symbol: u16) -> (width: Result<u32, Error>)
        ensures
            (symbol as nat) < self.naming() ==> (width matches Ok(width) && width as nat
                == self.width(symbol as nat)),
            self.naming() <= symbol < self.symbols() ==> width == Err::<u32, Error>(
                Error::CorruptData(Corruption::TerminalSymbol),
            ),
            symbol >= self.symbols() ==> width == Err::<u32, Error>(
                Error::CorruptData(Corruption::SequenceSymbol),
            ),
    {
        let index: u32 = symbol as u32;
        if index >= self.size() {
            return Err(Error::CorruptData(Corruption::SequenceSymbol));
        }
        if self.carries_terminal() && index == self.size() - 1 {
            return Err(Error::CorruptData(Corruption::TerminalSymbol));
        }
        Ok(self.bucket(index).width)
    }

    /// The coded value a symbol and its raw suffix name.
    ///
    /// Refuses a symbol the alphabet codes no value with, and a suffix that takes the value
    /// past the domain the alphabet declares. The last symbol of a bucketed alphabet owns an
    /// interval the domain can end inside, so a suffix above that symbol's own share of its
    /// interval is refused here and at no later step.
    pub fn reconstruct(self, symbol: u16, suffix: u64) -> (coded: Result<u64, Error>)
        ensures
            self.naming() <= symbol < self.symbols() ==> coded == Err::<u64, Error>(
                Error::CorruptData(Corruption::TerminalSymbol),
            ),
            symbol >= self.symbols() ==> coded == Err::<u64, Error>(
                Error::CorruptData(Corruption::SequenceSymbol),
            ),
            (symbol as nat) < self.naming() ==> {
                let value = self.low(symbol as nat) + suffix as nat;
                &&& suffix < pow2(self.width(symbol as nat)) && self.codes(value) ==> coded == Ok::<
                    u64,
                    Error,
                >(value as u64)
                &&& !(suffix < pow2(self.width(symbol as nat)) && self.codes(value)) ==> coded
                    == Err::<u64, Error>(Error::CorruptData(Corruption::SequenceSuffix))
            },
    {
        let width: u32 = match self.suffix_width(symbol) {
            Ok(width) => width,
            Err(error) => {
                return Err(error);
            },
        };
        proof {
            lemma2_to64();
            lemma_pow2_pos(width as nat);
            lemma_naming_width(self, symbol as nat);
            if width < 14 {
                lemma_pow2_strictly_increases(width as nat, 14);
            }
        }
        if suffix > mask(width) {
            return Err(Error::CorruptData(Corruption::SequenceSuffix));
        }
        let coded: u64 = self.bucket(symbol as u32).low as u64 + suffix;
        if coded < self.coded_min() || coded > self.coded_max() {
            return Err(Error::CorruptData(Corruption::SequenceSuffix));
        }
        Ok(coded)
    }

    /// The symbols the alphabet names a coded value with.
    ///
    /// Its size, less the terminal it reserves, which names none.
    #[must_use]
    pub fn value_symbols(self) -> (symbols: usize)
        ensures
            symbols as nat == self.naming(),
    {
        let terminal: u32 = if self.carries_terminal() { 1 } else { 0 };
        (self.size() - terminal) as usize
    }

    /// The interval one symbol owns.
    ///
    /// The same arithmetic `suffix_width` and `reconstruct` run: the lead symbols the alphabet
    /// reserves name one coded value each and carry no suffix, and every other symbol names the
    /// bucket its index gives it.
    #[must_use]
    pub fn bucket(self, index: u32) -> (bucket: Bucket)
        requires
            index < self.symbols(),
        ensures
            bucket.width as nat == self.width(index as nat),
            bucket.low as nat == self.low(index as nat),
    {
        match self {
            Alphabet::LiteralByte => {
                return Bucket { width: 0, low: index };
            },
            _ => {},
        }
        let lead: u32 = self.lead_symbols();
        if index < lead {
            return Bucket { width: 0, low: index + 1 };
        }
        let bucket: u32 = index - lead;
        proof {
            lemma_low_bound(bucket as nat);
        }
        Bucket { width: bucket_width(bucket), low: bucket_low(bucket) as u32 + lead }
    }

    /// The interval of every symbol the alphabet names a value with, in symbol order.
    #[must_use]
    pub fn buckets(self) -> (table: Vec<Bucket>)
        ensures
            table@.len() == self.naming(),
            forall|i: int|
                0 <= i < table@.len() ==> (#[trigger] table@[i]).width as nat == self.width(i as nat)
                    && table@[i].low as nat == self.low(i as nat),
    {
        let count: usize = self.value_symbols();
        let mut table: Vec<Bucket> = Vec::new();
        while table.len() < count
            invariant
                count as nat == self.naming(),
                table@.len() <= count,
                forall|i: int|
                    0 <= i < table@.len() ==> (#[trigger] table@[i]).width as nat == self.width(
                        i as nat,
                    ) && table@[i].low as nat == self.low(i as nat),
            decreases count - table@.len(),
        {
            let index: u32 = table.len() as u32;
            table.push(self.bucket(index));
        }
        table
    }
}

/// A bucket owns values at or above one.
pub proof fn lemma_low_is_positive(index: nat)
    ensures
        low_of_bucket(index) >= 1,
{
    lemma2_to64();
    if index > 0 {
        lemma_lows_ascend(0, index);
    }
}

/// A bucket of any alphabet starts inside seventeen bits, and its suffix inside fourteen.
proof fn lemma_low_bound(index: nat)
    requires
        index < 60,
    ensures
        width_of_bucket(index) <= 14,
        low_of_bucket(index) <= 65_536,
        1 <= low_of_bucket(index),
{
    lemma2_to64();
    lemma_low_is_positive(index);
    assert(width_of_bucket(59) == 14);
    assert(low_of_bucket(59) == 65_536) by {
        assert(0 * pow2(14) == 0);
    }
    if index < 59 {
        lemma_lows_ascend(index, 59);
    }
    lemma_width_monotone(index, 59);
}

proof fn lemma_width_monotone(a: nat, b: nat)
    requires
        a <= b,
    ensures
        width_of_bucket(a) <= width_of_bucket(b),
{
}

/// The suffixes of the symbols that name a value are at most fourteen bits.
pub proof fn lemma_naming_width(alphabet: Alphabet, symbol: nat)
    requires
        symbol < alphabet.naming(),
    ensures
        alphabet.width(symbol) <= 14,
        alphabet.low(symbol) <= 65_537,
        alphabet.low(symbol) >= alphabet.coded_domain().0,
{
    if alphabet != Alphabet::LiteralByte && symbol >= alphabet.lead() {
        lemma_low_bound((symbol - alphabet.lead()) as nat);
    }
}

/// The buckets the domains end in.
proof fn lemma_domain_ends()
    ensures
        bucket_of(65_537) == 59,
        bucket_of(65_536) == 59,
        bucket_of(253) == 26,
        width_of_bucket(59) == 14,
        width_of_bucket(26) == 5,
{
    lemma2_to64();
    assert(0 * pow2(14) == 0);
    lemma_bucket_owns(59, 65_537);
    lemma_bucket_owns(59, 65_536);
    assert(width_of_bucket(26) == 5);
    assert(low_of_bucket(26) == pow2(7) + 3 * pow2(5));
    lemma_bucket_owns(26, 253);
}

/// One match: how far back it reaches and how many bytes it copies.
#[derive(Clone, Copy, Debug, PartialEq, Eq)]
pub struct Match {
    /// The bytes the match copies.
    pub length: u32,
    /// The bytes back from the current position the copy starts at.
    pub distance: u32,
}

/// One sequence: a literal run, and the match that follows it or the end of the block.
#[derive(Clone, Copy, Debug, PartialEq, Eq)]
pub struct Step {
    /// The literal bytes the step emits before its match.
    pub run: u32,
    /// The match that follows the run, or the end of the block.
    pub matched: Option<Match>,
}

impl Match {
    /// Whether a match is inside the domains its alphabets declare.
    pub open spec fn in_domain(self) -> bool {
        Alphabet::MatchLength.holds(self.length as nat) && Alphabet::MatchDistance.holds(
            self.distance as nat,
        )
    }
}

impl Step {
    /// Whether a step is inside the domains its alphabets declare.
    pub open spec fn in_domain(self) -> bool {
        &&& Alphabet::LiteralRun.holds(self.run as nat)
        &&& self.matched matches Some(matched) ==> matched.in_domain()
    }

    /// The bytes a step decodes to.
    pub open spec fn decoded_len(self) -> nat {
        self.run as nat + match self.matched {
            Some(matched) => matched.length as nat,
            None => 0,
        }
    }
}

/// The literal bytes a list of steps places.
pub open spec fn run_total(steps: Seq<Step>) -> nat
    decreases steps.len(),
{
    if steps.len() == 0 {
        0
    } else {
        run_total(steps.drop_last()) + steps.last().run as nat
    }
}

/// The bytes a list of steps decodes to.
pub open spec fn decoded_total(steps: Seq<Step>) -> nat
    decreases steps.len(),
{
    if steps.len() == 0 {
        0
    } else {
        decoded_total(steps.drop_last()) + steps.last().decoded_len()
    }
}

/// Whether every step is inside its domains.
pub open spec fn steps_in_domain(steps: Seq<Step>) -> bool {
    forall|i: int| 0 <= i < steps.len() ==> (#[trigger] steps[i]).in_domain()
}

/// Whether every step but the last carries a match.
pub open spec fn ends_once(steps: Seq<Step>) -> bool {
    forall|i: int| 0 <= i < steps.len() - 1 ==> (#[trigger] steps[i]).matched is Some
}

/// What the sequences of a block are: its literal bytes, and the steps that place them.
#[verifier::ext_equal]
pub struct Plan {
    pub literals: Seq<u8>,
    pub steps: Seq<Step>,
}

impl Plan {
    /// Whether the steps are inside their domains, partition the literal bytes, and end once.
    pub open spec fn valid(self) -> bool {
        &&& steps_in_domain(self.steps)
        &&& ends_once(self.steps)
        &&& run_total(self.steps) == self.literals.len()
    }
}

/// The sequences of one block: its literal bytes, and the steps that place them.
///
/// The steps partition the literal bytes: the runs sum to exactly the bytes the vector holds.
/// A step with no match is the last step and nothing else, because a block ends either on a
/// match or on the literal run the terminal symbol closes.
#[derive(Debug, PartialEq, Eq)]
pub struct Sequences {
    literals: Vec<u8>,
    steps: Vec<Step>,
}

impl View for Sequences {
    type V = Plan;

    closed spec fn view(&self) -> Plan {
        Plan { literals: self.literals@, steps: self.steps@ }
    }
}

impl Default for Sequences {
    fn default() -> (sequences: Self)
        ensures
            sequences@ == (Plan { literals: Seq::empty(), steps: Seq::empty() }),
            sequences@.valid(),
    {
        Sequences { literals: Vec::new(), steps: Vec::new() }
    }
}

impl Clone for Sequences {
    fn clone(&self) -> (copy: Self)
        ensures
            copy@ == self@,
    {
        let literals = self.literals.clone();
        let mut steps: Vec<Step> = Vec::new();
        let mut at: usize = 0;
        while at < self.steps.len()
            invariant
                at <= self.steps@.len(),
                steps@ == self.steps@.take(at as int),
            decreases self.steps@.len() - at,
        {
            steps.push(self.steps[at]);
            at = at + 1;
            proof {
                assert(steps@ =~= self.steps@.take(at as int));
            }
        }
        proof {
            assert(steps@ =~= self.steps@);
            assert(literals@ =~= self.literals@);
        }
        Sequences { literals, steps }
    }
}

/// Whether a match is inside the domains its alphabets declare.
fn match_in_domain(matched: Match) -> (inside: bool)
    ensures
        inside == matched.in_domain(),
{
    Alphabet::MatchLength.coded_value(matched.length as u64).is_some()
        && Alphabet::MatchDistance.coded_value(matched.distance as u64).is_some()
}

/// The runs of the first steps are part of the runs of all of them.
pub proof fn lemma_run_total_prefix(steps: Seq<Step>, n: int)
    requires
        0 <= n <= steps.len(),
    ensures
        run_total(steps.take(n)) <= run_total(steps),
    decreases steps.len(),
{
    if n < steps.len() {
        lemma_run_total_prefix(steps.drop_last(), n);
        assert(steps.drop_last().take(n) =~= steps.take(n));
    } else {
        assert(steps.take(n) =~= steps);
    }
}

impl Sequences {
    /// The sequences a parse emitted, checked against the domains the alphabets declare.
    ///
    /// Refuses a run, a length, or a distance outside its domain, runs that do not sum to the
    /// literal bytes the vector holds, and a step other than the last that carries no match.
    pub fn new(literals: Vec<u8>, steps: Vec<Step>) -> (made: Result<Self, Error>)
        ensures
            (Plan { literals: literals@, steps: steps@ }).valid() ==> (made matches Ok(sequences)
                && sequences@ == (Plan { literals: literals@, steps: steps@ })),
            !(Plan { literals: literals@, steps: steps@ }).valid() ==> made == Err::<Self, Error>(
                Error::InvalidParameter,
            ),
    {
        let mut covered: usize = 0;
        let mut at: usize = 0;
        proof {
            assert(steps@.take(0) =~= Seq::empty());
        }
        while at < steps.len()
            invariant
                at <= steps@.len(),
                covered == run_total(steps@.take(at as int)),
                covered <= literals@.len(),
                forall|i: int| 0 <= i < at ==> (#[trigger] steps@[i]).in_domain(),
                forall|i: int|
                    0 <= i < at && i < steps@.len() - 1 ==> (#[trigger] steps@[i]).matched is Some,
            decreases steps@.len() - at,
        {
            let step: Step = steps[at];
            proof {
                assert(steps@.take(at + 1).drop_last() =~= steps@.take(at as int));
                lemma_run_total_prefix(steps@, at + 1);
            }
            if Alphabet::LiteralRun.coded_value(step.run as u64).is_none() {
                proof {
                    assert(!steps@[at as int].in_domain());
                }
                return Err(Error::InvalidParameter);
            }
            match step.matched {
                Some(matched) => {
                    if !match_in_domain(matched) {
                        proof {
                            assert(!steps@[at as int].in_domain());
                        }
                        return Err(Error::InvalidParameter);
                    }
                },
                None => {
                    if at + 1 != steps.len() {
                        proof {
                            assert(steps@[at as int].matched is None);
                        }
                        return Err(Error::InvalidParameter);
                    }
                },
            }
            if step.run as usize > literals.len() - covered {
                return Err(Error::InvalidParameter);
            }
            covered = covered + step.run as usize;
            at = at + 1;
        }
        proof {
            assert(steps@.take(at as int) =~= steps@);
        }
        if covered != literals.len() {
            return Err(Error::InvalidParameter);
        }
        Ok(Sequences { literals, steps })
    }

    /// Sequences that carry values no valid stream produces, unchecked.
    ///
    /// The domains `new` enforces are deliberately bypassed, so that the expansions can be
    /// compared on every refusal. Sequences of a stream always come through `new`, `push`, or
    /// the stream decoder.
    #[must_use]
    pub fn new_unchecked(literals: Vec<u8>, steps: Vec<Step>) -> (sequences: Self)
        ensures
            sequences@ == (Plan { literals: literals@, steps: steps@ }),
    {
        Sequences { literals, steps }
    }

    /// Empty sequences whose storage is sized once and never grows.
    ///
    /// A producer that emits one block after another builds its storage here and reuses it,
    /// so the steady state costs no allocation per block. The two figures are the block's
    /// worst cases: every byte a literal, and one step per shortest match.
    #[must_use]
    pub fn with_capacity(literal_bytes: usize, steps: usize) -> (sequences: Self)
        ensures
            sequences@ == (Plan { literals: Seq::empty(), steps: Seq::empty() }),
            sequences@.valid(),
    {
        Sequences {
            literals: Vec::with_capacity(literal_bytes),
            steps: Vec::with_capacity(steps),
        }
    }

    /// Empties the sequences and keeps the storage they hold.
    pub fn clear(&mut self)
        ensures
            final(self)@ == (Plan { literals: Seq::empty(), steps: Seq::empty() }),
            final(self)@.valid(),
    {
        self.literals.clear();
        self.steps.clear();
    }

    /// Appends one step: the literal bytes its run places, and the match that follows them.
    ///
    /// Each step is checked as it arrives, so the invariants `new` checks over a finished
    /// vector hold over a growing one too: the runs sum to the literal bytes by construction,
    /// every value is inside its domain, and a step that carries no match is the last step.
    /// A refused step leaves the sequences as they were.
    pub fn push(&mut self, literals: &[u8], matched: Option<Match>) -> (pushed: Result<(), Error>)
        ensures
            pushable(old(self)@, literals@, matched) ==> {
                &&& pushed == Ok::<(), Error>(())
                &&& final(self)@ == grown(old(self)@, literals@, matched)
                &&& old(self)@.valid() ==> final(self)@.valid()
            },
            !pushable(old(self)@, literals@, matched) ==> pushed == Err::<(), Error>(
                Error::InvalidParameter,
            ) && final(self)@ == old(self)@,
    {
        let count: usize = self.steps.len();
        if count > 0 && self.steps[count - 1].matched.is_none() {
            return Err(Error::InvalidParameter);
        }
        if literals.len() > MAX_LITERAL_RUN as usize {
            return Err(Error::InvalidParameter);
        }
        match matched {
            Some(matched) => {
                if !match_in_domain(matched) {
                    return Err(Error::InvalidParameter);
                }
            },
            None => {},
        }
        let run: u32 = literals.len() as u32;
        let ghost before = self@;
        self.literals.extend_from_slice(literals);
        self.steps.push(Step { run, matched });
        proof {
            assert(self@.literals =~= before.literals + literals@);
            let after = self@;
            assert(after == grown(before, literals@, matched));
            if before.valid() {
                assert(after.steps.drop_last() =~= before.steps);
                assert forall|i: int| 0 <= i < after.steps.len() implies (
                #[trigger] after.steps[i]).in_domain() by {
                    if i < before.steps.len() {
                        assert(after.steps[i] == before.steps[i]);
                    }
                }
                assert forall|i: int| 0 <= i < after.steps.len() - 1 implies (
                #[trigger] after.steps[i]).matched is Some by {
                    assert(after.steps[i] == before.steps[i]);
                }
            }
        }
        Ok(())
    }

    /// The literal bytes the steps place, in the order the block emits them.
    #[must_use]
    pub fn literals(&self) -> (literals: &[u8])
        ensures
            literals@ == self@.literals,
    {
        self.literals.as_slice()
    }

    /// The steps, in the order the parser emitted them.
    #[must_use]
    pub fn steps(&self) -> (steps: &[Step])
        ensures
            steps@ == self@.steps,
    {
        self.steps.as_slice()
    }

    /// The bytes the sequences decode to, held at the largest figure 64 bits carry.
    #[must_use]
    pub fn decoded_len(&self) -> (total: u64)
        ensures
            total as nat == crate::entropy::least(decoded_total(self@.steps), u64::MAX as nat),
    {
        let mut total: u64 = 0;
        let mut at: usize = 0;
        proof {
            assert(self.steps@.take(0) =~= Seq::empty());
        }
        while at < self.steps.len()
            invariant
                at <= self.steps@.len(),
                total as nat == crate::entropy::least(
                    decoded_total(self.steps@.take(at as int)),
                    u64::MAX as nat,
                ),
            decreases self.steps@.len() - at,
        {
            proof {
                assert(self.steps@.take(at + 1).drop_last() =~= self.steps@.take(at as int));
            }
            let step: Step = self.steps[at];
            total = total.saturating_add(step.run as u64);
            match step.matched {
                Some(matched) => {
                    total = total.saturating_add(matched.length as u64);
                },
                None => {},
            }
            at = at + 1;
        }
        proof {
            assert(self.steps@.take(at as int) =~= self.steps@);
        }
        total
    }
}

/// Whether a step can follow the sequences: it is inside its domains, and they have not ended.
pub open spec fn pushable(plan: Plan, literals: Seq<u8>, matched: Option<Match>) -> bool {
    &&& plan.steps.len() > 0 ==> plan.steps.last().matched is Some
    &&& literals.len() <= MAX_LITERAL_RUN
    &&& matched matches Some(matched) ==> matched.in_domain()
}

/// The sequences with one more step.
pub open spec fn grown(plan: Plan, literals: Seq<u8>, matched: Option<Match>) -> Plan {
    Plan {
        literals: plan.literals + literals,
        steps: plan.steps.push(Step { run: literals.len() as u32, matched }),
    }
}

/// The sequences after a list of pushes, each of which is taken or refused.
pub open spec fn pushed_all(plan: Plan, pushes: Seq<(Seq<u8>, Option<Match>)>) -> Plan
    decreases pushes.len(),
{
    if pushes.len() == 0 {
        plan
    } else {
        let before = pushed_all(plan, pushes.drop_last());
        let (literals, matched) = pushes.last();
        if pushable(before, literals, matched) {
            grown(before, literals, matched)
        } else {
            before
        }
    }
}

/// A growing vector refuses what the finished vector refuses: a step is taken exactly where the
/// sequences with it are ones the construction admits, which is where the sequences have not
/// ended, the run is one a step carries, and the match is inside its domains.
pub proof fn law_growing_refuses_what_the_finished_vector_refuses(
    plan: Plan,
    literals: Seq<u8>,
    matched: Option<Match>,
)
    requires
        plan.valid(),
    ensures
        pushable(plan, literals, matched) <==> grown(plan, literals, matched).valid(),
        pushable(plan, literals, matched) <==> {
            &&& plan.steps.len() > 0 ==> plan.steps.last().matched is Some
            &&& literals.len() <= 65_536
            &&& matched matches Some(matched) ==> 4 <= matched.length <= 256 && 1
                <= matched.distance <= 65_536
        },
{
    let after = grown(plan, literals, matched);
    let count = plan.steps.len() as int;
    assert(after.steps.drop_last() =~= plan.steps);
    assert(after.steps[count] == (Step { run: literals.len() as u32, matched }));
    if pushable(plan, literals, matched) {
        assert forall|i: int| 0 <= i < after.steps.len() implies (
        #[trigger] after.steps[i]).in_domain() by {
            if i < count {
                assert(after.steps[i] == plan.steps[i]);
            }
        }
        assert forall|i: int| 0 <= i < after.steps.len() - 1 implies (
        #[trigger] after.steps[i]).matched is Some by {
            assert(after.steps[i] == plan.steps[i]);
        }
    } else if after.valid() {
        assert(after.steps[count].in_domain());
        if count > 0 {
            assert(after.steps[count - 1].matched is Some);
            assert(after.steps[count - 1] == plan.steps[count - 1]);
        }
    }
}

/// Whatever is pushed, the sequences stay ones the construction admits.
pub proof fn law_pushes_keep_the_sequences_valid(
    plan: Plan,
    pushes: Seq<(Seq<u8>, Option<Match>)>,
)
    requires
        plan.valid(),
    ensures
        pushed_all(plan, pushes).valid(),
        (Plan { literals: Seq::empty(), steps: Seq::empty() }).valid(),
    decreases pushes.len(),
{
    if pushes.len() > 0 {
        let before = pushed_all(plan, pushes.drop_last());
        let (literals, matched) = pushes.last();
        law_pushes_keep_the_sequences_valid(plan, pushes.drop_last());
        law_growing_refuses_what_the_finished_vector_refuses(before, literals, matched);
    }
}

/// The bucket index, the suffix width, and the suffix of a value at or above one.
///
/// Total, so that no caller carries a precondition: a value of zero takes the first bucket, and
/// the domain checks at the boundaries above are what keep it unreachable.
fn bucket_split(value: u64) -> (split: (u32, u32, u64))
    ensures
        value >= 1 ==> {
            &&& split.0 as nat == bucket_of(value as nat)
            &&& split.1 as nat == width_of_bucket(split.0 as nat)
            &&& value as nat == low_of_bucket(split.0 as nat) + split.2 as nat
            &&& (split.2 as nat) < pow2(split.1 as nat)
        },
        value == 0 ==> split == (0u32, 0u32, 0u64),
{
    proof {
        lemma2_to64();
        if value >= 1 {
            lemma_bucket_of(value as nat);
        }
    }
    if value < 8 {
        if value <= 1 {
            return (0, 0, 0);
        }
        return ((value - 1) as u32, 0, 0);
    }
    let octave: u32 = width_for(value) - 1;
    let width: u32 = octave - MANTISSA_BITS;
    proof {
        lemma_bit_width(value as nat);
        lemma_pow2_strictly_increases(octave as nat, 64);
        lemma_pow2_adds(2, width as nat);
        lemma_pow2_pos(width as nat);
        lemma_pow2_unfold((octave + 1) as nat);
    }
    let inside: u64 = value - shift_left(1, octave);
    let part: u64 = shift_right(inside, width);
    proof {
        let p = pow2(width as nat);
        lemma_fundamental_div_mod(inside as int, p as int);
        lemma_mod_bound(inside as int, p as int);
        assert(part < 4) by (nonlinear_arith)
            requires
                p * part <= inside,
                inside < 4 * p,
                p > 0,
        ;
        assert(0 <= part * p <= inside) by (nonlinear_arith)
            requires
                p * part <= inside,
                p > 0,
                part >= 0,
        ;
        assert(part * p == p * part) by (nonlinear_arith);
    }
    let index: u32 = DEGENERATE_SYMBOLS + OCTAVE_SYMBOLS * (width - 1) + part as u32;
    proof {
        assert((index - 7) / 4 == width - 1);
        assert((index - 7) % 4 == part);
    }
    (index, width, inside - shift_left(part, width))
}

/// The suffix width of a bucket index.
#[must_use]
pub fn bucket_width(index: u32) -> (width: u32)
    ensures
        width as nat == width_of_bucket(index as nat),
{
    if index < DEGENERATE_SYMBOLS {
        return 0;
    }
    (index - DEGENERATE_SYMBOLS) / OCTAVE_SYMBOLS + 1
}

/// The smallest value a bucket index owns.
#[must_use]
pub fn bucket_low(index: u32) -> (low: u64)
    requires
        width_of_bucket(index as nat) <= 60,
    ensures
        low as nat == low_of_bucket(index as nat),
{
    if index < DEGENERATE_SYMBOLS {
        return index as u64 + 1;
    }
    let width: u32 = bucket_width(index);
    let inside: u32 = (index - DEGENERATE_SYMBOLS) % OCTAVE_SYMBOLS;
    proof {
        lemma2_to64();
        lemma_pow2_adds(2, width as nat);
        lemma_pow2_unfold(61);
        lemma_pow2_unfold(62);
        lemma_pow2_unfold(63);
        lemma_pow2_unfold(64);
        lemma_pow2_pos(width as nat);
        if width < 60 {
            lemma_pow2_strictly_increases(width as nat, 60);
        }
        assert(inside * pow2(width as nat) <= 3 * pow2(60)) by (nonlinear_arith)
            requires
                inside <= 3,
                pow2(width as nat) <= pow2(60),
        ;
    }
    shift_left(1, width + MANTISSA_BITS) + shift_left(inside as u64, width)
}

/// A symbol index as the streams carry it, or nothing when sixteen bits do not hold it.
#[must_use]
pub fn narrow_symbol(value: u32) -> (symbol: Option<u16>)
    ensures
        value <= u16::MAX ==> symbol == Some(value as u16),
        value > u16::MAX ==> symbol is None,
{
    if value > u16::MAX as u32 {
        None
    } else {
        Some(value as u16)
    }
}

} // verus!
