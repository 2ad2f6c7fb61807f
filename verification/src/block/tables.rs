//! Owns the tables a block's classes are coded under: what an encoder builds, what a decoder
//! admits from a description and decodes with, and the one model all three share.

use vstd::prelude::*;
use crate::entropy::bits::{
    lemma_bits_of_len, lemma_pack_bytes, window, BitBuf, BitReader, BitWriter,
};
use crate::entropy::huffman::laws::{lemma_spell_len, occurrences};
use crate::entropy::huffman::tokens::lemma_tokens_len;
use crate::entropy::huffman::{
    buildable, built, distinct, lemma_narrowest_limit, lemma_symbol_bits, limit_within,
    narrowest_limit, symbol_bits, CodeShape, LENGTH_LIMIT,
};
use crate::entropy::rans::fields::lemma_fields_len;
use crate::entropy::rans::states::{admitted_states, decoded_prefix, TableShape};
use crate::entropy::{huffman, rans};
use crate::format::{Corruption, Error};
use crate::sequence::Alphabet;
use vstd::arithmetic::power2::{lemma2_to64, lemma_pow2_strictly_increases, pow2};

verus! {

/// The coder one symbol class is coded under.
#[derive(Clone, Copy, Debug, PartialEq, Eq)]
pub enum Coder {
    /// Canonical Huffman, decoded through a single-level table.
    Huffman,
    /// rANS, interleaved at the states the class affords.
    Rans {
        /// The interleaved states.
        states: usize,
    },
}

/// The coder of one stream.
pub open spec fn coder_at(index: int) -> Coder {
    if index == 0 {
        Coder::Huffman
    } else if index == 1 {
        Coder::Rans { states: 1 }
    } else if index == 2 {
        Coder::Rans { states: 2 }
    } else {
        Coder::Rans { states: 4 }
    }
}

/// The alphabet of one stream.
pub open spec fn alphabet_at(index: int) -> Alphabet {
    if index == 0 {
        Alphabet::LiteralByte
    } else if index == 1 {
        Alphabet::LiteralRun
    } else if index == 2 {
        Alphabet::MatchLength
    } else {
        Alphabet::MatchDistance
    }
}

/// The coder and the alphabet of one stream.
///
/// Refuses an index no stream has.
pub fn class_of(stream: usize) -> (class: Result<(Coder, Alphabet), Error>)
    ensures
        stream < 4 ==> class == Ok::<(Coder, Alphabet), Error>(
            (coder_at(stream as int), alphabet_at(stream as int)),
        ),
        stream >= 4 ==> class == Err::<(Coder, Alphabet), Error>(Error::InvalidParameter),
{
    match stream {
        0 => Ok((Coder::Huffman, Alphabet::LiteralByte)),
        1 => Ok((Coder::Rans { states: 1 }, Alphabet::LiteralRun)),
        2 => Ok((Coder::Rans { states: 2 }, Alphabet::MatchLength)),
        3 => Ok((Coder::Rans { states: 4 }, Alphabet::MatchDistance)),
        _ => Err(Error::InvalidParameter),
    }
}

/// What a table is, whoever holds it: the code or the frequencies, and the states its coder is
/// interleaved at.
#[verifier::ext_equal]
pub enum ClassTable {
    Huffman(CodeShape),
    Rans(TableShape, nat),
}

impl ClassTable {
    /// Whether the table is one a coder can code under.
    pub open spec fn valid(self) -> bool {
        match self {
            ClassTable::Huffman(shape) => shape.valid(),
            ClassTable::Rans(shape, states) => shape.valid() && admitted_states(states),
        }
    }

    /// Whether the table is of a coder and over an alphabet.
    pub open spec fn of_class(self, coder: Coder, alphabet: Alphabet) -> bool {
        match (self, coder) {
            (ClassTable::Huffman(shape), Coder::Huffman) => shape.lengths.len()
                == alphabet.symbols(),
            (ClassTable::Rans(shape, held), Coder::Rans { states }) => held == states
                && shape.freq.len() == alphabet.symbols(),
            _ => false,
        }
    }

    /// The bytes a decoder allocates for the table.
    pub open spec fn table_bytes(self) -> nat {
        match self {
            ClassTable::Huffman(shape) => shape.table_bytes(),
            ClassTable::Rans(shape, _) => shape.table_bytes(),
        }
    }

    /// Whether the table can code every symbol of a stream.
    pub open spec fn carries_all(self, symbols: Seq<u16>) -> bool {
        match self {
            ClassTable::Huffman(shape) => shape.carries_all(symbols),
            ClassTable::Rans(shape, _) => shape.carries_all(symbols),
        }
    }

    /// The bits of the description a decoder rebuilds the table from.
    pub open spec fn description(self) -> Seq<bool> {
        match self {
            ClassTable::Huffman(shape) => shape.description(),
            ClassTable::Rans(shape, _) => rans::description(shape),
        }
    }

    /// The bits of a stream coded under the table, or the refusal of a symbol it does not carry
    /// or of more bits than a 64-bit count holds.
    pub open spec fn payload(self, symbols: Seq<u16>) -> Result<Seq<bool>, Error> {
        if !self.carries_all(symbols) {
            Err(Error::InvalidParameter)
        } else {
            match self {
                ClassTable::Huffman(shape) => if LENGTH_LIMIT as nat * symbols.len() > u64::MAX {
                    Err(Error::InvalidParameter)
                } else {
                    Ok(shape.spell(symbols))
                },
                ClassTable::Rans(shape, states) => {
                    let bytes = rans::states::payload(shape, symbols, states);
                    if !admitted_states(states) || 8 * bytes.len() > u64::MAX {
                        Err(Error::InvalidParameter)
                    } else {
                        Ok(window(bytes, 0, 8 * bytes.len()))
                    }
                },
            }
        }
    }

    /// The `count` symbols a section of `bits` bits decodes to and the bits they spend, or the
    /// refusal.
    pub open spec fn decoded(self, section: Seq<u8>, bits: nat, count: nat) -> Result<
        (Seq<u16>, nat),
        Error,
    > {
        match self {
            ClassTable::Huffman(shape) => {
                let (symbols, spent) = shape.run(section, 0, count);
                if shape.single is None && spent > bits {
                    Err(Error::CorruptData(Corruption::CodedStream))
                } else {
                    Ok((symbols, spent))
                }
            },
            ClassTable::Rans(shape, states) => if !admitted_states(states) {
                Err(Error::InvalidParameter)
            } else {
                match rans::states::decoded(shape, section, states, count) {
                    None => Err(Error::CorruptData(Corruption::CodedStream)),
                    Some((symbols, _, end)) => if 8 * end > u64::MAX {
                        Err(Error::CorruptData(Corruption::BlockPayload))
                    } else {
                        Ok((symbols, 8 * end))
                    },
                }
            },
        }
    }

    /// What a decode of a section leaves in an output, refused or not: the symbols decoded, and
    /// the rest as it was.
    pub open spec fn written(self, section: Seq<u8>, out: Seq<u16>) -> Seq<u16> {
        match self {
            ClassTable::Huffman(shape) => shape.run(section, 0, out.len()).0,
            ClassTable::Rans(shape, states) => if !admitted_states(states) {
                out
            } else {
                let prefix = decoded_prefix(shape, section, states, out.len());
                prefix + out.skip(prefix.len() as int)
            },
        }
    }
}

/// The table a description section declares and the bits it occupies, or the refusal.
pub open spec fn described(
    coder: Coder,
    alphabet: Alphabet,
    section: Seq<u8>,
    bits: nat,
) -> Result<ClassTable, Error> {
    match coder {
        Coder::Huffman => match huffman::parse_description(section, bits, 0, alphabet.symbols()) {
            Err((error, _)) => Err(error),
            Ok((shape, at)) => match huffman::validated(alphabet.symbols(), shape) {
                Err(error) => Err(error),
                Ok(shape) => if at != bits {
                    Err(Error::CorruptData(Corruption::BlockDescription))
                } else {
                    Ok(ClassTable::Huffman(shape))
                },
            },
        },
        Coder::Rans { states } => match rans::parse_description(
            section,
            bits,
            0,
            alphabet.symbols(),
        ) {
            Err((error, _)) => Err(error),
            Ok((shape, at)) => match rans::validated(shape) {
                Err(error) => Err(error),
                Ok(shape) => if at != bits {
                    Err(Error::CorruptData(Corruption::BlockDescription))
                } else {
                    Ok(ClassTable::Rans(shape, states as nat))
                },
            },
        },
    }
}

/// How often each symbol of an alphabet occurs in a stream.
pub open spec fn histogram(symbols: Seq<u16>, span: nat) -> Seq<u64> {
    Seq::new(span, |s: int| occurrences(symbols, s) as u64)
}

/// Whether every symbol of a stream is one of an alphabet.
pub open spec fn drawn_from(symbols: Seq<u16>, alphabet: Alphabet) -> bool {
    forall|i: int| 0 <= i < symbols.len() ==> #[trigger] symbols[i] < alphabet.symbols()
}

/// The limit a code over counts is built at, inside a share, or the refusal of the share.
pub open spec fn length_limit(counts: Seq<u64>, share: u64) -> Result<nat, Error> {
    if distinct(counts) <= 1 {
        Ok(LENGTH_LIMIT as nat)
    } else {
        match limit_within(
            LENGTH_LIMIT as nat,
            narrowest_limit(distinct(counts)),
            share as nat,
        ) {
            Some(limit) => Ok(limit),
            None => Err(
                Error::LimitExceeded {
                    declared: (2 * pow2(narrowest_limit(distinct(counts)))) as u64,
                    allowed: share,
                },
            ),
        }
    }
}

/// The table one stream is built, inside the share its class may spend, or the refusal.
pub open spec fn table_for(coder: Coder, alphabet: Alphabet, symbols: Seq<u16>, share: u64)
    -> Result<ClassTable, Error> {
    let counts = histogram(symbols, alphabet.symbols());
    let size = alphabet.symbols() as u32;
    if !drawn_from(symbols, alphabet) {
        Err(Error::InvalidParameter)
    } else {
        match coder {
            Coder::Huffman => match length_limit(counts, share) {
                Err(error) => Err(error),
                Ok(limit) => if buildable(counts, size, limit as u32) {
                    Ok(ClassTable::Huffman(built(counts, limit)))
                } else {
                    Err(Error::InvalidParameter)
                },
            },
            Coder::Rans { states } => if !rans::normalizable(counts, size) {
                Err(Error::InvalidParameter)
            } else if rans::built(counts).table_bytes() > share {
                Err(
                    Error::LimitExceeded {
                        declared: rans::built(counts).table_bytes() as u64,
                        allowed: share,
                    },
                )
            } else {
                Ok(ClassTable::Rans(rans::built(counts), states as nat))
            },
        }
    }
}

/// A table an encoder codes one class under.
#[derive(Debug)]
pub enum Built {
    /// A canonical Huffman code.
    Huffman(huffman::Code),
    /// rANS frequencies, and the interleaved states.
    Rans(rans::Table, usize),
}

impl View for Built {
    type V = ClassTable;

    open spec fn view(&self) -> ClassTable {
        match self {
            Built::Huffman(code) => ClassTable::Huffman(code@),
            Built::Rans(table, states) => ClassTable::Rans(table@, *states as nat),
        }
    }
}

impl Clone for Built {
    fn clone(&self) -> (copy: Self)
        ensures
            copy@ == self@,
            copy.wf() == self.wf(),
    {
        match self {
            Built::Huffman(code) => Built::Huffman(code.clone()),
            Built::Rans(table, states) => Built::Rans(table.clone(), *states),
        }
    }
}

impl Built {
    /// Whether the table holds what its model says.
    pub open spec fn wf(&self) -> bool {
        match self {
            Built::Huffman(code) => code.wf(),
            Built::Rans(table, _) => table.wf(),
        }
    }

    /// A table's model is a code or frequencies a coder can use.
    pub proof fn lemma_wf(&self)
        requires
            self.wf(),
        ensures
            match self@ {
                ClassTable::Huffman(shape) => shape.valid(),
                ClassTable::Rans(shape, _) => shape.valid(),
            },
    {
        match self {
            Built::Huffman(code) => code.lemma_wf(),
            Built::Rans(table, _) => table.lemma_wf(),
        }
    }

    /// Whether this table can code every symbol of `symbols`.
    ///
    /// A table built for another block carries the symbols that block held. One that does not
    /// carry a symbol of this block cannot code it, so a stream may not name it in force.
    #[must_use]
    pub fn carries(&self, symbols: &[u16]) -> (carried: bool)
        ensures
            carried == self@.carries_all(symbols@),
    {
        let mut at: usize = 0;
        while at < symbols.len()
            invariant
                at <= symbols@.len(),
                self@.carries_all(symbols@.take(at as int)),
            decreases symbols@.len() - at,
        {
            let symbol: u16 = symbols[at];
            let carried: bool = match self {
                Built::Huffman(code) => code.carries(symbol),
                Built::Rans(table, _) => table.carries(symbol),
            };
            if !carried {
                proof {
                    assert(symbols@[at as int] == symbol);
                }
                return false;
            }
            proof {
                let next = symbols@.take(at + 1);
                let here = symbols@.take(at as int);
                assert forall|i: int| 0 <= i < next.len() implies (match self@ {
                    ClassTable::Huffman(shape) => shape.carries(#[trigger] next[i]),
                    ClassTable::Rans(shape, _) => shape.carries(next[i]),
                }) by {
                    if i < at {
                        assert(here[i] == next[i]);
                    }
                }
            }
            at = at + 1;
        }
        proof {
            assert(symbols@.take(at as int) =~= symbols@);
        }
        true
    }

    /// The bytes a decoder allocates for this table.
    #[must_use]
    pub fn table_bytes(&self) -> (bytes: u64)
        requires
            self.wf(),
        ensures
            bytes as nat == self@.table_bytes(),
    {
        match self {
            Built::Huffman(code) => code.table_bytes(),
            Built::Rans(table, _) => table.table_bytes(),
        }
    }

    /// The description a decoder rebuilds this table from.
    #[must_use]
    pub fn describe(&self) -> (description: BitBuf)
        requires
            self.wf(),
        ensures
            description@ == self@.description(),
            description.wf(),
            description.tight(),
    {
        proof {
            self.lemma_wf();
            lemma_description_len(self@);
        }
        let mut writer = BitWriter::new();
        match self {
            Built::Huffman(code) => code.describe(&mut writer),
            Built::Rans(table, _) => table.describe(&mut writer),
        }
        proof {
            assert(writer@ =~= self@.description());
        }
        writer.finish()
    }

    /// Codes one stream under this table.
    ///
    /// Refuses a symbol the table does not carry, and more bits than a 64-bit count holds, which
    /// no memory does.
    pub fn write(&self, symbols: &[u16]) -> (written: Result<BitBuf, Error>)
        requires
            self.wf(),
        ensures
            match self@.payload(symbols@) {
                Ok(bits) => written matches Ok(payload) && payload@ == bits && payload.wf()
                    && payload.tight(),
                Err(error) => written == Err::<BitBuf, Error>(error),
            },
    {
        match self {
            Built::Huffman(code) => {
                if symbols.len() as u64 > u64::MAX / LENGTH_LIMIT as u64 {
                    return Err(Error::InvalidParameter);
                }
                let encoder = match code.encoder() {
                    Ok(encoder) => encoder,
                    Err(error) => {
                        return Err(error);
                    },
                };
                let mut writer = BitWriter::new();
                match encoder.write(symbols, &mut writer) {
                    Ok(()) => {},
                    Err(error) => {
                        return Err(error);
                    },
                }
                proof {
                    code.lemma_wf();
                    lemma_spell_len(code@, symbols@);
                    assert(writer@ =~= code@.spell(symbols@));
                }
                Ok(writer.finish())
            },
            Built::Rans(table, states) => {
                let encoder = match table.encoder() {
                    Ok(encoder) => encoder,
                    Err(error) => {
                        return Err(error);
                    },
                };
                let bytes: Vec<u8> = match encoder.write(symbols, *states) {
                    Ok(bytes) => bytes,
                    Err(error) => {
                        return Err(error);
                    },
                };
                if bytes.len() as u64 > u64::MAX / 8 {
                    return Err(Error::InvalidParameter);
                }
                let bits: u64 = bytes.len() as u64 * 8;
                proof {
                    lemma_pack_bytes(bytes@);
                }
                BitBuf::new(bytes, bits)
            },
        }
    }
}

/// A table a decoder decodes one class under, and the states its coder is interleaved at.
pub enum InForce {
    /// A Huffman decode table.
    Huffman(huffman::DecodeTable),
    /// An rANS decode table, and the interleaved states.
    Rans(rans::DecodeTable, usize),
}

impl View for InForce {
    type V = ClassTable;

    open spec fn view(&self) -> ClassTable {
        match self {
            InForce::Huffman(table) => ClassTable::Huffman(table@),
            InForce::Rans(table, states) => ClassTable::Rans(table@, *states as nat),
        }
    }
}

impl InForce {
    /// Whether the table holds what its model says.
    pub open spec fn wf(&self) -> bool {
        match self {
            InForce::Huffman(table) => table.wf(),
            InForce::Rans(table, _) => table.wf(),
        }
    }

    /// The bytes this table occupies.
    #[must_use]
    pub fn table_bytes(&self) -> (bytes: u64)
        requires
            self.wf(),
        ensures
            bytes as nat == self@.table_bytes(),
    {
        match self {
            InForce::Huffman(table) => table.allocated_bytes(),
            InForce::Rans(table, _) => table.allocated_bytes(),
        }
    }

    /// Decodes one stream, and reports the payload bits it consumed.
    pub fn decode(&self, section: &[u8], bits: u64, out: &mut [u16]) -> (spent: Result<u64, Error>)
        requires
            self.wf(),
        ensures
            final(out)@.len() == old(out)@.len(),
            final(out)@ == self@.written(section@, old(out)@),
            match self@.decoded(section@, bits as nat, old(out)@.len()) {
                Ok((symbols, used)) => spent matches Ok(told) && told == used && final(out)@
                    == symbols,
                Err(error) => spent == Err::<u64, Error>(error),
            },
    {
        match self {
            InForce::Huffman(table) => {
                let mut reader = BitReader::new(section, bits);
                match table.decode(&mut reader, out) {
                    Ok(()) => Ok(reader.consumed()),
                    Err(error) => Err(error),
                }
            },
            InForce::Rans(table, states) => {
                let consumed: usize = match table.decode(section, out, *states) {
                    Ok(consumed) => consumed,
                    Err(error) => {
                        return Err(error);
                    },
                };
                proof {
                    assert(section.len() == section@.len());
                }
                match (consumed as u64).checked_mul(8) {
                    Some(spent) => Ok(spent),
                    None => Err(Error::CorruptData(Corruption::BlockPayload)),
                }
            },
        }
    }
}

/// A description a decoder has admitted and not yet built a table from.
#[derive(Debug)]
pub enum Admitted {
    /// An admitted Huffman description.
    Huffman(huffman::Admitted),
    /// An admitted rANS description, and the interleaved states.
    Rans(rans::Admitted, usize),
}

impl View for Admitted {
    type V = ClassTable;

    open spec fn view(&self) -> ClassTable {
        match self {
            Admitted::Huffman(admitted) => ClassTable::Huffman(admitted@),
            Admitted::Rans(admitted, states) => ClassTable::Rans(admitted@, *states as nat),
        }
    }
}

impl Admitted {
    /// Whether the description is one a table can be built from.
    pub open spec fn wf(&self) -> bool {
        match self {
            Admitted::Huffman(admitted) => admitted.wf(),
            Admitted::Rans(admitted, _) => admitted.wf(),
        }
    }

    /// Parses and validates the description one section holds.
    ///
    /// Nothing here allocates a table. A malformed description is refused before one exists, and
    /// so is one that leaves bits of its section unread.
    pub fn read(coder: Coder, alphabet: Alphabet, section: &[u8], bits: u64) -> (read: Result<
        Self,
        Error,
    >)
        ensures
            match described(coder, alphabet, section@, bits as nat) {
                Ok(table) => read matches Ok(admitted) && admitted.wf() && admitted@ == table,
                Err(error) => read == Err::<Self, Error>(error),
            },
    {
        let mut reader = BitReader::new(section, bits);
        let admitted = match coder {
            Coder::Huffman => {
                let declared = match huffman::Declared::parse(&mut reader, alphabet.size()) {
                    Ok(declared) => declared,
                    Err(error) => {
                        return Err(error);
                    },
                };
                match declared.validate() {
                    Ok(admitted) => Admitted::Huffman(admitted),
                    Err(error) => {
                        return Err(error);
                    },
                }
            },
            Coder::Rans { states } => {
                let declared = match rans::Declared::parse(&mut reader, alphabet.size()) {
                    Ok(declared) => declared,
                    Err(error) => {
                        return Err(error);
                    },
                };
                match declared.validate() {
                    Ok(admitted) => Admitted::Rans(admitted, states),
                    Err(error) => {
                        return Err(error);
                    },
                }
            },
        };
        if reader.consumed() != bits {
            return Err(Error::CorruptData(Corruption::BlockDescription));
        }
        Ok(admitted)
    }

    /// The bytes the table will occupy, computed from the description alone.
    #[must_use]
    pub fn table_bytes(&self) -> (bytes: u64)
        requires
            self.wf(),
        ensures
            bytes as nat == self@.table_bytes(),
    {
        match self {
            Admitted::Huffman(admitted) => admitted.table_bytes(),
            Admitted::Rans(admitted, _) => admitted.table_bytes(),
        }
    }

    /// Allocates the decode table.
    pub fn build(&self) -> (table: Result<InForce, Error>)
        requires
            self.wf(),
        ensures
            table matches Ok(table) && table.wf() && table@ == self@,
    {
        match self {
            Admitted::Huffman(admitted) => match admitted.build() {
                Ok(table) => Ok(InForce::Huffman(table)),
                Err(error) => Err(error),
            },
            Admitted::Rans(admitted, states) => match admitted.build() {
                Ok(table) => Ok(InForce::Rans(table, *states)),
                Err(error) => Err(error),
            },
        }
    }
}

/// A description has bits, and few enough.
pub proof fn lemma_description_len(table: ClassTable)
    requires
        match table {
            ClassTable::Huffman(shape) => shape.valid(),
            ClassTable::Rans(shape, _) => shape.valid(),
        },
    ensures
        1 <= table.description().len() <= 4357,
{
    match table {
        ClassTable::Huffman(shape) => match shape.single {
            Some(symbol) => {
                lemma_symbol_bits(shape.lengths.len());
                lemma_bits_of_len(symbol as nat, symbol_bits(shape.lengths.len()));
            },
            None => {
                lemma_tokens_len(shape.lengths, 0, 0);
            },
        },
        ClassTable::Rans(shape, _) => {
            lemma2_to64();
            if shape.log < 12 {
                lemma_pow2_strictly_increases(shape.log as nat, 12);
            }
            lemma_fields_len(shape.freq, 0, pow2(shape.log as nat));
            lemma_bits_of_len(shape.log as nat, rans::LOG_FIELD_BITS as nat);
        },
    }
}

/// A symbol occurs at most as often as the stream has symbols.
pub proof fn lemma_occurrences_bound(symbols: Seq<u16>, symbol: int)
    ensures
        occurrences(symbols, symbol) <= symbols.len(),
    decreases symbols.len(),
{
    if symbols.len() > 0 {
        lemma_occurrences_bound(symbols.drop_last(), symbol);
    }
}

/// The occurrences of every symbol of one alphabet.
///
/// Refuses a symbol the alphabet does not hold.
pub fn frequencies(symbols: &[u16], alphabet: Alphabet) -> (counted: Result<Vec<u64>, Error>)
    ensures
        drawn_from(symbols@, alphabet) ==> (counted matches Ok(counts) && counts@ == histogram(
            symbols@,
            alphabet.symbols(),
        ) && forall|s: int|
            0 <= s < counts@.len() ==> #[trigger] counts@[s] as nat == occurrences(symbols@, s)),
        !drawn_from(symbols@, alphabet) ==> counted == Err::<Vec<u64>, Error>(
            Error::InvalidParameter,
        ),
{
    let span: usize = alphabet.size() as usize;
    let mut counts: Vec<u64> = vec![0u64; span];
    let total: usize = symbols.len();
    let mut at: usize = 0;
    proof {
        assert(symbols@.take(0) =~= Seq::empty());
    }
    while at < symbols.len()
        invariant
            at <= symbols@.len(),
            total == symbols@.len(),
            span == alphabet.symbols(),
            counts@.len() == span,
            drawn_from(symbols@.take(at as int), alphabet),
            forall|s: int|
                0 <= s < span ==> #[trigger] counts@[s] as nat == occurrences(
                    symbols@.take(at as int),
                    s,
                ),
        decreases symbols@.len() - at,
    {
        let symbol: usize = symbols[at] as usize;
        if symbol >= span {
            proof {
                assert(symbols@[at as int] >= alphabet.symbols());
            }
            return Err(Error::InvalidParameter);
        }
        let ghost here = symbols@.take(at as int);
        let ghost next = symbols@.take(at + 1);
        proof {
            assert(next.drop_last() =~= here);
            lemma_occurrences_bound(here, symbol as int);
            assert(counts@[symbol as int] < u64::MAX);
            assert forall|i: int| 0 <= i < next.len() implies #[trigger] next[i]
                < alphabet.symbols() by {
                if i < at {
                    assert(here[i] == next[i]);
                }
            }
        }
        let held: u64 = counts[symbol];
        counts.set(symbol, held + 1);
        at = at + 1;
    }
    proof {
        assert(symbols@.take(at as int) =~= symbols@);
        assert(counts@ =~= histogram(symbols@, alphabet.symbols()));
    }
    Ok(counts)
}

/// Builds the table one stream codes under, inside the share its class may spend.
///
/// Returns the histogram the table was built over alongside the table. The caller holds the one
/// pass per stream through the reuse decision, then drops it with the block.
pub fn build(coder: Coder, alphabet: Alphabet, symbols: &[u16], share: u64) -> (made: Result<
    (Built, Vec<u64>),
    Error,
>)
    ensures
        match table_for(coder, alphabet, symbols@, share) {
            Ok(table) => made matches Ok((built, counts)) && built.wf() && built@ == table
                && counts@ == histogram(symbols@, alphabet.symbols()) && (forall|s: int|
                0 <= s < counts@.len() ==> #[trigger] counts@[s] as nat == occurrences(
                    symbols@,
                    s,
                )),
            Err(error) => made == Err::<(Built, Vec<u64>), Error>(error),
        },
{
    let counts: Vec<u64> = match frequencies(symbols, alphabet) {
        Ok(counts) => counts,
        Err(error) => {
            return Err(error);
        },
    };
    match coder {
        Coder::Huffman => {
            proof {
                lemma_limit_within(counts@, share);
                if distinct(counts@) > 1 {
                    lemma_narrowest_limit(counts@);
                }
            }
            match huffman::Code::build_within(counts.as_slice(), alphabet.size(), share) {
                Ok(code) => Ok((Built::Huffman(code), counts)),
                Err(error) => Err(error),
            }
        },
        Coder::Rans { states } => {
            let table = match rans::Table::normalize(counts.as_slice(), alphabet.size()) {
                Ok(table) => table,
                Err(error) => {
                    return Err(error);
                },
            };
            let bytes: u64 = table.table_bytes();
            if bytes > share {
                return Err(Error::LimitExceeded { declared: bytes, allowed: share });
            }
            Ok((Built::Rans(table, states), counts))
        },
    }
}

/// The limit a share holds is one a length can have.
proof fn lemma_limit_within(counts: Seq<u64>, share: u64)
    ensures
        length_limit(counts, share) matches Ok(limit) ==> limit <= LENGTH_LIMIT,
{
    lemma_limit_bound(LENGTH_LIMIT as nat, narrowest_limit(distinct(counts)), share as nat);
}

proof fn lemma_limit_bound(limit: nat, narrowest: nat, budget: nat)
    ensures
        limit_within(limit, narrowest, budget) matches Some(found) ==> found <= limit,
    decreases limit,
{
    if limit > 0 {
        lemma_limit_bound((limit - 1) as nat, narrowest, budget);
    }
}

} // verus!
