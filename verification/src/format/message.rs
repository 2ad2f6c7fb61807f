//! Owns what an error says to a reader.

use vstd::prelude::*;
use vstd::string::*;
use super::{Corruption, Error, Feature};

verus! {

/// The character of one decimal digit.
pub open spec fn digit(value: nat) -> char {
    if value == 0 {
        '0'
    } else if value == 1 {
        '1'
    } else if value == 2 {
        '2'
    } else if value == 3 {
        '3'
    } else if value == 4 {
        '4'
    } else if value == 5 {
        '5'
    } else if value == 6 {
        '6'
    } else if value == 7 {
        '7'
    } else if value == 8 {
        '8'
    } else {
        '9'
    }
}

/// The decimal digits of a number, most significant first.
pub open spec fn decimal(value: nat) -> Seq<char>
    decreases value,
{
    if value < 10 {
        seq![digit(value)]
    } else {
        decimal(value / 10).push(digit(value % 10))
    }
}

/// The number decimal digits spell, most significant first.
pub open spec fn number(digits: Seq<char>) -> int
    decreases digits.len(),
{
    if digits.len() == 0 {
        0
    } else {
        10 * number(digits.drop_last()) + (digits.last() as int - '0' as int)
    }
}

/// A number is said in decimal: its digits, each from zero to nine, spell it, and the first is
/// zero only where the number is.
pub proof fn law_a_number_is_said_in_decimal(value: nat)
    ensures
        number(decimal(value)) == value,
        decimal(value).len() > 0,
        forall|i: int|
            0 <= i < decimal(value).len() ==> '0' as int <= #[trigger] decimal(value)[i] as int
                && decimal(value)[i] as int <= '9' as int,
        value > 0 ==> decimal(value)[0] != '0',
    decreases value,
{
    if value < 10 {
        assert(decimal(value).drop_last() =~= Seq::empty());
        assert(number(Seq::empty()) == 0);
    } else {
        law_a_number_is_said_in_decimal(value / 10);
        let front = decimal(value / 10);
        assert(front.push(digit(value % 10)).drop_last() =~= front);
        assert forall|i: int| 0 <= i < decimal(value).len() implies '0' as int <= #[trigger] decimal(
            value,
        )[i] as int && decimal(value)[i] as int <= '9' as int by {
            if i < front.len() {
                assert(decimal(value)[i] == front[i]);
            }
        }
    }
}

fn digit_text(value: u64) -> (text: &'static str)
    requires
        value < 10,
    ensures
        text@ == seq![digit(value as nat)],
{
    proof {
        reveal_strlit("0");
        reveal_strlit("1");
        reveal_strlit("2");
        reveal_strlit("3");
        reveal_strlit("4");
        reveal_strlit("5");
        reveal_strlit("6");
        reveal_strlit("7");
        reveal_strlit("8");
        reveal_strlit("9");
    }
    let text = match value {
        0 => "0",
        1 => "1",
        2 => "2",
        3 => "3",
        4 => "4",
        5 => "5",
        6 => "6",
        7 => "7",
        8 => "8",
        _ => "9",
    };
    assert(text@ =~= seq![digit(value as nat)]);
    text
}

fn decimal_text(value: u64) -> (text: String)
    ensures
        text@ == decimal(value as nat),
    decreases value,
{
    if value < 10 {
        String::from_str(digit_text(value))
    } else {
        let mut text = decimal_text(value / 10);
        text.append(digit_text(value % 10));
        proof {
            assert(text@ =~= decimal(value as nat));
        }
        text
    }
}

impl Error {
    /// What the error says.
    pub open spec fn says(self) -> Seq<char> {
        match self {
            Error::InvalidFormat => "the bytes do not start an Entroq frame"@,
            Error::UnsupportedVersion { major } => "major version "@ + decimal(major as nat)
                + " is not implemented"@,
            Error::UnsupportedFeature(feature) => "unsupported feature: "@ + feature.says(),
            Error::CorruptData(corruption) => "corrupt data: "@ + corruption.says(),
            Error::TruncatedInput { needed } => "the structure needs "@ + decimal(needed as nat)
                + " bytes"@,
            Error::LimitExceeded { declared, allowed } => "declared "@ + decimal(declared as nat)
                + " bytes, policy allows "@ + decimal(allowed as nat),
            Error::OutputTooSmall { needed } => "the output needs "@ + decimal(needed as nat)
                + " bytes"@,
            Error::InvalidParameter => "the format cannot represent the request"@,
        }
    }

    /// What the error says to a reader.
    #[must_use]
    pub fn message(&self) -> (text: String)
        ensures
            text@ == self.says(),
    {
        match self {
            Error::InvalidFormat => String::from_str("the bytes do not start an Entroq frame"),
            Error::UnsupportedVersion { major } => {
                let mut text = String::from_str("major version ");
                text.append(decimal_text(*major as u64).as_str());
                text.append(" is not implemented");
                text
            },
            Error::UnsupportedFeature(feature) => {
                let mut text = String::from_str("unsupported feature: ");
                text.append(feature.message().as_str());
                text
            },
            Error::CorruptData(corruption) => {
                let mut text = String::from_str("corrupt data: ");
                text.append(corruption.message());
                text
            },
            Error::TruncatedInput { needed } => {
                let mut text = String::from_str("the structure needs ");
                text.append(decimal_text(*needed as u64).as_str());
                text.append(" bytes");
                text
            },
            Error::LimitExceeded { declared, allowed } => {
                let mut text = String::from_str("declared ");
                text.append(decimal_text(*declared).as_str());
                text.append(" bytes, policy allows ");
                text.append(decimal_text(*allowed).as_str());
                text
            },
            Error::OutputTooSmall { needed } => {
                let mut text = String::from_str("the output needs ");
                text.append(decimal_text(*needed as u64).as_str());
                text.append(" bytes");
                text
            },
            Error::InvalidParameter => String::from_str("the format cannot represent the request"),
        }
    }
}

impl Feature {
    /// What the feature is.
    pub open spec fn says(self) -> Seq<char> {
        match self {
            Feature::ReservedFrameFlag => "a frame flag this version does not define"@,
            Feature::CompressedBlock => "a compressed block"@,
            Feature::BlockModel { model } => "symbol model "@ + decimal(model as nat),
        }
    }

    /// What the feature is, to a reader.
    #[must_use]
    pub fn message(&self) -> (text: String)
        ensures
            text@ == self.says(),
    {
        match self {
            Feature::ReservedFrameFlag => String::from_str(
                "a frame flag this version does not define",
            ),
            Feature::CompressedBlock => String::from_str("a compressed block"),
            Feature::BlockModel { model } => {
                let mut text = String::from_str("symbol model ");
                text.append(decimal_text(*model as u64).as_str());
                text
            },
        }
    }
}

impl Corruption {
    /// What the corruption is.
    pub open spec fn says(self) -> Seq<char> {
        match self {
            Corruption::FrameFlag => "a reserved frame flag is set"@,
            Corruption::FrameReserved => "a reserved frame bit is set"@,
            Corruption::ResourceClass => "the resource class is undefined"@,
            Corruption::IntegrityMode => "the integrity mode is undefined"@,
            Corruption::RecordTag => "the record tag is undefined"@,
            Corruption::BlockType => "the block type is reserved"@,
            Corruption::BlockSize => "the block size is out of range"@,
            Corruption::RegionLogicalSize => "the region logical size is out of range"@,
            Corruption::RegionPhysicalSize => "the region physical size is out of range"@,
            Corruption::RegionMismatch => "the region contents contradict its header"@,
            Corruption::ContentLength => "the frame length contradicts its header"@,
            Corruption::HeaderWidth => "a header is wider than the format defines"@,
            Corruption::CodedStream => "a coded stream overruns its declared bits"@,
            Corruption::SymbolAlphabet => "a description names a symbol outside its alphabet"@,
            Corruption::LengthCount => "a description declares an impossible length count"@,
            Corruption::CodeLength => "a code length is out of range"@,
            Corruption::KraftSum => "the code lengths are not a complete code"@,
            Corruption::DescriptionToken => "a description token is undefined"@,
            Corruption::TableLog => "the table log is out of range"@,
            Corruption::FrequencySum => "the frequencies do not fill their table"@,
            Corruption::SequenceSymbol => "a sequence symbol is outside its alphabet"@,
            Corruption::TerminalSymbol => "a terminal symbol is not the last"@,
            Corruption::SequenceSuffix => "a sequence value is outside its domain"@,
            Corruption::SequenceCount => "the sequence counts contradict each other"@,
            Corruption::SequenceExtent => "a suffix stream is longer than its symbols declare"@,
            Corruption::RepeatUnset => "a repeat code names an unset slot"@,
            Corruption::RepeatDistance => "a repeat code names no distance"@,
            Corruption::BlockExtent => "the block extents contradict its bytes"@,
            Corruption::BlockPayload => "a payload extent contradicts its symbols"@,
            Corruption::BlockCount => "a symbol count is above the block size"@,
            Corruption::TableUnset => "a stream names a table nothing built"@,
            Corruption::BlockDescription => "a description extent contradicts its stream"@,
            Corruption::TableMemory => "the table memory contradicts the descriptions"@,
            Corruption::BlockExpansion => "a compressed block does not compress"@,
            Corruption::BlockContent => "the block content contradicts its size"@,
            Corruption::MatchReach => "a match reaches past the history"@,
            Corruption::BlockSection => "a stream declares a section it does not carry"@,
            Corruption::ModeReserved => "a reserved mode bit is set"@,
            Corruption::ModeStream => "the mode names a stream without symbols"@,
            Corruption::Varint => "a quantity is wider than 64 bits"@,
        }
    }

    /// What the corruption is, to a reader.
    #[must_use]
    pub fn message(&self) -> (text: &'static str)
        ensures
            text@ == self.says(),
    {
        match self {
            Corruption::FrameFlag => "a reserved frame flag is set",
            Corruption::FrameReserved => "a reserved frame bit is set",
            Corruption::ResourceClass => "the resource class is undefined",
            Corruption::IntegrityMode => "the integrity mode is undefined",
            Corruption::RecordTag => "the record tag is undefined",
            Corruption::BlockType => "the block type is reserved",
            Corruption::BlockSize => "the block size is out of range",
            Corruption::RegionLogicalSize => "the region logical size is out of range",
            Corruption::RegionPhysicalSize => "the region physical size is out of range",
            Corruption::RegionMismatch => "the region contents contradict its header",
            Corruption::ContentLength => "the frame length contradicts its header",
            Corruption::HeaderWidth => "a header is wider than the format defines",
            Corruption::CodedStream => "a coded stream overruns its declared bits",
            Corruption::SymbolAlphabet => "a description names a symbol outside its alphabet",
            Corruption::LengthCount => "a description declares an impossible length count",
            Corruption::CodeLength => "a code length is out of range",
            Corruption::KraftSum => "the code lengths are not a complete code",
            Corruption::DescriptionToken => "a description token is undefined",
            Corruption::TableLog => "the table log is out of range",
            Corruption::FrequencySum => "the frequencies do not fill their table",
            Corruption::SequenceSymbol => "a sequence symbol is outside its alphabet",
            Corruption::TerminalSymbol => "a terminal symbol is not the last",
            Corruption::SequenceSuffix => "a sequence value is outside its domain",
            Corruption::SequenceCount => "the sequence counts contradict each other",
            Corruption::SequenceExtent => "a suffix stream is longer than its symbols declare",
            Corruption::RepeatUnset => "a repeat code names an unset slot",
            Corruption::RepeatDistance => "a repeat code names no distance",
            Corruption::BlockExtent => "the block extents contradict its bytes",
            Corruption::BlockPayload => "a payload extent contradicts its symbols",
            Corruption::BlockCount => "a symbol count is above the block size",
            Corruption::TableUnset => "a stream names a table nothing built",
            Corruption::BlockDescription => "a description extent contradicts its stream",
            Corruption::TableMemory => "the table memory contradicts the descriptions",
            Corruption::BlockExpansion => "a compressed block does not compress",
            Corruption::BlockContent => "the block content contradicts its size",
            Corruption::MatchReach => "a match reaches past the history",
            Corruption::BlockSection => "a stream declares a section it does not carry",
            Corruption::ModeReserved => "a reserved mode bit is set",
            Corruption::ModeStream => "the mode names a stream without symbols",
            Corruption::Varint => "a quantity is wider than 64 bits",
        }
    }
}

} // verus!
