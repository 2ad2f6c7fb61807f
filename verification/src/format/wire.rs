//! Owns how a field reaches the stream and how it is read back: little-endian fields by byte
//! position, and variable-width quantities by seven-bit groups.
//!
//! No native integer reaches the stream through its in-memory representation, so the same bytes
//! decode identically on every architecture.

use vstd::prelude::*;
use vstd::arithmetic::power2::{
    lemma2_to64, lemma_pow2_adds, lemma_pow2_pos, lemma_pow2_strictly_increases,
    lemma_pow2_unfold, pow2,
};
use crate::entropy::{low_byte, shift_left, shift_right};
use super::{Corruption, Error};

verus! {

/// The bytes the widest variable-width quantity occupies.
pub const VARINT_MAX_BYTES: usize = 10;

/// A value as `width` bytes, least significant first.
pub open spec fn le(value: nat, width: nat) -> Seq<u8>
    decreases width,
{
    if width == 0 {
        Seq::empty()
    } else {
        seq![(value % 256) as u8] + le(value / 256, (width - 1) as nat)
    }
}

/// The value bytes hold, least significant first.
pub open spec fn le_value(bytes: Seq<u8>) -> nat
    decreases bytes.len(),
{
    if bytes.len() == 0 {
        0
    } else {
        bytes[0] as nat + 256 * le_value(bytes.skip(1))
    }
}

/// The value of the `width` bytes at a position.
pub open spec fn field(input: Seq<u8>, at: nat, width: nat) -> nat {
    le_value(input.subrange(at as int, (at + width) as int))
}

pub proof fn lemma_le_len(value: nat, width: nat)
    ensures
        le(value, width).len() == width,
    decreases width,
{
    if width > 0 {
        lemma_le_len(value / 256, (width - 1) as nat);
    }
}

/// A value that fits its width is what its bytes hold.
pub proof fn lemma_le_reads_back(value: nat, width: nat)
    requires
        value < pow2(8 * width),
    ensures
        le_value(le(value, width)) == value,
        le(value, width).len() == width,
    decreases width,
{
    lemma2_to64();
    lemma_le_len(value, width);
    if width > 0 {
        let rest = (width - 1) as nat;
        lemma_pow2_adds(8, 8 * rest);
        assert(value / 256 < pow2(8 * rest)) by (nonlinear_arith)
            requires
                value < 256 * pow2(8 * rest),
        ;
        lemma_le_reads_back(value / 256, rest);
        assert(le(value, width).skip(1) =~= le(value / 256, rest));
    }
}

/// Bytes are the bytes of the value they hold.
pub proof fn lemma_le_of_value(bytes: Seq<u8>)
    ensures
        le(le_value(bytes), bytes.len()) == bytes,
        le_value(bytes) < pow2(8 * bytes.len()),
    decreases bytes.len(),
{
    lemma2_to64();
    if bytes.len() > 0 {
        let tail = bytes.skip(1);
        lemma_le_of_value(tail);
        lemma_pow2_adds(8, 8 * tail.len());
        assert(8 + 8 * tail.len() == 8 * bytes.len());
        let value = le_value(bytes);
        assert(value % 256 == bytes[0] as nat);
        assert(value / 256 == le_value(tail));
        assert(le(value, bytes.len()) =~= bytes);
    } else {
        assert(bytes =~= Seq::empty());
    }
}

/// The bytes written at a position read back as the value they were written from.
pub proof fn lemma_field_reads_back(before: Seq<u8>, value: nat, width: nat, after: Seq<u8>)
    requires
        value < pow2(8 * width),
    ensures
        field(before + le(value, width) + after, before.len(), width) == value,
        (before + le(value, width) + after).len() == before.len() + width + after.len(),
{
    lemma_le_reads_back(value, width);
    let all = before + le(value, width) + after;
    assert(all.subrange(before.len() as int, (before.len() + width) as int) =~= le(value, width));
}

/// A quantity in seven-bit groups, least significant first, each but the last marked.
pub open spec fn varint(value: nat) -> Seq<u8>
    decreases value,
{
    if value < 128 {
        seq![value as u8]
    } else {
        seq![(128 + value % 128) as u8] + varint(value / 128)
    }
}

/// The quantity at a position and where it ends, or why it has none.
///
/// A quantity wider than 64 bits is refused, and so is input that ends inside one.
pub open spec fn varint_read(input: Seq<u8>, at: nat, lane: nat) -> Result<(nat, nat), Error>
    decreases 10 - lane,
{
    if lane >= VARINT_MAX_BYTES {
        Err(Error::CorruptData(Corruption::Varint))
    } else if at >= input.len() {
        Err(
            Error::TruncatedInput {
                needed: crate::entropy::least(at + 1, usize::MAX as nat) as usize,
            },
        )
    } else if lane == 9 && input[at as int] > 1 {
        Err(Error::CorruptData(Corruption::Varint))
    } else if input[at as int] < 128 {
        Ok((input[at as int] as nat, at + 1))
    } else {
        match varint_read(input, at + 1, lane + 1) {
            Err(error) => Err(error),
            Ok((high, next)) => Ok(((input[at as int] - 128) as nat + 128 * high, next)),
        }
    }
}

/// A quantity read from lane `lane` on fits the bits the lanes leave it.
pub proof fn lemma_varint_bound(input: Seq<u8>, at: nat, lane: nat)
    ensures
        varint_read(input, at, lane) matches Ok((value, next)) ==> {
            &&& value < pow2((64 - 7 * lane) as nat)
            &&& at < next <= input.len()
            &&& next - at <= 10 - lane
            &&& lane <= 9
        },
    decreases 10 - lane,
{
    lemma2_to64();
    if lane < 10 && at < input.len() {
        if lane == 9 {
            lemma_pow2_unfold(1);
        } else {
            let bits = (64 - 7 * lane) as nat;
            lemma_pow2_adds(7, (bits - 7) as nat);
            lemma_pow2_pos((bits - 7) as nat);
            assert(bits - 7 == 64 - 7 * (lane + 1));
            if input[at as int] >= 128 {
                lemma_varint_bound(input, at + 1, lane + 1);
            }
        }
    }
}

/// A quantity of 64 bits written at a position reads back from it.
pub proof fn lemma_varint_reads_back(
    input: Seq<u8>,
    at: nat,
    lane: nat,
    value: nat,
)
    requires
        lane <= 9,
        value < pow2((64 - 7 * lane) as nat),
        at + varint(value).len() <= input.len(),
        input.subrange(at as int, (at + varint(value).len()) as int) == varint(value),
    ensures
        varint_read(input, at, lane) == Ok::<(nat, nat), Error>((value, at + varint(value).len())),
    decreases value,
{
    lemma2_to64();
    let written = varint(value);
    lemma_varint_len(value);
    assert(input[at as int] == input.subrange(at as int, (at + written.len()) as int)[0]);
    if value >= 128 {
        let bits = (64 - 7 * lane) as nat;
        if lane == 9 {
            lemma_pow2_unfold(1);
            assert(false);
        }
        lemma_pow2_adds(7, (bits - 7) as nat);
        assert(bits - 7 == 64 - 7 * (lane + 1));
        assert(value / 128 < pow2((bits - 7) as nat)) by (nonlinear_arith)
            requires
                value < 128 * pow2((bits - 7) as nat),
        ;
        let rest = varint(value / 128);
        let tail = input.subrange((at + 1) as int, (at + 1 + rest.len()) as int);
        assert(tail =~= written.skip(1));
        assert(written.skip(1) =~= rest);
        lemma_varint_reads_back(input, at + 1, lane + 1, value / 128);
    }
}

/// A quantity occupies at least one byte, and at most ten where it fits 64 bits.
pub proof fn lemma_varint_len(value: nat)
    ensures
        varint(value).len() >= 1,
    decreases value,
{
    if value >= 128 {
        lemma_varint_len(value / 128);
    }
}

pub proof fn lemma_varint_width(value: nat, lanes: nat)
    requires
        lanes >= 1,
        value < pow2(7 * lanes),
    ensures
        varint(value).len() <= lanes,
    decreases lanes,
{
    lemma2_to64();
    if value >= 128 {
        if lanes == 1 {
            assert(false);
        }
        let rest = (lanes - 1) as nat;
        lemma_pow2_adds(7, 7 * rest);
        assert(value / 128 < pow2(7 * rest)) by (nonlinear_arith)
            requires
                value < 128 * pow2(7 * rest),
        ;
        lemma_varint_width(value / 128, rest);
    }
}

/// The byte of `value` at one byte position, least significant first.
#[must_use]
pub fn byte_of(value: u64, lane: u32) -> (byte: u8)
    requires
        lane < 8,
    ensures
        byte as nat == (value as nat / pow2(8 * lane as nat)) % 256,
{
    low_byte(shift_right(value, lane * 8))
}

/// The wire bytes of one header, and how many of them the header uses.
///
/// The buffer is sized for the widest form of its header, so serializing allocates nothing
/// and cannot fail.
#[derive(Clone, Copy, Debug, PartialEq, Eq)]
pub struct Encoded<const N: usize> {
    bytes: [u8; N],
    len: usize,
}

impl<const N: usize> View for Encoded<N> {
    type V = Seq<u8>;

    closed spec fn view(&self) -> Seq<u8> {
        self.bytes@.subrange(0, self.len as int)
    }
}

impl<const N: usize> Encoded<N> {
    #[verifier::type_invariant]
    spec fn fits(self) -> bool {
        self.len <= N
    }

    /// The bytes this header occupies.
    #[must_use]
    pub fn as_bytes(&self) -> (bytes: &[u8])
        ensures
            bytes@ == self@,
    {
        proof {
            use_type_invariant(&*self);
        }
        vstd::slice::slice_subrange(self.bytes.as_slice(), 0, self.len)
    }

    /// How many bytes this header occupies.
    #[must_use]
    pub fn len(&self) -> (len: usize)
        ensures
            len == self@.len(),
    {
        proof {
            use_type_invariant(&*self);
        }
        self.len
    }

    /// Whether this header occupies no bytes.
    #[must_use]
    pub fn is_empty(&self) -> (empty: bool)
        ensures
            empty == (self@.len() == 0),
    {
        proof {
            use_type_invariant(&*self);
        }
        self.len == 0
    }
}

/// A header under construction.
pub struct Writer<const N: usize> {
    bytes: [u8; N],
    len: usize,
}

impl<const N: usize> View for Writer<N> {
    type V = Seq<u8>;

    closed spec fn view(&self) -> Seq<u8> {
        self.bytes@.subrange(0, self.len as int)
    }
}

impl<const N: usize> Writer<N> {
    #[verifier::type_invariant]
    spec fn fits(self) -> bool {
        self.len <= N
    }

    /// An empty header.
    #[must_use]
    pub fn new() -> (writer: Self)
        ensures
            writer@ == Seq::<u8>::empty(),
    {
        let writer = Writer { bytes: [0u8; N], len: 0 };
        proof {
            assert(writer@ =~= Seq::empty());
        }
        writer
    }

    /// Appends one byte.
    pub fn push(&mut self, byte: u8)
        requires
            old(self)@.len() < N,
        ensures
            final(self)@ == old(self)@.push(byte),
    {
        proof {
            use_type_invariant(&*self);
        }
        let at: usize = self.len;
        let mut bytes = self.bytes;
        bytes[at] = byte;
        let ghost before = self@;
        *self = Writer { bytes, len: at + 1 };
        proof {
            assert(self@ =~= before.push(byte));
        }
    }

    /// Appends the low `width` bytes of a value, least significant first.
    pub fn put(&mut self, value: u64, width: u32)
        requires
            width <= 8,
            old(self)@.len() + width <= N,
        ensures
            final(self)@ == old(self)@ + le(value as nat, width as nat),
    {
        let ghost before = self@;
        let mut rest: u64 = value;
        let mut lane: u32 = 0;
        proof {
            assert(before + le(value as nat, width as nat) =~= self@ + le(
                rest as nat,
                (width - lane) as nat,
            ));
        }
        while lane < width
            invariant
                lane <= width,
                self@.len() + (width - lane) <= N,
                before + le(value as nat, width as nat) == self@ + le(
                    rest as nat,
                    (width - lane) as nat,
                ),
            decreases width - lane,
        {
            let byte: u8 = (rest % 256) as u8;
            let ghost here = self@;
            let ghost left = le(rest as nat, (width - lane) as nat);
            self.push(byte);
            rest = rest / 256;
            lane = lane + 1;
            proof {
                assert(here + left =~= self@ + le(rest as nat, (width - lane) as nat));
            }
        }
        proof {
            assert(self@ + le(rest as nat, 0) =~= self@);
        }
    }

    /// Appends a quantity in seven-bit groups.
    pub fn put_varint(&mut self, value: u64)
        requires
            old(self)@.len() + varint(value as nat).len() <= N,
        ensures
            final(self)@ == old(self)@ + varint(value as nat),
    {
        let ghost before = self@;
        let mut rest: u64 = value;
        while rest >= 128
            invariant
                self@.len() + varint(rest as nat).len() <= N,
                before + varint(value as nat) == self@ + varint(rest as nat),
            decreases rest,
        {
            let ghost here = self@;
            let ghost left = varint(rest as nat);
            self.push((128 + rest % 128) as u8);
            rest = rest / 128;
            proof {
                assert(here + left =~= self@ + varint(rest as nat));
            }
        }
        let ghost here = self@;
        self.push(rest as u8);
        proof {
            assert(here + varint(rest as nat) =~= self@);
        }
    }

    /// The header the bytes make.
    #[must_use]
    pub fn finish(self) -> (encoded: Encoded<N>)
        ensures
            encoded@ == self@,
    {
        proof {
            use_type_invariant(&self);
        }
        Encoded { bytes: self.bytes, len: self.len }
    }
}

/// Reads fields in order, refusing to pass the end of its input.
pub struct Reader<'a> {
    input: &'a [u8],
    at: usize,
}

impl<'a> Reader<'a> {
    /// The bytes the reader reads.
    pub closed spec fn input(&self) -> Seq<u8> {
        self.input@
    }

    /// The bytes read so far.
    pub closed spec fn at(&self) -> nat {
        self.at as nat
    }

    #[verifier::type_invariant]
    spec fn inside(self) -> bool {
        self.at <= self.input@.len()
    }

    /// A reader at the start of its input.
    #[must_use]
    pub fn new(input: &'a [u8]) -> (reader: Self)
        ensures
            reader.input() == input@,
            reader.at() == 0,
    {
        Reader { input, at: 0 }
    }

    /// The bytes read so far.
    #[must_use]
    pub fn position(&self) -> (at: usize)
        ensures
            at == self.at(),
            at <= self.input().len(),
    {
        proof {
            use_type_invariant(&*self);
        }
        self.at
    }

    /// The next `width` bytes as one little-endian value.
    pub fn take(&mut self, width: usize) -> (taken: Result<u64, Error>)
        requires
            width <= 8,
        ensures
            final(self).input() == old(self).input(),
            old(self).at() + width <= old(self).input().len() ==> {
                &&& taken matches Ok(value) && value as nat == field(
                    old(self).input(),
                    old(self).at(),
                    width as nat,
                )
                &&& final(self).at() == old(self).at() + width
            },
            old(self).at() + width > old(self).input().len() ==> {
                &&& taken == Err::<u64, Error>(
                    Error::TruncatedInput {
                        needed: crate::entropy::least(
                            old(self).at() + width as nat,
                            usize::MAX as nat,
                        ) as usize,
                    },
                )
                &&& final(self).at() == old(self).at()
            },
    {
        proof {
            use_type_invariant(&*self);
        }
        if width > self.input.len() - self.at {
            return Err(Error::TruncatedInput { needed: self.at.saturating_add(width) });
        }
        let total: usize = self.input.len();
        let ghost bytes = self.input@.subrange(self.at as int, self.at + width);
        let mut value: u64 = 0;
        let mut lane: usize = width;
        proof {
            assert(bytes.skip(width as int) =~= Seq::empty());
        }
        while lane > 0
            invariant
                lane <= width <= 8,
                bytes.len() == width,
                self.at + width <= self.input@.len(),
                total == self.input@.len(),
                bytes == self.input@.subrange(self.at as int, self.at + width),
                value as nat == le_value(bytes.skip(lane as int)),
            decreases lane,
        {
            lane = lane - 1;
            let byte: u8 = self.input[self.at + lane];
            proof {
                let here = bytes.skip(lane as int);
                assert(here.skip(1) =~= bytes.skip(lane + 1));
                assert(here[0] == byte);
                lemma_le_of_value(here);
                lemma2_to64();
                if 8 * here.len() < 64 {
                    lemma_pow2_strictly_increases(8 * here.len(), 64);
                }
            }
            value = value * 256 + byte as u64;
        }
        proof {
            assert(bytes.skip(0) =~= bytes);
        }
        *self = Reader { input: self.input, at: self.at + width };
        Ok(value)
    }

    /// The next quantity in seven-bit groups.
    pub fn varint(&mut self) -> (taken: Result<u64, Error>)
        ensures
            final(self).input() == old(self).input(),
            match varint_read(old(self).input(), old(self).at(), 0) {
                Ok((value, next)) => value <= u64::MAX && taken == Ok::<u64, Error>(value as u64)
                    && final(self).at() == next,
                Err(error) => taken == Err::<u64, Error>(error) && final(self).at() == old(
                    self).at(),
            },
    {
        proof {
            use_type_invariant(&*self);
            lemma2_to64();
            lemma_varint_bound(self.input@, self.at as nat, 0);
        }
        let ghost whole = varint_read(self.input@, self.at as nat, 0);
        let start: usize = self.at;
        let total: usize = self.input.len();
        let mut value: u64 = 0;
        let mut lane: u32 = 0;
        while lane < 10
            invariant
                lane <= 10,
                start + lane <= self.input@.len(),
                total == self.input@.len(),
                start == self.at,
                self.input() == old(self).input(),
                self.at() == old(self).at(),
                whole == varint_read(self.input@, start as nat, 0),
                (value as nat) < pow2(7 * lane as nat),
                lane <= 9 ==> whole == (match varint_read(
                    self.input@,
                    (start + lane) as nat,
                    lane as nat,
                ) {
                    Err(error) => Err::<(nat, nat), Error>(error),
                    Ok((high, next)) => Ok::<(nat, nat), Error>(
                        (value as nat + pow2(7 * lane as nat) * high, next),
                    ),
                }),
                lane == 10 ==> whole == Err::<(nat, nat), Error>(
                    Error::CorruptData(Corruption::Varint),
                ),
            decreases 10 - lane,
        {
            if start + lane as usize >= total {
                return Err(
                    Error::TruncatedInput { needed: (start + lane as usize).saturating_add(1) },
                );
            }
            let byte: u8 = self.input[start + lane as usize];
            if lane == 9 && byte > 1 {
                return Err(Error::CorruptData(Corruption::Varint));
            }
            let low: u64 = (byte % 128) as u64;
            proof {
                lemma2_to64();
                lemma_lane(value as nat, lane as nat, low as nat);
                lemma_varint_bound(self.input@, (start + lane) as nat, lane as nat);
                if lane < 9 {
                    lemma_varint_bound(self.input@, (start + lane + 1) as nat, lane as nat + 1);
                }
            }
            let ghost before = value as nat;
            value = value + shift_left(low, 7 * lane);
            if byte < 128 {
                *self = Reader { input: self.input, at: start + lane as usize + 1 };
                return Ok(value);
            }
            lane = lane + 1;
            proof {
                let unit = pow2(7 * (lane - 1) as nat);
                if let Ok((high, next)) = varint_read(
                    self.input@,
                    (start + lane) as nat,
                    lane as nat,
                ) {
                    assert(before + unit * (low as nat + 128 * high) == value as nat + (unit * 128)
                        * high) by (nonlinear_arith)
                        requires
                            value as nat == before + unit * low as nat,
                    ;
                }
            }
        }
        Err(Error::CorruptData(Corruption::Varint))
    }
}

/// A seven-bit group placed above the groups before it fits 64 bits.
proof fn lemma_lane(value: nat, lane: nat, low: nat)
    requires
        lane <= 9,
        value < pow2(7 * lane),
        low < 128,
        lane == 9 ==> low <= 1,
    ensures
        value + pow2(7 * lane) * low < pow2(7 * (lane + 1)),
        value + pow2(7 * lane) * low < pow2(64),
        pow2(7 * lane) * low < pow2(64),
        pow2(7 * lane) * 128 == pow2(7 * (lane + 1)),
        pow2(7 * lane) * low == low * pow2(7 * lane),
        (low * pow2(7 * lane)) % pow2(64) == low * pow2(7 * lane),
{
    lemma2_to64();
    let unit = pow2(7 * lane);
    lemma_pow2_pos(7 * lane);
    lemma_pow2_pos(64);
    lemma_pow2_adds(7 * lane, 7);
    assert(7 * lane + 7 == 7 * (lane + 1));
    assert(value + unit * low < unit * 128) by (nonlinear_arith)
        requires
            value < unit,
            low < 128,
    ;
    assert(unit * low == low * unit) by (nonlinear_arith);
    assert(unit * low >= 0) by (nonlinear_arith)
        requires
            unit > 0,
            low >= 0,
    ;
    if lane < 9 {
        lemma_pow2_strictly_increases(7 * (lane + 1), 64);
    } else {
        lemma_pow2_unfold(64);
        assert(value + unit * low < 2 * unit) by (nonlinear_arith)
            requires
                value < unit,
                low <= 1,
        ;
    }
    vstd::arithmetic::div_mod::lemma_small_mod((low * unit) as nat, pow2(64));
}

} // verus!
