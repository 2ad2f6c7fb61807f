//! Owns the bit stream the entropy coders read and write: the writer, the reader, and the
//! bit order both work in.
//!
//! This module does not own what a bit means. A coder owns its own symbols and its own
//! description.
//!
//! Bit order is most significant first, inside a value and inside the stream. The model of a
//! stream is a sequence of booleans: `bits_of` is the bits of a value, `value_of` is the value
//! of bits, and `window` is the bits a run of bytes carries from one position on.
//!
//! ```text
//! peek   reads zeros past the end, because a table-driven decoder peeks the widest code
//!        before it knows how wide the code is
//! take   refuses past the end, because a parse that read zeros would rebuild a plausible
//!        table out of the padding
//! ```
//!
//! The two are separate calls rather than one call with a flag, so a parse cannot reach the
//! padding by accident. A payload decode uses `peek` and is checked against `overrun` when it
//! ends, which is exact: the stream carries its bit count and the decoder carries its
//! position.

use vstd::prelude::*;
use vstd::arithmetic::div_mod::{
    lemma_div_denominator, lemma_fundamental_div_mod, lemma_fundamental_div_mod_converse,
    lemma_mod_bound, lemma_mod_mod, lemma_small_mod,
};
use vstd::arithmetic::power2::{
    lemma2_to64, lemma_pow2_adds, lemma_pow2_pos, lemma_pow2_strictly_increases,
    lemma_pow2_unfold, pow2,
};
use vstd::bits::{lemma_u128_shr_is_div, lemma_u64_low_bits_mask_is_mod};
use super::{least, low_byte, shift_left, shift_right};
use crate::format::{Corruption, Error};

verus! {

/// The widest value one push may carry without splitting it.
///
/// The accumulator holds fewer than eight bits between calls, so 57 is what fits without a
/// second flush inside the push.
pub const MAX_WIDTH: u32 = 57;

/// The low `width` bits of `value`, most significant first.
pub open spec fn bits_of(value: nat, width: nat) -> Seq<bool>
    decreases width,
{
    if width == 0 {
        Seq::empty()
    } else {
        bits_of(value / 2, (width - 1) as nat).push(value % 2 == 1)
    }
}

/// The value a run of bits spells, most significant first.
pub open spec fn value_of(bits: Seq<bool>) -> nat
    decreases bits.len(),
{
    if bits.len() == 0 {
        0
    } else {
        2 * value_of(bits.drop_last()) + if bits.last() { 1nat } else { 0nat }
    }
}

/// One bit of a packing, most significant bit of the first byte first, and zero past the end.
pub open spec fn bit_at(bytes: Seq<u8>, at: int) -> bool {
    0 <= at < 8 * bytes.len() && bits_of(bytes[at / 8] as nat, 8)[at % 8]
}

/// The bits at `[start, start + width)` of a packing, zeros past the end.
pub open spec fn window(bytes: Seq<u8>, start: nat, width: nat) -> Seq<bool> {
    Seq::new(width, |i: int| bit_at(bytes, start + i))
}

/// A run of zero bits.
pub open spec fn zeros(width: nat) -> Seq<bool> {
    Seq::new(width, |i: int| false)
}

/// The bytes a run of bits occupies when the last byte is padded.
pub open spec fn bytes_for(bits: nat) -> nat {
    (bits + 7) / 8
}

/// Whether `bytes` is the packing of `bits`, with the final byte padded with zeros.
pub open spec fn packs(bytes: Seq<u8>, bits: Seq<bool>) -> bool {
    &&& bytes.len() == bytes_for(bits.len())
    &&& window(bytes, 0, 8 * bytes.len()) == bits + zeros((8 * bytes.len() - bits.len()) as nat)
}

/// The bytes that pack `bits`, most significant bit first, the final byte padded with zeros.
pub open spec fn pack(bits: Seq<bool>) -> Seq<u8> {
    let padded = bits + zeros((8 * bytes_for(bits.len()) - bits.len()) as nat);
    Seq::new(bytes_for(bits.len()), |k: int| value_of(padded.subrange(8 * k, 8 * k + 8)) as u8)
}

/// One packing is the packing.
pub proof fn lemma_pack_unique(bytes: Seq<u8>, bits: Seq<bool>)
    requires
        packs(bytes, bits),
    ensures
        bytes == pack(bits),
{
    let padded = bits + zeros((8 * bytes.len() - bits.len()) as nat);
    lemma2_to64();
    assert forall|k: int| 0 <= k < bytes.len() implies #[trigger] bytes[k] == pack(bits)[k] by {
        lemma_window_byte(bytes, k as nat);
        assert(window(bytes, 8 * k as nat, 8) =~= padded.subrange(8 * k, 8 * k + 8)) by {
            assert(window(bytes, 0, 8 * bytes.len()) == padded);
        }
        lemma_value_of_bits(bytes[k] as nat, 8);
    }
    assert(bytes =~= pack(bits));
}

/// A packing reads back as what it packs.
pub proof fn lemma_pack(bits: Seq<bool>)
    ensures
        packs(pack(bits), bits),
        window(pack(bits), 0, bits.len()) == bits,
        pack(bits).len() == bytes_for(bits.len()),
{
    let bytes = pack(bits);
    let padded = bits + zeros((8 * bytes.len() - bits.len()) as nat);
    lemma2_to64();
    assert forall|i: int| 0 <= i < 8 * bytes.len() implies #[trigger] window(
        bytes,
        0,
        8 * bytes.len(),
    )[i] == padded[i] by {
        let k = i / 8;
        let field = padded.subrange(8 * k, 8 * k + 8);
        lemma_bits_of_value(field);
        lemma_window_byte(bytes, k as nat);
        assert(bytes[k] as nat == value_of(field));
        assert(window(bytes, 8 * k as nat, 8) == field);
        assert(window(bytes, 8 * k as nat, 8)[i % 8] == field[i % 8]);
    }
    assert(window(bytes, 0, 8 * bytes.len()) =~= padded);
    assert forall|i: int| 0 <= i < bits.len() implies #[trigger] window(bytes, 0, bits.len())[i]
        == bits[i] by {
        assert(window(bytes, 0, 8 * bytes.len())[i] == padded[i]);
    }
    assert(window(bytes, 0, bits.len()) =~= bits);
}

/// The bits of whole bytes pack to those bytes.
pub proof fn lemma_pack_bytes(bytes: Seq<u8>)
    ensures
        pack(window(bytes, 0, 8 * bytes.len())) == bytes,
        window(bytes, 0, 8 * bytes.len()).len() == 8 * bytes.len(),
{
    let bits = window(bytes, 0, 8 * bytes.len());
    assert(bytes_for(bits.len()) == bytes.len());
    assert(bits + zeros(0) =~= bits);
    lemma_pack_unique(bytes, bits);
}

pub proof fn lemma_bits_of_len(value: nat, width: nat)
    ensures
        bits_of(value, width).len() == width,
    decreases width,
{
    if width > 0 {
        lemma_bits_of_len(value / 2, (width - 1) as nat);
    }
}

/// The bits of a value at a width above another are the bits of its high part, then of its low.
pub proof fn lemma_bits_of_split(value: nat, high: nat, low: nat)
    ensures
        bits_of(value, high + low) == bits_of(value / pow2(low), high) + bits_of(value, low),
    decreases low,
{
    lemma_bits_of_len(value, low);
    lemma2_to64();
    if low == 0 {
        assert(value / pow2(0) == value) by {
            lemma2_to64();
            assert(value / 1 == value);
        }
        assert(bits_of(value, high) + bits_of(value, 0) =~= bits_of(value, high));
    } else {
        let less = (low - 1) as nat;
        lemma_bits_of_split(value / 2, high, less);
        lemma_pow2_unfold(low);
        lemma_pow2_pos(less);
        lemma_div_denominator(value as int, 2, pow2(less) as int);
        assert((value / 2) / pow2(less) == value / pow2(low));
        assert(((high + low) - 1) as nat == high + less);
        let head = bits_of(value / pow2(low), high);
        let tail = bits_of(value / 2, less);
        assert((head + tail).push(value % 2 == 1) =~= head + tail.push(value % 2 == 1));
    }
}

/// Only the low `width` bits of a value reach its bits.
pub proof fn lemma_bits_of_mod(value: nat, width: nat, modulus: nat)
    requires
        width <= modulus,
    ensures
        bits_of(value % pow2(modulus), width) == bits_of(value, width),
    decreases width,
{
    lemma_pow2_pos(modulus);
    if width > 0 {
        let less = (modulus - 1) as nat;
        lemma_pow2_unfold(modulus);
        lemma_pow2_pos(less);
        lemma_bits_of_mod(value / 2, (width - 1) as nat, less);
        vstd::arithmetic::div_mod::lemma_mod_breakdown(value as int, 2, pow2(less) as int);
        let r = value % pow2(modulus);
        assert(r == 2 * ((value / 2) % pow2(less)) + value % 2);
        assert(r / 2 == (value / 2) % pow2(less));
        assert(r % 2 == value % 2);
        assert(r / 2 == (value / 2) % pow2(less));
        assert(bits_of(r / 2, (width - 1) as nat) == bits_of(value / 2, (width - 1) as nat));
    }
}

/// The value of the bits of a value is its low bits.
pub proof fn lemma_value_of_bits(value: nat, width: nat)
    ensures
        value_of(bits_of(value, width)) == value % pow2(width),
        value < pow2(width) ==> value_of(bits_of(value, width)) == value,
    decreases width,
{
    lemma_bits_of_len(value, width);
    lemma_pow2_pos(width);
    if width == 0 {
        lemma2_to64();
        assert(value % 1 == 0);
    } else {
        let less = (width - 1) as nat;
        lemma_value_of_bits(value / 2, less);
        lemma_pow2_unfold(width);
        lemma_pow2_pos(less);
        vstd::arithmetic::div_mod::lemma_mod_breakdown(value as int, 2, pow2(less) as int);
        assert(bits_of(value, width).drop_last() =~= bits_of(value / 2, less));
    }
    if value < pow2(width) {
        lemma_small_mod(value, pow2(width));
    }
}

/// A value fits the bits that spell it, and those bits are its bits.
pub proof fn lemma_bits_of_value(bits: Seq<bool>)
    ensures
        value_of(bits) < pow2(bits.len()),
        bits_of(value_of(bits), bits.len()) == bits,
    decreases bits.len(),
{
    if bits.len() == 0 {
        lemma2_to64();
        assert(bits =~= Seq::empty());
    } else {
        lemma_bits_of_value(bits.drop_last());
        lemma_pow2_unfold(bits.len());
        let v = value_of(bits);
        assert(v / 2 == value_of(bits.drop_last()));
        assert(bits.drop_last().push(bits.last()) =~= bits);
    }
}

/// The value of two runs of bits, one after the other.
pub proof fn lemma_value_of_concat(high: Seq<bool>, low: Seq<bool>)
    ensures
        value_of(high + low) == value_of(high) * pow2(low.len()) + value_of(low),
    decreases low.len(),
{
    if low.len() == 0 {
        lemma2_to64();
        assert(high + low =~= high);
        assert(value_of(high) * 1 == value_of(high));
    } else {
        assert((high + low).drop_last() =~= high + low.drop_last());
        lemma_value_of_concat(high, low.drop_last());
        lemma_pow2_unfold(low.len());
        let h = value_of(high);
        let p = pow2((low.len() - 1) as nat);
        assert(h * (2 * p) == 2 * (h * p)) by (nonlinear_arith);
    }
}

/// Two runs of bits of one length that spell one value are the same run.
pub proof fn lemma_value_of_injective(a: Seq<bool>, b: Seq<bool>)
    requires
        a.len() == b.len(),
        value_of(a) == value_of(b),
    ensures
        a == b,
{
    lemma_bits_of_value(a);
    lemma_bits_of_value(b);
}

/// A field reads back at every bit offset: where a value was written at a width, whatever stands
/// before and after it, the bytes that pack the stream give back the low bits of the value.
pub proof fn law_field_reads_back(
    before: Seq<bool>,
    value: nat,
    width: nat,
    after: Seq<bool>,
)
    ensures
        value_of(
            window(pack(before + bits_of(value, width) + after), before.len(), width),
        ) == value % pow2(width),
        value < pow2(width) ==> value_of(
            window(pack(before + bits_of(value, width) + after), before.len(), width),
        ) == value,
{
    let whole = before + bits_of(value, width) + after;
    lemma_bits_of_len(value, width);
    lemma_pack(whole);
    lemma_window_reads_back(pack(whole), whole, before.len(), width);
    assert(whole.subrange(before.len() as int, (before.len() + width) as int) =~= bits_of(
        value,
        width,
    ));
    lemma_value_of_bits(value, width);
}

/// Reading back what was written: the window over a written value is that value's bits.
pub proof fn lemma_window_reads_back(bytes: Seq<u8>, bits: Seq<bool>, start: nat, width: nat)
    requires
        packs(bytes, bits),
        start + width <= bits.len(),
    ensures
        window(bytes, start, width) == bits.subrange(start as int, (start + width) as int),
{
    let whole = window(bytes, 0, 8 * bytes.len());
    assert(bits.len() <= 8 * bytes.len());
    assert forall|i: int| 0 <= i < width implies #[trigger] window(bytes, start, width)[i]
        == bits.subrange(start as int, (start + width) as int)[i] by {
        assert(whole[start + i] == bit_at(bytes, start + i));
    }
    assert(window(bytes, start, width) =~= bits.subrange(start as int, (start + width) as int));
}

/// A window splits where its width does.
pub proof fn lemma_window_split(bytes: Seq<u8>, start: nat, first: nat, second: nat)
    ensures
        window(bytes, start, first + second) == window(bytes, start, first) + window(
            bytes,
            start + first,
            second,
        ),
{
    assert(window(bytes, start, first + second) =~= window(bytes, start, first) + window(
        bytes,
        start + first,
        second,
    ));
}

/// A byte-aligned window of one byte is that byte's bits.
proof fn lemma_window_byte(bytes: Seq<u8>, index: nat)
    ensures
        index < bytes.len() ==> window(bytes, 8 * index, 8) == bits_of(
            bytes[index as int] as nat,
            8,
        ),
        index >= bytes.len() ==> window(bytes, 8 * index, 8) == bits_of(0, 8),
{
    let w = window(bytes, 8 * index, 8);
    if index < bytes.len() {
        lemma_bits_of_len(bytes[index as int] as nat, 8);
        assert forall|i: int| 0 <= i < 8 implies w[i] == bits_of(bytes[index as int] as nat, 8)[i] by {
            assert((8 * index + i) / 8 == index);
            assert((8 * index + i) % 8 == i);
        }
        assert(w =~= bits_of(bytes[index as int] as nat, 8));
    } else {
        lemma_bits_of_zero(8);
        assert(w =~= zeros(8));
    }
}

/// Zero is spelled by zeros.
pub proof fn lemma_bits_of_zero(width: nat)
    ensures
        bits_of(0, width) == zeros(width),
    decreases width,
{
    if width > 0 {
        lemma_bits_of_zero((width - 1) as nat);
        assert(zeros((width - 1) as nat).push(false) =~= zeros(width));
    } else {
        assert(zeros(0) =~= Seq::empty());
    }
}

/// One more byte appends its eight bits to the window over the bytes before it.
proof fn lemma_window_push(bytes: Seq<u8>, byte: u8)
    ensures
        window(bytes.push(byte), 0, 8 * (bytes.len() + 1)) == window(bytes, 0, 8 * bytes.len())
            + bits_of(byte as nat, 8),
{
    lemma_bits_of_len(byte as nat, 8);
    let more = bytes.push(byte);
    let w = window(more, 0, 8 * (bytes.len() + 1));
    let v = window(bytes, 0, 8 * bytes.len()) + bits_of(byte as nat, 8);
    assert forall|i: int| 0 <= i < 8 * (bytes.len() + 1) implies w[i] == v[i] by {
        if i < 8 * bytes.len() {
            assert(i / 8 < bytes.len());
            assert(more[i / 8] == bytes[i / 8]);
        } else {
            assert(i / 8 == bytes.len());
            assert(i % 8 == i - 8 * bytes.len());
        }
    }
    assert(w =~= v);
}

/// The low `width` bits, as a mask.
///
/// A width of zero is a real case: a symbol whose raw suffix is empty writes no bits at all.
pub fn mask(width: u32) -> (low: u64)
    ensures
        low == pow2(least(width as nat, 64)) - 1,
{
    proof {
        lemma2_to64();
        lemma_pow2_pos(least(width as nat, 64));
        if width < 64 {
            lemma_pow2_strictly_increases(width as nat, 64);
        }
    }
    if width == 0 {
        0
    } else if width >= 64 {
        u64::MAX
    } else {
        shift_left(1, width) - 1
    }
}

proof fn lemma_and_mask(value: u64, width: u32, low: u64)
    requires
        width <= 64,
        low == pow2(width as nat) - 1,
    ensures
        (value & low) as nat == value as nat % pow2(width as nat),
{
    lemma2_to64();
    if width == 64 {
        assert(value & 0xFFFF_FFFF_FFFF_FFFF == value) by (bit_vector);
        lemma_small_mod(value as nat, pow2(64));
    } else {
        lemma_u64_low_bits_mask_is_mod(value, width as nat);
        lemma_pow2_pos(width as nat);
        lemma_pow2_strictly_increases(width as nat, 64);
    }
}

/// A stream of bits and the exact count of them.
///
/// The count is carried and not derived from the byte length. The final byte is padded, and a
/// reader that took the byte length for the bit count would read the padding as content.
#[derive(Debug, PartialEq, Eq)]
pub struct BitBuf {
    bytes: Vec<u8>,
    bits: u64,
}

impl View for BitBuf {
    type V = Seq<bool>;

    /// The bits the stream carries, padding excluded.
    closed spec fn view(&self) -> Seq<bool> {
        window(self.bytes@, 0, self.bits as nat)
    }
}

impl Clone for BitBuf {
    fn clone(&self) -> (copy: Self)
        ensures
            copy@ == self@,
            copy.packed() == self.packed(),
            copy.wf() == self.wf(),
    {
        let bytes = self.bytes.clone();
        proof {
            assert(bytes@ =~= self.bytes@);
        }
        BitBuf { bytes, bits: self.bits }
    }
}

impl Default for BitBuf {
    fn default() -> (empty: Self)
        ensures
            empty@ == Seq::<bool>::empty(),
            empty.packed() == Seq::<u8>::empty(),
            empty.wf(),
            empty.tight(),
    {
        let empty = BitBuf { bytes: Vec::new(), bits: 0 };
        proof {
            assert(empty@ =~= Seq::<bool>::empty());
            assert(pack(Seq::empty()) =~= Seq::<u8>::empty());
        }
        empty
    }
}

impl BitBuf {
    /// The bytes hold the bits and nothing beyond the byte the last one falls in.
    pub closed spec fn wf(&self) -> bool {
        self.bytes@.len() == bytes_for(self.bits as nat)
    }

    /// The bytes the stream occupies.
    pub closed spec fn packed(&self) -> Seq<u8> {
        self.bytes@
    }

    /// Whether the bytes are the packing of the bits: nothing stands in the padding.
    pub open spec fn tight(&self) -> bool {
        self.packed() == pack(self@)
    }

    /// What a well-formed stream's bytes and bits say of each other.
    pub proof fn lemma_wf(&self)
        requires
            self.wf(),
        ensures
            self@ == window(self.packed(), 0, self@.len()),
            self.packed().len() == bytes_for(self@.len()),
            self@.len() <= u64::MAX,
    {
    }

    /// A stream's bits are the first bits of its bytes.
    pub proof fn lemma_view(&self)
        ensures
            self@ == window(self.packed(), 0, self@.len()),
            self@.len() <= u64::MAX,
    {
    }

    /// A stream of `bits` bits over the bytes that hold them.
    ///
    /// Refuses a count the bytes do not hold, and bytes past the one the last bit falls in.
    pub fn new(bytes: Vec<u8>, bits: u64) -> (made: Result<Self, Error>)
        ensures
            bytes@.len() == bytes_for(bits as nat) ==> (made matches Ok(buf) && buf.wf()
                && buf.packed() == bytes@ && buf@ == window(bytes@, 0, bits as nat)),
            bytes@.len() != bytes_for(bits as nat) ==> made == Err::<Self, Error>(
                Error::InvalidParameter,
            ),
    {
        let needed: u64 = bits / 8 + if bits % 8 == 0 { 0 } else { 1 };
        assert(needed == bytes_for(bits as nat));
        if bytes.len() as u64 != needed {
            return Err(Error::InvalidParameter);
        }
        Ok(BitBuf { bytes, bits })
    }

    /// The bytes the stream occupies, final padding included.
    #[must_use]
    pub fn bytes(&self) -> (bytes: &[u8])
        ensures
            bytes@ == self.packed(),
    {
        self.bytes.as_slice()
    }

    /// The bits the stream carries, padding excluded.
    #[must_use]
    pub fn bits(&self) -> (bits: u64)
        ensures
            bits == self@.len(),
    {
        self.bits
    }

    /// Whether the stream carries no bits.
    #[must_use]
    pub fn is_empty(&self) -> (empty: bool)
        ensures
            empty == (self@.len() == 0),
    {
        self.bits == 0
    }
}

/// Writes bits most significant first, through a 64-bit accumulator.
#[derive(Debug)]
pub struct BitWriter {
    acc: u64,
    held: u32,
    out: Vec<u8>,
    bits: u64,
}

impl View for BitWriter {
    type V = Seq<bool>;

    /// The bits written so far.
    closed spec fn view(&self) -> Seq<bool> {
        window(self.out@, 0, 8 * self.out@.len()) + bits_of(self.acc as nat, self.held as nat)
    }
}

impl Default for BitWriter {
    fn default() -> (writer: Self)
        ensures
            writer.wf(),
            writer@ == Seq::<bool>::empty(),
    {
        Self::new()
    }
}

impl BitWriter {
    /// Fewer than eight bits wait in the accumulator, and the count is the bits written, held
    /// at the largest count 64 bits carry.
    pub closed spec fn wf(&self) -> bool {
        &&& self.held < 8
        &&& self.bits == least(self@.len(), u64::MAX as nat)
    }

    /// A writer holding no bits.
    #[must_use]
    pub fn new() -> (writer: Self)
        ensures
            writer.wf(),
            writer@ == Seq::<bool>::empty(),
    {
        let writer = BitWriter { acc: 0, held: 0, out: Vec::new(), bits: 0 };
        proof {
            assert(writer@ =~= Seq::<bool>::empty());
        }
        writer
    }

    /// The bits written so far.
    #[must_use]
    pub fn bits(&self) -> (bits: u64)
        requires
            self.wf(),
        ensures
            bits == least(self@.len(), u64::MAX as nat),
    {
        self.bits
    }

    /// Appends the low `width` bits of `value`, most significant first.
    ///
    /// A width above `MAX_WIDTH` is written in pieces rather than refused, so the writer has no
    /// precondition a caller can violate. A width past 64 leads with zeros.
    pub fn push(&mut self, value: u64, width: u32)
        requires
            old(self).wf(),
        ensures
            final(self).wf(),
            final(self)@ == old(self)@ + bits_of(value as nat, width as nat),
    {
        let mut left: u32 = width;
        let ghost before = self@;
        proof {
            lemma_bits_of_len(value as nat, 0);
            lemma2_to64();
            lemma_pow2_pos(width as nat);
            assert(bits_of(value as nat / pow2(width as nat), 0) =~= Seq::<bool>::empty());
            assert(before + Seq::<bool>::empty() =~= before);
        }
        while left > MAX_WIDTH
            invariant
                self.wf(),
                left <= width,
                self@ == before + bits_of(value as nat / pow2(left as nat), (width - left) as nat),
            decreases left,
        {
            let ghost was = left;
            left = left - MAX_WIDTH;
            let piece: u64 = shift_right(value, left);
            let ghost held = self@;
            self.put(piece, MAX_WIDTH);
            proof {
                let v = value as nat / pow2(left as nat);
                lemma_bits_of_split(v, (width - was) as nat, MAX_WIDTH as nat);
                lemma_pow2_pos(left as nat);
                lemma_pow2_pos(MAX_WIDTH as nat);
                lemma_div_denominator(
                    value as int,
                    pow2(left as nat) as int,
                    pow2(MAX_WIDTH as nat) as int,
                );
                lemma_pow2_adds(left as nat, MAX_WIDTH as nat);
                assert((width - was) as nat + MAX_WIDTH as nat == (width - left) as nat);
                assert(held + bits_of(v, MAX_WIDTH as nat) =~= before + bits_of(
                    v,
                    (width - left) as nat,
                ));
            }
        }
        let ghost held = self@;
        self.put(value, left);
        proof {
            lemma_bits_of_split(value as nat, (width - left) as nat, left as nat);
            assert((width - left) as nat + left as nat == width as nat);
            assert(held + bits_of(value as nat, left as nat) =~= before + bits_of(
                value as nat,
                width as nat,
            ));
        }
    }

    /// Appends the low `width` bits of `value`, for a `width` the accumulator holds whole.
    fn put(&mut self, value: u64, width: u32)
        requires
            old(self).wf(),
            width <= MAX_WIDTH,
        ensures
            final(self).wf(),
            final(self)@ == old(self)@ + bits_of(value as nat, width as nat),
    {
        let ghost acc0 = self.acc as nat;
        let ghost held0 = self.held as nat;
        let ghost out0 = self.out@;
        let ghost before = self@;
        let low: u64 = mask(width);
        let shifted: u64 = shift_left(self.acc, width);
        let kept: u64 = value & low;
        let joined: u64 = shifted | kept;
        proof {
            lemma2_to64();
            lemma_and_mask(value, width, low);
            lemma_join(self.acc, value, width, shifted, kept, joined);
            lemma_bits_of_split(joined as nat, held0, width as nat);
            lemma_bits_of_mod(joined as nat / pow2(width as nat), held0, (64 - width) as nat);
            lemma_bits_of_mod(acc0, held0, (64 - width) as nat);
            lemma_bits_of_mod(joined as nat, width as nat, width as nat);
            lemma_bits_of_mod(value as nat, width as nat, width as nat);
            lemma_bits_of_len(acc0, held0);
            lemma_bits_of_len(value as nat, width as nat);
        }
        self.acc = joined;
        self.held = self.held + width;
        self.bits = self.bits.saturating_add(width as u64);
        let ghost all = before + bits_of(value as nat, width as nat);
        proof {
            assert(self@ =~= all);
        }
        while self.held >= 8
            invariant
                self.held <= 64,
                self@ == all,
                self.bits == least(all.len(), u64::MAX as nat),
            decreases self.held,
        {
            let ghost out1 = self.out@;
            let ghost held1 = self.held as nat;
            self.held = self.held - 8;
            let byte: u8 = low_byte(shift_right(self.acc, self.held));
            self.out.push(byte);
            proof {
                let rest = self.held as nat;
                let high = self.acc as nat / pow2(rest);
                lemma_bits_of_split(self.acc as nat, 8, rest);
                lemma2_to64();
                lemma_bits_of_mod(high, 8, 8);
                lemma_window_push(out1, byte);
                assert(8 + rest == held1);
                assert(window(out1, 0, 8 * out1.len()) + (bits_of(byte as nat, 8) + bits_of(
                    self.acc as nat,
                    rest,
                )) =~= self@);
            }
        }
    }

    /// Closes the stream, padding the final byte with zeros.
    ///
    /// A stream of more bits than a 64-bit count carries keeps the count it can carry.
    #[must_use]
    pub fn finish(self) -> (buf: BitBuf)
        requires
            self.wf(),
        ensures
            packs(buf.packed(), self@),
            buf@ == self@.take(least(self@.len(), u64::MAX as nat) as int),
            self@.len() <= u64::MAX ==> buf@ == self@ && buf.wf() && buf.tight(),
    {
        let mut out = self.out;
        let ghost all = self@;
        let ghost out0 = out@;
        proof {
            lemma_bits_of_len(self.acc as nat, self.held as nat);
        }
        if self.held > 0 {
            let pad: u32 = 8 - self.held;
            let padded: u64 = shift_left(self.acc, pad);
            let byte: u8 = low_byte(padded);
            out.push(byte);
            proof {
                lemma2_to64();
                let a = self.acc as nat;
                let p = pow2(pad as nat);
                lemma_window_push(out0, byte);
                lemma_bits_of_mod(padded as nat, 8, 8);
                lemma_bits_of_mod(a * p, 8, 64);
                lemma_bits_of_split(a * p, self.held as nat, pad as nat);
                lemma_pow2_pos(pad as nat);
                vstd::arithmetic::div_mod::lemma_div_by_multiple(a as int, p as int);
                vstd::arithmetic::div_mod::lemma_mod_multiples_basic(a as int, p as int);
                lemma_bits_of_mod(a * p, pad as nat, pad as nat);
                lemma_bits_of_zero(pad as nat);
                assert(self.held as nat + pad as nat == 8);
                assert(window(out@, 0, 8 * out@.len()) =~= all + zeros(pad as nat));
            }
        } else {
            proof {
                assert(window(out@, 0, 8 * out@.len()) =~= all + zeros(0));
            }
        }
        let buf = BitBuf { bytes: out, bits: self.bits };
        proof {
            assert(packs(buf.packed(), all));
            lemma_pack_unique(buf.packed(), all);
            lemma_window_reads_back(buf.packed(), all, 0, self.bits as nat);
            assert(all.subrange(0, self.bits as int) =~= all.take(self.bits as int));
            if all.len() <= u64::MAX {
                assert(all.take(all.len() as int) =~= all);
            }
        }
        buf
    }
}

proof fn lemma_join(acc: u64, value: u64, width: u32, shifted: u64, kept: u64, joined: u64)
    requires
        width <= 57,
        shifted as nat == (acc * pow2(width as nat)) as nat % pow2(64),
        kept as nat == value as nat % pow2(width as nat),
        joined == shifted | kept,
    ensures
        joined as nat % pow2(width as nat) == value as nat % pow2(width as nat),
        joined as nat / pow2(width as nat) == acc as nat % pow2((64 - width) as nat),
{
    lemma2_to64();
    let w = width as nat;
    let k = (64 - width) as nat;
    let p = pow2(w);
    lemma_pow2_pos(w);
    lemma_pow2_pos(k);
    lemma_pow2_adds(w, k);
    let high = acc as nat % pow2(k);
    let over = acc as nat / pow2(k);
    lemma_fundamental_div_mod(acc as int, pow2(k) as int);
    lemma_mod_bound(acc as int, pow2(k) as int);
    assert(acc * p == over * pow2(64) + high * p) by (nonlinear_arith)
        requires
            acc == pow2(k) * over + high,
            pow2(64) == p * pow2(k),
    ;
    assert(0 <= high * p < pow2(64)) by (nonlinear_arith)
        requires
            0 <= high < pow2(k),
            pow2(64) == p * pow2(k),
            p > 0,
    ;
    lemma_fundamental_div_mod_converse(acc * p, pow2(64) as int, over as int, (high * p) as int);
    assert(shifted == high * p);
    lemma_mod_bound(value as int, p as int);
    // The shifted bits and the kept bits do not meet.
    let low: u64 = (p - 1) as u64;
    lemma_pow2_strictly_increases(w, 64);
    lemma_and_mask(shifted, width, low);
    vstd::arithmetic::div_mod::lemma_mod_multiples_basic(high as int, p as int);
    lemma_and_mask(kept, width, low);
    lemma_small_mod(kept as nat, p);
    assert(shifted | kept == shifted + kept) by (bit_vector)
        requires
            shifted & low == 0,
            kept & low == kept,
    ;
    assert(high * p + kept < pow2(64)) by (nonlinear_arith)
        requires
            0 <= high < pow2(k),
            pow2(64) == p * pow2(k),
            0 <= kept < p,
    ;
    assert(joined == high * p + kept);
    lemma_fundamental_div_mod_converse(joined as int, p as int, high as int, kept as int);
}

/// Reads bits most significant first, from the first bit written.
#[derive(Clone, Copy, Debug)]
pub struct BitReader<'a> {
    bytes: &'a [u8],
    bits: u64,
    at: u64,
}

impl<'a> BitReader<'a> {
    /// The bytes the reader reads from.
    pub closed spec fn source(&self) -> Seq<u8> {
        self.bytes@
    }

    /// The bits the stream declared.
    pub closed spec fn declared(&self) -> nat {
        self.bits as nat
    }

    /// The bits consumed so far.
    pub closed spec fn position(&self) -> nat {
        self.at as nat
    }

    /// A position is a count of 64 bits.
    pub proof fn lemma_position(&self)
        ensures
            self.position() <= u64::MAX,
    {
    }

    /// A reader over `bytes`, which carries `bits` bits of content.
    ///
    /// The bit count is the caller's declaration. A count above what the bytes hold makes
    /// every read past the bytes return zeros, which `overrun` does not catch, so a caller
    /// that reads a declared count from a stream checks it against the bytes first.
    #[must_use]
    pub fn new(bytes: &'a [u8], bits: u64) -> (reader: Self)
        ensures
            reader.source() == bytes@,
            reader.declared() == bits,
            reader.position() == 0,
    {
        BitReader { bytes, bits, at: 0 }
    }

    /// A reader over every bit of `buf`.
    #[must_use]
    pub fn over(buf: &'a BitBuf) -> (reader: Self)
        ensures
            reader.source() == buf.packed(),
            reader.declared() == buf@.len(),
            reader.position() == 0,
    {
        Self::new(buf.bytes(), buf.bits())
    }

    /// The bits the stream declared.
    #[must_use]
    pub fn bits(&self) -> (bits: u64)
        ensures
            bits == self.declared(),
    {
        self.bits
    }

    /// The bits consumed so far, which may pass the declared count.
    #[must_use]
    pub fn consumed(&self) -> (at: u64)
        ensures
            at == self.position(),
    {
        self.at
    }

    /// Whether the reader has passed the end of what the stream declared.
    #[must_use]
    pub fn overrun(&self) -> (over: bool)
        ensures
            over == (self.position() > self.declared()),
    {
        self.at > self.bits
    }

    /// The next `width` bits without consuming them, reading zeros past the end.
    ///
    /// A width past 64 answers the last 64 bits of the field.
    #[must_use]
    pub fn peek(&self, width: u32) -> (value: u64)
        ensures
            value as nat == value_of(window(self.source(), self.position(), width as nat)) % pow2(
                64,
            ),
            width <= 64 ==> value as nat == value_of(
                window(self.source(), self.position(), width as nat),
            ),
    {
        bits_at(self.bytes, self.at, width)
    }

    /// Advances by `width` bits, which may pass the end.
    pub fn skip(&mut self, width: u32)
        ensures
            final(self).source() == old(self).source(),
            final(self).declared() == old(self).declared(),
            final(self).position() == least(old(self).position() + width as nat, u64::MAX as nat),
    {
        self.at = self.at.saturating_add(width as u64);
    }

    /// The next `width` bits, refusing to pass the end.
    ///
    /// A refusal leaves the reader where it was and names the bytes the field needs.
    pub fn take(&mut self, width: u32) -> (taken: Result<u64, Error>)
        ensures
            final(self).source() == old(self).source(),
            final(self).declared() == old(self).declared(),
            old(self).position() + width <= old(self).declared() ==> {
                &&& taken matches Ok(value) && value as nat == value_of(
                    window(old(self).source(), old(self).position(), width as nat),
                ) % pow2(64) && (width <= 64 ==> value as nat == value_of(
                    window(old(self).source(), old(self).position(), width as nat),
                ))
                &&& final(self).position() == old(self).position() + width
            },
            old(self).position() + width > old(self).declared() ==> {
                &&& taken == Err::<u64, Error>(short_field(old(self).position(), width as nat))
                &&& final(self).position() == old(self).position()
            },
    {
        let end: u64 = self.at.saturating_add(width as u64);
        if end > self.bits || end - self.at < width as u64 {
            let bytes: u64 = end / 8 + if end % 8 == 0 { 0 } else { 1 };
            let needed: usize = if bytes <= usize::MAX as u64 { bytes as usize } else { usize::MAX };
            return Err(Error::TruncatedInput { needed });
        }
        let value: u64 = bits_at(self.bytes, self.at, width);
        self.at = end;
        Ok(value)
    }

    /// Reports the overrun a payload decode ended in.
    ///
    /// A decode that consumed more bits than the stream declared decoded padding as content.
    pub fn finish(&self) -> (ended: Result<(), Error>)
        ensures
            self.position() <= self.declared() ==> ended == Ok::<(), Error>(()),
            self.position() > self.declared() ==> ended == Err::<(), Error>(
                Error::CorruptData(Corruption::CodedStream),
            ),
    {
        if self.overrun() {
            return Err(Error::CorruptData(Corruption::CodedStream));
        }
        Ok(())
    }
}

/// The refusal of a field of `width` bits at `at` that passes the end of its stream: the bytes
/// the field needs, held at the largest figure a 64-bit position and a byte count carry.
pub open spec fn short_field(at: nat, width: nat) -> Error {
    Error::TruncatedInput {
        needed: least(
            bytes_for(least(at + width, u64::MAX as nat)),
            usize::MAX as nat,
        ) as usize,
    }
}

/// The bits at `[start, start + width)` of a most-significant-first packing.
///
/// Out of range reads as zero.
fn bits_at(bytes: &[u8], start: u64, width: u32) -> (value: u64)
    ensures
        value as nat == value_of(window(bytes@, start as nat, width as nat)) % pow2(64),
        width <= 64 ==> value as nat == value_of(window(bytes@, start as nat, width as nat)),
{
    let first: u64 = start / 8;
    let offset: u64 = start % 8;
    let spanned: u64 = (offset + width as u64 + 7) / 8;
    let mut acc: u128 = 0;
    let mut lane: u64 = 0;
    proof {
        lemma2_to64();
        assert(window(bytes@, 8 * first as nat, 0) =~= Seq::<bool>::empty());
        lemma_pow2_pos(128);
        lemma_small_mod(0, pow2(128));
    }
    while lane < spanned
        invariant
            lane <= spanned,
            spanned <= 0x1000_0000_0000,
            first <= 0x2000_0000_0000_0000,
            acc as nat == value_of(window(bytes@, 8 * first as nat, 8 * lane as nat)) % pow2(128),
        decreases spanned - lane,
    {
        let at: u64 = first + lane;
        let byte: u8 = if at < bytes.len() as u64 { bytes[at as usize] } else { 0 };
        proof {
            let w = window(bytes@, 8 * first as nat, 8 * lane as nat);
            lemma_window_split(bytes@, 8 * first as nat, 8 * lane as nat, 8);
            lemma_window_byte(bytes@, at as nat);
            assert(8 * first as nat + 8 * lane as nat == 8 * at as nat);
            assert(8 * lane as nat + 8 == 8 * (lane + 1) as nat);
            lemma_value_of_concat(w, window(bytes@, 8 * at as nat, 8));
            lemma2_to64();
            lemma_value_of_bits(byte as nat, 8);
            lemma_bits_of_len(byte as nat, 8);
            lemma_fold_byte(value_of(w), acc, byte);
        }
        acc = (acc << 8) | (byte as u128);
        lane = lane + 1;
    }
    let shift: u64 = spanned * 8 - offset - width as u64;
    let moved: u128 = acc >> shift;
    let low: u64 = #[verifier::truncate]
    (moved as u64);
    let cut: u64 = mask(width);
    let value: u64 = low & cut;
    proof {
        let all = window(bytes@, 8 * first as nat, 8 * spanned as nat);
        let head = window(bytes@, 8 * first as nat, offset as nat);
        let field = window(bytes@, start as nat, width as nat);
        let tail = window(bytes@, start as nat + width as nat, shift as nat);
        lemma_window_split(bytes@, 8 * first as nat, offset as nat, (width + shift) as nat);
        lemma_window_split(bytes@, start as nat, width as nat, shift as nat);
        assert(8 * first as nat + offset as nat == start as nat);
        assert(offset as nat + (width + shift) as nat == 8 * spanned as nat);
        assert(width as nat + shift as nat == (width + shift) as nat);
        assert(all =~= (head + field) + tail);
        lemma_value_of_concat(head + field, tail);
        lemma_value_of_concat(head, field);
        lemma_bits_of_value(tail);
        lemma_bits_of_value(field);
        lemma_extract(
            value_of(head),
            value_of(field),
            value_of(tail),
            value_of(all),
            width,
            shift,
            acc,
            moved,
        );
        let w = least(width as nat, 64);
        lemma2_to64();
        assert(low as nat == moved as nat % pow2(64)) by {
            assert((moved as u64) as u128 == moved % 0x1_0000_0000_0000_0000) by (bit_vector);
        }
        lemma_and_mask(low, w as u32, cut);
        lemma_pow2_adds(w, (64 - w) as nat);
        lemma_pow2_pos(w);
        lemma_pow2_pos((64 - w) as nat);
        lemma_mod_mod(moved as int, pow2(w) as int, pow2((64 - w) as nat) as int);
        assert(value as nat == moved as nat % pow2(w));
        if width < 64 {
            lemma_pow2_strictly_increases(width as nat, 64);
        }
        if width <= 64 {
            lemma_small_mod(value_of(field), pow2(w));
            lemma_small_mod(value_of(field), pow2(64));
        }
    }
    value
}

proof fn lemma_fold_byte(v: nat, acc: u128, byte: u8)
    requires
        acc as nat == v % pow2(128),
    ensures
        ((acc << 8) | (byte as u128)) as nat == (v * pow2(8) + byte as nat) % pow2(128),
{
    lemma2_to64();
    lemma_pow2_adds(64, 64);
    let m: int = 0x1_0000_0000_0000_0000int * 0x1_0000_0000_0000_0000int;
    assert(pow2(128) == m);
    assert((acc << 8u32) | (byte as u128) == (acc % 0x1_000000_00000000_00000000_00000000) * 256
        + byte) by (bit_vector);
    let h: int = 0x1_000000_00000000_00000000_00000000;
    assert(h * 256 == m);
    let q = v as int / m;
    assert(v == q * m + acc) by {
        lemma_fundamental_div_mod(v as int, m);
        assert(m * q == q * m) by (nonlinear_arith);
    }
    let p = acc as int / h;
    let r = acc as int % h;
    assert(acc == p * h + r);
    assert(v * 256 + byte == (q * 256 + p) * m + (r * 256 + byte)) by (nonlinear_arith)
        requires
            v == q * m + acc,
            acc == p * h + r,
            h * 256 == m,
    ;
    lemma_fundamental_div_mod_converse(v * 256 + byte, m, q * 256 + p, r * 256 + byte);
}

proof fn lemma_extract(
    head: nat,
    field: nat,
    tail: nat,
    all: nat,
    width: u32,
    shift: u64,
    acc: u128,
    moved: u128,
)
    requires
        shift < 8,
        all == (head * pow2(width as nat) + field) * pow2(shift as nat) + tail,
        field < pow2(width as nat),
        tail < pow2(shift as nat),
        acc as nat == all % pow2(128),
        moved == acc >> shift,
    ensures
        moved as nat % pow2(least(width as nat, 64)) == field % pow2(least(width as nat, 64)),
{
    let w = least(width as nat, 64);
    let s = shift as nat;
    let k = (128 - s) as nat;
    lemma_pow2_pos(w);
    lemma_pow2_pos(s);
    lemma_pow2_pos(k);
    lemma_pow2_pos(128);
    lemma_pow2_pos(width as nat);
    assert(acc >> shift == acc >> (shift as u128)) by (bit_vector)
        requires
            shift < 8,
    ;
    lemma_u128_shr_is_div(acc, shift as u128);
    let inner = head * pow2(width as nat) + field;
    // all / 2^s is the head and the field.
    lemma_fundamental_div_mod_converse(all as int, pow2(s) as int, inner as int, tail as int);
    // (all mod 2^128) / 2^s is that, mod 2^(128 - s).
    lemma_pow2_adds(s, k);
    vstd::arithmetic::div_mod::lemma_mod_breakdown(all as int, pow2(s) as int, pow2(k) as int);
    lemma_mod_bound(all as int, pow2(s) as int);
    lemma_fundamental_div_mod_converse(
        all as int % (pow2(s) * pow2(k)) as int,
        pow2(s) as int,
        (all as int / pow2(s) as int) % pow2(k) as int,
        all as int % pow2(s) as int,
    );
    assert(moved as nat == inner % pow2(k));
    // 2^w divides 2^(128 - s).
    lemma_pow2_adds(w, (k - w) as nat);
    lemma_pow2_pos((k - w) as nat);
    lemma_mod_mod(inner as int, pow2(w) as int, pow2((k - w) as nat) as int);
    // 2^w divides 2^width.
    lemma_pow2_adds(w, (width - w) as nat);
    let up = head * pow2((width - w) as nat);
    assert(inner == up * pow2(w) + field) by (nonlinear_arith)
        requires
            inner == head * pow2(width as nat) + field,
            pow2(width as nat) == pow2(w) * pow2((width - w) as nat),
            up == head * pow2((width - w) as nat),
    ;
    vstd::arithmetic::div_mod::lemma_mod_multiples_vanish(up as int, field as int, pow2(w) as int);
    assert(pow2(w) * up == up * pow2(w)) by (nonlinear_arith);
}

} // verus!
