//! Owns the comparison kernels: the common prefix of two positions in one buffer, which is
//! where a match finder spends most of its time.
//!
//! Two implementations answer to one specification.
//!
//! ```text
//! Scalar   one byte per step                       the oracle
//! Word     one 64-bit load per step, xor, count
//! ```
//!
//! A caller may name either. The kernel changes speed and never the length a comparison
//! reports: both are proved equal to [`shared`].

use vstd::bytes::*;
use vstd::prelude::*;
use vstd::std_specs::bits::*;

verus! {

/// Which common-prefix kernel a caller runs.
#[derive(Clone, Copy, Debug, PartialEq, Eq, Structural)]
pub enum Kernel {
    /// One byte per step. Short enough to check by reading, and the oracle the other answers
    /// to.
    Scalar,
    /// Eight bytes per step, then a byte tail.
    Word,
}

/// The kernel this build runs unless a caller names another.
///
/// The oracle. The word kernel is present and a caller may name it, but nothing has compared
/// the two, and a kernel is selected from a measurement rather than from an expectation.
pub const SELECTED: Kernel = Kernel::Scalar;

/// Every kernel this build holds, the oracle first.
pub const ALL: [Kernel; 2] = [Kernel::Scalar, Kernel::Word];

/// The bytes a kernel may read past the logical end of the buffer.
///
/// Zero, for every kernel. A wide load is issued only while the whole load lies inside the
/// bound the kernel clamped its cap to. No caller owes this module slack past a buffer.
pub const OVER_READ_BYTES: usize = 0;

impl Kernel {
    /// The name a record states this kernel by.
    pub fn name(self) -> (name: &'static str)
        ensures
            name@ == match self {
                Kernel::Scalar => "scalar-byte"@,
                Kernel::Word => "scalar-word8"@,
            },
    {
        match self {
            Kernel::Scalar => "scalar-byte",
            Kernel::Word => "scalar-word8",
        }
    }

    /// The widest load the kernel issues, in bytes.
    pub fn widest_load_bytes(self) -> (bytes: usize)
        ensures
            bytes == match self {
                Kernel::Scalar => 1usize,
                Kernel::Word => 8usize,
            },
    {
        match self {
            Kernel::Scalar => 1,
            Kernel::Word => 8,
        }
    }
}

/// The bytes a comparison at `earlier` and `later` may cover: the cap, clamped to what the
/// buffer holds past the farther of the two.
pub open spec fn reach(len: nat, earlier: nat, later: nat, cap: nat) -> nat {
    let far = if earlier < later {
        later
    } else {
        earlier
    };
    let held = if far < len {
        (len - far) as nat
    } else {
        0
    };
    if cap < held {
        cap
    } else {
        held
    }
}

/// Whether the first `count` bytes at `earlier` and at `later` agree.
pub open spec fn agrees(data: Seq<u8>, earlier: int, later: int, count: int) -> bool {
    forall|i: int| #![trigger data[earlier + i]] #![trigger data[later + i]]
        0 <= i < count ==> data[earlier + i] == data[later + i]
}

/// The length of the longest agreeing prefix of at most `limit` bytes.
pub open spec fn shared(data: Seq<u8>, earlier: int, later: int, limit: nat) -> nat
    decreases limit,
{
    if limit == 0 {
        0
    } else {
        let before = shared(data, earlier, later, (limit - 1) as nat);
        if before == limit - 1 && data[earlier + before] == data[later + before] {
            limit
        } else {
            before
        }
    }
}

/// What [`shared`] gives: a prefix that agrees, and that no longer one within the limit does.
pub proof fn law_shared_is_the_longest_prefix(
    data: Seq<u8>,
    earlier: int,
    later: int,
    limit: nat,
)
    ensures
        shared(data, earlier, later, limit) <= limit,
        agrees(data, earlier, later, shared(data, earlier, later, limit) as int),
        shared(data, earlier, later, limit) < limit ==> data[earlier + shared(
            data,
            earlier,
            later,
            limit,
        )] != data[later + shared(data, earlier, later, limit)],
    decreases limit,
{
    if limit > 0 {
        law_shared_is_the_longest_prefix(data, earlier, later, (limit - 1) as nat);
    }
}

/// The prefix whose bytes agree and whose next byte, if the limit admits one, does not is the
/// shared one.
pub proof fn lemma_shared_unique(
    data: Seq<u8>,
    earlier: int,
    later: int,
    limit: nat,
    count: nat,
)
    requires
        count <= limit,
        agrees(data, earlier, later, count as int),
        count < limit ==> data[earlier + count] != data[later + count],
    ensures
        shared(data, earlier, later, limit) == count,
{
    law_shared_is_the_longest_prefix(data, earlier, later, limit);
    let found = shared(data, earlier, later, limit);
    if found < count {
        assert(data[earlier + found] == data[later + found]);
    }
    if count < found {
        assert(data[earlier + count] == data[later + count]);
    }
}

/// The leading bytes that agree at `earlier` and at `later`, at most `cap` of them.
///
/// `earlier` and `later` are positions in the same buffer. The comparison may run past
/// `later`, which is the self-referential copy an overlapping match describes.
///
/// The cap is clamped to what the buffer holds, so no argument can drive a read past the end.
pub fn common_prefix(
    kernel: Kernel,
    data: &[u8],
    earlier: usize,
    later: usize,
    cap: usize,
) -> (matched: usize)
    ensures
        matched == shared(
            data@,
            earlier as int,
            later as int,
            reach(data@.len(), earlier as nat, later as nat, cap as nat),
        ),
{
    match kernel {
        Kernel::Scalar => scalar(data, earlier, later, cap),
        Kernel::Word => word(data, earlier, later, cap),
    }
}

/// The oracle. One byte per step.
pub fn scalar(data: &[u8], earlier: usize, later: usize, cap: usize) -> (matched: usize)
    ensures
        matched == shared(
            data@,
            earlier as int,
            later as int,
            reach(data@.len(), earlier as nat, later as nat, cap as nat),
        ),
{
    let cap: usize = bounded(data, earlier, later, cap);
    tail(data, earlier, later, cap, 0)
}

/// Eight bytes per step, then the byte tail.
pub fn word(data: &[u8], earlier: usize, later: usize, cap: usize) -> (matched: usize)
    ensures
        matched == shared(
            data@,
            earlier as int,
            later as int,
            reach(data@.len(), earlier as nat, later as nat, cap as nat),
        ),
{
    let limit: usize = bounded(data, earlier, later, cap);
    words(data, earlier, later, limit, 0)
}

/// Sixteen bytes per step as two paired loads, then the word body, then the byte tail.
///
/// The safe formulation of a sixteen-byte vector step. No kernel of this build dispatches to
/// it: a build that holds no vector unit attributes no result to one.
pub fn neon(data: &[u8], earlier: usize, later: usize, cap: usize) -> (matched: usize)
    ensures
        matched == shared(
            data@,
            earlier as int,
            later as int,
            reach(data@.len(), earlier as nat, later as nat, cap as nat),
        ),
{
    let total: usize = data.len();
    let limit: usize = bounded(data, earlier, later, cap);
    let mut matched: usize = 0;
    while limit - matched >= 16
        invariant
            matched <= limit,
            total == data@.len(),
            limit == reach(data@.len(), earlier as nat, later as nat, cap as nat),
            limit > 0 ==> earlier + limit <= total && later + limit <= total,
            agrees(data@, earlier as int, later as int, matched as int),
        decreases limit - matched,
    {
        match step(data, earlier, later, limit, matched) {
            Some(first) => {
                return first;
            },
            None => {},
        }
        match step(data, earlier, later, limit, matched + 8) {
            Some(first) => {
                return first;
            },
            None => {},
        }
        matched = matched + 16;
    }
    words(data, earlier, later, limit, matched)
}

/// The word body, from `from` to `limit`, then the byte tail.
fn words(data: &[u8], earlier: usize, later: usize, limit: usize, from: usize) -> (matched: usize)
    requires
        from <= limit,
        limit > 0 ==> earlier + limit <= data@.len() && later + limit <= data@.len(),
        agrees(data@, earlier as int, later as int, from as int),
    ensures
        matched == shared(data@, earlier as int, later as int, limit as nat),
{
    let mut matched: usize = from;
    while limit - matched >= 8
        invariant
            matched <= limit,
            limit > 0 ==> earlier + limit <= data@.len() && later + limit <= data@.len(),
            agrees(data@, earlier as int, later as int, matched as int),
        decreases limit - matched,
    {
        match step(data, earlier, later, limit, matched) {
            Some(first) => {
                return first;
            },
            None => {},
        }
        matched = matched + 8;
    }
    tail(data, earlier, later, limit, matched)
}

/// One eight-byte step past an agreeing prefix: the prefix where the eight bytes differ, or
/// nothing where they agree.
fn step(data: &[u8], earlier: usize, later: usize, limit: usize, matched: usize) -> (first: Option<
    usize,
>)
    requires
        matched + 8 <= limit,
        earlier + limit <= data@.len(),
        later + limit <= data@.len(),
        agrees(data@, earlier as int, later as int, matched as int),
    ensures
        first matches Some(count) ==> count == shared(
            data@,
            earlier as int,
            later as int,
            limit as nat,
        ),
        first is None ==> agrees(data@, earlier as int, later as int, matched + 8),
{
    assert(data.len() == data@.len());
    let left: u64 = read_u64(data, earlier + matched);
    let right: u64 = read_u64(data, later + matched);
    if left != right {
        let first: usize = first_differing_byte(left ^ right);
        proof {
            lemma_first_difference(left, right);
            assert forall|i: int| 0 <= i < matched + first implies #[trigger] data@[earlier + i]
                == data@[later + i] by {
                if i >= matched {
                    let k = i - matched;
                    assert(data@[earlier + matched + k] == byte_of_word(left, k));
                    assert(data@[later + matched + k] == byte_of_word(right, k));
                }
            }
            assert(data@[earlier + matched + first] == byte_of_word(left, first as int));
            assert(data@[later + matched + first] == byte_of_word(right, first as int));
            lemma_shared_unique(
                data@,
                earlier as int,
                later as int,
                limit as nat,
                (matched + first) as nat,
            );
        }
        return Some(matched + first);
    }
    proof {
        assert forall|i: int| 0 <= i < matched + 8 implies #[trigger] data@[earlier + i]
            == data@[later + i] by {
            if i >= matched {
                let k = i - matched;
                assert(data@[earlier + matched + k] == byte_of_word(left, k));
                assert(data@[later + matched + k] == byte_of_word(right, k));
            }
        }
    }
    None
}

/// The cap a kernel may actually compare over.
///
/// Every kernel clamps here first, so the over-read guard is a property of this function and
/// of each loop bound rather than an obligation a caller can forget.
fn bounded(data: &[u8], earlier: usize, later: usize, cap: usize) -> (bound: usize)
    ensures
        bound == reach(data@.len(), earlier as nat, later as nat, cap as nat),
        bound > 0 ==> earlier + bound <= data@.len() && later + bound <= data@.len(),
{
    let far: usize = if earlier < later {
        later
    } else {
        earlier
    };
    let total: usize = data.len();
    let held: usize = if far < total {
        total - far
    } else {
        0
    };
    if cap < held {
        cap
    } else {
        held
    }
}

/// The byte body, from `from` to `cap`.
fn tail(data: &[u8], earlier: usize, later: usize, cap: usize, from: usize) -> (matched: usize)
    requires
        from <= cap,
        cap > 0 ==> earlier + cap <= data@.len() && later + cap <= data@.len(),
        agrees(data@, earlier as int, later as int, from as int),
    ensures
        matched == shared(data@, earlier as int, later as int, cap as nat),
{
    let total: usize = data.len();
    let mut matched: usize = from;
    while matched < cap && data[earlier + matched] == data[later + matched]
        invariant
            matched <= cap,
            total == data@.len(),
            total <= usize::MAX,
            cap > 0 ==> earlier + cap <= total && later + cap <= total,
            agrees(data@, earlier as int, later as int, matched as int),
        decreases cap - matched,
    {
        matched = matched + 1;
    }
    proof {
        lemma_shared_unique(data@, earlier as int, later as int, cap as nat, matched as nat);
    }
    matched
}

/// The byte of `word` at index `k`, the low one first.
spec fn byte_of_word(word: u64, k: int) -> u8 {
    spec_u64_to_le_bytes(word)[k]
}

/// Eight bytes of `data` at `at`, the first of them in the low byte.
fn read_u64(data: &[u8], at: usize) -> (word: u64)
    requires
        at + 8 <= data@.len(),
    ensures
        forall|k: int| 0 <= k < 8 ==> data@[at + k] == #[trigger] byte_of_word(word, k),
{
    assert(data.len() == data@.len());
    let bytes = vstd::slice::slice_subrange(data, at, at + 8);
    let word: u64 = u64_from_le_bytes(bytes);
    proof {
        lemma_auto_spec_u64_to_from_le_bytes();
        assert(spec_u64_to_le_bytes(word) == bytes@);
    }
    word
}

/// The index of the lowest differing byte of a non-zero exclusive or.
///
/// The operands hold byte 0 of the buffer in their low byte, whatever the host's byte order
/// is.
fn first_differing_byte(difference: u64) -> (index: usize)
    ensures
        index == u64_trailing_zeros(difference) / 8,
{
    (difference.trailing_zeros() / 8) as usize
}

/// Two unequal words differ first in the byte the trailing zeros of their exclusive or name.
proof fn lemma_first_difference(left: u64, right: u64)
    requires
        left != right,
    ensures
        u64_trailing_zeros(left ^ right) / 8 < 8,
        forall|k: int|
            0 <= k < u64_trailing_zeros(left ^ right) / 8 ==> #[trigger] byte_of_word(left, k)
                == byte_of_word(right, k),
        byte_of_word(left, (u64_trailing_zeros(left ^ right) / 8) as int) != byte_of_word(
            right,
            (u64_trailing_zeros(left ^ right) / 8) as int,
        ),
{
    let d = left ^ right;
    let t = u64_trailing_zeros(d) as u64;
    let s: u64 = (64 - t) as u64;
    axiom_u64_trailing_zeros(d);
    assert(left != right ==> left ^ right != 0) by (bit_vector);
    assert(d << s == 0);
    lemma_auto_spec_u64_to_from_le_bytes();
    assert forall|k: int| 0 <= k < t / 8 implies #[trigger] byte_of_word(left, k)
        == byte_of_word(right, k) by {
        let p: u64 = (8 * k) as u64;
        assert((left >> p) & 0xff == (right >> p) & 0xff) by (bit_vector)
            requires
                d == left ^ right,
                d << s == 0,
                t + s == 64,
                p + 8 <= t,
        ;
        lemma_byte_of_word(left, k);
        lemma_byte_of_word(right, k);
    }
    let p: u64 = (8 * (t / 8)) as u64;
    assert((left >> p) & 0xff != (right >> p) & 0xff) by (bit_vector)
        requires
            d == left ^ right,
            (d >> t) & 1 == 1,
            p <= t,
            t < p + 8,
            t < 64,
    ;
    lemma_byte_of_word(left, (t / 8) as int);
    lemma_byte_of_word(right, (t / 8) as int);
}

/// A byte of a word is the word shifted down to it.
proof fn lemma_byte_of_word(word: u64, k: int)
    requires
        0 <= k < 8,
    ensures
        byte_of_word(word, k) == (word >> ((8 * k) as u64)) & 0xff,
{
    spec_u64_to_le_bytes_to_open(word);
    assert(word >> 0u64 == word) by (bit_vector);
    assert(forall|x: u64| #[trigger] (x & 0xff) < 256) by (bit_vector);
}

} // verus!
