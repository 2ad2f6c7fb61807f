//! Owns the canonical assignment: which code word a list of code lengths gives each symbol.
//!
//! Symbols are ordered by length and then by symbol. A symbol of length `l` takes `2^(64 - l)`
//! of a unit of `2^64`, in that order, so the code word of a symbol is where its share starts,
//! and a code is a complete prefix code exactly when the shares fill the unit.

use vstd::prelude::*;
use vstd::arithmetic::div_mod::{
    lemma_div_by_multiple, lemma_fundamental_div_mod, lemma_fundamental_div_mod_converse,
    lemma_mod_multiples_basic,
};
use vstd::arithmetic::power2::{
    lemma2_to64, lemma_pow2_adds, lemma_pow2_pos, lemma_pow2_strictly_increases, pow2,
};
use super::LENGTH_LIMIT;
use crate::entropy::bits::{
    bits_of, lemma_bits_of_len, lemma_bits_of_value, lemma_value_of_bits, lemma_value_of_concat,
    value_of,
};
use crate::format::{Corruption, Error};

verus! {

/// The share of the unit one code of `length` bits takes.
pub open spec fn share(length: u32) -> nat {
    if 0 < length <= 64 {
        pow2((64 - length) as nat)
    } else {
        0
    }
}

/// The Kraft sum of a list of lengths, in units of `2^-64`.
pub open spec fn kraft(lengths: Seq<u32>) -> nat
    decreases lengths.len(),
{
    if lengths.len() == 0 {
        0
    } else {
        kraft(lengths.drop_last()) + share(lengths.last())
    }
}

/// Whether symbol `t` of length `len` stands before `(length, symbol)` in canonical order.
pub open spec fn precedes(len: u32, t: int, length: int, symbol: int) -> bool {
    len > 0 && (len < length || (len == length && t < symbol))
}

/// The shares of the symbols that stand before `(length, symbol)`.
pub open spec fn start(lengths: Seq<u32>, length: int, symbol: int) -> nat
    decreases lengths.len(),
{
    if lengths.len() == 0 {
        0
    } else {
        start(lengths.drop_last(), length, symbol) + if precedes(
            lengths.last(),
            lengths.len() - 1,
            length,
            symbol,
        ) {
            share(lengths.last())
        } else {
            0
        }
    }
}

/// The canonical code of one symbol, as a value of as many bits as its length.
pub open spec fn code_value(lengths: Seq<u32>, symbol: int) -> nat {
    start(lengths, lengths[symbol] as int, symbol) / share(lengths[symbol])
}

/// Every length is at most the limit.
pub open spec fn limited(lengths: Seq<u32>) -> bool {
    forall|s: int| 0 <= s < lengths.len() ==> #[trigger] lengths[s] <= LENGTH_LIMIT
}

/// Whether the lengths are a complete prefix code.
pub open spec fn complete(lengths: Seq<u32>) -> bool {
    limited(lengths) && kraft(lengths) == pow2(64)
}

/// The shares standing before a position grow by the symbol the position passes.
pub proof fn lemma_start_step(lengths: Seq<u32>, length: int, symbol: int)
    requires
        0 <= symbol < lengths.len(),
        length > 0,
    ensures
        start(lengths, length, symbol + 1) == start(lengths, length, symbol)
            + if lengths[symbol] == length {
            share(lengths[symbol])
        } else {
            0
        },
    decreases lengths.len(),
{
    let less = lengths.drop_last();
    if symbol < less.len() {
        lemma_start_step(less, length, symbol);
        assert(less[symbol] == lengths[symbol]);
    } else {
        lemma_start_past(less, length, symbol, symbol + 1);
    }
}

/// Past the last symbol the position no longer moves.
proof fn lemma_start_past(lengths: Seq<u32>, length: int, a: int, b: int)
    requires
        a >= lengths.len(),
        b >= lengths.len(),
    ensures
        start(lengths, length, a) == start(lengths, length, b),
    decreases lengths.len(),
{
    if lengths.len() > 0 {
        lemma_start_past(lengths.drop_last(), length, a, b);
    }
}

/// The end of one length is the start of the next.
pub proof fn lemma_start_turn(lengths: Seq<u32>, length: int)
    requires
        length >= 0,
    ensures
        start(lengths, length, lengths.len() as int) == start(lengths, length + 1, 0),
    decreases lengths.len(),
{
    if lengths.len() > 0 {
        let less = lengths.drop_last();
        lemma_start_turn(less, length);
        lemma_start_past(less, length, less.len() as int, lengths.len() as int);
    }
}

/// Nothing stands before the first position.
pub proof fn lemma_start_first(lengths: Seq<u32>)
    ensures
        start(lengths, 1, 0) == 0,
    decreases lengths.len(),
{
    if lengths.len() > 0 {
        lemma_start_first(lengths.drop_last());
    }
}

/// Past every length stands the whole sum.
pub proof fn lemma_start_all(lengths: Seq<u32>, length: int)
    requires
        forall|s: int| 0 <= s < lengths.len() ==> (#[trigger] lengths[s]) < length,
    ensures
        start(lengths, length, 0) == kraft(lengths),
    decreases lengths.len(),
{
    if lengths.len() > 0 {
        let less = lengths.drop_last();
        assert forall|s: int| 0 <= s < less.len() implies (#[trigger] less[s]) < length by {
            assert(less[s] == lengths[s]);
        }
        lemma_start_all(less, length);
        assert(lengths.last() == lengths[lengths.len() - 1]);
    }
}

/// A later position stands behind at least as many shares.
pub proof fn lemma_start_monotone(lengths: Seq<u32>, l1: int, s1: int, l2: int, s2: int)
    requires
        l1 < l2 || (l1 == l2 && s1 <= s2),
    ensures
        start(lengths, l1, s1) <= start(lengths, l2, s2),
    decreases lengths.len(),
{
    if lengths.len() > 0 {
        lemma_start_monotone(lengths.drop_last(), l1, s1, l2, s2);
    }
}

/// What stands before a position of one length is whole shares of that length.
pub proof fn lemma_start_whole(lengths: Seq<u32>, length: int, symbol: int)
    requires
        0 < length <= 64,
    ensures
        start(lengths, length, symbol) % share(length as u32) == 0,
    decreases lengths.len(),
{
    let p = share(length as u32);
    lemma_pow2_pos((64 - length) as nat);
    if lengths.len() == 0 {
        assert(0nat % p == 0) by {
            vstd::arithmetic::div_mod::lemma_small_mod(0, p);
        }
    } else {
        let less = lengths.drop_last();
        lemma_start_whole(less, length, symbol);
        if precedes(lengths.last(), lengths.len() - 1, length, symbol) {
            let len = lengths.last();
            let d = (length - len) as nat;
            lemma_pow2_adds(d, (64 - length) as nat);
            assert(share(len) == pow2(d) * p);
            lemma_mod_multiples_basic(pow2(d) as int, p as int);
            vstd::arithmetic::div_mod::lemma_mod_adds(
                start(less, length, symbol) as int,
                share(len) as int,
                p as int,
            );
        }
    }
}

/// The share of one symbol lies inside the sum.
pub proof fn lemma_share_inside(lengths: Seq<u32>, symbol: int)
    requires
        limited(lengths),
        0 <= symbol < lengths.len(),
        lengths[symbol] > 0,
    ensures
        start(lengths, lengths[symbol] as int, symbol) + share(lengths[symbol]) <= kraft(lengths),
        share(lengths[symbol]) > 0,
        start(lengths, lengths[symbol] as int, symbol) == code_value(lengths, symbol) * share(
            lengths[symbol],
        ),
{
    let l = lengths[symbol] as int;
    lemma_start_step(lengths, l, symbol);
    lemma_start_monotone(lengths, l, symbol + 1, LENGTH_LIMIT + 1, 0);
    lemma_start_all(lengths, LENGTH_LIMIT + 1);
    lemma_pow2_pos((64 - l) as nat);
    lemma_start_whole(lengths, l, symbol);
    let st = start(lengths, l, symbol);
    let p = share(lengths[symbol]);
    lemma_fundamental_div_mod(st as int, p as int);
    assert(p * (st / p) == (st / p) * p) by (nonlinear_arith);
}

/// The shares of two symbols do not meet.
pub proof fn lemma_shares_apart(lengths: Seq<u32>, a: int, b: int)
    requires
        limited(lengths),
        0 <= a < lengths.len(),
        0 <= b < lengths.len(),
        a != b,
        lengths[a] > 0,
        lengths[b] > 0,
    ensures
        ({
            let sa = start(lengths, lengths[a] as int, a);
            let sb = start(lengths, lengths[b] as int, b);
            sa + share(lengths[a]) <= sb || sb + share(lengths[b]) <= sa
        }),
{
    let la = lengths[a] as int;
    let lb = lengths[b] as int;
    lemma_start_step(lengths, la, a);
    lemma_start_step(lengths, lb, b);
    if la < lb || (la == lb && a < b) {
        lemma_start_monotone(lengths, la, a + 1, lb, b);
    } else {
        lemma_start_monotone(lengths, lb, b + 1, la, a);
    }
}

/// Every point below a position's start lies in the share of some symbol before it.
proof fn lemma_covered(lengths: Seq<u32>, length: int, symbol: int, point: int) -> (s: int)
    requires
        limited(lengths),
        1 <= length <= LENGTH_LIMIT + 1,
        0 <= symbol <= lengths.len(),
        0 <= point < start(lengths, length, symbol),
    ensures
        0 <= s < lengths.len(),
        lengths[s] > 0,
        start(lengths, lengths[s] as int, s) <= point < start(lengths, lengths[s] as int, s)
            + share(lengths[s]),
    decreases length, symbol,
{
    if symbol > 0 {
        lemma_start_step(lengths, length, symbol - 1);
        if point < start(lengths, length, symbol - 1) {
            lemma_covered(lengths, length, symbol - 1, point)
        } else {
            symbol - 1
        }
    } else if length == 1 {
        lemma_start_first(lengths);
        0
    } else {
        lemma_start_turn(lengths, length - 1);
        lemma_covered(lengths, length - 1, lengths.len() as int, point)
    }
}

/// The code word of one symbol.
pub open spec fn word(lengths: Seq<u32>, symbol: int) -> Seq<bool> {
    bits_of(code_value(lengths, symbol), lengths[symbol] as nat)
}

/// A code word fits its length.
pub proof fn lemma_code_fits(lengths: Seq<u32>, symbol: int)
    requires
        limited(lengths),
        kraft(lengths) <= pow2(64),
        0 <= symbol < lengths.len(),
        lengths[symbol] > 0,
    ensures
        code_value(lengths, symbol) < pow2(lengths[symbol] as nat),
        word(lengths, symbol).len() == lengths[symbol],
{
    let l = lengths[symbol] as nat;
    lemma_share_inside(lengths, symbol);
    lemma_pow2_adds(l, (64 - l) as nat);
    lemma_bits_of_len(code_value(lengths, symbol), l);
    assert(code_value(lengths, symbol) < pow2(l)) by (nonlinear_arith)
        requires
            code_value(lengths, symbol) * share(lengths[symbol]) + share(lengths[symbol]) <= pow2(
                l,
            ) * share(lengths[symbol]),
            share(lengths[symbol]) > 0,
    ;
}

/// A run of bits starts with a symbol's code word exactly when the run's value, as a point of
/// the unit, lies in that symbol's share.
pub proof fn lemma_starts_with(lengths: Seq<u32>, symbol: int, bits: Seq<bool>)
    requires
        limited(lengths),
        kraft(lengths) <= pow2(64),
        0 <= symbol < lengths.len(),
        0 < lengths[symbol] <= bits.len() <= 64,
    ensures
        bits.take(lengths[symbol] as int) == word(lengths, symbol) <==> start(
            lengths,
            lengths[symbol] as int,
            symbol,
        ) <= value_of(bits) * pow2((64 - bits.len()) as nat) < start(
            lengths,
            lengths[symbol] as int,
            symbol,
        ) + share(lengths[symbol]),
        bits.take(lengths[symbol] as int) == word(lengths, symbol) <==> value_of(bits) / pow2(
            (bits.len() - lengths[symbol]) as nat,
        ) == code_value(lengths, symbol),
{
    let l = lengths[symbol] as nat;
    let rest = (bits.len() - l) as nat;
    let pad = (64 - bits.len()) as nat;
    let head = bits.take(l as int);
    let tail = bits.skip(l as int);
    let v = value_of(bits);
    let h = value_of(head);
    let c = code_value(lengths, symbol);
    assert(bits =~= head + tail);
    lemma_value_of_concat(head, tail);
    lemma_bits_of_value(tail);
    lemma_bits_of_value(head);
    lemma_code_fits(lengths, symbol);
    lemma_share_inside(lengths, symbol);
    lemma_value_of_bits(c, l);
    lemma_pow2_pos(rest);
    lemma_pow2_pos(pad);
    lemma_fundamental_div_mod_converse(v as int, pow2(rest) as int, h as int, value_of(tail) as int);
    assert(v / pow2(rest) == h);
    if h == c {
        crate::entropy::bits::lemma_value_of_injective(head, word(lengths, symbol));
    }
    lemma_pow2_adds(rest, pad);
    let p = share(lengths[symbol]);
    assert(p == pow2(rest) * pow2(pad));
    let t = value_of(tail);
    // The point is h shares and less than one share more.
    let x = t * pow2(pad);
    assert(v * pow2(pad) == h * p + x) by (nonlinear_arith)
        requires
            v == h * pow2(rest) + t,
            p == pow2(rest) * pow2(pad),
            x == t * pow2(pad),
    ;
    assert(0 <= x < p) by (nonlinear_arith)
        requires
            0 <= t < pow2(rest),
            p == pow2(rest) * pow2(pad),
            pow2(pad) > 0,
            x == t * pow2(pad),
    ;
    if h < c {
        assert(h * p + p <= c * p) by (nonlinear_arith)
            requires
                h + 1 <= c,
                p >= 0,
        ;
    }
    if h > c {
        assert(c * p + p <= h * p) by (nonlinear_arith)
            requires
                c + 1 <= h,
                p >= 0,
        ;
    }
}

/// A complete code names a symbol for every run of bits at least as wide as its widest code.
pub proof fn lemma_names_every_run(lengths: Seq<u32>, bits: Seq<bool>) -> (s: int)
    requires
        complete(lengths),
        bits.len() <= 64,
        forall|s: int| 0 <= s < lengths.len() ==> #[trigger] lengths[s] <= bits.len(),
    ensures
        0 <= s < lengths.len(),
        0 < lengths[s] <= bits.len(),
        bits.take(lengths[s] as int) == word(lengths, s),
{
    let pad = (64 - bits.len()) as nat;
    let point = value_of(bits) * pow2(pad);
    lemma_bits_of_value(bits);
    lemma_pow2_adds(bits.len(), pad);
    lemma_pow2_pos(pad);
    assert(0 <= point < pow2(64)) by (nonlinear_arith)
        requires
            0 <= value_of(bits) < pow2(bits.len()),
            pow2(64) == pow2(bits.len()) * pow2(pad),
            pow2(pad) > 0,
            point == value_of(bits) * pow2(pad),
    ;
    lemma_start_all(lengths, LENGTH_LIMIT + 1);
    let s = lemma_covered(lengths, LENGTH_LIMIT + 1, 0, point as int);
    lemma_starts_with(lengths, s, bits);
    s
}

/// No code word is a prefix of another: two symbols whose code words both start one run of bits
/// are the same symbol.
pub proof fn lemma_prefix_free(lengths: Seq<u32>, a: int, b: int, bits: Seq<bool>)
    requires
        limited(lengths),
        kraft(lengths) <= pow2(64),
        0 <= a < lengths.len(),
        0 <= b < lengths.len(),
        0 < lengths[a] <= bits.len(),
        0 < lengths[b] <= bits.len(),
        bits.len() <= 64,
        bits.take(lengths[a] as int) == word(lengths, a),
        bits.take(lengths[b] as int) == word(lengths, b),
    ensures
        a == b,
{
    lemma_starts_with(lengths, a, bits);
    lemma_starts_with(lengths, b, bits);
    if a != b {
        lemma_shares_apart(lengths, a, b);
    }
}

/// Replacing one length moves the sum by the difference of the two shares.
pub proof fn lemma_kraft_update(lengths: Seq<u32>, at: int, length: u32)
    requires
        0 <= at < lengths.len(),
    ensures
        kraft(lengths.update(at, length)) + share(lengths[at]) == kraft(lengths) + share(length),
    decreases lengths.len(),
{
    let less = lengths.drop_last();
    let changed = lengths.update(at, length);
    if at < less.len() {
        lemma_kraft_update(less, at, length);
        assert(changed.drop_last() =~= less.update(at, length));
        assert(changed.last() == lengths.last());
    } else {
        assert(changed.drop_last() =~= less);
    }
}

/// No symbol takes a share of a list of zeros.
pub proof fn lemma_kraft_zero(lengths: Seq<u32>)
    requires
        forall|s: int| 0 <= s < lengths.len() ==> #[trigger] lengths[s] == 0,
    ensures
        kraft(lengths) == 0,
    decreases lengths.len(),
{
    if lengths.len() > 0 {
        let less = lengths.drop_last();
        assert forall|s: int| 0 <= s < less.len() implies #[trigger] less[s] == 0 by {
            assert(less[s] == lengths[s]);
        }
        lemma_kraft_zero(less);
        assert(lengths.last() == lengths[lengths.len() - 1]);
    }
}

/// One symbol's canonical code.
#[derive(Clone, Copy, Debug)]
pub struct Assigned {
    pub symbol: u16,
    pub value: u16,
    pub length: u32,
}

/// Whether an entry is a symbol's length and its canonical code.
pub open spec fn assigns(lengths: Seq<u32>, entry: Assigned) -> bool {
    &&& (entry.symbol as int) < lengths.len()
    &&& entry.length == lengths[entry.symbol as int] > 0
    &&& entry.value as nat == code_value(lengths, entry.symbol as int)
}

/// Whether a list assigns every symbol that has a length before `(length, symbol)`, in order
/// and once.
pub open spec fn assigned_before(
    lengths: Seq<u32>,
    list: Seq<Assigned>,
    length: int,
    symbol: int,
) -> bool {
    &&& forall|i: int|
        0 <= i < list.len() ==> assigns(lengths, #[trigger] list[i]) && precedes(
            list[i].length,
            list[i].symbol as int,
            length,
            symbol,
        )
    &&& forall|i: int, j: int|
        0 <= i < j < list.len() ==> precedes(
            (#[trigger] list[i]).length,
            list[i].symbol as int,
            (#[trigger] list[j]).length as int,
            list[j].symbol as int,
        )
    &&& forall|s: int|
        0 <= s < lengths.len() && precedes(#[trigger] lengths[s], s, length, symbol)
            ==> exists|i: int| 0 <= i < list.len() && (#[trigger] list[i]).symbol == s
}

/// The canonical assignment: symbols ordered by length and then by symbol, codes assigned in
/// increasing order with a shift at every length change.
///
/// Lengths whose shares pass the unit give two symbols one prefix, and are refused.
pub fn canonical(lengths: &[u32]) -> (assigned: Result<Vec<Assigned>, Error>)
    requires
        limited(lengths@),
        lengths@.len() <= 65_536,
    ensures
        kraft(lengths@) <= pow2(64) ==> (assigned matches Ok(list) && assigned_before(
            lengths@,
            list@,
            LENGTH_LIMIT + 1,
            0,
        )),
        kraft(lengths@) > pow2(64) ==> assigned == Err::<Vec<Assigned>, Error>(
            Error::CorruptData(Corruption::KraftSum),
        ),
{
    let mut out: Vec<Assigned> = Vec::new();
    let mut code: u32 = 0;
    let mut length: u32 = 1;
    proof {
        lemma_start_first(lengths@);
    }
    while length <= LENGTH_LIMIT
        invariant
            1 <= length <= LENGTH_LIMIT + 1,
            limited(lengths@),
            lengths@.len() <= 65_536,
            assigned_before(lengths@, out@, length as int, 0),
            start(lengths@, length as int, 0) == code * pow2((64 - length) as nat),
            start(lengths@, length as int, 0) <= pow2(64),
        decreases LENGTH_LIMIT + 1 - length,
    {
        let mut symbol: usize = 0;
        while symbol < lengths.len()
            invariant
                1 <= length <= LENGTH_LIMIT,
                limited(lengths@),
                lengths@.len() <= 65_536,
                symbol <= lengths@.len(),
                assigned_before(lengths@, out@, length as int, symbol as int),
                start(lengths@, length as int, symbol as int) == code * pow2((64 - length) as nat),
                start(lengths@, length as int, symbol as int) <= pow2(64),
            decreases lengths@.len() - symbol,
        {
            proof {
                lemma_start_step(lengths@, length as int, symbol as int);
                lemma_pow2_pos((64 - length) as nat);
                lemma_pow2_adds(length as nat, (64 - length) as nat);
                lemma2_to64();
            }
            let ghost p = pow2((64 - length) as nat);
            let ghost before = out@;
            if lengths[symbol] == length {
                let room: u32 = 1u32 << length;
                proof {
                    vstd::bits::lemma_u32_shl_is_mul(1, length);
                    lemma_pow2_strictly_increases(length as nat, 16);
                    if code >= room {
                        assert(code * p >= pow2(length as nat) * p) by (nonlinear_arith)
                            requires
                                code >= pow2(length as nat),
                                p > 0,
                        ;
                        lemma_start_monotone(
                            lengths@,
                            length as int,
                            symbol as int + 1,
                            LENGTH_LIMIT + 1,
                            0,
                        );
                        lemma_start_all(lengths@, LENGTH_LIMIT + 1);
                    } else {
                        lemma_div_by_multiple(code as int, p as int);
                        assert(code * p + p <= pow2(length as nat) * p) by (nonlinear_arith)
                            requires
                                code + 1 <= pow2(length as nat),
                                p > 0,
                        ;
                        assert((code + 1) * p == code * p + p) by (nonlinear_arith);
                    }
                }
                if code >= room {
                    return Err(Error::CorruptData(Corruption::KraftSum));
                }
                out.push(Assigned { symbol: symbol as u16, value: code as u16, length });
                code = code + 1;
            }
            proof {
                assert forall|s: int|
                    0 <= s < lengths@.len() && precedes(
                        #[trigger] lengths@[s],
                        s,
                        length as int,
                        symbol as int + 1,
                    ) implies exists|i: int|
                    0 <= i < out@.len() && (#[trigger] out@[i]).symbol == s by {
                    if precedes(lengths@[s], s, length as int, symbol as int) {
                        let i = choose|i: int|
                            0 <= i < before.len() && (#[trigger] before[i]).symbol == s;
                        assert(out@[i] == before[i]);
                    } else {
                        assert(s == symbol);
                        assert(out@[out@.len() - 1].symbol == s);
                    }
                }
            }
            symbol = symbol + 1;
        }
        proof {
            lemma_start_turn(lengths@, length as int);
            lemma_pow2_adds(1, (63 - length) as nat);
            lemma2_to64();
            let p = pow2((63 - length) as nat);
            assert(code * (2 * p) == (code * 2) * p) by (nonlinear_arith);
            // The code stays inside the length, so doubling it does not overflow.
            lemma_pow2_adds(length as nat, (64 - length) as nat);
            lemma_pow2_pos((64 - length) as nat);
            lemma_pow2_strictly_increases(length as nat, 16);
            assert(code <= pow2(length as nat)) by (nonlinear_arith)
                requires
                    code * pow2((64 - length) as nat) <= pow2(length as nat) * pow2(
                        (64 - length) as nat,
                    ),
                    pow2((64 - length) as nat) > 0,
            ;
            assert forall|s: int|
                0 <= s < lengths@.len() && precedes(#[trigger] lengths@[s], s, length as int + 1, 0)
                implies exists|i: int| 0 <= i < out@.len() && (#[trigger] out@[i]).symbol == s by {
                assert(precedes(lengths@[s], s, length as int, lengths@.len() as int));
            }
        }
        code = code * 2;
        length = length + 1;
    }
    proof {
        lemma_start_all(lengths@, LENGTH_LIMIT + 1);
    }
    Ok(out)
}

} // verus!
