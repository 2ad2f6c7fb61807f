//! Owns the order of a code: the rarer symbols take the longer codes, and the codes count up
//! through the symbols, the shorter first.

use vstd::arithmetic::power2::*;
use vstd::prelude::*;

use super::canonical::{
    code_value, lemma_share_inside, lemma_start_monotone, lemma_start_step, limited, precedes,
    share, start,
};
use super::merge::{ascending, depth, lemma_merged_lengths, merged_length, used};
use super::{buildable, built, lemma_ranked, place, rank_of, ranked, weights_of};

verus! {

/// Whether one symbol's code comes before another's: it is shorter, or as long and of the smaller
/// symbol.
pub open spec fn code_before(lengths: Seq<u32>, one: int, other: int) -> bool {
    lengths[one] < lengths[other] || lengths[one] == lengths[other] && one < other
}

/// Whether a symbol has a code.
pub open spec fn has_code(lengths: Seq<u32>, symbol: int) -> bool {
    0 <= symbol < lengths.len() && lengths[symbol] > 0
}

/// Positions that pass the same symbols stand behind the same shares.
proof fn lemma_start_same(lengths: Seq<u32>, l1: int, s1: int, l2: int, s2: int)
    requires
        forall|u: int|
            0 <= u < lengths.len() ==> precedes(#[trigger] lengths[u], u, l1, s1) == precedes(
                lengths[u],
                u,
                l2,
                s2,
            ),
    ensures
        start(lengths, l1, s1) == start(lengths, l2, s2),
    decreases lengths.len(),
{
    if lengths.len() > 0 {
        let less = lengths.drop_last();
        assert forall|u: int| 0 <= u < less.len() implies precedes(#[trigger] less[u], u, l1, s1)
            == precedes(less[u], u, l2, s2) by {
            assert(less[u] == lengths[u]);
        }
        lemma_start_same(less, l1, s1, l2, s2);
        assert(lengths.last() == lengths[lengths.len() - 1]);
    }
}

/// Nothing stands before a position no symbol precedes.
proof fn lemma_start_none(lengths: Seq<u32>, length: int, symbol: int)
    requires
        forall|u: int|
            0 <= u < lengths.len() ==> !precedes(#[trigger] lengths[u], u, length, symbol),
    ensures
        start(lengths, length, symbol) == 0,
    decreases lengths.len(),
{
    if lengths.len() > 0 {
        let less = lengths.drop_last();
        assert forall|u: int| 0 <= u < less.len() implies !precedes(
            #[trigger] less[u],
            u,
            length,
            symbol,
        ) by {
            assert(less[u] == lengths[u]);
        }
        lemma_start_none(less, length, symbol);
        assert(lengths.last() == lengths[lengths.len() - 1]);
    }
}

/// The codes count up. The first code is zero. Of two codes, the later is at least one more than
/// the earlier, widened with zeros to its length, and exactly that where no code comes between.
pub proof fn law_codes_count_up(lengths: Seq<u32>, s: int, t: int)
    requires
        limited(lengths),
        has_code(lengths, s),
        has_code(lengths, t),
        code_before(lengths, s, t),
    ensures
        ({
            let widened = (code_value(lengths, s) + 1) * pow2((lengths[t] - lengths[s]) as nat);
            &&& widened <= code_value(lengths, t)
            &&& (forall|u: int| #[trigger]
                has_code(lengths, u) ==> !(code_before(lengths, s, u) && code_before(lengths, u, t)))
                ==> widened == code_value(lengths, t)
            &&& (forall|u: int| #[trigger]
                has_code(lengths, u) ==> !code_before(lengths, u, s)) ==> code_value(lengths, s) == 0
        }),
{
    let ls = lengths[s] as int;
    let lt = lengths[t] as int;
    let d = (lt - ls) as nat;
    let a = code_value(lengths, s);
    let b = code_value(lengths, t);
    let p = share(lengths[t]);
    lemma_share_inside(lengths, s);
    lemma_share_inside(lengths, t);
    lemma_start_step(lengths, ls, s);
    lemma_start_monotone(lengths, ls, s + 1, lt, t);
    lemma_pow2_adds(d, (64 - lt) as nat);
    assert(share(lengths[s]) == pow2(d) * p);
    let w = (a + 1) * pow2(d);
    assert(w * p == a * (pow2(d) * p) + pow2(d) * p) by (nonlinear_arith)
        requires
            w == (a + 1) * pow2(d),
    ;
    assert(w * p <= b * p);
    assert(w <= b) by (nonlinear_arith)
        requires
            w * p <= b * p,
            p > 0,
    ;
    if forall|u: int| #[trigger]
        has_code(lengths, u) ==> !(code_before(lengths, s, u) && code_before(lengths, u, t)) {
        assert forall|u: int| 0 <= u < lengths.len() implies precedes(
            #[trigger] lengths[u],
            u,
            ls,
            s + 1,
        ) == precedes(lengths[u], u, lt, t) by {
            if lengths[u] > 0 {
                assert(has_code(lengths, u));
            }
        }
        lemma_start_same(lengths, ls, s + 1, lt, t);
        assert(w == b) by (nonlinear_arith)
            requires
                w * p == b * p,
                p > 0,
        ;
    }
    if forall|u: int| #[trigger] has_code(lengths, u) ==> !code_before(lengths, u, s) {
        assert forall|u: int| 0 <= u < lengths.len() implies !precedes(
            #[trigger] lengths[u],
            u,
            ls,
            s,
        ) by {
            if lengths[u] > 0 {
                assert(has_code(lengths, u));
            }
        }
        lemma_start_none(lengths, ls, s);
        assert(a == 0) by (nonlinear_arith)
            requires
                a * share(lengths[s]) == 0,
                share(lengths[s]) > 0,
        ;
    }
}

/// A leaf of a higher rank appears no more often.
proof fn lemma_depth_falls(leaves: Seq<nat>, k: nat, n: nat, a: int, b: int)
    requires
        a <= b,
    ensures
        depth(leaves, k, n, a) >= depth(leaves, k, n, b),
    decreases k,
{
    if k > 0 {
        lemma_depth_falls(leaves, (k - 1) as nat, 2 * (n - used(leaves, k, n)) as nat, a, b);
    }
}

/// Whether a ranking is in order: by count, and by symbol where counts are equal.
spec fn in_order(list: Seq<(u64, u16)>) -> bool {
    forall|a: int, b: int|
        0 <= a < b < list.len() ==> (#[trigger] list[a]).0 < (#[trigger] list[b]).0 || list[a].0
            == list[b].0 && list[a].1 < list[b].1
}

/// A weight goes past every entry that weighs no more, and in front of every other.
proof fn lemma_place(list: Seq<(u64, u16)>, weight: u64)
    requires
        in_order(list),
    ensures
        place(list, weight) <= list.len(),
        forall|r: int|
            0 <= r < list.len() ==> (r < place(list, weight) <==> (#[trigger] list[r]).0 <= weight),
    decreases list.len(),
{
    if list.len() > 0 {
        let less = list.drop_last();
        let n = list.len() - 1;
        assert forall|a: int, b: int| 0 <= a < b < less.len() implies (#[trigger] less[a]).0 < (
        #[trigger] less[b]).0 || less[a].0 == less[b].0 && less[a].1 < less[b].1 by {
            assert(less[a] == list[a] && less[b] == list[b]);
        }
        lemma_place(less, weight);
        assert forall|r: int| 0 <= r < list.len() implies (r < place(list, weight) <==> (
        #[trigger] list[r]).0 <= weight) by {
            if r < n {
                assert(less[r] == list[r]);
                assert(list[r].0 <= list[n].0);
            }
        }
    }
}

/// A ranking is in order.
proof fn lemma_ranked_in_order(counts: Seq<u64>)
    requires
        counts.len() <= 65_536,
    ensures
        in_order(ranked(counts)),
        forall|r: int|
            0 <= r < ranked(counts).len() ==> ((#[trigger] ranked(counts)[r]).1 as int)
                < counts.len(),
    decreases counts.len(),
{
    if counts.len() > 0 {
        let before = ranked(counts.drop_last());
        let count = counts.last();
        let symbol = (counts.len() - 1) as u16;
        lemma_ranked_in_order(counts.drop_last());
        if count > 0 {
            lemma_place(before, count);
            let p = place(before, count) as int;
            let list = before.insert(p, (count, symbol));
            assert forall|a: int, b: int| 0 <= a < b < list.len() implies (#[trigger] list[a]).0 < (
            #[trigger] list[b]).0 || list[a].0 == list[b].0 && list[a].1 < list[b].1 by {
                let x = if a < p { a } else { a - 1 };
                let y = if b < p { b } else { b - 1 };
                if a != p && b != p {
                    assert(list[a] == before[x] && list[b] == before[y]);
                } else if a == p {
                    assert(list[b] == before[y]);
                } else {
                    assert(list[a] == before[x]);
                    assert((before[x].1 as int) < counts.len() - 1);
                }
            }
            assert forall|r: int| 0 <= r < list.len() implies ((#[trigger] list[r]).1 as int)
                < counts.len() by {
                if r < p {
                    assert(list[r] == before[r]);
                } else if r > p {
                    assert(list[r] == before[r - 1]);
                }
            }
        }
    }
}

/// A rarer symbol has no shorter code, and of two symbols that occur as often, the smaller has no
/// shorter code than the larger.
pub proof fn law_rarer_symbols_have_no_shorter_codes(
    counts: Seq<u64>,
    alphabet_size: u32,
    limit: u32,
    s: int,
    t: int,
)
    requires
        buildable(counts, alphabet_size, limit),
        0 <= s < counts.len(),
        0 <= t < counts.len(),
        0 < counts[s],
        counts[s] < counts[t] || counts[s] == counts[t] && s < t,
    ensures
        built(counts, limit as nat).lengths[s] >= built(counts, limit as nat).lengths[t],
{
    let list = ranked(counts);
    lemma_ranked(counts);
    lemma_ranked_in_order(counts);
    if list.len() > 1 {
        let leaves = weights_of(list);
        let a = rank_of(list, s);
        let b = rank_of(list, t);
        assert(exists|r: int| 0 <= r < list.len() && (#[trigger] list[r]).1 == s);
        assert(exists|r: int| 0 <= r < list.len() && (#[trigger] list[r]).1 == t);
        assert(list[a].0 == counts[s] && list[b].0 == counts[t]);
        if b < a {
            assert(list[b].0 < list[a].0 || list[b].0 == list[a].0 && list[b].1 < list[a].1);
        }
        let n = (2 * leaves.len() - 2) as nat;
        lemma_depth_falls(leaves, (limit - 1) as nat, n, a, b);
        assert(ascending(leaves)) by {
            assert forall|i: int, j: int| 0 <= i <= j < leaves.len() implies #[trigger] leaves[i]
                <= #[trigger] leaves[j] by {
                if i < j {
                    assert(list[i].0 <= list[j].0);
                }
            }
        }
        lemma_merged_lengths(leaves, limit as nat);
        assert(merged_length(leaves, limit as nat, a) <= limit);
        assert(merged_length(leaves, limit as nat, b) <= limit);
    }
}

} // verus!
