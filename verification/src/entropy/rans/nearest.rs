//! Owns what a normalized table promises of its counts: the narrowest total that holds them, and
//! for each symbol the share of it nearest to how often the symbol occurs.

use vstd::arithmetic::div_mod::lemma_fundamental_div_mod;
use vstd::arithmetic::power2::*;
use vstd::prelude::*;

use super::scale::{
    largest_at, lemma_count_in_sum, lemma_entry_in_total, lemma_largest, lemma_normalized,
    lemma_scaled, lemma_spare, lemma_support_bound, lemma_total_update, normalized,
    same_support, scaled, scaled_all, settled, sum_of, support, taken,
};
use super::states::total;
use super::{built, built_log, log_rule, normalizable};
use crate::entropy::{ceil_log, lemma_ceil_log};

verus! {

/// Whether a table log is the narrowest from 5 to `most` whose total holds the symbols of a
/// stream, or `most` where none does, and holds the distinct ones whatever `most` is.
pub open spec fn narrowest_log(log: nat, symbols: nat, distinct: nat, most: nat) -> bool {
    &&& 5 <= log <= most
    &&& distinct <= pow2(log)
    &&& symbols <= pow2(log) || log == most
    &&& log > 5 ==> pow2((log - 1) as nat) < symbols || pow2((log - 1) as nat) < distinct
}

/// The table log is the narrowest that holds the stream: one slot or more for each of its symbols,
/// down to 32 slots and up to 4,096 by the rule, and up to 1,024 where a table is built.
pub proof fn law_the_table_log_is_the_narrowest(symbols: nat, distinct: nat)
    requires
        distinct <= 256,
        distinct <= symbols,
    ensures
        narrowest_log(log_rule(symbols, distinct), symbols, distinct, 12),
        narrowest_log(built_log(symbols, distinct), symbols, distinct, 10),
{
    lemma2_to64();
    lemma_ceil_log(symbols);
    lemma_ceil_log(distinct);
    let d = ceil_log(distinct);
    let c = ceil_log(symbols);
    if d > 8 {
        if d > 9 {
            lemma_pow2_strictly_increases(8, (d - 1) as nat);
        }
    }
    lemma_reaches(d, log_rule(symbols, distinct));
    lemma_reaches(d, built_log(symbols, distinct));
    lemma_reaches(c, log_rule(symbols, distinct));
    lemma_reaches(c, built_log(symbols, distinct));
    if c > 10 {
        lemma_reaches(9, (c - 1) as nat);
        lemma_reaches(11, (c - 1) as nat);
    }
}

/// A power of two is at most the ones with larger exponents.
proof fn lemma_reaches(low: nat, high: nat)
    ensures
        low <= high ==> pow2(low) <= pow2(high),
{
    if low < high {
        lemma_pow2_strictly_increases(low, high);
    }
}

/// Whether a frequency is the nearest whole share of a total, halves up, that a count has of a
/// sum: none where nothing was counted, and at least one where something was.
pub open spec fn nearest(freq: nat, count: nat, sum: nat, of: nat) -> bool {
    if count == 0 {
        freq == 0
    } else {
        &&& freq >= 1
        &&& count * of + sum / 2 < (freq + 1) * sum
        &&& freq > 1 ==> freq * sum <= count * of + sum / 2
    }
}

/// Whether every frequency of a list is the nearest share its count has.
pub open spec fn nearest_all(near: Seq<u32>, counts: Seq<u64>, of: nat) -> bool {
    &&& near.len() == counts.len()
    &&& forall|s: int|
        0 <= s < counts.len() ==> nearest(
            #[trigger] near[s] as nat,
            counts[s] as nat,
            sum_of(counts),
            of,
        )
}

/// Whether one symbol comes before another for a correction: it has the larger share, or an equal
/// one and the smaller number.
pub open spec fn comes_first(near: Seq<u32>, one: int, other: int) -> bool {
    near[one] > near[other] || near[one] == near[other] && one < other
}

/// Whether frequencies are shares that fell short of a total with the rest given to the one symbol
/// that comes before all others.
pub open spec fn filled_up(near: Seq<u32>, freq: Seq<u32>) -> bool {
    &&& freq.len() == near.len()
    &&& forall|s: int, t: int|
        0 <= s < near.len() && 0 <= t < near.len() && #[trigger] comes_first(near, t, s) ==> freq[s]
            == near[s]
    &&& forall|s: int| 0 <= s < near.len() ==> #[trigger] freq[s] >= near[s]
}

/// Whether frequencies are shares that passed a total, cut down in turn: no symbol gives up a slot
/// before every one that comes before it is down to a single slot, and none gives up its last.
pub open spec fn cut_down(near: Seq<u32>, freq: Seq<u32>) -> bool {
    &&& freq.len() == near.len()
    &&& forall|s: int| 0 <= s < near.len() ==> #[trigger] freq[s] <= near[s]
    &&& forall|s: int| 0 <= s < near.len() ==> (#[trigger] freq[s] > 0 <==> near[s] > 0)
    &&& forall|s: int, t: int|
        0 <= s < near.len() && 0 <= t < near.len() && freq[s] < near[s] && #[trigger] comes_first(
            near,
            t,
            s,
        ) ==> freq[t] == 1
}

/// The first of the largest frequencies comes before every other.
proof fn lemma_largest_comes_first(freq: Seq<u32>)
    requires
        freq.len() > 0,
    ensures
        0 <= largest_at(freq) < freq.len(),
        forall|t: int|
            0 <= t < freq.len() ==> !(#[trigger] comes_first(freq, t, largest_at(freq))),
    decreases freq.len(),
{
    lemma_largest(freq);
    if freq.len() > 1 {
        let less = freq.drop_last();
        lemma_largest_comes_first(less);
        lemma_largest(less);
        assert forall|t: int| 0 <= t < freq.len() implies !(#[trigger] comes_first(
            freq,
            t,
            largest_at(freq),
        )) by {
            assert(freq[t] <= freq[largest_at(freq)]);
            if t < less.len() {
                assert(less[t] == freq[t]);
                assert(!comes_first(less, t, largest_at(less)));
                assert(less[t] <= less[largest_at(less)]);
            }
        }
    }
}

/// Settling frequencies that pass the target cuts them down in turn.
proof fn lemma_cut_down(near: Seq<u32>, freq: Seq<u32>, counts: Seq<u64>, target: nat)
    requires
        same_support(freq, counts),
        support(counts) <= target <= total(freq),
        cut_down(near, freq),
        forall|s: int| 0 <= s < near.len() && #[trigger] freq[s] < near[s] ==> freq[s] == 1,
    ensures
        cut_down(near, settled(freq, target)),
    decreases total(freq),
{
    if total(freq) > target {
        lemma_spare(freq, counts, target);
        lemma_largest_comes_first(freq);
        lemma_largest(freq);
        let best = largest_at(freq);
        let kept = (freq[best] - taken(freq, target)) as u32;
        let less = freq.update(best, kept);
        lemma_total_update(freq, best, kept);
        assert(freq[best] == near[best]);
        assert forall|s: int, t: int|
            0 <= s < near.len() && 0 <= t < near.len() && less[s] < near[s]
                && #[trigger] comes_first(near, t, s) implies less[t] == 1 by {
            if s == best {
                assert(!comes_first(freq, t, best));
                assert(freq[t] <= freq[best]);
                if freq[t] == near[t] {
                    assert(comes_first(freq, t, best));
                }
            } else if t == best {
                assert(freq[s] < near[s]);
                assert(freq[t] == 1);
            }
        }
        assert(cut_down(near, less));
        assert forall|s: int| 0 <= s < counts.len() implies (#[trigger] less[s] > 0 <==> counts[s]
            > 0) by {
            assert(freq[s] > 0 <==> counts[s] > 0);
        }
        if total(less) > target {
            assert(kept == 1);
            lemma_cut_down(near, less, counts, target);
        } else {
            assert(total(less) == target);
            assert(settled(less, target) == less);
        }
    }
}

/// A count scaled is the nearest share.
proof fn lemma_scaled_is_nearest(count: nat, sum: nat, of: nat)
    requires
        0 < count <= sum,
        0 < of <= u32::MAX,
    ensures
        nearest(scaled(count, sum, of), count, sum, of),
        scaled(count, sum, of) <= of,
{
    lemma_scaled(count, sum, of);
    let top = count * of + sum / 2;
    let q = top / sum;
    lemma_fundamental_div_mod(top as int, sum as int);
    assert(top < (q + 1) * sum) by (nonlinear_arith)
        requires
            top == sum * q + top % sum,
            0 <= top % sum < sum,
    ;
    assert(q * sum <= top) by (nonlinear_arith)
        requires
            top == sum * q + top % sum,
            0 <= top % sum,
    ;
    if q == 0 {
        assert((0nat + 1) * sum <= (1nat + 1) * sum) by (nonlinear_arith);
    }
}

/// The frequencies of a built table are the nearest shares, corrected to fill the table: where the
/// nearest shares fall short of it, the symbol that comes first is given the rest and every other
/// keeps its share; where they pass it, the symbols give up slots in turn, each down to its last
/// one before the next gives up any. The total says how many, so no other table is these two things.
pub proof fn law_frequencies_are_the_nearest_shares(counts: Seq<u64>, alphabet_size: u32)
    requires
        normalizable(counts, alphabet_size),
    ensures
        ({
            let freq = built(counts).freq;
            let of = pow2(built(counts).log as nat);
            &&& total(freq) == of
            &&& exists|near: Seq<u32>| #[trigger]
                nearest_all(near, counts, of) && if total(near) <= of {
                    filled_up(near, freq)
                } else {
                    cut_down(near, freq)
                }
        }),
{
    let sum = sum_of(counts);
    let distinct = support(counts);
    lemma_support_bound(counts);
    lemma_support_in_sum(counts);
    law_the_table_log_is_the_narrowest(sum, distinct);
    let of = pow2(built_log(sum, distinct));
    lemma2_to64();
    lemma_reaches(built_log(sum, distinct), 10);
    lemma_pow2_pos(built_log(sum, distinct));
    lemma_normalized(counts, of);
    let near = scaled_all(counts, sum, of);
    let freq = normalized(counts, of);
    assert forall|s: int| 0 <= s < counts.len() implies nearest(
        #[trigger] near[s] as nat,
        counts[s] as nat,
        sum,
        of,
    ) && (near[s] > 0 <==> counts[s] > 0) by {
        if counts[s] > 0 {
            lemma_count_in_sum(counts, s);
            lemma_scaled_is_nearest(counts[s] as nat, sum, of);
        }
    }
    assert(nearest_all(near, counts, of));
    if total(near) > of {
        lemma_cut_down(near, near, counts, of);
    } else {
        assert(near.len() > 0);
        lemma_largest_comes_first(near);
        let best = largest_at(near);
        lemma_entry_in_total(near, best);
        assert forall|s: int, t: int|
            0 <= s < near.len() && 0 <= t < near.len() && #[trigger] comes_first(
                near,
                t,
                s,
            ) implies freq[s] == near[s] by {
            if s == best {
                assert(!comes_first(near, t, best));
            }
        }
        assert(filled_up(near, freq));
    }
}

/// Counts normalize: any over an alphabet of 1 to 256 symbols, of which one occurs, with at most
/// two to the 53 occurrences in all.
pub proof fn law_counts_normalize(counts: Seq<u64>, alphabet_size: u32)
    requires
        1 <= alphabet_size <= 256,
        counts.len() == alphabet_size,
        0 < sum_of(counts) <= 0x20_0000_0000_0000,
    ensures
        normalizable(counts, alphabet_size),
{
    let log = built_log(sum_of(counts), support(counts));
    lemma_support_bound(counts);
    lemma_support_in_sum(counts);
    law_the_table_log_is_the_narrowest(sum_of(counts), support(counts));
    lemma2_to64();
    lemma_reaches(log, 10);
    assert forall|s: int| 0 <= s < counts.len() implies #[trigger] counts[s] * pow2(log) + sum_of(
        counts,
    ) / 2 <= u64::MAX by {
        lemma_count_in_sum(counts, s);
        assert(counts[s] * pow2(log) <= 0x20_0000_0000_0000 * 1024) by (nonlinear_arith)
            requires
                0 <= counts[s] <= 0x20_0000_0000_0000,
                0 <= pow2(log) <= 1024,
        ;
    }
}

/// The symbols that occur are no more than the occurrences.
proof fn lemma_support_in_sum(counts: Seq<u64>)
    ensures
        support(counts) <= sum_of(counts),
    decreases counts.len(),
{
    if counts.len() > 0 {
        lemma_support_in_sum(counts.drop_last());
    }
}

} // verus!
