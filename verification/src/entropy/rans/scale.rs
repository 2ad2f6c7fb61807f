//! Owns the normalization: counts scaled to a power-of-two total that keeps every symbol.
//!
//! Integer arithmetic throughout, so the table is a function of the counts and the declared
//! rule and of nothing else. The residue is moved onto the largest frequencies in turn and
//! never drops one below a slot.

use vstd::prelude::*;
use vstd::arithmetic::div_mod::{lemma_div_is_ordered, lemma_fundamental_div_mod_converse};
use super::states::total;

verus! {

/// The sum of a list of counts.
pub open spec fn sum_of(counts: Seq<u64>) -> nat
    decreases counts.len(),
{
    if counts.len() == 0 {
        0
    } else {
        sum_of(counts.drop_last()) + counts.last() as nat
    }
}

/// The symbols that occur.
pub open spec fn support(counts: Seq<u64>) -> nat
    decreases counts.len(),
{
    if counts.len() == 0 {
        0
    } else {
        support(counts.drop_last()) + if counts.last() > 0 {
            1nat
        } else {
            0
        }
    }
}

/// One count scaled from a sum to a target, rounded to the nearest and never below one.
pub open spec fn scaled(count: nat, sum: nat, target: nat) -> nat {
    let nearest = (count * target + sum / 2) / sum;
    if nearest == 0 {
        1
    } else {
        nearest
    }
}

/// Every count that occurs, scaled.
pub open spec fn scaled_all(counts: Seq<u64>, sum: nat, target: nat) -> Seq<u32> {
    Seq::new(
        counts.len(),
        |s: int|
            if counts[s] == 0 {
                0u32
            } else {
                scaled(counts[s] as nat, sum, target) as u32
            },
    )
}

/// The symbol with the largest frequency, ties going to the smallest symbol.
pub open spec fn largest_at(freq: Seq<u32>) -> int
    decreases freq.len(),
{
    if freq.len() <= 1 {
        0
    } else {
        let best = largest_at(freq.drop_last());
        if freq.last() > freq[best] {
            freq.len() - 1
        } else {
            best
        }
    }
}

/// The largest frequency of a list is one of it, and none is larger.
pub proof fn lemma_largest(freq: Seq<u32>)
    requires
        freq.len() > 0,
    ensures
        0 <= largest_at(freq) < freq.len(),
        forall|s: int| 0 <= s < freq.len() ==> #[trigger] freq[s] <= freq[largest_at(freq)],
    decreases freq.len(),
{
    if freq.len() > 1 {
        let less = freq.drop_last();
        lemma_largest(less);
        assert forall|s: int| 0 <= s < freq.len() implies #[trigger] freq[s] <= freq[largest_at(
            freq,
        )] by {
            if s < less.len() {
                assert(less[s] == freq[s]);
            }
        }
    }
}

/// Replacing one frequency moves the total by the difference.
pub proof fn lemma_total_update(freq: Seq<u32>, at: int, value: u32)
    requires
        0 <= at < freq.len(),
    ensures
        total(freq.update(at, value)) + freq[at] == total(freq) + value,
    decreases freq.len(),
{
    let less = freq.drop_last();
    let changed = freq.update(at, value);
    if at < less.len() {
        lemma_total_update(less, at, value);
        assert(changed.drop_last() =~= less.update(at, value));
    } else {
        assert(changed.drop_last() =~= less);
    }
}

/// What is taken from the largest frequency when the total passes the target.
pub open spec fn taken(freq: Seq<u32>, target: nat) -> nat {
    let excess = (total(freq) - target) as nat;
    let spare = (freq[largest_at(freq)] - 1) as nat;
    if excess <= spare {
        excess
    } else {
        spare
    }
}

/// The frequencies with the residue moved onto the largest of them in turn.
pub open spec fn settled(freq: Seq<u32>, target: nat) -> Seq<u32>
    decreases total(freq),
{
    let best = largest_at(freq);
    if freq.len() == 0 {
        freq
    } else if total(freq) > target {
        if freq[best] <= 1 {
            freq
        } else {
            let less = freq.update(best, (freq[best] - taken(freq, target)) as u32);
            proof {
                lemma_largest(freq);
                lemma_total_update(freq, best, (freq[best] - taken(freq, target)) as u32);
            }
            settled(less, target)
        }
    } else if total(freq) < target {
        freq.update(best, (freq[best] + (target - total(freq))) as u32)
    } else {
        freq
    }
}

/// The normalized frequencies of a list of counts.
pub open spec fn normalized(counts: Seq<u64>, target: nat) -> Seq<u32> {
    settled(scaled_all(counts, sum_of(counts), target), target)
}

/// A count is part of its sum.
pub proof fn lemma_count_in_sum(counts: Seq<u64>, s: int)
    requires
        0 <= s < counts.len(),
    ensures
        counts[s] <= sum_of(counts),
    decreases counts.len(),
{
    if s < counts.len() - 1 {
        lemma_count_in_sum(counts.drop_last(), s);
    }
}

/// A prefix of the counts sums to no more than all of them.
pub proof fn lemma_sum_prefix(counts: Seq<u64>, n: int)
    requires
        0 <= n <= counts.len(),
    ensures
        sum_of(counts.take(n)) <= sum_of(counts),
        support(counts.take(n)) <= support(counts),
    decreases counts.len(),
{
    if n < counts.len() {
        lemma_sum_prefix(counts.drop_last(), n);
        assert(counts.drop_last().take(n) =~= counts.take(n));
    } else {
        assert(counts.take(n) =~= counts);
    }
}

pub proof fn lemma_support_bound(counts: Seq<u64>)
    ensures
        support(counts) <= counts.len(),
        sum_of(counts) > 0 ==> support(counts) > 0,
    decreases counts.len(),
{
    if counts.len() > 0 {
        lemma_support_bound(counts.drop_last());
    }
}

/// A count scaled to a target is between one and the target.
pub proof fn lemma_scaled(count: nat, sum: nat, target: nat)
    requires
        0 < count <= sum,
        target > 0,
    ensures
        1 <= scaled(count, sum, target) <= target,
{
    assert(count * target <= sum * target) by (nonlinear_arith)
        requires
            count <= sum,
    ;
    lemma_div_is_ordered(
        (count * target + sum / 2) as int,
        (sum * target + sum / 2) as int,
        sum as int,
    );
    assert(target * sum == sum * target) by (nonlinear_arith);
    lemma_fundamental_div_mod_converse(
        (sum * target + sum / 2) as int,
        sum as int,
        target as int,
        (sum / 2) as int,
    );
    vstd::arithmetic::div_mod::lemma_div_pos_is_pos(
        (count * target + sum / 2) as int,
        sum as int,
    );
}

/// Whether frequencies and counts name the same symbols.
pub open spec fn same_support(freq: Seq<u32>, counts: Seq<u64>) -> bool {
    freq.len() == counts.len() && forall|s: int|
        0 <= s < counts.len() ==> (#[trigger] freq[s] > 0 <==> counts[s] > 0)
}

/// Frequencies of at most one sum to no more than the symbols that occur.
proof fn lemma_total_of_ones(freq: Seq<u32>, counts: Seq<u64>)
    requires
        same_support(freq, counts),
        forall|s: int| 0 <= s < freq.len() ==> #[trigger] freq[s] <= 1,
    ensures
        total(freq) <= support(counts),
    decreases freq.len(),
{
    if freq.len() > 0 {
        let a = freq.drop_last();
        let b = counts.drop_last();
        assert forall|s: int| 0 <= s < b.len() implies (#[trigger] a[s] > 0 <==> b[s] > 0) by {
            assert(a[s] == freq[s] && b[s] == counts[s]);
        }
        assert forall|s: int| 0 <= s < a.len() implies #[trigger] a[s] <= 1 by {
            assert(a[s] == freq[s]);
        }
        lemma_total_of_ones(a, b);
        assert(freq[freq.len() - 1] <= 1);
    }
}

/// While the total passes a target that holds the symbols, the largest frequency has slots to
/// spare.
pub proof fn lemma_spare(freq: Seq<u32>, counts: Seq<u64>, target: nat)
    requires
        same_support(freq, counts),
        support(counts) <= target < total(freq),
    ensures
        freq.len() > 0,
        freq[largest_at(freq)] > 1,
{
    if freq.len() > 0 {
        lemma_largest(freq);
        if freq[largest_at(freq)] <= 1 {
            assert forall|s: int| 0 <= s < freq.len() implies #[trigger] freq[s] <= 1 by {
                assert(freq[s] <= freq[largest_at(freq)]);
            }
            lemma_total_of_ones(freq, counts);
        }
    }
}

/// Settling keeps the symbols and reaches the target.
pub proof fn lemma_settled(freq: Seq<u32>, counts: Seq<u64>, target: nat)
    requires
        same_support(freq, counts),
        support(counts) <= target <= u32::MAX,
        target > 0,
        total(freq) > 0,
    ensures
        same_support(settled(freq, target), counts),
        total(settled(freq, target)) == target,
    decreases total(freq),
{
    assert(freq.len() > 0);
    lemma_largest(freq);
    let best = largest_at(freq);
    lemma_some_positive(freq);
    if total(freq) > target {
        lemma_spare(freq, counts, target);
        let less = freq.update(best, (freq[best] - taken(freq, target)) as u32);
        lemma_total_update(freq, best, (freq[best] - taken(freq, target)) as u32);
        assert forall|s: int| 0 <= s < counts.len() implies (#[trigger] less[s] > 0 <==> counts[s]
            > 0) by {
            assert(freq[s] > 0 <==> counts[s] > 0);
        }
        lemma_settled(less, counts, target);
    } else if total(freq) < target {
        lemma_entry_in_total(freq, best);
        lemma_total_update(freq, best, (freq[best] + (target - total(freq))) as u32);
        let more = settled(freq, target);
        assert forall|s: int| 0 <= s < counts.len() implies (#[trigger] more[s] > 0 <==> counts[s]
            > 0) by {
            assert(freq[s] > 0 <==> counts[s] > 0);
        }
    }
}

/// A frequency is part of the total.
pub proof fn lemma_entry_in_total(freq: Seq<u32>, s: int)
    requires
        0 <= s < freq.len(),
    ensures
        freq[s] <= total(freq),
    decreases freq.len(),
{
    if s < freq.len() - 1 {
        lemma_entry_in_total(freq.drop_last(), s);
    }
}

/// The largest frequency of a total above zero is above zero.
proof fn lemma_some_positive(freq: Seq<u32>)
    requires
        freq.len() > 0,
        total(freq) > 0,
    ensures
        freq[largest_at(freq)] > 0,
{
    lemma_largest(freq);
    if freq[largest_at(freq)] == 0 {
        assert forall|s: int| 0 <= s < freq.len() implies #[trigger] freq[s] == 0 by {
            assert(freq[s] <= freq[largest_at(freq)]);
        }
        lemma_all_zero(freq);
    }
}

proof fn lemma_all_zero(freq: Seq<u32>)
    requires
        forall|s: int| 0 <= s < freq.len() ==> #[trigger] freq[s] == 0,
    ensures
        total(freq) == 0,
    decreases freq.len(),
{
    if freq.len() > 0 {
        let less = freq.drop_last();
        assert forall|s: int| 0 <= s < less.len() implies #[trigger] less[s] == 0 by {
            assert(less[s] == freq[s]);
        }
        lemma_all_zero(less);
        assert(freq[freq.len() - 1] == 0);
    }
}

/// Normalizing keeps every symbol that occurs, gives no other a slot, and fills the target.
pub proof fn lemma_normalized(counts: Seq<u64>, target: nat)
    requires
        sum_of(counts) > 0,
        support(counts) <= target <= u32::MAX,
        target > 0,
    ensures
        same_support(normalized(counts, target), counts),
        total(normalized(counts, target)) == target,
{
    let sum = sum_of(counts);
    let freq = scaled_all(counts, sum, target);
    assert forall|s: int| 0 <= s < counts.len() implies (#[trigger] freq[s] > 0 <==> counts[s] > 0) by {
        if counts[s] > 0 {
            lemma_count_in_sum(counts, s);
            lemma_scaled(counts[s] as nat, sum, target);
        }
    }
    lemma_support_bound(counts);
    let s = lemma_one_occurs(counts);
    assert(freq[s] > 0);
    lemma_entry_in_total(freq, s);
    lemma_settled(freq, counts, target);
}

proof fn lemma_one_occurs(counts: Seq<u64>) -> (s: int)
    requires
        sum_of(counts) > 0,
    ensures
        0 <= s < counts.len(),
        counts[s] > 0,
    decreases counts.len(),
{
    if counts.last() > 0 {
        counts.len() - 1
    } else {
        lemma_one_occurs(counts.drop_last())
    }
}

/// The symbol with the largest frequency and that frequency, ties going to the smallest symbol.
pub fn largest(freq: &Vec<u32>) -> (best: (usize, u32))
    requires
        freq@.len() > 0,
    ensures
        best.0 == largest_at(freq@),
        best.0 < freq@.len(),
        best.1 == freq@[best.0 as int],
{
    let mut symbol: usize = 0;
    let mut at: usize = 1;
    proof {
        assert(freq@.take(1).len() == 1);
    }
    while at < freq.len()
        invariant
            1 <= at <= freq@.len(),
            symbol < at,
            symbol == largest_at(freq@.take(at as int)),
        decreases freq@.len() - at,
    {
        proof {
            assert(freq@.take(at + 1).drop_last() =~= freq@.take(at as int));
        }
        if freq[at] > freq[symbol] {
            symbol = at;
        }
        at = at + 1;
    }
    proof {
        assert(freq@.take(at as int) =~= freq@);
    }
    (symbol, freq[symbol])
}

} // verus!
