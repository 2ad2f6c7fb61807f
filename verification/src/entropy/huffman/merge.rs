//! Owns package merge: the optimal code lengths of at most a limit, over sorted weights.
//!
//! Package merge selects the `2n - 2` cheapest coins from a set that holds, for every symbol and
//! every denomination down to `2^-limit`, one coin of that denomination and that symbol's
//! weight. The number of times a symbol appears in the selection is its code length.
//!
//! Level zero is the leaves. Level `k` is the leaves merged with the packages of level `k - 1`,
//! and a package is two neighbours of the level below. A tie goes to the leaf. Both the leaves
//! and the packages keep their order through the merge, so the selection at each level is a
//! prefix, and the leaves of a prefix are the lightest symbols.

use vstd::prelude::*;
use vstd::arithmetic::power2::{
    lemma2_to64, lemma_pow2_adds, lemma_pow2_pos, lemma_pow2_unfold, pow2,
};
use super::LENGTH_LIMIT;
use crate::entropy::ceil_log2;
use crate::format::Error;

verus! {

/// The weights as naturals.
pub open spec fn naturals(weights: Seq<u64>) -> Seq<nat> {
    Seq::new(weights.len(), |i: int| weights[i] as nat)
}

/// Whether a list never falls.
pub open spec fn ascending(list: Seq<nat>) -> bool {
    forall|i: int, j: int| 0 <= i <= j < list.len() ==> #[trigger] list[i] <= #[trigger] list[j]
}

/// The packages of a level: its neighbours, two by two.
pub open spec fn pairs(level: Seq<nat>) -> Seq<nat> {
    Seq::new(level.len() / 2, |j: int| level[2 * j] + level[2 * j + 1])
}

/// Whether a merge that has taken `i` leaves and `j` packages takes a leaf next.
pub open spec fn takes_leaf(leaves: Seq<nat>, packages: Seq<nat>, i: int, j: int) -> bool {
    i < leaves.len() && (j >= packages.len() || leaves[i] <= packages[j])
}

/// The leaves among the first `n` entries of a merge.
pub open spec fn leaves_in(leaves: Seq<nat>, packages: Seq<nat>, n: nat) -> nat
    decreases n,
{
    if n == 0 {
        0
    } else {
        let i = leaves_in(leaves, packages, (n - 1) as nat);
        if takes_leaf(leaves, packages, i as int, n - 1 - i) {
            i + 1
        } else {
            i
        }
    }
}

/// The weight of one entry of a merge.
pub open spec fn entry_at(leaves: Seq<nat>, packages: Seq<nat>, n: int) -> nat {
    let i = leaves_in(leaves, packages, n as nat);
    if takes_leaf(leaves, packages, i as int, n - i) {
        leaves[i as int]
    } else {
        packages[n - i]
    }
}

/// The leaves merged with the packages.
pub open spec fn merge(leaves: Seq<nat>, packages: Seq<nat>) -> Seq<nat> {
    Seq::new(leaves.len() + packages.len(), |n: int| entry_at(leaves, packages, n))
}

/// The entries of level `k`.
pub open spec fn level(leaves: Seq<nat>, k: nat) -> Seq<nat>
    decreases k,
{
    merge(
        leaves,
        if k == 0 {
            Seq::empty()
        } else {
            pairs(level(leaves, (k - 1) as nat))
        },
    )
}

/// The packages merged into level `k`.
pub open spec fn below(leaves: Seq<nat>, k: nat) -> Seq<nat> {
    if k == 0 {
        Seq::empty()
    } else {
        pairs(level(leaves, (k - 1) as nat))
    }
}

/// The leaves among the first `n` entries of level `k`.
pub open spec fn used(leaves: Seq<nat>, k: nat, n: nat) -> nat {
    leaves_in(leaves, below(leaves, k), n)
}

/// The times the leaf of rank `r` appears when the first `n` entries of level `k` are selected.
pub open spec fn depth(leaves: Seq<nat>, k: nat, n: nat, r: int) -> nat
    decreases k,
{
    (if r < used(leaves, k, n) {
        1nat
    } else {
        0
    }) + if k == 0 {
        0
    } else {
        depth(leaves, (k - 1) as nat, 2 * (n - used(leaves, k, n)) as nat, r)
    }
}

/// The code length of the leaf of rank `r`, at a limit.
pub open spec fn merged_length(leaves: Seq<nat>, limit: nat, r: int) -> nat {
    depth(leaves, (limit - 1) as nat, (2 * leaves.len() - 2) as nat, r)
}

/// Whether every package below a level is a weight 64 bits carry.
pub open spec fn packages_fit(leaves: Seq<nat>, levels: nat) -> bool {
    forall|k: nat, j: int|
        k < levels && 0 <= j < pairs(level(leaves, k)).len() ==> #[trigger] pairs(
            level(leaves, k),
        )[j] <= u64::MAX
}

pub proof fn lemma_leaves_bound(leaves: Seq<nat>, packages: Seq<nat>, n: nat)
    requires
        n <= leaves.len() + packages.len(),
    ensures
        leaves_in(leaves, packages, n) <= n,
        leaves_in(leaves, packages, n) <= leaves.len(),
        n - leaves_in(leaves, packages, n) <= packages.len(),
    decreases n,
{
    if n > 0 {
        lemma_leaves_bound(leaves, packages, (n - 1) as nat);
    }
}

/// A package that was taken was lighter than the leaf it passed.
proof fn lemma_package_first(leaves: Seq<nat>, packages: Seq<nat>, n: nat)
    requires
        ascending(leaves),
        n <= leaves.len() + packages.len(),
    ensures
        ({
            let i = leaves_in(leaves, packages, n);
            let j = n - i;
            j > 0 ==> i == leaves.len() || leaves[i as int] > packages[j - 1]
        }),
    decreases n,
{
    if n > 0 {
        lemma_package_first(leaves, packages, (n - 1) as nat);
        lemma_leaves_bound(leaves, packages, (n - 1) as nat);
        let i = leaves_in(leaves, packages, (n - 1) as nat) as int;
        if takes_leaf(leaves, packages, i, n - 1 - i) && i + 1 < leaves.len() {
            assert(leaves[i] <= leaves[i + 1]);
        }
    }
}

/// A leaf that was taken was no heavier than the package it passed.
proof fn lemma_leaf_first(leaves: Seq<nat>, packages: Seq<nat>, n: nat)
    requires
        ascending(packages),
        n <= leaves.len() + packages.len(),
    ensures
        ({
            let i = leaves_in(leaves, packages, n);
            let j = n - i;
            i > 0 ==> j == packages.len() || leaves[i - 1] <= packages[j]
        }),
    decreases n,
{
    if n > 0 {
        lemma_leaf_first(leaves, packages, (n - 1) as nat);
        lemma_leaves_bound(leaves, packages, (n - 1) as nat);
        let i = leaves_in(leaves, packages, (n - 1) as nat) as int;
        let j = n - 1 - i;
        if !takes_leaf(leaves, packages, i, j) && j + 1 < packages.len() {
            assert(packages[j] <= packages[j + 1]);
        }
    }
}

proof fn lemma_merge_steps(leaves: Seq<nat>, packages: Seq<nat>, a: int, b: int)
    requires
        ascending(leaves),
        ascending(packages),
        0 <= a <= b < leaves.len() + packages.len(),
    ensures
        entry_at(leaves, packages, a) <= entry_at(leaves, packages, b),
    decreases b - a,
{
    if a < b {
        lemma_merge_steps(leaves, packages, a, b - 1);
        lemma_leaves_bound(leaves, packages, (b - 1) as nat);
        lemma_leaves_bound(leaves, packages, b as nat);
        let i = leaves_in(leaves, packages, (b - 1) as nat) as int;
        let j = b - 1 - i;
        if takes_leaf(leaves, packages, i, j) {
            if i + 1 < leaves.len() {
                assert(leaves[i] <= leaves[i + 1]);
            }
        } else {
            if j + 1 < packages.len() {
                assert(packages[j] <= packages[j + 1]);
            }
        }
    }
}

proof fn lemma_pairs_ascend(list: Seq<nat>)
    requires
        ascending(list),
    ensures
        ascending(pairs(list)),
{
    assert forall|i: int, j: int| 0 <= i <= j < pairs(list).len() implies #[trigger] pairs(list)[i]
        <= #[trigger] pairs(list)[j] by {
        assert(list[2 * i] <= list[2 * j]);
        assert(list[2 * i + 1] <= list[2 * j + 1]);
    }
}

/// Every level of ascending leaves ascends.
proof fn lemma_levels_ascend(leaves: Seq<nat>, k: nat)
    requires
        ascending(leaves),
    ensures
        ascending(level(leaves, k)),
        ascending(below(leaves, k)),
    decreases k,
{
    if k > 0 {
        lemma_levels_ascend(leaves, (k - 1) as nat);
        lemma_pairs_ascend(level(leaves, (k - 1) as nat));
    }
    let packages = below(leaves, k);
    assert forall|i: int, j: int| 0 <= i <= j < level(leaves, k).len() implies #[trigger] level(
        leaves,
        k,
    )[i] <= #[trigger] level(leaves, k)[j] by {
        lemma_merge_steps(leaves, packages, i, j);
    }
}

/// A leaf among the first entries of a level is no heavier than the last of them.
proof fn lemma_leaf_under(leaves: Seq<nat>, packages: Seq<nat>, n: nat, r: int)
    requires
        ascending(leaves),
        ascending(packages),
        0 < n <= leaves.len() + packages.len(),
        0 <= r < leaves_in(leaves, packages, n),
    ensures
        leaves[r] <= entry_at(leaves, packages, n - 1),
    decreases n,
{
    lemma_leaves_bound(leaves, packages, n);
    let i = leaves_in(leaves, packages, (n - 1) as nat) as int;
    if takes_leaf(leaves, packages, i, n - 1 - i) {
        assert(leaves[r] <= leaves[i]);
    } else {
        assert(n > 1);
        lemma_leaf_under(leaves, packages, (n - 1) as nat, r);
        lemma_merge_steps(leaves, packages, n - 2, n - 1);
    }
}

/// Going down a level, a selection uses no more leaves than the level above it did.
proof fn lemma_used_falls(leaves: Seq<nat>, k: nat, n: nat)
    requires
        ascending(leaves),
        k > 0,
        n <= level(leaves, k).len(),
    ensures
        used(leaves, k, n) <= n,
        2 * (n - used(leaves, k, n)) <= level(leaves, (k - 1) as nat).len(),
        used(leaves, (k - 1) as nat, 2 * (n - used(leaves, k, n)) as nat) <= used(leaves, k, n),
{
    let packages = below(leaves, k);
    let down = level(leaves, (k - 1) as nat);
    let under = below(leaves, (k - 1) as nat);
    let i = used(leaves, k, n);
    let j = n - i;
    lemma_leaves_bound(leaves, packages, n);
    lemma_package_first(leaves, packages, n);
    lemma_levels_ascend(leaves, (k - 1) as nat);
    let m = 2 * j as nat;
    lemma_leaves_bound(leaves, under, m);
    let u = used(leaves, (k - 1) as nat, m);
    if u > i {
        assert(m > 0);
        lemma_leaf_under(leaves, under, m, i as int);
        assert(down[m - 1] == entry_at(leaves, under, m - 1));
        assert(packages[j - 1] == down[2 * (j - 1)] + down[2 * (j - 1) + 1]);
    }
}

/// A leaf that a selection does not use at its top is used nowhere below it.
proof fn lemma_depth_zero(leaves: Seq<nat>, k: nat, n: nat, r: int)
    requires
        ascending(leaves),
        n <= level(leaves, k).len(),
        r >= used(leaves, k, n),
    ensures
        depth(leaves, k, n, r) == 0,
    decreases k,
{
    if k > 0 {
        lemma_used_falls(leaves, k, n);
        lemma_depth_zero(leaves, (k - 1) as nat, 2 * (n - used(leaves, k, n)) as nat, r);
    }
}

proof fn lemma_depth_bound(leaves: Seq<nat>, k: nat, n: nat, r: int)
    ensures
        depth(leaves, k, n, r) <= k + 1,
    decreases k,
{
    if k > 0 {
        lemma_depth_bound(leaves, (k - 1) as nat, 2 * (n - used(leaves, k, n)) as nat, r);
    }
}

/// Level zero is the leaves themselves.
proof fn lemma_ground(leaves: Seq<nat>, n: nat)
    requires
        n <= leaves.len(),
    ensures
        used(leaves, 0, n) == n,
        level(leaves, 0) == leaves,
    decreases n,
{
    if n > 0 {
        lemma_ground(leaves, (n - 1) as nat);
    }
    assert forall|i: int| 0 <= i < leaves.len() implies #[trigger] level(leaves, 0)[i]
        == leaves[i] by {
        lemma_ground_count(leaves, i as nat);
    }
    assert(level(leaves, 0) =~= leaves);
}

proof fn lemma_ground_count(leaves: Seq<nat>, n: nat)
    requires
        n <= leaves.len(),
    ensures
        leaves_in(leaves, Seq::empty(), n) == n,
    decreases n,
{
    if n > 0 {
        lemma_ground_count(leaves, (n - 1) as nat);
    }
}

/// A level falls short of twice the leaves by less than a leaf's share of its denomination.
proof fn lemma_level_len(leaves: Seq<nat>, k: nat)
    ensures
        level(leaves, k).len() <= 2 * leaves.len(),
        (2 * leaves.len() - level(leaves, k).len()) * pow2(k) < leaves.len() + pow2(k),
    decreases k,
{
    lemma2_to64();
    if k > 0 {
        let less = (k - 1) as nat;
        lemma_level_len(leaves, less);
        lemma_pow2_unfold(k);
        lemma_pow2_pos(less);
        let d = 2 * leaves.len() - level(leaves, less).len();
        let e = 2 * leaves.len() - level(leaves, k).len();
        assert(2 * e <= d + 1);
        let p = pow2(less) as int;
        assert(e * (2 * p) <= (d + 1) * p) by (nonlinear_arith)
            requires
                2 * e <= d + 1,
                p > 0,
        ;
        assert((d + 1) * p == d * p + p) by (nonlinear_arith);
    } else {
        lemma_ground(leaves, 0);
        assert(leaves.len() * 1 == leaves.len());
    }
}

/// A limit that holds the symbols makes the top level wide enough for the selection.
proof fn lemma_top_is_wide(leaves: Seq<nat>, k: nat)
    requires
        leaves.len() <= pow2(k + 1),
    ensures
        2 * leaves.len() - 2 <= level(leaves, k).len(),
{
    lemma_level_len(leaves, k);
    lemma_pow2_unfold(k + 1);
    lemma_pow2_pos(k);
    let d = 2 * leaves.len() - level(leaves, k).len();
    if d >= 3 {
        assert(d * pow2(k) >= 3 * pow2(k)) by (nonlinear_arith)
            requires
                d >= 3,
                pow2(k) > 0,
        ;
    }
}

/// A selection of `2n - 2` entries or more uses every leaf.
proof fn lemma_every_leaf_used(leaves: Seq<nat>, k: nat, n: nat)
    requires
        ascending(leaves),
        leaves.len() >= 2,
        2 * leaves.len() - 2 <= n <= level(leaves, k).len(),
    ensures
        used(leaves, k, n) == leaves.len(),
    decreases k,
{
    lemma_leaves_bound(leaves, below(leaves, k), n);
    if k == 0 {
        lemma_ground(leaves, n);
    } else if used(leaves, k, n) < leaves.len() {
        lemma_used_falls(leaves, k, n);
        lemma_every_leaf_used(leaves, (k - 1) as nat, 2 * (n - used(leaves, k, n)) as nat);
    }
}

/// The shares of the first `count` ranks of a selection, in units of `2^-64`.
pub open spec fn shares(leaves: Seq<nat>, k: nat, n: nat, count: nat) -> nat
    decreases count,
{
    if count == 0 {
        0
    } else {
        shares(leaves, k, n, (count - 1) as nat) + pow2(
            (64 - depth(leaves, k, n, count - 1)) as nat,
        )
    }
}

/// Past the leaves a selection uses, every rank holds a whole unit.
proof fn lemma_shares_past(leaves: Seq<nat>, k: nat, n: nat, from: nat, count: nat)
    requires
        ascending(leaves),
        n <= level(leaves, k).len(),
        used(leaves, k, n) <= from <= count,
    ensures
        shares(leaves, k, n, count) == shares(leaves, k, n, from) + (count - from) * pow2(64),
    decreases count,
{
    if count > from {
        lemma_shares_past(leaves, k, n, from, (count - 1) as nat);
        lemma_depth_zero(leaves, k, n, count - 1);
        let a = count - 1 - from;
        assert((a + 1) * pow2(64) == a * pow2(64) + pow2(64)) by (nonlinear_arith);
    } else {
        assert(0 * pow2(64) == 0);
    }
}

/// Among the leaves a selection uses, each rank holds half of what it holds a level below.
proof fn lemma_shares_halve(leaves: Seq<nat>, k: nat, n: nat, count: nat)
    requires
        0 < k < 63,
        n <= level(leaves, k).len(),
        count <= used(leaves, k, n),
    ensures
        2 * shares(leaves, k, n, count) == shares(
            leaves,
            (k - 1) as nat,
            2 * (n - used(leaves, k, n)) as nat,
            count,
        ),
    decreases count,
{
    if count > 0 {
        lemma_shares_halve(leaves, k, n, (count - 1) as nat);
        let m = 2 * (n - used(leaves, k, n)) as nat;
        let r = count - 1;
        lemma_depth_bound(leaves, (k - 1) as nat, m, r);
        let d = depth(leaves, (k - 1) as nat, m, r);
        assert(depth(leaves, k, n, r) == d + 1);
        lemma_pow2_unfold((64 - d) as nat);
    }
}

/// The shares of a selection of `n` entries are what the leaves leave of it.
proof fn lemma_shares_sum(leaves: Seq<nat>, k: nat, n: nat)
    requires
        ascending(leaves),
        k < 63,
        n <= level(leaves, k).len(),
    ensures
        n <= 2 * leaves.len(),
        shares(leaves, k, n, leaves.len()) == (2 * leaves.len() - n) * pow2(63),
    decreases k,
{
    let count = leaves.len();
    let u = used(leaves, k, n);
    lemma_leaves_bound(leaves, below(leaves, k), n);
    lemma_level_len(leaves, k);
    lemma_pow2_unfold(64);
    lemma_shares_past(leaves, k, n, u, count);
    let x = pow2(63) as int;
    if k == 0 {
        lemma_ground(leaves, n);
        lemma_shares_ground(leaves, n, n);
        assert(n * x + (count - n) * (2 * x) == (2 * count - n) * x) by (nonlinear_arith);
    } else {
        let less = (k - 1) as nat;
        let m = 2 * (n - u) as nat;
        lemma_used_falls(leaves, k, n);
        lemma_shares_halve(leaves, k, n, u);
        lemma_shares_sum(leaves, less, m);
        lemma_shares_past(leaves, less, m, u, count);
        let half = shares(leaves, k, n, u) as int;
        assert(half + (count - u) * (2 * x) == (2 * count - n) * x) by (nonlinear_arith)
            requires
                2 * half + (count - u) * (2 * x) == (2 * count - m) * x,
                m == 2 * (n - u),
        ;
    }
}

proof fn lemma_shares_ground(leaves: Seq<nat>, n: nat, count: nat)
    requires
        count <= n <= leaves.len(),
    ensures
        shares(leaves, 0, n, count) == count * pow2(63),
    decreases count,
{
    lemma_ground(leaves, n);
    if count > 0 {
        lemma_shares_ground(leaves, n, (count - 1) as nat);
        assert(depth(leaves, 0, n, count - 1) == 1);
        let a = (count - 1) as nat;
        assert((a + 1) * pow2(63) == a * pow2(63) + pow2(63)) by (nonlinear_arith);
    } else {
        assert(0 * pow2(63) == 0);
    }
}

/// The lengths package merge gives two or more ascending weights, at a limit that holds them:
/// each is between one and the limit, and together they are exactly one complete prefix code.
pub proof fn lemma_merged_lengths(leaves: Seq<nat>, limit: nat)
    requires
        ascending(leaves),
        leaves.len() >= 2,
        0 < limit < 63,
        leaves.len() <= pow2(limit),
    ensures
        forall|r: int|
            0 <= r < leaves.len() ==> 1 <= #[trigger] merged_length(leaves, limit, r) <= limit,
        shares(
            leaves,
            (limit - 1) as nat,
            (2 * leaves.len() - 2) as nat,
            leaves.len(),
        ) == pow2(64),
{
    let k = (limit - 1) as nat;
    let n = (2 * leaves.len() - 2) as nat;
    lemma_top_is_wide(leaves, k);
    lemma_every_leaf_used(leaves, k, n);
    assert forall|r: int| 0 <= r < leaves.len() implies 1 <= #[trigger] merged_length(
        leaves,
        limit,
        r,
    ) <= limit by {
        lemma_depth_bound(leaves, k, n, r);
    }
    lemma_shares_sum(leaves, k, n);
    lemma_pow2_unfold(64);
}

/// The sum of the first `n` entries of a list.
pub open spec fn prefix(list: Seq<nat>, n: nat) -> nat
    decreases n,
{
    if n == 0 {
        0
    } else {
        prefix(list, (n - 1) as nat) + list[n - 1]
    }
}

/// What the weights cost under code lengths, in bits: each rank spends its length per count.
pub open spec fn spent(weights: Seq<nat>, lengths: Seq<nat>, count: nat) -> nat
    decreases count,
{
    if count == 0 {
        0
    } else {
        spent(weights, lengths, (count - 1) as nat) + weights[count - 1] * lengths[count - 1]
    }
}

/// The lengths a selection gives the leaves.
pub open spec fn depths(leaves: Seq<nat>, k: nat, n: nat) -> Seq<nat> {
    Seq::new(leaves.len(), |r: int| depth(leaves, k, n, r))
}

/// The leaves of a prefix of a merge, and its packages, are prefixes of both.
proof fn lemma_prefix_merge(leaves: Seq<nat>, packages: Seq<nat>, n: nat)
    requires
        n <= leaves.len() + packages.len(),
    ensures
        prefix(merge(leaves, packages), n) == prefix(leaves, leaves_in(leaves, packages, n))
            + prefix(packages, (n - leaves_in(leaves, packages, n)) as nat),
    decreases n,
{
    lemma_leaves_bound(leaves, packages, n);
    if n > 0 {
        lemma_prefix_merge(leaves, packages, (n - 1) as nat);
        lemma_leaves_bound(leaves, packages, (n - 1) as nat);
    }
}

proof fn lemma_prefix_pairs(list: Seq<nat>, j: nat)
    requires
        2 * j <= list.len(),
    ensures
        prefix(pairs(list), j) == prefix(list, 2 * j),
    decreases j,
{
    if j > 0 {
        lemma_prefix_pairs(list, (j - 1) as nat);
        reveal_with_fuel(prefix, 3);
    }
}

/// A stretch of an ascending list weighs at least its first entry, and at most its last, for
/// each entry of it.
proof fn lemma_stretch(list: Seq<nat>, a: nat, b: nat)
    requires
        ascending(list),
        a < b <= list.len(),
    ensures
        prefix(list, a) + (b - a) * list[a as int] <= prefix(list, b),
        prefix(list, b) <= prefix(list, a) + (b - a) * list[b - 1],
    decreases b,
{
    let x = list[a as int] as int;
    let z = list[b - 1] as int;
    if a + 1 < b {
        lemma_stretch(list, a, (b - 1) as nat);
        let y = list[b - 2] as int;
        let d = b - a - 1;
        assert(list[a as int] <= list[b - 1]);
        assert(list[b - 2] <= list[b - 1]);
        assert((d + 1) * x == d * x + x) by (nonlinear_arith);
        assert(d * y <= d * z) by (nonlinear_arith)
            requires
                y <= z,
                d >= 0,
        ;
        assert((d + 1) * z == d * z + z) by (nonlinear_arith);
    } else {
        assert(1 * x == x);
        assert(1 * z == z);
    }
}

/// A prefix of a merge is the lightest way to take that many leaves and packages.
proof fn lemma_merge_is_lightest(leaves: Seq<nat>, packages: Seq<nat>, n: nat, c: nat)
    requires
        ascending(leaves),
        ascending(packages),
        c <= n,
        c <= leaves.len(),
        n - c <= packages.len(),
    ensures
        prefix(merge(leaves, packages), n) <= prefix(leaves, c) + prefix(
            packages,
            (n - c) as nat,
        ),
{
    lemma_prefix_merge(leaves, packages, n);
    lemma_leaves_bound(leaves, packages, n);
    lemma_package_first(leaves, packages, n);
    lemma_leaf_first(leaves, packages, n);
    let i = leaves_in(leaves, packages, n);
    let j = (n - i) as nat;
    let d = (n - c) as nat;
    if c > i {
        lemma_stretch(leaves, i, c);
        lemma_stretch(packages, d, j);
        let x = leaves[i as int] as int;
        let y = packages[j - 1] as int;
        assert((j - d) * y <= (c - i) * x) by (nonlinear_arith)
            requires
                j - d == c - i,
                c - i >= 0,
                y <= x,
        ;
    } else if c < i {
        lemma_stretch(leaves, c, i);
        lemma_stretch(packages, j, d);
        let x = leaves[i - 1] as int;
        let y = packages[j as int] as int;
        assert((i - c) * x <= (d - j) * y) by (nonlinear_arith)
            requires
                d - j == i - c,
                i - c >= 0,
                x <= y,
        ;
    }
}

/// Lengths that are the sum of two lists cost the sum of what the two cost.
proof fn lemma_spent_sum(w: Seq<nat>, whole: Seq<nat>, a: Seq<nat>, b: Seq<nat>, count: nat)
    requires
        forall|r: int| 0 <= r < count ==> #[trigger] whole[r] == a[r] + b[r],
    ensures
        spent(w, whole, count) == spent(w, a, count) + spent(w, b, count),
    decreases count,
{
    if count > 0 {
        lemma_spent_sum(w, whole, a, b, (count - 1) as nat);
        let x = w[count - 1];
        let p = a[count - 1];
        let q = b[count - 1];
        assert(whole[count - 1] == p + q);
        assert(x * (p + q) == x * p + x * q) by (nonlinear_arith);
    }
}

/// One for each of the first `u` ranks, and nothing past them.
spec fn ones(count: nat, u: nat) -> Seq<nat> {
    Seq::new(
        count,
        |r: int|
            if r < u {
                1nat
            } else {
                0
            },
    )
}

proof fn lemma_spent_ones(w: Seq<nat>, len: nat, u: nat, count: nat)
    requires
        count <= len,
    ensures
        spent(w, ones(len, u), count) == prefix(
            w,
            if count <= u {
                count
            } else {
                u
            },
        ),
    decreases count,
{
    if count > 0 {
        lemma_spent_ones(w, len, u, (count - 1) as nat);
        let x = w[count - 1];
        assert(x * 1 == x);
        assert(x * 0 == 0);
    }
}

/// What a selection's lengths cost is what the entries it selects weigh.
proof fn lemma_selection_cost(leaves: Seq<nat>, k: nat, n: nat)
    requires
        ascending(leaves),
        n <= level(leaves, k).len(),
    ensures
        spent(leaves, depths(leaves, k, n), leaves.len()) == prefix(level(leaves, k), n),
    decreases k,
{
    let count = leaves.len();
    let u = used(leaves, k, n);
    let packages = below(leaves, k);
    lemma_leaves_bound(leaves, packages, n);
    lemma_prefix_merge(leaves, packages, n);
    let m = 2 * (n - u) as nat;
    let rest = if k == 0 {
        Seq::new(count, |r: int| 0nat)
    } else {
        depths(leaves, (k - 1) as nat, m)
    };
    assert forall|r: int| 0 <= r < count implies #[trigger] depths(leaves, k, n)[r] == ones(
        count,
        u,
    )[r] + rest[r] by {}
    lemma_spent_sum(leaves, depths(leaves, k, n), ones(count, u), rest, count);
    lemma_spent_ones(leaves, count, u, count);
    if k == 0 {
        lemma_spent_nothing(leaves, rest, count);
        lemma_ground(leaves, n);
    } else {
        lemma_used_falls(leaves, k, n);
        lemma_selection_cost(leaves, (k - 1) as nat, m);
        lemma_prefix_pairs(level(leaves, (k - 1) as nat), (n - u) as nat);
    }
}

proof fn lemma_spent_nothing(w: Seq<nat>, lengths: Seq<nat>, count: nat)
    requires
        forall|r: int| 0 <= r < count ==> #[trigger] lengths[r] == 0,
    ensures
        spent(w, lengths, count) == 0,
    decreases count,
{
    if count > 0 {
        lemma_spent_nothing(w, lengths, (count - 1) as nat);
        assert(lengths[count - 1] == 0);
        assert(w[count - 1] * 0 == 0);
    }
}

/// The value of the coins a list of lengths buys, where the widest coin is worth `2^k`.
spec fn bought(lengths: Seq<nat>, k: nat, count: nat) -> nat
    decreases count,
{
    if count == 0 {
        0
    } else {
        bought(lengths, k, (count - 1) as nat) + (pow2(k + 1) - pow2(
            (k + 1 - lengths[count - 1]) as nat,
        )) as nat
    }
}

/// One where a length is not zero.
spec fn touched(lengths: Seq<nat>) -> Seq<nat> {
    Seq::new(
        lengths.len(),
        |r: int|
            if lengths[r] > 0 {
                1nat
            } else {
                0
            },
    )
}

/// The ranks whose length is not zero.
spec fn touches(lengths: Seq<nat>, count: nat) -> nat
    decreases count,
{
    if count == 0 {
        0
    } else {
        touches(lengths, (count - 1) as nat) + if lengths[count - 1] > 0 {
            1nat
        } else {
            0
        }
    }
}

/// Every length one shorter, but for the zeros.
spec fn shortened(lengths: Seq<nat>) -> Seq<nat> {
    Seq::new(
        lengths.len(),
        |r: int|
            if lengths[r] > 0 {
                (lengths[r] - 1) as nat
            } else {
                0
            },
    )
}

/// Any ranks weigh at least as many of the lightest.
proof fn lemma_touched_weight(w: Seq<nat>, lengths: Seq<nat>, count: nat)
    requires
        ascending(w),
        count <= w.len(),
        lengths.len() == w.len(),
    ensures
        touches(lengths, count) <= count,
        prefix(w, touches(lengths, count)) <= spent(w, touched(lengths), count),
    decreases count,
{
    if count > 0 {
        lemma_touched_weight(w, lengths, (count - 1) as nat);
        let x = w[count - 1];
        assert(x * 1 == x);
        assert(x * 0 == 0);
        if lengths[count - 1] > 0 {
            let t = touches(lengths, count);
            assert(w[t - 1] <= w[count - 1]);
        }
    }
}

proof fn lemma_bought_split(lengths: Seq<nat>, k: nat, count: nat)
    requires
        count <= lengths.len(),
        k > 0,
        forall|r: int| 0 <= r < lengths.len() ==> #[trigger] lengths[r] <= k + 1,
    ensures
        bought(lengths, k, count) == touches(lengths, count) * pow2(k) + bought(
            shortened(lengths),
            (k - 1) as nat,
            count,
        ),
        bought(shortened(lengths), (k - 1) as nat, count) <= count * (pow2(k) - 1),
    decreases count,
{
    if count > 0 {
        lemma_bought_split(lengths, k, (count - 1) as nat);
        let a = lengths[count - 1];
        lemma_pow2_unfold(k + 1);
        lemma_pow2_pos((k + 1 - a) as nat);
        lemma_pow2_pos(k);
        let t = touches(lengths, (count - 1) as nat);
        let p = pow2(k) as int;
        let c = count - 1;
        assert((t + 1) * p == t * p + p) by (nonlinear_arith);
        assert((c + 1) * (p - 1) == c * (p - 1) + (p - 1)) by (nonlinear_arith);
        let s = shortened(lengths)[count - 1];
        lemma_pow2_pos((k - s) as nat);
        if s > 0 {
            vstd::arithmetic::power2::lemma_pow2_strictly_increases((k - s) as nat, k);
        }
        if a > 0 {
            vstd::arithmetic::power2::lemma_pow2_strictly_increases((k + 1 - a) as nat, k + 1);
            assert((k - 1 + 1) as nat == k);
            assert((k + 1 - a) as nat == (k - s) as nat);
        }
    } else {
        assert(0 * pow2(k) == 0);
        assert(0 * (pow2(k) - 1) == 0);
    }
}

proof fn lemma_bought_ground(lengths: Seq<nat>, count: nat)
    requires
        count <= lengths.len(),
        forall|r: int| 0 <= r < lengths.len() ==> #[trigger] lengths[r] <= 1,
    ensures
        bought(lengths, 0, count) == touches(lengths, count),
    decreases count,
{
    lemma2_to64();
    if count > 0 {
        lemma_bought_ground(lengths, (count - 1) as nat);
        assert(lengths[count - 1] <= 1);
    }
}

/// Coins worth `n` of the widest weigh at least what the first `n` entries of its level weigh.
proof fn lemma_no_lighter(leaves: Seq<nat>, lengths: Seq<nat>, k: nat, n: nat)
    requires
        ascending(leaves),
        lengths.len() == leaves.len(),
        forall|r: int| 0 <= r < lengths.len() ==> #[trigger] lengths[r] <= k + 1,
        n <= level(leaves, k).len(),
        n * pow2(k) <= bought(lengths, k, leaves.len()),
    ensures
        prefix(level(leaves, k), n) <= spent(leaves, lengths, leaves.len()),
    decreases k,
{
    let count = leaves.len();
    let packages = below(leaves, k);
    let c = touches(lengths, count);
    let short = shortened(lengths);
    lemma_levels_ascend(leaves, k);
    lemma_touched_weight(leaves, lengths, count);
    assert forall|r: int| 0 <= r < count implies #[trigger] lengths[r] == touched(lengths)[r]
        + short[r] by {}
    lemma_spent_sum(leaves, lengths, touched(lengths), short, count);
    lemma_pow2_pos(k);
    if c >= n {
        if c > n {
            lemma_stretch(leaves, n, c);
            assert(0 <= (c - n) * leaves[n as int]) by (nonlinear_arith)
                requires
                    c > n,
            ;
        }
        lemma_merge_is_lightest(leaves, packages, n, n);
    } else if k == 0 {
        lemma_bought_ground(lengths, count);
        lemma2_to64();
        assert(n * 1 == n);
    } else {
        let less = (k - 1) as nat;
        lemma_bought_split(lengths, k, count);
        let m = 2 * (n - c) as nat;
        let p = pow2(less) as int;
        lemma_pow2_unfold(k);
        lemma_pow2_pos(less);
        assert(m * p == n * pow2(k) - c * pow2(k)) by (nonlinear_arith)
            requires
                m == 2 * (n - c),
                pow2(k) == 2 * p,
        ;
        lemma_level_len(leaves, less);
        let len = level(leaves, less).len();
        if m > len {
            let d = 2 * count - len;
            assert((2 * count - m) * p <= (d - 1) * p) by (nonlinear_arith)
                requires
                    2 * count - m <= d - 1,
                    p > 0,
            ;
            assert((d - 1) * p == d * p - p) by (nonlinear_arith);
            assert((2 * count - m) * p == count * (2 * p) - m * p) by (nonlinear_arith);
            assert(count * (pow2(k) - 1) == count * pow2(k) - count) by (nonlinear_arith);
        }
        assert forall|r: int| 0 <= r < short.len() implies #[trigger] short[r] <= less + 1 by {
            assert(lengths[r] <= k + 1);
        }
        lemma_no_lighter(leaves, short, less, m);
        lemma_prefix_pairs(level(leaves, less), (n - c) as nat);
        lemma_merge_is_lightest(leaves, packages, n, c);
    }
}

/// The shares of a list of lengths, in units of `2^-limit`.
spec fn ratio(lengths: Seq<nat>, limit: nat, count: nat) -> nat
    decreases count,
{
    if count == 0 {
        0
    } else {
        ratio(lengths, limit, (count - 1) as nat) + pow2((limit - lengths[count - 1]) as nat)
    }
}

/// The Kraft sum of a list of lengths by rank, in units of `2^-64`.
pub open spec fn rank_kraft(lengths: Seq<nat>, count: nat) -> nat
    decreases count,
{
    if count == 0 {
        0
    } else {
        rank_kraft(lengths, (count - 1) as nat) + pow2((64 - lengths[count - 1]) as nat)
    }
}

proof fn lemma_ratio(lengths: Seq<nat>, limit: nat, count: nat)
    requires
        0 < limit <= 64,
        count <= lengths.len(),
        forall|r: int| 0 <= r < lengths.len() ==> 1 <= #[trigger] lengths[r] <= limit,
    ensures
        rank_kraft(lengths, count) == ratio(lengths, limit, count) * pow2((64 - limit) as nat),
        bought(lengths, (limit - 1) as nat, count) + ratio(lengths, limit, count) == count * pow2(
            limit,
        ),
    decreases count,
{
    let p = pow2((64 - limit) as nat);
    if count > 0 {
        lemma_ratio(lengths, limit, (count - 1) as nat);
        let a = lengths[count - 1];
        let q = pow2((limit - a) as nat);
        lemma_pow2_adds((limit - a) as nat, (64 - limit) as nat);
        let x = ratio(lengths, limit, (count - 1) as nat);
        assert((x + q) * p == x * p + q * p) by (nonlinear_arith);
        lemma_pow2_pos((limit - a) as nat);
        vstd::arithmetic::power2::lemma_pow2_strictly_increases((limit - a) as nat, limit);
        let c = count - 1;
        let l = pow2(limit) as int;
        assert((c + 1) * l == c * l + l) by (nonlinear_arith);
        assert((limit - 1) as nat + 1 == limit);
    } else {
        assert(0 * p == 0);
        assert(0 * pow2(limit) == 0);
    }
}

/// Package merge is optimal: no other lengths of at most `limit` bits that a prefix code can
/// have spend fewer bits over the same weights.
pub proof fn lemma_merge_is_optimal(leaves: Seq<nat>, limit: nat, other: Seq<nat>)
    requires
        ascending(leaves),
        leaves.len() >= 2,
        0 < limit < 63,
        leaves.len() <= pow2(limit),
        other.len() == leaves.len(),
        forall|r: int| 0 <= r < other.len() ==> 1 <= #[trigger] other[r] <= limit,
        rank_kraft(other, other.len()) <= pow2(64),
    ensures
        spent(
            leaves,
            Seq::new(leaves.len(), |r: int| merged_length(leaves, limit, r)),
            leaves.len(),
        ) <= spent(leaves, other, leaves.len()),
{
    let k = (limit - 1) as nat;
    let count = leaves.len();
    let n = (2 * count - 2) as nat;
    lemma_top_is_wide(leaves, k);
    lemma_selection_cost(leaves, k, n);
    assert(Seq::new(count, |r: int| merged_length(leaves, limit, r)) =~= depths(leaves, k, n));
    lemma_ratio(other, limit, count);
    lemma_pow2_adds(limit, (64 - limit) as nat);
    lemma_pow2_pos((64 - limit) as nat);
    let x = ratio(other, limit, count);
    let p = pow2((64 - limit) as nat);
    assert(x <= pow2(limit)) by (nonlinear_arith)
        requires
            x * p <= pow2(limit) * p,
            p > 0,
    ;
    lemma_pow2_unfold(limit);
    let q = pow2(k) as int;
    assert(n * q == count * (2 * q) - 2 * q) by (nonlinear_arith)
        requires
            n == 2 * count - 2,
    ;
    lemma_no_lighter(leaves, other, k, n);
}

/// The lengths of at most `limit` bits that package merge gives the weights, by rank.
///
/// Refuses fewer than two weights, a limit that cannot hold them, and weights whose packages a
/// 64-bit weight does not carry.
pub fn package_merge(weights: &Vec<u64>, limit: u32) -> (merged: Result<Vec<u32>, Error>)
    requires
        ascending(naturals(weights@)),
        weights@.len() <= 256,
        limit <= LENGTH_LIMIT,
    ensures
        weights@.len() >= 2 && limit > 0 && weights@.len() <= pow2(limit as nat) && packages_fit(
            naturals(weights@),
            (limit - 1) as nat,
        ) ==> (merged matches Ok(lengths) && lengths@.len() == weights@.len() && forall|r: int|
            0 <= r < weights@.len() ==> #[trigger] lengths@[r] == merged_length(
                naturals(weights@),
                limit as nat,
                r,
            )),
        !(weights@.len() >= 2 && limit > 0 && weights@.len() <= pow2(limit as nat) && packages_fit(
            naturals(weights@),
            (limit - 1) as nat,
        )) ==> merged == Err::<Vec<u32>, Error>(Error::InvalidParameter),
{
    let count: usize = weights.len();
    let least_limit: u32 = ceil_log2(count as u64);
    proof {
        if least_limit > limit {
            if least_limit - 1 > limit {
                vstd::arithmetic::power2::lemma_pow2_strictly_increases(
                    limit as nat,
                    (least_limit - 1) as nat,
                );
            }
        } else if least_limit < limit {
            vstd::arithmetic::power2::lemma_pow2_strictly_increases(
                least_limit as nat,
                limit as nat,
            );
        }
    }
    if count < 2 || limit == 0 || limit < least_limit {
        return Err(Error::InvalidParameter);
    }
    let ghost leaves = naturals(weights@);
    let mut kinds: Vec<Vec<bool>> = Vec::new();
    let mut current: Vec<u64> = Vec::new();
    let mut below_len: usize = 0;
    let mut k: u32 = 0;
    proof {
        assert(naturals(current@) =~= Seq::empty());
    }
    // The packages of the level last merged stand in `current`, two by two.
    while k < limit
        invariant
            k <= limit <= LENGTH_LIMIT,
            count == weights@.len(),
            2 <= count <= 256,
            leaves == naturals(weights@),
            kinds@.len() == k,
            current@.len() <= 512,
            below_len == current@.len() / 2,
            pairs(naturals(current@)) == below(leaves, k as nat),
            k > 0 ==> naturals(current@) == level(leaves, (k - 1) as nat),
            forall|e: int, j: int|
                0 <= e < k - 1 && 0 <= j < pairs(level(leaves, e as nat)).len() ==> #[trigger] pairs(
                    level(leaves, e as nat),
                )[j] <= u64::MAX,
            forall|e: int|
                0 <= e < k ==> (#[trigger] kinds@[e])@.len() == level(leaves, e as nat).len(),
            forall|e: int, n: int|
                0 <= e < k && 0 <= n < kinds@[e]@.len() ==> #[trigger] kinds@[e]@[n] == takes_leaf(
                    leaves,
                    below(leaves, e as nat),
                    used(leaves, e as nat, n as nat) as int,
                    n - used(leaves, e as nat, n as nat),
                ),
        decreases limit - k,
    {
        let ghost packages = below(leaves, k as nat);
        let mut merged_weights: Vec<u64> = Vec::new();
        let mut merged_kinds: Vec<bool> = Vec::new();
        let mut leaf: usize = 0;
        let mut pair: usize = 0;
        while leaf < count || pair < below_len
            invariant
                k < limit <= LENGTH_LIMIT,
                count == weights@.len(),
                count <= 256,
                leaf <= count,
                pair <= below_len,
                below_len == current@.len() / 2,
                current@.len() <= 512,
                leaves == naturals(weights@),
                packages == below(leaves, k as nat),
                packages == pairs(naturals(current@)),
                k > 0 ==> naturals(current@) == level(leaves, (k - 1) as nat),
                merged_weights@.len() == leaf + pair,
                merged_kinds@.len() == leaf + pair,
                leaf == leaves_in(leaves, packages, (leaf + pair) as nat),
                forall|n: int|
                    0 <= n < leaf + pair ==> #[trigger] merged_weights@[n] == entry_at(
                        leaves,
                        packages,
                        n,
                    ),
                forall|n: int|
                    0 <= n < leaf + pair ==> #[trigger] merged_kinds@[n] == takes_leaf(
                        leaves,
                        packages,
                        leaves_in(leaves, packages, n as nat) as int,
                        n - leaves_in(leaves, packages, n as nat),
                    ),
                forall|j: int| 0 <= j < pair ==> #[trigger] packages[j] <= u64::MAX,
            decreases count - leaf + below_len - pair,
        {
            let mut package: u64 = 0;
            if pair < below_len {
                let low: u64 = current[2 * pair];
                let high: u64 = current[2 * pair + 1];
                proof {
                    assert(packages[pair as int] == naturals(current@)[2 * pair as int]
                        + naturals(current@)[2 * pair as int + 1]);
                }
                match low.checked_add(high) {
                    Some(sum) => {
                        package = sum;
                    },
                    None => {
                        proof {
                            assert(packages.len() == below_len);
                            assert(k > 0) by {
                                if k == 0 {
                                    assert(below(leaves, 0).len() == 0);
                                }
                            }
                            assert(pairs(level(leaves, (k - 1) as nat))[pair as int] > u64::MAX);
                        }
                        return Err(Error::InvalidParameter);
                    },
                }
            }
            let ghost n = (leaf + pair) as int;
            if leaf < count && (pair >= below_len || weights[leaf] <= package) {
                proof {
                    assert(takes_leaf(leaves, packages, leaf as int, pair as int));
                }
                merged_weights.push(weights[leaf]);
                merged_kinds.push(true);
                leaf = leaf + 1;
            } else {
                proof {
                    assert(!takes_leaf(leaves, packages, leaf as int, pair as int));
                }
                merged_weights.push(package);
                merged_kinds.push(false);
                pair = pair + 1;
            }
            proof {
                assert((n + 1 - 1) as nat == n as nat);
            }
        }
        proof {
            assert(naturals(merged_weights@) =~= level(leaves, k as nat));
            lemma_level_len(leaves, k as nat);
            assert forall|e: int, j: int|
                0 <= e < k && 0 <= j < pairs(level(leaves, e as nat)).len() implies #[trigger] pairs(
                level(leaves, e as nat),
            )[j] <= u64::MAX by {
                if e == k - 1 {
                    assert(packages[j] <= u64::MAX);
                }
            }
        }
        let ghost kinds_before = kinds@;
        kinds.push(merged_kinds);
        current = merged_weights;
        below_len = current.len() / 2;
        k = k + 1;
        proof {
            assert(below(leaves, k as nat) == pairs(level(leaves, (k - 1) as nat)));
            assert forall|e: int, n: int|
                0 <= e < k && 0 <= n < kinds@[e]@.len() implies #[trigger] kinds@[e]@[n]
                == takes_leaf(
                leaves,
                below(leaves, e as nat),
                used(leaves, e as nat, n as nat) as int,
                n - used(leaves, e as nat, n as nat),
            ) by {
                if e < k - 1 {
                    assert(kinds@[e] == kinds_before[e]);
                }
            }
        }
    }
    proof {
        assert(packages_fit(leaves, (limit - 1) as nat)) by {
            assert forall|e: nat, j: int|
                e < (limit - 1) as nat && 0 <= j < pairs(level(leaves, e)).len() implies #[trigger] pairs(
                level(leaves, e),
            )[j] <= u64::MAX by {
                let i = e as int;
                assert(pairs(level(leaves, i as nat))[j] <= u64::MAX);
            }
        }
        lemma_top_is_wide(leaves, (limit - 1) as nat);
    }

    let mut lengths: Vec<u32> = Vec::new();
    let mut filled: usize = 0;
    while filled < count
        invariant
            filled <= count,
            lengths@.len() == filled,
            forall|r: int| 0 <= r < filled ==> #[trigger] lengths@[r] == 0,
        decreases count - filled,
    {
        lengths.push(0);
        filled = filled + 1;
    }
    let mut selected: usize = 2 * count - 2;
    let mut left: u32 = limit;
    // What the levels still to be read will add to a rank, the lengths do not hold yet.
    while left > 0
        invariant
            left <= limit <= LENGTH_LIMIT,
            count == weights@.len(),
            2 <= count <= 256,
            leaves == naturals(weights@),
            ascending(leaves),
            lengths@.len() == count,
            kinds@.len() == limit,
            left > 0 ==> selected <= level(leaves, (left - 1) as nat).len(),
            selected <= 1024,
            forall|e: int|
                0 <= e < limit ==> (#[trigger] kinds@[e])@.len() == level(leaves, e as nat).len(),
            forall|e: int, n: int|
                0 <= e < limit && 0 <= n < kinds@[e]@.len() ==> #[trigger] kinds@[e]@[n]
                    == takes_leaf(
                    leaves,
                    below(leaves, e as nat),
                    used(leaves, e as nat, n as nat) as int,
                    n - used(leaves, e as nat, n as nat),
                ),
            forall|r: int|
                0 <= r < count ==> (#[trigger] lengths@[r]) <= limit - left && lengths@[r] + (if left
                    > 0 {
                    depth(leaves, (left - 1) as nat, selected as nat, r)
                } else {
                    0
                }) == merged_length(leaves, limit as nat, r),
        decreases left,
    {
        let ghost e = (left - 1) as nat;
        let ghost packages = below(leaves, e);
        let kind: &Vec<bool> = &kinds[(left - 1) as usize];
        let mut taken: usize = 0;
        let mut at: usize = 0;
        while at < selected
            invariant
                at <= selected <= kind@.len(),
                taken <= at,
                taken == leaves_in(leaves, packages, at as nat),
                forall|n: int|
                    0 <= n < kind@.len() ==> #[trigger] kind@[n] == takes_leaf(
                        leaves,
                        packages,
                        leaves_in(leaves, packages, n as nat) as int,
                        n - leaves_in(leaves, packages, n as nat),
                    ),
            decreases selected - at,
        {
            if kind[at] {
                taken = taken + 1;
            }
            at = at + 1;
        }
        proof {
            lemma_leaves_bound(leaves, packages, selected as nat);
            lemma_level_len(leaves, e);
            if e > 0 {
                lemma_used_falls(leaves, e, selected as nat);
                lemma_level_len(leaves, (e - 1) as nat);
            } else {
                lemma_ground(leaves, selected as nat);
            }
        }
        let ghost before = lengths@;
        let mut rank: usize = 0;
        while rank < taken
            invariant
                rank <= taken <= count,
                lengths@.len() == count,
                before.len() == count,
                limit <= LENGTH_LIMIT,
                forall|r: int| 0 <= r < count ==> (#[trigger] before[r]) <= limit - left,
                forall|r: int|
                    0 <= r < count ==> #[trigger] lengths@[r] == before[r] + if r < rank {
                        1int
                    } else {
                        0
                    },
            decreases taken - rank,
        {
            let length: u32 = lengths[rank];
            lengths.set(rank, length + 1);
            rank = rank + 1;
        }
        selected = 2 * (selected - taken);
        left = left - 1;
    }
    Ok(lengths)
}

} // verus!
