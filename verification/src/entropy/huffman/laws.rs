//! Owns what the Huffman coder promises as a whole: that a description rebuilds the code that
//! wrote it, that a decode gives back what was written, that the built code is optimal, and that
//! the cost of a stream is known from its counts.

use vstd::prelude::*;
use vstd::arithmetic::power2::{
    lemma2_to64, lemma_pow2_pos, lemma_pow2_strictly_increases, lemma_pow2_unfold, pow2,
};
use super::canonical::{kraft, lemma_code_fits, limited, share};
use super::merge::{
    lemma_merge_is_optimal, lemma_merged_lengths, merged_length, rank_kraft, shares, spent,
};
use super::tokens::lemma_tokens_read_back;
use super::{
    buildable, built, coded, distinct, lemma_one_symbol, lemma_ranked, lemma_symbol_bits,
    lemma_word_len, limit_within, narrowest_limit, parse_description, place, rank_of, ranked, symbol_bits, total_bits, validated,
    weights_of, CodeShape, LENGTH_LIMIT,
};
use crate::entropy::bits::{
    lemma_bits_of_len, lemma_value_of_bits, lemma_window_split, value_of, window,
};
use crate::entropy::lemma_bit_width;
use crate::format::Error;

verus! {

/// A description rebuilds the code that wrote it: a parse where the description stands reads
/// exactly that code, ends where the description ends, and validation admits what it read.
pub proof fn law_description_rebuilds_the_code(
    shape: CodeShape,
    source: Seq<u8>,
    declared: nat,
    at: nat,
)
    requires
        shape.valid(),
        at + shape.description().len() <= declared,
        window(source, at, shape.description().len()) == shape.description(),
    ensures
        parse_description(source, declared, at, shape.lengths.len()) == Ok::<
            (CodeShape, nat),
            (Error, nat),
        >((shape, at + shape.description().len())),
        validated(shape.lengths.len(), shape) == Ok::<CodeShape, Error>(shape),
{
    let all = shape.description();
    let whole = window(source, at, all.len());
    lemma2_to64();
    assert(whole[0] == all[0]);
    reveal_with_fuel(value_of, 2);
    let flag = window(source, at, 1);
    assert(flag.drop_last() =~= Seq::empty());
    assert(value_of(flag) == if all[0] {
        1nat
    } else {
        0
    });
    match shape.single {
        Some(symbol) => {
            let width = symbol_bits(shape.lengths.len());
            lemma_symbol_bits(shape.lengths.len());
            lemma_bits_of_len(symbol as nat, width);
            lemma_value_of_bits(symbol as nat, width);
            lemma_pow2_pos(width);
            let field = window(source, at + 1, width);
            let bits = crate::entropy::bits::bits_of(symbol as nat, width);
            assert forall|i: int| 0 <= i < width implies field[i] == bits[i] by {
                assert(whole[1 + i] == all[1 + i]);
            }
            assert(field =~= bits);
            assert(shape.lengths =~= Seq::new(shape.lengths.len(), |s: int| 0u32));
        },
        None => {
            let rest = super::tokens::tokens(shape.lengths, 0, 0);
            let after = window(source, at + 1, rest.len());
            assert forall|i: int| 0 <= i < rest.len() implies after[i] == rest[i] by {
                assert(whole[1 + i] == all[1 + i]);
            }
            assert(after =~= rest);
            assert(shape.lengths.take(0) =~= Seq::empty());
            lemma_tokens_read_back(source, declared, at + 1, shape.lengths, 0, 0);
            lemma_complete_is_shared(shape.lengths);
        },
    }
}

/// One symbol alone never fills the unit.
proof fn lemma_complete_is_shared(lengths: Seq<u32>)
    requires
        limited(lengths),
        kraft(lengths) == pow2(64),
    ensures
        coded(lengths) >= 2,
{
    lemma_kraft_bound(lengths);
    lemma_pow2_unfold(64);
    lemma_pow2_pos(63);
    if coded(lengths) == 1 {
        assert(1 * pow2(63) == pow2(63));
    } else if coded(lengths) == 0 {
        assert(0 * pow2(63) == 0);
    }
}

proof fn lemma_kraft_bound(lengths: Seq<u32>)
    requires
        limited(lengths),
    ensures
        kraft(lengths) <= coded(lengths) * pow2(63),
    decreases lengths.len(),
{
    if lengths.len() > 0 {
        let less = lengths.drop_last();
        assert forall|s: int| 0 <= s < less.len() implies #[trigger] less[s] <= LENGTH_LIMIT by {
            assert(less[s] == lengths[s]);
        }
        lemma_kraft_bound(less);
        let l = lengths.last();
        assert(lengths[lengths.len() - 1] <= LENGTH_LIMIT);
        if l > 1 {
            lemma_pow2_strictly_increases((64 - l) as nat, 63);
        }
        let c = coded(less) as int;
        let p = pow2(63) as int;
        assert((c + 1) * p == c * p + p) by (nonlinear_arith);
    } else {
        assert(0 * pow2(63) == 0);
    }
}

/// A decode gives back what was written: where a stream's bits stand, the symbols decoded are
/// the symbols that spelled them.
pub proof fn law_decode_gives_back_the_symbols(
    shape: CodeShape,
    source: Seq<u8>,
    at: nat,
    symbols: Seq<u16>,
)
    requires
        shape.valid(),
        shape.carries_all(symbols),
        window(source, at, shape.spell(symbols).len()) == shape.spell(symbols),
    ensures
        shape.decoded(source, at, symbols.len()) == symbols,
    decreases symbols.len(),
{
    if symbols.len() > 0 {
        let less = symbols.drop_last();
        let last = symbols.last();
        let head = shape.spell(less);
        let word = shape.word(last);
        assert(shape.spell(symbols) == head + word);
        lemma_window_split(source, at, head.len(), word.len());
        assert(window(source, at, head.len()) =~= (head + word).take(head.len() as int));
        assert((head + word).take(head.len() as int) =~= head);
        let tail = window(source, at + head.len(), word.len());
        assert(tail =~= (head + word).skip(head.len() as int));
        assert((head + word).skip(head.len() as int) =~= word);
        assert forall|i: int| 0 <= i < less.len() implies shape.carries(#[trigger] less[i]) by {
            assert(less[i] == symbols[i]);
        }
        law_decode_gives_back_the_symbols(shape, source, at, less);
        assert(shape.carries(symbols[symbols.len() - 1]));
        assert(shape.reads(source, at + head.len(), last));
        lemma_one_symbol(shape, source, at + head.len(), last);
        assert(less.push(last) =~= symbols);
    } else {
        assert(symbols =~= Seq::empty());
    }
}

/// A reader's run decodes the symbols the bits spell and ends past them, where the bits end
/// inside a count of 64 bits.
pub proof fn lemma_run_decodes(shape: CodeShape, source: Seq<u8>, at: nat, count: nat)
    requires
        at + shape.spell(shape.decoded(source, at, count)).len() <= u64::MAX,
    ensures
        shape.run(source, at, count) == (
            shape.decoded(source, at, count),
            at + shape.spell(shape.decoded(source, at, count)).len(),
        ),
    decreases count,
{
    if count > 0 {
        let all = shape.decoded(source, at, count);
        assert(all.drop_last() =~= shape.decoded(source, at, (count - 1) as nat));
        lemma_run_decodes(shape, source, at, (count - 1) as nat);
    }
}

/// A coder gives back what it was given: a code built over counts describes itself so that a
/// parse and a validation rebuild it, and a reader over the bits it spells a stream in decodes
/// that stream and ends exactly past those bits. A code over one symbol spells it in no bits. The
/// symbols are those that occur, and the bits are a count a stream carries.
pub proof fn law_coder_round_trips(
    counts: Seq<u64>,
    alphabet_size: u32,
    limit: u32,
    described: Seq<u8>,
    payload: Seq<u8>,
    symbols: Seq<u16>,
)
    requires
        buildable(counts, alphabet_size, limit),
        forall|i: int|
            0 <= i < symbols.len() ==> (#[trigger] symbols[i] as int) < counts.len()
                && counts[symbols[i] as int] > 0,
        ({
            let shape = built(counts, limit as nat);
            &&& window(described, 0, shape.description().len()) == shape.description()
            &&& window(payload, 0, shape.spell(symbols).len()) == shape.spell(symbols)
            &&& shape.spell(symbols).len() <= u64::MAX
        }),
    ensures
        ({
            let shape = built(counts, limit as nat);
            let bits = shape.description().len();
            &&& shape.carries_all(symbols)
            &&& parse_description(described, bits, 0, alphabet_size as nat) == Ok::<
                (CodeShape, nat),
                (Error, nat),
            >((shape, bits))
            &&& validated(alphabet_size as nat, shape) == Ok::<CodeShape, Error>(shape)
            &&& shape.run(payload, 0, symbols.len()) == (symbols, shape.spell(symbols).len())
            &&& distinct(counts) == 1 ==> shape.spell(symbols).len() == 0
        }),
{
    let shape = built(counts, limit as nat);
    law_built_code_carries_what_occurs(counts, alphabet_size, limit);
    assert forall|i: int| 0 <= i < symbols.len() implies shape.carries(#[trigger] symbols[i]) by {
        assert(counts[symbols[i] as int] > 0);
    }
    law_description_rebuilds_the_code(shape, described, shape.description().len(), 0);
    law_decode_gives_back_the_symbols(shape, payload, 0, symbols);
    lemma_run_decodes(shape, payload, 0, symbols.len());
    if distinct(counts) == 1 {
        lemma_single_spells_nothing(shape, symbols);
    }
}

/// A code over one symbol spells a stream in no bits.
pub proof fn lemma_single_spells_nothing(shape: CodeShape, symbols: Seq<u16>)
    requires
        shape.single is Some,
    ensures
        shape.spell(symbols).len() == 0,
    decreases symbols.len(),
{
    if symbols.len() > 0 {
        lemma_single_spells_nothing(shape, symbols.drop_last());
    }
}

/// The sum of a function over a ranking.
spec fn rank_sum(list: Seq<(u64, u16)>, f: spec_fn((u64, u16)) -> nat) -> nat
    decreases list.len(),
{
    if list.len() == 0 {
        0
    } else {
        rank_sum(list.drop_last(), f) + f(list.last())
    }
}

/// The sum of a function over the symbols that occur.
spec fn symbol_sum(counts: Seq<u64>, f: spec_fn((u64, u16)) -> nat) -> nat
    decreases counts.len(),
{
    if counts.len() == 0 {
        0
    } else {
        symbol_sum(counts.drop_last(), f) + if counts.last() > 0 {
            f((counts.last(), (counts.len() - 1) as u16))
        } else {
            0
        }
    }
}

proof fn lemma_rank_sum_insert(
    list: Seq<(u64, u16)>,
    at: int,
    item: (u64, u16),
    f: spec_fn((u64, u16)) -> nat,
)
    requires
        0 <= at <= list.len(),
    ensures
        rank_sum(list.insert(at, item), f) == rank_sum(list, f) + f(item),
    decreases list.len(),
{
    let more = list.insert(at, item);
    if at == list.len() {
        assert(more.drop_last() =~= list);
    } else {
        lemma_rank_sum_insert(list.drop_last(), at, item, f);
        assert(more.drop_last() =~= list.drop_last().insert(at, item));
        assert(more.last() == list.last());
    }
}

proof fn lemma_rank_sum(counts: Seq<u64>, f: spec_fn((u64, u16)) -> nat)
    requires
        counts.len() <= 65_536,
    ensures
        rank_sum(ranked(counts), f) == symbol_sum(counts, f),
    decreases counts.len(),
{
    if counts.len() > 0 {
        let less = counts.drop_last();
        lemma_rank_sum(less, f);
        lemma_ranked(less);
        if counts.last() > 0 {
            super::lemma_ranks_insert(ranked(less), less, counts.last());
            lemma_rank_sum_insert(
                ranked(less),
                place(ranked(less), counts.last()) as int,
                (counts.last(), (counts.len() - 1) as u16),
                f,
            );
        }
    }
}

/// The lengths other codes give the ranks.
spec fn by_rank(list: Seq<(u64, u16)>, lengths: Seq<u32>) -> Seq<nat> {
    Seq::new(list.len(), |r: int| lengths[list[r].1 as int] as nat)
}

proof fn lemma_spent_by_rank(list: Seq<(u64, u16)>, lengths: Seq<u32>, n: nat)
    requires
        n <= list.len(),
    ensures
        spent(weights_of(list), by_rank(list, lengths), n) == rank_sum(
            list.take(n as int),
            |e: (u64, u16)| e.0 as nat * lengths[e.1 as int] as nat,
        ),
    decreases n,
{
    if n > 0 {
        lemma_spent_by_rank(list, lengths, (n - 1) as nat);
        assert(list.take(n as int).drop_last() =~= list.take(n - 1));
    }
}

proof fn lemma_kraft_by_rank(list: Seq<(u64, u16)>, lengths: Seq<u32>, n: nat)
    requires
        n <= list.len(),
        forall|r: int|
            0 <= r < list.len() ==> 1 <= lengths[(#[trigger] list[r]).1 as int] <= 64,
    ensures
        rank_kraft(by_rank(list, lengths), n) == rank_sum(
            list.take(n as int),
            |e: (u64, u16)| share(lengths[e.1 as int]),
        ),
    decreases n,
{
    if n > 0 {
        lemma_kraft_by_rank(list, lengths, (n - 1) as nat);
        assert(list.take(n as int).drop_last() =~= list.take(n - 1));
        assert(1 <= lengths[list[n - 1].1 as int]);
    }
}

proof fn lemma_total_is_symbol_sum(counts: Seq<u64>, lengths: Seq<u32>)
    requires
        counts.len() <= 65_536,
    ensures
        total_bits(counts, lengths) == symbol_sum(
            counts,
            |e: (u64, u16)| e.0 as nat * lengths[e.1 as int] as nat,
        ),
    decreases counts.len(),
{
    if counts.len() > 0 {
        lemma_total_is_symbol_sum(counts.drop_last(), lengths);
        let l = lengths[counts.len() - 1] as nat;
        assert(0 * l == 0);
    }
}

proof fn lemma_kraft_over_symbols(counts: Seq<u64>, lengths: Seq<u32>)
    requires
        counts.len() <= 65_536,
        counts.len() <= lengths.len(),
    ensures
        symbol_sum(counts, |e: (u64, u16)| share(lengths[e.1 as int])) <= kraft(
            lengths.take(counts.len() as int),
        ),
    decreases counts.len(),
{
    if counts.len() > 0 {
        lemma_kraft_over_symbols(counts.drop_last(), lengths);
        assert(lengths.take(counts.len() as int).drop_last() =~= lengths.take(counts.len() - 1));
    }
}

/// The built code is optimal: no other code lengths of at most the limit that a prefix code can
/// have, over the symbols that occur, spend fewer bits on the stream that was counted.
pub proof fn law_built_code_is_optimal(
    counts: Seq<u64>,
    alphabet_size: u32,
    limit: u32,
    other: Seq<u32>,
)
    requires
        buildable(counts, alphabet_size, limit),
        distinct(counts) > 1,
        other.len() == counts.len(),
        forall|s: int| 0 <= s < counts.len() && counts[s] > 0 ==> 1 <= #[trigger] other[s] <= limit,
        kraft(other) <= pow2(64),
    ensures
        total_bits(counts, built(counts, limit as nat).lengths) <= total_bits(counts, other),
{
    let present = ranked(counts);
    let leaves = weights_of(present);
    let mine = built(counts, limit as nat).lengths;
    lemma_ranked(counts);
    assert forall|i: int, j: int| 0 <= i <= j < leaves.len() implies #[trigger] leaves[i]
        <= #[trigger] leaves[j] by {
        if i < j {
            assert(present[i].0 <= present[j].0);
        }
    }
    assert(present.take(present.len() as int) =~= present);
    // The other lengths, by rank.
    let alt = by_rank(present, other);
    assert forall|r: int| 0 <= r < present.len() implies 1 <= other[(
    #[trigger] present[r]).1 as int] <= limit by {
        assert(counts[present[r].1 as int] > 0);
    }
    assert forall|r: int| 0 <= r < alt.len() implies 1 <= #[trigger] alt[r] <= limit as nat by {
        assert(1 <= other[present[r].1 as int]);
    }
    lemma_spent_by_rank(present, other, present.len());
    lemma_kraft_by_rank(present, other, present.len());
    lemma_rank_sum(counts, |e: (u64, u16)| e.0 as nat * other[e.1 as int] as nat);
    lemma_rank_sum(counts, |e: (u64, u16)| share(other[e.1 as int]));
    lemma_total_is_symbol_sum(counts, other);
    lemma_kraft_over_symbols(counts, other);
    assert(other.take(counts.len() as int) =~= other);
    // The built lengths, by rank.
    lemma_merged_lengths(leaves, limit as nat);
    lemma_spent_by_rank(present, mine, present.len());
    lemma_rank_sum(counts, |e: (u64, u16)| e.0 as nat * mine[e.1 as int] as nat);
    lemma_total_is_symbol_sum(counts, mine);
    let merged = Seq::new(leaves.len(), |r: int| merged_length(leaves, limit as nat, r));
    assert forall|r: int| 0 <= r < present.len() implies by_rank(present, mine)[r] == merged[r] by {
        let s = present[r].1 as int;
        let q = rank_of(present, s);
        assert(counts[s] > 0);
        assert(exists|i: int| 0 <= i < present.len() && (#[trigger] present[i]).1 == s);
        assert(0 <= q < present.len() && present[q].1 == s);
        assert(q == r) by {
            if q < r {
                assert(present[q].1 != present[r].1);
            } else if r < q {
                assert(present[r].1 != present[q].1);
            }
        }
        assert(1 <= merged_length(leaves, limit as nat, r) <= limit);
    }
    assert(by_rank(present, mine) =~= merged);
    lemma_merge_is_optimal(leaves, limit as nat, alt);
}

/// Where only the symbols that occur have a length, their shares are the whole Kraft sum.
proof fn lemma_kraft_of_symbols(counts: Seq<u64>, lengths: Seq<u32>)
    requires
        counts.len() <= 65_536,
        counts.len() <= lengths.len(),
        forall|s: int| 0 <= s < counts.len() && counts[s] == 0 ==> #[trigger] lengths[s] == 0,
    ensures
        symbol_sum(counts, |e: (u64, u16)| share(lengths[e.1 as int])) == kraft(
            lengths.take(counts.len() as int),
        ),
    decreases counts.len(),
{
    if counts.len() > 0 {
        let less = counts.drop_last();
        assert forall|s: int| 0 <= s < less.len() && less[s] == 0 implies #[trigger] lengths[s]
            == 0 by {
            assert(counts[s] == 0);
        }
        lemma_kraft_of_symbols(less, lengths);
        assert(lengths.take(counts.len() as int).drop_last() =~= lengths.take(counts.len() - 1));
    }
}

/// The shares of merged lengths, by rank, are the shares of the merge.
proof fn lemma_rank_kraft_is_shares(leaves: Seq<nat>, limit: nat, n: nat)
    requires
        n <= leaves.len(),
        0 < limit,
    ensures
        rank_kraft(Seq::new(leaves.len(), |r: int| merged_length(leaves, limit, r)), n) == shares(
            leaves,
            (limit - 1) as nat,
            (2 * leaves.len() - 2) as nat,
            n,
        ),
    decreases n,
{
    if n > 0 {
        lemma_rank_kraft_is_shares(leaves, limit, (n - 1) as nat);
    }
}

/// A built code is a valid code, and it carries exactly the symbols that occur.
pub proof fn law_built_code_carries_what_occurs(
    counts: Seq<u64>,
    alphabet_size: u32,
    limit: u32,
)
    requires
        buildable(counts, alphabet_size, limit),
    ensures
        built(counts, limit as nat).valid(),
        built(counts, limit as nat).lengths.len() == counts.len(),
        forall|s: u16|
            (s as int) < counts.len() ==> (#[trigger] built(counts, limit as nat).carries(s)
                <==> counts[s as int] > 0),
{
    let shape = built(counts, limit as nat);
    let present = ranked(counts);
    lemma_ranked(counts);
    if present.len() == 1 {
        assert forall|s: u16| (s as int) < counts.len() implies (#[trigger] shape.carries(s)
            <==> counts[s as int] > 0) by {
            if counts[s as int] > 0 {
                let r = choose|r: int| 0 <= r < present.len() && (#[trigger] present[r]).1 == s;
                assert(r == 0);
            } else {
                assert(present[0].0 == counts[present[0].1 as int]);
            }
        }
        assert(present[0].1 < counts.len());
    } else {
        let leaves = weights_of(present);
        let mine = shape.lengths;
        assert forall|i: int, j: int| 0 <= i <= j < leaves.len() implies #[trigger] leaves[i]
            <= #[trigger] leaves[j] by {
            if i < j {
                assert(present[i].0 <= present[j].0);
            }
        }
        lemma_merged_lengths(leaves, limit as nat);
        assert forall|s: int| 0 <= s < counts.len() implies {
            &&& #[trigger] mine[s] <= limit
            &&& mine[s] > 0 <==> counts[s] > 0
        } by {
            if counts[s] > 0 {
                let r = rank_of(present, s);
                assert(exists|r: int| 0 <= r < present.len() && (#[trigger] present[r]).1 == s);
                assert(1 <= merged_length(leaves, limit as nat, r) <= limit);
            }
        }
        let merged = Seq::new(leaves.len(), |r: int| merged_length(leaves, limit as nat, r));
        assert forall|r: int| 0 <= r < present.len() implies by_rank(present, mine)[r]
            == merged[r] by {
            let s = present[r].1 as int;
            let q = rank_of(present, s);
            assert(counts[s] > 0);
            assert(exists|i: int| 0 <= i < present.len() && (#[trigger] present[i]).1 == s);
            assert(0 <= q < present.len() && present[q].1 == s);
            assert(q == r) by {
                if q < r {
                    assert(present[q].1 != present[r].1);
                } else if r < q {
                    assert(present[r].1 != present[q].1);
                }
            }
            assert(1 <= merged_length(leaves, limit as nat, r) <= limit);
        }
        assert(by_rank(present, mine) =~= merged);
        assert forall|r: int| 0 <= r < present.len() implies 1 <= mine[(
        #[trigger] present[r]).1 as int] <= 64 by {
            assert(counts[present[r].1 as int] > 0);
            assert(mine[present[r].1 as int] > 0);
        }
        lemma_kraft_by_rank(present, mine, present.len());
        assert(present.take(present.len() as int) =~= present);
        lemma_rank_kraft_is_shares(leaves, limit as nat, leaves.len());
        lemma_rank_sum(counts, |e: (u64, u16)| share(mine[e.1 as int]));
        assert forall|s: int| 0 <= s < counts.len() && counts[s] == 0 implies #[trigger] mine[s]
            == 0 by {
            assert(!(mine[s] > 0));
        }
        lemma_kraft_of_symbols(counts, mine);
        assert(mine.take(counts.len() as int) =~= mine);
        assert(kraft(mine) == pow2(64));
        assert forall|s: int| 0 <= s < mine.len() implies #[trigger] mine[s] <= 15 by {}
    }
}

/// A stream spends at most fifteen bits a symbol.
pub proof fn lemma_spell_len(shape: CodeShape, symbols: Seq<u16>)
    requires
        shape.valid(),
        shape.carries_all(symbols),
    ensures
        shape.spell(symbols).len() <= 15 * symbols.len(),
    decreases symbols.len(),
{
    if symbols.len() > 0 {
        let less = symbols.drop_last();
        assert forall|i: int| 0 <= i < less.len() implies shape.carries(#[trigger] less[i]) by {
            assert(less[i] == symbols[i]);
        }
        lemma_spell_len(shape, less);
        assert(shape.carries(symbols[symbols.len() - 1]));
        lemma_word_len(shape, symbols.last());
    }
}

/// How often a symbol occurs in a stream.
pub open spec fn occurrences(symbols: Seq<u16>, symbol: int) -> nat
    decreases symbols.len(),
{
    if symbols.len() == 0 {
        0
    } else {
        occurrences(symbols.drop_last(), symbol) + if symbols.last() == symbol {
            1nat
        } else {
            0
        }
    }
}

/// The cost of every symbol's occurrences, over the first symbols of an alphabet.
spec fn occurrence_bits(symbols: Seq<u16>, lengths: Seq<u32>, n: nat) -> nat
    decreases n,
{
    if n == 0 {
        0
    } else {
        occurrence_bits(symbols, lengths, (n - 1) as nat) + occurrences(symbols, n - 1)
            * lengths[n - 1] as nat
    }
}

proof fn lemma_one_more(symbols: Seq<u16>, lengths: Seq<u32>, n: nat)
    requires
        symbols.len() > 0,
    ensures
        occurrence_bits(symbols, lengths, n) == occurrence_bits(symbols.drop_last(), lengths, n)
            + if (symbols.last() as nat) < n {
            lengths[symbols.last() as int] as nat
        } else {
            0
        },
    decreases n,
{
    if n > 0 {
        lemma_one_more(symbols, lengths, (n - 1) as nat);
        let o = occurrences(symbols.drop_last(), n - 1);
        let l = lengths[n - 1] as nat;
        assert((o + 1) * l == o * l + l) by (nonlinear_arith);
    }
}

proof fn lemma_no_symbols(lengths: Seq<u32>, n: nat)
    ensures
        occurrence_bits(Seq::empty(), lengths, n) == 0,
    decreases n,
{
    if n > 0 {
        lemma_no_symbols(lengths, (n - 1) as nat);
        assert(0 * lengths[n - 1] as nat == 0);
    }
}

proof fn lemma_spelled_bits(shape: CodeShape, symbols: Seq<u16>)
    requires
        shape.valid(),
        shape.carries_all(symbols),
    ensures
        shape.spell(symbols).len() == occurrence_bits(symbols, shape.lengths, shape.lengths.len()),
    decreases symbols.len(),
{
    if symbols.len() == 0 {
        assert(symbols =~= Seq::empty());
        lemma_no_symbols(shape.lengths, shape.lengths.len());
    } else {
        let less = symbols.drop_last();
        assert forall|i: int| 0 <= i < less.len() implies shape.carries(#[trigger] less[i]) by {
            assert(less[i] == symbols[i]);
        }
        lemma_spelled_bits(shape, less);
        lemma_one_more(symbols, shape.lengths, shape.lengths.len());
        assert(shape.carries(symbols[symbols.len() - 1]));
        if shape.single is None {
            lemma_code_fits(shape.lengths, symbols.last() as int);
        }
    }
}

proof fn lemma_counted_bits(symbols: Seq<u16>, counts: Seq<u64>, lengths: Seq<u32>)
    requires
        forall|s: int| 0 <= s < counts.len() ==> #[trigger] counts[s] == occurrences(symbols, s),
    ensures
        total_bits(counts, lengths) == occurrence_bits(symbols, lengths, counts.len()),
    decreases counts.len(),
{
    if counts.len() > 0 {
        let less = counts.drop_last();
        assert forall|s: int| 0 <= s < less.len() implies #[trigger] less[s] == occurrences(
            symbols,
            s,
        ) by {
            assert(less[s] == counts[s]);
        }
        lemma_counted_bits(symbols, less, lengths);
        assert(counts[counts.len() - 1] == occurrences(symbols, counts.len() - 1));
    }
}

/// The cost known from the counts is the cost of writing the stream: the total over a stream's
/// counts is the number of bits its symbols spell.
pub proof fn law_cost_is_what_is_spelled(shape: CodeShape, symbols: Seq<u16>, counts: Seq<u64>)
    requires
        shape.valid(),
        shape.carries_all(symbols),
        counts.len() == shape.lengths.len(),
        forall|s: int| 0 <= s < counts.len() ==> #[trigger] counts[s] == occurrences(symbols, s),
    ensures
        total_bits(counts, shape.lengths) == shape.spell(symbols).len(),
{
    lemma_spelled_bits(shape, symbols);
    lemma_counted_bits(symbols, counts, shape.lengths);
}

/// A budget takes the widest limit it holds. The limit found holds the symbols and its table, two
/// bytes for each slot, fits the budget; the next wider one is past 15 bits or past the budget.
/// None is found only where no limit that holds the symbols fits.
pub proof fn law_a_budget_takes_the_widest_limit(symbols: nat, budget: nat)
    requires
        2 <= symbols <= 32_768,
    ensures
        match limit_within(15, narrowest_limit(symbols), budget) {
            Some(limit) => {
                &&& limit <= 15
                &&& symbols <= pow2(limit)
                &&& 2 * pow2(limit) <= budget
                &&& limit < 15 ==> 2 * pow2(limit + 1) > budget
            },
            None => forall|limit: nat|
                symbols <= #[trigger] pow2(limit) ==> 2 * pow2(limit) > budget,
        },
{
    let narrowest = narrowest_limit(symbols);
    lemma2_to64();
    lemma_bit_width((symbols - 1) as nat);
    if narrowest > 15 {
        if narrowest > 16 {
            lemma_pow2_strictly_increases(15, (narrowest - 1) as nat);
        }
    }
    lemma_widest_limit(15, narrowest, budget);
    match limit_within(15, narrowest, budget) {
        Some(limit) => {
            if narrowest < limit {
                lemma_pow2_strictly_increases(narrowest, limit);
            }
        },
        None => {
            assert forall|limit: nat| symbols <= #[trigger] pow2(limit) implies 2 * pow2(limit)
                > budget by {
                if limit < narrowest {
                    if limit < narrowest - 1 {
                        lemma_pow2_strictly_increases(limit, (narrowest - 1) as nat);
                    }
                } else if limit > narrowest {
                    lemma_pow2_strictly_increases(narrowest, limit);
                }
            }
        },
    }
}

/// The limit found below one that is too wide is the widest.
proof fn lemma_widest_limit(limit: nat, narrowest: nat, budget: nat)
    requires
        narrowest <= limit,
    ensures
        match limit_within(limit, narrowest, budget) {
            Some(found) => narrowest <= found <= limit && 2 * pow2(found) <= budget && (found < limit
                ==> 2 * pow2(found + 1) > budget),
            None => 2 * pow2(narrowest) > budget,
        },
    decreases limit,
{
    if 2 * pow2(limit) > budget && limit > narrowest {
        lemma_widest_limit((limit - 1) as nat, narrowest, budget);
    }
}

} // verus!
