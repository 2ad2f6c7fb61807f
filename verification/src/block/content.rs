//! Owns what an expanded block holds: the literals where the runs place them, and behind each a
//! repeat of the bytes its match names.

use vstd::prelude::*;

use super::expand::{
    copied, expansion, lemma_copied, lemma_steps_expanded, match_expanded, run_expanded,
    steps_expanded,
};
use crate::sequence::{decoded_total, run_total, Plan};

verus! {

/// Whether the literals of one step stand in a content, at the place of the step.
pub open spec fn literals_placed(plan: Plan, content: Seq<u8>, index: int) -> bool {
    let from = decoded_total(plan.steps.take(index));
    let taken = run_total(plan.steps.take(index));
    forall|j: int|
        0 <= j < plan.steps[index].run ==> #[trigger] content[from + j] == plan.literals[taken + j]
}

/// Whether the match of one step repeats the region behind it: every byte it stands for is the
/// byte its distance back, of the history and the content together.
pub open spec fn match_repeated(
    plan: Plan,
    history: Seq<u8>,
    content: Seq<u8>,
    index: int,
) -> bool {
    let region = history + content;
    let from = history.len() + decoded_total(plan.steps.take(index)) + plan.steps[index].run;
    plan.steps[index].matched matches Some(found) ==> forall|j: int|
        from <= j < from + found.length ==> #[trigger] region[j] == region[j - found.distance]
}

/// What one step writes stays in front of what it adds, and is its literals and its match.
proof fn lemma_step_places(plan: Plan, history: Seq<u8>, limit: nat, count: nat)
    requires
        count < plan.steps.len(),
        steps_expanded(plan, history, limit, count + 1) is Ok,
    ensures
        steps_expanded(plan, history, limit, count) is Ok,
        ({
            let before = (steps_expanded(plan, history, limit, count)->Ok_0).0;
            let after = (steps_expanded(plan, history, limit, count + 1)->Ok_0).0;
            &&& before.len() <= after.len()
            &&& after.take(before.len() as int) == before
            &&& literals_placed(plan, after, count as int)
            &&& match_repeated(plan, history, after, count as int)
            &&& decoded_total(plan.steps.take(count as int)) + plan.steps[count as int].run
                <= after.len()
        }),
{
    let (before, taken) = steps_expanded(plan, history, limit, count)->Ok_0;
    let (after, _) = steps_expanded(plan, history, limit, count + 1)->Ok_0;
    let step = plan.steps[count as int];
    lemma_steps_expanded(plan, history, limit, count);
    let placed = run_expanded(plan.literals, limit, before, taken, step.run as nat)->Ok_0;
    assert(placed.take(before.len() as int) =~= before);
    if let Some(found) = step.matched {
        let region = history + placed;
        let whole = copied(region, found.distance as nat, found.length as nat);
        assert(match_expanded(history, limit, placed, found) is Ok);
        lemma_copied(region, found.distance as nat, found.length as nat);
        assert(after == whole.skip(history.len() as int));
        assert forall|i: int| 0 <= i < region.len() implies #[trigger] whole[i] == region[i] by {
            assert(whole.take(region.len() as int)[i] == whole[i]);
        }
        assert forall|i: int| 0 <= i < placed.len() implies #[trigger] after[i] == placed[i] by {
            assert(whole[history.len() + i] == region[history.len() + i]);
        }
        assert(history + after =~= whole);
        assert(after.take(before.len() as int) =~= before);
    } else {
        assert(after == placed);
    }
}

/// What steps have written stays where it is.
proof fn lemma_steps_stay(plan: Plan, history: Seq<u8>, limit: nat, few: nat, many: nat)
    requires
        few <= many <= plan.steps.len(),
        steps_expanded(plan, history, limit, many) is Ok,
    ensures
        steps_expanded(plan, history, limit, few) is Ok,
        ({
            let before = (steps_expanded(plan, history, limit, few)->Ok_0).0;
            let after = (steps_expanded(plan, history, limit, many)->Ok_0).0;
            &&& before.len() <= after.len()
            &&& after.take(before.len() as int) == before
        }),
    decreases many - few,
{
    let after = (steps_expanded(plan, history, limit, many)->Ok_0).0;
    if few < many {
        lemma_step_places(plan, history, limit, (many - 1) as nat);
        lemma_steps_stay(plan, history, limit, few, (many - 1) as nat);
        let middle = (steps_expanded(plan, history, limit, (many - 1) as nat)->Ok_0).0;
        let before = (steps_expanded(plan, history, limit, few)->Ok_0).0;
        assert(after.take(before.len() as int) =~= middle.take(before.len() as int)) by {
            assert forall|i: int| 0 <= i < before.len() implies after[i] == middle[i] by {
                assert(after.take(middle.len() as int)[i] == after[i]);
            }
        }
    } else {
        assert(after.take(after.len() as int) =~= after);
    }
}

/// An expanded block holds what its plan says. The literals of each step stand, in order, right
/// behind the steps before it; behind them, every byte of the step's match is the byte its
/// distance back, of the history and the block itself.
#[verifier::spinoff_prover]
#[verifier::rlimit(40)]
pub proof fn law_an_expansion_places_and_repeats(
    plan: Plan,
    history: Seq<u8>,
    size: nat,
    index: int,
)
    requires
        expansion(plan, history, size) is Ok,
        0 <= index < plan.steps.len(),
    ensures
        ({
            let content = expansion(plan, history, size)->Ok_0;
            &&& content.len() == size
            &&& literals_placed(plan, content, index)
            &&& match_repeated(plan, history, content, index)
        }),
{
    let content = expansion(plan, history, size)->Ok_0;
    let count = plan.steps.len();
    lemma_steps_stay(plan, history, size, (index + 1) as nat, count);
    lemma_step_places(plan, history, size, index as nat);
    lemma_steps_expanded(plan, history, size, (index + 1) as nat);
    let part = (steps_expanded(plan, history, size, (index + 1) as nat)->Ok_0).0;
    assert(plan.steps.take(index + 1).drop_last() =~= plan.steps.take(index));
    assert forall|i: int| 0 <= i < part.len() implies #[trigger] content[i] == part[i] by {
        assert(content.take(part.len() as int)[i] == content[i]);
    }
    let from = decoded_total(plan.steps.take(index));
    let taken = run_total(plan.steps.take(index));
    let run = plan.steps[index].run;
    assert forall|j: int| 0 <= j < run implies #[trigger] content[from + j] == plan.literals[taken
        + j] by {
        assert(part[from + j] == plan.literals[taken + j]);
    }
    if let Some(found) = plan.steps[index].matched {
        let region = history + content;
        let short = history + part;
        let at = history.len() + from + run;
        assert(part.len() == from + run + found.length);
        lemma_reach(plan, history, size, index as nat);
        assert forall|j: int| at <= j < at + found.length implies #[trigger] region[j] == region[j
            - found.distance] by {
            assert(short[j] == short[j - found.distance]);
            assert(region[j] == short[j]);
            assert(region[j - found.distance] == short[j - found.distance]);
        }
    }
}

/// A match that was expanded reaches no further back than the region.
proof fn lemma_reach(plan: Plan, history: Seq<u8>, limit: nat, count: nat)
    requires
        count < plan.steps.len(),
        steps_expanded(plan, history, limit, count + 1) is Ok,
    ensures
        plan.steps[count as int].matched matches Some(found) ==> 1 <= found.distance
            <= history.len() + decoded_total(plan.steps.take(count as int))
            + plan.steps[count as int].run,
{
    lemma_steps_expanded(plan, history, limit, count);
}

} // verus!
