use vstd::prelude::*;

use crate::pulls::{every_arm_played, is_first_unplayed, PullCounts};
use crate::utils::{is_first_argmax, competes, select_argmax};

verus! {

/// Index of the arm that upper-confidence-bound selection pulls next.
///
/// `scores` holds, as `f64::to_bits` patterns, each arm's score
/// `reward_sum / count + sqrt(ln(total) / count)`. While some arm has never
/// been pulled, the first such arm is chosen and the scores are not read.
/// Afterwards the first arm of greatest score wins; when no score takes part
/// (every score a NaN), the last arm is chosen.
pub fn choose_arm(pulls: &PullCounts, scores: &[u64]) -> (r: usize)
    requires
        pulls.wf(),
        pulls@.len() > 0,
        scores@.len() == pulls@.len(),
    ensures
        r < pulls@.len(),
        !every_arm_played(pulls@) ==> is_first_unplayed(pulls@, r as int),
        every_arm_played(pulls@) && (exists|i: int| 0 <= i < scores@.len() && competes(#[trigger] scores@[i]))
            ==> is_first_argmax(scores@, r as int),
        every_arm_played(pulls@) && (forall|i: int| 0 <= i < scores@.len() ==> !competes(#[trigger] scores@[i]))
            ==> r == pulls@.len() - 1,
{
    if !pulls.all_played() {
        match pulls.next_unexplored() {
            Some(k) => k,
            None => pulls.len() - 1,
        }
    } else {
        match select_argmax(scores) {
            Some(k) => k,
            None => pulls.len() - 1,
        }
    }
}

/// Once every arm has been pulled, one more pull of any arm keeps it so: the
/// exploration phase of upper-confidence-bound selection never comes back.
pub proof fn lemma_played_never_reverts(before: Seq<u64>, arm: int)
    requires
        every_arm_played(before),
        0 <= arm < before.len(),
        before[arm] < u64::MAX,
    ensures
        every_arm_played(before.update(arm, (before[arm] + 1) as u64)),
{
    let after = before.update(arm, (before[arm] + 1) as u64);
    assert forall|i: int| 0 <= i < after.len() implies #[trigger] after[i] > 0 by {
        if i != arm {
            assert(after[i] == before[i]);
        }
    }
}

} // verus!
