use vstd::prelude::*;

use crate::pulls::{sum, PullCounts};
use crate::utils::{
    float_gt, greater_than, is_first_argmax, is_infinite, is_infinite_bits, competes,
    select_argmax,
};

verus! {

/// The pull total that sets the annealing temperature: one more than the
/// number of pulls, so that a cold start does not take the logarithm of zero.
pub fn annealing_total(pulls: &PullCounts) -> (r: u64)
    requires
        pulls.wf(),
        sum(pulls@) < u64::MAX,
    ensures
        r == sum(pulls@) + 1,
{
    pulls.total() + 1
}

/// `k` is the first position whose cumulative probability exceeds the draw.
pub open spec fn is_first_above(cumulative: Seq<u64>, draw: u64, k: int) -> bool {
    &&& 0 <= k < cumulative.len()
    &&& float_gt(cumulative[k], draw)
    &&& forall|i: int| 0 <= i < k ==> !float_gt(#[trigger] cumulative[i], draw)
}

/// Index of the arm that annealed softmax selection returns.
///
/// All floats are given as `f64::to_bits` patterns: `values` holds each arm's
/// mean reward, `partition` the sum of the arms' weights, `cumulative` the
/// running sums of their probabilities and `draw` a uniform number in [0, 1).
/// When the partition has overflowed to infinity, selection is fully
/// annealed: the first arm of greatest mean wins (the last arm when every
/// mean is a NaN). Otherwise the first arm whose cumulative probability
/// exceeds the draw wins, and the last arm when rounding leaves none.
pub fn choose_arm(values: &[u64], partition: u64, cumulative: &[u64], draw: u64) -> (r: usize)
    requires
        values@.len() > 0,
        cumulative@.len() == values@.len(),
    ensures
        r < values@.len(),
        is_infinite_bits(partition) && (exists|i: int| 0 <= i < values@.len() && competes(#[trigger] values@[i]))
            ==> is_first_argmax(values@, r as int),
        is_infinite_bits(partition) && (forall|i: int| 0 <= i < values@.len() ==> !competes(#[trigger] values@[i]))
            ==> r == values@.len() - 1,
        !is_infinite_bits(partition) && (exists|i: int| 0 <= i < cumulative@.len() && float_gt(#[trigger] cumulative@[i], draw))
            ==> is_first_above(cumulative@, draw, r as int),
        !is_infinite_bits(partition) && (forall|i: int| 0 <= i < cumulative@.len() ==> !float_gt(#[trigger] cumulative@[i], draw))
            ==> r == values@.len() - 1,
{
    if is_infinite(partition) {
        match select_argmax(values) {
            Some(k) => k,
            None => values.len() - 1,
        }
    } else {
        let mut i: usize = 0;
        while i < cumulative.len()
            invariant
                i <= cumulative@.len(),
                cumulative@.len() == values@.len(),
                !is_infinite_bits(partition),
                forall|j: int| 0 <= j < i ==> !float_gt(#[trigger] cumulative@[j], draw),
            decreases cumulative@.len() - i,
        {
            if greater_than(cumulative[i], draw) {
                return i;
            }
            i = i + 1;
        }
        values.len() - 1
    }
}

} // verus!
