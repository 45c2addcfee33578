//! Cutting the centroids into runs that fit one command buffer each.

use crate::utils::{ceil_div, groups_needed};
use vstd::prelude::*;

verus! {

/// A run of centroid indices, from `start` up to `end`.
#[derive(Debug, Clone, Copy, PartialEq, Eq, Structural)]
pub struct Batch {
    pub start: u32,
    pub end: u32,
}

/// The `index`-th run when `k` centroids are cut into runs of `chain`.
pub open spec fn batch_at(k: nat, chain: nat, index: int) -> Batch {
    Batch {
        start: (index * chain) as u32,
        end: if (index + 1) * chain < k {
            ((index + 1) * chain) as u32
        } else {
            k as u32
        },
    }
}

/// The runs that `k` centroids are cut into, `chain` to a run, the last one
/// possibly shorter.
pub open spec fn batches_of(k: nat, chain: nat) -> Seq<Batch> {
    Seq::new(groups_needed(k, chain), |index: int| batch_at(k, chain, index))
}

/// The runs are not empty, hold at most `chain` centroids, follow each other
/// without a gap, start at 0 and end at `k`.
pub proof fn batches_cover_all(k: u32, chain: u32)
    requires
        chain > 0,
    ensures
        forall|i: int|
            0 <= i < batches_of(k as nat, chain as nat).len() ==> {
                let batch = #[trigger] batches_of(k as nat, chain as nat)[i];
                &&& batch.start < batch.end
                &&& batch.end - batch.start <= chain
                &&& batch.start == i * chain
                &&& (i + 1 < batches_of(k as nat, chain as nat).len() ==> batch.end == (i + 1)
                    * chain)
                &&& (i + 1 == batches_of(k as nat, chain as nat).len() ==> batch.end == k)
            },
        k == 0 <==> batches_of(k as nat, chain as nat).len() == 0,
{
    let count = groups_needed(k as nat, chain as nat);
    assert(count * chain >= k && (k > 0 ==> (count - 1) * chain < k) && (k == 0 ==> count == 0)
        && (k > 0 ==> count > 0) && count <= k) by (nonlinear_arith)
        requires
            chain > 0,
            count == (k + chain - 1) / (chain as int),
    ;
    assert forall|i: int| 0 <= i < batches_of(k as nat, chain as nat).len() implies {
        let batch = #[trigger] batches_of(k as nat, chain as nat)[i];
        &&& batch.start < batch.end
        &&& batch.end - batch.start <= chain
        &&& batch.start == i * chain
        &&& (i + 1 < batches_of(k as nat, chain as nat).len() ==> batch.end == (i + 1) * chain)
        &&& (i + 1 == batches_of(k as nat, chain as nat).len() ==> batch.end == k)
    } by {
        assert(i * chain <= (count - 1) * chain && (i + 1) * chain == i * chain + chain && (i + 1
            < count ==> (i + 1) * chain <= (count - 1) * chain)) by (nonlinear_arith)
            requires
                0 <= i < count,
                chain > 0,
        ;
    }
}

/// Cuts the centroids `0..k` into runs of at most `chain`.
pub fn centroid_batches(k: u32, chain: u32) -> (batches: Vec<Batch>)
    requires
        chain > 0,
    ensures
        batches@ == batches_of(k as nat, chain as nat),
{
    let count: u32 = ceil_div(k, chain);
    let mut batches: Vec<Batch> = Vec::new();
    let mut index: u32 = 0;
    while index < count
        invariant
            chain > 0,
            count == groups_needed(k as nat, chain as nat),
            (count as nat) * (chain as nat) >= k,
            k > 0 ==> ((count as nat) - 1) * (chain as nat) < k,
            index <= count,
            count <= k,
            batches@.len() == index,
            forall|i: int| 0 <= i < index ==> #[trigger] batches@[i] == batch_at(
                k as nat,
                chain as nat,
                i,
            ),
        decreases count - index,
    {
        assert(0 <= index * chain <= (count - 1) * chain && (index + 1) * chain == index * chain
            + chain) by (nonlinear_arith)
            requires
                0 <= index < count,
                chain > 0,
        ;
        let start: u32 = index * chain;
        let end: u32 = if k - start > chain {
            start + chain
        } else {
            k
        };
        batches.push(Batch { start, end });
        index += 1;
    }
    assert(batches@ =~= batches_of(k as nat, chain as nat));
    batches
}

} // verus!
