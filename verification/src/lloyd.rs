//! Host side of the Lloyd iterations: buffer sizes, the kernels to run for
//! each centroid, the convergence vector, and the loop that decides when to
//! stop.

use crate::batches::{batches_of, centroid_batches, Batch};
use crate::bytes::{is_native_layout, words_of_bytes};
use crate::error::Error;
use crate::options::ColorSpace;
use crate::utils::{ceil_div, grid_size, groups_needed};
use vstd::prelude::*;

verus! {

/// Invocations in one workgroup of the reduction.
pub const WORKGROUP_SIZE: u32 = 256;

/// Pixels that one invocation of the reduction adds up.
pub const N_SEQ: u32 = 20;

/// Centroids updated in one compute pass at most.
pub const MAX_OBS_CHAIN: u32 = 64;

/// Iterations after which the loop stops whatever the centroids do.
pub const MAX_ITERATION: u32 = 128;

/// The convergence vector is read back every so many iterations.
pub const MAX_ITERATION_BEFORE_CONVERGENCE_CHECK: u32 = 8;

/// The entry points of the update kernels.
#[derive(Debug, Clone, Copy, PartialEq, Eq, Structural)]
pub enum UpdateKernel {
    /// Adds up the pixels assigned to one centroid.
    Reduce,
    /// Moves the centroid to their mean and flags whether it has settled.
    Pick,
}

/// One kernel launch: the entry point and the workgroups on each axis.
#[derive(Debug, Clone, Copy, PartialEq, Eq)]
pub struct UpdateDispatch {
    pub kernel: UpdateKernel,
    pub groups: (u32, u32, u32),
}

/// Sizes that the update of the centroids needs.
#[derive(Debug, Clone, Copy, PartialEq, Eq)]
pub struct UpdatePlan {
    /// Centroids to update.
    pub k: u32,
    /// Workgroups of the reduction; also the number of partitions.
    pub reduce_groups: u32,
    /// Bytes of the buffer of partition sums: eight words each.
    pub color_buffer_size: u64,
    /// Bytes of the buffer of partition flags: one word each.
    pub flag_buffer_size: u64,
    /// Bytes of the convergence vector: one word per centroid and one more.
    pub convergence_buffer_size: u64,
    /// Pixels per invocation, as the kernel is told.
    pub n_seq: u32,
    /// The convergence threshold as a fraction, numerator first.
    pub epsilon: (u32, u32),
}

impl UpdatePlan {
    /// The plan for an image of `dimensions` and `k` centroids, if the pixels
    /// can be counted in 32 bits.
    pub open spec fn for_image(dimensions: (u32, u32), k: u32, space: ColorSpace) -> Option<
        UpdatePlan,
    > {
        let pixels = dimensions.0 as nat * dimensions.1 as nat;
        if pixels <= u32::MAX {
            let groups = groups_needed(pixels, 5120);
            Some(
                UpdatePlan {
                    k,
                    reduce_groups: groups as u32,
                    color_buffer_size: (groups * 32) as u64,
                    flag_buffer_size: (groups * 4) as u64,
                    convergence_buffer_size: ((k as nat + 1) * 4) as u64,
                    n_seq: 20,
                    epsilon: (
                        space.spec_convergence().0 as u32,
                        space.spec_convergence().1 as u32,
                    ),
                },
            )
        } else {
            None
        }
    }

    /// The kernels that update one centroid: the reduction over all
    /// partitions, then the pick.
    pub open spec fn dispatches_for(self) -> Seq<UpdateDispatch> {
        seq![
            UpdateDispatch { kernel: UpdateKernel::Reduce, groups: (self.reduce_groups, 1, 1) },
            UpdateDispatch { kernel: UpdateKernel::Pick, groups: (1, 1, 1) },
        ]
    }

    /// Plans the update of `k` centroids on an image of `dimensions`.
    pub fn new(dimensions: (u32, u32), k: u32, space: &ColorSpace) -> (plan: Result<
        UpdatePlan,
        Error,
    >)
        ensures
            plan == match Self::for_image(dimensions, k, *space) {
                Some(found) => Ok::<UpdatePlan, Error>(found),
                None => Err(Error::ImageTooLarge),
            },
    {
        let pixels: u64 = grid_size(dimensions);
        if pixels > u32::MAX as u64 {
            return Err(Error::ImageTooLarge);
        }
        let groups: u32 = ceil_div(pixels as u32, WORKGROUP_SIZE * N_SEQ);
        Ok(
            UpdatePlan {
                k,
                reduce_groups: groups,
                color_buffer_size: groups as u64 * 32,
                flag_buffer_size: groups as u64 * 4,
                convergence_buffer_size: (k as u64 + 1) * 4,
                n_seq: N_SEQ,
                epsilon: space.convergence(),
            },
        )
    }

    /// The compute passes of one iteration: the centroids in runs of at most
    /// [`MAX_OBS_CHAIN`].
    pub fn batches(&self) -> (batches: Vec<Batch>)
        ensures
            batches@ == batches_of(self.k as nat, MAX_OBS_CHAIN as nat),
    {
        centroid_batches(self.k, MAX_OBS_CHAIN)
    }

    /// The kernels to run for each centroid.
    pub fn dispatches(&self) -> (dispatches: Vec<UpdateDispatch>)
        ensures
            dispatches@ == self.dispatches_for(),
    {
        let mut dispatches: Vec<UpdateDispatch> = Vec::new();
        dispatches.push(
            UpdateDispatch { kernel: UpdateKernel::Reduce, groups: (self.reduce_groups, 1, 1) },
        );
        dispatches.push(UpdateDispatch { kernel: UpdateKernel::Pick, groups: (1, 1, 1) });
        assert(dispatches@ =~= self.dispatches_for());
        dispatches
    }
}

// ---------------------------------------------------------------------------
// The convergence vector

/// The number of flags that are set, in a run of flags that are 0 or 1.
pub open spec fn settled_count(flags: Seq<u32>) -> nat
    decreases flags.len(),
{
    if flags.len() == 0 {
        0
    } else {
        settled_count(flags.drop_last()) + flags.last() as nat
    }
}

/// `slots` is the convergence vector of `k` centroids: a flag of 0 or 1 for
/// each centroid, then the number of flags that are set.
pub open spec fn is_convergence_vector(slots: Seq<u32>, k: u32) -> bool {
    &&& slots.len() == k + 1
    &&& forall|i: int| 0 <= i < k ==> #[trigger] slots[i] <= 1
    &&& slots[k as int] == settled_count(slots.take(k as int))
}

/// No more flags are set than there are flags.
pub proof fn settled_count_is_bounded(flags: Seq<u32>)
    requires
        forall|i: int| 0 <= i < flags.len() ==> #[trigger] flags[i] <= 1,
    ensures
        settled_count(flags) <= flags.len(),
        settled_count(flags) == flags.len() <==> forall|i: int|
            0 <= i < flags.len() ==> #[trigger] flags[i] == 1,
    decreases flags.len(),
{
    if flags.len() > 0 {
        let rest = flags.drop_last();
        settled_count_is_bounded(rest);
        assert(forall|i: int| 0 <= i < rest.len() ==> rest[i] == flags[i]);
        if settled_count(flags) == flags.len() {
            assert forall|i: int| 0 <= i < flags.len() implies #[trigger] flags[i] == 1 by {
                if i < rest.len() {
                    assert(rest[i] == 1);
                }
            }
        }
    }
}

/// What the device reports of the centroids after an update: for each
/// centroid whether it moved less than the threshold, and how many did.
#[derive(Debug)]
pub struct ConvergenceVector {
    pub(crate) slots: Vec<u32>,
}

impl ConvergenceVector {
    /// The slots: one flag per centroid, then their sum.
    pub closed spec fn slots(&self) -> Seq<u32> {
        self.slots@
    }

    /// The number of centroids that the vector speaks of.
    pub open spec fn k(&self) -> nat {
        (self.slots().len() - 1) as nat
    }

    /// The vector is that of some number of centroids.
    pub open spec fn wf(&self) -> bool {
        self.slots().len() >= 1 && self.slots().len() - 1 <= u32::MAX && is_convergence_vector(
            self.slots(),
            (self.slots().len() - 1) as u32,
        )
    }

    /// Every centroid has settled: the sum slot has reached the number of
    /// centroids.
    pub open spec fn spec_converged(&self) -> bool {
        self.slots().last() >= self.k()
    }

    /// Takes the words read back from the device as the convergence vector
    /// of `k` centroids, if they are one.
    pub fn from_words(words: Vec<u32>, k: u32) -> (vector: Result<ConvergenceVector, Error>)
        ensures
            is_convergence_vector(words@, k) ==> (vector matches Ok(found) && found.slots()
                == words@ && found.wf() && found.k() == k),
            !is_convergence_vector(words@, k) ==> vector matches Err(Error::LayoutMismatch),
    {
        if words.len() as u64 != k as u64 + 1 {
            return Err(Error::LayoutMismatch);
        }
        let mut settled: u32 = 0;
        let mut index: usize = 0;
        while index < k as usize
            invariant
                words@.len() == k + 1,
                index <= k,
                settled <= index,
                settled == settled_count(words@.take(index as int)),
                forall|i: int| 0 <= i < index ==> #[trigger] words@[i] <= 1,
            decreases k - index,
        {
            if words[index] > 1 {
                return Err(Error::LayoutMismatch);
            }
            proof {
                let next = words@.take(index + 1);
                assert(next.drop_last() =~= words@.take(index as int));
                assert(next.last() == words@[index as int]);
            }
            settled = settled + words[index];
            index += 1;
        }
        if words[k as usize] != settled {
            return Err(Error::LayoutMismatch);
        }
        Ok(ConvergenceVector { slots: words })
    }

    /// Whether every centroid has settled.
    pub fn converged(&self) -> (converged: bool)
        requires
            self.wf(),
        ensures
            converged == self.spec_converged(),
    {
        let k: usize = self.slots.len() - 1;
        self.slots[k] as usize >= k
    }
}

/// When every flag is set, the sum slot equals the number of centroids, and
/// the vector reports convergence. The sum slot never exceeds that number.
pub proof fn all_settled_is_converged(vector: ConvergenceVector)
    requires
        vector.wf(),
    ensures
        vector.slots().last() <= vector.k(),
        (forall|i: int| 0 <= i < vector.k() ==> #[trigger] vector.slots()[i] == 1)
            ==> vector.slots().last() == vector.k() && vector.spec_converged(),
        vector.spec_converged() ==> forall|i: int|
            0 <= i < vector.k() ==> #[trigger] vector.slots()[i] == 1,
{
    let k = vector.k() as int;
    let flags = vector.slots().take(k);
    settled_count_is_bounded(flags);
    assert(forall|i: int| 0 <= i < k ==> flags[i] == vector.slots()[i]);
    if vector.spec_converged() {
        assert forall|i: int| 0 <= i < vector.k() implies #[trigger] vector.slots()[i] == 1 by {
            assert(flags[i] == 1);
        }
    }
}

/// The words of a convergence vector read back from the device, decoded in
/// the machine's byte order. The words are then for
/// [`ConvergenceVector::from_words`] to check.
pub fn convergence_words(bytes: &[u8]) -> (words: Result<Vec<u32>, Error>)
    ensures
        bytes@.len() % 4 == 0 ==> (words matches Ok(found) && is_native_layout(bytes@, found@)
            && found@.len() * 4 == bytes@.len()),
        bytes@.len() % 4 != 0 ==> words matches Err(Error::LayoutMismatch),
{
    if bytes.len() % 4 != 0 {
        return Err(Error::LayoutMismatch);
    }
    let words = words_of_bytes(bytes);
    proof {
        let little = bytes@ == crate::bytes::words_bytes(words@, true);
        assert(crate::bytes::words_bytes(words@, little).len() == 4 * words@.len());
    }
    Ok(words)
}

// ---------------------------------------------------------------------------
// The loop

/// What the host learns at the end of an iteration.
#[derive(Debug)]
pub enum IterationOutcome {
    /// The work was submitted and nothing was read back.
    Submitted,
    /// The convergence vector was read back.
    Checked(ConvergenceVector),
    /// The convergence vector could not be mapped.
    MapFailed,
}

/// What to do in the next iteration.
#[derive(Debug, Clone, Copy, PartialEq, Eq, Structural)]
pub struct IterationPlan {
    /// The number of this iteration, counted from 0.
    pub iteration: u32,
    /// Whether to read the convergence vector back after the assignment.
    pub check_convergence: bool,
}

/// The state of the host loop: how many iterations have run, and whether
/// more are to come.
#[derive(Debug, Clone, Copy, PartialEq, Eq, Structural)]
pub struct LloydLoop {
    pub(crate) completed: u32,
    pub(crate) finished: bool,
}

/// Whether the convergence vector is read back in iteration `iteration`:
/// in every eighth one, but not in the first.
pub open spec fn checks_convergence(iteration: u32) -> bool {
    iteration > 0 && iteration % 8 == 0
}

/// Whether an outcome ends the loop: a vector that reports convergence, or
/// a vector that could not be read.
pub open spec fn outcome_stops(outcome: IterationOutcome) -> bool {
    match outcome {
        IterationOutcome::Submitted => false,
        IterationOutcome::Checked(vector) => vector.spec_converged(),
        IterationOutcome::MapFailed => true,
    }
}

impl LloydLoop {
    /// Iterations that have run.
    pub closed spec fn completed(self) -> nat {
        self.completed as nat
    }

    /// No iteration is to come.
    pub closed spec fn finished(self) -> bool {
        self.finished
    }

    /// No more than [`MAX_ITERATION`] iterations run, and the loop is over
    /// once that many have.
    pub open spec fn wf(self) -> bool {
        self.completed() <= 128 && (self.completed() == 128 ==> self.finished())
    }

    /// The state after an iteration that ended with `outcome`.
    pub open spec fn after(self, outcome: IterationOutcome) -> (nat, bool) {
        (self.completed() + 1, outcome_stops(outcome) || self.completed() + 1 >= 128)
    }

    /// The loop before its first iteration.
    pub fn new() -> (state: Self)
        ensures
            state.wf(),
            state.completed() == 0,
            !state.finished(),
    {
        LloydLoop { completed: 0, finished: false }
    }

    /// The next iteration, or `None` when the loop is over.
    pub fn next(&self) -> (plan: Option<IterationPlan>)
        requires
            self.wf(),
        ensures
            plan == if self.finished() {
                None
            } else {
                Some(
                    IterationPlan {
                        iteration: self.completed() as u32,
                        check_convergence: checks_convergence(self.completed() as u32),
                    },
                )
            },
    {
        if self.finished {
            None
        } else {
            Some(
                IterationPlan {
                    iteration: self.completed,
                    check_convergence: self.completed > 0 && self.completed
                        % MAX_ITERATION_BEFORE_CONVERGENCE_CHECK == 0,
                },
            )
        }
    }

    /// Takes note of how the iteration planned by [`LloydLoop::next`] ended.
    pub fn record(&mut self, outcome: &IterationOutcome)
        requires
            old(self).wf(),
            !old(self).finished(),
            outcome matches IterationOutcome::Checked(vector) ==> vector.wf(),
        ensures
            final(self).wf(),
            final(self).completed() == old(self).after(*outcome).0,
            final(self).finished() == old(self).after(*outcome).1,
    {
        let stops = match outcome {
            IterationOutcome::Submitted => false,
            IterationOutcome::Checked(vector) => vector.converged(),
            IterationOutcome::MapFailed => true,
        };
        self.completed = self.completed + 1;
        self.finished = stops || self.completed >= MAX_ITERATION;
    }

    /// Iterations that have run.
    pub fn iterations(&self) -> (count: u32)
        ensures
            count == self.completed(),
    {
        self.completed
    }

    /// Whether the loop is over.
    pub fn is_finished(&self) -> (finished: bool)
        ensures
            finished == self.finished(),
    {
        self.finished
    }
}

} // verus!
