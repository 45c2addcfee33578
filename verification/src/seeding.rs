//! Host side of the k-means++ seeding: the sizes of its scratch buffers and
//! the kernels to run for each centroid.

use crate::batches::{batches_of, centroid_batches, Batch};
use crate::error::Error;
use crate::layout::{centroid_buffer_size, centroid_copy_size};
use crate::utils::{ceil_div, grid_size, groups_needed, tile_count};
use vstd::prelude::*;

verus! {

/// Invocations in one workgroup of the scan.
pub const WORKGROUP_SIZE: u32 = 256;

/// Pixels that one invocation of the scan adds up.
pub const N_SEQ: u32 = 16;

/// Centroids seeded in one command buffer at most.
pub const MAX_OPERATIONS_CHAIN: u32 = 32;

/// The entry points of the seeding kernels.
#[derive(Debug, Clone, Copy, PartialEq, Eq, Structural)]
pub enum SeedingKernel {
    /// Takes the first centroid.
    Initial,
    /// Brings the distance map up to date with the centroid taken last.
    CalcDiff,
    /// Prefix sum over the distance map.
    Scan,
    /// Draws the next centroid from the prefix sums.
    Pick,
}

/// One kernel launch: the entry point and the workgroups on each axis.
#[derive(Debug, Clone, Copy, PartialEq, Eq)]
pub struct SeedingDispatch {
    pub kernel: SeedingKernel,
    pub groups: (u32, u32, u32),
}

/// Sizes that the seeding of an image needs.
#[derive(Debug, Clone, Copy, PartialEq, Eq)]
pub struct SeedingPlan {
    /// Centroids to seed.
    pub k: u32,
    /// Workgroups of the scan; also the number of partitions.
    pub scan_groups: u32,
    /// Workgroups of the distance kernel, per axis.
    pub distance_groups: (u32, u32),
    /// Bytes of the buffer of partition prefixes: four words each.
    pub prefix_buffer_size: u64,
    /// Bytes of the buffer of partition flags: one word each.
    pub flag_buffer_size: u64,
    /// Bytes of the buffer that hands out partition numbers.
    pub part_id_buffer_size: u64,
    /// Bytes of the staging buffer for the centroids.
    pub staging_buffer_size: u64,
}

impl SeedingPlan {
    /// The plan for an image of `dimensions` and `k` centroids, if the pixels
    /// can be counted in 32 bits.
    pub open spec fn for_image(dimensions: (u32, u32), k: u32) -> Option<SeedingPlan> {
        let pixels = dimensions.0 as nat * dimensions.1 as nat;
        if pixels <= u32::MAX {
            let groups = groups_needed(pixels, 4096);
            Some(
                SeedingPlan {
                    k,
                    scan_groups: groups as u32,
                    distance_groups: (
                        groups_needed(dimensions.0 as nat, 16) as u32,
                        groups_needed(dimensions.1 as nat, 16) as u32,
                    ),
                    prefix_buffer_size: (groups * 16) as u64,
                    flag_buffer_size: (groups * 4) as u64,
                    part_id_buffer_size: 4,
                    staging_buffer_size: centroid_buffer_size(k as nat) as u64,
                },
            )
        } else {
            None
        }
    }

    /// The kernels that seed centroid `centroid`, in order: the first
    /// centroid is taken by `Initial` alone; every later one updates the
    /// distance map, scans it and picks.
    pub open spec fn dispatches_for(self, centroid: u32) -> Seq<SeedingDispatch> {
        if centroid == 0 {
            seq![SeedingDispatch { kernel: SeedingKernel::Initial, groups: (1, 1, 1) }]
        } else {
            seq![
                SeedingDispatch {
                    kernel: SeedingKernel::CalcDiff,
                    groups: (self.distance_groups.0, self.distance_groups.1, 1),
                },
                SeedingDispatch { kernel: SeedingKernel::Scan, groups: (self.scan_groups, 1, 1) },
                SeedingDispatch { kernel: SeedingKernel::Pick, groups: (1, 1, 1) },
            ]
        }
    }

    /// Plans the seeding of `k` centroids on an image of `dimensions`.
    pub fn new(dimensions: (u32, u32), k: u32) -> (plan: Result<SeedingPlan, Error>)
        ensures
            plan == match Self::for_image(dimensions, k) {
                Some(found) => Ok::<SeedingPlan, Error>(found),
                None => Err(Error::ImageTooLarge),
            },
    {
        let pixels: u64 = grid_size(dimensions);
        if pixels > u32::MAX as u64 {
            return Err(Error::ImageTooLarge);
        }
        let groups: u32 = ceil_div(pixels as u32, WORKGROUP_SIZE * N_SEQ);
        let distance_groups = tile_count(dimensions);
        Ok(
            SeedingPlan {
                k,
                scan_groups: groups,
                distance_groups,
                prefix_buffer_size: groups as u64 * 16,
                flag_buffer_size: groups as u64 * 4,
                part_id_buffer_size: 4,
                staging_buffer_size: centroid_copy_size(k),
            },
        )
    }

    /// The command buffers of the seeding: the centroids in runs of at most
    /// [`MAX_OPERATIONS_CHAIN`], each run submitted and waited for on its own.
    pub fn batches(&self) -> (batches: Vec<Batch>)
        ensures
            batches@ == batches_of(self.k as nat, MAX_OPERATIONS_CHAIN as nat),
    {
        centroid_batches(self.k, MAX_OPERATIONS_CHAIN)
    }

    /// The kernels to run for centroid `centroid`.
    pub fn dispatches(&self, centroid: u32) -> (dispatches: Vec<SeedingDispatch>)
        ensures
            dispatches@ == self.dispatches_for(centroid),
    {
        let mut dispatches: Vec<SeedingDispatch> = Vec::new();
        if centroid == 0 {
            dispatches.push(SeedingDispatch { kernel: SeedingKernel::Initial, groups: (1, 1, 1) });
        } else {
            dispatches.push(
                SeedingDispatch {
                    kernel: SeedingKernel::CalcDiff,
                    groups: (self.distance_groups.0, self.distance_groups.1, 1),
                },
            );
            dispatches.push(
                SeedingDispatch { kernel: SeedingKernel::Scan, groups: (self.scan_groups, 1, 1) },
            );
            dispatches.push(SeedingDispatch { kernel: SeedingKernel::Pick, groups: (1, 1, 1) });
        }
        assert(dispatches@ =~= self.dispatches_for(centroid));
        dispatches
    }
}

} // verus!
