//! Small arithmetic helpers shared by the resource and dispatch planning code.

use vstd::prelude::*;

verus! {

/// Row alignment, in bytes, that texture-to-buffer copies demand.
pub const COPY_ROW_ALIGNMENT: u64 = 256;

/// The number of groups of `group` items needed to cover `items` items.
pub open spec fn groups_needed(items: nat, group: nat) -> nat
    recommends
        group > 0,
{
    ((items + group - 1) / (group as int)) as nat
}

/// The smallest multiple of 256 that is at least `bytes_per_row`.
pub open spec fn padded_row(bytes_per_row: nat) -> nat {
    groups_needed(bytes_per_row, 256) * 256
}

/// Number of workgroups, per axis, that cover a `width` x `height` grid with
/// workgroups of `workgroup_width` x `workgroup_height` invocations.
pub fn compute_work_group_count(
    dimensions: (u32, u32),
    workgroup: (u32, u32),
) -> (count: (u32, u32))
    requires
        workgroup.0 > 0,
        workgroup.1 > 0,
    ensures
        count.0 == groups_needed(dimensions.0 as nat, workgroup.0 as nat),
        count.1 == groups_needed(dimensions.1 as nat, workgroup.1 as nat),
{
    let x = ceil_div(dimensions.0, workgroup.0);
    let y = ceil_div(dimensions.1, workgroup.1);
    (x, y)
}

/// Side of the square tiles in which the per-pixel kernels run.
pub const TILE_SIDE: u32 = 16;

/// Number of 16 x 16 tiles, per axis, that cover an image of `dimensions`.
pub fn tile_count(dimensions: (u32, u32)) -> (count: (u32, u32))
    ensures
        count.0 == groups_needed(dimensions.0 as nat, 16),
        count.1 == groups_needed(dimensions.1 as nat, 16),
{
    compute_work_group_count(dimensions, (TILE_SIDE, TILE_SIDE))
}

/// `items` divided by `group`, rounded up, without intermediate overflow.
pub fn ceil_div(items: u32, group: u32) -> (count: u32)
    requires
        group > 0,
    ensures
        count == groups_needed(items as nat, group as nat),
        count <= items,
        (count as nat) * (group as nat) >= items,
        items > 0 ==> ((count as nat) - 1) * (group as nat) < items,
{
    if items == 0 {
        assert((group - 1) / (group as int) == 0) by (nonlinear_arith)
            requires
                group > 0;
        0
    } else {
        let count: u32 = (items - 1) / group + 1;
        assert({
            &&& count == groups_needed(items as nat, group as nat)
            &&& (count as nat) * (group as nat) >= items
            &&& ((count as nat) - 1) * (group as nat) < items
        }) by (nonlinear_arith)
            requires
                items > 0,
                group > 0,
                count == (items - 1) / (group as int) + 1;
        count
    }
}

/// The number of positions in a grid of the given dimensions.
pub fn grid_size(dimensions: (u32, u32)) -> (size: u64)
    ensures
        size == dimensions.0 as nat * dimensions.1 as nat,
{
    assert(dimensions.0 * dimensions.1 <= u64::MAX) by (nonlinear_arith)
        requires
            dimensions.0 <= u32::MAX,
            dimensions.1 <= u32::MAX,
    ;
    dimensions.0 as u64 * dimensions.1 as u64
}

/// Compute the next multiple of 256 for texture retrieval padding.
pub fn padded_bytes_per_row(bytes_per_row: u64) -> (padded: u64)
    requires
        bytes_per_row <= u64::MAX - 255,
    ensures
        padded == padded_row(bytes_per_row as nat),
        padded % 256 == 0,
        padded >= bytes_per_row,
        padded - bytes_per_row < 256,
{
    let padding: u64 = (256 - bytes_per_row % 256) % 256;
    proof {
        padded_row_is_next_multiple(bytes_per_row as nat);
    }
    bytes_per_row + padding
}

/// `padded_row(n)` is `n` plus the distance from `n` to the next multiple of 256.
pub proof fn padded_row_is_next_multiple(n: nat)
    ensures
        padded_row(n) == n + (256 - n % 256) % 256,
        padded_row(n) % 256 == 0,
        padded_row(n) >= n,
        padded_row(n) - n < 256,
{
}

} // verus!
