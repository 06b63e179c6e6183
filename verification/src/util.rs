//! Integer vectors and dispatch sizes for compute passes.

use vstd::prelude::*;

verus! {

/// A vector of three unsigned integers.
#[derive(Clone, Copy, PartialEq, Eq, Structural, Debug)]
pub struct UVec3 {
    pub x: u32,
    pub y: u32,
    pub z: u32,
}

/// Number of workgroups of size `group` needed to cover `size` items: the
/// quotient rounded up.
pub open spec fn groups_to_cover(size: u32, group: u32) -> int {
    (size + group - 1) / (group as int)
}

/// Number of workgroups of `workgroup_size` needed to cover `dimensions` in
/// each direction, `(dimensions + workgroup_size - 1) / workgroup_size`.
pub fn get_workgroup_count_from_size(workgroup_size: UVec3, dimensions: UVec3) -> (r: UVec3)
    requires
        workgroup_size.x >= 1,
        workgroup_size.y >= 1,
        workgroup_size.z >= 1,
        dimensions.x + workgroup_size.x <= u32::MAX,
        dimensions.y + workgroup_size.y <= u32::MAX,
        dimensions.z + workgroup_size.z <= u32::MAX,
    ensures
        r.x == groups_to_cover(dimensions.x, workgroup_size.x),
        r.y == groups_to_cover(dimensions.y, workgroup_size.y),
        r.z == groups_to_cover(dimensions.z, workgroup_size.z),
{
    UVec3 {
        x: (dimensions.x + workgroup_size.x - 1) / workgroup_size.x,
        y: (dimensions.y + workgroup_size.y - 1) / workgroup_size.y,
        z: (dimensions.z + workgroup_size.z - 1) / workgroup_size.z,
    }
}

/// The workgroups cover the items and one group fewer would not:
/// `(count - 1) * group < size <= count * group` for a non-empty size.
pub proof fn lemma_workgroups_cover(size: u32, group: u32)
    requires
        group >= 1,
        size >= 1,
    ensures
        groups_to_cover(size, group) * group >= size,
        (groups_to_cover(size, group) - 1) * group < size,
{
    let c = groups_to_cover(size, group);
    assert(c * group >= size && (c - 1) * group < size) by (nonlinear_arith)
        requires
            group >= 1,
            size >= 1,
            c == (size + group - 1) / (group as int),
    ;
}

} // verus!
