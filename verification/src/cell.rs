//! The unit voxel-grid coordinate and the cubic regions built around it.

use vstd::prelude::*;

verus! {

/// A unit voxel-grid position. Equality and hashing are exact integer
/// comparisons on the three coordinates.
#[derive(Clone, Copy, PartialEq, Eq, Structural, Hash, Debug)]
pub struct Cell {
    pub x: i32,
    pub y: i32,
    pub z: i32,
}

/// `v` lies within `radius` of `center` on a single axis.
pub open spec fn in_range(center: int, radius: int, v: int) -> bool {
    center - radius <= v <= center + radius
}

/// `c` lies in the axis-aligned cube of cells within Chebyshev distance
/// `radius` of `center`. A radius of zero denotes the single cell `center`.
pub open spec fn in_region(center: Cell, radius: int, c: Cell) -> bool {
    &&& in_range(center.x as int, radius, c.x as int)
    &&& in_range(center.y as int, radius, c.y as int)
    &&& in_range(center.z as int, radius, c.z as int)
}

/// `c` lies on the surface of the cube around `center`: at Chebyshev
/// distance exactly `radius`. For `radius == 0` this is `c == center`.
pub open spec fn on_shell(center: Cell, radius: int, c: Cell) -> bool {
    in_region(center, radius, c) && !in_region(center, radius - 1, c)
}

/// Every cell of the cube around `center` is representable in 32-bit
/// coordinates, so the cube can be enumerated as `Cell` values.
pub open spec fn region_fits(center: Cell, radius: int) -> bool {
    &&& i32::MIN <= center.x - radius
    &&& center.x + radius <= i32::MAX
    &&& i32::MIN <= center.y - radius
    &&& center.y + radius <= i32::MAX
    &&& i32::MIN <= center.z - radius
    &&& center.z + radius <= i32::MAX
}

} // verus!
