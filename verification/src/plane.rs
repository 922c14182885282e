//! The lattice plane: planar vectors with integer components and the
//! fixed-size square cells that partition it.

use vstd::prelude::*;

verus! {

/// Lattice steps per world unit. Every length of the library is counted
/// in steps, so one step is the smallest distance that it resolves.
pub const STEPS_PER_UNIT: i32 = 1024;

/// Side length of a grid cell in lattice steps: twenty world units.
pub const CELL_DIM: i32 = 20480;

/// Coordinates of a grid cell: column (along x) and row (along z).
pub type Cell = (i32, i32);

/// A planar vector or point, in lattice steps. The vertical axis is not
/// represented: all motion is constrained to the plane spanned by x and z.
#[derive(Clone, Copy, Debug, PartialEq, Eq, Structural)]
pub struct Vec2 {
    pub x: i32,
    pub z: i32,
}

impl View for Vec2 {
    type V = (int, int);

    /// The components as mathematical integers.
    open spec fn view(&self) -> (int, int) {
        (self.x as int, self.z as int)
    }
}

/// Index of the cell span that holds lattice coordinate `x`: the quotient
/// of `x` by the cell size, rounded toward negative infinity.
pub open spec fn cell_of(x: int) -> int {
    x / (CELL_DIM as int)
}

/// Where cell span `c` begins. The span holds this coordinate.
pub open spec fn span_lo(c: int) -> int {
    c * CELL_DIM
}

/// Where cell span `c` ends. The span holds every coordinate below this
/// one, whole or fractional, and not this one itself.
pub open spec fn span_end(c: int) -> int {
    c * CELL_DIM + CELL_DIM
}

/// The cell that contains `pos`.
pub open spec fn cell_at(pos: Vec2) -> Cell {
    (cell_of(pos.x as int) as i32, cell_of(pos.z as int) as i32)
}

/// Index of the cell span that holds the wide coordinate `x`.
pub(crate) fn cell_coord_wide(x: i64) -> (c: i64)
    ensures
        c == cell_of(x as int),
{
    let dim: i64 = CELL_DIM as i64;
    if x >= 0 {
        x / dim
    } else {
        -((-(x + 1)) / dim) - 1
    }
}

/// Index of the cell span that holds lattice coordinate `x`.
pub fn cell_coord(x: i32) -> (c: i32)
    ensures
        c == cell_of(x as int),
{
    cell_coord_wide(x as i64) as i32
}

/// The cell that contains `pos`.
pub fn calc_cell(pos: Vec2) -> (cell: Cell)
    ensures
        cell == cell_at(pos),
{
    (cell_coord(pos.x), cell_coord(pos.z))
}

} // verus!
