//! Points transformed by matrices of four rows and four columns.
//!
//! A matrix holds its entries as single-precision bit patterns, column
//! after column. A point is transformed as the vector of its three
//! coordinates and a one; the fourth row of the result is dropped.

use crate::arith::{add_values, multiply_values, plus, times};
use crate::mesh::Vec3;
use crate::single::ONE;
use vstd::prelude::*;

verus! {

/// A matrix of four rows and four columns, stored column after column.
#[derive(Debug, Clone, Copy, PartialEq, Eq)]
pub struct Mat4 {
    pub cells: [u32; 16],
}

/// The entry in the given row and column.
pub open spec fn cell(m: Mat4, row: int, column: int) -> u32 {
    m.cells[column * 4 + row]
}

/// One coordinate of the transformed point: the products of the row's
/// entries with the point's coordinates and a one, each rounded, summed up
/// from the first column on, each sum rounded.
pub open spec fn row_sum(m: Mat4, row: int, v: Vec3) -> u32 {
    plus(
        times(cell(m, row, 3), ONE),
        plus(
            times(cell(m, row, 2), v.z),
            plus(times(cell(m, row, 1), v.y), times(cell(m, row, 0), v.x)),
        ),
    )
}

/// The point `v` transformed by `m`.
pub open spec fn transformed(m: Mat4, v: Vec3) -> Vec3 {
    Vec3 { x: row_sum(m, 0, v), y: row_sum(m, 1, v), z: row_sum(m, 2, v) }
}

fn sum_of_row(m: &Mat4, row: usize, v: &Vec3) -> (s: u32)
    requires
        row < 3,
    ensures
        s == row_sum(*m, row as int, *v),
{
    let first = multiply_values(m.cells[row], v.x);
    let second = add_values(multiply_values(m.cells[4 + row], v.y), first);
    let third = add_values(multiply_values(m.cells[8 + row], v.z), second);
    add_values(multiply_values(m.cells[12 + row], ONE), third)
}

/// Transforms the point `v` by `m`.
pub fn matmul(m: &Mat4, v: &Vec3) -> (r: Vec3)
    ensures
        r == transformed(*m, *v),
{
    Vec3 { x: sum_of_row(m, 0, v), y: sum_of_row(m, 1, v), z: sum_of_row(m, 2, v) }
}

} // verus!
