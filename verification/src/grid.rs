//! Positions in a grid that is stored row by row.

use vstd::prelude::*;

verus! {

/// The place of the cell at `x`, `y` in a grid that is `width` cells wide.
pub open spec fn cell(x: int, y: int, width: int) -> int {
    y * width + x
}

pub open spec fn in_grid(x: int, y: int, width: int, height: int) -> bool {
    0 <= x < width && 0 <= y < height
}

/// A cell of the grid lies within its storage.
pub proof fn lemma_cell_bounds(x: int, y: int, width: int, height: int)
    requires
        in_grid(x, y, width, height),
    ensures
        0 <= cell(x, y, width) < width * height,
        0 <= y * width <= cell(x, y, width),
{
    assert(0 <= y * width) by (nonlinear_arith)
        requires
            0 <= y,
            0 < width,
    ;
    assert(y * width + width <= height * width) by (nonlinear_arith)
        requires
            y + 1 <= height,
            0 < width,
    ;
    assert(height * width == width * height) by (nonlinear_arith);
}

/// Two cells with one place are one cell.
pub proof fn lemma_cell_injective(x: int, y: int, u: int, v: int, width: int)
    requires
        0 <= x < width,
        0 <= u < width,
        cell(x, y, width) == cell(u, v, width),
    ensures
        x == u,
        y == v,
{
    assert(y == v) by (nonlinear_arith)
        requires
            0 <= x < width,
            0 <= u < width,
            y * width + x == v * width + u,
    ;
}

/// Every place in the storage is a cell of the grid.
pub proof fn lemma_cell_of(index: int, width: int, height: int)
    requires
        0 < width,
        0 <= index < width * height,
    ensures
        in_grid(index % width, index / width, width, height),
        cell(index % width, index / width, width) == index,
{
    let x = index % width;
    let y = index / width;
    assert(index == y * width + x && 0 <= x < width) by (nonlinear_arith)
        requires
            0 < width,
            x == index % width,
            y == index / width,
    ;
    assert(0 <= y < height) by (nonlinear_arith)
        requires
            0 < width,
            0 <= index < width * height,
            index == y * width + x,
            0 <= x < width,
    ;
}

/// The place of a cell, computed.
pub fn cell_index(x: u32, y: u32, width: u32, height: u32, len: usize) -> (result: usize)
    requires
        in_grid(x as int, y as int, width as int, height as int),
        len == width * height,
    ensures
        result == cell(x as int, y as int, width as int),
        result < len,
{
    proof {
        lemma_cell_bounds(x as int, y as int, width as int, height as int);
    }
    y as usize * width as usize + x as usize
}

} // verus!
