//! Grid cells and the grid's dimensions.

use vstd::prelude::*;

verus! {

/// Whether the search may move diagonally.
pub const ALLOW_DIAGONAL: bool = true;

/// Number of columns of the grid.
pub const TOTAL_X: i32 = 50;

/// Number of rows of the grid.
pub const TOTAL_Y: i32 = 20;

/// A cell of the grid, with the path cost and the score the search gave it.
#[derive(Clone, Copy)]
pub struct Coordinate {
    pub x: i32,
    pub y: i32,
    pub cost: i32,
    pub score: i32,
}

/// The cell at `(x, y)` with cost and score zero.
pub open spec fn cell(x: int, y: int) -> Coordinate {
    Coordinate { x: x as i32, y: y as i32, cost: 0, score: 0 }
}

impl Default for Coordinate {
    fn default() -> (c: Self)
        ensures
            c == cell(0, 0),
    {
        Coordinate { x: 0, y: 0, cost: 0, score: 0 }
    }
}

/// Where the search starts unless told otherwise.
pub fn default_start() -> (c: Coordinate)
    ensures
        c == cell(0, 0),
{
    Coordinate { x: 0, y: 0, cost: 0, score: 0 }
}

/// Where the search heads unless told otherwise.
pub fn default_goal() -> (c: Coordinate)
    ensures
        c == cell(30, 4),
{
    Coordinate { x: 30, y: 4, cost: 0, score: 0 }
}

/// Every cell of the grid, column by column: the cell `(x, y)` is at index
/// `x * TOTAL_Y + y`.
pub fn grid_cells() -> (cells: Vec<Coordinate>)
    ensures
        cells.len() == TOTAL_X * TOTAL_Y,
        forall|x: int, y: int|
            0 <= x < TOTAL_X && 0 <= y < TOTAL_Y ==> #[trigger] cells@[x * TOTAL_Y + y] == cell(x, y),
{
    let mut cells: Vec<Coordinate> = Vec::new();
    let mut i: i32 = 0;
    while i < TOTAL_X
        invariant
            0 <= i <= TOTAL_X,
            cells.len() == i * TOTAL_Y,
            forall|x: int, y: int|
                0 <= x < i && 0 <= y < TOTAL_Y ==> #[trigger] cells@[x * TOTAL_Y + y] == cell(x, y),
        decreases TOTAL_X - i,
    {
        let mut y: i32 = 0;
        while y < TOTAL_Y
            invariant
                0 <= i < TOTAL_X,
                0 <= y <= TOTAL_Y,
                cells.len() == i * TOTAL_Y + y,
                forall|x: int, y2: int|
                    (0 <= x < i && 0 <= y2 < TOTAL_Y) || (x == i && 0 <= y2 < y) ==> #[trigger] cells@[x
                        * TOTAL_Y + y2] == cell(x, y2),
            decreases TOTAL_Y - y,
        {
            cells.push(Coordinate { x: i, y, cost: 0, score: 0 });
            y = y + 1;
        }
        i = i + 1;
    }
    cells
}

} // verus!
