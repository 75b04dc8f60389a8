//! The cursor: the cell that the spiral writes next.
use vstd::prelude::*;
use crate::direction::DirectionOffset;
use crate::spiral::in_grid;

verus! {

/// Why the cursor could not move.
#[derive(Debug, Clone, Copy, PartialEq, Eq, Structural)]
pub enum Error {
    /// The step would leave the grid.
    CursorOverflow,
    /// The step would land on a cell that already holds a number.
    PositionNotEmpty,
}

/// A cell of the grid: `x` is the row, `y` the column.
#[derive(Debug)]
pub struct Cursor {
    pub x: usize,
    pub y: usize,
}

impl Cursor {
    /// The top-left cell.
    pub fn new() -> (r: Self)
        ensures
            r.x == 0,
            r.y == 0,
    {
        Self { x: 0, y: 0 }
    }

    /// Moves the cursor to the row and column given.
    pub fn set(&mut self, location: &[usize; 2])
        ensures
            final(self).x == location@[0],
            final(self).y == location@[1],
    {
        self.x = location[0];
        self.y = location[1];
    }

    /// The cell one step away, in a grid of side `size`; `CursorOverflow`
    /// exactly when that cell lies outside the grid.
    pub fn add(&self, rhs: DirectionOffset, size: usize) -> (r: Result<[usize; 2], Error>)
        ensures
            ({
                let a = self.x + rhs@[0];
                let b = self.y + rhs@[1];
                &&& r is Ok <==> in_grid(size as int, a, b)
                &&& r matches Ok(p) ==> p@[0] == a && p@[1] == b
                &&& r matches Err(e) ==> e == Error::CursorOverflow
            }),
    {
        let x: i128 = self.x as i128 + rhs[0] as i128;
        let y: i128 = self.y as i128 + rhs[1] as i128;
        if x < 0 || y < 0 || x >= size as i128 || y >= size as i128 {
            return Err(Error::CursorOverflow);
        }
        Ok([x as usize, y as usize])
    }
}

} // verus!
