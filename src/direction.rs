//! The four headings of the cursor and the order in which it turns.
use vstd::prelude::*;

verus! {

/// A step as (row change, column change).
pub type DirectionOffset = [i32; 2];

/// Row change of heading `d`: Right, Down, Left, Up for 0, 1, 2, 3.
pub open spec fn row_delta(d: int) -> int {
    if d == 1 {
        1
    } else if d == 3 {
        -1
    } else {
        0
    }
}

/// Column change of heading `d`.
pub open spec fn col_delta(d: int) -> int {
    if d == 0 {
        1
    } else if d == 2 {
        -1
    } else {
        0
    }
}

/// The heading that follows `d` on a clockwise turn.
pub open spec fn turned(d: int) -> int {
    (d + 1) % 4
}

/// One of Right (0), Down (1), Left (2) and Up (3).
#[derive(Debug)]
pub struct Direction {
    pub value: usize,
}

impl Direction {
    pub open spec fn wf(&self) -> bool {
        self.value < 4
    }

    /// Facing right.
    pub fn new() -> (r: Self)
        ensures
            r.value == 0,
    {
        Self { value: 0 }
    }

    /// Turns clockwise: Right, Down, Left, Up, then Right again.
    pub fn next(&mut self)
        requires
            old(self).wf(),
        ensures
            final(self).value == turned(old(self).value as int),
            final(self).wf(),
    {
        self.value = (self.value + 1) % 4;
    }

    /// The step that this heading makes.
    pub fn offset(&self) -> (r: DirectionOffset)
        requires
            self.wf(),
        ensures
            r@[0] == row_delta(self.value as int),
            r@[1] == col_delta(self.value as int),
    {
        if self.value == 0 {
            [0, 1]
        } else if self.value == 1 {
            [1, 0]
        } else if self.value == 2 {
            [0, -1]
        } else {
            [-1, 0]
        }
    }
}

} // verus!
