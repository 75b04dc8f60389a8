//! The grid being filled, with the cursor, its heading and the counter.
use vstd::prelude::*;
use vstd::string::*;
use crate::cursor::{Cursor, Error};
use crate::direction::{col_delta, row_delta, turned, Direction};
use crate::spiral::{
    center, heading, in_grid, is_written, lemma_first_and_last, lemma_spiral_is_permutation,
    lemma_step, spiral_value, turns_at,
};
use crate::text::{grid_text, push_field, row_text};

verus! {

/// The side of the grid that the program prints.
pub const MATRIX_SIZE: usize = 10;

/// A square grid of side `size`; a cell that holds 0 is still empty.
#[derive(Debug)]
pub struct Matrix {
    /// The rows, top to bottom.
    pub matrix: Vec<Vec<usize>>,
    pub size: usize,
    /// The last number written.
    pub count: usize,
    pub cursor: Cursor,
    pub direction: Direction,
}

impl Matrix {
    /// The number in row `i`, column `j`.
    pub open spec fn cell(&self, i: int, j: int) -> int {
        self.matrix@[i]@[j] as int
    }

    /// The grid is square with side `size`, the cursor lies in it, and the
    /// numbers up to `size * size` fit in a cell.
    pub open spec fn wf(&self) -> bool {
        &&& 1 <= self.size
        &&& self.size * self.size <= usize::MAX
        &&& self.matrix@.len() == self.size
        &&& forall|i: int| 0 <= i < self.size ==> (#[trigger] self.matrix@[i])@.len() == self.size
        &&& self.cursor.x < self.size
        &&& self.cursor.y < self.size
        &&& self.direction.wf()
    }

    /// The cell that one step with the current heading reaches.
    pub open spec fn ahead(&self) -> (int, int) {
        (
            self.cursor.x + row_delta(self.direction.value as int),
            self.cursor.y + col_delta(self.direction.value as int),
        )
    }

    /// The first `count` numbers of the spiral are written and no others, and
    /// the cursor waits with the spiral's heading in the cell of the next one.
    pub open spec fn on_spiral(&self) -> bool {
        let n = self.size as int;
        &&& self.wf()
        &&& self.count < n * n
        &&& spiral_value(n, self.cursor.x as int, self.cursor.y as int) == self.count + 1
        &&& self.direction.value == heading(n, self.cursor.x as int, self.cursor.y as int)
        &&& forall|i: int, j: int|
            in_grid(n, i, j) ==> (#[trigger] self.matrix@[i]@[j]) as int == if spiral_value(n, i, j)
                <= self.count {
                spiral_value(n, i, j)
            } else {
                0
            }
    }

    /// Some cell holds `v`.
    pub open spec fn holds_value(&self, v: int) -> bool {
        exists|i: int, j: int| in_grid(self.size as int, i, j) && #[trigger] self.matrix@[i]@[j] == v
    }

    /// The rows of the grid, top to bottom.
    pub open spec fn rows(&self) -> Seq<Seq<usize>> {
        self.matrix@.map_values(|row: Vec<usize>| row@)
    }

    /// Every cell holds its number of the spiral.
    pub open spec fn is_complete(&self) -> bool {
        let n = self.size as int;
        &&& self.wf()
        &&& self.count == n * n
        &&& forall|i: int, j: int| in_grid(n, i, j) ==> (#[trigger] self.matrix@[i]@[j]) as int == spiral_value(n, i, j)
    }

    /// An empty grid of side `size`, the cursor in the top-left cell facing
    /// right, the counter at 0.
    pub fn new(size: usize) -> (r: Self)
        requires
            1 <= size,
            size * size <= usize::MAX,
        ensures
            r.wf(),
            r.size == size,
            r.count == 0,
            r.cursor.x == 0 && r.cursor.y == 0,
            r.direction.value == 0,
            forall|i: int, j: int| in_grid(size as int, i, j) ==> #[trigger] r.matrix@[i]@[j] == 0,
            r.on_spiral(),
    {
        let mut matrix: Vec<Vec<usize>> = Vec::new();
        let mut i: usize = 0;
        while i < size
            invariant
                i <= size,
                matrix@.len() == i,
                forall|a: int| 0 <= a < i ==> (#[trigger] matrix@[a])@.len() == size,
                forall|a: int, b: int|
                    0 <= a < i && 0 <= b < size ==> #[trigger] matrix@[a]@[b] == 0,
            decreases size - i,
        {
            let mut row: Vec<usize> = Vec::new();
            let mut j: usize = 0;
            while j < size
                invariant
                    j <= size,
                    row@.len() == j,
                    forall|b: int| 0 <= b < j ==> #[trigger] row@[b] == 0,
                decreases size - j,
            {
                row.push(0);
                j = j + 1;
            }
            matrix.push(row);
            i = i + 1;
        }
        let r = Self { matrix, size, count: 0, cursor: Cursor::new(), direction: Direction::new() };
        proof {
            lemma_first_and_last(size as int);
            lemma_spiral_is_permutation(size as int);
        }
        r
    }

    /// Moves the cursor one step with its heading, unless that step leaves the
    /// grid (`CursorOverflow`) or lands on a filled cell (`PositionNotEmpty`);
    /// on an error nothing changes.
    pub fn move_cursor(&mut self) -> (r: Result<(), Error>)
        requires
            old(self).wf(),
        ensures
            final(self).wf(),
            final(self).matrix == old(self).matrix,
            final(self).size == old(self).size,
            final(self).count == old(self).count,
            final(self).direction == old(self).direction,
            ({
                let (a, b) = old(self).ahead();
                if !in_grid(old(self).size as int, a, b) {
                    r == Err::<(), Error>(Error::CursorOverflow) && final(self).cursor
                        == old(self).cursor
                } else if old(self).cell(a, b) != 0 {
                    r == Err::<(), Error>(Error::PositionNotEmpty) && final(self).cursor
                        == old(self).cursor
                } else {
                    r == Ok::<(), Error>(()) && final(self).cursor.x == a && final(self).cursor.y
                        == b
                }
            }),
    {
        let location = self.cursor.add(self.direction.offset(), self.size)?;
        if self.matrix[location[0]][location[1]] != 0 {
            return Err(Error::PositionNotEmpty);
        }
        self.cursor.set(&location);
        Ok(())
    }

    /// Writes the counter into the cell under the cursor.
    pub fn set_one_position(&mut self)
        requires
            old(self).wf(),
        ensures
            final(self).wf(),
            final(self).size == old(self).size,
            final(self).count == old(self).count,
            final(self).cursor == old(self).cursor,
            final(self).direction == old(self).direction,
            forall|i: int, j: int|
                in_grid(old(self).size as int, i, j) ==> (#[trigger] final(self).matrix@[i]@[j]) as int == if i
                    == old(self).cursor.x && j == old(self).cursor.y {
                    old(self).count as int
                } else {
                    old(self).matrix@[i]@[j] as int
                },
    {
        let x = self.cursor.x;
        let y = self.cursor.y;
        self.matrix[x][y] = self.count;
    }

    /// Writes the rest of the spiral: each round the counter goes up by one
    /// and is written under the cursor, which then steps on with its heading
    /// or, where that is blocked, turns once and steps; where the turned step
    /// is blocked too, the grid is full.
    pub fn fill_spiral(&mut self)
        requires
            old(self).on_spiral(),
        ensures
            final(self).is_complete(),
            final(self).size == old(self).size,
            final(self).cursor.x == center(old(self).size as int).0,
            final(self).cursor.y == center(old(self).size as int).1,
    {
        let ghost n = self.size as int;
        loop
            invariant_except_break
                self.on_spiral(),
            invariant
                self.wf(),
                self.size == n,
            ensures
                self.is_complete(),
                self.cursor.x == center(n).0,
                self.cursor.y == center(n).1,
            decreases n * n - self.count,
        {
            proof {
                lemma_spiral_is_permutation(n);
            }
            let ghost pre = *self;
            self.count = self.count + 1;
            let ghost mid = *self;
            self.set_one_position();
            let ghost x = self.cursor.x as int;
            let ghost y = self.cursor.y as int;
            let ghost c = self.count as int;
            assert forall|i: int, j: int| in_grid(n, i, j) implies (#[trigger] self.matrix@[i]@[j])
                as int == if spiral_value(n, i, j) <= c {
                spiral_value(n, i, j)
            } else {
                0
            } by {
                assert(pre.matrix@[i]@[j] == mid.matrix@[i]@[j]);
                if spiral_value(n, i, j) == c {
                    assert(spiral_value(n, i, j) == spiral_value(n, x, y));
                }
            }
            let ghost h = self.direction.value as int;
            let ghost a1 = x + row_delta(h);
            let ghost b1 = y + col_delta(h);
            let ghost a2 = x + row_delta(turned(h));
            let ghost b2 = y + col_delta(turned(h));
            proof {
                if c < n * n {
                    lemma_step(n, x, y);
                    if turns_at(n, x, y) && in_grid(n, a1, b1) {
                        assert(self.matrix@[a1]@[b1] == spiral_value(n, a1, b1));
                    }
                } else {
                    if in_grid(n, a1, b1) {
                        assert(self.matrix@[a1]@[b1] == spiral_value(n, a1, b1));
                    }
                    if in_grid(n, a2, b2) {
                        assert(self.matrix@[a2]@[b2] == spiral_value(n, a2, b2));
                    }
                }
            }
            if self.move_cursor().is_err() {
                self.switch_direction();
                if self.move_cursor().is_err() {
                    proof {
                        lemma_first_and_last(n);
                        let (a, b) = center(n);
                        assert(spiral_value(n, a, b) == spiral_value(n, x, y));
                    }
                    break;
                }
            }
        }
    }

    /// The grid as text: one line per row, each number right-aligned in a
    /// field of four characters.
    pub fn render(&self) -> (r: String)
        ensures
            r@ == grid_text(self.rows()),
    {
        let mut out = String::new();
        let mut i: usize = 0;
        while i < self.matrix.len()
            invariant
                i <= self.matrix@.len(),
                out@ == grid_text(self.rows().subrange(0, i as int)),
            decreases self.matrix@.len() - i,
        {
            let row = &self.matrix[i];
            let mut j: usize = 0;
            while j < row.len()
                invariant
                    i < self.matrix@.len(),
                    row == self.matrix@[i as int],
                    j <= row@.len(),
                    out@ == grid_text(self.rows().subrange(0, i as int)) + row_text(
                        row@.subrange(0, j as int),
                    ),
                decreases row@.len() - j,
            {
                push_field(&mut out, row[j]);
                assert(row@.subrange(0, j + 1).drop_last() =~= row@.subrange(0, j as int));
                assert(out@ =~= grid_text(self.rows().subrange(0, i as int)) + row_text(
                    row@.subrange(0, j + 1),
                ));
                j = j + 1;
            }
            proof {
                reveal_strlit("\n");
            }
            out.append("\n");
            assert(self.rows().subrange(0, i + 1).drop_last() =~= self.rows().subrange(0, i as int));
            assert(row@.subrange(0, row@.len() as int) =~= row@);
            assert(out@ =~= grid_text(self.rows().subrange(0, i + 1)));
            i = i + 1;
        }
        assert(self.rows().subrange(0, i as int) =~= self.rows());
        out
    }

    /// Turns the cursor clockwise.
    pub fn switch_direction(&mut self)
        requires
            old(self).wf(),
        ensures
            final(self).wf(),
            final(self).matrix == old(self).matrix,
            final(self).size == old(self).size,
            final(self).count == old(self).count,
            final(self).cursor == old(self).cursor,
            final(self).direction.value == turned(old(self).direction.value as int),
    {
        self.direction.next();
    }
}

/// A complete grid holds each of the numbers 1 to `size * size` exactly once:
/// every cell a number of that range, no number twice, none missing.
pub proof fn lemma_complete_grid_is_permutation(m: Matrix)
    requires
        m.is_complete(),
    ensures
        forall|i: int, j: int|
            in_grid(m.size as int, i, j) ==> 1 <= (#[trigger] m.matrix@[i]@[j]) <= m.size
                * m.size,
        forall|i1: int, j1: int, i2: int, j2: int|
            in_grid(m.size as int, i1, j1) && in_grid(m.size as int, i2, j2) && #[trigger] m.matrix@[i1]@[j1]
                == #[trigger] m.matrix@[i2]@[j2] ==> i1 == i2 && j1 == j2,
        forall|v: int| 1 <= v <= m.size * m.size ==> #[trigger] m.holds_value(v),
{
    let n = m.size as int;
    lemma_spiral_is_permutation(n);
    assert forall|i1: int, j1: int, i2: int, j2: int|
        in_grid(n, i1, j1) && in_grid(n, i2, j2) && #[trigger] m.matrix@[i1]@[j1]
            == #[trigger] m.matrix@[i2]@[j2] implies i1 == i2 && j1 == j2 by {
        assert(spiral_value(n, i1, j1) == spiral_value(n, i2, j2));
    }
    assert forall|v: int| 1 <= v <= n * n implies #[trigger] m.holds_value(v) by {
        assert(is_written(n, v));
        let (i, j) = choose|i: int, j: int| in_grid(n, i, j) && #[trigger] spiral_value(n, i, j) == v;
        assert(m.matrix@[i]@[j] == v);
    }
}

/// Rendering is repeatable: any two renderings of one grid are the same text.
pub proof fn lemma_render_repeatable(m: Matrix, first: String, second: String)
    requires
        first@ == grid_text(m.rows()),
        second@ == grid_text(m.rows()),
    ensures
        first@ == second@,
{
}

} // verus!
