//! A read-only position inside a grid, moved one cell at a time.
use vstd::prelude::*;

use crate::cell::Cell;
use crate::grid::{in_bounds, Grid};

verus! {

/// The four moves between cells that share an edge.
#[derive(Copy, Clone, Debug, PartialEq, Eq, Structural)]
pub enum Direction {
    Up,
    Right,
    Down,
    Left,
}

/// The coordinate one step from `(x, y)`; `y` grows downwards.
pub open spec fn step(x: int, y: int, dir: Direction) -> (int, int) {
    match dir {
        Direction::Up => (x, y - 1),
        Direction::Right => (x + 1, y),
        Direction::Down => (x, y + 1),
        Direction::Left => (x - 1, y),
    }
}

/// The position after `(x, y)` in row-major order: the next column, else the
/// start of the next row.
pub open spec fn next_position(g: Seq<Seq<Cell>>, x: int, y: int) -> Option<(int, int)> {
    if in_bounds(g, x + 1, y) {
        Some((x + 1, y))
    } else if in_bounds(g, 0, y + 1) {
        Some((0, y + 1))
    } else {
        None
    }
}

/// Every cell of `g`, row after row, each row left to right.
pub open spec fn row_major(g: Seq<Seq<Cell>>) -> Seq<(int, int)>
    decreases g.len(),
{
    if g.len() == 0 {
        Seq::<(int, int)>::empty()
    } else {
        row_major(g.drop_last()) + Seq::new(g.last().len(), |x: int| (x, g.len() - 1))
    }
}

/// How many cells come before row `y` in row-major order.
pub open spec fn rows_before(g: Seq<Seq<Cell>>, y: int) -> int {
    row_major(g.take(y)).len() as int
}

/// Cell `(x, y)` stands at place `rows_before(g, y) + x` of the row-major order.
pub proof fn lemma_row_major_at(g: Seq<Seq<Cell>>, x: int, y: int)
    requires
        in_bounds(g, x, y),
    ensures
        0 <= rows_before(g, y) + x < row_major(g).len(),
        row_major(g)[rows_before(g, y) + x] == (x, y),
    decreases g.len(),
{
    let last = Seq::new(g.last().len(), |x: int| (x, g.len() - 1));
    if y == g.len() - 1 {
        assert(g.take(y) =~= g.drop_last());
    } else {
        assert(g.drop_last().take(y) =~= g.take(y));
        lemma_row_major_at(g.drop_last(), x, y);
    }
    assert(row_major(g) == row_major(g.drop_last()) + last);
}

/// Row `y` adds its length to the count of cells before the next row.
pub proof fn lemma_rows_before_next(g: Seq<Seq<Cell>>, y: int)
    requires
        0 <= y < g.len(),
    ensures
        rows_before(g, y + 1) == rows_before(g, y) + g[y].len(),
        rows_before(g, 0) == 0,
        rows_before(g, g.len() as int) == row_major(g).len(),
{
    assert(g.take(y + 1).drop_last() =~= g.take(y));
    assert(g.take(0) =~= Seq::<Seq<Cell>>::empty());
    assert(g.take(g.len() as int) =~= g);
}

/// A cell of a borrowed grid; it always names a cell that exists.
#[derive(Copy, Clone, Debug)]
pub struct Cursor<'a> {
    map: &'a Grid,
    x: usize,
    y: usize,
}

impl<'a> Cursor<'a> {
    #[verifier::type_invariant]
    spec fn inv(&self) -> bool {
        in_bounds(self.map@, self.x as int, self.y as int)
    }

    /// The cells of the grid the cursor points into.
    pub closed spec fn grid(&self) -> Seq<Seq<Cell>> {
        self.map@
    }

    /// The column of the cursor.
    pub closed spec fn col(&self) -> int {
        self.x as int
    }

    /// The row of the cursor.
    pub closed spec fn row(&self) -> int {
        self.y as int
    }

    /// A cursor at column `x` of row `y`, if that cell exists.
    pub fn at(map: &'a Grid, coord: (usize, usize)) -> (r: Option<Cursor<'a>>)
        ensures
            match r {
                Some(c) => in_bounds(map@, coord.0 as int, coord.1 as int) && c.grid() == map@
                    && c.col() == coord.0 && c.row() == coord.1,
                None => !in_bounds(map@, coord.0 as int, coord.1 as int),
            },
    {
        match map.get(coord) {
            Some(_) => Some(Cursor { map, x: coord.0, y: coord.1 }),
            None => None,
        }
    }

    /// A cursor on the first cell of the first row.
    pub fn new(map: &'a Grid) -> (r: Cursor<'a>)
        requires
            in_bounds(map@, 0, 0),
        ensures
            r.grid() == map@,
            r.col() == 0,
            r.row() == 0,
    {
        Cursor { map, x: 0, y: 0 }
    }

    /// The cell under the cursor.
    pub fn read(&self) -> (r: Cell)
        ensures
            in_bounds(self.grid(), self.col(), self.row()),
            r == self.grid()[self.row()][self.col()],
    {
        proof {
            use_type_invariant(self);
        }
        self.map.0[self.y][self.x]
    }

    /// A cursor on the same grid at column `x` of row `y`, if that cell exists.
    pub fn get(&self, coord: (usize, usize)) -> (r: Option<Cursor<'a>>)
        ensures
            match r {
                Some(c) => in_bounds(self.grid(), coord.0 as int, coord.1 as int) && c.grid()
                    == self.grid() && c.col() == coord.0 && c.row() == coord.1,
                None => !in_bounds(self.grid(), coord.0 as int, coord.1 as int),
            },
    {
        Cursor::at(self.map, coord)
    }

    /// A cursor on the first cell of the next row, if that cell exists.
    pub fn move_next_line(&self) -> (r: Option<Cursor<'a>>)
        ensures
            match r {
                Some(c) => in_bounds(self.grid(), 0, self.row() + 1) && c.grid() == self.grid()
                    && c.col() == 0 && c.row() == self.row() + 1,
                None => !in_bounds(self.grid(), 0, self.row() + 1),
            },
    {
        proof {
            use_type_invariant(self);
        }
        let rows = self.map.0.len();
        if self.y + 1 < rows {
            self.get((0, self.y + 1))
        } else {
            None
        }
    }

    /// A cursor on the neighbouring cell in direction `dir`, if that cell exists.
    pub fn move_dir(&self, dir: Direction) -> (r: Option<Cursor<'a>>)
        ensures
            ({
                let (x, y) = step(self.col(), self.row(), dir);
                match r {
                    Some(c) => in_bounds(self.grid(), x, y) && c.grid() == self.grid() && c.col()
                        == x && c.row() == y,
                    None => !in_bounds(self.grid(), x, y),
                }
            }),
    {
        proof {
            use_type_invariant(self);
        }
        let (x, y) = (self.x, self.y);
        let rows = self.map.0.len();
        let cols = self.map.0[y].len();
        match dir {
            Direction::Up => if y > 0 {
                self.get((x, y - 1))
            } else {
                None
            },
            Direction::Left => if x > 0 {
                self.get((x - 1, y))
            } else {
                None
            },
            Direction::Down => if y + 1 < rows {
                self.get((x, y + 1))
            } else {
                None
            },
            Direction::Right => if x + 1 < cols {
                self.get((x + 1, y))
            } else {
                None
            },
        }
    }

    /// The cells from this one to the end of the grid, in row-major order.
    pub fn iter(&self) -> (r: CursorIter<'a>)
        ensures
            r.current() == Some(*self),
    {
        CursorIter::new(*self)
    }

    /// The column and row of the cursor.
    pub fn coord(&self) -> (r: (usize, usize))
        ensures
            r.0 == self.col(),
            r.1 == self.row(),
            in_bounds(self.grid(), self.col(), self.row()),
    {
        proof {
            use_type_invariant(self);
        }
        (self.x, self.y)
    }
}

/// Walks a grid in row-major order: along the row, then to the start of the next one.
pub struct CursorIter<'a> {
    cursor: Cursor<'a>,
    nextable: bool,
}

impl<'a> CursorIter<'a> {
    /// The cursor the next call of `next` hands out, if any.
    pub closed spec fn current(&self) -> Option<Cursor<'a>> {
        if self.nextable {
            Some(self.cursor)
        } else {
            None
        }
    }

    fn new(cursor: Cursor<'a>) -> (r: CursorIter<'a>)
        ensures
            r.current() == Some(cursor),
    {
        CursorIter { cursor, nextable: true }
    }

    /// Hands out the current cursor and moves on to the next position.
    pub fn next(&mut self) -> (r: Option<Cursor<'a>>)
        ensures
            r == old(self).current(),
            match r {
                None => final(self).current() is None,
                Some(c) => match next_position(c.grid(), c.col(), c.row()) {
                    Some(p) => final(self).current() matches Some(n) && n.grid() == c.grid()
                        && n.col() == p.0 && n.row() == p.1,
                    None => final(self).current() is None,
                },
            },
    {
        if !self.nextable {
            return None;
        }
        let cursor = self.cursor;
        let right = cursor.move_dir(Direction::Right);
        match right {
            Some(next) => {
                self.cursor = next;
            },
            None => match cursor.move_next_line() {
                Some(next) => {
                    self.cursor = next;
                },
                None => {
                    self.nextable = false;
                },
            },
        }
        Some(cursor)
    }
}

impl Grid {
    /// A cursor on the first cell of the first row.
    pub fn cursor(&self) -> (r: Cursor<'_>)
        requires
            in_bounds(self@, 0, 0),
        ensures
            r.grid() == self@,
            r.col() == 0,
            r.row() == 0,
    {
        Cursor::new(self)
    }
}

} // verus!
