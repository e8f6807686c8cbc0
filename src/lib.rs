//! Labels the 4-connected islands of a character map.
//!
//! A map is text: `' '` is sea, `'#'` is earth, and `0-9a-z` is earth that
//! already holds a label. Each island of earth gets the next free label, in the
//! order its first cell is met reading the map row by row.
use vstd::prelude::*;

pub mod cell;
pub mod cursor;
pub mod error;
pub mod filler;
pub mod grid;
pub mod text;

pub use crate::error::{Error, ErrorList};

use crate::cell::Cell;
use crate::cursor::{lemma_row_major_at, lemma_rows_before_next, row_major, rows_before};
use crate::filler::{label_scan, Filler};
use crate::grid::{in_bounds, lemma_parsed_rows_nonempty, parse_errors, render_rows, rows_of_text, Grid, GridResult};

verus! {

pub type AppResult<T = String> = GridResult<T>;

/// The grid after labelling: scanning in row-major order from label `0`.
pub open spec fn labelled(g: Seq<Seq<Cell>>) -> Seq<Seq<Cell>> {
    label_scan(g, row_major(g), Some('0'))
}

/// Reads a map, labels its islands and writes it back as text.
/// A map with problems gives every problem instead.
pub fn run(raw_map: &str) -> (r: AppResult)
    ensures
        match r {
            Ok(out) => parse_errors(raw_map@).len() == 0 && out@ == render_rows(
                labelled(rows_of_text(raw_map@)),
            ),
            Err(e) => parse_errors(raw_map@).len() > 0 && e.0@ == parse_errors(raw_map@),
        },
{
    let grid = match Grid::parse(raw_map) {
        Ok(grid) => grid,
        Err(e) => return Err(e),
    };
    let ghost g = grid@;
    proof {
        lemma_parsed_rows_nonempty(raw_map@);
    }
    let coords = scan_positions(&grid);
    let mut filler = Filler::new(grid);
    let mut i: usize = 0;
    assert(row_major(g).skip(0) =~= row_major(g));
    while i < coords.len()
        invariant
            i <= coords.len() == row_major(g).len(),
            forall|k: int|
                0 <= k < coords.len() ==> (#[trigger] coords@[k].0 as int, coords@[k].1 as int)
                    == row_major(g)[k],
            label_scan(g, row_major(g), Some('0')) == label_scan(
                filler.cells(),
                row_major(g).skip(i as int),
                filler.next(),
            ),
        ensures
            label_scan(g, row_major(g), Some('0')) == filler.cells(),
        decreases coords.len() - i,
    {
        let coord = coords[i];
        let ghost ps = row_major(g).skip(i as int);
        assert(ps[0] == (coord.0 as int, coord.1 as int));
        assert(ps.drop_first() =~= row_major(g).skip(i + 1));
        let markable = match filler.grid().get(coord) {
            Some(cell) => cell.is_markable(),
            None => false,
        };
        if markable {
            if filler.fill(coord).is_none() {
                break;
            }
        }
        i += 1;
        proof {
            if i == coords.len() {
                assert(row_major(g).skip(i as int) =~= Seq::<(int, int)>::empty());
            }
        }
    }
    Ok(filler.grid().render())
}

/// The coordinates of every cell of `grid` in row-major order, read with a cursor.
fn scan_positions(grid: &Grid) -> (r: Vec<(usize, usize)>)
    requires
        grid@.len() > 0,
        forall|y: int| 0 <= y < grid@.len() ==> #[trigger] grid@[y].len() > 0,
    ensures
        r@.len() == row_major(grid@).len(),
        forall|k: int|
            0 <= k < r@.len() ==> (#[trigger] r@[k].0 as int, r@[k].1 as int) == row_major(grid@)[k],
{
    let ghost g = grid@;
    let mut coords: Vec<(usize, usize)> = Vec::new();
    let mut it = grid.cursor().iter();
    proof {
        lemma_rows_before_next(g, 0);
    }
    loop
        invariant
            forall|y: int| 0 <= y < g.len() ==> #[trigger] g[y].len() > 0,
            g == grid@,
            coords@.len() <= row_major(g).len(),
            forall|k: int|
                0 <= k < coords@.len() ==> (#[trigger] coords@[k].0 as int, coords@[k].1 as int)
                    == row_major(g)[k],
            match it.current() {
                Some(cur) => cur.grid() == g && in_bounds(g, cur.col(), cur.row()) && rows_before(
                    g,
                    cur.row(),
                ) + cur.col() == coords@.len(),
                None => coords@.len() == row_major(g).len(),
            },
        ensures
            coords@.len() == row_major(g).len(),
            forall|k: int|
                0 <= k < coords@.len() ==> (#[trigger] coords@[k].0 as int, coords@[k].1 as int)
                    == row_major(g)[k],
        decreases row_major(g).len() - coords@.len(),
    {
        let cur = match it.next() {
            Some(cur) => cur,
            None => break,
        };
        let coord = cur.coord();
        proof {
            let (x, y) = (cur.col(), cur.row());
            lemma_row_major_at(g, x, y);
            lemma_rows_before_next(g, y);
            if in_bounds(g, x + 1, y) {
                lemma_row_major_at(g, x + 1, y);
            } else if in_bounds(g, 0, y + 1) {
                lemma_row_major_at(g, 0, y + 1);
            } else {
                assert(y + 1 == g.len());
                lemma_rows_before_next(g, g.len() - 1);
            }
        }
        coords.push(coord);
    }
    coords
}

} // verus!

