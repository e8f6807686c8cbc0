//! A grid: rows of cells, read from and written back to text.
use vstd::prelude::*;

use crate::cell::{cell_of_char, char_of_cell, is_cell_char, Cell};
use crate::error::{Error, ErrorList};
use crate::text::push_char;

verus! {

/// Rows of cells; rows may differ in length.
#[derive(Debug)]
pub struct Grid(pub Vec<Vec<Cell>>);

pub type GridResult<T = Grid> = Result<T, ErrorList>;

impl View for Grid {
    type V = Seq<Seq<Cell>>;

    open spec fn view(&self) -> Seq<Seq<Cell>> {
        self.0@.map_values(|row: Vec<Cell>| row@)
    }
}

/// Whether `(x, y)` names a cell of `m`: `y` a row, `x` a column of that row.
pub open spec fn in_bounds(m: Seq<Seq<Cell>>, x: int, y: int) -> bool {
    0 <= y < m.len() && 0 <= x < m[y].len()
}

/// The pieces of `s` between newline characters; there is always at least one.
pub open spec fn split_newlines(s: Seq<char>) -> Seq<Seq<char>>
    decreases s.len(),
{
    if s.len() == 0 {
        seq![Seq::<char>::empty()]
    } else if s.last() == '\n' {
        split_newlines(s.drop_last()).push(Seq::<char>::empty())
    } else {
        let p = split_newlines(s.drop_last());
        p.update(p.len() - 1, p.last().push(s.last()))
    }
}

/// The lines of a text: a newline ends a line, and a last line without one counts too.
pub open spec fn text_lines(s: Seq<char>) -> Seq<Seq<char>> {
    if s.len() == 0 {
        Seq::<Seq<char>>::empty()
    } else if s.last() == '\n' {
        split_newlines(s.drop_last())
    } else {
        split_newlines(s)
    }
}

/// A character read as a cell, with sea standing in for anything else.
pub open spec fn cell_or_sea(c: char) -> Cell {
    match cell_of_char(c) {
        Some(cell) => cell,
        None => Cell::Sea,
    }
}

/// One line of text read as a row of cells.
pub open spec fn row_of_line(l: Seq<char>) -> Seq<Cell> {
    l.map_values(|c: char| cell_or_sea(c))
}

/// The rows of cells that a text describes.
pub open spec fn rows_of_text(s: Seq<char>) -> Seq<Seq<Cell>> {
    text_lines(s).map_values(|l: Seq<char>| row_of_line(l))
}

/// The problem that character `c` at column `col` of line `line` gives, if any.
pub open spec fn char_error(c: char, line: int, col: int) -> Seq<Error> {
    if is_cell_char(c) {
        Seq::<Error>::empty()
    } else {
        seq![Error::InvalidChar { char: c, line: line as usize, col: col as usize }]
    }
}

/// The invalid characters of line number `line`, left to right.
pub open spec fn char_errors(l: Seq<char>, line: int) -> Seq<Error>
    decreases l.len(),
{
    if l.len() == 0 {
        Seq::<Error>::empty()
    } else {
        char_errors(l.drop_last(), line) + char_error(l.last(), line, l.len() as int)
    }
}

/// The problems of line number `line`: an empty line, or its invalid characters.
pub open spec fn line_errors(l: Seq<char>, line: int) -> Seq<Error> {
    if l.len() == 0 {
        seq![Error::EmptyLine(line as usize)]
    } else {
        char_errors(l, line)
    }
}

/// The problems of all lines, top to bottom.
pub open spec fn lines_errors(ls: Seq<Seq<char>>) -> Seq<Error>
    decreases ls.len(),
{
    if ls.len() == 0 {
        Seq::<Error>::empty()
    } else {
        lines_errors(ls.drop_last()) + line_errors(ls.last(), ls.len() as int)
    }
}

/// The problems of a text, in the order a reading pass meets them.
pub open spec fn parse_errors(s: Seq<char>) -> Seq<Error> {
    if s.len() == 0 {
        seq![Error::EmptyMap]
    } else {
        lines_errors(text_lines(s))
    }
}

/// The characters of a row.
pub open spec fn row_text(row: Seq<Cell>) -> Seq<char> {
    row.map_values(|cell: Cell| char_of_cell(cell))
}

/// The text of a map: each row followed by a newline.
pub open spec fn render_rows(rows: Seq<Seq<Cell>>) -> Seq<char>
    decreases rows.len(),
{
    if rows.len() == 0 {
        Seq::<char>::empty()
    } else {
        render_rows(rows.drop_last()) + row_text(rows.last()).push('\n')
    }
}

impl Grid {
    /// The cell at column `x` of row `y`, if there is one.
    pub fn get(&self, coord: (usize, usize)) -> (r: Option<Cell>)
        ensures
            r == (if in_bounds(self@, coord.0 as int, coord.1 as int) {
                Some(self@[coord.1 as int][coord.0 as int])
            } else {
                None::<Cell>
            }),
    {
        let (x, y) = coord;
        if y < self.0.len() && x < self.0[y].len() {
            Some(self.0[y][x])
        } else {
            None
        }
    }

    /// Replaces the cell at column `x` of row `y`; out of bounds nothing changes.
    pub fn write(&mut self, coord: (usize, usize), new_cell: Cell) -> (r: Option<()>)
        ensures
            in_bounds(old(self)@, coord.0 as int, coord.1 as int) ==> r == Some(())
                && final(self)@ == old(self)@.update(
                coord.1 as int,
                old(self)@[coord.1 as int].update(coord.0 as int, new_cell),
            ),
            !in_bounds(old(self)@, coord.0 as int, coord.1 as int) ==> r == None::<()>
                && final(self)@ == old(self)@,
    {
        let (x, y) = coord;
        if y < self.0.len() && x < self.0[y].len() {
            self.0[y].set(x, new_cell);
            assert(final(self)@ =~= old(self)@.update(
                y as int,
                old(self)@[y as int].update(x as int, new_cell),
            ));
            Some(())
        } else {
            None
        }
    }

    /// Reads a grid from text, collecting every problem of the text.
    /// A text with any problem gives all of them, in the order they were met, and no grid.
    #[verifier::spinoff_prover]
    pub fn parse(s: &str) -> (r: GridResult)
        ensures
            match r {
                Ok(g) => parse_errors(s@).len() == 0 && g@ == rows_of_text(s@),
                Err(e) => parse_errors(s@).len() > 0 && e.0@ == parse_errors(s@),
            },
    {
        let text = chars_of(s);
        let n = text.len();
        if n == 0 {
            return Err(ErrorList(vec![Error::EmptyMap]));
        }
        let mut rows: Vec<Vec<Cell>> = Vec::new();
        let mut row: Vec<Cell> = Vec::new();
        let mut errors: Vec<Error> = Vec::new();
        let mut i: usize = 0;
        while i < n
            invariant
                i <= n == text@.len(),
                text@ == s@,
                rows.len() <= i,
                row.len() <= i,
                split_newlines(text@.take(i as int)).len() == rows.len() + 1,
                forall|k: int|
                    0 <= k < rows.len() ==> #[trigger] rows@[k]@ == row_of_line(
                        split_newlines(text@.take(i as int))[k],
                    ),
                row@ == row_of_line(split_newlines(text@.take(i as int)).last()),
                errors@ == lines_errors(split_newlines(text@.take(i as int)).drop_last())
                    + char_errors(split_newlines(text@.take(i as int)).last(), rows.len() + 1),
            decreases n - i,
        {
            let ghost p = text@.take(i as int);
            let ghost q = split_newlines(p);
            let ghost old_errors = errors@;
            let c = text[i];
            assert(text@.take(i + 1) =~= p.push(c));
            let line = rows.len() + 1;
            if c == '\n' {
                if row.len() == 0 {
                    errors.push(Error::EmptyLine(line));
                }
                proof {
                    lemma_newline_ends_line(p, line as int);
                }
                rows.push(row);
                row = Vec::new();
                assert(row@ =~= row_of_line(Seq::<char>::empty()));
            } else {
                let cell = match Cell::try_from(c) {
                    Ok(cell) => {
                        proof {
                            lemma_no_char_error(old_errors, c, line as int, row.len() + 1int);
                        }
                        cell
                    },
                    Err(_) => {
                        errors.push(Error::InvalidChar { char: c, line, col: row.len() + 1 });
                        proof {
                            lemma_one_char_error(old_errors, c, line as int, row.len() + 1int);
                        }
                        Cell::Sea
                    },
                };
                proof {
                    lemma_char_extends_line(p, c, line as int);
                }
                row.push(cell);
                assert(row@ =~= row_of_line(q.last().push(c)));
            }
            i += 1;
        }
        let ghost q = split_newlines(text@);
        assert(text@.take(n as int) =~= text@);
        if text[n - 1] != '\n' {
            proof {
                let pre = split_newlines(text@.drop_last());
                lemma_split_newlines_nonempty(text@.drop_last());
                assert(q == pre.update(pre.len() - 1, pre.last().push(text@.last())));
                assert(q.last().len() > 0);
                assert(lines_errors(q) == lines_errors(q.drop_last()) + line_errors(q.last(), q.len() as int));
                assert(errors@ == lines_errors(text_lines(s@)));
            }
            rows.push(row);
        } else {
            proof {
                assert(q == split_newlines(text@.drop_last()).push(Seq::<char>::empty()));
                assert(q.drop_last() =~= text_lines(s@));
                assert(char_errors(Seq::<char>::empty(), rows.len() + 1) =~= Seq::<Error>::empty());
                assert(errors@ =~= lines_errors(text_lines(s@)));
            }
        }
        let grid = Grid(rows);
        assert(grid@ =~= rows_of_text(s@));
        if errors.len() == 0 {
            Ok(grid)
        } else {
            Err(ErrorList(errors))
        }
    }

    /// The text of the grid: each row's characters, then a newline, also after the last row.
    pub fn render(&self) -> (r: String)
        ensures
            r@ == render_rows(self@),
    {
        let mut out = String::new();
        let mut y: usize = 0;
        while y < self.0.len()
            invariant
                y <= self.0.len(),
                out@ == render_rows(self@.take(y as int)),
            decreases self.0.len() - y,
        {
            let row = &self.0[y];
            let mut x: usize = 0;
            while x < row.len()
                invariant
                    y < self.0.len(),
                    row@ == self@[y as int],
                    x <= row.len(),
                    out@ == render_rows(self@.take(y as int)) + row_text(row@.take(x as int)),
                decreases row.len() - x,
            {
                push_char(&mut out, char::from(row[x]));
                assert(row_text(row@.take(x + 1)) =~= row_text(row@.take(x as int)).push(
                    char_of_cell(row@[x as int]),
                ));
                x += 1;
            }
            push_char(&mut out, '\n');
            assert(self@.take(y + 1).drop_last() =~= self@.take(y as int));
            assert(row@.take(row.len() as int) =~= row@);
            y += 1;
        }
        assert(self@.take(self.0.len() as int) =~= self@);
        out
    }
}

impl std::str::FromStr for Grid {
    type Err = ErrorList;

    fn from_str(s: &str) -> (r: Result<Grid, ErrorList>)
        ensures
            match r {
                Ok(g) => parse_errors(s@).len() == 0 && g@ == rows_of_text(s@),
                Err(e) => parse_errors(s@).len() > 0 && e.0@ == parse_errors(s@),
            },
    {
        Grid::parse(s)
    }
}

/// The characters of `s`, in order.
fn chars_of(s: &str) -> (v: Vec<char>)
    ensures
        v@ == s@,
{
    let mut v: Vec<char> = Vec::new();
    for c in it: s.chars()
        invariant
            it.seq() == s@,
            v@ == it.seq().take(it.index()),
    {
        v.push(c);
    }
    v
}

/// After a newline, the line read so far is finished and an empty one begins.
proof fn lemma_newline_ends_line(p: Seq<char>, line: int)
    requires
        split_newlines(p).len() == line,
    ensures
        split_newlines(p.push('\n')) == split_newlines(p).push(Seq::<char>::empty()),
        lines_errors(split_newlines(p.push('\n')).drop_last()) + char_errors(Seq::<char>::empty(), line + 1)
            == lines_errors(split_newlines(p).drop_last()) + line_errors(split_newlines(p).last(), line),
{
    let q = split_newlines(p);
    assert(p.push('\n').drop_last() =~= p);
    assert(split_newlines(p.push('\n')).drop_last() =~= q);
    assert(char_errors(Seq::<char>::empty(), line + 1) =~= Seq::<Error>::empty());
    lemma_split_newlines_nonempty(p);
    assert(lines_errors(q) == lines_errors(q.drop_last()) + line_errors(q.last(), line));
    assert(lines_errors(q) + Seq::<Error>::empty() =~= lines_errors(q));
}

/// Any other character extends the line read so far.
proof fn lemma_char_extends_line(p: Seq<char>, c: char, line: int)
    requires
        c != '\n',
        split_newlines(p).len() == line,
    ensures
        split_newlines(p.push(c)).len() == line,
        split_newlines(p.push(c)).drop_last() == split_newlines(p).drop_last(),
        split_newlines(p.push(c)).last() == split_newlines(p).last().push(c),
        forall|k: int| 0 <= k < line - 1 ==> #[trigger] split_newlines(p.push(c))[k] == split_newlines(p)[k],
        lines_errors(split_newlines(p.push(c)).drop_last()) + char_errors(split_newlines(p.push(c)).last(), line)
            == lines_errors(split_newlines(p).drop_last()) + char_errors(split_newlines(p).last(), line)
            + char_error(c, line, split_newlines(p).last().len() + 1int),
{
    let q = split_newlines(p);
    let l = q.last().push(c);
    lemma_split_newlines_nonempty(p);
    assert(p.push(c).drop_last() =~= p);
    let q2 = split_newlines(p.push(c));
    assert(q2 == q.update(q.len() - 1, l));
    assert(q2.drop_last() =~= q.drop_last());
    assert(l.drop_last() =~= q.last());
    assert(char_errors(l, line) == char_errors(q.last(), line) + char_error(c, line, l.len() as int));
    let a = lines_errors(q.drop_last());
    let b = char_errors(q.last(), line);
    let e = char_error(c, line, l.len() as int);
    assert(a + (b + e) =~= (a + b) + e);
}

/// A cell character adds no problem.
proof fn lemma_no_char_error(errors: Seq<Error>, c: char, line: int, col: int)
    requires
        is_cell_char(c),
    ensures
        errors + char_error(c, line, col) == errors,
{
    assert(errors + char_error(c, line, col) =~= errors);
}

/// Any other character adds one invalid-character problem.
proof fn lemma_one_char_error(errors: Seq<Error>, c: char, line: int, col: int)
    requires
        !is_cell_char(c),
    ensures
        char_error(c, line, col).len() == 1,
        errors + char_error(c, line, col) == errors.push(
            Error::InvalidChar { char: c, line: line as usize, col: col as usize },
        ),
{
    assert(errors + char_error(c, line, col) =~= errors.push(
        Error::InvalidChar { char: c, line: line as usize, col: col as usize },
    ));
}

/// Every character of every line stands for a cell.
pub open spec fn all_cell_chars(ls: Seq<Seq<char>>) -> bool {
    forall|i: int, j: int| 0 <= i < ls.len() && 0 <= j < ls[i].len() ==> is_cell_char(#[trigger] ls[i][j])
}

/// A line without problems holds only cell characters.
proof fn lemma_no_char_errors(l: Seq<char>, line: int)
    requires
        char_errors(l, line).len() == 0,
    ensures
        forall|j: int| 0 <= j < l.len() ==> is_cell_char(#[trigger] l[j]),
    decreases l.len(),
{
    if l.len() > 0 {
        let last_error = char_error(l.last(), line, l.len() as int);
        assert(char_errors(l, line) == char_errors(l.drop_last(), line) + last_error);
        assert(char_errors(l.drop_last(), line).len() == 0);
        assert(last_error.len() == 0);
        lemma_no_char_errors(l.drop_last(), line);
        assert forall|j: int| 0 <= j < l.len() implies is_cell_char(#[trigger] l[j]) by {
            if j < l.len() - 1 {
                assert(l[j] == l.drop_last()[j]);
            } else if !is_cell_char(l.last()) {
                lemma_one_char_error(Seq::<Error>::empty(), l.last(), line, l.len() as int);
            }
        }
    }
}

/// Lines without problems hold only cell characters.
proof fn lemma_no_errors_all_cell_chars(ls: Seq<Seq<char>>)
    requires
        lines_errors(ls).len() == 0,
    ensures
        all_cell_chars(ls),
    decreases ls.len(),
{
    if ls.len() > 0 {
        lemma_no_errors_all_cell_chars(ls.drop_last());
        lemma_no_char_errors(ls.last(), ls.len() as int);
        assert forall|i: int, j: int| 0 <= i < ls.len() && 0 <= j < ls[i].len() implies is_cell_char(
            #[trigger] ls[i][j],
        ) by {
            if i < ls.len() - 1 {
                assert(ls[i] == ls.drop_last()[i]);
            }
        }
    }
}

/// A line of cell characters is written back as it was read.
proof fn lemma_row_text_of_line(l: Seq<char>)
    requires
        forall|j: int| 0 <= j < l.len() ==> is_cell_char(#[trigger] l[j]),
    ensures
        row_text(row_of_line(l)) == l,
{
    assert(row_text(row_of_line(l)) =~= l);
}

/// Writing back the lines of `t` gives `t` and a final newline.
proof fn lemma_render_lines(t: Seq<char>)
    requires
        all_cell_chars(split_newlines(t)),
    ensures
        render_rows(split_newlines(t).map_values(|l: Seq<char>| row_of_line(l))) == t.push('\n'),
    decreases t.len(),
{
    let q = split_newlines(t);
    let rows = q.map_values(|l: Seq<char>| row_of_line(l));
    if t.len() == 0 {
        assert(q.len() == 1);
        assert(rows.len() == 1);
        assert(rows.drop_last() =~= Seq::<Seq<Cell>>::empty());
        assert(render_rows(rows.drop_last()) =~= Seq::<char>::empty());
        assert(row_text(rows.last()) =~= Seq::<char>::empty());
        assert(render_rows(rows) =~= t.push('\n'));
    } else {
        let t0 = t.drop_last();
        let p = split_newlines(t0);
        let rows0 = p.map_values(|l: Seq<char>| row_of_line(l));
        lemma_split_newlines_nonempty(t0);
        if t.last() == '\n' {
            assert forall|i: int, j: int| 0 <= i < p.len() && 0 <= j < p[i].len() implies is_cell_char(
                #[trigger] p[i][j],
            ) by {
                assert(p[i] == q[i]);
            }
            lemma_render_lines(t0);
            assert(rows.drop_last() =~= rows0);
            assert(row_text(rows.last()) =~= Seq::<char>::empty());
            assert(render_rows(rows) =~= t.push('\n'));
        } else {
            let c = t.last();
            let l = p.last().push(c);
            assert(q == p.update(p.len() - 1, l));
            assert forall|i: int, j: int| 0 <= i < p.len() && 0 <= j < p[i].len() implies is_cell_char(
                #[trigger] p[i][j],
            ) by {
                if i < p.len() - 1 {
                    assert(p[i] == q[i]);
                } else {
                    assert(p[i][j] == q[i][j]);
                }
            }
            lemma_render_lines(t0);
            assert forall|j: int| 0 <= j < l.len() implies is_cell_char(#[trigger] l[j]) by {
                assert(l[j] == q[q.len() - 1][j]);
            }
            assert forall|j: int| 0 <= j < p.last().len() implies is_cell_char(#[trigger] p.last()[j]) by {
                assert(p.last()[j] == l[j]);
            }
            lemma_row_text_of_line(l);
            lemma_row_text_of_line(p.last());
            assert(rows.drop_last() =~= rows0.drop_last());
            assert(rows.last() == row_of_line(l));
            assert(rows0.last() == row_of_line(p.last()));
            let before = render_rows(rows0.drop_last());
            assert(render_rows(rows0) == before + p.last().push('\n'));
            assert(before + p.last().push('\n') == t0.push('\n'));
            assert(before + p.last() =~= t0) by {
                assert((before + p.last().push('\n')).drop_last() =~= before + p.last());
            }
            assert(render_rows(rows) == before + l.push('\n'));
            assert(t =~= t0.push(c));
            assert(before + l =~= t);
            assert(before + l.push('\n') =~= (before + l).push('\n'));
        }
    }
}

/// Reading a text with no problem whose every line ends in a newline, then writing
/// the grid back, gives the same text.
pub proof fn lemma_render_parse_round_trip(s: Seq<char>)
    requires
        parse_errors(s).len() == 0,
        s.len() > 0,
        s.last() == '\n',
    ensures
        render_rows(rows_of_text(s)) == s,
{
    lemma_no_errors_all_cell_chars(text_lines(s));
    lemma_render_lines(s.drop_last());
    assert(s.drop_last().push('\n') =~= s);
}

/// Lines without problems are not empty.
proof fn lemma_no_errors_no_empty_line(ls: Seq<Seq<char>>)
    requires
        lines_errors(ls).len() == 0,
    ensures
        forall|i: int| 0 <= i < ls.len() ==> #[trigger] ls[i].len() > 0,
    decreases ls.len(),
{
    if ls.len() > 0 {
        lemma_no_errors_no_empty_line(ls.drop_last());
        assert forall|i: int| 0 <= i < ls.len() implies #[trigger] ls[i].len() > 0 by {
            if i < ls.len() - 1 {
                assert(ls[i] == ls.drop_last()[i]);
            }
        }
    }
}

/// A text without problems gives at least one row, and no row is empty.
pub proof fn lemma_parsed_rows_nonempty(s: Seq<char>)
    requires
        parse_errors(s).len() == 0,
    ensures
        rows_of_text(s).len() > 0,
        forall|y: int| 0 <= y < rows_of_text(s).len() ==> #[trigger] rows_of_text(s)[y].len() > 0,
{
    lemma_split_newlines_nonempty(s);
    lemma_split_newlines_nonempty(s.drop_last());
    lemma_no_errors_no_empty_line(text_lines(s));
    assert forall|y: int| 0 <= y < rows_of_text(s).len() implies #[trigger] rows_of_text(s)[y].len() > 0 by {
        assert(text_lines(s)[y].len() > 0);
    }
}

/// Splitting always gives at least one piece.
proof fn lemma_split_newlines_nonempty(s: Seq<char>)
    ensures
        split_newlines(s).len() >= 1,
    decreases s.len(),
{
    if s.len() > 0 {
        lemma_split_newlines_nonempty(s.drop_last());
    }
}

} // verus!
