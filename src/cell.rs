//! The value held at one position of a map, and its text form.
use vstd::prelude::*;

use crate::text::{push_char, push_str};

verus! {

/// Character of a sea cell.
pub const SEA_CHAR: char = ' ';

/// Character of an unlabelled earth cell.
pub const EARTH_CHAR: char = '#';

/// Number of labels: the digits `0-9` then the letters `a-z`.
pub const RADIX_BASE: u32 = 36;

/// A label: one of `0123456789abcdefghijklmnopqrstuvwxyz`.
pub open spec fn is_label(c: char) -> bool {
    ('0' <= c && c <= '9') || ('a' <= c && c <= 'z')
}

/// The label that follows `c` in the alphabet, if any.
pub open spec fn next_label(c: char) -> Option<char> {
    if c == '9' {
        Some('a')
    } else if ('0' <= c && c < '9') || ('a' <= c && c < 'z') {
        Some(((c as u32) + 1) as char)
    } else {
        None
    }
}

/// Characters that stand for a cell in the text form of a map.
pub open spec fn is_cell_char(c: char) -> bool {
    c == SEA_CHAR || c == EARTH_CHAR || is_label(c)
}

/// The cell a character stands for, if it stands for one.
pub open spec fn cell_of_char(c: char) -> Option<Cell> {
    if c == SEA_CHAR {
        Some(Cell::Sea)
    } else if c == EARTH_CHAR {
        Some(Cell::Earth)
    } else if is_label(c) {
        Some(Cell::MarkedEarth(c))
    } else {
        None
    }
}

/// The character a cell is written as.
pub open spec fn char_of_cell(cell: Cell) -> char {
    match cell {
        Cell::Sea => SEA_CHAR,
        Cell::Earth => EARTH_CHAR,
        Cell::MarkedEarth(c) => c,
    }
}

/// Whether `c` stands for a cell.
pub fn is_valid_cell_char(c: char) -> (r: bool)
    ensures
        r == is_cell_char(c),
{
    ('0' <= c && c <= '9') || ('a' <= c && c <= 'z') || c == SEA_CHAR || c == EARTH_CHAR
}

/// The label after `c`; `None` after `'z'` or when `c` is no label.
pub fn increment_char(c: char) -> (r: Option<char>)
    ensures
        r == next_label(c),
{
    if c == '9' {
        Some('a')
    } else if ('0' <= c && c < '9') || ('a' <= c && c < 'z') {
        Some(((c as u8) + 1) as char)
    } else {
        None
    }
}

/// A position of the map.
#[derive(Copy, Clone, Debug, PartialEq, Eq, Structural)]
pub enum Cell {
    Sea,
    Earth,
    MarkedEarth(char),
}

/// A character that stands for no cell.
#[derive(Copy, Clone, Debug, PartialEq, Eq, Structural)]
pub struct Parse(pub char);

/// Why a cell could not be incremented; each variant holds the cell as it was.
#[derive(Copy, Clone, Debug, PartialEq, Eq, Structural)]
pub enum Increment {
    Overflow { cell: Cell },
    NotValidCell { cell: Cell },
}

/// The sentence describing why a cell could not be incremented.
pub open spec fn increment_text(e: Increment) -> Seq<char> {
    match e {
        Increment::Overflow { cell } => "cannot increment the cell '"@ + seq![char_of_cell(cell)]
            + "' because this is the maximum allowed character for marked earth"@,
        Increment::NotValidCell { cell } => "cannot increment the cell '"@ + seq![
            char_of_cell(cell),
        ] + "' because only Cell::MarkedEarth can be incremented"@,
    }
}

impl Increment {
    /// Describes the failure in one sentence.
    pub fn message(&self) -> (r: String)
        ensures
            r@ == increment_text(*self),
    {
        let mut out = String::new();
        push_str(&mut out, "cannot increment the cell '");
        match *self {
            Increment::Overflow { cell } => {
                push_char(&mut out, char::from(cell));
                push_str(&mut out, "' because this is the maximum allowed character for marked earth");
            },
            Increment::NotValidCell { cell } => {
                push_char(&mut out, char::from(cell));
                push_str(&mut out, "' because only Cell::MarkedEarth can be incremented");
            },
        }
        assert(out@ =~= increment_text(*self));
        out
    }
}

impl Cell {
    /// Only plain earth can receive a label.
    pub fn is_markable(&self) -> (r: bool)
        ensures
            r == (*self is Earth),
    {
        match self {
            Cell::Earth => true,
            _ => false,
        }
    }

    /// Whether the cell already holds a label.
    pub fn is_marked(&self) -> (r: bool)
        ensures
            r == (*self is MarkedEarth),
    {
        match self {
            Cell::MarkedEarth(_) => true,
            _ => false,
        }
    }

    /// Replaces a labelled cell by the one holding the next label.
    /// On failure the cell is left as it was.
    pub fn increment(&mut self) -> (r: Result<(), Increment>)
        ensures
            match *old(self) {
                Cell::MarkedEarth(c) => match next_label(c) {
                    Some(n) => r == Ok::<(), Increment>(()) && *final(self) == Cell::MarkedEarth(n),
                    None => r == Err::<(), Increment>(Increment::Overflow { cell: *old(self) })
                        && *final(self) == *old(self),
                },
                _ => r == Err::<(), Increment>(Increment::NotValidCell { cell: *old(self) })
                    && *final(self) == *old(self),
            },
    {
        let cell = *self;
        match cell {
            Cell::MarkedEarth(c) => match increment_char(c) {
                Some(n) => {
                    *self = Cell::MarkedEarth(n);
                    Ok(())
                },
                None => Err(Increment::Overflow { cell }),
            },
            _ => Err(Increment::NotValidCell { cell }),
        }
    }
}

impl TryFrom<char> for Cell {
    type Error = Parse;

    fn try_from(c: char) -> (r: Result<Cell, Parse>) {
        if c == SEA_CHAR {
            Ok(Cell::Sea)
        } else if c == EARTH_CHAR {
            Ok(Cell::Earth)
        } else if is_valid_cell_char(c) {
            Ok(Cell::MarkedEarth(c))
        } else {
            Err(Parse(c))
        }
    }
}

impl vstd::std_specs::convert::TryFromSpecImpl<char> for Cell {
    open spec fn obeys_try_from_spec() -> bool {
        true
    }

    open spec fn try_from_spec(c: char) -> Result<Cell, Parse> {
        match cell_of_char(c) {
            Some(cell) => Ok(cell),
            None => Err(Parse(c)),
        }
    }
}

impl From<Cell> for char {
    fn from(cell: Cell) -> (r: char) {
        match cell {
            Cell::Sea => SEA_CHAR,
            Cell::Earth => EARTH_CHAR,
            Cell::MarkedEarth(c) => c,
        }
    }
}

impl vstd::std_specs::convert::FromSpecImpl<Cell> for char {
    open spec fn obeys_from_spec() -> bool {
        true
    }

    open spec fn from_spec(cell: Cell) -> char {
        char_of_cell(cell)
    }
}

} // verus!
