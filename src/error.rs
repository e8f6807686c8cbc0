//! What can be wrong with the text of a map.
use vstd::prelude::*;

use crate::text::{decimal, push_char, push_decimal, push_str};

verus! {

/// One problem found while reading a map; lines and columns count from 1.
#[derive(Copy, Clone, Debug, PartialEq, Eq, Structural)]
pub enum Error {
    EmptyMap,
    EmptyLine(usize),
    InvalidChar { char: char, line: usize, col: usize },
}

/// Every problem found in a map, in the order they were met.
#[derive(Clone, Debug, PartialEq, Eq)]
pub struct ErrorList(pub Vec<Error>);

/// The sentence describing an error.
pub open spec fn error_text(e: Error) -> Seq<char> {
    match e {
        Error::EmptyMap => "map is empty"@,
        Error::EmptyLine(line) => "empty line found at line '"@ + decimal(line as nat) + "'"@,
        Error::InvalidChar { char: c, line, col } => "invalid character '"@ + seq![c]
            + "' found at position "@ + decimal(line as nat) + ":"@ + decimal(col as nat),
    }
}

/// The sentences of all errors, one per line, with no newline after the last.
pub open spec fn list_text(errors: Seq<Error>) -> Seq<char>
    decreases errors.len(),
{
    if errors.len() == 0 {
        Seq::<char>::empty()
    } else if errors.len() == 1 {
        error_text(errors[0])
    } else {
        list_text(errors.drop_last()) + "\n"@ + error_text(errors.last())
    }
}

impl Error {
    /// Describes the error in one sentence.
    pub fn message(&self) -> (r: String)
        ensures
            r@ == error_text(*self),
    {
        let mut out = String::new();
        match *self {
            Error::EmptyMap => push_str(&mut out, "map is empty"),
            Error::EmptyLine(line) => {
                push_str(&mut out, "empty line found at line '");
                push_decimal(&mut out, line);
                push_str(&mut out, "'");
            },
            Error::InvalidChar { char: c, line, col } => {
                push_str(&mut out, "invalid character '");
                push_char(&mut out, c);
                push_str(&mut out, "' found at position ");
                push_decimal(&mut out, line);
                push_str(&mut out, ":");
                push_decimal(&mut out, col);
            },
        }
        assert(out@ =~= error_text(*self));
        out
    }
}

impl ErrorList {
    /// Describes every error, one per line, in the order they were found.
    pub fn message(&self) -> (r: String)
        ensures
            r@ == list_text(self.0@),
    {
        let mut out = String::new();
        let mut i: usize = 0;
        while i < self.0.len()
            invariant
                i <= self.0.len(),
                out@ == list_text(self.0@.take(i as int)),
            decreases self.0.len() - i,
        {
            if i > 0 {
                push_str(&mut out, "\n");
            }
            let m = self.0[i].message();
            push_str(&mut out, m.as_str());
            proof {
                let prefix = self.0@.take(i + 1);
                assert(prefix.drop_last() =~= self.0@.take(i as int));
                assert(out@ =~= list_text(prefix));
            }
            i += 1;
        }
        assert(self.0@.take(self.0.len() as int) =~= self.0@);
        out
    }
}

impl From<Vec<Error>> for ErrorList {
    fn from(errors: Vec<Error>) -> (r: ErrorList) {
        ErrorList(errors)
    }
}

impl vstd::std_specs::convert::FromSpecImpl<Vec<Error>> for ErrorList {
    open spec fn obeys_from_spec() -> bool {
        true
    }

    open spec fn from_spec(errors: Vec<Error>) -> ErrorList {
        ErrorList(errors)
    }
}

} // verus!
