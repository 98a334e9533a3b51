//! The two error taxonomies: what can go wrong while compiling a script,
//! and what can go wrong while running a program. Both are plain data.

use vstd::prelude::*;
use vstd::std_specs::convert::FromSpecImpl;

verus! {

/// The mathematical form of a compile-time diagnostic: its kind and the
/// position, line first, of the bracket that it is about.
pub enum Fault {
    MissingOpeningBracket(nat, nat),
    MissingClosingBracket(nat, nat),
}

/// Why a script could not be compiled. Both kinds carry the line and the
/// column, counted from one, of the bracket that has no counterpart.
#[derive(Debug)]
pub enum SyntaxError {
    MissingOpeningBracket(usize, usize),
    MissingClosingBracket(usize, usize),
}

impl View for SyntaxError {
    type V = Fault;

    open spec fn view(&self) -> Fault {
        match *self {
            SyntaxError::MissingOpeningBracket(line, column) => Fault::MissingOpeningBracket(
                line as nat,
                column as nat,
            ),
            SyntaxError::MissingClosingBracket(line, column) => Fault::MissingClosingBracket(
                line as nat,
                column as nat,
            ),
        }
    }
}

/// `std::io::Error`, carried through as the cause of a failed read or
/// write. Nothing is known of what it holds.
#[verifier::external_type_specification]
#[verifier::external_body]
pub struct ExIoError(std::io::Error);

/// Why a run stopped before the end of its program.
#[derive(Debug)]
pub enum RuntimeError {
    /// Reading a byte or writing one failed; the cause is inside.
    Io(std::io::Error),
    /// A move would have taken the pointer before the first cell.
    CellUnderflow,
    /// A move would have taken the pointer past the last cell.
    CellOverflow,
}

impl From<std::io::Error> for RuntimeError {
    fn from(err: std::io::Error) -> (error: RuntimeError) {
        RuntimeError::Io(err)
    }
}

impl FromSpecImpl<std::io::Error> for RuntimeError {
    open spec fn obeys_from_spec() -> bool {
        true
    }

    open spec fn from_spec(err: std::io::Error) -> RuntimeError {
        RuntimeError::Io(err)
    }
}

} // verus!
