//! What compiling a script means: a single pass over its bytes that folds
//! runs of moves and of cell changes, matches the loop brackets and keeps
//! track of the position in the source.

use vstd::prelude::*;
use crate::error::Fault;
use crate::instruction::{Op, CLOSE, COMMA, DOT, GREATER, LESS, MINUS, OPEN, PLUS};

verus! {

/// The newline, the byte that ends a line of the source.
pub const NEWLINE: u8 = 10;

/// A `[` that still waits for its `]`: the index of its instruction and
/// the place in the source where it stands.
pub struct Opening {
    pub index: nat,
    pub line: nat,
    pub column: nat,
}

/// The compiler's state between two bytes of the script.
pub struct Scan {
    /// The instructions emitted so far. A loop that is still open has the
    /// placeholder target zero.
    pub program: Seq<Op>,
    /// The loops that are still open, the innermost last.
    pub open: Seq<Opening>,
    /// The line of the next byte, counted from one.
    pub line: nat,
    /// The column of the next byte, counted from one.
    pub column: nat,
}

/// The program after a `<`: one more step to the left, or one step less
/// to the right.
pub open spec fn fold_left(program: Seq<Op>) -> Seq<Op> {
    if program.len() == 0 {
        program.push(Op::MoveLeft(1))
    } else {
        match program.last() {
            Op::MoveLeft(n) => program.drop_last().push(Op::MoveLeft(n + 1)),
            Op::MoveRight(n) => if n <= 1 {
                program.drop_last()
            } else {
                program.drop_last().push(Op::MoveRight((n - 1) as nat))
            },
            _ => program.push(Op::MoveLeft(1)),
        }
    }
}

/// The program after a `>`: one more step to the right, or one step less
/// to the left.
pub open spec fn fold_right(program: Seq<Op>) -> Seq<Op> {
    if program.len() == 0 {
        program.push(Op::MoveRight(1))
    } else {
        match program.last() {
            Op::MoveRight(n) => program.drop_last().push(Op::MoveRight(n + 1)),
            Op::MoveLeft(n) => if n <= 1 {
                program.drop_last()
            } else {
                program.drop_last().push(Op::MoveLeft((n - 1) as nat))
            },
            _ => program.push(Op::MoveRight(1)),
        }
    }
}

/// The program after a `+`: the cell's delta goes up by one. A delta of
/// 256 is none at all, since cells wrap.
pub open spec fn fold_up(program: Seq<Op>) -> Seq<Op> {
    if program.len() == 0 {
        program.push(Op::Increment(1))
    } else {
        match program.last() {
            Op::Increment(n) => if n + 1 >= 256 {
                program.drop_last()
            } else {
                program.drop_last().push(Op::Increment(n + 1))
            },
            Op::Decrement(n) => if n <= 1 {
                program.drop_last()
            } else {
                program.drop_last().push(Op::Decrement((n - 1) as nat))
            },
            _ => program.push(Op::Increment(1)),
        }
    }
}

/// The program after a `-`: the cell's delta goes down by one.
pub open spec fn fold_down(program: Seq<Op>) -> Seq<Op> {
    if program.len() == 0 {
        program.push(Op::Decrement(1))
    } else {
        match program.last() {
            Op::Decrement(n) => if n + 1 >= 256 {
                program.drop_last()
            } else {
                program.drop_last().push(Op::Decrement(n + 1))
            },
            Op::Increment(n) => if n <= 1 {
                program.drop_last()
            } else {
                program.drop_last().push(Op::Increment((n - 1) as nat))
            },
            _ => program.push(Op::Decrement(1)),
        }
    }
}

impl Scan {
    /// The state before the first byte.
    pub open spec fn start() -> Scan {
        Scan { program: Seq::empty(), open: Seq::empty(), line: 1, column: 1 }
    }

    /// This state with another program, at the same place.
    pub open spec fn with_program(self, program: Seq<Op>) -> Scan {
        Scan { program, ..self }
    }

    /// The state after a `[`: a placeholder is emitted and remembered with
    /// the place of the bracket.
    pub open spec fn opened(self) -> Scan {
        Scan {
            program: self.program.push(Op::StartLoop(0)),
            open: self.open.push(
                Opening { index: self.program.len(), line: self.line, column: self.column },
            ),
            ..self
        }
    }

    /// The state after a `]` that closes the innermost open loop: the
    /// placeholder gets the index of the new instruction, and the new
    /// instruction the index of the placeholder.
    pub open spec fn closed(self) -> Scan {
        let start = self.open.last().index;
        Scan {
            program: self.program.update(start as int, Op::StartLoop(self.program.len())).push(
                Op::EndLoop(start),
            ),
            open: self.open.drop_last(),
            ..self
        }
    }

    /// This state one byte further on in the source: a newline begins the
    /// next line at column one, any other byte takes one column.
    pub open spec fn past(self, token: u8) -> Scan {
        if token == NEWLINE {
            Scan { line: self.line + 1, column: 1, ..self }
        } else {
            Scan { column: self.column + 1, ..self }
        }
    }

    /// The state after one more byte of the script, or the diagnostic that
    /// the byte gives rise to.
    pub open spec fn consume(self, token: u8) -> Result<Scan, Fault> {
        if token == CLOSE && self.open.len() == 0 {
            Err(Fault::MissingOpeningBracket(self.line, self.column))
        } else {
            Ok(
                (if token == LESS {
                    self.with_program(fold_left(self.program))
                } else if token == GREATER {
                    self.with_program(fold_right(self.program))
                } else if token == PLUS {
                    self.with_program(fold_up(self.program))
                } else if token == MINUS {
                    self.with_program(fold_down(self.program))
                } else if token == COMMA {
                    self.with_program(self.program.push(Op::Read))
                } else if token == DOT {
                    self.with_program(self.program.push(Op::Write))
                } else if token == OPEN {
                    self.opened()
                } else if token == CLOSE {
                    self.closed()
                } else {
                    self
                }).past(token),
            )
        }
    }

    /// The state after one more byte of the script where nothing is
    /// folded: every move and every cell change becomes an instruction of
    /// its own, with the count one. Brackets and positions are treated as
    /// in `consume`.
    pub open spec fn spell(self, token: u8) -> Result<Scan, Fault> {
        if token == CLOSE && self.open.len() == 0 {
            Err(Fault::MissingOpeningBracket(self.line, self.column))
        } else {
            Ok(
                (if token == LESS {
                    self.with_program(self.program.push(Op::MoveLeft(1)))
                } else if token == GREATER {
                    self.with_program(self.program.push(Op::MoveRight(1)))
                } else if token == PLUS {
                    self.with_program(self.program.push(Op::Increment(1)))
                } else if token == MINUS {
                    self.with_program(self.program.push(Op::Decrement(1)))
                } else if token == COMMA {
                    self.with_program(self.program.push(Op::Read))
                } else if token == DOT {
                    self.with_program(self.program.push(Op::Write))
                } else if token == OPEN {
                    self.opened()
                } else if token == CLOSE {
                    self.closed()
                } else {
                    self
                }).past(token),
            )
        }
    }
}

/// The state after the whole of `script`, or the first diagnostic on the
/// way.
pub open spec fn scan(script: Seq<u8>) -> Result<Scan, Fault>
    decreases script.len(),
{
    if script.len() == 0 {
        Ok(Scan::start())
    } else {
        match scan(script.drop_last()) {
            Ok(state) => state.consume(script.last()),
            Err(fault) => Err(fault),
        }
    }
}

/// The program that `script` compiles to, or the diagnostic that it is
/// rejected with. A script that ends with loops still open is rejected at
/// the place of the innermost of them.
pub open spec fn compile(script: Seq<u8>) -> Result<Seq<Op>, Fault> {
    match scan(script) {
        Ok(state) => if state.open.len() == 0 {
            Ok(state.program)
        } else {
            Err(Fault::MissingClosingBracket(state.open.last().line, state.open.last().column))
        },
        Err(fault) => Err(fault),
    }
}

/// The state after the whole of `script` where nothing is folded, or the
/// first diagnostic on the way.
pub open spec fn spelled(script: Seq<u8>) -> Result<Scan, Fault>
    decreases script.len(),
{
    if script.len() == 0 {
        Ok(Scan::start())
    } else {
        match spelled(script.drop_last()) {
            Ok(state) => state.spell(script.last()),
            Err(fault) => Err(fault),
        }
    }
}

/// The program that takes every token of `script` by itself, with
/// nothing folded, or the diagnostic that the script is rejected with.
pub open spec fn literal(script: Seq<u8>) -> Result<Seq<Op>, Fault> {
    match spelled(script) {
        Ok(state) => if state.open.len() == 0 {
            Ok(state.program)
        } else {
            Err(Fault::MissingClosingBracket(state.open.last().line, state.open.last().column))
        },
        Err(fault) => Err(fault),
    }
}

/// A diagnostic ends the scan: what follows the byte that gave rise to it
/// changes nothing.
pub proof fn lemma_scan_stops(script: Seq<u8>, read: int)
    requires
        0 <= read <= script.len(),
        scan(script.take(read)) is Err,
    ensures
        scan(script) == scan(script.take(read)),
    decreases script.len() - read,
{
    if read == script.len() {
        assert(script.take(read) =~= script);
    } else {
        assert(script.take(read + 1).drop_last() =~= script.take(read));
        lemma_scan_stops(script, read + 1);
    }
}

} // verus!
