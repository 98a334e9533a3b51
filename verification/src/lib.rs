//! A two-stage engine for a minimal eight-token tape language: scripts are
//! compiled into a folded, loop-resolved program, and programs are run
//! against a fixed tape of wrapping byte cells.
//!
//! - `instruction` holds the instruction model and its canonical text.
//! - `error` holds the two error taxonomies, as plain data.
//! - `syntax` says what compiling a script means.
//! - `structure` says what shape a compiled program has.
//! - `interpreter` holds the compiler.
//! - `machine` holds the tape, what each instruction does to it, and the
//!   runs of a program.
//! - `canonical` shows that the text of a compiled program compiles to
//!   that program again.
//! - `folding` shows that a compiled program does what the tokens of its
//!   script do one by one.
//!
//! The library reads and writes nothing. A run hands control back where
//! its program wants a byte read or written, and goes on when it is told
//! what came of that.

pub mod canonical;
pub mod error;
pub mod folding;
pub mod instruction;
pub mod interpreter;
pub mod machine;
pub mod structure;
pub mod syntax;

pub use error::{RuntimeError, SyntaxError};
pub use instruction::Instruction;
pub use interpreter::Interpreter;
pub use machine::{Action, Machine, MEMORY_SIZE};
