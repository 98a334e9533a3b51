//! The instruction model: what a compiled program is made of.

use vstd::prelude::*;
use vstd::string::StringExecFns;

verus! {

/// `<`, the token that moves the pointer one cell to the left.
pub const LESS: u8 = 60;

/// `>`, the token that moves the pointer one cell to the right.
pub const GREATER: u8 = 62;

/// `+`, the token that adds one to the cell under the pointer.
pub const PLUS: u8 = 43;

/// `-`, the token that takes one from the cell under the pointer.
pub const MINUS: u8 = 45;

/// `,`, the token that reads a byte into the cell under the pointer.
pub const COMMA: u8 = 44;

/// `.`, the token that writes the cell under the pointer out.
pub const DOT: u8 = 46;

/// `[`, the token that starts a loop.
pub const OPEN: u8 = 91;

/// `]`, the token that ends a loop.
pub const CLOSE: u8 = 93;

/// The mathematical form of an instruction: the same eight kinds, with
/// unbounded counts and indices.
pub enum Op {
    MoveLeft(nat),
    MoveRight(nat),
    Increment(nat),
    Decrement(nat),
    Read,
    Write,
    StartLoop(nat),
    EndLoop(nat),
}

impl Op {
    /// The token that this operation is written with.
    pub open spec fn token(self) -> u8 {
        match self {
            Op::MoveLeft(_) => LESS,
            Op::MoveRight(_) => GREATER,
            Op::Increment(_) => PLUS,
            Op::Decrement(_) => MINUS,
            Op::Read => COMMA,
            Op::Write => DOT,
            Op::StartLoop(_) => OPEN,
            Op::EndLoop(_) => CLOSE,
        }
    }

    /// How many times the token is written: the run count of a move or of
    /// a cell change, once for everything else.
    pub open spec fn repeat(self) -> nat {
        match self {
            Op::MoveLeft(n) => n,
            Op::MoveRight(n) => n,
            Op::Increment(n) => n,
            Op::Decrement(n) => n,
            _ => 1,
        }
    }

    /// The canonical text of the operation, as script bytes.
    pub open spec fn text(self) -> Seq<u8> {
        Seq::new(self.repeat(), |i: int| self.token())
    }

    /// Whether the operation displaces the pointer.
    pub open spec fn is_move(self) -> bool {
        self is MoveLeft || self is MoveRight
    }

    /// Whether the operation changes the cell under the pointer by a delta.
    pub open spec fn is_change(self) -> bool {
        self is Increment || self is Decrement
    }
}

/// The canonical text of a sequence of operations: the texts of its
/// members, one after the other.
pub open spec fn render(program: Seq<Op>) -> Seq<u8>
    decreases program.len(),
{
    if program.len() == 0 {
        Seq::empty()
    } else {
        render(program.drop_last()) + program.last().text()
    }
}

/// One operation of a compiled program.
///
/// The two moves and the two cell changes carry a run count, the two loop
/// brackets carry the index of their counterpart in the program.
#[derive(Clone, Copy, Debug, PartialEq, Eq, Hash)]
pub enum Instruction {
    MoveLeft(usize),
    MoveRight(usize),
    Increment(u8),
    Decrement(u8),
    Read,
    Write,
    StartLoop(usize),
    EndLoop(usize),
}

impl View for Instruction {
    type V = Op;

    open spec fn view(&self) -> Op {
        match *self {
            Instruction::MoveLeft(n) => Op::MoveLeft(n as nat),
            Instruction::MoveRight(n) => Op::MoveRight(n as nat),
            Instruction::Increment(n) => Op::Increment(n as nat),
            Instruction::Decrement(n) => Op::Decrement(n as nat),
            Instruction::Read => Op::Read,
            Instruction::Write => Op::Write,
            Instruction::StartLoop(n) => Op::StartLoop(n as nat),
            Instruction::EndLoop(n) => Op::EndLoop(n as nat),
        }
    }
}

/// The operations that a sequence of instructions stands for.
pub open spec fn ops(instructions: Seq<Instruction>) -> Seq<Op> {
    instructions.map_values(|instruction: Instruction| instruction@)
}

/// A script byte read as a character.
pub open spec fn glyph(byte: u8) -> char {
    byte as char
}

/// Script bytes read as characters, one for one.
pub open spec fn glyphs(bytes: Seq<u8>) -> Seq<char> {
    bytes.map_values(|byte: u8| glyph(byte))
}

impl Instruction {
    /// The token of the instruction and the number of times it is written.
    fn written(&self) -> (written: (u8, usize))
        ensures
            written.0 == self@.token(),
            written.1 == self@.repeat(),
    {
        match *self {
            Instruction::MoveLeft(n) => (LESS, n),
            Instruction::MoveRight(n) => (GREATER, n),
            Instruction::Increment(n) => (PLUS, n as usize),
            Instruction::Decrement(n) => (MINUS, n as usize),
            Instruction::Read => (COMMA, 1),
            Instruction::Write => (DOT, 1),
            Instruction::StartLoop(_) => (OPEN, 1),
            Instruction::EndLoop(_) => (CLOSE, 1),
        }
    }

    /// Writes the instruction out as script bytes: its token, as many
    /// times as its count says.
    pub fn render(&self) -> (out: Vec<u8>)
        ensures
            out@ == self@.text(),
    {
        let (token, repeat) = self.written();
        let mut out: Vec<u8> = Vec::new();
        let mut done: usize = 0;
        while done < repeat
            invariant
                done <= repeat,
                out@ == Seq::new(done as nat, |i: int| token),
            decreases repeat - done,
        {
            out.push(token);
            done += 1;
        }
        out
    }

    /// Writes the instruction out as a string: the characters of its
    /// canonical text.
    pub fn to_string(&self) -> (out: String)
        ensures
            out@ == glyphs(self@.text()),
    {
        let (token, repeat) = self.written();
        let piece: &str = match *self {
            Instruction::MoveLeft(_) => "<",
            Instruction::MoveRight(_) => ">",
            Instruction::Increment(_) => "+",
            Instruction::Decrement(_) => "-",
            Instruction::Read => ",",
            Instruction::Write => ".",
            Instruction::StartLoop(_) => "[",
            Instruction::EndLoop(_) => "]",
        };
        proof {
            reveal_strlit("<");
            reveal_strlit(">");
            reveal_strlit("+");
            reveal_strlit("-");
            reveal_strlit(",");
            reveal_strlit(".");
            reveal_strlit("[");
            reveal_strlit("]");
            assert(piece@ =~= seq![glyph(token)]);
        }
        let mut out: String = String::new();
        let mut done: usize = 0;
        while done < repeat
            invariant
                done <= repeat,
                piece@ == seq![glyph(token)],
                out@ == Seq::new(done as nat, |i: int| glyph(token)),
            decreases repeat - done,
        {
            out.append(piece);
            done += 1;
        }
        assert(out@ == glyphs(self@.text()));
        out
    }
}

} // verus!
