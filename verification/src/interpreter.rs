//! The interpreter: a compiled program, the compiler that fills it in,
//! and the text that it can be written back as.

use vstd::prelude::*;
use vstd::std_specs::convert::TryFromSpecImpl;
use vstd::string::StringExecFns;
use crate::error::{Fault, SyntaxError};
use crate::instruction::{
    glyphs, ops, render, Instruction, Op, CLOSE, COMMA, DOT, GREATER, LESS, MINUS, OPEN, PLUS,
};
use crate::structure::{
    lemma_compile_well_formed, lemma_scan_tidy, lemma_scan_within, sound, tidy, well_formed,
};
use crate::syntax::{
    compile, fold_down, fold_left, fold_right, fold_up, lemma_scan_stops, scan, Opening, Scan,
    NEWLINE,
};

verus! {

/// A `[` that waits for its `]` while a script is compiled: the index of
/// its instruction, and the line and column where it stands.
struct Bracket {
    index: usize,
    line: usize,
    column: usize,
}

impl View for Bracket {
    type V = Opening;

    closed spec fn view(&self) -> Opening {
        Opening { index: self.index as nat, line: self.line as nat, column: self.column as nat }
    }
}

/// The openings that a stack of brackets stands for.
spec fn openings(brackets: Seq<Bracket>) -> Seq<Opening> {
    brackets.map_values(|bracket: Bracket| bracket@)
}

/// `Vec::shrink_to_fit`: gives back the capacity that the vector does not
/// need. What the vector holds stays as it is.
#[verifier::external_body]
fn trim(program: &mut Vec<Instruction>)
    ensures
        final(program)@ == old(program)@,
{
    program.shrink_to_fit();
}

/// Takes a `<` into the program.
fn take_left(program: &mut Vec<Instruction>)
    requires
        old(program).len() > 0 ==> sound(old(program)@.last()@) && old(program)@.last()@.repeat()
            < usize::MAX,
    ensures
        ops(final(program)@) == fold_left(ops(old(program)@)),
{
    let length = program.len();
    if length == 0 {
        program.push(Instruction::MoveLeft(1));
    } else {
        match program[length - 1] {
            Instruction::MoveLeft(amount) => {
                program.set(length - 1, Instruction::MoveLeft(amount + 1));
            },
            Instruction::MoveRight(amount) => {
                let amount = amount - 1;
                if amount == 0 {
                    program.pop();
                } else {
                    program.set(length - 1, Instruction::MoveRight(amount));
                }
            },
            _ => {
                program.push(Instruction::MoveLeft(1));
            },
        }
    }
    assert(ops(program@) =~= fold_left(ops(old(program)@)));
}

/// Takes a `>` into the program.
fn take_right(program: &mut Vec<Instruction>)
    requires
        old(program).len() > 0 ==> sound(old(program)@.last()@) && old(program)@.last()@.repeat()
            < usize::MAX,
    ensures
        ops(final(program)@) == fold_right(ops(old(program)@)),
{
    let length = program.len();
    if length == 0 {
        program.push(Instruction::MoveRight(1));
    } else {
        match program[length - 1] {
            Instruction::MoveRight(amount) => {
                program.set(length - 1, Instruction::MoveRight(amount + 1));
            },
            Instruction::MoveLeft(amount) => {
                let amount = amount - 1;
                if amount == 0 {
                    program.pop();
                } else {
                    program.set(length - 1, Instruction::MoveLeft(amount));
                }
            },
            _ => {
                program.push(Instruction::MoveRight(1));
            },
        }
    }
    assert(ops(program@) =~= fold_right(ops(old(program)@)));
}

/// Takes a `+` into the program.
fn take_up(program: &mut Vec<Instruction>)
    requires
        old(program).len() > 0 ==> sound(old(program)@.last()@),
    ensures
        ops(final(program)@) == fold_up(ops(old(program)@)),
{
    let length = program.len();
    if length == 0 {
        program.push(Instruction::Increment(1));
    } else {
        match program[length - 1] {
            Instruction::Increment(amount) => {
                let amount = amount.wrapping_add(1);
                if amount == 0 {
                    program.pop();
                } else {
                    program.set(length - 1, Instruction::Increment(amount));
                }
            },
            Instruction::Decrement(amount) => {
                let amount = amount - 1;
                if amount == 0 {
                    program.pop();
                } else {
                    program.set(length - 1, Instruction::Decrement(amount));
                }
            },
            _ => {
                program.push(Instruction::Increment(1));
            },
        }
    }
    assert(ops(program@) =~= fold_up(ops(old(program)@)));
}

/// Takes a `-` into the program.
fn take_down(program: &mut Vec<Instruction>)
    requires
        old(program).len() > 0 ==> sound(old(program)@.last()@),
    ensures
        ops(final(program)@) == fold_down(ops(old(program)@)),
{
    let length = program.len();
    if length == 0 {
        program.push(Instruction::Decrement(1));
    } else {
        match program[length - 1] {
            Instruction::Decrement(amount) => {
                let amount = amount.wrapping_add(1);
                if amount == 0 {
                    program.pop();
                } else {
                    program.set(length - 1, Instruction::Decrement(amount));
                }
            },
            Instruction::Increment(amount) => {
                let amount = amount - 1;
                if amount == 0 {
                    program.pop();
                } else {
                    program.set(length - 1, Instruction::Increment(amount));
                }
            },
            _ => {
                program.push(Instruction::Decrement(1));
            },
        }
    }
    assert(ops(program@) =~= fold_down(ops(old(program)@)));
}

/// Takes a `[` that stands at `line` and `column` into the program.
fn take_open(
    program: &mut Vec<Instruction>,
    balancer: &mut Vec<Bracket>,
    line: usize,
    column: usize,
)
    ensures
        ops(final(program)@) == ops(old(program)@).push(Op::StartLoop(0)),
        openings(final(balancer)@) == openings(old(balancer)@).push(
            Opening { index: old(program)@.len(), line: line as nat, column: column as nat },
        ),
{
    balancer.push(Bracket { index: program.len(), line, column });
    program.push(Instruction::StartLoop(0));
    assert(ops(program@) =~= ops(old(program)@).push(Op::StartLoop(0)));
    assert(openings(balancer@) =~= openings(old(balancer)@).push(
        Opening { index: old(program)@.len(), line: line as nat, column: column as nat },
    ));
}

/// Takes a `]` into the program, if a loop is open: the innermost open
/// loop and the new instruction get each other's index. Says whether one
/// was open.
fn take_close(program: &mut Vec<Instruction>, balancer: &mut Vec<Bracket>) -> (closed: bool)
    requires
        old(balancer).len() > 0 ==> openings(old(balancer)@).last().index < old(program).len(),
    ensures
        closed == (old(balancer).len() > 0),
        closed ==> ops(final(program)@) == ops(old(program)@).update(
            openings(old(balancer)@).last().index as int,
            Op::StartLoop(old(program)@.len()),
        ).push(Op::EndLoop(openings(old(balancer)@).last().index)),
        closed ==> openings(final(balancer)@) == openings(old(balancer)@).drop_last(),
        !closed ==> final(program)@ == old(program)@ && final(balancer)@ == old(balancer)@,
{
    let start = match balancer.pop() {
        Some(bracket) => bracket.index,
        None => {
            return false;
        },
    };
    assert(openings(old(balancer)@).last().index == start);
    let end = program.len();
    program.set(start, Instruction::StartLoop(end));
    program.push(Instruction::EndLoop(start));
    assert(ops(program@) =~= ops(old(program)@).update(
        start as int,
        Op::StartLoop(old(program)@.len()),
    ).push(Op::EndLoop(start as nat)));
    assert(openings(balancer@) =~= openings(old(balancer)@).drop_last());
    true
}

/// What the compiler relies on between two bytes: the last instruction
/// has a count that can go down by one and up by one, and the innermost
/// open loop lies inside the program.
proof fn lemma_scan_safe(script: Seq<u8>)
    requires
        script.len() < usize::MAX,
    ensures
        scan(script) matches Ok(state) ==> {
            &&& state.program.len() > 0 ==> sound(state.program.last())
                && state.program.last().repeat() < usize::MAX
            &&& state.open.len() > 0 ==> state.open.last().index < state.program.len()
        },
{
    reveal(tidy);
    lemma_scan_tidy(script);
    lemma_scan_within(script);
    if let Ok(state) = scan(script) {
        if state.program.len() > 0 {
            assert(sound(state.program[state.program.len() - 1]));
            assert(state.program[state.program.len() - 1].repeat() <= script.len());
        }
        if state.open.len() > 0 {
            assert(state.open[state.open.len() - 1].index < state.program.len());
        }
    }
}

/// A compiled program, ready to be run any number of times.
#[derive(Debug, PartialEq, Eq, Hash)]
pub struct Interpreter {
    program: Vec<Instruction>,
}

impl View for Interpreter {
    type V = Seq<Op>;

    closed spec fn view(&self) -> Seq<Op> {
        ops(self.program@)
    }
}

impl Interpreter {
    #[verifier::type_invariant]
    spec fn valid(self) -> bool {
        well_formed(ops(self.program@))
    }

    /// An interpreter with the empty program.
    #[inline]
    pub fn new() -> (interpreter: Interpreter)
        ensures
            interpreter@ == Seq::<Op>::empty(),
    {
        Interpreter::default()
    }

    /// The instructions of the program, in order.
    pub fn program(&self) -> (program: &Vec<Instruction>)
        ensures
            ops(program@) == self@,
            well_formed(self@),
    {
        proof {
            use_type_invariant(self);
        }
        &self.program
    }

    /// Writes the program out as script bytes: the canonical text of each
    /// instruction, in order.
    pub fn render(&self) -> (out: Vec<u8>)
        ensures
            out@ == render(self@),
    {
        let mut out: Vec<u8> = Vec::new();
        let mut done: usize = 0;
        assert(self@.take(0) =~= Seq::<Op>::empty());
        while done < self.program.len()
            invariant
                done <= self.program.len(),
                out@ == render(self@.take(done as int)),
            decreases self.program.len() - done,
        {
            let mut piece = self.program[done].render();
            proof {
                assert(self@.take(done + 1).drop_last() =~= self@.take(done as int));
                assert(self@.take(done + 1).last() == self.program[done as int]@);
            }
            out.append(&mut piece);
            done += 1;
        }
        assert(self@.take(done as int) =~= self@);
        out
    }

    /// Writes the program out as a string: the characters of its
    /// canonical text.
    pub fn to_string(&self) -> (out: String)
        ensures
            out@ == glyphs(render(self@)),
    {
        let mut out: String = String::new();
        let mut done: usize = 0;
        assert(self@.take(0) =~= Seq::<Op>::empty());
        assert(out@ =~= glyphs(render(self@.take(0))));
        while done < self.program.len()
            invariant
                done <= self.program.len(),
                out@ == glyphs(render(self@.take(done as int))),
            decreases self.program.len() - done,
        {
            let piece = self.program[done].to_string();
            proof {
                assert(self@.take(done + 1).drop_last() =~= self@.take(done as int));
                assert(self@.take(done + 1).last() == self.program[done as int]@);
                assert(glyphs(render(self@.take(done as int)) + self.program[done as int]@.text())
                    =~= glyphs(render(self@.take(done as int))) + glyphs(
                    self.program[done as int]@.text(),
                ));
            }
            out.append(piece.as_str());
            done += 1;
        }
        assert(self@.take(done as int) =~= self@);
        out
    }

    /// Compiles `script` and, if it compiles, replaces the program by what
    /// it compiled to. A script that is rejected leaves the program as it
    /// was.
    pub fn load(&mut self, script: &[u8]) -> (result: Result<(), SyntaxError>)
        ensures
            match compile(script@) {
                Ok(program) => result is Ok && final(self)@ == program,
                Err(fault) => result matches Err(error) && error@ == fault && final(self)@ == old(
                    self,
                )@,
            },
    {
        // The line of the byte at hand is `breaks + 1`, its column `taken + 1`.
        let mut breaks: usize = 0;
        let mut taken: usize = 0;
        let mut balancer: Vec<Bracket> = Vec::new();
        let mut program: Vec<Instruction> = Vec::with_capacity(script.len());
        let mut at: usize = 0;
        assert(script@.take(0) =~= Seq::<u8>::empty());
        assert(ops(program@) =~= Seq::<Op>::empty());
        assert(openings(balancer@) =~= Seq::<Opening>::empty());
        while at < script.len()
            invariant
                at <= script.len(),
                breaks <= at,
                taken <= at,
                *self == *old(self),
                scan(script@.take(at as int)) == Ok::<Scan, Fault>(
                    Scan {
                        program: ops(program@),
                        open: openings(balancer@),
                        line: (breaks + 1) as nat,
                        column: (taken + 1) as nat,
                    },
                ),
            decreases script.len() - at,
        {
            let token = script[at];
            let ghost before = Scan {
                program: ops(program@),
                open: openings(balancer@),
                line: (breaks + 1) as nat,
                column: (taken + 1) as nat,
            };
            proof {
                lemma_scan_safe(script@.take(at as int));
                assert(script@.take(at + 1).drop_last() =~= script@.take(at as int));
                assert(script@.take(at + 1).last() == token);
                assert(scan(script@.take(at + 1)) == before.consume(token));
                if program.len() > 0 {
                    assert(ops(program@).last() == program@.last()@);
                }
            }
            if token == LESS {
                take_left(&mut program);
            } else if token == GREATER {
                take_right(&mut program);
            } else if token == PLUS {
                take_up(&mut program);
            } else if token == MINUS {
                take_down(&mut program);
            } else if token == COMMA {
                program.push(Instruction::Read);
                assert(ops(program@) =~= before.program.push(Op::Read));
            } else if token == DOT {
                program.push(Instruction::Write);
                assert(ops(program@) =~= before.program.push(Op::Write));
            } else if token == OPEN {
                take_open(&mut program, &mut balancer, breaks + 1, taken + 1);
            } else if token == CLOSE {
                if !take_close(&mut program, &mut balancer) {
                    proof {
                        lemma_scan_stops(script@, at + 1);
                    }
                    return Err(SyntaxError::MissingOpeningBracket(breaks + 1, taken + 1));
                }
            }
            if token == NEWLINE {
                breaks += 1;
                taken = 0;
            } else {
                taken += 1;
            }
            at += 1;
        }
        proof {
            assert(script@.take(at as int) =~= script@);
            lemma_compile_well_formed(script@);
        }
        if balancer.len() > 0 {
            let innermost = &balancer[balancer.len() - 1];
            assert(openings(balancer@).last() == innermost@);
            return Err(SyntaxError::MissingClosingBracket(innermost.line, innermost.column));
        }
        assert(openings(balancer@) =~= Seq::<Opening>::empty());
        trim(&mut program);
        self.program = program;
        Ok(())
    }
}

impl Clone for Interpreter {
    fn clone(&self) -> (copy: Interpreter)
        ensures
            copy@ == self@,
    {
        proof {
            use_type_invariant(self);
        }
        let program = self.program.clone();
        assert(ops(program@) =~= ops(self.program@));
        Interpreter { program }
    }
}

impl Default for Interpreter {
    #[inline]
    fn default() -> (interpreter: Interpreter)
        ensures
            interpreter@ == Seq::<Op>::empty(),
    {
        let program: Vec<Instruction> = Vec::new();
        proof {
            reveal(tidy);
            assert(ops(program@) =~= Seq::<Op>::empty());
        }
        Interpreter { program }
    }
}

impl TryFrom<&[u8]> for Interpreter {
    type Error = SyntaxError;

    /// Compiles `script` into a new interpreter.
    #[inline]
    fn try_from(script: &[u8]) -> (result: Result<Interpreter, SyntaxError>)
        ensures
            match compile(script@) {
                Ok(program) => result matches Ok(interpreter) && interpreter@ == program,
                Err(fault) => result matches Err(error) && error@ == fault,
            },
    {
        let mut interpreter = Interpreter::new();
        match interpreter.load(script) {
            Ok(()) => Ok(interpreter),
            Err(error) => Err(error),
        }
    }
}

impl TryFromSpecImpl<&[u8]> for Interpreter {
    /// The conversion is specified by the contract of `try_from` itself,
    /// over `compile`, and not by `try_from_spec`.
    open spec fn obeys_try_from_spec() -> bool {
        false
    }

    open spec fn try_from_spec(script: &[u8]) -> Result<Interpreter, SyntaxError> {
        arbitrary()
    }
}

} // verus!
