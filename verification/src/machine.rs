//! The virtual machine: a tape of byte cells, a pointer into it, and what
//! each instruction does to them.
//!
//! Reading and writing bytes is left to the caller. A run goes on until
//! the program ends, an instruction wants a byte read or written, a move
//! would leave the tape, or the caller's budget of instructions is spent;
//! the caller does what is asked and hands back what came of it.

use vstd::prelude::*;
use crate::error::RuntimeError;
use crate::instruction::{ops, Instruction, Op};
use crate::interpreter::Interpreter;
use crate::structure::{lemma_targets_inside, well_formed};

verus! {

/// The number of cells on the tape.
pub const MEMORY_SIZE: usize = 30_000;

/// What the caller is to do when a run hands control back.
#[derive(Clone, Copy, Debug, PartialEq, Eq)]
pub enum Action {
    /// The program has ended: the tape is final.
    Stop,
    /// The instruction at hand wants the next byte of the input.
    Read,
    /// The instruction at hand wants this byte put out.
    Write(u8),
    /// The budget is spent and the program has more to do.
    Resume,
}

/// The mathematical form of a machine.
pub struct State {
    /// The cells.
    pub tape: Seq<u8>,
    /// The index of the cell under the pointer.
    pub head: nat,
    /// The index of the instruction at hand.
    pub next: nat,
}

/// A cell's value after a change: cells wrap at 256.
pub open spec fn wrap(value: int) -> u8 {
    (value % 256) as u8
}

impl State {
    /// The machine before the first instruction: every cell zero, the
    /// pointer on the first cell.
    pub open spec fn start() -> State {
        State { tape: Seq::new(MEMORY_SIZE as nat, |i: int| 0u8), head: 0, next: 0 }
    }

    /// Whether the tape has its fixed length and the pointer is on it.
    pub open spec fn valid(self) -> bool {
        self.tape.len() == MEMORY_SIZE && self.head < MEMORY_SIZE
    }

    /// The value of the cell under the pointer.
    pub open spec fn cell(self) -> u8 {
        self.tape[self.head as int]
    }

    /// This machine with `value` in the cell under the pointer.
    pub open spec fn store(self, value: u8) -> State {
        State { tape: self.tape.update(self.head as int, value), ..self }
    }

    /// This machine with the instruction at `next` at hand.
    pub open spec fn jump(self, next: nat) -> State {
        State { next, ..self }
    }
}

/// Why the machine cannot go on by itself, if it cannot: the program has
/// ended, the instruction at hand reads or writes, or it is a move that
/// would leave the tape.
pub open spec fn pause(program: Seq<Op>, state: State) -> Option<Result<Action, RuntimeError>> {
    if state.next >= program.len() {
        Some(Ok(Action::Stop))
    } else {
        match program[state.next as int] {
            Op::MoveLeft(n) => if n > state.head {
                Some(Err(RuntimeError::CellUnderflow))
            } else {
                None
            },
            Op::MoveRight(n) => if n > MEMORY_SIZE - 1 - state.head {
                Some(Err(RuntimeError::CellOverflow))
            } else {
                None
            },
            Op::Read => Some(Ok(Action::Read)),
            Op::Write => Some(Ok(Action::Write(state.cell()))),
            _ => None,
        }
    }
}

/// The machine after the instruction at hand, where it can go on by
/// itself.
///
/// A loop start jumps past its end on a zero cell, a loop end jumps back
/// past its start on a nonzero one; a jump lands on the target and the
/// step that follows every instruction then takes the machine one
/// further.
pub open spec fn step(program: Seq<Op>, state: State) -> State {
    match program[state.next as int] {
        Op::MoveLeft(n) => State { head: (state.head - n) as nat, next: state.next + 1, ..state },
        Op::MoveRight(n) => State { head: state.head + n, next: state.next + 1, ..state },
        Op::Increment(n) => state.store(wrap(state.cell() + n)).jump(state.next + 1),
        Op::Decrement(n) => state.store(wrap(state.cell() - n)).jump(state.next + 1),
        Op::StartLoop(end) => if state.cell() == 0 {
            state.jump(end + 1)
        } else {
            state.jump(state.next + 1)
        },
        Op::EndLoop(start) => if state.cell() != 0 {
            state.jump(start + 1)
        } else {
            state.jump(state.next + 1)
        },
        _ => state,
    }
}

/// The machine after it has gone on by itself for as long as it can, but
/// for no more than `budget` instructions.
pub open spec fn run(program: Seq<Op>, state: State, budget: nat) -> State
    decreases budget,
{
    if budget == 0 || pause(program, state) is Some {
        state
    } else {
        run(program, step(program, state), (budget - 1) as nat)
    }
}

/// What a run that has left the machine in `state` hands back.
pub open spec fn answer(program: Seq<Op>, state: State) -> Result<Action, RuntimeError> {
    match pause(program, state) {
        Some(outcome) => outcome,
        None => Ok(Action::Resume),
    }
}

/// The machine after a read has come back with `input`, where the
/// instruction at hand is a read: the byte goes into the cell under the
/// pointer, and where the input was exhausted, zero does. A machine that
/// waits for no byte stays as it is.
pub open spec fn fed(program: Seq<Op>, state: State, input: Option<u8>) -> State {
    if state.next < program.len() && program[state.next as int] is Read {
        state.store(
            match input {
                Some(byte) => byte,
                None => 0u8,
            },
        ).jump(state.next + 1)
    } else {
        state
    }
}

/// The machine after its byte has been put out, where the instruction at
/// hand is a write. A machine that has no byte to put out stays as it is.
pub open spec fn put(program: Seq<Op>, state: State) -> State {
    if state.next < program.len() && program[state.next as int] is Write {
        state.jump(state.next + 1)
    } else {
        state
    }
}

/// A read that finds the input exhausted leaves zero in the cell under
/// the pointer, whatever the cell held and however often the input has
/// been found exhausted before. The other cells and the pointer stay.
pub proof fn lemma_read_exhausted(program: Seq<Op>, state: State)
    requires
        state.valid(),
        state.next < program.len(),
        program[state.next as int] is Read,
    ensures
        fed(program, state, None).cell() == 0,
        fed(program, state, None).tape == state.tape.update(state.head as int, 0u8),
        fed(program, state, None).head == state.head,
        fed(program, state, None).next == state.next + 1,
{
}

/// The budget sets no limit to a run: a run that is taken up again where
/// it stopped for want of budget goes where one run with both budgets
/// would have gone.
pub proof fn lemma_run_split(program: Seq<Op>, state: State, first: nat, second: nat)
    ensures
        run(program, run(program, state, first), second) == run(program, state, first + second),
    decreases first,
{
    if pause(program, state) is Some {
        assert(run(program, state, first) == state);
        assert(run(program, state, second) == state);
        assert(run(program, state, first + second) == state);
    } else if first > 0 {
        lemma_run_split(program, step(program, state), (first - 1) as nat, second);
        assert(run(program, state, first + second) == run(
            program,
            step(program, state),
            (first + second - 1) as nat,
        ));
    }
}

/// The tape keeps its length and the pointer stays on it, whatever the
/// program.
pub proof fn lemma_run_valid(program: Seq<Op>, state: State, budget: nat)
    requires
        state.valid(),
    ensures
        run(program, state, budget).valid(),
    decreases budget,
{
    if budget > 0 && pause(program, state) is None {
        lemma_run_valid(program, step(program, state), (budget - 1) as nat);
    }
}

/// A run of a well-formed program never leaves the program: the
/// instruction at hand is one of its instructions, or the run is over.
pub proof fn lemma_run_inside(program: Seq<Op>, state: State, budget: nat)
    requires
        well_formed(program),
        state.next <= program.len(),
    ensures
        run(program, state, budget).next <= program.len(),
    decreases budget,
{
    if budget > 0 && pause(program, state) is None {
        lemma_targets_inside(program, state.next as int);
        lemma_run_inside(program, step(program, state), (budget - 1) as nat);
    }
}

/// A tape with its pointer, and the place in the program where the run
/// stands.
#[derive(Debug)]
pub struct Machine {
    tape: Vec<u8>,
    head: usize,
    next: usize,
}

impl View for Machine {
    type V = State;

    closed spec fn view(&self) -> State {
        State { tape: self.tape@, head: self.head as nat, next: self.next as nat }
    }
}

impl Machine {
    #[verifier::type_invariant]
    spec fn valid(self) -> bool {
        self.tape.len() == MEMORY_SIZE && self.head < MEMORY_SIZE
    }

    /// A machine before the first instruction.
    pub fn new() -> (machine: Machine)
        ensures
            machine@ == State::start(),
            machine@.valid(),
    {
        let tape = vec![0u8; MEMORY_SIZE];
        assert(tape@ =~= State::start().tape);
        Machine { tape, head: 0, next: 0 }
    }

    /// The cells of the tape.
    pub fn tape(&self) -> (tape: &Vec<u8>)
        ensures
            tape@ == self@.tape,
            self@.valid(),
    {
        proof {
            use_type_invariant(self);
        }
        &self.tape
    }

    /// The tape, for the caller to keep once the run is over.
    pub fn into_tape(self) -> (tape: Vec<u8>)
        ensures
            tape@ == self@.tape,
            self@.valid(),
    {
        proof {
            use_type_invariant(&self);
        }
        self.tape
    }

    /// The index of the cell under the pointer.
    pub fn pointer(&self) -> (head: usize)
        ensures
            head == self@.head,
            self@.valid(),
    {
        proof {
            use_type_invariant(self);
        }
        self.head
    }

    /// The index of the instruction at hand.
    pub fn counter(&self) -> (next: usize)
        ensures
            next == self@.next,
    {
        self.next
    }
}

impl Interpreter {
    /// Runs the program on `machine` from where it stands, for as long as
    /// the machine can go on by itself and for no more than `budget`
    /// instructions, and says what the caller is to do next.
    ///
    /// A move that would leave the tape is not made: the run ends with
    /// `CellUnderflow` or `CellOverflow`. A read or a write is not made
    /// either: the caller makes it and reports with `input` or `output`.
    pub fn execute(&self, machine: &mut Machine, budget: usize) -> (result: Result<
        Action,
        RuntimeError,
    >)
        ensures
            final(machine)@ == run(self@, old(machine)@, budget as nat),
            result == answer(self@, final(machine)@),
            final(machine)@.valid(),
    {
        let program = self.program();
        let mut spent: usize = 0;
        loop
            invariant
                spent <= budget,
                ops(program@) == self@,
                well_formed(self@),
                run(self@, old(machine)@, budget as nat) == run(
                    self@,
                    machine@,
                    (budget - spent) as nat,
                ),
            decreases budget - spent,
        {
            proof {
                use_type_invariant(&*machine);
            }
            if machine.next >= program.len() {
                return Ok(Action::Stop);
            }
            let instruction = program[machine.next];
            proof {
                assert(instruction@ == self@[machine.next as int]);
                lemma_targets_inside(self@, machine.next as int);
            }
            match instruction {
                Instruction::MoveLeft(amount) => {
                    if amount > machine.head {
                        return Err(RuntimeError::CellUnderflow);
                    }
                },
                Instruction::MoveRight(amount) => {
                    if amount > MEMORY_SIZE - (machine.head + 1) {
                        return Err(RuntimeError::CellOverflow);
                    }
                },
                Instruction::Read => {
                    return Ok(Action::Read);
                },
                Instruction::Write => {
                    return Ok(Action::Write(machine.tape[machine.head]));
                },
                _ => {},
            }
            if spent == budget {
                return Ok(Action::Resume);
            }
            let ghost before = machine@;
            match instruction {
                Instruction::MoveLeft(amount) => {
                    machine.head -= amount;
                },
                Instruction::MoveRight(amount) => {
                    machine.head += amount;
                },
                Instruction::Increment(amount) => {
                    let cell = machine.tape[machine.head].wrapping_add(amount);
                    machine.tape[machine.head] = cell;
                },
                Instruction::Decrement(amount) => {
                    let cell = machine.tape[machine.head].wrapping_sub(amount);
                    machine.tape[machine.head] = cell;
                },
                Instruction::StartLoop(end) => {
                    if machine.tape[machine.head] == 0 {
                        machine.next = end;
                    }
                },
                Instruction::EndLoop(start) => {
                    if machine.tape[machine.head] != 0 {
                        machine.next = start;
                    }
                },
                _ => {},
            }
            machine.next += 1;
            spent += 1;
            assert(machine@ == step(self@, before));
        }
    }

    /// Takes what came of the read that `execute` asked for: a byte, the
    /// end of the input, or a failure.
    ///
    /// The byte goes into the cell under the pointer; at the end of the
    /// input zero does. A failure ends the run with the cause wrapped, and
    /// leaves the machine as it was.
    pub fn input(&self, machine: &mut Machine, event: Result<Option<u8>, std::io::Error>) -> (result:
        Result<(), RuntimeError>)
        ensures
            match event {
                Ok(input) => result is Ok && final(machine)@ == fed(self@, old(machine)@, input),
                Err(cause) => result == Err::<(), RuntimeError>(RuntimeError::Io(cause))
                    && final(machine)@ == old(machine)@,
            },
            final(machine)@.valid(),
    {
        let program = self.program();
        proof {
            use_type_invariant(&*machine);
        }
        match event {
            Err(cause) => Err(RuntimeError::from(cause)),
            Ok(input) => {
                if machine.next < program.len() {
                    let instruction = program[machine.next];
                    assert(instruction@ == self@[machine.next as int]);
                    if let Instruction::Read = instruction {
                        match input {
                            None => {
                                machine.tape[machine.head] = 0;
                            },
                            Some(byte) => {
                                machine.tape[machine.head] = byte;
                            },
                        }
                        machine.next += 1;
                    }
                }
                Ok(())
            },
        }
    }

    /// Takes what came of the write that `execute` asked for: success or
    /// a failure.
    ///
    /// After a success the run can go on behind the write. A failure ends
    /// the run with the cause wrapped, and leaves the machine as it was.
    pub fn output(&self, machine: &mut Machine, event: Result<(), std::io::Error>) -> (result:
        Result<(), RuntimeError>)
        ensures
            match event {
                Ok(_) => result is Ok && final(machine)@ == put(self@, old(machine)@),
                Err(cause) => result == Err::<(), RuntimeError>(RuntimeError::Io(cause))
                    && final(machine)@ == old(machine)@,
            },
            final(machine)@.valid(),
    {
        let program = self.program();
        proof {
            use_type_invariant(&*machine);
        }
        match event {
            Err(cause) => Err(RuntimeError::from(cause)),
            Ok(_) => {
                if machine.next < program.len() {
                    let instruction = program[machine.next];
                    assert(instruction@ == self@[machine.next as int]);
                    if let Instruction::Write = instruction {
                        machine.next += 1;
                    }
                }
                Ok(())
            },
        }
    }
}

} // verus!
