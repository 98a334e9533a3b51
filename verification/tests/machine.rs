use brainfuck_interpreter::{Action, Interpreter, Machine, RuntimeError, MEMORY_SIZE};
use std::io;

/// Runs `script` on `input`, in slices of `budget` instructions, and gives
/// the final tape with what was written, or the error with what was
/// written before it.
fn run(script: &[u8], input: &[u8], budget: usize) -> (Result<Vec<u8>, RuntimeError>, Vec<u8>) {
    let interpreter = Interpreter::try_from(script).unwrap();
    let mut machine = Machine::new();
    let mut input = input.iter();
    let mut output = Vec::new();
    loop {
        match interpreter.execute(&mut machine, budget) {
            Err(error) => return (Err(error), output),
            Ok(Action::Stop) => return (Ok(machine.into_tape()), output),
            Ok(Action::Resume) => {},
            Ok(Action::Read) => {
                interpreter.input(&mut machine, Ok(input.next().copied())).unwrap();
            },
            Ok(Action::Write(byte)) => {
                output.push(byte);
                interpreter.output(&mut machine, Ok(())).unwrap();
            },
        }
    }
}

fn tape_with(cells: &[(usize, u8)]) -> Vec<u8> {
    let mut tape = vec![0u8; MEMORY_SIZE];
    for &(index, value) in cells {
        tape[index] = value;
    }
    tape
}

#[test]
fn fresh_machine_is_all_zero() {
    let machine = Machine::new();
    assert_eq!(machine.tape().len(), MEMORY_SIZE);
    assert!(machine.tape().iter().all(|&cell| cell == 0));
    assert_eq!(machine.pointer(), 0);
    assert_eq!(machine.counter(), 0);
}

#[test]
fn empty_program_stops_at_once() {
    let (tape, output) = run(b"", b"", 10);
    assert_eq!(tape.unwrap(), tape_with(&[]));
    assert!(output.is_empty());
}

#[test]
fn eight_times_eight_is_written() {
    let (tape, output) = run(b"++++++++[>++++++++<-]>.", b"", usize::MAX);
    assert_eq!(output, vec![64]);
    assert_eq!(tape.unwrap(), tape_with(&[(1, 64)]));
}

#[test]
fn the_cell_holds_64_before_the_final_write() {
    let interpreter = Interpreter::try_from(&b"++++++++[>++++++++<-]>."[..]).unwrap();
    let mut machine = Machine::new();
    let action = interpreter.execute(&mut machine, usize::MAX).unwrap();
    assert_eq!(action, Action::Write(64));
    assert_eq!(machine.pointer(), 1);
    assert_eq!(machine.tape()[1], 64);
    assert_eq!(machine.counter(), 8);
    interpreter.output(&mut machine, Ok(())).unwrap();
    assert_eq!(interpreter.execute(&mut machine, usize::MAX).unwrap(), Action::Stop);
}

#[test]
fn the_budget_does_not_change_the_result() {
    let script = b"++++++++[>++++++++<-]>.>,[.,]";
    let (whole, written) = run(script, b"abc", usize::MAX);
    for budget in [1, 2, 3, 7, 64] {
        let (tape, output) = run(script, b"abc", budget);
        assert_eq!(tape.unwrap(), *whole.as_ref().unwrap());
        assert_eq!(output, written);
    }
    assert_eq!(written, b"@abc".to_vec());
}

#[test]
fn a_spent_budget_asks_to_resume() {
    let interpreter = Interpreter::try_from(&b"+>+>+"[..]).unwrap();
    let mut machine = Machine::new();
    assert_eq!(interpreter.execute(&mut machine, 0).unwrap(), Action::Resume);
    assert_eq!(machine.counter(), 0);
    assert_eq!(interpreter.execute(&mut machine, 2).unwrap(), Action::Resume);
    assert_eq!(machine.counter(), 2);
    assert_eq!(machine.pointer(), 1);
    assert_eq!(interpreter.execute(&mut machine, 3).unwrap(), Action::Stop);
    assert_eq!(machine.counter(), 5);
    assert_eq!(machine.into_tape(), tape_with(&[(0, 1), (1, 1), (2, 1)]));
}

#[test]
fn a_loop_that_never_ends_only_spends_the_budget() {
    let interpreter = Interpreter::try_from(&b"+[]"[..]).unwrap();
    let mut machine = Machine::new();
    for _ in 0..5 {
        assert_eq!(interpreter.execute(&mut machine, 1000).unwrap(), Action::Resume);
    }
    assert_eq!(machine.tape()[0], 1);
}

#[test]
fn moving_left_of_the_first_cell_underflows() {
    let (result, _) = run(b"<", b"", usize::MAX);
    assert!(matches!(result, Err(RuntimeError::CellUnderflow)));
    let (result, output) = run(b"+.>>.<<<.", b"", 5);
    assert!(matches!(result, Err(RuntimeError::CellUnderflow)));
    assert_eq!(output, vec![1, 0]);
}

#[test]
fn moving_right_of_the_last_cell_overflows() {
    let script = vec![b'>'; MEMORY_SIZE];
    let (result, _) = run(&script, b"", usize::MAX);
    assert!(matches!(result, Err(RuntimeError::CellOverflow)));
}

#[test]
fn the_last_cell_can_be_reached() {
    let mut script = vec![b'>'; MEMORY_SIZE - 1];
    script.push(b'-');
    let (tape, _) = run(&script, b"", usize::MAX);
    assert_eq!(tape.unwrap(), tape_with(&[(MEMORY_SIZE - 1, 255)]));
    script.extend_from_slice(b".>");
    let (result, output) = run(&script, b"", usize::MAX);
    assert!(matches!(result, Err(RuntimeError::CellOverflow)));
    assert_eq!(output, vec![255]);
}

#[test]
fn a_failed_move_leaves_the_machine() {
    let interpreter = Interpreter::try_from(&b">>+<<<"[..]).unwrap();
    let mut machine = Machine::new();
    for _ in 0..2 {
        let result = interpreter.execute(&mut machine, usize::MAX);
        assert!(matches!(result, Err(RuntimeError::CellUnderflow)));
        assert_eq!(machine.pointer(), 2);
        assert_eq!(machine.counter(), 2);
        assert_eq!(machine.tape()[2], 1);
    }
}

#[test]
fn cells_wrap_around() {
    let (tape, output) = run(b"-.++.", b"", usize::MAX);
    assert_eq!(output, vec![255, 1]);
    assert_eq!(tape.unwrap(), tape_with(&[(0, 1)]));
    let mut script = vec![b'+'; 200];
    script.push(b'.');
    script.extend_from_slice(&[b'+'; 100]);
    script.push(b'.');
    let (_, output) = run(&script, b"", usize::MAX);
    assert_eq!(output, vec![200, 44]);
    let mut script = vec![b'+'; 3];
    script.push(b'.');
    script.extend_from_slice(&[b'-'; 10]);
    script.push(b'.');
    let (_, output) = run(&script, b"", usize::MAX);
    assert_eq!(output, vec![3, 249]);
}

#[test]
fn read_stores_the_byte() {
    let (tape, output) = run(b",>,>,.", b"\x01\xff\x07", usize::MAX);
    assert_eq!(output, vec![7]);
    assert_eq!(tape.unwrap(), tape_with(&[(0, 1), (1, 255), (2, 7)]));
}

#[test]
fn read_at_exhaustion_stores_zero() {
    let (tape, output) = run(b"+++,.", b"", usize::MAX);
    assert_eq!(output, vec![0]);
    assert_eq!(tape.unwrap(), tape_with(&[]));
}

#[test]
fn read_stays_zero_once_exhausted() {
    let (tape, output) = run(b",.,.+,.>+,.", b"x", usize::MAX);
    assert_eq!(output, vec![b'x', 0, 0, 0]);
    assert_eq!(tape.unwrap(), tape_with(&[]));
}

#[test]
fn input_is_echoed_until_it_ends() {
    let (tape, output) = run(b",[.,]", b"hello, world", 4);
    assert_eq!(output, b"hello, world".to_vec());
    assert_eq!(tape.unwrap(), tape_with(&[]));
}

#[test]
fn a_loop_on_a_zero_cell_is_skipped() {
    let (tape, output) = run(b"[+.>]-.", b"", usize::MAX);
    assert_eq!(output, vec![255]);
    assert_eq!(tape.unwrap(), tape_with(&[(0, 255)]));
}

#[test]
fn a_loop_is_left_when_the_cell_is_zero_at_its_end() {
    let (tape, output) = run(b"+++[.-]", b"", usize::MAX);
    assert_eq!(output, vec![3, 2, 1]);
    assert_eq!(tape.unwrap(), tape_with(&[]));
}

#[test]
fn a_loop_body_runs_once_before_the_end_is_tested() {
    let (tape, output) = run(b"+[>.<-]", b"", usize::MAX);
    assert_eq!(output, vec![0]);
    assert_eq!(tape.unwrap(), tape_with(&[]));
}

#[test]
fn nested_loops_multiply() {
    let (tape, _) = run(b"+++[>++++[>+++++<-]<-]", b"", usize::MAX);
    assert_eq!(tape.unwrap(), tape_with(&[(2, 60)]));
}

#[test]
fn a_failed_read_is_wrapped() {
    let interpreter = Interpreter::try_from(&b"+,"[..]).unwrap();
    let mut machine = Machine::new();
    assert_eq!(interpreter.execute(&mut machine, usize::MAX).unwrap(), Action::Read);
    let cause = io::Error::from(io::ErrorKind::BrokenPipe);
    match interpreter.input(&mut machine, Err(cause)) {
        Err(RuntimeError::Io(error)) => assert_eq!(error.kind(), io::ErrorKind::BrokenPipe),
        _ => unreachable!(),
    }
    assert_eq!(machine.counter(), 1);
    assert_eq!(machine.tape()[0], 1);
}

#[test]
fn a_failed_write_is_wrapped() {
    let interpreter = Interpreter::try_from(&b"+."[..]).unwrap();
    let mut machine = Machine::new();
    assert_eq!(interpreter.execute(&mut machine, usize::MAX).unwrap(), Action::Write(1));
    let cause = io::Error::from(io::ErrorKind::WriteZero);
    match interpreter.output(&mut machine, Err(cause)) {
        Err(RuntimeError::Io(error)) => assert_eq!(error.kind(), io::ErrorKind::WriteZero),
        _ => unreachable!(),
    }
    assert_eq!(machine.counter(), 1);
}

#[test]
fn a_report_that_nothing_waits_for_changes_nothing() {
    let interpreter = Interpreter::try_from(&b"+.,"[..]).unwrap();
    let mut machine = Machine::new();
    interpreter.input(&mut machine, Ok(Some(9))).unwrap();
    interpreter.output(&mut machine, Ok(())).unwrap();
    assert_eq!(machine.counter(), 0);
    assert_eq!(machine.tape()[0], 0);
    assert_eq!(interpreter.execute(&mut machine, usize::MAX).unwrap(), Action::Write(1));
    interpreter.input(&mut machine, Ok(Some(9))).unwrap();
    assert_eq!(machine.counter(), 1);
    assert_eq!(machine.tape()[0], 1);
    interpreter.output(&mut machine, Ok(())).unwrap();
    assert_eq!(interpreter.execute(&mut machine, usize::MAX).unwrap(), Action::Read);
    interpreter.output(&mut machine, Ok(())).unwrap();
    assert_eq!(machine.counter(), 2);
    interpreter.input(&mut machine, Ok(Some(9))).unwrap();
    assert_eq!(machine.counter(), 3);
    assert_eq!(machine.tape()[0], 9);
    assert_eq!(interpreter.execute(&mut machine, usize::MAX).unwrap(), Action::Stop);
}

#[test]
fn a_program_can_be_run_again_on_a_fresh_machine() {
    let interpreter = Interpreter::try_from(&b",+."[..]).unwrap();
    for byte in [0u8, 41, 255] {
        let mut machine = Machine::new();
        assert_eq!(interpreter.execute(&mut machine, usize::MAX).unwrap(), Action::Read);
        interpreter.input(&mut machine, Ok(Some(byte))).unwrap();
        let action = interpreter.execute(&mut machine, usize::MAX).unwrap();
        assert_eq!(action, Action::Write(byte.wrapping_add(1)));
    }
}

#[test]
fn cancelled_moves_are_never_made() {
    let (tape, _) = run(b"<>+", b"", usize::MAX);
    assert_eq!(tape.unwrap(), tape_with(&[(0, 1)]));
    let mut script = vec![b'>'; MEMORY_SIZE];
    script.extend_from_slice(&vec![b'<'; MEMORY_SIZE]);
    script.push(b'-');
    let (tape, _) = run(&script, b"", usize::MAX);
    assert_eq!(tape.unwrap(), tape_with(&[(0, 255)]));
}

#[test]
fn folded_runs_do_what_their_tokens_do() {
    let (tape, output) = run(b"+>++<+.>-.>>><<+<-.", b"", usize::MAX);
    assert_eq!(output, vec![2, 1, 0]);
    assert_eq!(tape.unwrap(), tape_with(&[(0, 2), (2, 1)]));
}
