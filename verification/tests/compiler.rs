use brainfuck_interpreter::{Instruction, Interpreter, SyntaxError};

fn compile(script: &[u8]) -> Vec<Instruction> {
    Interpreter::try_from(script).unwrap().program().clone()
}

fn position(error: SyntaxError) -> (bool, usize, usize) {
    match error {
        SyntaxError::MissingOpeningBracket(line, column) => (true, line, column),
        SyntaxError::MissingClosingBracket(line, column) => (false, line, column),
    }
}

#[test]
fn empty_script_compiles_to_nothing() {
    assert_eq!(compile(b""), vec![]);
}

#[test]
fn opposite_moves_cancel() {
    assert_eq!(compile(b">>><<<"), vec![]);
    assert_eq!(compile(b"<<<>>>"), vec![]);
    assert_eq!(compile(b">>><"), vec![Instruction::MoveRight(2)]);
    assert_eq!(compile(b"<<>>>"), vec![Instruction::MoveRight(1)]);
    assert_eq!(compile(b"><<"), vec![Instruction::MoveLeft(1)]);
}

#[test]
fn opposite_changes_cancel() {
    assert_eq!(compile(b"+++---"), vec![]);
    assert_eq!(compile(b"--+"), vec![Instruction::Decrement(1)]);
    assert_eq!(compile(b"-++"), vec![Instruction::Increment(1)]);
}

#[test]
fn runs_are_counted() {
    assert_eq!(
        compile(b"<<<>><+++-"),
        vec![Instruction::MoveLeft(2), Instruction::Increment(2)]
    );
    assert_eq!(
        compile(b"+>+"),
        vec![Instruction::Increment(1), Instruction::MoveRight(1), Instruction::Increment(1)]
    );
}

#[test]
fn a_cancelled_run_lets_its_neighbours_fold() {
    assert_eq!(compile(b"+<>+"), vec![Instruction::Increment(2)]);
    assert_eq!(compile(b"<+-<"), vec![Instruction::MoveLeft(2)]);
}

#[test]
fn increments_wrap_at_256() {
    assert_eq!(compile(&[b'+'; 256]), vec![]);
    assert_eq!(compile(&[b'+'; 255]), vec![Instruction::Increment(255)]);
    assert_eq!(compile(&[b'+'; 257]), vec![Instruction::Increment(1)]);
}

#[test]
fn decrements_wrap_at_256() {
    assert_eq!(compile(&[b'-'; 256]), vec![]);
    assert_eq!(compile(&[b'-'; 255]), vec![Instruction::Decrement(255)]);
    assert_eq!(compile(&[b'-'; 258]), vec![Instruction::Decrement(2)]);
}

#[test]
fn moves_do_not_wrap() {
    assert_eq!(compile(&[b'>'; 300]), vec![Instruction::MoveRight(300)]);
    assert_eq!(compile(&[b'<'; 70_000]), vec![Instruction::MoveLeft(70_000)]);
}

#[test]
fn reads_and_writes_are_never_folded() {
    assert_eq!(
        compile(b",,.."),
        vec![Instruction::Read, Instruction::Read, Instruction::Write, Instruction::Write]
    );
}

#[test]
fn other_bytes_are_comments() {
    assert_eq!(compile(b"add one: + and\nagain +\t!"), vec![Instruction::Increment(2)]);
    assert_eq!(compile(&[0u8, 255, b'\n', b' ', b'x']), vec![]);
}

#[test]
fn brackets_know_each_other() {
    assert_eq!(compile(b"[]"), vec![Instruction::StartLoop(1), Instruction::EndLoop(0)]);
    assert_eq!(
        compile(b"+[-]"),
        vec![
            Instruction::Increment(1),
            Instruction::StartLoop(3),
            Instruction::Decrement(1),
            Instruction::EndLoop(1),
        ]
    );
}

#[test]
fn nested_brackets_know_each_other() {
    assert_eq!(
        compile(b"[[][[]]]."),
        vec![
            Instruction::StartLoop(7),
            Instruction::StartLoop(2),
            Instruction::EndLoop(1),
            Instruction::StartLoop(6),
            Instruction::StartLoop(5),
            Instruction::EndLoop(4),
            Instruction::EndLoop(3),
            Instruction::EndLoop(0),
            Instruction::Write,
        ]
    );
}

#[test]
fn folding_does_not_cross_a_bracket() {
    assert_eq!(
        compile(b"+[+]+"),
        vec![
            Instruction::Increment(1),
            Instruction::StartLoop(3),
            Instruction::Increment(1),
            Instruction::EndLoop(1),
            Instruction::Increment(1),
        ]
    );
    assert_eq!(
        compile(b">[<>]<"),
        vec![
            Instruction::MoveRight(1),
            Instruction::StartLoop(2),
            Instruction::EndLoop(1),
            Instruction::MoveLeft(1),
        ]
    );
}

#[test]
fn targets_count_instructions_not_bytes() {
    assert_eq!(
        compile(b"++++++++[>++++++++<-]>."),
        vec![
            Instruction::Increment(8),
            Instruction::StartLoop(6),
            Instruction::MoveRight(1),
            Instruction::Increment(8),
            Instruction::MoveLeft(1),
            Instruction::Decrement(1),
            Instruction::EndLoop(1),
            Instruction::MoveRight(1),
            Instruction::Write,
        ]
    );
}

#[test]
fn lone_opening_bracket_is_rejected() {
    let error = Interpreter::try_from(&b"["[..]).unwrap_err();
    assert_eq!(position(error), (false, 1, 1));
}

#[test]
fn lone_closing_bracket_is_rejected() {
    let error = Interpreter::try_from(&b"]"[..]).unwrap_err();
    assert_eq!(position(error), (true, 1, 1));
}

#[test]
fn missing_closing_bracket_is_the_innermost_open_one() {
    let error = Interpreter::try_from(&b"+[\n  [-]\n  [ +[ -"[..]).unwrap_err();
    assert_eq!(position(error), (false, 3, 6));
    let error = Interpreter::try_from(&b"[[]"[..]).unwrap_err();
    assert_eq!(position(error), (false, 1, 1));
}

#[test]
fn missing_opening_bracket_is_the_first_unmatched_one() {
    let error = Interpreter::try_from(&b"[]\n+]]"[..]).unwrap_err();
    assert_eq!(position(error), (true, 2, 2));
    let error = Interpreter::try_from(&b"]["[..]).unwrap_err();
    assert_eq!(position(error), (true, 1, 1));
}

#[test]
fn byte_after_a_newline_is_at_column_one() {
    let error = Interpreter::try_from(&b"\n]"[..]).unwrap_err();
    assert_eq!(position(error), (true, 2, 1));
    let error = Interpreter::try_from(&b"ab\n\n\ncd]"[..]).unwrap_err();
    assert_eq!(position(error), (true, 4, 3));
    let error = Interpreter::try_from(&b"\n\n["[..]).unwrap_err();
    assert_eq!(position(error), (false, 3, 1));
}

#[test]
fn columns_count_comment_bytes() {
    let error = Interpreter::try_from(&b"abc+-]"[..]).unwrap_err();
    assert_eq!(position(error), (true, 1, 6));
}

#[test]
fn rejected_script_leaves_the_program() {
    let mut interpreter = Interpreter::try_from(&b"+>"[..]).unwrap();
    assert!(interpreter.load(b"-[").is_err());
    assert_eq!(
        *interpreter.program(),
        vec![Instruction::Increment(1), Instruction::MoveRight(1)]
    );
    assert!(interpreter.load(b"-]").is_err());
    assert_eq!(
        *interpreter.program(),
        vec![Instruction::Increment(1), Instruction::MoveRight(1)]
    );
}

#[test]
fn accepted_script_replaces_the_program() {
    let mut interpreter = Interpreter::try_from(&b"+>"[..]).unwrap();
    assert!(interpreter.load(b",").is_ok());
    assert_eq!(*interpreter.program(), vec![Instruction::Read]);
    assert!(interpreter.load(b"").is_ok());
    assert_eq!(*interpreter.program(), vec![]);
}

#[test]
fn program_is_trimmed_to_size() {
    let mut script = vec![b' '; 4096];
    script.push(b'+');
    let interpreter = Interpreter::try_from(&script[..]).unwrap();
    assert_eq!(*interpreter.program(), vec![Instruction::Increment(1)]);
    assert!(interpreter.program().capacity() < 4096);
}

#[test]
fn compiling_the_rendering_gives_the_program_again() {
    let scripts: [&[u8]; 6] = [
        b"",
        b"++++++++[>++++++++<-]>.",
        b"+<>+ [ [-] > , . < ] -- ++ --",
        b">>>>[<<[->+<]>>[-]],.",
        b"+[[[[-]]]]",
        b"hello\n[>+<-]\nworld",
    ];
    for script in scripts {
        let first = Interpreter::try_from(script).unwrap();
        let second = Interpreter::try_from(&first.render()[..]).unwrap();
        assert_eq!(second, first);
        let third = Interpreter::try_from(first.to_string().as_bytes()).unwrap();
        assert_eq!(third, first);
    }
    let long = Interpreter::try_from(&[b'+'; 255][..]).unwrap();
    assert_eq!(Interpreter::try_from(&long.render()[..]).unwrap(), long);
}
