use brainfuck_interpreter::{Instruction, Interpreter, MEMORY_SIZE};

#[test]
fn memory_size() {
    assert_eq!(MEMORY_SIZE, 30_000);
}

#[test]
fn new() {
    let interpreter = Interpreter::new();
    assert_eq!(interpreter, Interpreter::default());
}

#[test]
fn interpreter_default() {
    let interpreter = Interpreter::default();
    assert_eq!(*interpreter.program(), Vec::<Instruction>::new());
}

#[test]
fn clone_keeps_the_program() {
    let interpreter = Interpreter::try_from(&b"+[>,.<-]"[..]).unwrap();
    let copy = interpreter.clone();
    assert_eq!(copy, interpreter);
    assert_eq!(copy.program(), interpreter.program());
}

#[test]
fn renders_each_instruction_in_order() {
    let interpreter = Interpreter::try_from(&b"a++ +\n[ > , . < - ] <<"[..]).unwrap();
    assert_eq!(interpreter.render(), b"+++[>,.<-]<<".to_vec());
    assert_eq!(interpreter.to_string(), "+++[>,.<-]<<");
    assert_eq!(Interpreter::new().render(), Vec::<u8>::new());
    assert_eq!(Interpreter::new().to_string(), "");
}
