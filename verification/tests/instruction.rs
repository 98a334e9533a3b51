use brainfuck_interpreter::Instruction;

#[test]
fn move_left_with_zero() {
    let instruction = Instruction::MoveLeft(0);
    assert_eq!(instruction.to_string(), "");
}

#[test]
fn move_left_with_one() {
    let instruction = Instruction::MoveLeft(1);
    assert_eq!(instruction.to_string(), "<");
}

#[test]
fn move_left_with_more_than_one() {
    let instruction = Instruction::MoveLeft(3);
    assert_eq!(instruction.to_string(), "<<<");
}

#[test]
fn move_right_with_zero() {
    let instruction = Instruction::MoveRight(0);
    assert_eq!(instruction.to_string(), "");
}

#[test]
fn move_right_with_one() {
    let instruction = Instruction::MoveRight(1);
    assert_eq!(instruction.to_string(), ">");
}

#[test]
fn move_right_with_more_than_one() {
    let instruction = Instruction::MoveRight(3);
    assert_eq!(instruction.to_string(), ">>>");
}

#[test]
fn increment_with_zero() {
    let instruction = Instruction::Increment(0);
    assert_eq!(instruction.to_string(), "");
}

#[test]
fn increment_with_one() {
    let instruction = Instruction::Increment(1);
    assert_eq!(instruction.to_string(), "+");
}

#[test]
fn increment_with_more_than_one() {
    let instruction = Instruction::Increment(3);
    assert_eq!(instruction.to_string(), "+++");
}

#[test]
fn decrement_with_zero() {
    let instruction = Instruction::Decrement(0);
    assert_eq!(instruction.to_string(), "");
}

#[test]
fn decrement_with_one() {
    let instruction = Instruction::Decrement(1);
    assert_eq!(instruction.to_string(), "-");
}

#[test]
fn decrement_with_more_than_one() {
    let instruction = Instruction::Decrement(3);
    assert_eq!(instruction.to_string(), "---");
}

#[test]
fn read() {
    let instruction = Instruction::Read;
    assert_eq!(instruction.to_string(), ",");
}

#[test]
fn write() {
    let instruction = Instruction::Write;
    assert_eq!(instruction.to_string(), ".");
}

#[test]
fn start_loop_with_zero() {
    let instruction = Instruction::StartLoop(0);
    assert_eq!(instruction.to_string(), "[");
}

#[test]
fn start_loop_with_one() {
    let instruction = Instruction::StartLoop(1);
    assert_eq!(instruction.to_string(), "[");
}

#[test]
fn start_loop_with_more_than_one() {
    let instruction = Instruction::StartLoop(3);
    assert_eq!(instruction.to_string(), "[");
}

#[test]
fn end_loop_with_zero() {
    let instruction = Instruction::EndLoop(0);
    assert_eq!(instruction.to_string(), "]");
}

#[test]
fn end_loop_with_one() {
    let instruction = Instruction::EndLoop(1);
    assert_eq!(instruction.to_string(), "]");
}

#[test]
fn end_loop_with_more_than_one() {
    let instruction = Instruction::EndLoop(3);
    assert_eq!(instruction.to_string(), "]");
}

#[test]
fn render_gives_the_bytes_of_the_text() {
    assert_eq!(Instruction::MoveLeft(3).render(), b"<<<".to_vec());
    assert_eq!(Instruction::MoveRight(2).render(), b">>".to_vec());
    assert_eq!(Instruction::Increment(255).render(), vec![b'+'; 255]);
    assert_eq!(Instruction::Decrement(1).render(), b"-".to_vec());
    assert_eq!(Instruction::Read.render(), b",".to_vec());
    assert_eq!(Instruction::Write.render(), b".".to_vec());
    assert_eq!(Instruction::StartLoop(7).render(), b"[".to_vec());
    assert_eq!(Instruction::EndLoop(7).render(), b"]".to_vec());
    assert_eq!(Instruction::Increment(0).render(), Vec::<u8>::new());
}

#[test]
fn text_and_bytes_agree() {
    let instruction = Instruction::Increment(200);
    assert_eq!(instruction.to_string().into_bytes(), instruction.render());
}
