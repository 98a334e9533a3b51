use brainfuck_interpreter::{RuntimeError, SyntaxError};
use std::io;

#[test]
fn from() {
    let error_from_not_found: RuntimeError = io::Error::from(io::ErrorKind::NotFound).into();
    match error_from_not_found {
        RuntimeError::Io(ref error) => {
            assert_eq!(error.kind(), io::ErrorKind::NotFound)
        },
        _ => unreachable!(),
    }

    let error_from_permission_denied: RuntimeError =
        io::Error::from(io::ErrorKind::PermissionDenied).into();
    match error_from_permission_denied {
        RuntimeError::Io(ref error) => {
            assert_eq!(error.kind(), io::ErrorKind::PermissionDenied)
        },
        _ => unreachable!(),
    }
}

#[test]
fn syntax_errors_carry_their_position() {
    for line in 1..=10 {
        for column in 1..=10 {
            match SyntaxError::MissingClosingBracket(line, column) {
                SyntaxError::MissingClosingBracket(l, c) => assert_eq!((l, c), (line, column)),
                _ => unreachable!(),
            }
            match SyntaxError::MissingOpeningBracket(line, column) {
                SyntaxError::MissingOpeningBracket(l, c) => assert_eq!((l, c), (line, column)),
                _ => unreachable!(),
            }
        }
    }
}
