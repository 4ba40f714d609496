use interpreter::Interpreter;
use interpreter::errors::InterpreterError;
use interpreter::instructions::ByteCode;

#[test]
fn return_empty_stack() {
    let mut interpreter = Interpreter::new();
    let rslt = interpreter.run(vec![ByteCode::Return]).unwrap_err();

    assert_eq!(rslt, InterpreterError::StackUnderflow);
}

#[test]
fn load_return_value() {
    let mut interpreter = Interpreter::new();
    let rslt = interpreter
        .run(vec![ByteCode::LoadVal(4), ByteCode::Return])
        .unwrap();

    assert_eq!(rslt, 4);
}

#[test]
fn load_two_vals_addition() {
    let val1 = 2;
    let val2 = 4;

    let mut interpreter = Interpreter::new();
    let rslt = interpreter
        .run(vec![
            ByteCode::LoadVal(val1),
            ByteCode::LoadVal(val2),
            ByteCode::Add,
            ByteCode::Return,
        ])
        .unwrap();

    assert_eq!(rslt, val1 + val2);
}

#[test]
fn load_two_vals_substraction() {
    let val1 = 2;
    let val2 = 4;

    let mut interpreter = Interpreter::new();
    let rslt = interpreter
        .run(vec![
            ByteCode::LoadVal(val1),
            ByteCode::LoadVal(val2),
            ByteCode::Sub,
            ByteCode::Return,
        ])
        .unwrap();

    assert_eq!(rslt, val2 - val1);
}

#[test]
fn load_two_vals_multiplication() {
    let val1 = 2;
    let val2 = 4;

    let mut interpreter = Interpreter::new();
    let rslt = interpreter
        .run(vec![
            ByteCode::LoadVal(val1),
            ByteCode::LoadVal(val2),
            ByteCode::Mul,
            ByteCode::Return,
        ])
        .unwrap();

    assert_eq!(rslt, val1 * val2);
}

#[test]
fn load_two_vals_division() {
    let val1 = 2;
    let val2 = 4;

    let mut interpreter = Interpreter::new();
    let rslt = interpreter
        .run(vec![
            ByteCode::LoadVal(val1),
            ByteCode::LoadVal(val2),
            ByteCode::Div,
            ByteCode::Return,
        ])
        .unwrap();

    assert_eq!(rslt, val2 / val1);
}

#[test]
fn unknown_var() {
    let mut interpreter = Interpreter::new();
    let rslt = interpreter
        .run(vec![ByteCode::ReadVar('k'), ByteCode::Return])
        .unwrap_err();

    assert_eq!(rslt, InterpreterError::UnknownVariable { identifier: 'k' });
}

#[test]
fn test_increment_loop() {
    // increment a value nb_iter times; this form of the loop takes
    // the straight path because nb_iter is nonzero
    let initial_value = 2;
    let nb_iter = 4;

    let mut interpreter = Interpreter::new();
    let rslt = interpreter
        .run(vec![
            // initial setup: create variables
            ByteCode::LoadVal(initial_value),
            ByteCode::WriteVar('v'),
            ByteCode::LoadVal(nb_iter),
            ByteCode::WriteVar('n'),
            ByteCode::LoadVal(0),
            ByteCode::WriteVar('i'),
            // perform check to handle special case where nb_iter = 0
            ByteCode::ReadVar('n'),
            ByteCode::LoadVal(0),
            ByteCode::Eq,
            ByteCode::JumpI(23),
            // now incrementing both v and the counter i
            ByteCode::ReadVar('v'),
            ByteCode::LoadVal(1),
            ByteCode::Add,
            ByteCode::WriteVar('v'),
            ByteCode::ReadVar('i'),
            ByteCode::LoadVal(1),
            ByteCode::Add,
            ByteCode::WriteVar('i'),
            // check if i < n, ie true if we still have iterations to do
            ByteCode::ReadVar('n'),
            ByteCode::ReadVar('i'),
            ByteCode::Lower,
            // and jump back to increment instructions if still iterations needed
            ByteCode::JumpI(10),
            ByteCode::ReadVar('v'), // ensure v is at top of stack
            ByteCode::Return,
        ])
        .unwrap();

    assert_eq!(rslt, initial_value + nb_iter);
}
