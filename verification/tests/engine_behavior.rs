use interpreter::Interpreter;
use interpreter::errors::InterpreterError;
use interpreter::instructions::ByteCode;

fn counting_bytecode(initial_value: i32, nb_iter: i32) -> Vec<ByteCode> {
    vec![
        ByteCode::LoadVal(initial_value),
        ByteCode::WriteVar('v'),
        ByteCode::LoadVal(nb_iter),
        ByteCode::WriteVar('n'),
        ByteCode::LoadVal(0),
        ByteCode::WriteVar('i'),
        ByteCode::ReadVar('n'),
        ByteCode::LoadVal(0),
        ByteCode::Eq,
        ByteCode::JumpI(22),
        ByteCode::ReadVar('v'),
        ByteCode::LoadVal(1),
        ByteCode::Add,
        ByteCode::WriteVar('v'),
        ByteCode::ReadVar('i'),
        ByteCode::LoadVal(1),
        ByteCode::Add,
        ByteCode::WriteVar('i'),
        ByteCode::ReadVar('n'),
        ByteCode::ReadVar('i'),
        ByteCode::Lower,
        ByteCode::JumpI(10),
        ByteCode::ReadVar('v'),
        ByteCode::Return,
    ]
}

#[test]
fn load_negative_constant() {
    let mut interpreter = Interpreter::new();
    let rslt = interpreter
        .run(vec![ByteCode::LoadVal(-37), ByteCode::Return])
        .unwrap();

    assert_eq!(rslt, -37);
}

#[test]
fn write_then_read_round_trips() {
    let mut interpreter = Interpreter::new();
    let rslt = interpreter
        .run(vec![
            ByteCode::LoadVal(19),
            ByteCode::WriteVar('x'),
            ByteCode::ReadVar('x'),
            ByteCode::Return,
        ])
        .unwrap();

    assert_eq!(rslt, 19);
}

#[test]
fn counting_loop_skips_when_zero_iterations() {
    let mut interpreter = Interpreter::new();
    let rslt = interpreter.run(counting_bytecode(7, 0)).unwrap();

    assert_eq!(rslt, 7);
}

#[test]
fn counting_loop_counts_up() {
    let mut interpreter = Interpreter::new();
    let rslt = interpreter.run(counting_bytecode(23, 10)).unwrap();

    assert_eq!(rslt, 33);
}

#[test]
fn jump_out_of_range_fails() {
    let mut interpreter = Interpreter::new();
    let rslt = interpreter
        .run(vec![ByteCode::Jump(5), ByteCode::Return])
        .unwrap_err();

    assert_eq!(rslt, InterpreterError::InvalidPointerAddress);
}

#[test]
fn taken_conditional_jump_out_of_range_fails() {
    let mut interpreter = Interpreter::new();
    let rslt = interpreter
        .run(vec![ByteCode::LoadVal(1), ByteCode::JumpI(9), ByteCode::Return])
        .unwrap_err();

    assert_eq!(rslt, InterpreterError::InvalidPointerAddress);
}

#[test]
fn untaken_conditional_jump_falls_through() {
    // the popped cell is 2, not 1, so the jump is not taken
    let mut interpreter = Interpreter::new();
    let rslt = interpreter
        .run(vec![
            ByteCode::LoadVal(2),
            ByteCode::JumpI(0),
            ByteCode::LoadVal(9),
            ByteCode::Return,
        ])
        .unwrap();

    assert_eq!(rslt, 9);
}

#[test]
fn empty_bytecode_fails_pointer_validation() {
    let mut interpreter = Interpreter::new();
    let rslt = interpreter.run(vec![]).unwrap_err();

    assert_eq!(rslt, InterpreterError::InvalidPointerAddress);
}

#[test]
fn running_off_the_end_fails_pointer_validation() {
    let mut interpreter = Interpreter::new();
    let rslt = interpreter.run(vec![ByteCode::LoadVal(1)]).unwrap_err();

    assert_eq!(rslt, InterpreterError::InvalidPointerAddress);
}

#[test]
fn arithmetic_on_single_cell_underflows() {
    let mut interpreter = Interpreter::new();
    let rslt = interpreter
        .run(vec![ByteCode::LoadVal(1), ByteCode::Add, ByteCode::Return])
        .unwrap_err();

    assert_eq!(rslt, InterpreterError::StackUnderflow);
}

#[test]
fn write_variable_on_empty_stack_underflows() {
    let mut interpreter = Interpreter::new();
    let rslt = interpreter
        .run(vec![ByteCode::WriteVar('x'), ByteCode::Return])
        .unwrap_err();

    assert_eq!(rslt, InterpreterError::StackUnderflow);
}

#[test]
fn division_by_zero_is_reported() {
    // the divisor is the second cell popped: 4 / 0
    let mut interpreter = Interpreter::new();
    let rslt = interpreter
        .run(vec![
            ByteCode::LoadVal(0),
            ByteCode::LoadVal(4),
            ByteCode::Div,
            ByteCode::Return,
        ])
        .unwrap_err();

    assert_eq!(rslt, InterpreterError::DivisionByZero);
}

#[test]
fn division_truncates_toward_zero() {
    // -7 / 2 truncates to -3
    let mut interpreter = Interpreter::new();
    let rslt = interpreter
        .run(vec![
            ByteCode::LoadVal(2),
            ByteCode::LoadVal(-7),
            ByteCode::Div,
            ByteCode::Return,
        ])
        .unwrap();

    assert_eq!(rslt, -3);
}

#[test]
fn overflowing_division_wraps() {
    let mut interpreter = Interpreter::new();
    let rslt = interpreter
        .run(vec![
            ByteCode::LoadVal(-1),
            ByteCode::LoadVal(i32::MIN),
            ByteCode::Div,
            ByteCode::Return,
        ])
        .unwrap();

    assert_eq!(rslt, i32::MIN);
}

#[test]
fn overflowing_addition_wraps() {
    let mut interpreter = Interpreter::new();
    let rslt = interpreter
        .run(vec![
            ByteCode::LoadVal(i32::MAX),
            ByteCode::LoadVal(1),
            ByteCode::Add,
            ByteCode::Return,
        ])
        .unwrap();

    assert_eq!(rslt, i32::MIN);
}

#[test]
fn subtraction_can_go_negative() {
    // the top cell minus the next cell: 2 - 4
    let mut interpreter = Interpreter::new();
    let rslt = interpreter
        .run(vec![
            ByteCode::LoadVal(4),
            ByteCode::LoadVal(2),
            ByteCode::Sub,
            ByteCode::Return,
        ])
        .unwrap();

    assert_eq!(rslt, -2);
}

#[test]
fn comparisons_push_one_or_zero() {
    let cases: Vec<(ByteCode, i32, i32, i32)> = vec![
        (ByteCode::Greater, 2, 4, 1),
        (ByteCode::Greater, 4, 2, 0),
        (ByteCode::Lower, 4, 2, 1),
        (ByteCode::Lower, 2, 4, 0),
        (ByteCode::Eq, 3, 3, 1),
        (ByteCode::Eq, 3, 5, 0),
        (ByteCode::GreaterEq, 2, 2, 1),
        (ByteCode::GreaterEq, 5, 2, 0),
        (ByteCode::LowerEq, 2, 2, 1),
        (ByteCode::LowerEq, 2, 5, 0),
    ];
    for (op, first, second, expected) in cases {
        let mut interpreter = Interpreter::new();
        let rslt = interpreter
            .run(vec![
                ByteCode::LoadVal(first),
                ByteCode::LoadVal(second),
                op,
                ByteCode::Return,
            ])
            .unwrap();

        assert_eq!(rslt, expected);
    }
}

#[test]
fn rewriting_a_variable_replaces_its_value() {
    let mut interpreter = Interpreter::new();
    let rslt = interpreter
        .run(vec![
            ByteCode::LoadVal(1),
            ByteCode::WriteVar('x'),
            ByteCode::LoadVal(2),
            ByteCode::WriteVar('x'),
            ByteCode::ReadVar('x'),
            ByteCode::Return,
        ])
        .unwrap();

    assert_eq!(rslt, 2);
}

#[test]
fn named_push_updates_the_existing_cell_in_place() {
    let mut interpreter = Interpreter::new();
    interpreter.push_to_stack(Some('x'), 1).unwrap();
    interpreter.push_to_stack(None, 5).unwrap();
    interpreter.push_to_stack(Some('x'), 9).unwrap();

    assert_eq!(interpreter.stack.len(), 2);
    assert_eq!(interpreter.stack[0].identifier, Some('x'));
    assert_eq!(interpreter.stack[0].value, 9);
    assert_eq!(interpreter.stack[1].identifier, None);
    assert_eq!(interpreter.stack[1].value, 5);
}

#[test]
fn popping_more_than_present_loses_the_popped_cells() {
    let mut interpreter = Interpreter::new();
    interpreter.push_to_stack(None, 1).unwrap();
    interpreter.push_to_stack(None, 2).unwrap();
    let rslt = interpreter.get_from_stack(3).unwrap_err();

    assert_eq!(rslt, InterpreterError::StackUnderflow);
    // the two cells popped before the failure are not restored
    assert_eq!(interpreter.stack.len(), 0);
}

#[test]
fn popped_cells_come_most_recent_first() {
    let mut interpreter = Interpreter::new();
    interpreter.push_to_stack(None, 1).unwrap();
    interpreter.push_to_stack(None, 2).unwrap();
    interpreter.push_to_stack(None, 3).unwrap();
    let popped = interpreter.get_from_stack(2).unwrap();

    assert_eq!(popped.len(), 2);
    assert_eq!(popped[0].value, 3);
    assert_eq!(popped[1].value, 2);
    assert_eq!(interpreter.stack.len(), 1);
    assert_eq!(interpreter.stack[0].value, 1);
}

#[test]
fn clear_stack_keeps_the_pointer() {
    let mut interpreter = Interpreter::new();
    interpreter.instruction_pointer = 11;
    interpreter.push_to_stack(None, 4).unwrap();
    interpreter.clear_stack();

    assert_eq!(interpreter.stack.len(), 0);
    assert_eq!(interpreter.instruction_pointer, 11);
}

#[test]
fn a_run_resets_earlier_state() {
    let mut interpreter = Interpreter::new();
    interpreter.push_to_stack(None, 40).unwrap();
    // the leftover cell from before the run is cleared, so the run
    // sees an empty stack and fails on return
    let rslt = interpreter.run(vec![ByteCode::Return]).unwrap_err();

    assert_eq!(rslt, InterpreterError::StackUnderflow);
}
