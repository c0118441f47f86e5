use std::collections::HashMap;

use pietc::machine::{ErrorReason, Machine, Operation, Program, StepOutcome};

fn bare_machine() -> Machine {
    Machine::new(Program::new(0, HashMap::new()))
}

fn machine_with(entries: Vec<(u64, (u64, Operation))>) -> Machine {
    let mut t = HashMap::new();
    for (k, v) in entries {
        t.insert(k, v);
    }
    Machine::new(Program::new(12, t))
}

#[test]
fn push_pop_add_subtract() {
    let mut m = bare_machine();
    m.execute_instruction(Operation::Push(2));
    m.execute_instruction(Operation::Push(3));
    m.execute_instruction(Operation::Add);
    assert_eq!(m.stack, vec![5]);
    m.execute_instruction(Operation::Push(1));
    m.execute_instruction(Operation::Subtract);
    assert_eq!(m.stack, vec![4]);
    m.execute_instruction(Operation::Pop);
    assert!(m.stack.is_empty());
    // underflow is silently skipped
    m.execute_instruction(Operation::Pop);
    m.execute_instruction(Operation::Add);
    assert!(m.stack.is_empty());
}

#[test]
fn add_wraps_on_overflow() {
    let mut m = bare_machine();
    m.execute_instruction(Operation::Push(i64::MAX));
    m.execute_instruction(Operation::Push(1));
    m.execute_instruction(Operation::Add);
    assert_eq!(m.stack, vec![i64::MIN]);
}

#[test]
fn multiply_wraps_on_overflow() {
    let mut m = bare_machine();
    m.execute_instruction(Operation::Push(i64::MAX));
    m.execute_instruction(Operation::Push(2));
    m.execute_instruction(Operation::Multiply);
    assert_eq!(m.stack, vec![-2]);
}

#[test]
fn multiply_and_greater() {
    let mut m = bare_machine();
    m.execute_instruction(Operation::Push(-4));
    m.execute_instruction(Operation::Push(3));
    m.execute_instruction(Operation::Multiply);
    assert_eq!(m.stack, vec![-12]);
    m.execute_instruction(Operation::Push(-13));
    m.execute_instruction(Operation::Greater);
    assert_eq!(m.stack, vec![1]);
    m.execute_instruction(Operation::Push(7));
    m.execute_instruction(Operation::Greater);
    assert_eq!(m.stack, vec![0]);
}

#[test]
fn divide_rounds_toward_negative_infinity() {
    let cases = [
        (7, 2, 3),
        (-7, 2, -4),
        (7, -2, -4),
        (-7, -2, 3),
        (6, 3, 2),
        (i64::MIN, 1, i64::MIN),
    ];
    for (b, a, want) in cases {
        let mut m = bare_machine();
        m.execute_instruction(Operation::Push(b));
        m.execute_instruction(Operation::Push(a));
        m.execute_instruction(Operation::Divide);
        assert_eq!(m.stack, vec![want], "{} / {}", b, a);
    }
}

#[test]
fn divide_by_zero_is_a_no_op() {
    let mut m = bare_machine();
    m.execute_instruction(Operation::Push(5));
    m.execute_instruction(Operation::Push(0));
    m.execute_instruction(Operation::Divide);
    assert_eq!(m.stack, vec![5, 0]);
}

#[test]
fn mod_sign_follows_divisor() {
    let cases = [(7, 2, 1), (-7, 2, 1), (7, -2, -1), (-7, -2, -1), (6, 3, 0)];
    for (b, a, want) in cases {
        let mut m = bare_machine();
        m.execute_instruction(Operation::Push(b));
        m.execute_instruction(Operation::Push(a));
        m.execute_instruction(Operation::Mod);
        assert_eq!(m.stack, vec![want], "{} mod {}", b, a);
    }
    let mut m = bare_machine();
    m.execute_instruction(Operation::Push(9));
    m.execute_instruction(Operation::Push(0));
    m.execute_instruction(Operation::Mod);
    assert_eq!(m.stack, vec![9, 0]);
}

#[test]
fn not_and_duplicate() {
    let mut m = bare_machine();
    m.execute_instruction(Operation::Push(0));
    m.execute_instruction(Operation::Not);
    assert_eq!(m.stack, vec![1]);
    m.execute_instruction(Operation::Not);
    assert_eq!(m.stack, vec![0]);
    m.execute_instruction(Operation::Duplicate);
    assert_eq!(m.stack, vec![0, 0]);
}

#[test]
fn roll_rotates_the_top_depth_elements() {
    // depth 3, one roll: the top moves to the bottom of the sub-stack
    let mut m = bare_machine();
    for v in [9, 1, 2, 3] {
        m.execute_instruction(Operation::Push(v));
    }
    m.execute_instruction(Operation::Push(3)); // depth
    m.execute_instruction(Operation::Push(1)); // rolls
    m.execute_instruction(Operation::Roll);
    assert_eq!(m.stack, vec![9, 3, 1, 2]);
}

#[test]
fn roll_with_negative_rolls_goes_the_other_way() {
    let mut m = bare_machine();
    for v in [1, 2, 3] {
        m.execute_instruction(Operation::Push(v));
    }
    m.execute_instruction(Operation::Push(3)); // depth
    m.execute_instruction(Operation::Push(-1)); // rolls
    m.execute_instruction(Operation::Roll);
    assert_eq!(m.stack, vec![2, 3, 1]);
}

#[test]
fn roll_with_bad_depth_is_a_no_op() {
    let mut m = bare_machine();
    for v in [1, 2, 3, 0, 1] {
        m.execute_instruction(Operation::Push(v));
    }
    // depth 0: nothing happens, operands stay
    m.execute_instruction(Operation::Roll);
    assert_eq!(m.stack, vec![1, 2, 3, 0, 1]);
    let mut m = bare_machine();
    for v in [1, 9, 1] {
        m.execute_instruction(Operation::Push(v));
    }
    // depth 9 exceeds what is below it
    m.execute_instruction(Operation::Roll);
    assert_eq!(m.stack, vec![1, 9, 1]);
}

#[test]
fn pointer_rotates_the_direction_of_the_next_state() {
    // state 12 is (block 0, Right, Left, unflipped); one clockwise turn
    // from Right is Down, whose rank with (Left, unflipped) is 4
    let mut m = machine_with(vec![(12, (12, Operation::Pointer))]);
    m.stack.push(1);
    assert_eq!(m.step(), StepOutcome::Stepped);
    assert_eq!(m.state, 4);
    assert!(m.stack.is_empty());
}

#[test]
fn switch_toggles_the_chooser_on_odd() {
    // rank 12 is (Right, Left, unflipped); with the Right chooser it is 14
    let mut m = machine_with(vec![(12, (12, Operation::Switch))]);
    m.stack.push(3);
    assert_eq!(m.step(), StepOutcome::Stepped);
    assert_eq!(m.state, 14);
    let mut m = machine_with(vec![(12, (12, Operation::Switch))]);
    m.stack.push(2);
    assert_eq!(m.step(), StepOutcome::Stepped);
    assert_eq!(m.state, 12);
}

#[test]
fn step_halts_on_a_missing_entry() {
    let mut m = machine_with(vec![]);
    assert_eq!(m.step(), StepOutcome::Halted);
    assert_eq!(m.state, 12);
}

#[test]
fn step_aborts_on_an_error_operation() {
    let mut m = machine_with(vec![
        (12, (12, Operation::Error(ErrorReason::NonStandardColour))),
    ]);
    assert_eq!(
        m.step(),
        StepOutcome::Aborted(ErrorReason::NonStandardColour)
    );
}

#[test]
fn input_and_output_round_trip() {
    let mut m = machine_with(vec![
        (12, (13, Operation::InNum)),
        (13, (14, Operation::OutNum)),
    ]);
    assert_eq!(m.step(), StepOutcome::NeedsNum);
    m.provide(Some(42));
    assert_eq!(m.stack, vec![42]);
    assert_eq!(m.step(), StepOutcome::EmitNum(42));
    assert!(m.stack.is_empty());
    assert_eq!(m.state, 14);
}

#[test]
fn input_exhaustion_pushes_nothing() {
    let mut m = machine_with(vec![(12, (13, Operation::InChar))]);
    assert_eq!(m.step(), StepOutcome::NeedsChar);
    m.provide(None);
    assert!(m.stack.is_empty());
    assert_eq!(m.state, 13);
}

#[test]
fn output_on_an_empty_stack_is_skipped() {
    let mut m = machine_with(vec![(12, (13, Operation::OutChar))]);
    assert_eq!(m.step(), StepOutcome::Stepped);
    assert_eq!(m.state, 13);
}
