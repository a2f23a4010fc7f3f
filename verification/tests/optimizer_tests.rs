use brainfuck_interpreter::optimizer::optimize;
use brainfuck_interpreter::parser::{parse, Instruction};

#[test]
fn optimize_coalesces_value_runs() {
    let mut program = parse("+++").unwrap();
    optimize(&mut program);
    assert_eq!(program, vec![Instruction::IncrementValue(3)]);
}

#[test]
fn optimize_coalesces_pointer_runs() {
    let mut program = parse(">>><<<").unwrap();
    optimize(&mut program);
    assert_eq!(
        program,
        vec![
            Instruction::IncrementPointer(3),
            Instruction::DecrementPointer(3),
        ]
    );
}

#[test]
fn optimize_renumbers_targets_after_merge() {
    let mut program = parse("+[>>]").unwrap();
    optimize(&mut program);
    let expected: Vec<Instruction> = vec![
        Instruction::IncrementValue(1),
        Instruction::LoopStart(3),
        Instruction::IncrementPointer(2),
        Instruction::LoopEnd(1),
    ];
    assert_eq!(program, expected);
}

#[test]
fn optimize_folds_clear_loop() {
    let mut program = parse("+[-]").unwrap();
    optimize(&mut program);
    assert_eq!(
        program,
        vec![Instruction::IncrementValue(1), Instruction::ResetValue]
    );
}

#[test]
fn optimize_folds_increment_clear_loop() {
    let mut program = parse("+[+]").unwrap();
    optimize(&mut program);
    assert_eq!(
        program,
        vec![Instruction::IncrementValue(1), Instruction::ResetValue]
    );
}

#[test]
fn optimize_leaves_wide_loops_alone() {
    let mut program = parse("[--]").unwrap();
    optimize(&mut program);
    let expected: Vec<Instruction> = vec![
        Instruction::LoopStart(2),
        Instruction::DecrementValue(2),
        Instruction::LoopEnd(0),
    ];
    assert_eq!(program, expected);
}

#[test]
fn optimize_renumbers_targets_in_nested_loops() {
    let mut program = parse("++[>++[-]<--]").unwrap();
    optimize(&mut program);
    let expected: Vec<Instruction> = vec![
        Instruction::IncrementValue(2),
        Instruction::LoopStart(7),
        Instruction::IncrementPointer(1),
        Instruction::IncrementValue(2),
        Instruction::ResetValue,
        Instruction::DecrementPointer(1),
        Instruction::DecrementValue(2),
        Instruction::LoopEnd(1),
    ];
    assert_eq!(program, expected);
}

#[test]
fn optimize_keeps_empty_program() {
    let mut program = parse("").unwrap();
    optimize(&mut program);
    assert!(program.is_empty());
}
