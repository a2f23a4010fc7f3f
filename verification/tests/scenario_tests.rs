use brainfuck_interpreter::interpreter::{execute, Error};
use brainfuck_interpreter::optimizer::optimize;
use brainfuck_interpreter::parser::{parse, Instruction};

#[test]
fn execute_three_increments_outputs_three() {
    let program = parse("+++.").unwrap();
    let (output, result) = execute(&program, &Vec::new(), u64::MAX);
    assert!(result == Some(Ok(())), "run failed, value was {:?}", result);
    assert_eq!(output, vec![3u8]);
}

#[test]
fn execute_clear_loop_outputs_zero() {
    let program = parse("+++++[-].").unwrap();
    let (output, result) = execute(&program, &Vec::new(), u64::MAX);
    assert!(result == Some(Ok(())), "run failed, value was {:?}", result);
    assert_eq!(output, vec![0u8]);
}

#[test]
fn optimize_clear_loop_keeps_output() {
    let mut program = parse("+++++[-].").unwrap();
    let (plain_output, plain_result) = execute(&program, &Vec::new(), u64::MAX);
    optimize(&mut program);
    // the loop folds into a single reset instruction
    let expected: Vec<Instruction> = vec![
        Instruction::IncrementValue(5),
        Instruction::ResetValue,
        Instruction::Output,
    ];
    assert_eq!(program, expected);
    let (folded_output, folded_result) = execute(&program, &Vec::new(), u64::MAX);
    assert!(plain_result == Some(Ok(())) && folded_result == Some(Ok(())));
    assert_eq!(plain_output, folded_output);
    assert_eq!(folded_output, vec![0u8]);
}

#[test]
fn execute_echo_copies_input() {
    let program = parse(",[.,]").unwrap();
    let input: Vec<u8> = vec![b'A', b'B'];
    let (output, result) = execute(&program, &input, u64::MAX);
    assert!(result == Some(Ok(())), "run failed, value was {:?}", result);
    assert_eq!(output, vec![b'A', b'B']);
}

#[test]
fn execute_walks_off_tape_end() {
    let source = String::from_utf8(vec![b'>'; 30000]).unwrap();
    let program = parse(&source).unwrap();
    let (output, result) = execute(&program, &Vec::new(), u64::MAX);
    assert!(
        result == Some(Err(Error::OutOfBounds)),
        "run failed, value was {:?}",
        result
    );
    assert!(output.is_empty());
}

#[test]
fn execute_walks_off_tape_start() {
    let program = parse("<.").unwrap();
    let (output, result) = execute(&program, &Vec::new(), u64::MAX);
    assert!(result == Some(Err(Error::OutOfBounds)));
    // the fault aborts the run: no output is produced after it
    assert!(output.is_empty());
}

#[test]
fn execute_fault_keeps_output_before_it() {
    let mut source = String::from("+.");
    source.push_str(&String::from_utf8(vec![b'>'; 30000]).unwrap());
    let program = parse(&source).unwrap();
    let (output, result) = execute(&program, &Vec::new(), u64::MAX);
    assert!(result == Some(Err(Error::OutOfBounds)));
    assert_eq!(output, vec![1u8]);
}

#[test]
fn execute_wraps_cell_down_and_up() {
    let program = parse("-.").unwrap();
    let (output, result) = execute(&program, &Vec::new(), u64::MAX);
    assert!(result == Some(Ok(())));
    assert_eq!(output, vec![255u8]);

    let mut source = String::from_utf8(vec![b'+'; 256]).unwrap();
    source.push('.');
    let program = parse(&source).unwrap();
    let (output, result) = execute(&program, &Vec::new(), u64::MAX);
    assert!(result == Some(Ok(())));
    assert_eq!(output, vec![0u8]);
}

#[test]
fn execute_input_past_end_of_stream_stores_zero() {
    let program = parse(",.,.").unwrap();
    let input: Vec<u8> = vec![b'X'];
    let (output, result) = execute(&program, &input, u64::MAX);
    assert!(result == Some(Ok(())));
    assert_eq!(output, vec![b'X', 0u8]);
}

#[test]
fn execute_budget_can_run_out() {
    let program = parse("+++.").unwrap();
    let (output, result) = execute(&program, &Vec::new(), 2);
    assert!(result.is_none());
    assert!(output.is_empty());
    let (output, result) = execute(&program, &Vec::new(), 4);
    assert!(result == Some(Ok(())));
    assert_eq!(output, vec![3u8]);
}

#[test]
fn optimizer_keeps_output_on_multiplication_loop() {
    let mut program = parse("++[>+++<-]>.").unwrap();
    let (plain_output, plain_result) = execute(&program, &Vec::new(), u64::MAX);
    optimize(&mut program);
    let (merged_output, merged_result) = execute(&program, &Vec::new(), u64::MAX);
    assert!(plain_result == Some(Ok(())) && merged_result == Some(Ok(())));
    assert_eq!(plain_output, merged_output);
    assert_eq!(merged_output, vec![6u8]);
}

#[test]
fn optimizer_keeps_output_with_input_and_fault() {
    let source = ",>++++[<->-]<.<";
    let mut program = parse(source).unwrap();
    let input: Vec<u8> = vec![9];
    let (plain_output, plain_result) = execute(&program, &input, u64::MAX);
    optimize(&mut program);
    let (merged_output, merged_result) = execute(&program, &input, u64::MAX);
    assert_eq!(plain_output, merged_output);
    assert_eq!(plain_result, merged_result);
    assert_eq!(merged_output, vec![5u8]);
    assert!(merged_result == Some(Err(Error::OutOfBounds)));
}
