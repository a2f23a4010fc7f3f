use brainfuck_interpreter::interpreter::{execute_instruction, Error};
use brainfuck_interpreter::parser::Instruction;

#[test]
fn interpreter_execute_increment_value() {
    let mut memory: Vec<u8> = vec![0; 30000];
    let mut pointer: usize = 0;
    let mut line: usize = 0;
    let input: Vec<u8> = Vec::new();
    let mut next_input: usize = 0;
    let mut output: Vec<u8> = Vec::new();

    let result = execute_instruction(
        &mut memory,
        &mut pointer,
        &mut line,
        &Instruction::IncrementValue(1),
        &input,
        &mut next_input,
        &mut output,
    );

    if let Err(error) = result {
        panic!("increment value failed, value was {:?}", error);
    }
    assert!(
        memory[0] == 1,
        "increment value failed, value was {:?}",
        memory[0]
    );
}

#[test]
fn interpreter_execute_increment_value_overflow() {
    let mut memory: Vec<u8> = vec![0; 30000];
    let mut pointer: usize = 0;
    let mut line: usize = 0;
    let input: Vec<u8> = Vec::new();
    let mut next_input: usize = 0;
    let mut output: Vec<u8> = Vec::new();

    memory[0] = 255;
    let result = execute_instruction(
        &mut memory,
        &mut pointer,
        &mut line,
        &Instruction::IncrementValue(1),
        &input,
        &mut next_input,
        &mut output,
    );

    if let Err(error) = result {
        panic!("increment value overflow failed, value was {:?}", error);
    }
    assert!(
        memory[0] == 0,
        "increment value overflow failed, value was {:?}",
        memory[0]
    );
}

#[test]
fn interpreter_execute_decrement_value() {
    let mut memory: Vec<u8> = vec![0; 30000];
    let mut pointer: usize = 0;
    let mut line: usize = 0;
    let input: Vec<u8> = Vec::new();
    let mut next_input: usize = 0;
    let mut output: Vec<u8> = Vec::new();

    memory[0] = 1;
    let result = execute_instruction(
        &mut memory,
        &mut pointer,
        &mut line,
        &Instruction::DecrementValue(1),
        &input,
        &mut next_input,
        &mut output,
    );

    if let Err(error) = result {
        panic!("decrement value failed, value was {:?}", error);
    }
    assert!(
        memory[0] == 0,
        "decrement value failed, value was {:?}",
        memory[0]
    );
}

#[test]
fn interpreter_execute_decrement_value_overflow() {
    let mut memory: Vec<u8> = vec![0; 30000];
    let mut pointer: usize = 0;
    let mut line: usize = 0;
    let input: Vec<u8> = Vec::new();
    let mut next_input: usize = 0;
    let mut output: Vec<u8> = Vec::new();

    let result = execute_instruction(
        &mut memory,
        &mut pointer,
        &mut line,
        &Instruction::DecrementValue(1),
        &input,
        &mut next_input,
        &mut output,
    );

    if let Err(error) = result {
        panic!("decrement value overflow failed, value was {:?}", error);
    }
    assert!(
        memory[0] == 255,
        "decrement value overflow failed, value was {:?}",
        memory[0]
    );
}

#[test]
fn interpreter_execute_increment_pointer() {
    let mut memory: Vec<u8> = vec![0; 30000];
    let mut pointer: usize = 0;
    let mut line: usize = 0;
    let input: Vec<u8> = Vec::new();
    let mut next_input: usize = 0;
    let mut output: Vec<u8> = Vec::new();

    let result = execute_instruction(
        &mut memory,
        &mut pointer,
        &mut line,
        &Instruction::IncrementPointer(1),
        &input,
        &mut next_input,
        &mut output,
    );

    if let Err(error) = result {
        panic!("increment pointer failed, value was {:?}", error);
    }
    assert!(
        pointer == 1,
        "increment pointer failed, value was {:?}",
        pointer
    );
}

#[test]
fn interpreter_execute_increment_pointer_out_of_bounds() {
    let mut memory: Vec<u8> = vec![0; 30000];
    let mut pointer: usize = 30000 - 1;
    let mut line: usize = 0;
    let input: Vec<u8> = Vec::new();
    let mut next_input: usize = 0;
    let mut output: Vec<u8> = Vec::new();

    let result = execute_instruction(
        &mut memory,
        &mut pointer,
        &mut line,
        &Instruction::IncrementPointer(1),
        &input,
        &mut next_input,
        &mut output,
    );

    let Err(error) = result else {
        panic!(
            "increment pointer out of bounds failed, value was {:?}",
            result
        );
    };
    assert!(
        error == Error::OutOfBounds,
        "increment pointer out of bounds failed, value was {:?}",
        error
    );
}

#[test]
fn interpreter_execute_decrement_pointer() {
    let mut memory: Vec<u8> = vec![0; 30000];
    let mut pointer: usize = 1;
    let mut line: usize = 0;
    let input: Vec<u8> = Vec::new();
    let mut next_input: usize = 0;
    let mut output: Vec<u8> = Vec::new();

    let result = execute_instruction(
        &mut memory,
        &mut pointer,
        &mut line,
        &Instruction::DecrementPointer(1),
        &input,
        &mut next_input,
        &mut output,
    );

    if let Err(error) = result {
        panic!("decrement pointer failed, value was {:?}", error);
    }
    assert!(
        pointer == 0,
        "decrement pointer failed, value was {:?}",
        pointer
    );
}

#[test]
fn interpreter_execute_decrement_pointer_out_of_bounds() {
    let mut memory: Vec<u8> = vec![0; 30000];
    let mut pointer: usize = 0;
    let mut line: usize = 0;
    let input: Vec<u8> = Vec::new();
    let mut next_input: usize = 0;
    let mut output: Vec<u8> = Vec::new();

    let result = execute_instruction(
        &mut memory,
        &mut pointer,
        &mut line,
        &Instruction::DecrementPointer(1),
        &input,
        &mut next_input,
        &mut output,
    );

    let Err(error) = result else {
        panic!(
            "decrement pointer out of bounds failed, value was {:?}",
            result
        );
    };
    assert!(
        error == Error::OutOfBounds,
        "decrement pointer out of bounds failed, value was {:?}",
        error
    );
}

#[test]
fn lib_execute_increment_value() {
    let mut memory: Vec<u8> = vec![0; 30000];
    let mut pointer: usize = 0;
    let mut line: usize = 0;
    let input: Vec<u8> = Vec::new();
    let mut next_input: usize = 0;
    let mut output: Vec<u8> = Vec::new();

    let result = execute_instruction(
        &mut memory,
        &mut pointer,
        &mut line,
        &Instruction::IncrementValue(1),
        &input,
        &mut next_input,
        &mut output,
    );

    if let Err(error) = result {
        panic!("increment value failed, value was {:?}", error);
    }
    assert!(
        memory[0] == 1,
        "increment value failed, value was {:?}",
        memory[0]
    );
}

#[test]
fn lib_execute_increment_value_overflow() {
    let mut memory: Vec<u8> = vec![0; 30000];
    let mut pointer: usize = 0;
    let mut line: usize = 0;
    let input: Vec<u8> = Vec::new();
    let mut next_input: usize = 0;
    let mut output: Vec<u8> = Vec::new();

    memory[0] = 255;
    let result = execute_instruction(
        &mut memory,
        &mut pointer,
        &mut line,
        &Instruction::IncrementValue(1),
        &input,
        &mut next_input,
        &mut output,
    );

    if let Err(error) = result {
        panic!("increment value overflow failed, value was {:?}", error);
    }
    assert!(
        memory[0] == 0,
        "increment value overflow failed, value was {:?}",
        memory[0]
    );
}

#[test]
fn lib_execute_decrement_value() {
    let mut memory: Vec<u8> = vec![0; 30000];
    let mut pointer: usize = 0;
    let mut line: usize = 0;
    let input: Vec<u8> = Vec::new();
    let mut next_input: usize = 0;
    let mut output: Vec<u8> = Vec::new();

    memory[0] = 1;
    let result = execute_instruction(
        &mut memory,
        &mut pointer,
        &mut line,
        &Instruction::DecrementValue(1),
        &input,
        &mut next_input,
        &mut output,
    );

    if let Err(error) = result {
        panic!("decrement value failed, value was {:?}", error);
    }
    assert!(
        memory[0] == 0,
        "decrement value failed, value was {:?}",
        memory[0]
    );
}

#[test]
fn lib_execute_decrement_value_overflow() {
    let mut memory: Vec<u8> = vec![0; 30000];
    let mut pointer: usize = 0;
    let mut line: usize = 0;
    let input: Vec<u8> = Vec::new();
    let mut next_input: usize = 0;
    let mut output: Vec<u8> = Vec::new();

    let result = execute_instruction(
        &mut memory,
        &mut pointer,
        &mut line,
        &Instruction::DecrementValue(1),
        &input,
        &mut next_input,
        &mut output,
    );

    if let Err(error) = result {
        panic!("decrement value overflow failed, value was {:?}", error);
    }
    assert!(
        memory[0] == 255,
        "decrement value overflow failed, value was {:?}",
        memory[0]
    );
}

#[test]
fn lib_execute_increment_pointer() {
    let mut memory: Vec<u8> = vec![0; 30000];
    let mut pointer: usize = 0;
    let mut line: usize = 0;
    let input: Vec<u8> = Vec::new();
    let mut next_input: usize = 0;
    let mut output: Vec<u8> = Vec::new();

    let result = execute_instruction(
        &mut memory,
        &mut pointer,
        &mut line,
        &Instruction::IncrementPointer(1),
        &input,
        &mut next_input,
        &mut output,
    );

    if let Err(error) = result {
        panic!("increment pointer failed, value was {:?}", error);
    }
    assert!(
        pointer == 1,
        "increment pointer failed, value was {:?}",
        pointer
    );
}

#[test]
fn lib_execute_increment_pointer_out_of_bounds() {
    let mut memory: Vec<u8> = vec![0; 30000];
    let mut pointer: usize = 30000 - 1;
    let mut line: usize = 0;
    let input: Vec<u8> = Vec::new();
    let mut next_input: usize = 0;
    let mut output: Vec<u8> = Vec::new();

    let result = execute_instruction(
        &mut memory,
        &mut pointer,
        &mut line,
        &Instruction::IncrementPointer(1),
        &input,
        &mut next_input,
        &mut output,
    );

    let Err(error) = result else {
        panic!(
            "increment pointer out of bounds failed, value was {:?}",
            result
        );
    };
    assert!(
        error == Error::OutOfBounds,
        "increment pointer out of bounds failed, value was {:?}",
        error
    );
}

#[test]
fn lib_execute_decrement_pointer() {
    let mut memory: Vec<u8> = vec![0; 30000];
    let mut pointer: usize = 1;
    let mut line: usize = 0;
    let input: Vec<u8> = Vec::new();
    let mut next_input: usize = 0;
    let mut output: Vec<u8> = Vec::new();

    let result = execute_instruction(
        &mut memory,
        &mut pointer,
        &mut line,
        &Instruction::DecrementPointer(1),
        &input,
        &mut next_input,
        &mut output,
    );

    if let Err(error) = result {
        panic!("decrement pointer failed, value was {:?}", error);
    }
    assert!(
        pointer == 0,
        "decrement pointer failed, value was {:?}",
        pointer
    );
}

#[test]
fn lib_execute_decrement_pointer_out_of_bounds() {
    let mut memory: Vec<u8> = vec![0; 30000];
    let mut pointer: usize = 0;
    let mut line: usize = 0;
    let input: Vec<u8> = Vec::new();
    let mut next_input: usize = 0;
    let mut output: Vec<u8> = Vec::new();

    let result = execute_instruction(
        &mut memory,
        &mut pointer,
        &mut line,
        &Instruction::DecrementPointer(1),
        &input,
        &mut next_input,
        &mut output,
    );

    let Err(error) = result else {
        panic!(
            "decrement pointer out of bounds failed, value was {:?}",
            result
        );
    };
    assert!(
        error == Error::OutOfBounds,
        "decrement pointer out of bounds failed, value was {:?}",
        error
    );
}
