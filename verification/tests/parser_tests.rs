use brainfuck_interpreter::parser::{parse, Error, Instruction};

#[test]
fn parse_comments() {
    let result = parse("d{{Q\\' =(L^/6;/B\"D;;=%? joY=SA").unwrap();
    assert!(
        result.is_empty(),
        "parsing comments failed, value was {:?}",
        result
    );
}

#[test]
fn parse_basic() {
    let result: Vec<Instruction> = parse("__.+-__><--__,__").unwrap();
    let expected: Vec<Instruction> = vec![
        Instruction::Output,
        Instruction::IncrementValue(1),
        Instruction::DecrementValue(1),
        Instruction::IncrementPointer(1),
        Instruction::DecrementPointer(1),
        Instruction::DecrementValue(1),
        Instruction::DecrementValue(1),
        Instruction::Input,
    ];
    assert!(
        result.eq(&expected),
        "parsing basic failed, value was {:?}",
        result
    );
}

#[test]
fn parse_loop() {
    let result: Vec<Instruction> = parse("__,__[__-_.__]__").unwrap();
    let expected: Vec<Instruction> = vec![
        Instruction::Input,
        Instruction::LoopStart(4),
        Instruction::DecrementValue(1),
        Instruction::Output,
        Instruction::LoopEnd(1),
    ];
    assert!(
        result.eq(&expected),
        "parsing basic failed, value was {:?}",
        result
    );
}

#[test]
fn parse_nested_loops() {
    let result: Vec<Instruction> = parse("__>>_[_--__[_[__+_]_]__+__]__").unwrap();
    let expected: Vec<Instruction> = vec![
        Instruction::IncrementPointer(1),
        Instruction::IncrementPointer(1),
        Instruction::LoopStart(11),
        Instruction::DecrementValue(1),
        Instruction::DecrementValue(1),
        Instruction::LoopStart(9),
        Instruction::LoopStart(8),
        Instruction::IncrementValue(1),
        Instruction::LoopEnd(6),
        Instruction::LoopEnd(5),
        Instruction::IncrementValue(1),
        Instruction::LoopEnd(2),
    ];
    assert!(
        result.eq(&expected),
        "parsing nested loops failed, value was {:?}",
        result
    );
}

#[test]
fn parse_missing_start() {
    let result = parse("__>>_[_--_[__+_]_]__+__]__+__");
    let Err(error) = result else {
        panic!("parsing missing start failed, value was {:?}", result);
    };
    assert!(
        error == Error::NoLoopStart(1, 24),
        "parsing missing start failed, value was {:?}",
        error
    );
}

#[test]
fn parse_missing_end() {
    let result = parse("__>>_[_--__[_[__+_]_[_]__+__]__");
    let Err(error) = result else {
        panic!("parsing missing end failed, value was {:?}", result);
    };
    assert!(
        error == Error::NoLoopEnd(1, 6),
        "parsing missing end failed, value was {:?}",
        error
    );
}

#[test]
fn parse_unmatched_open_reports_earliest() {
    let result = parse("[[]");
    assert!(
        result == Err(Error::NoLoopEnd(1, 1)),
        "unmatched open failed, value was {:?}",
        result
    );
}

#[test]
fn parse_unmatched_close_reports_position() {
    let result = parse("[]]");
    assert!(
        result == Err(Error::NoLoopStart(1, 3)),
        "unmatched close failed, value was {:?}",
        result
    );
}

#[test]
fn parse_comments_keep_literal_positions() {
    // comment characters produce no instruction, yet the position
    // reported for a bracket stays its literal column in the line
    let result = parse("ab[cd");
    assert!(
        result == Err(Error::NoLoopEnd(1, 3)),
        "comment positions failed, value was {:?}",
        result
    );
    let across_lines = parse("ab\ncd]");
    assert!(
        across_lines == Err(Error::NoLoopStart(2, 3)),
        "comment positions failed, value was {:?}",
        across_lines
    );
}
