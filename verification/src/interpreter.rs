//! The tape-machine executor.
//!
//! `execute` interprets an instruction sequence against a fresh
//! zero-initialized tape of `TAPE_LEN` wrapping byte cells, consuming
//! bytes from an input stream and producing a stream of output bytes,
//! until the program counter runs past the end of the sequence or an
//! out-of-bounds fault aborts the run.  Input reads past the end of
//! the stream store 0.  The result is proved to be exactly what the
//! model in `semantics` computes.

use vstd::prelude::*;
use crate::parser::Instruction;
use crate::semantics::{
    init_state, insn_effect, run, step, MachineState, RunResult, TAPE_LEN,
};

verus! {

/// An execution failure.
#[derive(Clone, Copy, Debug, PartialEq, Eq, Structural)]
pub enum Error {
    /// The data pointer would move below 0 or to or above the tape
    /// length.
    OutOfBounds,
}

/// The machine state the executor's variables stand for.
pub open spec fn machine(
    tape: Seq<u8>,
    pointer: usize,
    pc: usize,
    next_input: usize,
    output: Seq<u8>,
) -> MachineState {
    MachineState {
        tape,
        pointer: pointer as nat,
        pc: pc as nat,
        next_input: next_input as nat,
        output,
    }
}

/// Every stored loop target leaves room for the program counter to
/// advance past it.
pub open spec fn targets_in_range(prog: Seq<Instruction>) -> bool {
    forall|k: int| 0 <= k < prog.len() ==> match #[trigger] prog[k] {
        Instruction::LoopStart(t) => t < usize::MAX,
        Instruction::LoopEnd(t) => t < usize::MAX,
        _ => true,
    }
}

/// Moves the data pointer forward (`increment`) or backward by
/// `value` cells; fails without moving when the result would leave
/// `[0, TAPE_LEN)`.
fn move_pointer(pointer: &mut usize, value: usize, increment: bool) -> (r: Result<(), Error>)
    requires
        *old(pointer) < TAPE_LEN,
    ensures
        *final(pointer) < TAPE_LEN,
        (match r {
            Ok(()) => if increment {
                *old(pointer) + value < TAPE_LEN && *final(pointer) == *old(pointer) + value
            } else {
                value <= *old(pointer) && *final(pointer) == *old(pointer) - value
            },
            Err(e) => {
                &&& e == Error::OutOfBounds
                &&& *final(pointer) == *old(pointer)
                &&& if increment {
                    *old(pointer) + value >= TAPE_LEN
                } else {
                    value > *old(pointer)
                }
            },
        }),
{
    if increment {
        match pointer.checked_add(value) {
            Some(new_value) => {
                if new_value >= TAPE_LEN {
                    return Err(Error::OutOfBounds);
                }
                *pointer = new_value;
            },
            None => {
                return Err(Error::OutOfBounds);
            },
        }
    } else {
        match pointer.checked_sub(value) {
            Some(new_value) => {
                *pointer = new_value;
            },
            None => {
                return Err(Error::OutOfBounds);
            },
        }
    }
    Ok(())
}

/// Executes one instruction.  On success the variables change exactly
/// as `insn_effect` says (the program-counter advance is the
/// caller's); on a fault nothing changes.
pub fn execute_instruction(
    memory: &mut Vec<u8>,
    pointer: &mut usize,
    index: &mut usize,
    instruction: &Instruction,
    input: &Vec<u8>,
    next_input: &mut usize,
    output: &mut Vec<u8>,
) -> (r: Result<(), Error>)
    requires
        old(memory)@.len() == TAPE_LEN,
        *old(pointer) < TAPE_LEN,
        *old(next_input) <= input@.len(),
    ensures
        final(memory)@.len() == TAPE_LEN,
        *final(pointer) < TAPE_LEN,
        *final(next_input) <= input@.len(),
        (match r {
            Ok(()) => insn_effect(
                *instruction,
                input@,
                machine(
                    old(memory)@,
                    *old(pointer),
                    *old(index),
                    *old(next_input),
                    old(output)@,
                ),
            ) == Some(
                machine(
                    final(memory)@,
                    *final(pointer),
                    *final(index),
                    *final(next_input),
                    final(output)@,
                ),
            ),
            Err(e) => {
                &&& e == Error::OutOfBounds
                &&& insn_effect(
                    *instruction,
                    input@,
                    machine(
                        old(memory)@,
                        *old(pointer),
                        *old(index),
                        *old(next_input),
                        old(output)@,
                    ),
                ) is None
                &&& final(memory)@ == old(memory)@
                &&& *final(pointer) == *old(pointer)
                &&& *final(index) == *old(index)
                &&& *final(next_input) == *old(next_input)
                &&& final(output)@ == old(output)@
            },
        }),
{
    match *instruction {
        Instruction::IncrementPointer(value) => {
            move_pointer(pointer, value, true)?;
        },
        Instruction::DecrementPointer(value) => {
            move_pointer(pointer, value, false)?;
        },
        Instruction::IncrementValue(value) => {
            let cell = memory[*pointer];
            let sum: u16 = cell as u16 + value as u16;
            memory[*pointer] = (sum % 256) as u8;
        },
        Instruction::DecrementValue(value) => {
            let cell = memory[*pointer];
            let diff: u16 = cell as u16 + 256 - value as u16;
            memory[*pointer] = (diff % 256) as u8;
        },
        Instruction::Output => {
            let cell = memory[*pointer];
            output.push(cell);
        },
        Instruction::Input => {
            if *next_input < input.len() {
                memory[*pointer] = input[*next_input];
                *next_input = *next_input + 1;
            } else {
                memory[*pointer] = 0;
            }
        },
        Instruction::LoopStart(loop_end) => {
            if memory[*pointer] == 0 {
                *index = loop_end;
            }
        },
        Instruction::LoopEnd(loop_start) => {
            if memory[*pointer] != 0 {
                *index = loop_start;
            }
        },
        Instruction::ResetValue => {
            memory[*pointer] = 0;
        },
    }
    Ok(())
}

/// Runs a program from a fresh zeroed tape, to completion or first
/// fault, taking at most `budget` steps.  The returned bytes are the
/// output stream.  `Some(Ok(()))` is a normal halt; `Some(Err(..))`
/// an out-of-bounds fault, with the bytes being exactly the output
/// produced before the fault and nothing after it.  `None` means the
/// budget ran out first: the run is deterministic, so calling again
/// with a larger budget reproduces and continues the same
/// computation.  (The language can loop forever, so no finite budget
/// can be dispensed with.)
pub fn execute(instructions: &Vec<Instruction>, input: &Vec<u8>, budget: u64) -> (r: (
    Vec<u8>,
    Option<Result<(), Error>>,
))
    requires
        targets_in_range(instructions@),
    ensures
        (match r.1 {
            Some(result) => match result {
                Ok(()) => exists|fuel: nat|
                    run(instructions@, input@, init_state(), fuel) == RunResult::Halted(r.0@),
                Err(e) => e == Error::OutOfBounds && exists|fuel: nat|
                    run(instructions@, input@, init_state(), fuel) == RunResult::Faulted(r.0@),
            },
            None => exists|m: MachineState|
                run(instructions@, input@, init_state(), budget as nat) == RunResult::Running(m)
                    && m.output == r.0@,
        }),
{
    let mut memory: Vec<u8> = Vec::new();
    let mut fill: usize = 0;
    while fill < TAPE_LEN
        invariant
            fill <= TAPE_LEN,
            memory@ =~= Seq::new(fill as nat, |k: int| 0u8),
        decreases TAPE_LEN - fill,
    {
        memory.push(0);
        fill = fill + 1;
    }
    let mut pointer: usize = 0;
    let mut index: usize = 0;
    let mut next_input: usize = 0;
    let mut output: Vec<u8> = Vec::new();
    let mut budget_left: u64 = budget;
    let ghost mut fuel: nat = 0nat;
    proof {
        assert(memory@ =~= init_state().tape);
    }
    while index < instructions.len() && budget_left > 0
        invariant
            targets_in_range(instructions@),
            memory@.len() == TAPE_LEN,
            pointer < TAPE_LEN,
            next_input <= input@.len(),
            budget_left <= budget,
            fuel + budget_left == budget,
            run(instructions@, input@, init_state(), fuel) == RunResult::Running(
                machine(memory@, pointer, index, next_input, output@),
            ),
        decreases budget_left,
    {
        let ghost pre = machine(memory@, pointer, index, next_input, output@);
        let instruction = instructions[index];
        let result = execute_instruction(
            &mut memory,
            &mut pointer,
            &mut index,
            &instruction,
            input,
            &mut next_input,
            &mut output,
        );
        proof {
            lemma_run_one_more(instructions@, input@, fuel, pre);
        }
        match result {
            Ok(()) => {},
            Err(e) => {
                proof {
                    assert(step(instructions@, input@, pre) is None);
                    assert(run(instructions@, input@, init_state(), fuel + 1)
                        == RunResult::Faulted(output@));
                }
                return (output, Some(Err(e)));
            },
        }
        index = index + 1;
        budget_left = budget_left - 1;
        proof {
            fuel = fuel + 1;
        }
    }
    if index < instructions.len() {
        // the budget ran out with the machine still going
        proof {
            assert(fuel == budget);
        }
        return (output, None);
    }
    proof {
        lemma_run_one_more(
            instructions@,
            input@,
            fuel,
            machine(memory@, pointer, index, next_input, output@),
        );
        assert(run(instructions@, input@, init_state(), fuel + 1) == RunResult::Halted(output@));
    }
    (output, Some(Ok(())))
}

/// One more unit of fuel takes a running machine one step further.
proof fn lemma_run_one_more(
    prog: Seq<Instruction>,
    input: Seq<u8>,
    fuel: nat,
    m: MachineState,
)
    requires
        run(prog, input, init_state(), fuel) == RunResult::Running(m),
    ensures
        run(prog, input, init_state(), fuel + 1) == (if m.pc >= prog.len() {
            RunResult::Halted(m.output)
        } else {
            match step(prog, input, m) {
                Some(s2) => RunResult::Running(s2),
                None => RunResult::Faulted(m.output),
            }
        }),
{
    crate::semantics::lemma_run_split(prog, input, init_state(), fuel, 1nat);
    if m.pc >= prog.len() {
        assert(run(prog, input, m, 1nat) == RunResult::Halted(m.output));
    } else {
        match step(prog, input, m) {
            Some(s2) => {
                assert(run(prog, input, s2, 0nat) == RunResult::Running(s2));
                assert(run(prog, input, m, 1nat) == RunResult::Running(s2));
            },
            None => {
                assert(run(prog, input, m, 1nat) == RunResult::Faulted(m.output));
            },
        }
    }
}

} // verus!
