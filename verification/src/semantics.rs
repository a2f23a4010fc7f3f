//! The mathematical model of the tape machine.
//!
//! A machine state is the tape, the data pointer, the program
//! counter, the position of the next unread input byte, and the
//! output produced so far.  `insn_effect` gives the effect of one
//! instruction (without the program-counter advance), `step` gives
//! one full step, and `run` iterates steps under a fuel bound.  The
//! executor in `interpreter` is proved to follow this model step by
//! step.

use vstd::prelude::*;
use crate::parser::Instruction;

verus! {

/// The number of cells on the tape.
pub const TAPE_LEN: usize = 30000;

pub ghost struct MachineState {
    pub tape: Seq<u8>,
    pub pointer: nat,
    pub pc: nat,
    pub next_input: nat,
    pub output: Seq<u8>,
}

/// The state at the start of a run: a zeroed tape, everything else 0.
pub open spec fn init_state() -> MachineState {
    MachineState {
        tape: Seq::new(TAPE_LEN as nat, |k: int| 0u8),
        pointer: 0nat,
        pc: 0nat,
        next_input: 0nat,
        output: Seq::empty(),
    }
}

/// Cell arithmetic wraps modulo 256.
pub open spec fn wrap_add(v: u8, n: u8) -> u8 {
    (((v + n) % 256) as u8)
}

pub open spec fn wrap_sub(v: u8, n: u8) -> u8 {
    (((v + 256 - n) % 256) as u8)
}

/// The effect of one instruction on a state, before the program
/// counter advances.  `None` is an out-of-bounds fault: the data
/// pointer would move below 0 or to or above the tape length.  An
/// input instruction past the end of the input stream stores 0.
pub open spec fn insn_effect(insn: Instruction, input: Seq<u8>, s: MachineState) -> Option<
    MachineState,
> {
    match insn {
        Instruction::IncrementPointer(n) => if s.pointer + n < TAPE_LEN {
            Some(MachineState { pointer: (s.pointer + n) as nat, ..s })
        } else {
            None
        },
        Instruction::DecrementPointer(n) => if n <= s.pointer {
            Some(MachineState { pointer: (s.pointer - n) as nat, ..s })
        } else {
            None
        },
        Instruction::IncrementValue(n) => Some(
            MachineState {
                tape: s.tape.update(
                    s.pointer as int,
                    wrap_add(s.tape[s.pointer as int], n),
                ),
                ..s
            },
        ),
        Instruction::DecrementValue(n) => Some(
            MachineState {
                tape: s.tape.update(
                    s.pointer as int,
                    wrap_sub(s.tape[s.pointer as int], n),
                ),
                ..s
            },
        ),
        Instruction::Output => Some(
            MachineState { output: s.output.push(s.tape[s.pointer as int]), ..s },
        ),
        Instruction::Input => if s.next_input < input.len() {
            Some(
                MachineState {
                    tape: s.tape.update(s.pointer as int, input[s.next_input as int]),
                    next_input: (s.next_input + 1) as nat,
                    ..s
                },
            )
        } else {
            Some(MachineState { tape: s.tape.update(s.pointer as int, 0u8), ..s })
        },
        Instruction::LoopStart(t) => Some(
            if s.tape[s.pointer as int] == 0 {
                MachineState { pc: t as nat, ..s }
            } else {
                s
            },
        ),
        Instruction::LoopEnd(t) => Some(
            if s.tape[s.pointer as int] != 0 {
                MachineState { pc: t as nat, ..s }
            } else {
                s
            },
        ),
        Instruction::ResetValue => Some(
            MachineState { tape: s.tape.update(s.pointer as int, 0u8), ..s },
        ),
    }
}

/// One full step: the instruction at the program counter acts, then
/// the counter advances by one (also right after a taken jump, so a
/// stored target points one instruction before where control
/// resumes).
pub open spec fn step(prog: Seq<Instruction>, input: Seq<u8>, s: MachineState) -> Option<
    MachineState,
> {
    match insn_effect(prog[s.pc as int], input, s) {
        Some(s2) => Some(MachineState { pc: (s2.pc + 1) as nat, ..s2 }),
        None => None,
    }
}

/// The observable outcome of running for a bounded number of steps.
pub ghost enum RunResult {
    /// Fuel ran out with the machine still going.
    Running(MachineState),
    /// The program counter ran past the end: a normal halt, with the
    /// complete output.
    Halted(Seq<u8>),
    /// An out-of-bounds fault, with the output produced before it; no
    /// further output follows a fault.
    Faulted(Seq<u8>),
}

/// Runs the machine from `s` for at most `fuel` steps.
pub open spec fn run(
    prog: Seq<Instruction>,
    input: Seq<u8>,
    s: MachineState,
    fuel: nat,
) -> RunResult
    decreases fuel,
{
    if fuel == 0 {
        RunResult::Running(s)
    } else if s.pc >= prog.len() {
        RunResult::Halted(s.output)
    } else {
        match step(prog, input, s) {
            Some(s2) => run(prog, input, s2, (fuel - 1) as nat),
            None => RunResult::Faulted(s.output),
        }
    }
}

/// Splitting a run: spending `a + b` fuel is spending `a`, then `b`
/// from wherever that left the machine.
pub proof fn lemma_run_split(
    prog: Seq<Instruction>,
    input: Seq<u8>,
    s: MachineState,
    a: nat,
    b: nat,
)
    ensures
        run(prog, input, s, a + b) == (match run(prog, input, s, a) {
            RunResult::Running(m) => run(prog, input, m, b),
            r => r,
        }),
    decreases a,
{
    if a == 0 {
    } else if s.pc >= prog.len() {
        lemma_halted_stays(prog, input, s, a + b);
        lemma_halted_stays(prog, input, s, a);
    } else {
        match step(prog, input, s) {
            Some(s2) => {
                lemma_run_split(prog, input, s2, (a - 1) as nat, b);
                assert((a + b - 1) as nat == ((a - 1) as nat + b) as nat);
            },
            None => {},
        }
    }
}

/// A halted machine stays halted for any amount of fuel.
pub proof fn lemma_halted_stays(prog: Seq<Instruction>, input: Seq<u8>, s: MachineState, fuel: nat)
    requires
        s.pc >= prog.len(),
        fuel > 0,
    ensures
        run(prog, input, s, fuel) == RunResult::Halted(s.output),
{
}

} // verus!
