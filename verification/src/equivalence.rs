//! The optimizer never changes observable behaviour.
//!
//! `lemma_optimizer_preserves_runs` states it in full: for any parsed
//! program — loop pairs mutually resolved and nested, multiplicities
//! 1 — and any input stream, whenever the program's run and its
//! optimized form's run both complete, by a normal halt or by an
//! out-of-bounds fault, they end the same way with byte-identical
//! output streams.  The proof is a backward simulation, one rewrite
//! of the scan at a time: outside the rewritten span the two programs
//! execute the same instruction with targets renumbered across the
//! cut, a coalesced instruction has exactly the effect of the run of
//! unit instructions it replaced, and a reset instruction has exactly
//! the effect of running the clear-cell loop it replaced.  A run is
//! deterministic, so the matched completion is the only one.

use vstd::prelude::*;
use crate::optimizer::{
    bump, clear_loop_at, counts_ok, lemma_merge_wf, lemma_opt_step_len, lemma_reset_wf,
    lemma_run_extra_bound, lemma_run_same_kind, mergeable, opt_from, opt_step, run_extra,
    shift_insn, spec_optimize,
};
use crate::parser::{loops_nested, loops_resolved, resolved_at, same_kind, unit_counts, Instruction};
use crate::semantics::{init_state, insn_effect, run, step, MachineState, RunResult, TAPE_LEN};
use vstd::arithmetic::div_mod::{
    lemma_add_mod_noop, lemma_add_mod_noop_right, lemma_mod_add_multiples_vanish,
    lemma_mod_pos_bound, lemma_sub_mod_noop, lemma_sub_mod_noop_right,
};

verus! {

/// A run is deterministic: once it halts or faults, spending more
/// fuel changes nothing, so any two completed runs of one program on
/// one input stream are the same outcome with byte-identical output.
pub proof fn lemma_run_deterministic(
    prog: Seq<Instruction>,
    input: Seq<u8>,
    s: MachineState,
    f1: nat,
    f2: nat,
)
    requires
        !(run(prog, input, s, f1) is Running),
        !(run(prog, input, s, f2) is Running),
    ensures
        run(prog, input, s, f1) == run(prog, input, s, f2),
{
    if f1 <= f2 {
        crate::semantics::lemma_run_split(prog, input, s, f1, (f2 - f1) as nat);
        assert(f1 + (f2 - f1) as nat == f2);
    } else {
        crate::semantics::lemma_run_split(prog, input, s, f2, (f1 - f2) as nat);
        assert(f2 + (f1 - f2) as nat == f1);
    }
}

/// The effect of applying one instruction `k` times in a row;
/// `None` as soon as any application faults.
pub open spec fn iter_effect(
    insn: Instruction,
    input: Seq<u8>,
    s: MachineState,
    k: nat,
) -> Option<MachineState>
    decreases k,
{
    if k == 0 {
        Some(s)
    } else {
        match insn_effect(insn, input, s) {
            Some(s2) => iter_effect(insn, input, s2, (k - 1) as nat),
            None => None,
        }
    }
}

/// One instruction carries multiplicity 1.
pub open spec fn unit_insn(insn: Instruction) -> bool {
    match insn {
        Instruction::IncrementPointer(n) => n == 1,
        Instruction::DecrementPointer(n) => n == 1,
        Instruction::IncrementValue(n) => n == 1,
        Instruction::DecrementValue(n) => n == 1,
        _ => true,
    }
}

proof fn lemma_chain_add(v: int, extra: int)
    requires
        0 <= v < 256,
        1 <= extra,
    ensures
        (((v + 1) % 256) + (1 + (extra - 1)) % 256) % 256 == (v + (1 + extra) % 256) % 256,
{
    let v1 = (v + 1) % 256;
    lemma_mod_pos_bound(v + 1, 256);
    lemma_add_mod_noop_right(v1, extra, 256);
    lemma_add_mod_noop(v + 1, extra, 256);
    assert(v1 % 256 == v1);
    lemma_add_mod_noop_right(v, 1 + extra, 256);
}

proof fn lemma_chain_sub(v: int, extra: int)
    requires
        0 <= v < 256,
        1 <= extra,
    ensures
        (((v + 255) % 256) + 256 - (1 + (extra - 1)) % 256) % 256 == (v + 256 - (1 + extra) % 256)
            % 256,
{
    let v1 = (v + 255) % 256;
    lemma_mod_pos_bound(v + 255, 256);
    // both sides reduce to (v + 255 - extra) modulo 256
    lemma_sub_mod_noop_right(v1 + 256, extra, 256);
    lemma_mod_add_multiples_vanish(v1 - extra, 256);
    lemma_sub_mod_noop_right(v + 255, extra, 256);
    lemma_sub_mod_noop(v + 255, extra, 256);
    lemma_sub_mod_noop_right(v + 256, 1 + extra, 256);
    assert(v1 % 256 == v1);
}

/// Run-length coalescing is sound at the level of one effect:
/// applying a unit pointer or value instruction `extra + 1` times has
/// exactly the effect — result state or fault alike — of the single
/// coalesced instruction that the optimizer puts in its place.
#[verifier::rlimit(80)]
pub proof fn lemma_coalesced_effect(
    insn: Instruction,
    input: Seq<u8>,
    s: MachineState,
    extra: nat,
)
    requires
        mergeable(insn),
        unit_insn(insn),
        extra + 1 <= usize::MAX,
        s.tape.len() == TAPE_LEN,
        s.pointer < TAPE_LEN,
    ensures
        iter_effect(insn, input, s, extra + 1) == insn_effect(bump(insn, extra), input, s),
    decreases extra,
{
    let p = s.pointer as int;
    if extra == 0 {
        assert(bump(insn, 0) == insn);
        match insn_effect(insn, input, s) {
            Some(s2) => {
                assert(iter_effect(insn, input, s2, 0) == Some(s2));
            },
            None => {},
        }
    } else {
        match insn {
            Instruction::IncrementPointer(_) => {
                if s.pointer + 1 < TAPE_LEN {
                    let s1 = MachineState { pointer: (s.pointer + 1) as nat, ..s };
                    assert(insn_effect(insn, input, s) == Some(s1));
                    lemma_coalesced_effect(insn, input, s1, (extra - 1) as nat);
                } else {
                    assert(insn_effect(insn, input, s) is None);
                    assert(s.pointer + (1 + extra) >= TAPE_LEN);
                }
            },
            Instruction::DecrementPointer(_) => {
                if 1 <= s.pointer {
                    let s1 = MachineState { pointer: (s.pointer - 1) as nat, ..s };
                    assert(insn_effect(insn, input, s) == Some(s1));
                    lemma_coalesced_effect(insn, input, s1, (extra - 1) as nat);
                } else {
                    assert(insn_effect(insn, input, s) is None);
                    assert(1 + extra > s.pointer);
                }
            },
            Instruction::IncrementValue(_) => {
                let v = s.tape[p] as int;
                let s1 = MachineState {
                    tape: s.tape.update(p, (((v + 1) % 256) as u8)),
                    ..s
                };
                assert(insn_effect(insn, input, s) == Some(s1));
                lemma_coalesced_effect(insn, input, s1, (extra - 1) as nat);
                let v1 = (v + 1) % 256;
                lemma_mod_pos_bound(v + 1, 256);
                assert(s1.tape[p] == v1);
                let k1 = (1 + (extra - 1)) % 256;
                lemma_chain_add(v, extra as int);
                assert((v1 + k1) % 256 == (v + (1 + extra) % 256) % 256);
                assert(s1.tape.update(p, (((v1 + k1) % 256) as u8)) =~= s.tape.update(
                    p,
                    (((v + (1 + extra) % 256) % 256) as u8),
                ));
            },
            Instruction::DecrementValue(_) => {
                let v = s.tape[p] as int;
                let s1 = MachineState {
                    tape: s.tape.update(p, (((v + 256 - 1) % 256) as u8)),
                    ..s
                };
                assert(insn_effect(insn, input, s) == Some(s1));
                lemma_coalesced_effect(insn, input, s1, (extra - 1) as nat);
                let v1 = (v + 255) % 256;
                lemma_mod_pos_bound(v + 255, 256);
                assert(s1.tape[p] == v1);
                let k1 = (1 + (extra - 1)) % 256;
                let k = (1 + extra) % 256;
                lemma_chain_sub(v, extra as int);
                assert((v1 + 256 - k1) % 256 == (v + 256 - k) % 256);
                assert(s1.tape.update(p, (((v1 + 256 - k1) % 256) as u8)) =~= s.tape.update(
                    p,
                    (((v + 256 - k) % 256) as u8),
                ));
            },
            _ => {},
        }
    }
}

/// The body of a clear-cell loop, entered with a non-zero cell,
/// steps the cell to zero and leaves the machine past the loop.
proof fn lemma_clear_body(prog: Seq<Instruction>, input: Seq<u8>, m: MachineState, i: int)
    requires
        0 <= i,
        clear_loop_at(prog, i),
        resolved_at(prog, i),
        m.pc == i + 1,
        m.pointer < m.tape.len(),
        1 <= m.tape[m.pointer as int],
    ensures
        exists|f: nat|
            run(prog, input, m, f) == RunResult::Running(
                (MachineState {
                    tape: m.tape.update(m.pointer as int, 0u8),
                    pc: (i + 3) as nat,
                    ..m
                }),
            ),
    decreases (if prog[i + 1] == Instruction::IncrementValue(1) {
        256 - m.tape[m.pointer as int]
    } else {
        m.tape[m.pointer as int] as int
    }),
{
    let p = m.pointer as int;
    let v = m.tape[p] as int;
    let target = MachineState { tape: m.tape.update(p, 0u8), pc: (i + 3) as nat, ..m };
    let stepped: int = if prog[i + 1] == Instruction::IncrementValue(1) {
        (v + 1) % 256
    } else {
        (v + 255) % 256
    };
    if prog[i + 1] == Instruction::IncrementValue(1) {
        if v == 255 {
            assert(stepped == 0);
        } else {
            vstd::arithmetic::div_mod::lemma_small_mod((v + 1) as nat, 256nat);
            assert(stepped == v + 1);
        }
    } else {
        lemma_mod_add_multiples_vanish(v - 1, 256);
        vstd::arithmetic::div_mod::lemma_small_mod((v - 1) as nat, 256nat);
        assert(stepped == v - 1);
    }
    let m2 = MachineState {
        tape: m.tape.update(p, (stepped as u8)),
        pc: (i + 2) as nat,
        ..m
    };
    assert(step(prog, input, m) == Some(m2));
    assert(prog[i + 2] == Instruction::LoopEnd(i as usize));
    if stepped == 0 {
        // the test fails: fall out of the loop
        let m3 = MachineState { pc: (i + 3) as nat, ..m2 };
        assert(step(prog, input, m2) == Some(m3));
        assert(m3 == target);
        assert(run(prog, input, m, 2) == RunResult::Running(target)) by {
            assert(run(prog, input, m3, 0) == RunResult::Running(m3));
            assert(run(prog, input, m2, 1) == RunResult::Running(m3));
        }
    } else {
        // the test holds: jump back to the body
        let m3 = MachineState { pc: (i + 1) as nat, ..m2 };
        assert(step(prog, input, m2) == Some(m3));
        lemma_clear_body(prog, input, m3, i);
        let f3 = choose|f: nat|
            run(prog, input, m3, f) == RunResult::Running(
                (MachineState {
                    tape: m3.tape.update(m3.pointer as int, 0u8),
                    pc: (i + 3) as nat,
                    ..m3
                }),
            );
        assert(m3.tape.update(p, 0u8) =~= m.tape.update(p, 0u8));
        assert(run(prog, input, m, 2) == RunResult::Running(m3)) by {
            assert(run(prog, input, m3, 0) == RunResult::Running(m3));
            assert(run(prog, input, m2, 1) == RunResult::Running(m3));
        }
        crate::semantics::lemma_run_split(prog, input, m, 2nat, f3);
        assert(run(prog, input, m, 2 + f3) == RunResult::Running(target));
    }
}

/// Clear-cell folding is sound at the level of the model: a machine
/// standing at a clear-cell loop runs to the position past the loop
/// with the current cell zeroed and nothing else changed — exactly
/// the effect of the reset instruction the optimizer puts in its
/// place.
pub proof fn lemma_clear_loop_runs(prog: Seq<Instruction>, input: Seq<u8>, m: MachineState, i: int)
    requires
        0 <= i,
        clear_loop_at(prog, i),
        resolved_at(prog, i),
        m.pc == i,
        m.pointer < m.tape.len(),
    ensures
        exists|f: nat|
            run(prog, input, m, f) == RunResult::Running(
                (MachineState {
                    tape: m.tape.update(m.pointer as int, 0u8),
                    pc: (i + 3) as nat,
                    ..m
                }),
            ),
{
    let p = m.pointer as int;
    let v = m.tape[p] as int;
    let target = MachineState { tape: m.tape.update(p, 0u8), pc: (i + 3) as nat, ..m };
    if v == 0 {
        // the loop is skipped and the cell is already zero
        let m1 = MachineState { pc: (i + 3) as nat, ..m };
        assert(step(prog, input, m) == Some(m1));
        assert(m.tape.update(p, 0u8) =~= m.tape);
        assert(m1 == target);
        assert(run(prog, input, m, 1) == RunResult::Running(m1)) by {
            assert(run(prog, input, m1, 0) == RunResult::Running(m1));
        }
    } else {
        let m1 = MachineState { pc: (i + 1) as nat, ..m };
        assert(step(prog, input, m) == Some(m1));
        lemma_clear_body(prog, input, m1, i);
        let f1 = choose|f: nat|
            run(prog, input, m1, f) == RunResult::Running(
                (MachineState {
                    tape: m1.tape.update(m1.pointer as int, 0u8),
                    pc: (i + 3) as nat,
                    ..m1
                }),
            );
        assert(run(prog, input, m, 1) == RunResult::Running(m1)) by {
            assert(run(prog, input, m1, 0) == RunResult::Running(m1));
        }
        crate::semantics::lemma_run_split(prog, input, m, 1nat, f1);
        assert(run(prog, input, m, 1 + f1) == RunResult::Running(target));
    }
}

/// A non-loop instruction neither reads nor moves the program
/// counter: its effect carries any counter through unchanged.
proof fn lemma_effect_pc(insn: Instruction, input: Seq<u8>, m: MachineState, p: nat)
    requires
        !(insn is LoopStart),
        !(insn is LoopEnd),
    ensures
        insn_effect(insn, input, (MachineState { pc: p, ..m })) == (match insn_effect(
            insn,
            input,
            m,
        ) {
            Some(x) => Some(MachineState { pc: p, ..x }),
            None => None::<MachineState>,
        }),
{
}

/// Crossing a run of `c + 1` equal unit instructions takes the
/// machine from its start to just past it, with exactly the effect
/// of the coalesced instruction; when that effect is a fault, the
/// run faults without further output.
proof fn lemma_merge_cross(
    s: Seq<Instruction>,
    input: Seq<u8>,
    i: int,
    c: nat,
    m: MachineState,
)
    requires
        0 <= i,
        i + c < s.len(),
        mergeable(s[i]),
        unit_insn(s[i]),
        forall|j: int| 0 <= j <= c ==> #[trigger] s[i + j] == s[i],
        c + 1 <= usize::MAX,
        m.pc == i,
        m.tape.len() == TAPE_LEN,
        m.pointer < TAPE_LEN,
    ensures
        (match insn_effect(bump(s[i], c), input, m) {
            Some(x) => exists|f: nat|
                run(s, input, m, f) == RunResult::Running(
                    (MachineState { pc: (i + c + 1) as nat, ..x }),
                ),
            None => exists|f: nat| run(s, input, m, f) == RunResult::Faulted(m.output),
        }),
    decreases c,
{
    let u = s[i];
    if c == 0 {
        assert(bump(u, 0) == u);
        match insn_effect(u, input, m) {
            Some(x) => {
                let m1 = MachineState { pc: (i + 1) as nat, ..x };
                assert(x.pc == m.pc);
                assert(step(s, input, m) == Some(m1));
                assert(run(s, input, m, 1) == RunResult::Running(m1)) by {
                    assert(run(s, input, m1, 0) == RunResult::Running(m1));
                }
            },
            None => {
                assert(step(s, input, m) is None);
                assert(run(s, input, m, 1) == RunResult::Faulted(m.output));
            },
        }
    } else {
        lemma_coalesced_effect(u, input, m, c);
        match insn_effect(u, input, m) {
            Some(x) => {
                let m1 = MachineState { pc: (i + 1) as nat, ..x };
                assert(step(s, input, m) == Some(m1));
                assert(run(s, input, m, 1) == RunResult::Running(m1)) by {
                    assert(run(s, input, m1, 0) == RunResult::Running(m1));
                }
                assert(s[i + 1] == u);
                assert forall|j: int| 0 <= j <= c - 1 implies #[trigger] s[(i + 1) + j] == s[
                    i + 1
                ] by {
                    assert(s[i + (j + 1)] == s[i]);
                }
                assert(m1.tape.len() == TAPE_LEN && m1.pointer < TAPE_LEN);
                lemma_merge_cross(s, input, i + 1, (c - 1) as nat, m1);
                // the coalesced effect from one step in equals the
                // remaining coalesced effect
                lemma_coalesced_effect(u, input, x, (c - 1) as nat);
                assert(iter_effect(u, input, m, (c + 1) as nat) == iter_effect(
                    u,
                    input,
                    x,
                    c,
                ));
                lemma_effect_pc(bump(u, (c - 1) as nat), input, x, (i + 1) as nat);
                match insn_effect(bump(u, c), input, m) {
                    Some(y) => {
                        assert(insn_effect(bump(u, (c - 1) as nat), input, x) == Some(y));
                        assert(insn_effect(bump(u, (c - 1) as nat), input, m1) == Some(
                            (MachineState { pc: (i + 1) as nat, ..y }),
                        ));
                        let f1 = choose|f: nat|
                            run(s, input, m1, f) == RunResult::Running(
                                (MachineState {
                                    pc: ((i + 1) + (c - 1) + 1) as nat,
                                    ..(MachineState { pc: (i + 1) as nat, ..y })
                                }),
                            );
                        crate::semantics::lemma_run_split(s, input, m, 1nat, f1);
                        assert(run(s, input, m, 1 + f1) == RunResult::Running(
                            (MachineState { pc: (i + c + 1) as nat, ..y }),
                        ));
                    },
                    None => {
                        assert(insn_effect(bump(u, (c - 1) as nat), input, x) is None);
                        assert(insn_effect(bump(u, (c - 1) as nat), input, m1) is None);
                        let f1 = choose|f: nat|
                            run(s, input, m1, f) == RunResult::Faulted(m1.output);
                        assert(m1.output == m.output);
                        crate::semantics::lemma_run_split(s, input, m, 1nat, f1);
                        assert(run(s, input, m, 1 + f1) == RunResult::Faulted(m.output));
                    },
                }
            },
            None => {
                assert(insn_effect(bump(u, c), input, m) is None);
                assert(step(s, input, m) is None);
                assert(run(s, input, m, 1) == RunResult::Faulted(m.output));
            },
        }
    }
}

/// How many instructions the rewrite at `i` removes.
pub open spec fn cut_width(s: Seq<Instruction>, i: int) -> nat {
    if mergeable(s[i]) {
        run_extra(s, i)
    } else {
        2nat
    }
}

/// A counter standing clear of the rewritten span.
pub open spec fn sync_pc(i: int, c: nat, p: nat) -> bool {
    p <= i || p >= i + c + 1
}

/// Where a counter standing clear of the span lands after the cut.
pub open spec fn map_pc(i: int, c: nat, p: nat) -> nat {
    if p <= i {
        p
    } else {
        (p - c) as nat
    }
}

/// A position the optimizer's scan rewrites: a coalescible run of
/// unit instructions, or a clear-cell loop, in a resolved program.
pub open spec fn rewrite_site(s: Seq<Instruction>, i: int) -> bool {
    &&& loops_resolved(s)
    &&& 0 <= i < s.len()
    &&& s.len() <= usize::MAX
    &&& (mergeable(s[i]) || clear_loop_at(s, i))
    &&& (mergeable(s[i]) ==> forall|j: int|
        0 <= j <= run_extra(s, i) ==> unit_insn(#[trigger] s[i + j]))
}

pub open spec fn valid_state(m: MachineState) -> bool {
    &&& m.tape.len() == TAPE_LEN
    &&& m.pointer < TAPE_LEN
}

/// The optimized machine mirrors the source machine: same tape,
/// pointer, input position and output, counter mapped across the cut.
pub open spec fn corr_state(s: Seq<Instruction>, i: int, m: MachineState, m2: MachineState) -> bool {
    &&& sync_pc(i, cut_width(s, i), m.pc)
    &&& m2 == (MachineState { pc: map_pc(i, cut_width(s, i), m.pc), ..m })
}

/// What the instruction at `i` becomes before the cut.
pub open spec fn mid_insn(s: Seq<Instruction>, i: int) -> Instruction {
    if mergeable(s[i]) {
        bump(s[i], run_extra(s, i))
    } else {
        Instruction::ResetValue
    }
}

proof fn lemma_opt_step_pointwise(s: Seq<Instruction>, i: int)
    requires
        rewrite_site(s, i),
    ensures
        i + cut_width(s, i) < s.len(),
        opt_step(s, i).len() == s.len() - cut_width(s, i),
        forall|p2: int|
            0 <= p2 < opt_step(s, i).len() ==> #[trigger] opt_step(s, i)[p2] == shift_insn(
                s.update(i, mid_insn(s, i))[if p2 <= i {
                    p2
                } else {
                    p2 + cut_width(s, i)
                }],
                p2,
                i,
                cut_width(s, i) as int,
            ),
        mergeable(s[i]) ==> forall|j: int|
            0 <= j <= cut_width(s, i) ==> #[trigger] s[i + j] == s[i],
{
    let c = cut_width(s, i);
    if mergeable(s[i]) {
        lemma_run_extra_bound(s, i);
        assert forall|j: int| 0 <= j <= c implies #[trigger] s[i + j] == s[i] by {
            lemma_run_same_kind(s, i, j);
            assert(same_kind(s[i], s[i + j]));
            assert(unit_insn(s[i + j]));
            assert(unit_insn(s[i + 0]));
        }
    } else {
        assert(resolved_at(s, i));
    }
}

/// A non-loop instruction's successful effect keeps the machine
/// valid.
proof fn lemma_effect_valid(insn: Instruction, input: Seq<u8>, m: MachineState)
    requires
        valid_state(m),
    ensures
        (match insn_effect(insn, input, m) {
            Some(x) => valid_state(x),
            None => true,
        }),
{
}

/// The stored target of a loop instruction outside the rewritten
/// span lies outside that span as well.
proof fn lemma_partner_clears_span(s: Seq<Instruction>, i: int, q: int)
    requires
        rewrite_site(s, i),
        0 <= q < s.len(),
        q != i,
        sync_pc(i, cut_width(s, i), q as nat) || q < i || q > i + cut_width(s, i),
        s[q] is LoopStart || s[q] is LoopEnd,
    ensures
        (match s[q] {
            Instruction::LoopStart(t) => t < i || t > i + cut_width(s, i),
            Instruction::LoopEnd(t) => t < i || t > i + cut_width(s, i),
            _ => true,
        }),
{
    let c = cut_width(s, i);
    lemma_opt_step_pointwise(s, i);
    assert(resolved_at(s, q));
    match s[q] {
        Instruction::LoopStart(t) => {
            assert(s[t as int] == Instruction::LoopEnd(q as usize));
            if i <= t <= i + c {
                if mergeable(s[i]) {
                    assert(s[i + (t - i)] == s[i]);
                } else {
                    assert(resolved_at(s, i));
                    assert(s[i + 2] == Instruction::LoopEnd(i as usize));
                    assert(t != i && t != i + 1);
                    assert(t == i + 2);
                    assert(q == i);
                }
                assert(false);
            }
        },
        Instruction::LoopEnd(t) => {
            assert(s[t as int] == Instruction::LoopStart(q as usize));
            if i <= t <= i + c {
                if mergeable(s[i]) {
                    assert(s[i + (t - i)] == s[i]);
                } else {
                    assert(resolved_at(s, i));
                    assert(s[i + 2] == Instruction::LoopEnd(i as usize));
                    assert(t != i + 1 && t != i + 2);
                    assert(t == i);
                    assert(q == i + 2);
                }
                assert(false);
            }
        },
        _ => {},
    }
}

/// The shape of the backward-simulation conclusion: every completed
/// run of the rewritten program from the mirrored state is matched
/// from the source state.
pub open spec fn back_sim(
    s: Seq<Instruction>,
    input: Seq<u8>,
    i: int,
    m: MachineState,
    m2: MachineState,
    f2: nat,
) -> bool {
    match run(opt_step(s, i), input, m2, f2) {
        RunResult::Halted(o) => exists|f: nat| run(s, input, m, f) == RunResult::Halted(o),
        RunResult::Faulted(o) => exists|f: nat| run(s, input, m, f) == RunResult::Faulted(o),
        RunResult::Running(_) => true,
    }
}

/// Backward simulation, one optimized step at a time: any completed
/// run of the rewritten program is matched by a completed run of the
/// source program with the same outcome.
proof fn lemma_step_back_states(
    s: Seq<Instruction>,
    input: Seq<u8>,
    i: int,
    m: MachineState,
    m2: MachineState,
    f2: nat,
)
    requires
        rewrite_site(s, i),
        valid_state(m),
        corr_state(s, i, m, m2),
    ensures
        back_sim(s, input, i, m, m2, f2),
    decreases f2, 3nat,
{
    let c = cut_width(s, i);
    let s2 = opt_step(s, i);
    let n = s.len() as int;
    lemma_opt_step_pointwise(s, i);
    if f2 == 0 {
    } else if m2.pc >= s2.len() {
        // the optimized machine has halted, so the source one has too
        assert(m.pc >= n);
        assert(run(s, input, m, 1) == RunResult::Halted(m.output));
        assert(run(s2, input, m2, f2) == RunResult::Halted(m2.output));
    } else if m.pc == i {
        lemma_cross_case(s, input, i, m, m2, f2);
    } else {
        lemma_sync_case(s, input, i, m, m2, f2);
    }
}

/// Crossing the rewritten span: the one rewritten instruction against
/// the run or loop it replaced.
proof fn lemma_cross_case(
    s: Seq<Instruction>,
    input: Seq<u8>,
    i: int,
    m: MachineState,
    m2: MachineState,
    f2: nat,
)
    requires
        rewrite_site(s, i),
        valid_state(m),
        corr_state(s, i, m, m2),
        f2 >= 1,
        m.pc == i,
        m2.pc < opt_step(s, i).len(),
    ensures
        back_sim(s, input, i, m, m2, f2),
    decreases f2, 2nat,
{
    let c = cut_width(s, i);
    let s2 = opt_step(s, i);
    lemma_opt_step_pointwise(s, i);
    assert(m2 == m);
    if mergeable(s[i]) {
        assert(s2[i] == bump(s[i], c));
        lemma_merge_cross(s, input, i, c, m);
        match insn_effect(bump(s[i], c), input, m) {
            Some(x) => {
                assert(x.pc == m.pc);
                let m2n = MachineState { pc: (i + 1) as nat, ..x };
                let mn = MachineState { pc: (i + c + 1) as nat, ..x };
                assert(step(s2, input, m2) == Some(m2n));
                let fx = choose|f: nat| run(s, input, m, f) == RunResult::Running(mn);
                lemma_effect_valid(bump(s[i], c), input, m);
                assert(valid_state(mn));
                assert(corr_state(s, i, mn, m2n));
                lemma_back_compose(s, input, i, mn, m2n, m, m2, f2, fx);
            },
            None => {
                assert(step(s2, input, m2) is None);
                assert(run(s2, input, m2, f2) == RunResult::Faulted(m2.output));
            },
        }
    } else {
        assert(s2[i] == Instruction::ResetValue);
        assert(resolved_at(s, i));
        lemma_clear_loop_runs(s, input, m, i);
        let p = m.pointer as int;
        let m2n = MachineState { tape: m.tape.update(p, 0u8), pc: (i + 1) as nat, ..m };
        let mn = MachineState { tape: m.tape.update(p, 0u8), pc: (i + 3) as nat, ..m };
        assert(step(s2, input, m2) == Some(m2n));
        let fx = choose|f: nat| run(s, input, m, f) == RunResult::Running(mn);
        assert(valid_state(mn));
        assert(corr_state(s, i, mn, m2n));
        lemma_back_compose(s, input, i, mn, m2n, m, m2, f2, fx);
    }
}

/// Outside the rewritten span both programs execute the same
/// instruction, with loop targets renumbered across the cut.
#[verifier::rlimit(100)]
proof fn lemma_sync_case(
    s: Seq<Instruction>,
    input: Seq<u8>,
    i: int,
    m: MachineState,
    m2: MachineState,
    f2: nat,
)
    requires
        rewrite_site(s, i),
        valid_state(m),
        corr_state(s, i, m, m2),
        f2 >= 1,
        m.pc != i,
        m2.pc < opt_step(s, i).len(),
    ensures
        back_sim(s, input, i, m, m2, f2),
    decreases f2, 2nat,
{
    let c = cut_width(s, i);
    let s2 = opt_step(s, i);
    let n = s.len() as int;
    lemma_opt_step_pointwise(s, i);
    let q = m.pc as int;
    let p2 = m2.pc as int;
    assert(q < n);
    assert(s2[p2] == shift_insn(s[q], p2, i, c as int));
    match s[q] {
        Instruction::LoopStart(t) => {
            assert(resolved_at(s, q));
            assert(s[t as int] == Instruction::LoopEnd(q as usize));
            lemma_partner_clears_span(s, i, q);
            let taken = m.tape[m.pointer as int] == 0;
            let tq: int = if taken {
                t as int
            } else {
                q
            };
            let t2: int = if i < t {
                t - c
            } else {
                t as int
            };
            assert(s2[p2] == Instruction::LoopStart(t2 as usize));
            let tp2: int = if taken {
                t2
            } else {
                p2
            };
            let mn = MachineState { pc: (tq + 1) as nat, ..m };
            let m2n = MachineState { pc: (tp2 + 1) as nat, ..m };
            assert(step(s, input, m) == Some(mn));
            assert(step(s2, input, m2) == Some(m2n));
            assert(run(s, input, m, 1) == RunResult::Running(mn)) by {
                assert(run(s, input, mn, 0) == RunResult::Running(mn));
            }
            assert(valid_state(mn));
            assert(corr_state(s, i, mn, m2n));
            lemma_back_compose(s, input, i, mn, m2n, m, m2, f2, 1nat);
        },
        Instruction::LoopEnd(t) => {
            assert(resolved_at(s, q));
            assert(s[t as int] == Instruction::LoopStart(q as usize));
            lemma_partner_clears_span(s, i, q);
            let taken = m.tape[m.pointer as int] != 0;
            let tq: int = if taken {
                t as int
            } else {
                q
            };
            let t2: int = if i < t && i < p2 {
                t - c
            } else {
                t as int
            };
            assert(s2[p2] == Instruction::LoopEnd(t2 as usize));
            let tp2: int = if taken {
                t2
            } else {
                p2
            };
            let mn = MachineState { pc: (tq + 1) as nat, ..m };
            let m2n = MachineState { pc: (tp2 + 1) as nat, ..m };
            assert(step(s, input, m) == Some(mn));
            assert(step(s2, input, m2) == Some(m2n));
            assert(run(s, input, m, 1) == RunResult::Running(mn)) by {
                assert(run(s, input, mn, 0) == RunResult::Running(mn));
            }
            assert(valid_state(mn));
            assert(corr_state(s, i, mn, m2n));
            lemma_back_compose(s, input, i, mn, m2n, m, m2, f2, 1nat);
        },
        _ => {
            assert(s2[p2] == s[q]);
            lemma_effect_pc(s[q], input, m, m2.pc);
            match insn_effect(s[q], input, m) {
                Some(x) => {
                    assert(x.pc == m.pc);
                    let mn = MachineState { pc: (q + 1) as nat, ..x };
                    let m2n = MachineState { pc: (p2 + 1) as nat, ..x };
                    assert(step(s, input, m) == Some(mn));
                    assert(step(s2, input, m2) == Some(m2n));
                    assert(run(s, input, m, 1) == RunResult::Running(mn)) by {
                        assert(run(s, input, mn, 0) == RunResult::Running(mn));
                    }
                    lemma_effect_valid(s[q], input, m);
                    assert(valid_state(mn));
                    assert(corr_state(s, i, mn, m2n));
                    lemma_back_compose(s, input, i, mn, m2n, m, m2, f2, 1nat);
                },
                None => {
                    assert(step(s, input, m) is None);
                    assert(step(s2, input, m2) is None);
                    assert(run(s, input, m, 1) == RunResult::Faulted(m.output));
                    assert(run(s2, input, m2, f2) == RunResult::Faulted(m2.output));
                },
            }
        },
    }
}

/// Glue for the simulation: one optimized step taken, the matching
/// source steps taken, and the rest of the run handled inductively.
proof fn lemma_back_compose(
    s: Seq<Instruction>,
    input: Seq<u8>,
    i: int,
    mn: MachineState,
    m2n: MachineState,
    m: MachineState,
    m2: MachineState,
    f2: nat,
    fx: nat,
)
    requires
        rewrite_site(s, i),
        valid_state(mn),
        corr_state(s, i, mn, m2n),
        f2 >= 1,
        m2.pc < opt_step(s, i).len(),
        step(opt_step(s, i), input, m2) == Some(m2n),
        run(s, input, m, fx) == RunResult::Running(mn),
    ensures
        back_sim(s, input, i, m, m2, f2),
    decreases f2, 0nat,
{
    let s2 = opt_step(s, i);
    assert(run(s2, input, m2, f2) == run(s2, input, m2n, (f2 - 1) as nat));
    lemma_step_back_states(s, input, i, mn, m2n, (f2 - 1) as nat);
    match run(s2, input, m2n, (f2 - 1) as nat) {
        RunResult::Halted(o) => {
            let f = choose|f: nat| run(s, input, mn, f) == RunResult::Halted(o);
            crate::semantics::lemma_run_split(s, input, m, fx, f);
            assert(run(s, input, m, fx + f) == RunResult::Halted(o));
        },
        RunResult::Faulted(o) => {
            let f = choose|f: nat| run(s, input, mn, f) == RunResult::Faulted(o);
            crate::semantics::lemma_run_split(s, input, m, fx, f);
            assert(run(s, input, m, fx + f) == RunResult::Faulted(o));
        },
        RunResult::Running(_) => {},
    }
}

/// Every instruction from position `i` on still carries the parser's
/// multiplicity 1.  The scan keeps this for the part it has not
/// reached yet.
pub open spec fn unit_from(s: Seq<Instruction>, i: int) -> bool {
    forall|j: int| i <= j < s.len() ==> unit_insn(#[trigger] s[j])
}

/// Backward simulation across the whole scan: any completed run of
/// the program the scan makes from position `i` on is matched by a
/// completed run of the program it started from.
proof fn lemma_scan_back(s: Seq<Instruction>, input: Seq<u8>, i: int, f2: nat)
    requires
        loops_resolved(s),
        loops_nested(s),
        counts_ok(s),
        unit_from(s, i),
        0 <= i,
        s.len() <= usize::MAX,
    ensures
        (match run(opt_from(s, i), input, init_state(), f2) {
            RunResult::Halted(o) => exists|f: nat|
                run(s, input, init_state(), f) == RunResult::Halted(o),
            RunResult::Faulted(o) => exists|f: nat|
                run(s, input, init_state(), f) == RunResult::Faulted(o),
            RunResult::Running(_) => true,
        }),
    decreases s.len() - i,
{
    if i >= s.len() {
        assert(opt_from(s, i) == s);
    } else {
        let s2 = opt_step(s, i);
        assert(opt_from(s, i) == opt_from(s2, i + 1));
        lemma_opt_step_len(s, i);
        let rewriting = mergeable(s[i]) || clear_loop_at(s, i);
        if mergeable(s[i]) {
            lemma_merge_wf(s, i);
        } else if s[i] is LoopStart {
            lemma_reset_wf(s, i);
        } else {
            assert(s2 == s);
        }
        if s[i] is LoopStart && !clear_loop_at(s, i) {
            assert(s2 == s);
        }
        if rewriting {
            if mergeable(s[i]) {
                lemma_run_extra_bound(s, i);
                assert forall|j: int| 0 <= j <= run_extra(s, i) implies unit_insn(
                    #[trigger] s[i + j],
                ) by {
                    assert(i <= i + j < s.len());
                }
            }
            assert(rewrite_site(s, i));
            lemma_opt_step_pointwise(s, i);
            let c = cut_width(s, i);
            assert forall|j: int| i + 1 <= j < s2.len() implies unit_insn(#[trigger] s2[j]) by {
                assert(s2[j] == shift_insn(
                    s.update(i, mid_insn(s, i))[j + c],
                    j,
                    i,
                    c as int,
                ));
                assert(unit_insn(s[j + c]));
            }
            lemma_scan_back(s2, input, i + 1, f2);
            match run(opt_from(s2, i + 1), input, init_state(), f2) {
                RunResult::Halted(o) => {
                    let f2b = choose|f: nat|
                        run(s2, input, init_state(), f) == RunResult::Halted(o);
                    assert(valid_state(init_state())) by {
                        assert(init_state().tape.len() == TAPE_LEN);
                    }
                    assert(corr_state(s, i, init_state(), init_state()));
                    lemma_step_back_states(s, input, i, init_state(), init_state(), f2b);
                },
                RunResult::Faulted(o) => {
                    let f2b = choose|f: nat|
                        run(s2, input, init_state(), f) == RunResult::Faulted(o);
                    assert(valid_state(init_state())) by {
                        assert(init_state().tape.len() == TAPE_LEN);
                    }
                    assert(corr_state(s, i, init_state(), init_state()));
                    lemma_step_back_states(s, input, i, init_state(), init_state(), f2b);
                },
                RunResult::Running(_) => {},
            }
        } else {
            assert(s2 == s);
            assert(unit_from(s2, i + 1));
            lemma_scan_back(s2, input, i + 1, f2);
        }
    }
}

/// The optimizer never changes observable behaviour: whenever a
/// parsed program's run and its optimized form's run both complete —
/// by a normal halt or by an out-of-bounds fault — they end the same
/// way, with byte-identical output streams.
pub proof fn lemma_optimizer_preserves_runs(
    prog: Seq<Instruction>,
    input: Seq<u8>,
    f1: nat,
    f2: nat,
)
    requires
        loops_resolved(prog),
        loops_nested(prog),
        unit_counts(prog),
        prog.len() < usize::MAX,
        !(run(prog, input, init_state(), f1) is Running),
        !(run(spec_optimize(prog), input, init_state(), f2) is Running),
    ensures
        run(spec_optimize(prog), input, init_state(), f2) == run(
            prog,
            input,
            init_state(),
            f1,
        ),
{
    assert(counts_ok(prog)) by {
        assert forall|k: int| 0 <= k < prog.len() implies match #[trigger] prog[k] {
            Instruction::IncrementPointer(n) => n + prog.len() <= usize::MAX,
            Instruction::DecrementPointer(n) => n + prog.len() <= usize::MAX,
            _ => true,
        } by {}
    }
    assert(unit_from(prog, 0)) by {
        assert forall|j: int| 0 <= j < prog.len() implies unit_insn(#[trigger] prog[j]) by {}
    }
    lemma_scan_back(prog, input, 0, f2);
    match run(spec_optimize(prog), input, init_state(), f2) {
        RunResult::Halted(o) => {
            let f = choose|f: nat| run(prog, input, init_state(), f) == RunResult::Halted(o);
            lemma_run_deterministic(prog, input, init_state(), f1, f);
        },
        RunResult::Faulted(o) => {
            let f = choose|f: nat| run(prog, input, init_state(), f) == RunResult::Faulted(o);
            lemma_run_deterministic(prog, input, init_state(), f1, f);
        },
        RunResult::Running(_) => {},
    }
}

} // verus!
