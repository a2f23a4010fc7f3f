//! The peephole optimizer.
//!
//! Two rewrites, applied in a single left-to-right scan: a contiguous
//! run of same-kind pointer or value instructions is coalesced into
//! its first instruction with the run's multiplicity, and the
//! three-instruction "clear the current cell" loop (a loop whose sole
//! body instruction is a unit increment or decrement) is replaced by
//! a single reset instruction.  After every removal, the stored
//! targets of the remaining loop instructions that point past the
//! removed span are pulled back by its width, so the output satisfies
//! the same mutual-resolution invariant as the input.  The optimizer
//! never rejects a program.

use vstd::prelude::*;
use crate::parser::{loops_nested, loops_resolved, resolved_at, same_kind, Instruction};

verus! {

/// Room for run-length coalescing: no pointer multiplicity can
/// overflow when the instructions of a run are added onto it.
pub open spec fn counts_ok(prog: Seq<Instruction>) -> bool {
    forall|k: int| 0 <= k < prog.len() ==> match #[trigger] prog[k] {
        Instruction::IncrementPointer(n) => n + prog.len() <= usize::MAX,
        Instruction::DecrementPointer(n) => n + prog.len() <= usize::MAX,
        _ => true,
    }
}

/// Whether the instruction is subject to run-length coalescing.
pub open spec fn mergeable(insn: Instruction) -> bool {
    match insn {
        Instruction::IncrementPointer(_) => true,
        Instruction::DecrementPointer(_) => true,
        Instruction::IncrementValue(_) => true,
        Instruction::DecrementValue(_) => true,
        _ => false,
    }
}

/// How many instructions of the same kind follow position `i`
/// contiguously.
pub open spec fn run_extra(s: Seq<Instruction>, i: int) -> nat
    decreases s.len() - i,
{
    if 0 <= i && i + 1 < s.len() && same_kind(s[i], s[i + 1]) {
        (1 + run_extra(s, i + 1)) as nat
    } else {
        0nat
    }
}

pub proof fn lemma_run_extra_bound(s: Seq<Instruction>, i: int)
    requires
        0 <= i < s.len(),
    ensures
        run_extra(s, i) <= s.len() - i - 1,
    decreases s.len() - i,
{
    if i + 1 < s.len() && same_kind(s[i], s[i + 1]) {
        lemma_run_extra_bound(s, i + 1);
    }
}

/// Every instruction of a run has the kind of its first one.
pub proof fn lemma_run_same_kind(s: Seq<Instruction>, i: int, m: int)
    requires
        0 <= i < s.len(),
        0 <= m <= run_extra(s, i),
        i + run_extra(s, i) < s.len(),
    ensures
        same_kind(s[i], s[i + m]),
    decreases m,
{
    if m > 0 {
        assert(same_kind(s[i], s[i + 1]));
        assert(run_extra(s, i + 1) == run_extra(s, i) - 1);
        lemma_run_same_kind(s, i + 1, m - 1);
    }
}

/// The exact extent of a run: `c` contiguous same-kind neighbours and
/// then a break.
pub proof fn lemma_run_extra_is(s: Seq<Instruction>, i: int, c: int)
    requires
        0 <= i < s.len(),
        0 <= c <= s.len() - i - 1,
        forall|m: int| 0 <= m < c ==> same_kind(s[i + m], s[#[trigger] (i + m) + 1]),
        !(i + c + 1 < s.len() && same_kind(s[i + c], s[i + c + 1])),
    ensures
        run_extra(s, i) == c,
    decreases c,
{
    if c == 0 {
    } else {
        assert(same_kind(s[i + 0], s[(i + 0) + 1]));
        assert forall|m: int| 0 <= m < c - 1 implies same_kind(
            s[(i + 1) + m],
            s[#[trigger] ((i + 1) + m) + 1],
        ) by {
            assert(same_kind(s[i + (m + 1)], s[(i + (m + 1)) + 1]));
        }
        lemma_run_extra_is(s, i + 1, c - 1);
    }
}

/// The coalesced first instruction of a run: `extra` more
/// instructions folded onto its multiplicity (value counts add
/// modulo 256).
pub open spec fn bump(insn: Instruction, extra: nat) -> Instruction {
    match insn {
        Instruction::IncrementPointer(n) => Instruction::IncrementPointer((n + extra) as usize),
        Instruction::DecrementPointer(n) => Instruction::DecrementPointer((n + extra) as usize),
        Instruction::IncrementValue(n) => Instruction::IncrementValue((((n + extra) % 256) as u8)),
        Instruction::DecrementValue(n) => Instruction::DecrementValue((((n + extra) % 256) as u8)),
        _ => insn,
    }
}

/// One instruction after the removal of `removed` instructions
/// starting right after `index`: stored targets past `index` are
/// pulled back, a loop-end only when it sits past `index` itself.
pub open spec fn shift_insn(insn: Instruction, pos: int, index: int, removed: int) -> Instruction {
    match insn {
        Instruction::LoopStart(t) => if index < t {
            Instruction::LoopStart((t - removed) as usize)
        } else {
            insn
        },
        Instruction::LoopEnd(t) => if index < t && index < pos {
            Instruction::LoopEnd((t - removed) as usize)
        } else {
            insn
        },
        _ => insn,
    }
}

pub open spec fn shift_targets(s: Seq<Instruction>, index: int, removed: int) -> Seq<Instruction> {
    Seq::new(s.len(), |pos: int| shift_insn(s[pos], pos, index, removed))
}

/// The sequence with the `removed` positions right after `index`
/// taken out.
pub open spec fn remove_span(s: Seq<Instruction>, index: int, removed: int) -> Seq<Instruction> {
    Seq::new(
        (s.len() - removed) as nat,
        |pos: int|
            if pos <= index {
                s[pos]
            } else {
                s[pos + removed]
            },
    )
}

/// Run-length coalescing at `index`: the run's extra instructions are
/// folded onto the first one and removed, and later targets shift.
pub open spec fn spec_merge(s: Seq<Instruction>, index: int) -> Seq<Instruction> {
    let extra = run_extra(s, index);
    shift_targets(
        remove_span(s.update(index, bump(s[index], extra)), index, extra as int),
        index,
        extra as int,
    )
}

/// A clear-cell loop at `index`: a loop-start whose end is two ahead
/// and whose sole body instruction is a unit increment or decrement.
pub open spec fn clear_loop_at(s: Seq<Instruction>, index: int) -> bool {
    match s[index] {
        Instruction::LoopStart(t) => t == index + 2 && index + 2 < s.len() && (s[index + 1]
            == Instruction::IncrementValue(1) || s[index + 1] == Instruction::DecrementValue(1)),
        _ => false,
    }
}

/// Clear-cell folding at `index`: the three-instruction span becomes
/// a single reset, and later targets shift by two.
pub open spec fn spec_reset(s: Seq<Instruction>, index: int) -> Seq<Instruction> {
    if clear_loop_at(s, index) {
        shift_targets(remove_span(s.update(index, Instruction::ResetValue), index, 2), index, 2)
    } else {
        s
    }
}

/// The scan's action at one position.
pub open spec fn opt_step(s: Seq<Instruction>, index: int) -> Seq<Instruction> {
    if mergeable(s[index]) {
        spec_merge(s, index)
    } else if s[index] is LoopStart {
        spec_reset(s, index)
    } else {
        s
    }
}

pub proof fn lemma_opt_step_len(s: Seq<Instruction>, index: int)
    requires
        0 <= index < s.len(),
    ensures
        index < opt_step(s, index).len() <= s.len(),
{
    if mergeable(s[index]) {
        lemma_run_extra_bound(s, index);
    }
}

/// The scan from `index` on.
pub open spec fn opt_from(s: Seq<Instruction>, index: int) -> Seq<Instruction>
    decreases s.len() - index,
    when index >= 0
    via opt_from_decreases
{
    if index >= s.len() {
        s
    } else {
        opt_from(opt_step(s, index), index + 1)
    }
}

#[via_fn]
proof fn opt_from_decreases(s: Seq<Instruction>, index: int) {
    if index < s.len() {
        lemma_opt_step_len(s, index);
    }
}

/// What the whole scan makes of a program.
pub open spec fn spec_optimize(s: Seq<Instruction>) -> Seq<Instruction> {
    opt_from(s, 0)
}

fn is_same_instruction(instruction1: &Instruction, instruction2: &Instruction) -> (r: bool)
    ensures
        r == same_kind(*instruction1, *instruction2),
{
    match (*instruction1, *instruction2) {
        (Instruction::IncrementPointer(_), Instruction::IncrementPointer(_)) => true,
        (Instruction::DecrementPointer(_), Instruction::DecrementPointer(_)) => true,
        (Instruction::IncrementValue(_), Instruction::IncrementValue(_)) => true,
        (Instruction::DecrementValue(_), Instruction::DecrementValue(_)) => true,
        (Instruction::Output, Instruction::Output) => true,
        (Instruction::Input, Instruction::Input) => true,
        (Instruction::LoopStart(_), Instruction::LoopStart(_)) => true,
        (Instruction::LoopEnd(_), Instruction::LoopEnd(_)) => true,
        (Instruction::ResetValue, Instruction::ResetValue) => true,
        _ => false,
    }
}

/// Pulls back every stored target past `index` by `removed_count`
/// (for a loop-end, only when the instruction itself sits past
/// `index`), after that many instructions were removed there.
fn advance_loops(instructions: &mut Vec<Instruction>, index: usize, removed_count: usize)
    requires
        forall|k: int|
            0 <= k < old(instructions)@.len() ==> match #[trigger] old(instructions)@[k] {
                Instruction::LoopStart(t) => index < t ==> removed_count <= t,
                Instruction::LoopEnd(t) => (index < t && index < k) ==> removed_count <= t,
                _ => true,
            },
    ensures
        final(instructions)@ == shift_targets(old(instructions)@, index as int, removed_count as int),
{
    let ghost orig = instructions@;
    let n = instructions.len();
    let mut k: usize = 0;
    while k < n
        invariant
            n == instructions@.len(),
            orig.len() == n,
            k <= n,
            forall|j: int|
                0 <= j < k ==> instructions@[j] == shift_insn(
                    orig[j],
                    j,
                    index as int,
                    removed_count as int,
                ),
            forall|j: int| k <= j < n ==> instructions@[j] == orig[j],
            forall|j: int|
                0 <= j < n ==> match #[trigger] orig[j] {
                    Instruction::LoopStart(t) => index < t ==> removed_count <= t,
                    Instruction::LoopEnd(t) => (index < t && index < j) ==> removed_count <= t,
                    _ => true,
                },
        decreases n - k,
    {
        let insn = instructions[k];
        match insn {
            Instruction::LoopStart(t) => {
                if index < t {
                    instructions[k] = Instruction::LoopStart(t - removed_count);
                }
            },
            Instruction::LoopEnd(t) => {
                if index < t && index < k {
                    instructions[k] = Instruction::LoopEnd(t - removed_count);
                }
            },
            _ => {},
        }
        k = k + 1;
    }
    proof {
        assert(instructions@ =~= shift_targets(orig, index as int, removed_count as int));
    }
}

/// Coalesces the run of same-kind instructions starting at `index`
/// into its first instruction, removes the rest of the run, and
/// shifts later targets.
#[verifier::rlimit(60)]
fn merge_instructions(instructions: &mut Vec<Instruction>, index: usize)
    requires
        index < old(instructions)@.len(),
        mergeable(old(instructions)@[index as int]),
        loops_resolved(old(instructions)@),
        counts_ok(old(instructions)@),
    ensures
        final(instructions)@ == spec_merge(old(instructions)@, index as int),
{
    let ghost orig = instructions@;
    let n = instructions.len();
    let mut count: usize = 0;
    while count < n - index - 1 && is_same_instruction(
        &instructions[index + count],
        &instructions[index + count + 1],
    )
        invariant
            instructions@ == orig,
            n == orig.len(),
            index < n,
            count <= n - index - 1,
            forall|m: int| 0 <= m < count ==> same_kind(orig[index + m], orig[#[trigger] (index + m) + 1]),
        decreases n - index - count,
    {
        count = count + 1;
    }
    proof {
        lemma_run_extra_is(orig, index as int, count as int);
        lemma_run_extra_bound(orig, index as int);
    }
    let insn = instructions[index];
    match insn {
        Instruction::IncrementValue(v) => {
            let add: u16 = (count % 256) as u16;
            let merged: u8 = ((v as u16 + add) % 256) as u8;
            proof {
                vstd::arithmetic::div_mod::lemma_add_mod_noop(v as int, count as int, 256);
            }
            instructions[index] = Instruction::IncrementValue(merged);
        },
        Instruction::DecrementValue(v) => {
            let add: u16 = (count % 256) as u16;
            let merged: u8 = ((v as u16 + add) % 256) as u8;
            proof {
                vstd::arithmetic::div_mod::lemma_add_mod_noop(v as int, count as int, 256);
            }
            instructions[index] = Instruction::DecrementValue(merged);
        },
        Instruction::IncrementPointer(v) => {
            instructions[index] = Instruction::IncrementPointer(v + count);
        },
        Instruction::DecrementPointer(v) => {
            instructions[index] = Instruction::DecrementPointer(v + count);
        },
        _ => {},
    }
    let ghost mid = instructions@;
    proof {
        assert(mid == orig.update(index as int, bump(orig[index as int], count as nat)));
    }
    let new_len = n - count;
    let mut k: usize = index + 1;
    while k < new_len
        invariant
            instructions@.len() == n,
            n == orig.len(),
            mid.len() == n,
            index < n,
            count <= n - index - 1,
            new_len == n - count,
            index + 1 <= k <= new_len,
            forall|j: int| 0 <= j <= index ==> instructions@[j] == mid[j],
            forall|j: int| index < j < k ==> instructions@[j] == mid[j + count],
            forall|j: int| k <= j < n ==> instructions@[j] == mid[j],
        decreases new_len - k,
    {
        let moved = instructions[k + count];
        instructions[k] = moved;
        k = k + 1;
    }
    instructions.truncate(new_len);
    proof {
        assert(instructions@ =~= remove_span(mid, index as int, count as int));
    }
    // every target that points past `index` clears the removed run,
    // because the run holds no loop instruction
    proof {
        let cur = instructions@;
        assert forall|k2: int| 0 <= k2 < cur.len() implies match #[trigger] cur[k2] {
            Instruction::LoopStart(t) => index < t ==> count <= t,
            Instruction::LoopEnd(t) => (index < t && index < k2) ==> count <= t,
            _ => true,
        } by {
            let q: int = if k2 <= index {
                k2
            } else {
                k2 + count
            };
            if k2 != index {
                assert(cur[k2] == orig[q]);
                assert(resolved_at(orig, q));
                match orig[q] {
                    Instruction::LoopStart(t) => {
                        if index < t {
                            assert(orig[t as int] == Instruction::LoopEnd(q as usize));
                            if t <= index + count {
                                lemma_run_same_kind(orig, index as int, t - index);
                                assert(false);
                            }
                        }
                    },
                    Instruction::LoopEnd(t) => {
                        if index < t {
                            assert(orig[t as int] == Instruction::LoopStart(q as usize));
                            if t <= index + count {
                                lemma_run_same_kind(orig, index as int, t - index);
                                assert(false);
                            }
                        }
                    },
                    _ => {},
                }
            }
        }
    }
    advance_loops(instructions, index, count);
    proof {
        assert(run_extra(orig, index as int) == count);
        assert(instructions@ == spec_merge(orig, index as int));
    }
}

/// Replaces the clear-cell loop at `index` — a loop whose end sits
/// two ahead and whose body is a single unit increment or decrement —
/// with one reset instruction, and shifts later targets; otherwise
/// leaves the program alone.
fn reset_value(instructions: &mut Vec<Instruction>, index: usize, value: usize)
    requires
        index < old(instructions)@.len(),
        old(instructions)@[index as int] == Instruction::LoopStart(value),
        loops_resolved(old(instructions)@),
    ensures
        final(instructions)@ == spec_reset(old(instructions)@, index as int),
{
    let ghost orig = instructions@;
    let n0 = instructions.len();
    proof {
        assert(resolved_at(orig, index as int));
        assert(index < value < n0);
    }
    if index + 2 != value {
        return;
    }
    // by mutual resolution the matching loop-end sits at `value`,
    // so the body position is inside the program
    let body = instructions[index + 1];
    match body {
        Instruction::IncrementValue(v) | Instruction::DecrementValue(v) => {
            if v == 1 {
                instructions[index] = Instruction::ResetValue;
                let ghost mid = instructions@;
                let n = instructions.len();
                let new_len = n - 2;
                let mut k: usize = index + 1;
                while k < new_len
                    invariant
                        instructions@.len() == n,
                        n == mid.len(),
                        index + 2 < n,
                        new_len == n - 2,
                        index + 1 <= k <= new_len,
                        forall|j: int| 0 <= j <= index ==> instructions@[j] == mid[j],
                        forall|j: int| index < j < k ==> instructions@[j] == mid[j + 2],
                        forall|j: int| k <= j < n ==> instructions@[j] == mid[j],
                    decreases new_len - k,
                {
                    let moved = instructions[k + 2];
                    instructions[k] = moved;
                    k = k + 1;
                }
                instructions.truncate(new_len);
                proof {
                    assert(instructions@ =~= remove_span(mid, index as int, 2));
                }
                // no remaining target points into the removed pair
                proof {
                    let cur = instructions@;
                    assert(orig[index as int + 2] == Instruction::LoopEnd(index));
                    assert forall|k2: int| 0 <= k2 < cur.len() implies match #[trigger] cur[k2] {
                        Instruction::LoopStart(t) => index < t ==> 2 <= t,
                        Instruction::LoopEnd(t) => (index < t && index < k2) ==> 2 <= t,
                        _ => true,
                    } by {
                        let q: int = if k2 <= index {
                            k2
                        } else {
                            k2 + 2
                        };
                        if k2 != index {
                            assert(cur[k2] == orig[q]);
                            assert(resolved_at(orig, q));
                            match orig[q] {
                                Instruction::LoopStart(t) => {
                                    if index < t && t < index + 3 {
                                        assert(orig[t as int] == Instruction::LoopEnd(
                                            q as usize,
                                        ));
                                        assert(false);
                                    }
                                },
                                Instruction::LoopEnd(t) => {
                                    if index < t && t < index + 3 {
                                        assert(orig[t as int] == Instruction::LoopStart(
                                            q as usize,
                                        ));
                                        assert(false);
                                    }
                                },
                                _ => {},
                            }
                        }
                    }
                }
                advance_loops(instructions, index, 2);
                proof {
                    assert(clear_loop_at(orig, index as int));
                    assert(instructions@ == spec_reset(orig, index as int));
                }
            }
        },
        _ => {},
    }
}

/// Replacing a non-loop instruction by a non-loop instruction
/// touches no loop pair.
proof fn lemma_update_nonloop_wf(s: Seq<Instruction>, index: int, x: Instruction)
    requires
        loops_resolved(s),
        loops_nested(s),
        0 <= index < s.len(),
        !(s[index] is LoopStart),
        !(s[index] is LoopEnd),
        !(x is LoopStart),
        !(x is LoopEnd),
    ensures
        loops_resolved(s.update(index, x)),
        loops_nested(s.update(index, x)),
{
    let s2 = s.update(index, x);
    assert forall|j: int| 0 <= j < s2.len() implies #[trigger] resolved_at(s2, j) by {
        if j != index {
            assert(resolved_at(s, j));
            match s[j] {
                Instruction::LoopStart(t) => {
                    assert(t != index);
                },
                Instruction::LoopEnd(t) => {
                    assert(t != index);
                },
                _ => {},
            }
        }
    }
    assert forall|i1: int, i2: int|
        0 <= i1 < i2 < s2.len() && (#[trigger] s2[i1]) is LoopStart && (
        #[trigger] s2[i2]) is LoopStart && i2 < s2[i1]->LoopStart_0 implies s2[i2]->LoopStart_0
        < s2[i1]->LoopStart_0 by {
        assert(s[i1] is LoopStart && s[i2] is LoopStart);
    }
}

/// Cutting a span that holds no loop instruction, and pulling the
/// targets past it back by its width, keeps every loop pair mutually
/// resolved and properly nested.
#[verifier::rlimit(80)]
proof fn lemma_cut_wf(u: Seq<Instruction>, index: int, c: int)
    requires
        loops_resolved(u),
        loops_nested(u),
        0 <= index,
        0 <= c,
        index + c < u.len(),
        u.len() <= usize::MAX,
        forall|m: int|
            index <= m <= index + c ==> !((#[trigger] u[m]) is LoopStart) && !(u[m] is LoopEnd),
    ensures
        loops_resolved(shift_targets(remove_span(u, index, c), index, c)),
        loops_nested(shift_targets(remove_span(u, index, c), index, c)),
{
    let out = shift_targets(remove_span(u, index, c), index, c);
    let n = u.len() as int;
    assert(out.len() == n - c);
    assert forall|p: int| 0 <= p < out.len() implies #[trigger] resolved_at(out, p) by {
        let q: int = if p <= index {
            p
        } else {
            p + c
        };
        assert(resolved_at(u, q));
        match u[q] {
            Instruction::LoopStart(t) => {
                let b = t as int;
                assert(q < b < n && u[b] == Instruction::LoopEnd(q as usize));
                assert(!(index <= q <= index + c));
                assert(!(index <= b <= index + c));
                if b <= index {
                    assert(out[b] == u[b]);
                } else {
                    let b2 = b - c;
                    assert(out[p] == Instruction::LoopStart(b2 as usize));
                    if q < index {
                        assert(out[b2] == u[b]);
                    } else {
                        assert(out[b2] == Instruction::LoopEnd((q - c) as usize));
                    }
                }
            },
            Instruction::LoopEnd(t) => {
                let a = t as int;
                assert(a < q && u[a] == Instruction::LoopStart(q as usize));
                assert(!(index <= q <= index + c));
                assert(!(index <= a <= index + c));
                if q <= index {
                    assert(out[p] == u[q]);
                    assert(out[a] == u[a]);
                } else {
                    if a < index {
                        assert(out[p] == u[q]);
                        assert(out[a] == Instruction::LoopStart((q - c) as usize));
                    } else {
                        assert(out[p] == Instruction::LoopEnd((a - c) as usize));
                        assert(out[a - c] == Instruction::LoopStart((q - c) as usize));
                    }
                }
            },
            _ => {},
        }
    }
    assert forall|p1: int, p2: int|
        0 <= p1 < p2 < out.len() && (#[trigger] out[p1]) is LoopStart && (
        #[trigger] out[p2]) is LoopStart && p2 < out[p1]->LoopStart_0 implies out[p2]->LoopStart_0
        < out[p1]->LoopStart_0 by {
        let q1: int = if p1 <= index {
            p1
        } else {
            p1 + c
        };
        let q2: int = if p2 <= index {
            p2
        } else {
            p2 + c
        };
        assert(u[q1] is LoopStart && u[q2] is LoopStart);
        assert(resolved_at(u, q1));
        assert(resolved_at(u, q2));
        let b1 = u[q1]->LoopStart_0 as int;
        let b2 = u[q2]->LoopStart_0 as int;
        assert(u[b1] == Instruction::LoopEnd(q1 as usize));
        assert(u[b2] == Instruction::LoopEnd(q2 as usize));
        assert(!(index <= b1 <= index + c));
        assert(!(index <= b2 <= index + c));
        // the condition in `out` gives the condition in `u`
        if index < b1 {
            assert(out[p1]->LoopStart_0 == b1 - c);
            assert(q2 <= p2 + c);
        } else {
            assert(out[p1]->LoopStart_0 == b1);
        }
        assert(q2 < b1);
        assert(b2 < b1);
    }
}

/// Run-length coalescing keeps the loop pairs resolved and nested,
/// and keeps the multiplicities small enough for further coalescing.
pub proof fn lemma_merge_wf(s: Seq<Instruction>, index: int)
    requires
        loops_resolved(s),
        loops_nested(s),
        counts_ok(s),
        0 <= index < s.len(),
        mergeable(s[index]),
        s.len() <= usize::MAX,
    ensures
        loops_resolved(spec_merge(s, index)),
        loops_nested(spec_merge(s, index)),
        counts_ok(spec_merge(s, index)),
{
    let extra = run_extra(s, index);
    let c = extra as int;
    let mid = s.update(index, bump(s[index], extra));
    lemma_run_extra_bound(s, index);
    lemma_update_nonloop_wf(s, index, bump(s[index], extra));
    assert forall|m: int|
        index <= m <= index + c implies !((#[trigger] mid[m]) is LoopStart) && !(
        mid[m] is LoopEnd) by {
        if m != index {
            lemma_run_same_kind(s, index, m - index);
        }
    }
    lemma_cut_wf(mid, index, c);
    let out = spec_merge(s, index);
    assert(out == shift_targets(remove_span(mid, index, c), index, c));
    assert forall|k: int| 0 <= k < out.len() implies match #[trigger] out[k] {
        Instruction::IncrementPointer(m) => m + out.len() <= usize::MAX,
        Instruction::DecrementPointer(m) => m + out.len() <= usize::MAX,
        _ => true,
    } by {
        let q: int = if k <= index {
            k
        } else {
            k + c
        };
        assert(out[k] == shift_insn(mid[q], k, index, c));
        if q != index {
            assert(mid[q] == s[q]);
        }
    }
}

/// Clear-cell folding keeps the loop pairs resolved and nested, and
/// does not grow any multiplicity.
#[verifier::rlimit(60)]
pub proof fn lemma_reset_wf(s: Seq<Instruction>, index: int)
    requires
        loops_resolved(s),
        loops_nested(s),
        counts_ok(s),
        0 <= index < s.len(),
        s.len() <= usize::MAX,
    ensures
        loops_resolved(spec_reset(s, index)),
        loops_nested(spec_reset(s, index)),
        counts_ok(spec_reset(s, index)),
{
    if clear_loop_at(s, index) {
        assert(resolved_at(s, index));
        assert(s[index + 2] == Instruction::LoopEnd(index as usize));
        let u2 = s.update(index, Instruction::ResetValue).update(
            index + 1,
            Instruction::ResetValue,
        ).update(index + 2, Instruction::ResetValue);
        // the pair at (index, index + 2) is self-contained: no other
        // pair touches those three positions
        assert forall|j: int| 0 <= j < u2.len() implies #[trigger] resolved_at(u2, j) by {
            if j != index && j != index + 1 && j != index + 2 {
                assert(resolved_at(s, j));
                match s[j] {
                    Instruction::LoopStart(t) => {
                        assert(s[t as int] == Instruction::LoopEnd(j as usize));
                        assert(t != index + 1);
                        assert(t != index + 2);
                        assert(t != index);
                    },
                    Instruction::LoopEnd(t) => {
                        assert(s[t as int] == Instruction::LoopStart(j as usize));
                        assert(t != index + 1);
                        assert(t != index);
                        assert(t != index + 2);
                    },
                    _ => {},
                }
            }
        }
        assert forall|i1: int, i2: int|
            0 <= i1 < i2 < u2.len() && (#[trigger] u2[i1]) is LoopStart && (
            #[trigger] u2[i2]) is LoopStart && i2 < u2[i1]->LoopStart_0 implies
            u2[i2]->LoopStart_0 < u2[i1]->LoopStart_0 by {
            assert(s[i1] is LoopStart && s[i2] is LoopStart);
        }
        lemma_cut_wf(u2, index, 2);
        let out = spec_reset(s, index);
        assert(remove_span(u2, index, 2) =~= remove_span(
            s.update(index, Instruction::ResetValue),
            index,
            2,
        ));
        assert(out == shift_targets(remove_span(u2, index, 2), index, 2));
        assert forall|k: int| 0 <= k < out.len() implies match #[trigger] out[k] {
            Instruction::IncrementPointer(m) => m + out.len() <= usize::MAX,
            Instruction::DecrementPointer(m) => m + out.len() <= usize::MAX,
            _ => true,
        } by {
            let q: int = if k <= index {
                k
            } else {
                k + 2
            };
            assert(out[k] == shift_insn(u2[q], k, index, 2));
            if q != index {
                assert(u2[q] == s[q]);
            }
        }
    }
}

/// Rewrites a program in place: coalesces runs of same-kind pointer
/// and value instructions and folds clear-cell loops, renumbering the
/// stored loop targets so that the mutual-resolution and nesting
/// invariants still hold.  The optimizer never rejects a program: it
/// asks only for what the parser guarantees — resolved, nested loop
/// pairs — and for multiplicities small enough that coalescing
/// cannot overflow, which holds of any program that fits in memory.
pub fn optimize(instructions: &mut Vec<Instruction>)
    requires
        loops_resolved(old(instructions)@),
        loops_nested(old(instructions)@),
        counts_ok(old(instructions)@),
    ensures
        final(instructions)@ == spec_optimize(old(instructions)@),
        loops_resolved(final(instructions)@),
        loops_nested(final(instructions)@),
        counts_ok(final(instructions)@),
{
    let ghost orig = instructions@;
    let mut index: usize = 0;
    while index < instructions.len()
        invariant
            index <= instructions@.len(),
            opt_from(instructions@, index as int) == spec_optimize(orig),
            loops_resolved(instructions@),
            loops_nested(instructions@),
            counts_ok(instructions@),
        decreases instructions@.len() - index,
    {
        let ghost pre = instructions@;
        let insn = instructions[index];
        match insn {
            Instruction::IncrementValue(_)
            | Instruction::DecrementValue(_)
            | Instruction::IncrementPointer(_)
            | Instruction::DecrementPointer(_) => {
                merge_instructions(instructions, index);
                proof {
                    lemma_merge_wf(pre, index as int);
                    lemma_run_extra_bound(pre, index as int);
                    assert(instructions@ == opt_step(pre, index as int));
                }
            },
            Instruction::LoopStart(value) => {
                reset_value(instructions, index, value);
                proof {
                    lemma_reset_wf(pre, index as int);
                    assert(instructions@ == opt_step(pre, index as int));
                }
            },
            _ => {
                proof {
                    assert(instructions@ == opt_step(pre, index as int));
                }
            },
        }
        index = index + 1;
    }
}

} // verus!
