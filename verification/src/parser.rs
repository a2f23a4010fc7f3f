//! Turning source text into an instruction sequence.
//!
//! Every character outside the eight significant ones is a comment:
//! it produces no instruction, and only advances the position counters
//! used for error reporting.  Loop brackets are resolved with a LIFO
//! stack of pending opens, so that in the returned sequence every
//! loop-start stores the index of its loop-end and vice versa.

use vstd::prelude::*;

verus! {

/// A parse failure.  Each variant carries the 1-based line and
/// character position of the offending bracket.
#[derive(Clone, Copy, Debug, PartialEq, Eq, Structural)]
pub enum Error {
    /// A loop was opened but never closed; reports the earliest
    /// still-pending open.
    NoLoopEnd(usize, usize),
    /// A loop was closed while no open loop was pending.
    NoLoopStart(usize, usize),
}

/// One instruction of the tape machine.  The counts on the pointer and
/// value instructions are multiplicities: the parser always emits 1,
/// and the optimizer coalesces runs.  Loop-start and loop-end store
/// the absolute index of their partner in the same sequence.
#[derive(Clone, Copy, Debug, PartialEq, Eq, Structural)]
pub enum Instruction {
    IncrementPointer(usize),
    DecrementPointer(usize),
    IncrementValue(u8),
    DecrementValue(u8),
    Output,
    Input,
    LoopStart(usize),
    LoopEnd(usize),
    ResetValue,
}

/// The instruction (with multiplicity 1) denoted by a source
/// character, or `None` for a comment character.
pub open spec fn spec_from_char(c: char) -> Option<Instruction> {
    if c == '>' {
        Some(Instruction::IncrementPointer(1))
    } else if c == '<' {
        Some(Instruction::DecrementPointer(1))
    } else if c == '+' {
        Some(Instruction::IncrementValue(1))
    } else if c == '-' {
        Some(Instruction::DecrementValue(1))
    } else if c == '.' {
        Some(Instruction::Output)
    } else if c == ',' {
        Some(Instruction::Input)
    } else if c == '[' {
        Some(Instruction::LoopStart(0))
    } else if c == ']' {
        Some(Instruction::LoopEnd(0))
    } else {
        None
    }
}

/// Whether two instructions have the same tag, regardless of their
/// counts or stored indices.
pub open spec fn same_kind(a: Instruction, b: Instruction) -> bool {
    match a {
        Instruction::IncrementPointer(_) => b is IncrementPointer,
        Instruction::DecrementPointer(_) => b is DecrementPointer,
        Instruction::IncrementValue(_) => b is IncrementValue,
        Instruction::DecrementValue(_) => b is DecrementValue,
        Instruction::Output => b is Output,
        Instruction::Input => b is Input,
        Instruction::LoopStart(_) => b is LoopStart,
        Instruction::LoopEnd(_) => b is LoopEnd,
        Instruction::ResetValue => b is ResetValue,
    }
}

/// Position `i` is consistent with the mutual-resolution invariant:
/// a loop-start stores the index of a later loop-end that stores `i`
/// back, and a loop-end stores the index of an earlier loop-start that
/// stores `i` back.  Other instructions carry no index.
pub open spec fn resolved_at(prog: Seq<Instruction>, i: int) -> bool {
    match prog[i] {
        Instruction::LoopStart(j) => i < j < prog.len() && prog[j as int] == Instruction::LoopEnd(
            i as usize,
        ),
        Instruction::LoopEnd(j) => j < i && prog[j as int] == Instruction::LoopStart(i as usize),
        _ => true,
    }
}

/// Every loop-start and loop-end in the sequence is mutually resolved.
pub open spec fn loops_resolved(prog: Seq<Instruction>) -> bool {
    forall|i: int| 0 <= i < prog.len() ==> #[trigger] resolved_at(prog, i)
}

/// Resolved loop pairs are properly nested: a loop opened inside
/// another closes before the outer one does.
pub open spec fn loops_nested(prog: Seq<Instruction>) -> bool {
    forall|i1: int, i2: int|
        0 <= i1 < i2 < prog.len() && (#[trigger] prog[i1]) is LoopStart && (
        #[trigger] prog[i2]) is LoopStart && i2 < prog[i1]->LoopStart_0 ==> prog[i2]->LoopStart_0
            < prog[i1]->LoopStart_0
}

/// Every pointer and value instruction carries multiplicity 1, as the
/// parser emits them.
pub open spec fn unit_counts(prog: Seq<Instruction>) -> bool {
    forall|i: int| 0 <= i < prog.len() ==> match #[trigger] prog[i] {
        Instruction::IncrementPointer(n) => n == 1,
        Instruction::DecrementPointer(n) => n == 1,
        Instruction::IncrementValue(n) => n == 1,
        Instruction::DecrementValue(n) => n == 1,
        _ => true,
    }
}

/// The subsequence of significant (non-comment) characters of `s`.
pub open spec fn significant_chars(s: Seq<char>) -> Seq<char>
    decreases s.len(),
{
    if s.len() == 0 {
        Seq::empty()
    } else {
        let rest = significant_chars(s.drop_last());
        if spec_from_char(s.last()) is Some {
            rest.push(s.last())
        } else {
            rest
        }
    }
}

pub proof fn lemma_significant_chars_len(s: Seq<char>)
    ensures
        significant_chars(s).len() <= s.len(),
    decreases s.len(),
{
    if s.len() > 0 {
        lemma_significant_chars_len(s.drop_last());
    }
}

impl Instruction {
    /// The instruction denoted by one source character, or `None` for
    /// a comment character.
    pub fn from_char(c: char) -> (r: Option<Instruction>)
        ensures
            r == spec_from_char(c),
    {
        match c {
            '>' => Some(Instruction::IncrementPointer(1)),
            '<' => Some(Instruction::DecrementPointer(1)),
            '+' => Some(Instruction::IncrementValue(1)),
            '-' => Some(Instruction::DecrementValue(1)),
            '.' => Some(Instruction::Output),
            ',' => Some(Instruction::Input),
            '[' => Some(Instruction::LoopStart(0)),
            ']' => Some(Instruction::LoopEnd(0)),
            _ => None,
        }
    }
}

/// A pending open loop: the index its loop-start occupies in the
/// instruction sequence, and the 1-based source position of its `[`.
#[derive(Clone, Copy, Debug, PartialEq, Eq, Structural)]
pub struct LoopStartIndex {
    pub index: usize,
    pub line_index: usize,
    pub char_index: usize,
}

/// The state of the scan: instructions emitted so far, the stack of
/// pending opens, and the 1-based line and column of the last
/// character read (column 0 right after a line break).
pub ghost struct ParseState {
    pub insns: Seq<Instruction>,
    pub stack: Seq<LoopStartIndex>,
    pub line: nat,
    pub col: nat,
}

pub open spec fn initial_parse_state() -> ParseState {
    ParseState { insns: Seq::empty(), stack: Seq::empty(), line: 1nat, col: 0nat }
}

pub open spec fn parse_state_of(
    insns: Seq<Instruction>,
    stack: Seq<LoopStartIndex>,
    line: nat,
    col: nat,
) -> ParseState {
    ParseState { insns, stack, line, col }
}

/// One step of the scan: reading character `c` in state `st`.
pub open spec fn parse_char(st: ParseState, c: char) -> Result<ParseState, Error> {
    let line = if c == '\n' {
        (st.line + 1) as nat
    } else {
        st.line
    };
    let col = if c == '\n' {
        0nat
    } else {
        (st.col + 1) as nat
    };
    match spec_from_char(c) {
        None => Ok(ParseState { line, col, ..st }),
        Some(insn) => match insn {
            Instruction::LoopStart(_) => Ok(
                ParseState {
                    insns: st.insns.push(Instruction::LoopStart(0)),
                    stack: st.stack.push(
                        LoopStartIndex {
                            index: st.insns.len() as usize,
                            line_index: line as usize,
                            char_index: col as usize,
                        },
                    ),
                    line,
                    col,
                },
            ),
            Instruction::LoopEnd(_) => {
                if st.stack.len() == 0 {
                    Err(Error::NoLoopStart(line as usize, col as usize))
                } else {
                    let last = st.stack.last();
                    Ok(
                        ParseState {
                            insns: st.insns.update(
                                last.index as int,
                                Instruction::LoopStart(st.insns.len() as usize),
                            ).push(Instruction::LoopEnd(last.index)),
                            stack: st.stack.drop_last(),
                            line,
                            col,
                        },
                    )
                }
            },
            _ => Ok(ParseState { insns: st.insns.push(insn), line, col, ..st }),
        },
    }
}

/// The scan folded over a character sequence, from state `st`.
pub open spec fn parse_from(st: ParseState, s: Seq<char>) -> Result<ParseState, Error>
    decreases s.len(),
{
    if s.len() == 0 {
        Ok(st)
    } else {
        match parse_char(st, s[0]) {
            Ok(st2) => parse_from(st2, s.drop_first()),
            Err(e) => Err(e),
        }
    }
}

/// What parsing a complete source text yields: the instruction
/// sequence, or the error of the first unmatched close, or the error
/// of the earliest still-pending open.
pub open spec fn spec_parse(s: Seq<char>) -> Result<Seq<Instruction>, Error> {
    match parse_from(initial_parse_state(), s) {
        Ok(st) => if st.stack.len() > 0 {
            Err(Error::NoLoopEnd(st.stack[0].line_index, st.stack[0].char_index))
        } else {
            Ok(st.insns)
        },
        Err(e) => Err(e),
    }
}

pub proof fn lemma_parse_from_concat(st: ParseState, a: Seq<char>, b: Seq<char>)
    ensures
        parse_from(st, a + b) == (match parse_from(st, a) {
            Ok(m) => parse_from(m, b),
            Err(e) => Err::<ParseState, Error>(e),
        }),
    decreases a.len(),
{
    if a.len() == 0 {
        assert(a + b =~= b);
    } else {
        assert((a + b)[0] == a[0]);
        assert((a + b).drop_first() =~= a.drop_first() + b);
        match parse_char(st, a[0]) {
            Ok(st2) => lemma_parse_from_concat(st2, a.drop_first(), b),
            Err(_) => {},
        }
    }
}

/// Whether some pending open on the stack occupies index `i`.
pub open spec fn stack_open(stack: Seq<LoopStartIndex>, i: int) -> bool {
    exists|k: int| 0 <= k < stack.len() && (#[trigger] stack[k]).index == i
}

/// Mutual resolution of position `j`, relative to a stack of pending
/// opens: a loop-start is either still pending or resolved, a
/// loop-end is resolved against a start that is no longer pending.
pub open spec fn parse_resolved_at(
    insns: Seq<Instruction>,
    stack: Seq<LoopStartIndex>,
    j: int,
) -> bool {
    match insns[j] {
        Instruction::LoopStart(t) => stack_open(stack, j) || (j < t < insns.len() && insns[
            t as int
        ] == Instruction::LoopEnd(j as usize)),
        Instruction::LoopEnd(t) => t < j && insns[t as int] == Instruction::LoopStart(j as usize)
            && !stack_open(stack, t as int),
        _ => true,
    }
}

/// The invariant the scan maintains between characters: stack entries
/// point at loop-starts in strictly increasing order, every position
/// is resolved or pending, and no resolved pair straddles a pending
/// open.
pub open spec fn parse_invariant(insns: Seq<Instruction>, stack: Seq<LoopStartIndex>) -> bool {
    &&& forall|k: int|
        0 <= k < stack.len() ==> (#[trigger] stack[k]).index < insns.len() && insns[stack[
            k
        ].index as int] == Instruction::LoopStart(0)
    &&& forall|k1: int, k2: int|
        0 <= k1 < k2 < stack.len() ==> (#[trigger] stack[k1]).index < (#[trigger] stack[k2]).index
    &&& forall|j: int| 0 <= j < insns.len() ==> #[trigger] parse_resolved_at(insns, stack, j)
    &&& forall|j: int, k: int|
        0 <= j < insns.len() && 0 <= k < stack.len() && (#[trigger] insns[j]) is LoopStart
            && !stack_open(stack, j) ==> (#[trigger] stack[k]).index < j
            || insns[j]->LoopStart_0 < stack[k].index
}

proof fn lemma_emit_step(insns1: Seq<Instruction>, stack1: Seq<LoopStartIndex>, insn: Instruction)
    requires
        parse_invariant(insns1, stack1),
        loops_nested(insns1),
        !(insn is LoopStart),
        !(insn is LoopEnd),
    ensures
        parse_invariant(insns1.push(insn), stack1),
        loops_nested(insns1.push(insn)),
{
    let insns2 = insns1.push(insn);
    assert forall|j: int| 0 <= j < insns2.len() implies #[trigger] parse_resolved_at(
        insns2,
        stack1,
        j,
    ) by {
        if j < insns1.len() {
            assert(parse_resolved_at(insns1, stack1, j));
        }
    }
    assert forall|j: int, k: int|
        0 <= j < insns2.len() && 0 <= k < stack1.len() && (#[trigger] insns2[j]) is LoopStart && !stack_open(
            stack1,
            j,
        ) implies (#[trigger] stack1[k]).index < j || insns2[j]->LoopStart_0 < stack1[k].index by {
        assert(j < insns1.len());
        assert(insns1[j] is LoopStart);
    }
}

proof fn lemma_open_step(insns1: Seq<Instruction>, stack1: Seq<LoopStartIndex>, entry: LoopStartIndex)
    requires
        parse_invariant(insns1, stack1),
        loops_nested(insns1),
        entry.index == insns1.len(),
    ensures
        parse_invariant(insns1.push(Instruction::LoopStart(0)), stack1.push(entry)),
        loops_nested(insns1.push(Instruction::LoopStart(0))),
{
    let insns2 = insns1.push(Instruction::LoopStart(0));
    let stack2 = stack1.push(entry);
    let ll = insns1.len() as int;
    assert(stack_open(stack2, ll)) by {
        assert(stack2[stack2.len() - 1].index == ll);
    }
    assert forall|j: int| 0 <= j < insns2.len() implies #[trigger] parse_resolved_at(
        insns2,
        stack2,
        j,
    ) by {
        if j < insns1.len() {
            assert(parse_resolved_at(insns1, stack1, j));
            match insns1[j] {
                Instruction::LoopStart(t) => {
                    if stack_open(stack1, j) {
                        let k = choose|k: int|
                            0 <= k < stack1.len() && (#[trigger] stack1[k]).index == j;
                        assert(stack2[k].index == j);
                    }
                },
                Instruction::LoopEnd(t) => {
                    assert(!stack_open(stack1, t as int));
                    assert(t < ll);
                    if stack_open(stack2, t as int) {
                        let k = choose|k: int|
                            0 <= k < stack2.len() && (#[trigger] stack2[k]).index == t as int;
                        assert(k < stack1.len());
                        assert(stack1[k].index == t as int);
                    }
                },
                _ => {},
            }
        }
    }
    assert forall|j: int, k: int|
        0 <= j < insns2.len() && 0 <= k < stack2.len() && (#[trigger] insns2[j]) is LoopStart && !stack_open(
            stack2,
            j,
        ) implies (#[trigger] stack2[k]).index < j || insns2[j]->LoopStart_0 < stack2[k].index by {
        if j < insns1.len() {
            assert(insns1[j] is LoopStart);
            assert(!stack_open(stack1, j)) by {
                if stack_open(stack1, j) {
                    let k0 = choose|k0: int|
                        0 <= k0 < stack1.len() && (#[trigger] stack1[k0]).index == j;
                    assert(stack2[k0].index == j);
                }
            }
            if k < stack1.len() {
                assert(stack1[k].index < j || insns1[j]->LoopStart_0 < stack1[k].index);
            } else {
                // the new entry sits above every resolved pair
                assert(parse_resolved_at(insns1, stack1, j));
                assert(insns2[j]->LoopStart_0 < ll);
            }
        }
    }
    assert forall|i1: int, i2: int|
        0 <= i1 < i2 < insns2.len() && (#[trigger] insns2[i1]) is LoopStart && (
        #[trigger] insns2[i2]) is LoopStart && i2 < insns2[i1]->LoopStart_0 implies
        insns2[i2]->LoopStart_0 < insns2[i1]->LoopStart_0 by {
        if i1 < insns1.len() && i2 < insns1.len() {
            assert(insns1[i1] is LoopStart && insns1[i2] is LoopStart);
        } else {
            assert(i2 == ll);
            assert(insns2[i2]->LoopStart_0 == 0);
        }
    }
}

proof fn lemma_close_step(insns1: Seq<Instruction>, stack1: Seq<LoopStartIndex>)
    requires
        parse_invariant(insns1, stack1),
        loops_nested(insns1),
        stack1.len() > 0,
        insns1.len() < usize::MAX,
    ensures
        parse_invariant(
            insns1.update(
                stack1.last().index as int,
                Instruction::LoopStart(insns1.len() as usize),
            ).push(Instruction::LoopEnd(stack1.last().index)),
            stack1.drop_last(),
        ),
        loops_nested(
            insns1.update(
                stack1.last().index as int,
                Instruction::LoopStart(insns1.len() as usize),
            ).push(Instruction::LoopEnd(stack1.last().index)),
        ),
        stack1.last().index < insns1.len(),
{
    let p = stack1.last().index as int;
    let e = insns1.len() as int;
    let insns2 = insns1.update(p, Instruction::LoopStart(insns1.len() as usize)).push(
        Instruction::LoopEnd(stack1.last().index),
    );
    let stack2 = stack1.drop_last();
    assert(stack1[stack1.len() - 1].index < insns1.len() && insns1[p] == Instruction::LoopStart(0));
    // the popped entry carries the largest pending index
    assert forall|k: int| 0 <= k < stack2.len() implies (#[trigger] stack2[k]).index < p by {
        assert(stack1[k].index < stack1[stack1.len() - 1].index);
    }
    assert forall|j: int| 0 <= j < insns2.len() implies #[trigger] parse_resolved_at(
        insns2,
        stack2,
        j,
    ) by {
        if j == p {
            assert(insns2[e] == Instruction::LoopEnd(stack1.last().index));
        } else if j == e {
            assert(insns2[p] == Instruction::LoopStart(insns1.len() as usize));
            assert(!stack_open(stack2, p)) by {
                if stack_open(stack2, p) {
                    let k = choose|k: int|
                        0 <= k < stack2.len() && (#[trigger] stack2[k]).index == p;
                }
            }
        } else {
            assert(parse_resolved_at(insns1, stack1, j));
            match insns1[j] {
                Instruction::LoopStart(t) => {
                    if stack_open(stack1, j) {
                        let k = choose|k: int|
                            0 <= k < stack1.len() && (#[trigger] stack1[k]).index == j;
                        assert(k < stack1.len() - 1);
                        assert(stack2[k].index == j);
                        assert(stack_open(stack2, j));
                    } else {
                        // resolved: its end is not at p (p holds a start)
                        assert(insns1[t as int] == Instruction::LoopEnd(j as usize));
                        assert(t != p);
                    }
                },
                Instruction::LoopEnd(t) => {
                    assert(!stack_open(stack1, t as int));
                    assert(t != p) by {
                        assert(stack1[stack1.len() - 1].index == t as int ==> stack_open(
                            stack1,
                            t as int,
                        ));
                    }
                    assert(!stack_open(stack2, t as int)) by {
                        if stack_open(stack2, t as int) {
                            let k = choose|k: int|
                                0 <= k < stack2.len() && (#[trigger] stack2[k]).index == t as int;
                            assert(stack1[k].index == t as int);
                        }
                    }
                },
                _ => {},
            }
        }
    }
    assert forall|j: int, k: int|
        0 <= j < insns2.len() && 0 <= k < stack2.len() && (#[trigger] insns2[j]) is LoopStart && !stack_open(
            stack2,
            j,
        ) implies (#[trigger] stack2[k]).index < j || insns2[j]->LoopStart_0 < stack2[k].index by {
        if j == p {
            assert(stack2[k].index < p);
        } else if j < insns1.len() {
            assert(insns1[j] is LoopStart);
            assert(parse_resolved_at(insns1, stack1, j));
            if stack_open(stack1, j) {
                // only the popped entry can make j pending; but that entry is at p != j
                let k0 = choose|k0: int|
                    0 <= k0 < stack1.len() && (#[trigger] stack1[k0]).index == j;
                if k0 < stack1.len() - 1 {
                    assert(stack2[k0].index == j);
                }
                assert(false);
            } else {
                assert(stack1[k].index < j || insns1[j]->LoopStart_0 < stack1[k].index);
            }
        }
    }
    assert forall|i1: int, i2: int|
        0 <= i1 < i2 < insns2.len() && (#[trigger] insns2[i1]) is LoopStart && (
        #[trigger] insns2[i2]) is LoopStart && i2 < insns2[i1]->LoopStart_0 implies
        insns2[i2]->LoopStart_0 < insns2[i1]->LoopStart_0 by {
        if i1 == p {
            // the new pair encloses everything after p
            if i2 < e {
                assert(insns1[i2] is LoopStart);
                assert(parse_resolved_at(insns1, stack1, i2));
                if stack_open(stack1, i2) {
                    let k = choose|k: int|
                        0 <= k < stack1.len() && (#[trigger] stack1[k]).index == i2;
                    if k < stack1.len() - 1 {
                        assert(stack1[k].index < p);
                    }
                    assert(false);
                } else {
                    assert(insns2[i2]->LoopStart_0 < e);
                }
            }
        } else if i2 == p {
            // no resolved pair straddles the pending open at p
            assert(i1 < e);
            assert(insns1[i1] is LoopStart);
            if i2 < insns2[i1]->LoopStart_0 {
                assert(parse_resolved_at(insns1, stack1, i1));
                if stack_open(stack1, i1) {
                    assert(insns1[i1] == Instruction::LoopStart(0));
                    assert(insns2[i1]->LoopStart_0 == 0);
                } else {
                    assert(stack1[stack1.len() - 1].index < i1 || insns1[i1]->LoopStart_0
                        < stack1[stack1.len() - 1].index);
                    assert(false);
                }
            }
        } else if i1 < e && i2 < e && i2 != p {
            assert(insns1[i1] is LoopStart && insns1[i2] is LoopStart);
            assert(insns2[i1]->LoopStart_0 == insns1[i1]->LoopStart_0);
            assert(insns2[i2]->LoopStart_0 == insns1[i2]->LoopStart_0);
        } else {
            assert(i2 != e);
        }
    }
}

/// Collects the characters of a source text into a vector, so that
/// the scan can address them by index.
fn collect_chars(s: &str) -> (r: Vec<char>)
    ensures
        r@ == s@,
{
    let mut v: Vec<char> = Vec::new();
    for c in it: s.chars()
        invariant
            it.seq() == s@,
            v@ =~= s@.take(it.index()),
    {
        v.push(c);
    }
    proof {
        assert(v@ =~= s@);
    }
    v
}

/// Parses source text into an instruction sequence.  Comment
/// characters are skipped; loop brackets are resolved LIFO.  On an
/// unmatched close the error carries that bracket's position; on an
/// unmatched open, the position of the earliest still-pending open.
/// The source must be shorter than the address space, so that
/// positions and indices fit in `usize`.
pub fn parse(content: &str) -> (r: Result<Vec<Instruction>, Error>)
    requires
        content@.len() < usize::MAX,
    ensures
        (match r {
            Ok(v) => spec_parse(content@) == Ok::<Seq<Instruction>, Error>(v@),
            Err(e) => spec_parse(content@) == Err::<Seq<Instruction>, Error>(e),
        }),
        (match r {
            Ok(v) => {
                &&& loops_resolved(v@)
                &&& loops_nested(v@)
                &&& unit_counts(v@)
                &&& v@.len() == significant_chars(content@).len()
                &&& v@.len() <= content@.len()
                &&& forall|k: int|
                    0 <= k < v@.len() ==> same_kind(
                        #[trigger] v@[k],
                        spec_from_char(significant_chars(content@)[k])->Some_0,
                    )
            },
            Err(_) => true,
        }),
{
    let chars = collect_chars(content);
    let n = chars.len();
    let mut instructions: Vec<Instruction> = Vec::new();
    let mut loop_stack: Vec<LoopStartIndex> = Vec::new();
    let mut line: usize = 1;
    let mut col: usize = 0;
    let mut i: usize = 0;
    while i < n
        invariant
            chars@ == content@,
            n == chars@.len(),
            n < usize::MAX,
            i <= n,
            1 <= line <= 1 + i,
            col <= i,
            instructions@.len() <= i,
            parse_from(initial_parse_state(), content@.take(i as int)) == Ok::<ParseState, Error>(
                parse_state_of(instructions@, loop_stack@, line as nat, col as nat),
            ),
            parse_invariant(instructions@, loop_stack@),
            loops_nested(instructions@),
            unit_counts(instructions@),
            instructions@.len() == significant_chars(content@.take(i as int)).len(),
            forall|k: int|
                0 <= k < instructions@.len() ==> same_kind(
                    #[trigger] instructions@[k],
                    spec_from_char(significant_chars(content@.take(i as int))[k])->Some_0,
                ),
        decreases n - i,
    {
        let ghost st0 = parse_state_of(instructions@, loop_stack@, line as nat, col as nat);
        let c = chars[i];
        if c == '\n' {
            line = line + 1;
            col = 0;
        } else {
            col = col + 1;
        }
        match Instruction::from_char(c) {
            None => {},
            Some(insn) => {
                match insn {
                    Instruction::LoopStart(_) => {
                        loop_stack.push(
                            LoopStartIndex {
                                index: instructions.len(),
                                line_index: line,
                                char_index: col,
                            },
                        );
                        instructions.push(Instruction::LoopStart(0));
                    },
                    Instruction::LoopEnd(_) => {
                        match loop_stack.pop() {
                            None => {
                                proof {
                                    let cc = content@[i as int];
                                    assert(st0.stack.len() == 0);
                                    assert(parse_char(st0, cc) == Err::<ParseState, Error>(
                                        Error::NoLoopStart(line, col),
                                    ));
                                    assert(content@.take(i + 1) =~= content@.take(i as int)
                                        + seq![cc]);
                                    lemma_parse_from_concat(
                                        initial_parse_state(),
                                        content@.take(i as int),
                                        seq![cc],
                                    );
                                    assert(seq![cc][0] == cc);
                                    assert(parse_from(initial_parse_state(), content@.take(i + 1))
                                        == Err::<ParseState, Error>(Error::NoLoopStart(line, col)));
                                    assert(content@.take(i + 1) + content@.skip(i + 1)
                                        =~= content@);
                                    lemma_parse_from_concat(
                                        initial_parse_state(),
                                        content@.take(i + 1),
                                        content@.skip(i + 1),
                                    );
                                }
                                return Err(Error::NoLoopStart(line, col));
                            },
                            Some(last) => {
                                proof {
                                    assert(st0.stack[st0.stack.len() - 1] == last);
                                    assert(last.index < st0.insns.len());
                                    assert(loop_stack@ =~= st0.stack.drop_last());
                                }
                                let target = instructions.len();
                                instructions[last.index] = Instruction::LoopStart(target);
                                instructions.push(Instruction::LoopEnd(last.index));
                            },
                        }
                    },
                    _ => {
                        instructions.push(insn);
                    },
                }
            },
        }
        proof {
            let cc = content@[i as int];
            let st1 = parse_state_of(instructions@, loop_stack@, line as nat, col as nat);
            assert(parse_char(st0, cc) == Ok::<ParseState, Error>(st1));
            assert(content@.take(i + 1) =~= content@.take(i as int) + seq![cc]);
            lemma_parse_from_concat(initial_parse_state(), content@.take(i as int), seq![cc]);
            assert(seq![cc][0] == cc);
            assert(seq![cc].drop_first().len() == 0);
            assert(parse_from(st1, seq![cc].drop_first()) == Ok::<ParseState, Error>(st1));
            assert(parse_from(st0, seq![cc]) == Ok::<ParseState, Error>(st1));
            assert(parse_from(initial_parse_state(), content@.take(i + 1)) == Ok::<
                ParseState,
                Error,
            >(st1));
            let sig1 = significant_chars(content@.take(i as int));
            let sig2 = significant_chars(content@.take(i + 1));
            assert(content@.take(i + 1).drop_last() =~= content@.take(i as int));
            assert(content@.take(i + 1).last() == cc);
            match spec_from_char(cc) {
                Option::None => {
                    assert(sig2 == sig1);
                },
                Option::Some(spec_insn) => {
                    assert(sig2 == sig1.push(cc));
                    match spec_insn {
                        Instruction::LoopStart(_) => {
                            lemma_open_step(st0.insns, st0.stack, loop_stack@.last());
                            assert(parse_invariant(instructions@, loop_stack@));
                        },
                        Instruction::LoopEnd(_) => {
                            lemma_close_step(st0.insns, st0.stack);
                            assert(parse_invariant(instructions@, loop_stack@));
                        },
                        _ => {
                            lemma_emit_step(st0.insns, st0.stack, spec_insn);
                            assert(parse_invariant(instructions@, loop_stack@));
                        },
                    }
                    assert forall|k: int| 0 <= k < instructions@.len() implies same_kind(
                        #[trigger] instructions@[k],
                        spec_from_char(sig2[k])->Some_0,
                    ) by {
                        if k < st0.insns.len() {
                            assert(same_kind(st0.insns[k], spec_from_char(sig1[k])->Some_0));
                            assert(same_kind(instructions@[k], st0.insns[k]) ==> same_kind(
                                instructions@[k],
                                spec_from_char(sig1[k])->Some_0,
                            ));
                        }
                    }
                },
            }
        }
        i = i + 1;
    }
    proof {
        assert(content@.take(i as int) =~= content@);
        lemma_significant_chars_len(content@);
    }
    if loop_stack.len() > 0 {
        let first = loop_stack[0];
        return Err(Error::NoLoopEnd(first.line_index, first.char_index));
    }
    proof {
        assert forall|j: int| 0 <= j < instructions@.len() implies #[trigger] resolved_at(
            instructions@,
            j,
        ) by {
            assert(parse_resolved_at(instructions@, loop_stack@, j));
            if instructions@[j] is LoopStart && stack_open(loop_stack@, j) {
                let k = choose|k: int|
                    0 <= k < loop_stack@.len() && (#[trigger] loop_stack@[k]).index == j;
            }
        }
    }
    Ok(instructions)
}

} // verus!
