//! What holds of `[` and `]`: they pair up, blocks nest, and no run from the
//! start faults on the program counter.

use crate::brackets::{
    lemma_block_end_in_code, lemma_block_end_is, lemma_block_end_steps,
    lemma_inner_block_ends_inside, lemma_scan_back, scan_pos,
};
use crate::error::VmError;
use crate::machine::{matching_close, matching_open, Machine, JUMP_BACKWARD, JUMP_FORWARD};
use vstd::prelude::*;

verus! {

/// The `]` that matches a `[` stands after it, and its own matching `[` is
/// that one.
pub proof fn lemma_close_matches_open(code: Seq<u8>, open: int, close: int)
    requires
        0 <= open < code.len(),
        code[open] == JUMP_FORWARD,
        matching_close(code, open) == Some(close),
    ensures
        open < close < code.len(),
        code[close] == JUMP_BACKWARD,
        matching_open(code, close) == Some(open),
{
    let n = lemma_block_end_steps(code, JUMP_FORWARD, JUMP_BACKWARD, open + 1, false);
    lemma_scan_back(code, JUMP_FORWARD, JUMP_BACKWARD, open + 1, false, n);
    lemma_block_end_is(code, JUMP_BACKWARD, JUMP_FORWARD, close - 1, true, n);
}

/// The `[` that matches a `]` stands before it, and its own matching `]` is
/// that one.
pub proof fn lemma_open_matches_close(code: Seq<u8>, open: int, close: int)
    requires
        0 <= close < code.len(),
        code[close] == JUMP_BACKWARD,
        matching_open(code, close) == Some(open),
    ensures
        0 <= open < close,
        code[open] == JUMP_FORWARD,
        matching_close(code, open) == Some(close),
{
    let n = lemma_block_end_steps(code, JUMP_BACKWARD, JUMP_FORWARD, close - 1, true);
    lemma_scan_back(code, JUMP_BACKWARD, JUMP_FORWARD, close - 1, true, n);
    lemma_block_end_is(code, JUMP_FORWARD, JUMP_BACKWARD, open + 1, false, n);
}

/// A block that begins inside another block ends inside it: an inner `[` is
/// never matched to the `]` of an outer block, nor to one behind it.
pub proof fn lemma_blocks_nest(
    code: Seq<u8>,
    open: int,
    close: int,
    inner_open: int,
    inner_close: int,
)
    requires
        matching_close(code, open) == Some(close),
        open < inner_open < close,
        code[inner_open] == JUMP_FORWARD,
        matching_close(code, inner_open) == Some(inner_close),
    ensures
        inner_open < inner_close < close,
{
    let n = lemma_block_end_steps(code, JUMP_FORWARD, JUMP_BACKWARD, open + 1, false);
    let inner = lemma_block_end_steps(code, JUMP_FORWARD, JUMP_BACKWARD, inner_open + 1, false);
    let k = (inner_open - open - 1) as nat;
    lemma_inner_block_ends_inside(code, JUMP_FORWARD, JUMP_BACKWARD, open + 1, false, n, k, inner);
}

/// Where the program begins with a `[`, the machine is either still on it
/// with a zero cell, or behind the `]` that matches it.
pub open spec fn past_first_block(m: Machine) -> bool {
    m.code.len() > 0 && m.code[0] == JUMP_FORWARD ==> {
        ||| m.pc == 0 && m.cell() == 0
        ||| matching_close(m.code, 0) matches Some(close) && close < m.pc
    }
}

/// A step never leads into a block that the program begins with, once the
/// machine is behind it, and so no `]` is executed whose `[` is the first
/// instruction.
pub proof fn lemma_step_past_first_block(m: Machine)
    requires
        m.wf(),
        past_first_block(m),
    ensures
        past_first_block(m.step()),
        m.fault() != Some(VmError::PCUnderflow),
{
    m.lemma_step_wf();
    if !m.halted() {
        let instr = m.code[m.pc];
        if m.code[0] == JUMP_FORWARD {
            lemma_block_end_in_code(m.code, JUMP_FORWARD, JUMP_BACKWARD, 1, false);
            if !(m.pc == 0 && m.cell() == 0) {
                let close = matching_close(m.code, 0)->Some_0;
                if instr == JUMP_FORWARD {
                    lemma_block_end_in_code(
                        m.code,
                        JUMP_FORWARD,
                        JUMP_BACKWARD,
                        m.pc + 1,
                        false,
                    );
                } else if instr == JUMP_BACKWARD {
                    if matching_open(m.code, m.pc) is Some {
                        let open = matching_open(m.code, m.pc)->Some_0;
                        lemma_open_matches_close(m.code, open, m.pc);
                        if 0 < open < close {
                            lemma_blocks_nest(m.code, 0, close, open, m.pc);
                        }
                    }
                }
            }
        } else {
            lemma_block_end_in_code(m.code, JUMP_BACKWARD, JUMP_FORWARD, m.pc - 1, true);
        }
    }
}

/// The same for any number of steps.
pub proof fn lemma_run_past_first_block(m: Machine, n: nat)
    requires
        m.wf(),
        past_first_block(m),
    ensures
        m.run(n).wf(),
        past_first_block(m.run(n)),
    decreases n,
{
    if n > 0 {
        lemma_step_past_first_block(m);
        lemma_run_past_first_block(m.step(), (n - 1) as nat);
    }
}

/// A run from the start never faults on the program counter: whatever the
/// program and the input, the only faults are the two of unmatched brackets,
/// after any number of steps and so at the end of the run.
pub proof fn lemma_faults_from_start(code: Seq<u8>, input: Seq<u8>, n: nat)
    ensures
        match Machine::start(code, input).run(n).fault() {
            Some(e) => e == VmError::UnmatchedForwardJump || e == VmError::UnmatchedBackwardJump,
            None => true,
        },
        match Machine::start(code, input).final_state().fault() {
            Some(e) => e == VmError::UnmatchedForwardJump || e == VmError::UnmatchedBackwardJump,
            None => true,
        },
{
    let start = Machine::start(code, input);
    lemma_run_past_first_block(start, n);
    lemma_step_past_first_block(start.run(n));
    let last = choose|k: nat| start.run(k).stopped();
    lemma_run_past_first_block(start, last);
    lemma_step_past_first_block(start.run(last));
}

} // verus!
