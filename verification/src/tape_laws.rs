//! What holds of the tape and the cells when one instruction is repeated.

use crate::machine::{
    Machine, DECREMENT, INCREMENT, JUMP_BACKWARD, JUMP_FORWARD, MOVE_LEFT, MOVE_RIGHT,
};
use vstd::prelude::*;

verus! {

/// `n` zero cells.
pub open spec fn zeros(n: int) -> Seq<u8> {
    Seq::new(
        if n > 0 {
            n as nat
        } else {
            0
        },
        |i: int| 0u8,
    )
}

/// What `k` times the instruction `instr`, which is not a bracket, does
/// before the program counter advances.
pub open spec fn performed(m: Machine, instr: u8, k: nat) -> Machine
    decreases k,
{
    if k == 0 {
        m
    } else {
        performed(m.perform(instr), instr, (k - 1) as nat)
    }
}

/// An instruction that is not a bracket keeps the state well formed, and
/// neither reads nor moves the program counter.
pub proof fn lemma_perform(m: Machine, instr: u8, pc: int)
    requires
        m.wf(),
    ensures
        m.perform(instr).wf(),
        m.perform(instr).pc == m.pc,
        m.perform(instr).code == m.code,
        m.at(pc).perform(instr) == m.perform(instr).at(pc),
{
}

/// The same for `k` instructions.
pub proof fn lemma_performed(m: Machine, instr: u8, k: nat, pc: int)
    requires
        m.wf(),
    ensures
        performed(m, instr, k).wf(),
        performed(m, instr, k).pc == m.pc,
        performed(m, instr, k).code == m.code,
        performed(m.at(pc), instr, k) == performed(m, instr, k).at(pc),
    decreases k,
{
    if k > 0 {
        lemma_perform(m, instr, pc);
        lemma_performed(m.perform(instr), instr, (k - 1) as nat, pc);
    }
}

/// Where the next `k` instructions are all `instr`, which is not a bracket,
/// `k` steps do `k` times what `instr` does and leave the program counter
/// behind them.
pub proof fn lemma_run_repeated(m: Machine, instr: u8, k: nat)
    requires
        m.wf(),
        instr != JUMP_FORWARD,
        instr != JUMP_BACKWARD,
        m.pc + k <= m.code.len(),
        forall|i: int| m.pc <= i < m.pc + k ==> m.code[i] == instr,
    ensures
        m.run(k) == performed(m, instr, k).at(m.pc + k),
    decreases k,
{
    if k > 0 {
        let next = m.perform(instr);
        lemma_perform(m, instr, m.pc + 1);
        lemma_run_repeated(next.at(m.pc + 1), instr, (k - 1) as nat);
        lemma_performed(next, instr, (k - 1) as nat, m.pc + 1);
    }
}

/// Cell arithmetic wraps: `k` increments add `k` to the current cell modulo
/// 256 and change nothing else, so 256 of them restore the cell.
pub proof fn lemma_increments(m: Machine, k: nat)
    requires
        m.wf(),
    ensures
        performed(m, INCREMENT, k) == m.store(((m.cell() + k) % 256) as u8),
        k % 256 == 0 ==> performed(m, INCREMENT, k) == m,
    decreases k,
{
    if k > 0 {
        let next = m.increment();
        lemma_increments(next, (k - 1) as nat);
        let sum = ((m.cell() + k) % 256) as u8;
        assert(next.store(sum).tape == m.store(sum).tape);
    }
    if k % 256 == 0 {
        assert(m.store(m.cell()).tape == m.tape);
    }
}

/// `k` decrements subtract `k` from the current cell modulo 256 and change
/// nothing else, so one decrement of a zero cell gives 255.
pub proof fn lemma_decrements(m: Machine, k: nat)
    requires
        m.wf(),
    ensures
        performed(m, DECREMENT, k) == m.store(((m.cell() - k) % 256) as u8),
        k % 256 == 0 ==> performed(m, DECREMENT, k) == m,
    decreases k,
{
    if k > 0 {
        let next = m.decrement();
        lemma_decrements(next, (k - 1) as nat);
        let difference = ((m.cell() - k) % 256) as u8;
        assert(next.store(difference).tape == m.store(difference).tape);
    }
    if k % 256 == 0 {
        assert(m.store(m.cell()).tape == m.tape);
    }
}

/// `k` moves to the left: the pointer goes down to the left end of the tape,
/// and for each move that is then left a zero cell is put in front.
pub proof fn lemma_moves_left(m: Machine, k: nat)
    requires
        m.wf(),
    ensures
        performed(m, MOVE_LEFT, k) == (if k <= m.ptr {
            Machine { ptr: m.ptr - k, ..m }
        } else {
            Machine { tape: zeros(k - m.ptr) + m.tape, ptr: 0, ..m }
        }),
    decreases k,
{
    if k > 0 {
        let next = m.move_left();
        lemma_moves_left(next, (k - 1) as nat);
        if m.ptr == 0 {
            assert(zeros(k - m.ptr) + m.tape == zeros(k - 1) + (seq![0u8] + m.tape));
        }
    }
}

/// `k` moves to the right: the pointer goes up by `k`, and the tape gets as
/// many zero cells at its right end as it lacks.
pub proof fn lemma_moves_right(m: Machine, k: nat)
    requires
        m.wf(),
    ensures
        performed(m, MOVE_RIGHT, k) == (Machine {
            tape: m.tape + zeros(m.ptr + k + 1 - m.tape.len()),
            ptr: m.ptr + k,
            ..m
        }),
    decreases k,
{
    if k > 0 {
        let next = m.move_right();
        lemma_moves_right(next, (k - 1) as nat);
        assert(m.tape + zeros(m.ptr + k + 1 - m.tape.len()) == next.tape + zeros(
            next.ptr + (k - 1) + 1 - next.tape.len(),
        ));
    }
}

/// The tape grows without loss to the left. After `k` moves to the left and
/// `k` moves back to the right the pointer is on the cell on which it began.
/// Every cell holds what it held, and the only new cells are zero cells in
/// front of the old left end, one for each move that went beyond it.
pub proof fn lemma_left_and_back(m: Machine, k: nat)
    requires
        m.wf(),
    ensures
        performed(performed(m, MOVE_LEFT, k), MOVE_RIGHT, k) == (Machine {
            tape: zeros(k - m.ptr) + m.tape,
            ptr: if k <= m.ptr {
                m.ptr
            } else {
                k as int
            },
            ..m
        }),
        performed(performed(m, MOVE_LEFT, k), MOVE_RIGHT, k).cell() == m.cell(),
{
    let left = performed(m, MOVE_LEFT, k);
    lemma_moves_left(m, k);
    lemma_performed(m, MOVE_LEFT, k, m.pc);
    lemma_moves_right(left, k);
}

/// The tape grows without loss to the right. After `k` moves to the right
/// and `k` moves back to the left the pointer is on the cell on which it
/// began. Every cell holds what it held, and the only new cells are zero cells
/// behind the old right end, one for each move that went beyond it.
pub proof fn lemma_right_and_back(m: Machine, k: nat)
    requires
        m.wf(),
    ensures
        performed(performed(m, MOVE_RIGHT, k), MOVE_LEFT, k) == (Machine {
            tape: m.tape + zeros(m.ptr + k + 1 - m.tape.len()),
            ..m
        }),
        performed(performed(m, MOVE_RIGHT, k), MOVE_LEFT, k).cell() == m.cell(),
{
    let right = performed(m, MOVE_RIGHT, k);
    lemma_moves_right(m, k);
    lemma_performed(m, MOVE_RIGHT, k, m.pc);
    lemma_moves_left(right, k);
}

} // verus!
