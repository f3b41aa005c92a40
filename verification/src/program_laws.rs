//! What holds of whole runs: of programs without brackets, and of three
//! families of programs whose output can be told in advance.

use crate::machine::{
    Machine, JUMP_BACKWARD, JUMP_FORWARD, MOVE_LEFT, MOVE_RIGHT, READ, WRITE,
};
use crate::tape_laws::{
    lemma_left_and_back, lemma_moves_left, lemma_performed, lemma_right_and_back,
    lemma_run_repeated, performed,
};
use vstd::prelude::*;

verus! {

/// The empty program is over before it begins: whatever the input, it
/// writes nothing and reads nothing.
pub proof fn lemma_empty_program(input: Seq<u8>)
    ensures
        Machine::start(Seq::empty(), input).terminates(),
        Machine::start(Seq::empty(), input).final_state() == Machine::start(Seq::empty(), input),
        Machine::start(Seq::empty(), input).final_state().halted(),
        Machine::start(Seq::empty(), input).final_state().output == Seq::<u8>::empty(),
{
    Machine::start(Seq::empty(), input).lemma_stopped_is_final();
}

/// Neither `[` nor `]` occurs in `code`.
pub open spec fn bracket_free(code: Seq<u8>) -> bool {
    forall|i: int| 0 <= i < code.len() ==> code[i] != JUMP_FORWARD && code[i] != JUMP_BACKWARD
}

/// Without brackets, `n` steps execute the next `n` instructions one after
/// the other, as long as that many are left.
pub proof fn lemma_bracket_free_run(m: Machine, n: nat)
    requires
        m.wf(),
        bracket_free(m.code),
        m.pc + n <= m.code.len(),
    ensures
        m.run(n).wf(),
        m.run(n).code == m.code,
        m.run(n).pc == m.pc + n,
    decreases n,
{
    if n > 0 {
        m.lemma_step_wf();
        lemma_bracket_free_run(m.step(), (n - 1) as nat);
    }
}

/// A program without brackets never faults. From any state the machine
/// executes each instruction that is left once and then halts with the
/// program counter behind the last instruction, so the number of steps is at
/// most the length of the program.
pub proof fn lemma_bracket_free_halts(m: Machine)
    requires
        m.wf(),
        bracket_free(m.code),
    ensures
        m.terminates(),
        m.final_state().halted(),
        m.final_state().fault() is None,
        m.pc <= m.code.len() ==> m.final_state() == m.run((m.code.len() - m.pc) as nat)
            && m.final_state().pc == m.code.len(),
{
    if m.pc <= m.code.len() {
        let n = (m.code.len() - m.pc) as nat;
        lemma_bracket_free_run(m, n);
        m.lemma_final_state(n);
    } else {
        m.lemma_final_state(0);
    }
}

/// A step takes nothing back. The tape does not get shorter, what has been
/// written stays at the front of the output in its order, and what is left of
/// the input is the end of what was left before.
pub proof fn lemma_step_keeps(m: Machine)
    requires
        m.wf(),
    ensures
        m.step().tape.len() >= m.tape.len(),
        m.output.is_prefix_of(m.step().output),
        m.step().input.is_suffix_of(m.input),
{
}

/// The same for any number of steps: cells are never given up, output is
/// never truncated or reordered, and input is consumed from the front.
pub proof fn lemma_run_keeps(m: Machine, n: nat)
    requires
        m.wf(),
    ensures
        m.run(n).tape.len() >= m.tape.len(),
        m.output.is_prefix_of(m.run(n).output),
        m.run(n).input.is_suffix_of(m.input),
    decreases n,
{
    if n > 0 {
        m.lemma_step_wf();
        lemma_step_keeps(m);
        lemma_run_keeps(m.step(), (n - 1) as nat);
    }
}

/// The program that reads a byte and writes it, `n` times over.
pub open spec fn echo_program(n: nat) -> Seq<u8> {
    Seq::new(
        2 * n,
        |i: int|
            if i % 2 == 0 {
                READ
            } else {
                WRITE
            },
    )
}

/// The first `n` bytes of `input`, with zeros where `input` is shorter.
pub open spec fn zero_padded(input: Seq<u8>, n: nat) -> Seq<u8> {
    Seq::new(
        n,
        |i: int|
            if i < input.len() {
                input[i]
            } else {
                0u8
            },
    )
}

/// The state of the echo program of `n` rounds after `k` of them.
pub open spec fn echo_state(n: nat, input: Seq<u8>, k: nat) -> Machine {
    Machine {
        code: echo_program(n),
        tape: seq![
            if k == 0 {
                0u8
            } else {
                zero_padded(input, k)[k - 1]
            },
        ],
        ptr: 0,
        pc: 2 * k as int,
        input: if k <= input.len() {
            input.subrange(k as int, input.len() as int)
        } else {
            Seq::empty()
        },
        output: zero_padded(input, k),
    }
}

/// Each round of the echo program takes two steps and moves one byte from
/// the input to the output, or a zero once the input is used up.
pub proof fn lemma_echo_rounds(n: nat, input: Seq<u8>, k: nat)
    requires
        k <= n,
    ensures
        Machine::start(echo_program(n), input).run(2 * k) == echo_state(n, input, k),
    decreases k,
{
    let start = Machine::start(echo_program(n), input);
    if k == 0 {
        assert(start.input == input.subrange(0, input.len() as int));
        assert(start.output == zero_padded(input, 0));
    } else {
        let j = (k - 1) as nat;
        lemma_echo_rounds(n, input, j);
        let before = echo_state(n, input, j);
        start.lemma_run_next(2 * j);
        start.lemma_run_next(2 * j + 1);
        let read = before.step();
        assert(before.code[before.pc] == READ);
        assert(read.code[read.pc] == WRITE);
        let after = read.step();
        let want = echo_state(n, input, k);
        assert(after.tape == want.tape);
        assert(after.input == want.input);
        assert(after.output == want.output);
    }
}

/// The echo program of `n` rounds writes the first `n` bytes of its input,
/// and zeros in place of those that the input does not have.
pub proof fn lemma_echo(n: nat, input: Seq<u8>)
    ensures
        Machine::start(echo_program(n), input).terminates(),
        Machine::start(echo_program(n), input).final_state().halted(),
        Machine::start(echo_program(n), input).final_state().output == zero_padded(input, n),
{
    lemma_echo_rounds(n, input, n);
    Machine::start(echo_program(n), input).lemma_final_state(2 * n);
}

/// `k` times the instruction `instr`.
pub open spec fn block(instr: u8, k: nat) -> Seq<u8> {
    Seq::new(k, |i: int| instr)
}

/// The program that goes `k` cells to the left, `k` cells back to the right
/// and writes the cell.
pub open spec fn excursion_program(k: nat) -> Seq<u8> {
    block(MOVE_LEFT, k) + block(MOVE_RIGHT, k) + seq![WRITE]
}

/// A program that goes `k` cells to the left of the cell on which it starts,
/// comes back and writes the cell, writes one zero: the tape has grown to
/// the left, and the first cell is still where the pointer finds it.
pub proof fn lemma_excursion(k: nat, input: Seq<u8>)
    ensures
        Machine::start(excursion_program(k), input).terminates(),
        Machine::start(excursion_program(k), input).final_state().halted(),
        Machine::start(excursion_program(k), input).final_state().output == seq![0u8],
{
    let start = Machine::start(excursion_program(k), input);
    let out = performed(start, MOVE_LEFT, k);
    let back = performed(out, MOVE_RIGHT, k);
    let turn = k as int;
    let end = (2 * k) as int;
    lemma_run_repeated(start, MOVE_LEFT, k);
    lemma_performed(start, MOVE_LEFT, k, turn);
    lemma_run_repeated(out.at(turn), MOVE_RIGHT, k);
    lemma_performed(out, MOVE_RIGHT, k, turn);
    lemma_performed(out, MOVE_RIGHT, k, end);
    lemma_left_and_back(start, k);
    start.lemma_run_split(k, k);
    start.lemma_run_next(2 * k);
    assert(start.run(2 * k) == back.at(end));
    assert(back.at(end).step() == back.write().at(end + 1));
    start.lemma_final_state(2 * k + 1);
}

/// The program that goes `k` cells to the left, reads a byte into the cell
/// there, goes `j` cells to the right, `j` cells back to the left and writes
/// the cell.
pub open spec fn revisit_program(k: nat, j: nat) -> Seq<u8> {
    block(MOVE_LEFT, k) + seq![READ] + block(MOVE_RIGHT, j) + block(MOVE_LEFT, j) + seq![WRITE]
}

/// A value that is stored in a cell left of the first one is still there
/// when the pointer has been away to the right and has come back, however far
/// either way leads.
pub proof fn lemma_revisit(k: nat, j: nat, input: Seq<u8>)
    ensures
        Machine::start(revisit_program(k, j), input).terminates(),
        Machine::start(revisit_program(k, j), input).final_state().halted(),
        Machine::start(revisit_program(k, j), input).final_state().output == zero_padded(
            input,
            1,
        ),
{
    let start = Machine::start(revisit_program(k, j), input);
    let at_cell = k as int;
    let at_right = (k + 1) as int;
    let at_left = (k + 1 + j) as int;
    let at_write = (k + 1 + j + j) as int;
    let there = performed(start, MOVE_LEFT, k);
    lemma_run_repeated(start, MOVE_LEFT, k);
    lemma_performed(start, MOVE_LEFT, k, at_cell);
    lemma_moves_left(start, k);
    assert(start.run(k) == there.at(at_cell));
    start.lemma_run_next(k);
    let stored = there.read();
    assert(there.at(at_cell).step() == stored.at(at_right));
    assert(start.run(k + 1) == stored.at(at_right));
    let away = performed(stored, MOVE_RIGHT, j);
    let back = performed(away, MOVE_LEFT, j);
    lemma_run_repeated(stored.at(at_right), MOVE_RIGHT, j);
    lemma_performed(stored, MOVE_RIGHT, j, at_right);
    lemma_performed(stored, MOVE_RIGHT, j, at_left);
    start.lemma_run_split(k + 1, j);
    assert(start.run(k + 1 + j) == away.at(at_left));
    lemma_run_repeated(away.at(at_left), MOVE_LEFT, j);
    lemma_performed(away, MOVE_LEFT, j, at_left);
    lemma_performed(away, MOVE_LEFT, j, at_write);
    start.lemma_run_split(k + 1 + j, j);
    assert(start.run(k + 1 + j + j) == back.at(at_write));
    lemma_right_and_back(stored, j);
    start.lemma_run_next(k + 1 + j + j);
    assert(back.at(at_write).step() == back.write().at(at_write + 1));
    start.lemma_final_state(k + 1 + j + j + 1);
    assert(back.write().output == zero_padded(input, 1));
}

} // verus!
