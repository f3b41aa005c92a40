//! The executable interpreter.

use crate::brackets::{
    block_end, depth_after, ends_block, lemma_block_end_in_code, lemma_block_end_is,
    lemma_block_end_none, scan_pos,
};
use crate::error::VmError;
use crate::machine::{
    Machine, DECREMENT, INCREMENT, JUMP_BACKWARD, JUMP_FORWARD, MOVE_LEFT, MOVE_RIGHT, READ, WRITE,
};
use std::collections::VecDeque;
use vstd::prelude::*;

verus! {

/// The interpreter: a program, its tape, its input and its output.
pub struct Vm {
    /// The tape: the cells that exist so far, leftmost first. It grows at
    /// both ends.
    memory: VecDeque<u8>,
    /// The program.
    code: Vec<u8>,
    /// The input that is left, last byte first, so that the next byte is
    /// popped from the end.
    input: Vec<u8>,
    /// Everything written so far.
    output: Vec<u8>,
    /// The index in `code` of the next instruction.
    pc: usize,
    /// The index in `memory` of the current cell.
    ptr: usize,
}

impl View for Vm {
    type V = Machine;

    closed spec fn view(&self) -> Machine {
        Machine {
            code: self.code@,
            tape: self.memory@,
            ptr: self.ptr as int,
            pc: self.pc as int,
            input: self.input@.reverse(),
            output: self.output@,
        }
    }
}

/// The index `relative_position` instructions away from `pc`, where it is a
/// `usize`; else which of the two ends it lies beyond.
pub open spec fn target(pc: int, relative_position: int) -> Result<int, VmError> {
    if pc + relative_position > usize::MAX {
        Err(VmError::PCOverflow)
    } else if pc + relative_position < 0 {
        Err(VmError::PCUnderflow)
    } else {
        Ok(pc + relative_position)
    }
}

/// Computes the index `relative_position` instructions away from `pc`, and
/// reports an overflow or underflow where there is no such index.
pub fn relative_target(pc: usize, relative_position: i32) -> (r: Result<usize, VmError>)
    ensures
        match target(pc as int, relative_position as int) {
            Ok(index) => r == Ok::<usize, VmError>(index as usize),
            Err(e) => r == Err::<usize, VmError>(e),
        },
{
    if relative_position >= 0 {
        match pc.checked_add(relative_position as usize) {
            Some(target) => Ok(target),
            None => Err(VmError::PCOverflow),
        }
    } else {
        let back: i64 = -(relative_position as i64);
        match pc.checked_sub(back as usize) {
            Some(target) => Ok(target),
            None => Err(VmError::PCUnderflow),
        }
    }
}

/// Puts `value` in the cell at `index`. This is not proved: it is what
/// `index_mut` of `std::collections::VecDeque` is taken to do, which the
/// assignment to `memory[index]` calls. Index 0 is the front of the deque.
/// After the assignment the cell at `index` holds `value`, every other cell
/// holds what it held, and the tape has the length that it had. The index
/// must be on the tape, because `index_mut` panics elsewhere.
#[verifier::external_body]
fn write_cell(memory: &mut VecDeque<u8>, index: usize, value: u8)
    requires
        index < old(memory)@.len(),
    ensures
        final(memory)@ == old(memory)@.update(index as int, value),
{
    memory[index] = value;
}

impl Vm {
    /// The data pointer is on a cell of the tape.
    pub closed spec fn wf(&self) -> bool {
        self.ptr < self.memory@.len()
    }

    /// A well-formed interpreter stands for a well-formed machine, whose
    /// program counter is a `usize`.
    pub proof fn lemma_wf(&self)
        requires
            self.wf(),
        ensures
            self@.wf(),
            self@.pc <= usize::MAX,
            self@.code.len() <= usize::MAX,
    {
        assert(self.code.len() == self.code@.len());
    }

    /// An interpreter for `code` that reads from `input`, first byte first.
    /// The tape is one zero cell with the data pointer on it, and the first
    /// instruction is the next.
    pub fn new(code: Vec<u8>, input: Vec<u8>) -> (vm: Vm)
        ensures
            vm.wf(),
            vm@ == Machine::start(code@, input@),
    {
        let mut staged: Vec<u8> = Vec::new();
        let mut left = input.len();
        while left > 0
            invariant
                left <= input.len(),
                staged@ == input@.subrange(left as int, input.len() as int).reverse(),
            decreases left,
        {
            left -= 1;
            staged.push(input[left]);
        }
        assert(staged@.reverse() == input@);
        let mut mem = VecDeque::new();
        mem.push_front(0u8);
        Vm { memory: mem, code, input: staged, output: Vec::new(), pc: 0, ptr: 0 }
    }

    /// The index of the next instruction.
    pub fn pc(&self) -> (pc: usize)
        ensures
            pc == self@.pc,
    {
        self.pc
    }

    /// The value of the cell under the data pointer.
    pub fn cell(&self) -> (value: u8)
        requires
            self.wf(),
        ensures
            value == self@.cell(),
    {
        self.memory[self.ptr]
    }

    /// Everything written so far, whether the run has ended, has faulted or is
    /// still under way.
    pub fn output(&self) -> (out: &Vec<u8>)
        ensures
            out@ == self@.output,
    {
        &self.output
    }

    /// The instruction at the program counter; `PCOutOfScope` when the
    /// program counter is past the last one.
    pub fn get_instruction(&self) -> (r: Result<u8, VmError>)
        ensures
            !self@.halted() ==> r == Ok::<u8, VmError>(self@.code[self@.pc]),
            self@.halted() ==> r == Err::<u8, VmError>(VmError::PCOutOfScope),
    {
        if self.pc < self.code.len() {
            Ok(self.code[self.pc])
        } else {
            Err(VmError::PCOutOfScope)
        }
    }

    /// Moves the program counter by `relative_position` instructions. Where
    /// the target is not a `usize` nothing changes, and the error says on
    /// which side it lies.
    pub fn jump_relative(&mut self, relative_position: i32) -> (r: Result<(), VmError>)
        requires
            old(self).wf(),
        ensures
            final(self).wf(),
            match target(old(self)@.pc, relative_position as int) {
                Ok(index) => r == Ok::<(), VmError>(()) && final(self)@ == old(self)@.at(index),
                Err(e) => r == Err::<(), VmError>(e) && final(self)@ == old(self)@,
            },
    {
        match relative_target(self.pc, relative_position) {
            Ok(pc) => {
                self.pc = pc;
                Ok(())
            },
            Err(e) => Err(e),
        }
    }

    /// Moves the program counter to the instruction that ends the current
    /// block, scanning from the program counter itself, forward or backward.
    /// On the way every `start_instr` opens a nested block, and the
    /// `end_instr` that closes it is passed over. Where the code runs out
    /// first, nothing changes.
    pub fn jump_to_matching_instruction(
        &mut self,
        start_instr: u8,
        end_instr: u8,
        backward: bool,
    ) -> (r: Result<(), ()>)
        requires
            old(self).wf(),
        ensures
            final(self).wf(),
            match block_end(old(self)@.code, start_instr, end_instr, old(self)@.pc, backward) {
                Some(pos) => r is Ok && final(self)@ == old(self)@.at(pos),
                None => r is Err && final(self)@ == old(self)@,
            },
    {
        let origin = self.pc;
        let step: i32 = if backward {
            -1
        } else {
            1
        };
        let mut depth: usize = 0;
        let ghost code = self@.code;
        let ghost mut n: nat = 0;
        proof {
            self.lemma_wf();
        }
        loop
            invariant
                self.wf(),
                code == old(self)@.code,
                code.len() <= usize::MAX,
                origin == old(self)@.pc,
                step == (if backward {
                    -1i32
                } else {
                    1i32
                }),
                self@ == old(self)@.at(scan_pos(origin as int, backward, n)),
                !self@.halted() ==> origin < code.len(),
                depth == depth_after(code, start_instr, end_instr, origin as int, backward, n),
                depth <= n,
                forall|k: nat|
                    k < n ==> !ends_block(code, start_instr, end_instr, origin as int, backward, k),
            decreases
                    (if backward {
                        self@.pc
                    } else {
                        code.len() - self@.pc
                    }),
        {
            let instr = match self.get_instruction() {
                Ok(i) => i,
                Err(_) => {
                    self.pc = origin;
                    proof {
                        lemma_block_end_none(code, start_instr, end_instr, origin as int, backward);
                    }
                    return Err(());
                },
            };
            if instr == end_instr {
                if depth == 0 {
                    proof {
                        lemma_block_end_is(code, start_instr, end_instr, origin as int, backward, n);
                    }
                    return Ok(());
                } else {
                    depth -= 1;
                }
            } else if instr == start_instr {
                depth += 1;
            }
            match self.jump_relative(step) {
                Ok(_) => {},
                Err(_) => {
                    self.pc = origin;
                    proof {
                        lemma_block_end_none(code, start_instr, end_instr, origin as int, backward);
                    }
                    return Err(());
                },
            }
            proof {
                n = n + 1;
            }
        }
    }

    /// `>`: moves the data pointer one cell to the right, and adds a zero
    /// cell to the tape if it ended there.
    pub fn increment_data_ptr(&mut self)
        requires
            old(self).wf(),
        ensures
            final(self).wf(),
            final(self)@ == old(self)@.move_right(),
    {
        assert(self.memory.len() == self.memory@.len());
        self.ptr += 1;
        if self.ptr == self.memory.len() {
            self.memory.push_back(0);
        }
    }

    /// `<`: moves the data pointer one cell to the left. At the left end it
    /// puts a zero cell in front of the tape instead, and the pointer stays on
    /// index zero, which is now that cell.
    pub fn decrement_data_ptr(&mut self)
        requires
            old(self).wf(),
        ensures
            final(self).wf(),
            final(self)@ == old(self)@.move_left(),
    {
        if self.ptr > 0 {
            self.ptr -= 1;
        } else {
            self.memory.push_front(0);
        }
    }

    /// `[`: on a zero cell, moves the program counter to the matching `]`, so
    /// that the block is skipped once the program counter advances. On any
    /// other cell nothing changes. Where no `]` matches, it reports
    /// `UnmatchedForwardJump` and nothing changes; so it does with
    /// `PCOverflow` where the program counter is the largest `usize`, behind
    /// which no instruction can stand.
    pub fn cond_jump_forward(&mut self) -> (r: Result<(), VmError>)
        requires
            old(self).wf(),
        ensures
            final(self).wf(),
            old(self)@.pc < usize::MAX || old(self)@.cell() != 0 ==> (match old(self)@.forward_jump() {
                Ok(m) => r == Ok::<(), VmError>(()) && final(self)@ == m,
                Err(e) => r == Err::<(), VmError>(e) && final(self)@ == old(self)@,
            }),
            old(self)@.pc == usize::MAX && old(self)@.cell() == 0 ==> {
                &&& r == Err::<(), VmError>(VmError::PCOverflow)
                &&& final(self)@ == old(self)@
            },
    {
        if self.memory[self.ptr] == 0 {
            let origin = self.pc;
            match self.jump_relative(1) {
                Ok(_) => {},
                Err(e) => {
                    return Err(e);
                },
            }
            match self.jump_to_matching_instruction(JUMP_FORWARD, JUMP_BACKWARD, false) {
                Ok(_) => {},
                Err(_) => {
                    self.pc = origin;
                    return Err(VmError::UnmatchedForwardJump);
                },
            }
        }
        Ok(())
    }

    /// `]`: moves the program counter to the instruction before the matching
    /// `[`, so that the `[` is next once the program counter advances. Where
    /// no `[` matches, it reports `UnmatchedBackwardJump`; where the matching
    /// `[` is the first instruction, `PCUnderflow`. Either way nothing
    /// changes.
    pub fn jump_backward(&mut self) -> (r: Result<(), VmError>)
        requires
            old(self).wf(),
        ensures
            final(self).wf(),
            match old(self)@.backward_jump() {
                Ok(m) => r == Ok::<(), VmError>(()) && final(self)@ == m,
                Err(e) => r == Err::<(), VmError>(e) && final(self)@ == old(self)@,
            },
    {
        let origin = self.pc;
        match self.jump_relative(-1) {
            Ok(_) => {},
            Err(_) => {
                proof {
                    lemma_block_end_in_code(
                        self@.code,
                        JUMP_BACKWARD,
                        JUMP_FORWARD,
                        self@.pc - 1,
                        true,
                    );
                }
                return Err(VmError::UnmatchedBackwardJump);
            },
        }
        match self.jump_to_matching_instruction(JUMP_BACKWARD, JUMP_FORWARD, true) {
            Ok(_) => match self.jump_relative(-1) {
                Ok(_) => Ok(()),
                Err(e) => {
                    self.pc = origin;
                    Err(e)
                },
            },
            Err(_) => {
                self.pc = origin;
                Err(VmError::UnmatchedBackwardJump)
            },
        }
    }

    /// Executes the instruction at the program counter and advances the
    /// program counter. Where there is no instruction left it reports
    /// `PCOutOfScope`; where the instruction faults, the fault. In both cases
    /// nothing changes.
    pub fn step(&mut self) -> (r: Result<(), VmError>)
        requires
            old(self).wf(),
        ensures
            final(self).wf(),
            final(self)@ == old(self)@.step(),
            r == (if old(self)@.halted() {
                Err::<(), VmError>(VmError::PCOutOfScope)
            } else {
                match old(self)@.fault() {
                    Some(e) => Err::<(), VmError>(e),
                    None => Ok::<(), VmError>(()),
                }
            }),
    {
        let instr = match self.get_instruction() {
            Ok(i) => i,
            Err(e) => {
                return Err(e);
            },
        };
        proof {
            self.lemma_wf();
            lemma_block_end_in_code(self@.code, JUMP_FORWARD, JUMP_BACKWARD, self@.pc + 1, false);
            lemma_block_end_in_code(self@.code, JUMP_BACKWARD, JUMP_FORWARD, self@.pc - 1, true);
        }
        let ghost before = self@;
        if instr == MOVE_RIGHT {
            self.increment_data_ptr();
        } else if instr == MOVE_LEFT {
            self.decrement_data_ptr();
        } else if instr == INCREMENT {
            let value = self.memory[self.ptr].wrapping_add(1);
            write_cell(&mut self.memory, self.ptr, value);
        } else if instr == DECREMENT {
            let value = self.memory[self.ptr].wrapping_sub(1);
            write_cell(&mut self.memory, self.ptr, value);
        } else if instr == WRITE {
            self.output.push(self.memory[self.ptr]);
        } else if instr == READ {
            let ghost staged = self.input@;
            let value = match self.input.pop() {
                Some(byte) => byte,
                None => 0,
            };
            write_cell(&mut self.memory, self.ptr, value);
            assert(self@ == before.read()) by {
                if staged.len() > 0 {
                    assert(staged.drop_last().reverse() == staged.reverse().drop_first());
                }
            }
        } else if instr == JUMP_FORWARD {
            match self.cond_jump_forward() {
                Err(e) => {
                    return Err(e);
                },
                Ok(_) => {},
            }
        } else if instr == JUMP_BACKWARD {
            match self.jump_backward() {
                Err(e) => {
                    return Err(e);
                },
                Ok(_) => {},
            }
        }
        self.jump_relative(1)
    }

    /// Runs the program to its end and returns the output, or the fault that
    /// stopped it. To run past the last instruction is the regular end and no
    /// fault. The interpreter is left in the state in which it stopped: after
    /// the last instruction, or at the instruction that faulted, with
    /// everything written before it still in the output.
    ///
    /// A program that never stops keeps this function running for ever, so the
    /// caller has to know that it stops; `execute_within` asks for no such
    /// knowledge.
    pub fn execute(&mut self) -> (r: Result<&Vec<u8>, VmError>)
        requires
            old(self).wf(),
            old(self)@.terminates(),
        ensures
            final(self).wf(),
            final(self)@ == old(self)@.final_state(),
            match r {
                Ok(out) => final(self)@.halted() && out@ == final(self)@.output,
                Err(e) => {
                    &&& !final(self)@.halted()
                    &&& final(self)@.fault() == Some(e)
                    &&& e != VmError::PCOutOfScope
                },
            },
    {
        let ghost start = self@;
        let ghost mut done: nat = 0;
        let ghost mut left: nat = choose|n: nat| start.run(n).stopped();
        loop
            invariant
                self.wf(),
                start == old(self)@,
                self@ == start.run(done),
                self@.run(left).stopped(),
            decreases left,
        {
            match self.step() {
                Ok(_) => {
                    proof {
                        start.lemma_run_next(done);
                        done = done + 1;
                        left = (left - 1) as nat;
                    }
                },
                Err(e) => {
                    proof {
                        start.lemma_final_state(done);
                    }
                    match e {
                        VmError::PCOutOfScope => {
                            return Ok(&self.output);
                        },
                        _ => {
                            return Err(e);
                        },
                    }
                },
            }
        }
    }

    /// Runs the program for at most `limit` instructions. Returns what
    /// `execute` returns if the program stopped before the limit was used up,
    /// and `None` after `limit` instructions otherwise; the interpreter can
    /// then be run further.
    pub fn execute_within(&mut self, limit: usize) -> (r: Option<Result<&Vec<u8>, VmError>>)
        requires
            old(self).wf(),
        ensures
            final(self).wf(),
            final(self)@ == old(self)@.run(limit as nat),
            r is Some <==> limit > 0 && old(self)@.run((limit - 1) as nat).stopped(),
            match r {
                Some(Ok(out)) => final(self)@.halted() && out@ == final(self)@.output,
                Some(Err(e)) => {
                    &&& !final(self)@.halted()
                    &&& final(self)@.fault() == Some(e)
                    &&& e != VmError::PCOutOfScope
                },
                None => true,
            },
    {
        let ghost start = self@;
        let mut done: usize = 0;
        while done < limit
            invariant
                self.wf(),
                start == old(self)@,
                done <= limit,
                self@ == start.run(done as nat),
                done > 0 ==> !start.run((done - 1) as nat).stopped(),
            decreases limit - done,
        {
            match self.step() {
                Ok(_) => {
                    proof {
                        start.lemma_run_next(done as nat);
                    }
                    done += 1;
                },
                Err(e) => {
                    proof {
                        start.lemma_run_split(done as nat, (limit - done) as nat);
                        start.run(done as nat).lemma_stopped_stays((limit - done) as nat);
                        start.lemma_run_split(done as nat, (limit - 1 - done) as nat);
                        start.run(done as nat).lemma_stopped_stays((limit - 1 - done) as nat);
                    }
                    match e {
                        VmError::PCOutOfScope => {
                            return Some(Ok(&self.output));
                        },
                        _ => {
                            return Some(Err(e));
                        },
                    }
                },
            }
        }
        None
    }
}

} // verus!
