//! The interpreter as a mathematical machine: its state, what each
//! instruction does to it, and what a run is.

use crate::brackets::{block_end, lemma_block_end_in_code};
use crate::error::VmError;
use vstd::prelude::*;

verus! {

/// `>`: move the data pointer one cell to the right.
pub const MOVE_RIGHT: u8 = 62;

/// `<`: move the data pointer one cell to the left.
pub const MOVE_LEFT: u8 = 60;

/// `+`: add one to the current cell.
pub const INCREMENT: u8 = 43;

/// `-`: subtract one from the current cell.
pub const DECREMENT: u8 = 45;

/// `.`: append the current cell to the output.
pub const WRITE: u8 = 46;

/// `,`: store the next input byte in the current cell.
pub const READ: u8 = 44;

/// `[`: skip the block if the current cell is zero.
pub const JUMP_FORWARD: u8 = 91;

/// `]`: go back to the `[` that opened the block.
pub const JUMP_BACKWARD: u8 = 93;

/// The index of the `]` that matches the `[` at `open`: the first `]` after
/// it that closes no block opened in between.
pub open spec fn matching_close(code: Seq<u8>, open: int) -> Option<int> {
    block_end(code, JUMP_FORWARD, JUMP_BACKWARD, open + 1, false)
}

/// The index of the `[` that matches the `]` at `close`: the last `[` before
/// it that opens no block closed in between.
pub open spec fn matching_open(code: Seq<u8>, close: int) -> Option<int> {
    block_end(code, JUMP_BACKWARD, JUMP_FORWARD, close - 1, true)
}

/// The state of the interpreter as a mathematical value.
pub struct Machine {
    /// The program. It never changes.
    pub code: Seq<u8>,
    /// The cells that exist so far, leftmost first.
    pub tape: Seq<u8>,
    /// The index in `tape` of the current cell.
    pub ptr: int,
    /// The index in `code` of the next instruction.
    pub pc: int,
    /// The input that has not been read yet, next byte first.
    pub input: Seq<u8>,
    /// Everything written so far, oldest byte first.
    pub output: Seq<u8>,
}

impl Machine {
    /// The state before the first instruction: one zero cell, the pointer on
    /// it, nothing read and nothing written.
    pub open spec fn start(code: Seq<u8>, input: Seq<u8>) -> Machine {
        Machine { code, tape: seq![0u8], ptr: 0, pc: 0, input, output: Seq::empty() }
    }

    /// The data pointer is on a cell of the tape and the program counter is
    /// not negative.
    pub open spec fn wf(self) -> bool {
        &&& 0 <= self.ptr < self.tape.len()
        &&& 0 <= self.pc
    }

    /// The program counter is past the last instruction: the run is over.
    pub open spec fn halted(self) -> bool {
        self.pc >= self.code.len()
    }

    /// The value of the current cell.
    pub open spec fn cell(self) -> u8 {
        self.tape[self.ptr]
    }

    /// The same state with the program counter at `pc`.
    pub open spec fn at(self, pc: int) -> Machine {
        Machine { pc, ..self }
    }

    /// The same state with `value` in the current cell.
    pub open spec fn store(self, value: u8) -> Machine {
        Machine { tape: self.tape.update(self.ptr, value), ..self }
    }

    /// The pointer one cell further right; a new zero cell if the tape ended
    /// there.
    pub open spec fn move_right(self) -> Machine {
        Machine {
            tape: if self.ptr + 1 == self.tape.len() {
                self.tape.push(0u8)
            } else {
                self.tape
            },
            ptr: self.ptr + 1,
            ..self
        }
    }

    /// The pointer one cell further left. At the left end a new zero cell is
    /// put in front, so that every cell keeps its place relative to the others.
    pub open spec fn move_left(self) -> Machine {
        if self.ptr > 0 {
            Machine { ptr: self.ptr - 1, ..self }
        } else {
            Machine { tape: seq![0u8] + self.tape, ..self }
        }
    }

    /// The current cell plus one, modulo 256.
    pub open spec fn increment(self) -> Machine {
        self.store(
            if self.cell() == 255 {
                0u8
            } else {
                (self.cell() + 1) as u8
            },
        )
    }

    /// The current cell minus one, modulo 256.
    pub open spec fn decrement(self) -> Machine {
        self.store(
            if self.cell() == 0 {
                255u8
            } else {
                (self.cell() - 1) as u8
            },
        )
    }

    /// The current cell appended to the output.
    pub open spec fn write(self) -> Machine {
        Machine { output: self.output.push(self.cell()), ..self }
    }

    /// The next input byte moved into the current cell; zero once the input
    /// is used up.
    pub open spec fn read(self) -> Machine {
        if self.input.len() > 0 {
            Machine { input: self.input.drop_first(), ..self }.store(self.input[0])
        } else {
            self.store(0u8)
        }
    }

    /// What `[` does before the program counter advances. On a non-zero cell
    /// nothing; on a zero cell the program counter goes to the `]` that ends
    /// the block, which is an error if there is none.
    pub open spec fn forward_jump(self) -> Result<Machine, VmError> {
        if self.cell() != 0 {
            Ok(self)
        } else {
            match matching_close(self.code, self.pc) {
                Some(close) => Ok(self.at(close)),
                None => Err(VmError::UnmatchedForwardJump),
            }
        }
    }

    /// What `]` does before the program counter advances: the program counter
    /// goes to the instruction before the `[` that opened the block. It is an
    /// error if there is no such `[`, or if it is the first instruction, which
    /// has nothing before it. A run from the start never meets the second
    /// error, because it never enters a block that begins the program.
    pub open spec fn backward_jump(self) -> Result<Machine, VmError> {
        match matching_open(self.code, self.pc) {
            Some(open) => if open == 0 {
                Err(VmError::PCUnderflow)
            } else {
                Ok(self.at(open - 1))
            },
            None => Err(VmError::UnmatchedBackwardJump),
        }
    }

    /// What an instruction other than `[` and `]` does before the program
    /// counter advances. A byte that is no instruction does nothing.
    pub open spec fn perform(self, instr: u8) -> Machine {
        if instr == MOVE_RIGHT {
            self.move_right()
        } else if instr == MOVE_LEFT {
            self.move_left()
        } else if instr == INCREMENT {
            self.increment()
        } else if instr == DECREMENT {
            self.decrement()
        } else if instr == WRITE {
            self.write()
        } else if instr == READ {
            self.read()
        } else {
            self
        }
    }

    /// What the instruction at the program counter does before the program
    /// counter advances.
    pub open spec fn effect(self) -> Result<Machine, VmError> {
        let instr = self.code[self.pc];
        if instr == JUMP_FORWARD {
            self.forward_jump()
        } else if instr == JUMP_BACKWARD {
            self.backward_jump()
        } else {
            Ok(self.perform(instr))
        }
    }

    /// The fault that the next instruction runs into, if any.
    pub open spec fn fault(self) -> Option<VmError> {
        if self.halted() {
            None
        } else {
            match self.effect() {
                Ok(_) => None,
                Err(e) => Some(e),
            }
        }
    }

    /// No further instruction can be executed: the run is over or the next
    /// instruction faults.
    pub open spec fn stopped(self) -> bool {
        self.halted() || self.fault() is Some
    }

    /// The state after the next instruction. A stopped machine stays as it is.
    pub open spec fn step(self) -> Machine {
        if self.halted() {
            self
        } else {
            match self.effect() {
                Ok(m) => m.at(m.pc + 1),
                Err(_) => self,
            }
        }
    }

    /// The state after `n` steps.
    pub open spec fn run(self, n: nat) -> Machine
        decreases n,
    {
        if n == 0 {
            self
        } else {
            self.step().run((n - 1) as nat)
        }
    }

    /// The machine stops after finitely many steps.
    pub open spec fn terminates(self) -> bool {
        exists|n: nat| self.run(n).stopped()
    }

    /// The state in which the machine stops, if it terminates.
    pub open spec fn final_state(self) -> Machine {
        self.run(choose|n: nat| self.run(n).stopped())
    }

    /// A step keeps the pointer on the tape and the program counter
    /// non-negative, and never changes the program.
    pub proof fn lemma_step_wf(self)
        requires
            self.wf(),
        ensures
            self.step().wf(),
            self.step().code == self.code,
    {
        lemma_block_end_in_code(self.code, JUMP_FORWARD, JUMP_BACKWARD, self.pc + 1, false);
        lemma_block_end_in_code(self.code, JUMP_BACKWARD, JUMP_FORWARD, self.pc - 1, true);
    }

    /// Any number of steps keeps the state well formed and the program as it
    /// was.
    pub proof fn lemma_run_wf(self, n: nat)
        requires
            self.wf(),
        ensures
            self.run(n).wf(),
            self.run(n).code == self.code,
        decreases n,
    {
        if n > 0 {
            self.lemma_step_wf();
            self.step().lemma_run_wf((n - 1) as nat);
        }
    }

    /// Running `a` steps and then `b` more is running `a + b` steps.
    pub proof fn lemma_run_split(self, a: nat, b: nat)
        ensures
            self.run(a + b) == self.run(a).run(b),
        decreases a,
    {
        if a > 0 {
            self.step().lemma_run_split((a - 1) as nat, b);
        }
    }

    /// One more step after `n` steps is `n + 1` steps.
    pub proof fn lemma_run_next(self, n: nat)
        ensures
            self.run(n + 1) == self.run(n).step(),
    {
        self.lemma_run_split(n, 1);
        assert(self.run(n).run(1) == self.run(n).step().run(0));
    }

    /// A stopped machine never moves again: whatever stopped it, stops it
    /// every time.
    pub proof fn lemma_stopped_stays(self, n: nat)
        requires
            self.stopped(),
        ensures
            self.run(n) == self,
        decreases n,
    {
        if n > 0 {
            self.lemma_stopped_stays((n - 1) as nat);
        }
    }

    /// A run has one end: if the machine has stopped after `n` steps, then
    /// that state is its final state, however many steps are counted.
    pub proof fn lemma_final_state(self, n: nat)
        requires
            self.run(n).stopped(),
        ensures
            self.terminates(),
            self.final_state() == self.run(n),
    {
        let k = choose|k: nat| self.run(k).stopped();
        if k <= n {
            self.lemma_run_split(k, (n - k) as nat);
            self.run(k).lemma_stopped_stays((n - k) as nat);
        } else {
            self.lemma_run_split(n, (k - n) as nat);
            self.run(n).lemma_stopped_stays((k - n) as nat);
        }
    }

    /// A machine that has stopped is at the end of its run: run again, it
    /// gives the same output or the same fault.
    pub proof fn lemma_stopped_is_final(self)
        requires
            self.stopped(),
        ensures
            self.terminates(),
            self.final_state() == self,
    {
        self.lemma_final_state(0);
    }
}

} // verus!
