//! The errors of the interpreter.

use vstd::prelude::*;

verus! {

/// What stops the interpreter from fetching or finishing an instruction.
#[derive(Debug, Clone, Copy, PartialEq, Eq, Structural)]
pub enum VmError {
    /// The program counter is past the last instruction. A run that ends this
    /// way has ended normally; only fetching an instruction reports it.
    PCOutOfScope,
    /// Moving the program counter would take it past the largest index.
    PCOverflow,
    /// Moving the program counter would take it below zero.
    PCUnderflow,
    /// A `[` has no matching `]` after it.
    UnmatchedForwardJump,
    /// A `]` has no matching `[` before it.
    UnmatchedBackwardJump,
}

impl VmError {
    /// The text that describes this error.
    pub open spec fn text(self) -> Seq<char> {
        match self {
            VmError::PCOutOfScope => "Vm Error: PC out of scope."@,
            VmError::PCOverflow => "Vm Error: PC overflow."@,
            VmError::PCUnderflow => "Vm Error: PC underflow."@,
            VmError::UnmatchedForwardJump => "Vm Error: Unmatched forward jump."@,
            VmError::UnmatchedBackwardJump => "Vm Error: Unmatched backward jump."@,
        }
    }

    /// Describes the error in words.
    pub fn message(&self) -> (s: String)
        ensures
            s@ == self.text(),
    {
        match self {
            VmError::PCOutOfScope => "Vm Error: PC out of scope.".to_owned(),
            VmError::PCOverflow => "Vm Error: PC overflow.".to_owned(),
            VmError::PCUnderflow => "Vm Error: PC underflow.".to_owned(),
            VmError::UnmatchedForwardJump => "Vm Error: Unmatched forward jump.".to_owned(),
            VmError::UnmatchedBackwardJump => "Vm Error: Unmatched backward jump.".to_owned(),
        }
    }
}

} // verus!
