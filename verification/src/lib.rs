//! An interpreter for an eight-instruction tape language.
//!
//! A program is a sequence of bytes. Eight of them are instructions that act
//! on a tape of byte cells, a data pointer, an input stream and an output
//! stream; every other byte is skipped. The tape grows by one zero cell
//! whenever the pointer leaves it on either side.
//!
//! [`Machine`] is the mathematical model of the interpreter and defines what
//! each instruction does. [`Vm`] is the executable interpreter; every method
//! of it is proved to follow the model. One thing is taken on trust: that an
//! assignment to an element of a `VecDeque` replaces that element and no
//! other.

pub mod brackets;
pub mod error;
pub mod jump_laws;
pub mod machine;
pub mod program_laws;
pub mod tape_laws;
pub mod vm;

pub use error::VmError;
pub use machine::Machine;
pub use vm::{relative_target, Vm};
