//! A small stack-based virtual machine: an assembler that turns line-oriented
//! mnemonic text into a resolved instruction sequence, and a machine that runs
//! that sequence against a fixed-capacity stack of tagged words.
//!
//! Floating-point work (parsing float literals, float arithmetic, rendering
//! floats) is not done here: a float is carried as its IEEE-754 binary64 bit
//! pattern, and the caller supplies the arithmetic and the literal parser as
//! closures. Everything else, including float comparisons, is verified.
use vstd::prelude::*;

pub mod assembler;
pub mod error;
pub mod ins;
pub mod machine;
pub mod text;
pub mod word;

pub use error::MachineError;
pub use ins::Ins;
pub use machine::{Machine, MachineView, RunReport, Stop};
pub use word::{ArithOp, Word};
