use vstd::prelude::*;

verus! {

/// Why a program could not be parsed or run.
#[derive(Debug, Clone, Copy, PartialEq, Eq, Structural)]
pub enum Error {
    /// An open bracket without its close, or a close without its open.
    BracketMismatch,
    /// A symbol outside the instruction alphabet reached the parser.
    InvalidInstruction,
    /// The data pointer left the tape.
    OutOfBounds,
}

} // verus!
