use vstd::prelude::*;

verus! {

/// One instruction of the canonical program representation.
///
/// A bracket instruction holds the index of its partner instruction; the
/// program counter is advanced past it after every step, taken or not.
#[derive(Debug, Clone, Copy, PartialEq, Eq, Structural)]
pub enum Op {
    /// Move the data pointer by the given signed amount.
    PointerMove(i64),
    /// Add the given signed amount to the current cell, modulo 256.
    CellAdd(i64),
    /// Write the current cell as one byte.
    Write,
    /// Read one byte into the current cell; a no-op when input is exhausted.
    Read,
    /// Jump to the given index when the current cell is zero.
    JumpIfZero(usize),
    /// Jump to the given index when the current cell is not zero.
    JumpIfNotZero(usize),
}

} // verus!
