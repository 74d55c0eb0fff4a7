use vstd::prelude::*;
use vstd::arithmetic::div_mod::{lemma_add_mod_noop, lemma_add_mod_noop_right, lemma_small_mod};

use crate::error::Error;
use crate::op::Op;

verus! {

/// Number of cells on the tape.
pub const TAPE_LEN: usize = 30000;

/// The state of one execution, as the semantics sees it.
pub struct Config {
    /// Index of the next instruction.
    pub pc: int,
    /// Index of the current cell.
    pub ptr: int,
    pub tape: Seq<u8>,
    /// How many input bytes have been read so far.
    pub consumed: int,
    /// Every byte written so far, in order.
    pub out: Seq<u8>,
    /// Set when the pointer would have left the tape; the run stops there.
    pub fault: bool,
}

/// A cell after adding `d` to it, modulo 256.
pub open spec fn cell_add(c: u8, d: int) -> u8 {
    ((c as int + d) % 256) as u8
}

/// Every run starts here: first instruction, first cell, a zeroed tape.
pub open spec fn initial() -> Config {
    Config {
        pc: 0,
        ptr: 0,
        tape: Seq::new(TAPE_LEN as nat, |i: int| 0u8),
        consumed: 0,
        out: Seq::empty(),
        fault: false,
    }
}

/// A run has stopped: it ran past its last instruction, or it faulted.
pub open spec fn finished(ops: Seq<Op>, c: Config) -> bool {
    c.fault || c.pc >= ops.len()
}

/// Where a taken jump to `target` leaves the program counter: just past the
/// target, or past the end when the target lies outside the program.
pub open spec fn jump(ops: Seq<Op>, target: usize) -> int {
    if target < ops.len() {
        target + 1
    } else {
        ops.len() as int
    }
}

/// One step of the interpreter; a finished run stays as it is.
pub open spec fn step(ops: Seq<Op>, input: Seq<u8>, c: Config) -> Config {
    if finished(ops, c) {
        c
    } else {
        let cell = c.tape[c.ptr];
        let next = Config { pc: c.pc + 1, ..c };
        match ops[c.pc] {
            Op::PointerMove(d) => {
                if 0 <= c.ptr + d < TAPE_LEN {
                    Config { ptr: c.ptr + d, ..next }
                } else {
                    Config { fault: true, ..c }
                }
            },
            Op::CellAdd(d) => Config { tape: c.tape.update(c.ptr, cell_add(cell, d as int)), ..next },
            Op::Write => Config { out: c.out.push(cell), ..next },
            Op::Read => {
                if c.consumed < input.len() {
                    Config {
                        tape: c.tape.update(c.ptr, input[c.consumed]),
                        consumed: c.consumed + 1,
                        ..next
                    }
                } else {
                    next
                }
            },
            Op::JumpIfZero(t) => {
                if cell == 0 {
                    Config { pc: jump(ops, t), ..c }
                } else {
                    next
                }
            },
            Op::JumpIfNotZero(t) => {
                if cell != 0 {
                    Config { pc: jump(ops, t), ..c }
                } else {
                    next
                }
            },
        }
    }
}

/// The state after `n` steps from the initial one.
pub open spec fn run_for(ops: Seq<Op>, input: Seq<u8>, n: nat) -> Config
    decreases n,
{
    if n == 0 {
        initial()
    } else {
        step(ops, input, run_for(ops, input, (n - 1) as nat))
    }
}

/// The total of a sequence of cell increments.
pub open spec fn total(ds: Seq<int>) -> int
    decreases ds.len(),
{
    if ds.len() == 0 {
        0
    } else {
        total(ds.drop_last()) + ds.last()
    }
}

/// A cell after the increments `ds`, applied one after another.
pub open spec fn add_each(c: u8, ds: Seq<int>) -> u8
    decreases ds.len(),
{
    if ds.len() == 0 {
        c
    } else {
        cell_add(add_each(c, ds.drop_last()), ds.last())
    }
}

/// Cell arithmetic wraps modulo 256: increments applied one by one leave the
/// cell where their total, added at once, would.
pub proof fn lemma_adds_wrap(c: u8, ds: Seq<int>)
    ensures
        add_each(c, ds) == cell_add(c, total(ds)),
    decreases ds.len(),
{
    if ds.len() > 0 {
        lemma_adds_wrap(c, ds.drop_last());
        let t = total(ds.drop_last());
        let x = c as int + t;
        lemma_add_mod_noop(x, ds.last(), 256);
        lemma_small_mod((x % 256) as nat, 256);
        lemma_add_mod_noop(x % 256, ds.last(), 256);
    }
}

/// Increments that total 256 bring a zero cell back to zero, and
/// increments that total -1 take it to 255.
pub proof fn lemma_wrap_examples(ds: Seq<int>)
    ensures
        total(ds) == 256 ==> add_each(0, ds) == 0,
        total(ds) == -1 ==> add_each(0, ds) == 255,
{
    lemma_adds_wrap(0, ds);
}

/// Once a run has finished, further steps change nothing.
pub proof fn lemma_finished_stays(ops: Seq<Op>, input: Seq<u8>, m: nat, n: nat)
    requires
        m <= n,
        finished(ops, run_for(ops, input, m)),
    ensures
        run_for(ops, input, n) == run_for(ops, input, m),
    decreases n,
{
    if n > m {
        lemma_finished_stays(ops, input, m, (n - 1) as nat);
    }
}

/// Runs `ops` for at most `fuel` steps on `input`, appending what it writes
/// to `output`. Returns `Ok(true)` when the run went past its last
/// instruction, `Ok(false)` when the fuel ran out first, and
/// `Err(OutOfBounds)` when the pointer would have left the tape; what was
/// written before that stays in `output`.
pub fn run(input: &[u8], output: &mut Vec<u8>, ops: &[Op], fuel: u64) -> (r: Result<bool, Error>)
    ensures
        final(output)@ == old(output)@ + run_for(ops@, input@, fuel as nat).out,
        r == (if run_for(ops@, input@, fuel as nat).fault {
            Err::<bool, Error>(Error::OutOfBounds)
        } else {
            Ok::<bool, Error>(run_for(ops@, input@, fuel as nat).pc >= ops@.len())
        }),
{
    let ghost start = output@;
    let mut tape: Vec<u8> = Vec::new();
    let mut k: usize = 0;
    while k < TAPE_LEN
        invariant
            k <= TAPE_LEN,
            tape@.len() == k,
            forall|q: int| 0 <= q < k ==> tape@[q] == 0u8,
        decreases TAPE_LEN - k,
    {
        tape.push(0u8);
        k = k + 1;
    }
    assert(tape@ =~= initial().tape);
    let mut pc: usize = 0;
    let mut ptr: usize = 0;
    let mut consumed: usize = 0;
    let mut steps: u64 = 0;
    while steps < fuel
        invariant
            steps <= fuel,
            tape@.len() == TAPE_LEN,
            ptr < TAPE_LEN,
            pc <= ops@.len(),
            consumed <= input@.len(),
            run_for(ops@, input@, steps as nat) == (Config {
                pc: pc as int,
                ptr: ptr as int,
                tape: tape@,
                consumed: consumed as int,
                out: run_for(ops@, input@, steps as nat).out,
                fault: false,
            }),
            output@ == start + run_for(ops@, input@, steps as nat).out,
            start == old(output)@,
        decreases fuel - steps,
    {
        let ghost c = run_for(ops@, input@, steps as nat);
        if pc >= ops.len() {
            proof {
                lemma_finished_stays(ops@, input@, steps as nat, fuel as nat);
            }
            return Ok(true);
        }
        assert(run_for(ops@, input@, (steps + 1) as nat) == step(ops@, input@, c));
        let cell = tape[ptr];
        match ops[pc] {
            Op::PointerMove(d) => {
                if d >= 0 {
                    if d as u64 >= (TAPE_LEN - ptr) as u64 {
                        proof {
                            lemma_finished_stays(ops@, input@, (steps + 1) as nat, fuel as nat);
                        }
                        return Err(Error::OutOfBounds);
                    }
                    ptr = ptr + d as usize;
                } else {
                    if d < -(ptr as i64) {
                        proof {
                            lemma_finished_stays(ops@, input@, (steps + 1) as nat, fuel as nat);
                        }
                        return Err(Error::OutOfBounds);
                    }
                    ptr = ptr - (-d) as usize;
                }
                pc = pc + 1;
            },
            Op::CellAdd(d) => {
                match d.checked_rem_euclid(256) {
                    Some(m) => {
                        let v = ((cell as u16 + m as u16) % 256) as u8;
                        proof {
                            lemma_add_mod_noop_right(cell as int, d as int, 256);
                        }
                        assert(v == cell_add(cell, d as int));
                        tape.set(ptr, v);
                    },
                    // never taken: 256 is neither zero nor -1
                    None => {},
                }
                pc = pc + 1;
            },
            Op::Write => {
                output.push(cell);
                pc = pc + 1;
            },
            Op::Read => {
                if consumed < input.len() {
                    tape.set(ptr, input[consumed]);
                    consumed = consumed + 1;
                }
                pc = pc + 1;
            },
            Op::JumpIfZero(t) => {
                if cell == 0 {
                    pc = if t < ops.len() { t + 1 } else { ops.len() };
                } else {
                    pc = pc + 1;
                }
            },
            Op::JumpIfNotZero(t) => {
                if cell != 0 {
                    pc = if t < ops.len() { t + 1 } else { ops.len() };
                } else {
                    pc = pc + 1;
                }
            },
        }
        steps = steps + 1;
        assert(output@ =~= start + run_for(ops@, input@, steps as nat).out);
    }
    Ok(pc >= ops.len())
}

} // verus!
