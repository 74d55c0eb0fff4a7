use vstd::prelude::*;

use crate::op::Op;
use crate::vm::TAPE_LEN;

verus! {

/// Start of every program: the zeroed tape, then the entry point.
pub const PROLOGUE_HEAD: &'static str = "\nSECTION .data\ndata_array times ";

pub const PROLOGUE_TAIL: &'static str = " db 0\n\nSECTION .text\nglobal  _start\n\n_start:\n";

/// End of every program: exit with status zero.
pub const EPILOGUE: &'static str = "\n    mov ebx, 0 ; error_code\n    mov eax, 1 ; SYSCALL_EXIT\n    int 80h\n";

/// Writes the current cell to standard output, one byte.
pub const WRITE_ASM: &'static str = "\n    ; write one byte from the current cell\n    mov ecx, esi ; buf\n    add ecx, data_array\n    mov edx, 1 ; count\n    mov ebx, 1 ; fd STDOUT_FILENO\n    mov eax, 4 ; SYSCALL_WRITE\n    int 80h\n";

/// Reads one byte from standard input into the current cell; at end of
/// input the system call reads nothing and the cell keeps its value.
pub const READ_ASM: &'static str = "\n    ; read one byte into the current cell\n    mov ecx, esi ; buf\n    add ecx, data_array\n    mov edx, 1 ; count\n    mov ebx, 0 ; fd STDIN_FILENO\n    mov eax, 3 ; SYSCALL_READ\n    int 80h\n";

pub const ADD_PTR: &'static str = "    add esi, ";

pub const SUB_PTR: &'static str = "    sub esi, ";

pub const ADD_CELL: &'static str = "    add byte [data_array+esi], ";

pub const SUB_CELL: &'static str = "    sub byte [data_array+esi], ";

pub const JUMP_ZERO: &'static str = "\n    cmp byte [data_array+esi], 0\n    je jump_dest_";

pub const JUMP_NOT_ZERO: &'static str = "\n    cmp byte [data_array+esi], 0\n    jne jump_dest_";

pub const LABEL: &'static str = "\njump_dest_";

pub const LABEL_END: &'static str = ":\n";

pub const NEWLINE: &'static str = "\n";

/// The text of one decimal digit.
pub open spec fn digit_text(d: nat) -> Seq<char> {
    if d == 0 {
        "0"@
    } else if d == 1 {
        "1"@
    } else if d == 2 {
        "2"@
    } else if d == 3 {
        "3"@
    } else if d == 4 {
        "4"@
    } else if d == 5 {
        "5"@
    } else if d == 6 {
        "6"@
    } else if d == 7 {
        "7"@
    } else if d == 8 {
        "8"@
    } else {
        "9"@
    }
}

/// `n` in decimal, without leading zeros.
pub open spec fn decimal(n: nat) -> Seq<char>
    decreases n,
{
    if n < 10 {
        digit_text(n)
    } else {
        decimal(n / 10) + digit_text(n % 10)
    }
}

pub open spec fn magnitude(d: i64) -> nat {
    if d >= 0 {
        d as nat
    } else {
        (-d) as nat
    }
}

/// The assembly for the instruction at position `i`. A bracket at `i`
/// places the label `jump_dest_i` right after its test, so a jump to the
/// label of the partner lands just past the partner.
pub open spec fn op_text(i: nat, op: Op) -> Seq<char> {
    match op {
        Op::PointerMove(d) => (if d >= 0 {
            ADD_PTR@
        } else {
            SUB_PTR@
        }) + decimal(magnitude(d)) + NEWLINE@,
        Op::CellAdd(d) => (if d >= 0 {
            ADD_CELL@
        } else {
            SUB_CELL@
        }) + decimal(magnitude(d) % 256) + NEWLINE@,
        Op::Write => WRITE_ASM@,
        Op::Read => READ_ASM@,
        Op::JumpIfZero(t) => JUMP_ZERO@ + decimal(t as nat) + LABEL@ + decimal(i) + LABEL_END@,
        Op::JumpIfNotZero(t) => JUMP_NOT_ZERO@ + decimal(t as nat) + LABEL@ + decimal(i)
            + LABEL_END@,
    }
}

/// The assembly for the first `n` instructions, in order.
pub open spec fn body_text(ops: Seq<Op>, n: nat) -> Seq<char>
    decreases n,
{
    if n == 0 {
        Seq::empty()
    } else {
        body_text(ops, (n - 1) as nat) + op_text((n - 1) as nat, ops[n - 1])
    }
}

/// The whole assembly file for `ops`.
pub open spec fn asm_text(ops: Seq<Op>) -> Seq<char> {
    PROLOGUE_HEAD@ + decimal(TAPE_LEN as nat) + PROLOGUE_TAIL@ + body_text(ops, ops.len()) + EPILOGUE@
}

fn digit_str(d: u64) -> (r: &'static str)
    requires
        d < 10,
    ensures
        r@ == digit_text(d as nat),
{
    if d == 0 {
        "0"
    } else if d == 1 {
        "1"
    } else if d == 2 {
        "2"
    } else if d == 3 {
        "3"
    } else if d == 4 {
        "4"
    } else if d == 5 {
        "5"
    } else if d == 6 {
        "6"
    } else if d == 7 {
        "7"
    } else if d == 8 {
        "8"
    } else {
        "9"
    }
}

/// Appends `n` in decimal to `s`.
fn push_decimal(s: &mut String, n: u64)
    ensures
        final(s)@ == old(s)@ + decimal(n as nat),
    decreases n,
{
    if n >= 10 {
        push_decimal(s, n / 10);
    }
    s.append(digit_str(n % 10));
    assert(final(s)@ =~= old(s)@ + decimal(n as nat));
}

fn abs_of(d: i64) -> (r: u64)
    ensures
        r == magnitude(d),
{
    if d >= 0 {
        d as u64
    } else {
        (-(d + 1)) as u64 + 1
    }
}

/// Appends the assembly for the instruction `op` at position `i`.
fn push_op(s: &mut String, i: usize, op: Op)
    ensures
        final(s)@ == old(s)@ + op_text(i as nat, op),
{
    let ghost start = s@;
    match op {
        Op::PointerMove(d) => {
            s.append(if d >= 0 { ADD_PTR } else { SUB_PTR });
            push_decimal(s, abs_of(d));
            s.append(NEWLINE);
        },
        Op::CellAdd(d) => {
            s.append(if d >= 0 { ADD_CELL } else { SUB_CELL });
            push_decimal(s, abs_of(d) % 256);
            s.append(NEWLINE);
        },
        Op::Write => s.append(WRITE_ASM),
        Op::Read => s.append(READ_ASM),
        Op::JumpIfZero(t) => {
            s.append(JUMP_ZERO);
            push_decimal(s, t as u64);
            s.append(LABEL);
            push_decimal(s, i as u64);
            s.append(LABEL_END);
        },
        Op::JumpIfNotZero(t) => {
            s.append(JUMP_NOT_ZERO);
            push_decimal(s, t as u64);
            s.append(LABEL);
            push_decimal(s, i as u64);
            s.append(LABEL_END);
        },
    }
    assert(s@ =~= start + op_text(i as nat, op));
}

/// Turns `ops` into 32-bit x86 assembly (NASM syntax, Linux system
/// calls). `esi` holds the data pointer and `data_array` is the tape; each
/// instruction becomes the text `op_text` gives for its position.
pub fn compile(ops: Vec<Op>) -> (r: String)
    ensures
        r@ == asm_text(ops@),
{
    let mut s = String::new();
    s.append(PROLOGUE_HEAD);
    push_decimal(&mut s, TAPE_LEN as u64);
    s.append(PROLOGUE_TAIL);
    let ghost head = s@;
    let mut i: usize = 0;
    while i < ops.len()
        invariant
            i <= ops@.len(),
            s@ == head + body_text(ops@, i as nat),
        decreases ops.len() - i,
    {
        push_op(&mut s, i, ops[i]);
        assert(s@ =~= head + body_text(ops@, (i + 1) as nat));
        i = i + 1;
    }
    s.append(EPILOGUE);
    assert(s@ =~= asm_text(ops@));
    s
}

} // verus!
