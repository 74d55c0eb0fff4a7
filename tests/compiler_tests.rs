use bfc::compiler::compile;
use bfc::op::Op;
use bfc::parser::parse;

#[test]
fn frame_holds_tape_and_exit() {
    let text = compile(vec![]);
    assert!(text.starts_with("\nSECTION .data\ndata_array times 30000 db 0\n"));
    assert!(text.contains("_start:\n"));
    assert!(text.ends_with("mov eax, 1 ; SYSCALL_EXIT\n    int 80h\n"));
}

#[test]
fn cell_adds_pick_add_or_sub() {
    let text = compile(parse("+++.").unwrap());
    assert!(text.contains("    add byte [data_array+esi], 3\n"));
    assert!(text.contains("SYSCALL_WRITE"));
    let text = compile(vec![Op::CellAdd(-300)]);
    assert!(text.contains("    sub byte [data_array+esi], 44\n"));
}

#[test]
fn pointer_moves_pick_add_or_sub() {
    let text = compile(vec![Op::PointerMove(12), Op::PointerMove(-1234567)]);
    assert!(text.contains("    add esi, 12\n    sub esi, 1234567\n"));
    let text = compile(vec![Op::PointerMove(i64::MIN)]);
    assert!(text.contains("    sub esi, 9223372036854775808\n"));
}

#[test]
fn read_uses_stdin() {
    let text = compile(parse(",").unwrap());
    assert!(text.contains("mov ebx, 0 ; fd STDIN_FILENO"));
    assert!(text.contains("SYSCALL_READ"));
}

#[test]
fn bracket_labels_pair_up() {
    let text = compile(parse("+[-]").unwrap());
    assert!(text.contains("    je jump_dest_3\njump_dest_1:\n"));
    assert!(text.contains("    jne jump_dest_1\njump_dest_3:\n"));
}
