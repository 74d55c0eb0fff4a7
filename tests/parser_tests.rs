use bfc::error::Error;
use bfc::op::Op;
use bfc::parser::{bracket_jump_table, map_bracket_jumps, optimize, parse, tokenize, Instr};

#[test]
fn comments_are_ignored() {
    let ops = parse("a+b+c").unwrap();
    assert_eq!(ops, vec![Op::CellAdd(2)]);
}

#[test]
fn tokenize_maps_each_symbol() {
    let t = tokenize("><+-.,[]x");
    assert_eq!(
        t,
        vec![
            Instr::Move(1),
            Instr::Move(-1),
            Instr::Add(1),
            Instr::Add(-1),
            Instr::Write,
            Instr::Read,
            Instr::Open,
            Instr::Close,
        ]
    );
}

#[test]
fn runs_merge_into_sums() {
    let ops = parse(">>><+++--..,,").unwrap();
    assert_eq!(
        ops,
        vec![
            Op::PointerMove(2),
            Op::CellAdd(1),
            Op::Write,
            Op::Write,
            Op::Read,
            Op::Read,
        ]
    );
}

#[test]
fn cancelling_run_keeps_zero_sum() {
    let ops = parse("+-.").unwrap();
    assert_eq!(ops, vec![Op::CellAdd(0), Op::Write]);
}

#[test]
fn moves_and_adds_do_not_merge_with_each_other() {
    let t = optimize(&vec![Instr::Move(1), Instr::Add(1), Instr::Move(1)]);
    assert_eq!(t, vec![Instr::Move(1), Instr::Add(1), Instr::Move(1)]);
}

#[test]
fn brackets_are_never_merged() {
    let t = optimize(&vec![Instr::Open, Instr::Open, Instr::Close, Instr::Close]);
    assert_eq!(t, vec![Instr::Open, Instr::Open, Instr::Close, Instr::Close]);
}

#[test]
fn nested_brackets_pair_up() {
    let ops = parse("[[]][]").unwrap();
    assert_eq!(
        ops,
        vec![
            Op::JumpIfZero(3),
            Op::JumpIfZero(2),
            Op::JumpIfNotZero(1),
            Op::JumpIfNotZero(0),
            Op::JumpIfZero(5),
            Op::JumpIfNotZero(4),
        ]
    );
}

#[test]
fn pair_table_is_symmetric() {
    let t = tokenize("+[>[-]<.]");
    let p = bracket_jump_table(&t).unwrap();
    assert_eq!(p[1], 8);
    assert_eq!(p[8], 1);
    assert_eq!(p[3], 5);
    assert_eq!(p[5], 3);
}

#[test]
fn adjacent_brackets_pair() {
    let ops = parse("[]").unwrap();
    assert_eq!(ops, vec![Op::JumpIfZero(1), Op::JumpIfNotZero(0)]);
}

#[test]
fn extra_open_is_mismatch() {
    assert_eq!(parse("[[]"), Err(Error::BracketMismatch));
    assert_eq!(parse("+["), Err(Error::BracketMismatch));
}

#[test]
fn extra_close_is_mismatch() {
    assert_eq!(parse("[]]"), Err(Error::BracketMismatch));
    assert_eq!(parse("]"), Err(Error::BracketMismatch));
}

#[test]
fn close_before_open_is_mismatch() {
    assert_eq!(parse("]["), Err(Error::BracketMismatch));
}

#[test]
fn map_bracket_jumps_rejects_unbalanced() {
    assert_eq!(
        map_bracket_jumps(&vec![Instr::Close, Instr::Open]),
        Err(Error::BracketMismatch)
    );
}

#[test]
fn empty_source_is_empty_program() {
    assert_eq!(parse(""), Ok(vec![]));
}
