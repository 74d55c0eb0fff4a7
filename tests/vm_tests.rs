use bfc::error::Error;
use bfc::op::Op;
use bfc::parser::{map_bracket_jumps, parse, tokenize};
use bfc::vm::{run, TAPE_LEN};

const FUEL: u64 = 100_000_000;

fn run_source(src: &str, input: &[u8]) -> (Result<bool, Error>, Vec<u8>) {
    let ops = parse(src).unwrap();
    let mut out = vec![];
    let r = run(input, &mut out, &ops, FUEL);
    (r, out)
}

#[test]
fn prints_three() {
    let (r, out) = run_source("+++.", &[]);
    assert_eq!(r, Ok(true));
    assert_eq!(out, vec![3]);
}

#[test]
fn countdown_loop_runs_five_times() {
    let ops = parse("+++++[-]").unwrap();
    let mut out = vec![];
    // one add, one test, then five passes of two steps each
    assert_eq!(run(&[], &mut out, &ops, 12), Ok(true));
    assert!(out.is_empty());
    let mut out = vec![];
    assert_eq!(run(&[], &mut out, &ops, 11), Ok(false));
    let (r, out) = run_source("+++++[-].", &[]);
    assert_eq!(r, Ok(true));
    assert_eq!(out, vec![0]);
}

#[test]
fn echoes_one_byte() {
    let (r, out) = run_source(",.", &[0x41]);
    assert_eq!(r, Ok(true));
    assert_eq!(out, vec![0x41]);
}

#[test]
fn exhausted_read_is_noop() {
    let (r, out) = run_source(",.", &[]);
    assert_eq!(r, Ok(true));
    assert_eq!(out, vec![0]);
    let (r, out) = run_source("+++,.", &[]);
    assert_eq!(r, Ok(true));
    assert_eq!(out, vec![3]);
}

#[test]
fn empty_loop_on_zero_is_skipped() {
    let ops = parse("[]").unwrap();
    let mut out = vec![];
    assert_eq!(run(&[], &mut out, &ops, 1), Ok(true));
    assert!(out.is_empty());
}

#[test]
fn increments_wrap_at_256() {
    let src = "+".repeat(256) + ".";
    let (r, out) = run_source(&src, &[]);
    assert_eq!(r, Ok(true));
    assert_eq!(out, vec![0]);
}

#[test]
fn decrement_from_zero_wraps() {
    let (r, out) = run_source("-.", &[]);
    assert_eq!(r, Ok(true));
    assert_eq!(out, vec![255]);
}

#[test]
fn large_merged_add_wraps() {
    let mut out = vec![];
    let ops = vec![Op::CellAdd(-257), Op::Write, Op::CellAdd(i64::MIN), Op::Write];
    assert_eq!(run(&[], &mut out, &ops, 10), Ok(true));
    assert_eq!(out, vec![255, 255]);
}

#[test]
fn move_left_of_tape_is_out_of_bounds() {
    let (r, out) = run_source(".+.<.", &[]);
    assert_eq!(r, Err(Error::OutOfBounds));
    assert_eq!(out, vec![0, 1]);
}

#[test]
fn move_right_of_tape_is_out_of_bounds() {
    let mut out = vec![];
    let ops = vec![Op::PointerMove(TAPE_LEN as i64 - 1), Op::Write];
    assert_eq!(run(&[], &mut out, &ops, 10), Ok(true));
    let ops = vec![Op::PointerMove(TAPE_LEN as i64), Op::Write];
    let mut out = vec![];
    assert_eq!(run(&[], &mut out, &ops, 10), Err(Error::OutOfBounds));
    assert!(out.is_empty());
    let ops = vec![Op::PointerMove(i64::MAX)];
    assert_eq!(run(&[], &mut out, &ops, 10), Err(Error::OutOfBounds));
    let ops = vec![Op::PointerMove(i64::MIN)];
    assert_eq!(run(&[], &mut out, &ops, 10), Err(Error::OutOfBounds));
}

#[test]
fn output_is_appended() {
    let ops = parse("+.").unwrap();
    let mut out = vec![9];
    assert_eq!(run(&[], &mut out, &ops, 10), Ok(true));
    assert_eq!(out, vec![9, 1]);
}

#[test]
fn jump_target_past_end_halts() {
    let ops = vec![Op::JumpIfZero(usize::MAX), Op::Write];
    let mut out = vec![];
    assert_eq!(run(&[], &mut out, &ops, 10), Ok(true));
    assert!(out.is_empty());
}

#[test]
fn merged_and_unit_programs_agree() {
    let merged = parse("++>+++[<++>-]<.,.").unwrap();
    let unit = vec![
        Op::CellAdd(1),
        Op::CellAdd(1),
        Op::PointerMove(1),
        Op::CellAdd(1),
        Op::CellAdd(1),
        Op::CellAdd(1),
        Op::JumpIfZero(12),
        Op::PointerMove(-1),
        Op::CellAdd(1),
        Op::CellAdd(1),
        Op::PointerMove(1),
        Op::CellAdd(-1),
        Op::JumpIfNotZero(6),
        Op::PointerMove(-1),
        Op::Write,
        Op::Read,
        Op::Write,
    ];
    for input in [vec![], vec![7u8]] {
        let mut a = vec![];
        let mut b = vec![];
        assert_eq!(run(&input, &mut a, &merged, FUEL), Ok(true));
        assert_eq!(run(&input, &mut b, &unit, FUEL), Ok(true));
        assert_eq!(a, b);
    }
}

#[test]
fn vm_hello_world() {
    let src = "++++++++[>++++[>++>+++>+++>+<<<<-]>+>+>->>+[<]<-]>>.>---.+++++++..+++.>>.<-.<.+++.------.--------.>>+.>++.";
    let (r, out) = run_source(src, &[]);
    assert_eq!(r, Ok(true));
    assert_eq!(String::from_utf8(out).unwrap(), "Hello World!\n");
}

#[test]
fn program_can_be_run_twice() {
    let ops = parse(",+.").unwrap();
    let mut a = vec![];
    let mut b = vec![];
    assert_eq!(run(&[1], &mut a, &ops, 10), Ok(true));
    assert_eq!(run(&[5], &mut b, &ops, 10), Ok(true));
    assert_eq!(a, vec![2]);
    assert_eq!(b, vec![6]);
}

#[test]
fn merging_keeps_output() {
    let programs = [
        "+++.",
        "++>+++[<++>-]<.",
        ",[.[-],]",
        ",>,<[->+<]>.",
        "+++[>+++[>++<-]<-]>>.",
        "-.+.>>><<<.",
    ];
    let inputs: [&[u8]; 3] = [&[], &[3, 4], &[200, 100, 7]];
    for src in programs {
        let merged = parse(src).unwrap();
        let unit = map_bracket_jumps(&tokenize(src)).unwrap();
        assert!(merged.len() <= unit.len());
        for input in inputs {
            let mut a = vec![];
            let mut b = vec![];
            assert_eq!(run(input, &mut a, &merged, FUEL), Ok(true));
            assert_eq!(run(input, &mut b, &unit, FUEL), Ok(true));
            assert_eq!(a, b);
        }
    }
}

#[test]
fn unit_program_faults_where_merged_does_not() {
    let merged = parse("<>.").unwrap();
    let unit = map_bracket_jumps(&tokenize("<>.")).unwrap();
    let mut a = vec![];
    let mut b = vec![];
    assert_eq!(run(&[], &mut a, &merged, 10), Ok(true));
    assert_eq!(a, vec![0]);
    assert_eq!(run(&[], &mut b, &unit, 10), Err(Error::OutOfBounds));
}
