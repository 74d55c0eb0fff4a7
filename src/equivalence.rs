//! Merging runs of moves and adds does not change what a program does: a
//! simulation between the merged program and the one-instruction-per-symbol
//! program built from the same text.
use vstd::prelude::*;
use vstd::arithmetic::div_mod::lemma_add_mod_noop_right;

use crate::op::Op;
use crate::parser::{
    bracket_delta, depth, front_end, is_match, lemma_match_unique_close, lemma_match_unique_open,
    lex, lemma_lex_len, merge, resolved, unit_steps, Instr,
};
use crate::vm::{cell_add, finished, lemma_finished_stays, run_for, step, Config, TAPE_LEN};

verus! {

/// Whether `x` is folded into the last instruction of `acc` by the merge.
pub open spec fn joins(acc: Seq<Instr>, x: Instr) -> bool {
    acc.len() > 0 && ((acc.last() is Move && x is Move) || (acc.last() is Add && x is Add))
}

/// For each merged instruction, the position in `t` where its run starts.
pub open spec fn origin(t: Seq<Instr>) -> Seq<int>
    decreases t.len(),
{
    if t.len() == 0 {
        Seq::empty()
    } else {
        let o = origin(t.drop_last());
        if joins(merge(t.drop_last()), t.last()) {
            o
        } else {
            o.push(t.len() - 1)
        }
    }
}

/// Where the run of merged instruction `k` ends in `t` (exclusive).
pub open spec fn run_end(t: Seq<Instr>, o: Seq<int>, k: int) -> int {
    if k + 1 < o.len() {
        o[k + 1]
    } else {
        t.len() as int
    }
}

pub open spec fn step_delta(x: Instr) -> int {
    match x {
        Instr::Move(d) => d as int,
        Instr::Add(d) => d as int,
        _ => 0,
    }
}

/// The sum of the move and add amounts in `s`.
pub open spec fn delta_total(s: Seq<Instr>) -> int
    decreases s.len(),
{
    if s.len() == 0 {
        0
    } else {
        delta_total(s.drop_last()) + step_delta(s.last())
    }
}

/// `t[a..b]` is the run that the merged instruction `x` stands for.
pub open spec fn run_ok(t: Seq<Instr>, x: Instr, a: int, b: int) -> bool {
    match x {
        Instr::Move(d) => (forall|p: int| a <= p < b ==> #[trigger] t[p] is Move) && d as int
            == delta_total(t.subrange(a, b)),
        Instr::Add(d) => (forall|p: int| a <= p < b ==> #[trigger] t[p] is Add) && d as int
            == delta_total(t.subrange(a, b)),
        _ => b == a + 1 && t[a] == x,
    }
}

/// `m` splits `t` into consecutive runs starting at the positions `o`.
pub open spec fn runs_ok(t: Seq<Instr>, m: Seq<Instr>, o: Seq<int>) -> bool {
    &&& o.len() == m.len()
    &&& (m.len() == 0 <==> t.len() == 0)
    &&& m.len() > 0 ==> o[0] == 0
    &&& forall|a: int, b: int| 0 <= a < b < o.len() ==> #[trigger] o[a] < #[trigger] o[b]
    &&& forall|k: int| 0 <= k < o.len() ==> 0 <= #[trigger] o[k] < run_end(t, o, k) <= t.len()
    &&& forall|k: int| 0 <= k < o.len() ==> run_ok(t, #[trigger] m[k], o[k], run_end(t, o, k))
}

proof fn lemma_delta_bound(s: Seq<Instr>)
    requires
        unit_steps(s),
    ensures
        -s.len() <= delta_total(s) <= s.len(),
    decreases s.len(),
{
    if s.len() > 0 {
        assert(unit_steps(s.drop_last())) by {
            assert forall|k: int| 0 <= k < s.len() - 1 implies s.drop_last()[k] == s[k] by {}
        }
        lemma_delta_bound(s.drop_last());
        assert(s[s.len() - 1] == s.last());
    }
}

#[verifier::rlimit(100)]
proof fn lemma_runs(t: Seq<Instr>)
    requires
        unit_steps(t),
        t.len() <= i64::MAX,
    ensures
        runs_ok(t, merge(t), origin(t)),
    decreases t.len(),
{
    if t.len() > 0 {
        let t0 = t.drop_last();
        let x = t.last();
        assert(x == t[t.len() - 1]);
        assert(unit_steps(t0)) by {
            assert forall|k: int| 0 <= k < t0.len() implies t0[k] == t[k] by {}
        }
        lemma_runs(t0);
        let m0 = merge(t0);
        let o0 = origin(t0);
        let m = merge(t);
        let o = origin(t);
        assert forall|a: int, b: int| 0 <= a <= b <= t0.len() implies t.subrange(a, b)
            == t0.subrange(a, b) by {
            assert(t.subrange(a, b) =~= t0.subrange(a, b));
        }
        if joins(m0, x) {
            let k = m0.len() - 1;
            let seg0 = t0.subrange(o0[k], t0.len() as int);
            let seg = t.subrange(o0[k], t.len() as int);
            assert(seg.drop_last() =~= seg0);
            assert(seg.last() == x);
            assert(unit_steps(seg0)) by {
                assert forall|q: int| 0 <= q < seg0.len() implies seg0[q] == t[o0[k] + q] by {}
            }
            lemma_delta_bound(seg0);
            assert(o == o0);
            assert forall|q: int| 0 <= q < o.len() implies run_ok(
                t,
                #[trigger] m[q],
                o[q],
                run_end(t, o, q),
            ) by {
                if q < k {
                    assert(m[q] == m0[q]);
                    assert(run_end(t, o, q) == run_end(t0, o0, q));
                    assert(run_ok(t0, m0[q], o0[q], run_end(t0, o0, q)));
                    match m[q] {
                        Instr::Move(d) => {
                            assert forall|p: int| o[q] <= p < run_end(t, o, q) implies #[trigger] t[p] is Move by {
                                assert(t0[p] is Move);
                            }
                        },
                        Instr::Add(d) => {
                            assert forall|p: int| o[q] <= p < run_end(t, o, q) implies #[trigger] t[p] is Add by {
                                assert(t0[p] is Add);
                            }
                        },
                        _ => {},
                    }
                } else {
                    assert(run_ok(t0, m0[k], o0[k], t0.len() as int));
                    match m[q] {
                        Instr::Move(d) => {
                            assert forall|p: int| o[q] <= p < t.len() implies #[trigger] t[p] is Move by {
                                if p < t0.len() {
                                    assert(t0[p] is Move);
                                }
                            }
                        },
                        Instr::Add(d) => {
                            assert forall|p: int| o[q] <= p < t.len() implies #[trigger] t[p] is Add by {
                                if p < t0.len() {
                                    assert(t0[p] is Add);
                                }
                            }
                        },
                        _ => {},
                    }
                }
            }
        } else {
            let k = m0.len();
            assert(m == m0.push(x));
            assert(o == o0.push(t.len() - 1));
            let seg = t.subrange(t.len() - 1, t.len() as int);
            assert(seg.drop_last() =~= Seq::<Instr>::empty());
            assert(seg.last() == x);
            assert forall|q: int| 0 <= q < o.len() implies run_ok(
                t,
                #[trigger] m[q],
                o[q],
                run_end(t, o, q),
            ) by {
                if q < k {
                    assert(m[q] == m0[q]);
                    assert(o[q] == o0[q]);
                    assert(run_end(t, o, q) == run_end(t0, o0, q));
                    assert(run_ok(t0, m0[q], o0[q], run_end(t0, o0, q)));
                    match m[q] {
                        Instr::Move(d) => {
                            assert forall|p: int| o[q] <= p < run_end(t, o, q) implies #[trigger] t[p] is Move by {
                                assert(t0[p] is Move);
                            }
                        },
                        Instr::Add(d) => {
                            assert forall|p: int| o[q] <= p < run_end(t, o, q) implies #[trigger] t[p] is Add by {
                                assert(t0[p] is Add);
                            }
                        },
                        _ => {
                            assert(t0[o0[q]] == m0[q]);
                        },
                    }
                } else {
                    assert(m[q] == x);
                    assert(o[q] == t.len() - 1);
                    assert(run_end(t, o, q) == t.len());
                    assert(delta_total(seg) == delta_total(seg.drop_last()) + step_delta(x));
                    assert(delta_total(seg) == step_delta(x));
                }
            }
            assert forall|q: int| 0 <= q < o.len() implies 0 <= #[trigger] o[q] < run_end(t, o, q) <= t.len() by {
                if q < k {
                    assert(run_end(t, o, q) == run_end(t0, o0, q));
                }
            }
            assert forall|a: int, b: int| 0 <= a < b < o.len() implies #[trigger] o[a] < #[trigger] o[b] by {
                if b == k {
                    assert(o0[a] < run_end(t0, o0, a));
                }
            }
        }
    }
}

proof fn lemma_depth_within(t: Seq<Instr>, m: Seq<Instr>, o: Seq<int>, k: int, p: int)
    requires
        runs_ok(t, m, o),
        0 <= k < m.len(),
        depth(t, o[k]) == depth(m, k),
        o[k] < p <= run_end(t, o, k),
    ensures
        depth(t, p) == depth(m, k + 1),
    decreases p - o[k],
{
    assert(run_ok(t, m[k], o[k], run_end(t, o, k)));
    assert(depth(t, p) == depth(t, p - 1) + bracket_delta(t[p - 1]));
    assert(depth(m, k + 1) == depth(m, k) + bracket_delta(m[k]));
    if p - 1 > o[k] {
        lemma_depth_within(t, m, o, k, p - 1);
    }
    match m[k] {
        Instr::Move(d) => {
            assert(t[p - 1] is Move);
        },
        Instr::Add(d) => {
            assert(t[p - 1] is Add);
        },
        _ => {},
    }
}

/// Depth in `t` at the start and inside each run is depth in `m` before and
/// after the merged instruction.
proof fn lemma_depth_runs(t: Seq<Instr>, m: Seq<Instr>, o: Seq<int>, k: int)
    requires
        runs_ok(t, m, o),
        0 <= k < m.len(),
    ensures
        depth(t, o[k]) == depth(m, k),
        forall|p: int| o[k] < p <= run_end(t, o, k) ==> #[trigger] depth(t, p) == depth(m, k + 1),
    decreases k,
{
    if k > 0 {
        lemma_depth_runs(t, m, o, k - 1);
        assert(run_end(t, o, k - 1) == o[k]);
        assert(o[k - 1] < o[k]);
    }
    assert forall|p: int| o[k] < p <= run_end(t, o, k) implies #[trigger] depth(t, p) == depth(
        m,
        k + 1,
    ) by {
        lemma_depth_within(t, m, o, k, p);
    }
}

/// The run that position `p` falls in (as the end of a step within it).
proof fn run_of(t: Seq<Instr>, m: Seq<Instr>, o: Seq<int>, p: int, k: int) -> (q: int)
    requires
        runs_ok(t, m, o),
        0 <= k < m.len(),
        o[k] < p <= t.len(),
    ensures
        k <= q < m.len(),
        o[q] < p <= run_end(t, o, q),
    decreases m.len() - k,
{
    if p <= run_end(t, o, k) {
        k
    } else {
        run_of(t, m, o, p, k + 1)
    }
}

proof fn lemma_match_lifts(t: Seq<Instr>, m: Seq<Instr>, o: Seq<int>, k: int, j: int)
    requires
        runs_ok(t, m, o),
        is_match(m, k, j),
    ensures
        is_match(t, o[k], o[j]),
{
    lemma_depth_runs(t, m, o, k);
    lemma_depth_runs(t, m, o, j);
    assert(run_ok(t, m[k], o[k], run_end(t, o, k)));
    assert(run_ok(t, m[j], o[j], run_end(t, o, j)));
    assert(o[k] < o[j]);
    assert(depth(t, o[j] + 1) == depth(m, j + 1));
    assert forall|p: int| o[k] < p <= o[j] implies #[trigger] depth(t, p) > depth(t, o[k]) by {
        let q = run_of(t, m, o, p, k);
        lemma_depth_runs(t, m, o, q);
        if q >= j {
            if q > j {
                assert(o[j] < o[q]);
            }
        }
        assert(q < j);
        assert(depth(m, q + 1) > depth(m, k));
    }
}

/// Each instruction of the merged program and the first instruction of its
/// run agree, jump targets mapped through `o`.
proof fn lemma_instr_corresponds(
    t: Seq<Instr>,
    m: Seq<Instr>,
    o: Seq<int>,
    unit: Seq<Op>,
    merged: Seq<Op>,
    k: int,
)
    requires
        runs_ok(t, m, o),
        resolved(t, unit),
        resolved(m, merged),
        0 <= k < m.len(),
    ensures
        merged[k] matches Op::JumpIfZero(j) ==> j < m.len() && unit[o[k]] == Op::JumpIfZero(
            o[j as int] as usize,
        ) && run_end(t, o, j as int) == o[j as int] + 1,
        merged[k] matches Op::JumpIfNotZero(j) ==> j < m.len() && unit[o[k]] == Op::JumpIfNotZero(
            o[j as int] as usize,
        ) && run_end(t, o, j as int) == o[j as int] + 1,
        merged[k] == Op::Write ==> unit[o[k]] == Op::Write && run_end(t, o, k) == o[k] + 1,
        merged[k] == Op::Read ==> unit[o[k]] == Op::Read && run_end(t, o, k) == o[k] + 1,
        merged[k] matches Op::JumpIfZero(j) ==> run_end(t, o, k) == o[k] + 1,
        merged[k] matches Op::JumpIfNotZero(j) ==> run_end(t, o, k) == o[k] + 1,
{
    assert(run_ok(t, m[k], o[k], run_end(t, o, k)));
    let ok = o[k];
    assert(0 <= ok < t.len());
    match m[k] {
        Instr::Open => {
            let j = merged[k]->JumpIfZero_0 as int;
            assert(is_match(m, k, j));
            lemma_match_lifts(t, m, o, k, j);
            assert(t[ok] == Instr::Open);
            let j2 = unit[ok]->JumpIfZero_0 as int;
            assert(is_match(t, ok, j2));
            lemma_match_unique_close(t, ok, j2, o[j]);
            assert(run_ok(t, m[j], o[j], run_end(t, o, j)));
        },
        Instr::Close => {
            let j = merged[k]->JumpIfNotZero_0 as int;
            assert(is_match(m, j, k));
            lemma_match_lifts(t, m, o, j, k);
            assert(t[ok] == Instr::Close);
            let j2 = unit[ok]->JumpIfNotZero_0 as int;
            assert(is_match(t, j2, ok));
            lemma_match_unique_open(t, j2, o[j], ok);
            assert(run_ok(t, m[j], o[j], run_end(t, o, j)));
        },
        _ => {},
    }
}

/// The pointer is on the tape, and the tape has its full length.
pub open spec fn valid(c: Config) -> bool {
    c.tape.len() == TAPE_LEN && 0 <= c.ptr < TAPE_LEN
}

/// `r` steps from `c`.
pub open spec fn steps(ops: Seq<Op>, input: Seq<u8>, c: Config, r: nat) -> Config
    decreases r,
{
    if r == 0 {
        c
    } else {
        step(ops, input, steps(ops, input, c, (r - 1) as nat))
    }
}

proof fn lemma_valid(ops: Seq<Op>, input: Seq<u8>, n: nat)
    ensures
        valid(run_for(ops, input, n)),
    decreases n,
{
    if n > 0 {
        lemma_valid(ops, input, (n - 1) as nat);
    }
}

proof fn lemma_split(ops: Seq<Op>, input: Seq<u8>, a: nat, r: nat)
    ensures
        run_for(ops, input, a + r) == steps(ops, input, run_for(ops, input, a), r),
    decreases r,
{
    if r > 0 {
        lemma_split(ops, input, a, (r - 1) as nat);
        assert((a + r - 1) as nat == a + (r - 1) as nat);
    }
}

proof fn lemma_cell_add_twice(c: u8, a: int, b: int)
    ensures
        cell_add(cell_add(c, a), b) == cell_add(c, a + b),
{
    lemma_add_mod_noop_right(b, c as int + a, 256);
}

/// Inside a run of moves, unit steps move the pointer by the partial sum.
#[verifier::rlimit(100)]
proof fn lemma_move_run(
    t: Seq<Instr>,
    m: Seq<Instr>,
    o: Seq<int>,
    unit: Seq<Op>,
    input: Seq<u8>,
    c: Config,
    k: int,
    i: nat,
)
    requires
        runs_ok(t, m, o),
        resolved(t, unit),
        0 <= k < m.len(),
        m[k] is Move,
        c.pc == o[k],
        !c.fault,
        o[k] + i <= run_end(t, o, k),
        forall|r: nat| r <= i ==> !(#[trigger] steps(unit, input, c, r)).fault,
    ensures
        steps(unit, input, c, i) == (Config {
            pc: o[k] + i,
            ptr: c.ptr + delta_total(t.subrange(o[k], o[k] + i)),
            ..c
        }),
        i > 0 ==> 0 <= c.ptr + delta_total(t.subrange(o[k], o[k] + i)) < TAPE_LEN,
    decreases i,
{
    let seg = t.subrange(o[k], o[k] + i);
    if i == 0 {
        assert(seg.len() == 0);
    } else {
        lemma_move_run(t, m, o, unit, input, c, k, (i - 1) as nat);
        assert(run_ok(t, m[k], o[k], run_end(t, o, k)));
        let p = o[k] + i - 1;
        assert(seg.drop_last() =~= t.subrange(o[k], p));
        assert(seg.last() == t[p]);
        assert(t[p] is Move);
        assert(unit[p] == Op::PointerMove(t[p]->Move_0));
        assert(!steps(unit, input, c, i).fault);
    }
}

/// Inside a run of adds, unit steps add the partial sum to the current cell.
#[verifier::rlimit(100)]
proof fn lemma_add_run(
    t: Seq<Instr>,
    m: Seq<Instr>,
    o: Seq<int>,
    unit: Seq<Op>,
    input: Seq<u8>,
    c: Config,
    k: int,
    i: nat,
)
    requires
        runs_ok(t, m, o),
        resolved(t, unit),
        0 <= k < m.len(),
        m[k] is Add,
        c.pc == o[k],
        !c.fault,
        valid(c),
        o[k] + i <= run_end(t, o, k),
    ensures
        steps(unit, input, c, i) == (Config {
            pc: o[k] + i,
            tape: c.tape.update(
                c.ptr,
                cell_add(c.tape[c.ptr], delta_total(t.subrange(o[k], o[k] + i))),
            ),
            ..c
        }),
    decreases i,
{
    let seg = t.subrange(o[k], o[k] + i);
    if i == 0 {
        assert(seg.len() == 0);
        assert(c.tape.update(c.ptr, cell_add(c.tape[c.ptr], 0)) =~= c.tape);
    } else {
        lemma_add_run(t, m, o, unit, input, c, k, (i - 1) as nat);
        assert(run_ok(t, m[k], o[k], run_end(t, o, k)));
        let p = o[k] + i - 1;
        let before = t.subrange(o[k], p);
        assert(seg.drop_last() =~= before);
        assert(seg.last() == t[p]);
        assert(t[p] is Add);
        assert(unit[p] == Op::CellAdd(t[p]->Add_0));
        lemma_cell_add_twice(c.tape[c.ptr], delta_total(before), t[p]->Add_0 as int);
        let prev = steps(unit, input, c, (i - 1) as nat);
        assert(prev.tape.update(c.ptr, cell_add(prev.tape[c.ptr], t[p]->Add_0 as int))
            =~= c.tape.update(c.ptr, cell_add(c.tape[c.ptr], delta_total(seg))));
    }
}

/// The merged state and the unit state stand for the same execution.
pub open spec fn corresponds(
    t: Seq<Instr>,
    o: Seq<int>,
    merged: Seq<Op>,
    unit: Seq<Op>,
    cm: Config,
    cu: Config,
) -> bool {
    &&& cu.tape == cm.tape
    &&& cu.ptr == cm.ptr
    &&& cu.consumed == cm.consumed
    &&& cu.out == cm.out
    &&& cu.fault == cm.fault
    &&& 0 <= cm.pc <= merged.len()
    &&& cm.pc < merged.len() ==> cu.pc == o[cm.pc]
    &&& cm.pc == merged.len() ==> cu.pc == unit.len()
}

#[verifier::rlimit(100)]
proof fn lemma_step_sim(
    t: Seq<Instr>,
    m: Seq<Instr>,
    o: Seq<int>,
    unit: Seq<Op>,
    merged: Seq<Op>,
    input: Seq<u8>,
    cm: Config,
    cu: Config,
) -> (r: nat)
    requires
        runs_ok(t, m, o),
        resolved(t, unit),
        resolved(m, merged),
        corresponds(t, o, merged, unit, cm, cu),
        valid(cu),
        !finished(merged, cm),
        forall|i: nat| !(#[trigger] steps(unit, input, cu, i)).fault,
    ensures
        r >= 1,
        corresponds(t, o, merged, unit, step(merged, input, cm), steps(unit, input, cu, r)),
{
    let k = cm.pc;
    let e = run_end(t, o, k);
    lemma_instr_corresponds(t, m, o, unit, merged, k);
    assert(run_ok(t, m[k], o[k], e));
    assert(k + 1 < merged.len() ==> e == o[k + 1]);
    match m[k] {
        Instr::Move(d) => {
            let r = (e - o[k]) as nat;
            lemma_move_run(t, m, o, unit, input, cu, k, r);
            assert(t.subrange(o[k], o[k] + r) == t.subrange(o[k], e));
            r
        },
        Instr::Add(d) => {
            let r = (e - o[k]) as nat;
            lemma_add_run(t, m, o, unit, input, cu, k, r);
            assert(t.subrange(o[k], o[k] + r) == t.subrange(o[k], e));
            r
        },
        _ => {
            assert(steps(unit, input, cu, 0) == cu);
            assert(steps(unit, input, cu, 1) == step(unit, input, cu));
            1
        },
    }
}

proof fn lemma_simulate(
    t: Seq<Instr>,
    m: Seq<Instr>,
    o: Seq<int>,
    unit: Seq<Op>,
    merged: Seq<Op>,
    input: Seq<u8>,
    n: nat,
) -> (mu: nat)
    requires
        runs_ok(t, m, o),
        resolved(t, unit),
        resolved(m, merged),
        forall|i: nat| !(#[trigger] run_for(unit, input, i)).fault,
    ensures
        mu >= n,
        corresponds(t, o, merged, unit, run_for(merged, input, n), run_for(unit, input, mu)),
    decreases n,
{
    if n == 0 {
        0
    } else {
        let mu0 = lemma_simulate(t, m, o, unit, merged, input, (n - 1) as nat);
        let cm = run_for(merged, input, (n - 1) as nat);
        let cu = run_for(unit, input, mu0);
        if finished(merged, cm) {
            assert(run_for(unit, input, mu0 + 1) == step(unit, input, cu));
            mu0 + 1
        } else {
            lemma_valid(unit, input, mu0);
            assert forall|i: nat| !(#[trigger] steps(unit, input, cu, i)).fault by {
                lemma_split(unit, input, mu0, i);
                assert(!run_for(unit, input, mu0 + i).fault);
            }
            let r = lemma_step_sim(t, m, o, unit, merged, input, cm, cu);
            lemma_split(unit, input, mu0, r);
            mu0 + r
        }
    }
}

/// Merging runs keeps what a program writes. Let `unit` be a text's program
/// with one instruction per symbol and `merged` its merged program, run on
/// the same input, where the unit run never leaves the tape. After any `n`
/// merged steps, some point of the unit run, no earlier than step `n`, has
/// written the same bytes and has finished exactly when the merged run has.
/// And when the unit run has finished within `n` steps, so has the merged
/// one, with the same output.
pub proof fn lemma_merging_preserves_output(
    s: Seq<char>,
    unit: Seq<Op>,
    merged: Seq<Op>,
    input: Seq<u8>,
    n: nat,
)
    requires
        s.len() <= i64::MAX,
        resolved(lex(s), unit),
        resolved(front_end(s), merged),
        forall|i: nat| !(#[trigger] run_for(unit, input, i)).fault,
    ensures
        exists|mu: nat|
            #![trigger run_for(unit, input, mu)]
            mu >= n && run_for(unit, input, mu).out == run_for(merged, input, n).out && (finished(
                merged,
                run_for(merged, input, n),
            ) <==> finished(unit, run_for(unit, input, mu))),
        finished(unit, run_for(unit, input, n)) ==> finished(merged, run_for(merged, input, n))
            && run_for(merged, input, n).out == run_for(unit, input, n).out,
{
    let t = lex(s);
    lemma_lex_len(s);
    lemma_runs(t);
    let m = merge(t);
    let o = origin(t);
    let mu = lemma_simulate(t, m, o, unit, merged, input, n);
    let cm = run_for(merged, input, n);
    let cu = run_for(unit, input, mu);
    if cm.pc < merged.len() {
        assert(o[cm.pc] < run_end(t, o, cm.pc));
    }
    assert(finished(merged, cm) <==> finished(unit, cu));
    if finished(unit, run_for(unit, input, n)) {
        lemma_finished_stays(unit, input, n, mu);
    }
}

} // verus!
