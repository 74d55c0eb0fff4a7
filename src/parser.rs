use vstd::prelude::*;

use crate::error::Error;
use crate::op::Op;

verus! {

/// An instruction before its brackets are resolved into jumps.
#[derive(Debug, Clone, Copy, PartialEq, Eq, Structural)]
pub enum Instr {
    /// Move the pointer by the amount.
    Move(i64),
    /// Add the amount to the current cell.
    Add(i64),
    Write,
    Read,
    /// A loop-open bracket.
    Open,
    /// A loop-close bracket.
    Close,
}

/// The instruction a source character stands for, if it is one of the eight.
pub open spec fn instr_of(c: char) -> Option<Instr> {
    if c == '>' {
        Some(Instr::Move(1))
    } else if c == '<' {
        Some(Instr::Move(-1i64))
    } else if c == '+' {
        Some(Instr::Add(1))
    } else if c == '-' {
        Some(Instr::Add(-1i64))
    } else if c == '.' {
        Some(Instr::Write)
    } else if c == ',' {
        Some(Instr::Read)
    } else if c == '[' {
        Some(Instr::Open)
    } else if c == ']' {
        Some(Instr::Close)
    } else {
        None
    }
}

/// One instruction per recognised character, in source order.
pub open spec fn lex(s: Seq<char>) -> Seq<Instr>
    decreases s.len(),
{
    if s.len() == 0 {
        Seq::empty()
    } else {
        let prefix = lex(s.drop_last());
        match instr_of(s.last()) {
            Some(x) => prefix.push(x),
            None => prefix,
        }
    }
}

/// Appends `x` to an already merged sequence, folding it into the last
/// instruction when both move the pointer or both add to the cell.
pub open spec fn push_merged(acc: Seq<Instr>, x: Instr) -> Seq<Instr> {
    if acc.len() == 0 {
        acc.push(x)
    } else {
        match (acc.last(), x) {
            (Instr::Move(a), Instr::Move(b)) => acc.drop_last().push(Instr::Move((a + b) as i64)),
            (Instr::Add(a), Instr::Add(b)) => acc.drop_last().push(Instr::Add((a + b) as i64)),
            _ => acc.push(x),
        }
    }
}

/// The left-to-right peephole fold over a whole sequence.
pub open spec fn merge(t: Seq<Instr>) -> Seq<Instr>
    decreases t.len(),
{
    if t.len() == 0 {
        t
    } else {
        push_merged(merge(t.drop_last()), t.last())
    }
}

/// Every move and add in `t` is a single step, as the lexer makes them.
pub open spec fn unit_steps(t: Seq<Instr>) -> bool {
    forall|k: int|
        0 <= k < t.len() ==> match #[trigger] t[k] {
            Instr::Move(d) => d == 1 || d == -1,
            Instr::Add(d) => d == 1 || d == -1,
            _ => true,
        }
}

/// Every merged delta in `t` is at most `b` in magnitude.
pub open spec fn deltas_within(t: Seq<Instr>, b: int) -> bool {
    forall|k: int|
        0 <= k < t.len() ==> match #[trigger] t[k] {
            Instr::Move(d) => -b <= d <= b,
            Instr::Add(d) => -b <= d <= b,
            _ => true,
        }
}

/// The change in nesting depth that one instruction makes.
pub open spec fn bracket_delta(x: Instr) -> int {
    match x {
        Instr::Open => 1,
        Instr::Close => -1,
        _ => 0,
    }
}

/// Nesting depth before position `n`: opens minus closes in `t[0..n]`.
pub open spec fn depth(t: Seq<Instr>, n: int) -> int
    decreases n,
{
    if n <= 0 {
        0
    } else {
        depth(t, n - 1) + bracket_delta(t[n - 1])
    }
}

/// No prefix closes more than it opens, and the whole closes all it opens.
pub open spec fn balanced(t: Seq<Instr>) -> bool {
    &&& forall|p: int| 0 <= p <= t.len() ==> #[trigger] depth(t, p) >= 0
    &&& depth(t, t.len() as int) == 0
}

/// The close at `c` is the partner of the open at `o`: the first position
/// after `o` at which the depth comes back to what it was before `o`.
pub open spec fn is_match(t: Seq<Instr>, o: int, c: int) -> bool {
    &&& 0 <= o < c < t.len()
    &&& t[o] == Instr::Open
    &&& t[c] == Instr::Close
    &&& depth(t, c + 1) == depth(t, o)
    &&& forall|p: int| o < p <= c ==> #[trigger] depth(t, p) > depth(t, o)
}

/// `ops` is `t` with each bracket turned into a jump to its partner.
pub open spec fn resolved(t: Seq<Instr>, ops: Seq<Op>) -> bool {
    &&& ops.len() == t.len()
    &&& forall|k: int|
        0 <= k < t.len() ==> match #[trigger] t[k] {
            Instr::Move(d) => ops[k] == Op::PointerMove(d),
            Instr::Add(d) => ops[k] == Op::CellAdd(d),
            Instr::Write => ops[k] == Op::Write,
            Instr::Read => ops[k] == Op::Read,
            Instr::Open => ops[k] is JumpIfZero && is_match(t, k, ops[k]->JumpIfZero_0 as int),
            Instr::Close => ops[k] is JumpIfNotZero && is_match(
                t,
                ops[k]->JumpIfNotZero_0 as int,
                k,
            ),
        }
}

/// What `parse` makes of a source text, when it succeeds.
pub open spec fn front_end(s: Seq<char>) -> Seq<Instr> {
    merge(lex(s))
}

/// A close has at most one open partner.
pub proof fn lemma_match_unique_open(t: Seq<Instr>, o1: int, o2: int, c: int)
    requires
        is_match(t, o1, c),
        is_match(t, o2, c),
    ensures
        o1 == o2,
{
    if o1 < o2 {
        assert(depth(t, o2) > depth(t, o1));
    } else if o2 < o1 {
        assert(depth(t, o1) > depth(t, o2));
    }
}

/// An open has at most one close partner.
pub proof fn lemma_match_unique_close(t: Seq<Instr>, o: int, c1: int, c2: int)
    requires
        is_match(t, o, c1),
        is_match(t, o, c2),
    ensures
        c1 == c2,
{
    if c1 < c2 {
        assert(depth(t, c1 + 1) > depth(t, o));
    } else if c2 < c1 {
        assert(depth(t, c2 + 1) > depth(t, o));
    }
}

/// In a resolved sequence the jumps pair brackets one to one: every open
/// jumps to a later close that jumps back to it, and every close jumps to an
/// earlier open that jumps forward to it.
pub proof fn lemma_jump_pairs_bijective(t: Seq<Instr>, ops: Seq<Op>)
    requires
        resolved(t, ops),
    ensures
        forall|k: int|
            0 <= k < ops.len() && #[trigger] ops[k] is JumpIfZero ==> {
                let j = ops[k]->JumpIfZero_0 as int;
                &&& k < j < ops.len()
                &&& ops[j] == Op::JumpIfNotZero(k as usize)
            },
        forall|j: int|
            0 <= j < ops.len() && #[trigger] ops[j] is JumpIfNotZero ==> {
                let k = ops[j]->JumpIfNotZero_0 as int;
                &&& 0 <= k < j
                &&& ops[k] == Op::JumpIfZero(j as usize)
            },
{
    assert forall|k: int| 0 <= k < ops.len() && #[trigger] ops[k] is JumpIfZero implies {
        let j = ops[k]->JumpIfZero_0 as int;
        &&& k < j < ops.len()
        &&& ops[j] == Op::JumpIfNotZero(k as usize)
    } by {
        let j = ops[k]->JumpIfZero_0 as int;
        assert(t[k] == Instr::Open);
        assert(is_match(t, k, j));
        assert(t[j] == Instr::Close);
        let o = ops[j]->JumpIfNotZero_0 as int;
        assert(is_match(t, o, j));
        lemma_match_unique_open(t, o, k, j);
    }
    assert forall|j: int| 0 <= j < ops.len() && #[trigger] ops[j] is JumpIfNotZero implies {
        let k = ops[j]->JumpIfNotZero_0 as int;
        &&& 0 <= k < j
        &&& ops[k] == Op::JumpIfZero(j as usize)
    } by {
        let k = ops[j]->JumpIfNotZero_0 as int;
        assert(t[j] == Instr::Close);
        assert(is_match(t, k, j));
        assert(t[k] == Instr::Open);
        let c = ops[k]->JumpIfZero_0 as int;
        assert(is_match(t, k, c));
        lemma_match_unique_close(t, k, c, j);
    }
}

pub proof fn lemma_lex_len(s: Seq<char>)
    ensures
        lex(s).len() <= s.len(),
        unit_steps(lex(s)),
    decreases s.len(),
{
    if s.len() > 0 {
        lemma_lex_len(s.drop_last());
    }
}

fn instr_for(c: char) -> (r: Option<Instr>)
    ensures
        r == instr_of(c),
{
    match c {
        '>' => Some(Instr::Move(1)),
        '<' => Some(Instr::Move(-1)),
        '+' => Some(Instr::Add(1)),
        '-' => Some(Instr::Add(-1)),
        '.' => Some(Instr::Write),
        ',' => Some(Instr::Read),
        '[' => Some(Instr::Open),
        ']' => Some(Instr::Close),
        _ => None,
    }
}

/// Keeps the recognised characters of `src`, one instruction each.
pub fn tokenize(src: &str) -> (r: Vec<Instr>)
    ensures
        r@ == lex(src@),
{
    let mut r: Vec<Instr> = Vec::new();
    let n = src.unicode_len();
    let mut i: usize = 0;
    while i < n
        invariant
            n == src@.len(),
            i <= n,
            r@ == lex(src@.take(i as int)),
        decreases n - i,
    {
        let c = src.get_char(i);
        assert(src@.take(i + 1).drop_last() =~= src@.take(i as int));
        match instr_for(c) {
            Some(x) => r.push(x),
            None => {},
        }
        i = i + 1;
    }
    assert(src@.take(n as int) =~= src@);
    r
}

/// Merges each run of adjacent moves, and each run of adjacent adds, into
/// one instruction holding the run's sum. Nothing else is merged or moved.
pub fn optimize(t: &Vec<Instr>) -> (r: Vec<Instr>)
    requires
        unit_steps(t@),
        t@.len() <= i64::MAX,
    ensures
        r@ == merge(t@),
        deltas_within(r@, t@.len() as int),
{
    let mut acc: Vec<Instr> = Vec::new();
    let mut i: usize = 0;
    while i < t.len()
        invariant
            unit_steps(t@),
            t@.len() <= i64::MAX,
            i <= t@.len(),
            acc@ == merge(t@.take(i as int)),
            deltas_within(acc@, i as int),
        decreases t.len() - i,
    {
        let x = t[i];
        assert(t@.take(i + 1).drop_last() =~= t@.take(i as int));
        assert(t@.take(i + 1).last() == x);
        let ghost before = acc@;
        let n = acc.len();
        if n == 0 {
            acc.push(x);
        } else {
            let last = acc[n - 1];
            match (last, x) {
                (Instr::Move(a), Instr::Move(b)) => {
                    acc.set(n - 1, Instr::Move(a + b));
                    assert(acc@ =~= before.drop_last().push(Instr::Move((a + b) as i64)));
                },
                (Instr::Add(a), Instr::Add(b)) => {
                    acc.set(n - 1, Instr::Add(a + b));
                    assert(acc@ =~= before.drop_last().push(Instr::Add((a + b) as i64)));
                },
                _ => {
                    acc.push(x);
                },
            }
        }
        i = i + 1;
        assert(deltas_within(acc@, i as int)) by {
            assert forall|k: int| 0 <= k < acc@.len() implies match #[trigger] acc@[k] {
                Instr::Move(d) => -(i as int) <= d <= i,
                Instr::Add(d) => -(i as int) <= d <= i,
                _ => true,
            } by {
                if k < before.len() - 1 {
                    assert(acc@[k] == before[k]);
                }
            }
        }
    }
    assert(t@.take(t@.len() as int) =~= t@);
    acc
}

/// Pairs every open with its close: entry `k` of the table is the partner of
/// the bracket at `k`. Fails exactly when the brackets are not balanced.
pub fn bracket_jump_table(t: &Vec<Instr>) -> (r: Result<Vec<usize>, Error>)
    ensures
        r is Ok <==> balanced(t@),
        r is Err ==> r == Err::<Vec<usize>, Error>(Error::BracketMismatch),
        r matches Ok(p) ==> {
            &&& p@.len() == t@.len()
            &&& forall|k: int|
                0 <= k < t@.len() && t@[k] == Instr::Open ==> {
                    &&& is_match(t@, k, #[trigger] p@[k] as int)
                    &&& p@[p@[k] as int] == k
                }
            &&& forall|k: int|
                0 <= k < t@.len() && t@[k] == Instr::Close ==> {
                    &&& is_match(t@, #[trigger] p@[k] as int, k)
                    &&& p@[p@[k] as int] == k
                }
        },
{
    let n = t.len();
    let mut partner: Vec<usize> = Vec::new();
    let mut j: usize = 0;
    while j < n
        invariant
            n == t@.len(),
            j <= n,
            partner@.len() == j,
            forall|q: int| 0 <= q < j ==> partner@[q] == n,
        decreases n - j,
    {
        partner.push(n);
        j = j + 1;
    }
    let mut stack: Vec<usize> = Vec::new();
    let mut i: usize = 0;
    while i < n
        invariant
            n == t@.len(),
            i <= n,
            partner@.len() == n,
            stack@.len() == depth(t@, i as int),
            forall|p: int| 0 <= p <= i ==> #[trigger] depth(t@, p) >= 0,
            forall|k: int|
                0 <= k < stack@.len() ==> {
                    &&& #[trigger] stack@[k] < i
                    &&& t@[stack@[k] as int] == Instr::Open
                    &&& depth(t@, stack@[k] as int) == k
                    &&& partner@[stack@[k] as int] == n
                },
            forall|q: int|
                0 <= q < i && t@[q] == Instr::Open && #[trigger] partner@[q] == n ==> forall|p: int|
                    q < p <= i ==> #[trigger] depth(t@, p) > depth(t@, q),
            forall|q: int|
                0 <= q < i && t@[q] == Instr::Open && #[trigger] partner@[q] != n ==> {
                    &&& q < partner@[q] < i
                    &&& partner@[partner@[q] as int] == q
                    &&& is_match(t@, q, partner@[q] as int)
                },
            forall|q: int|
                0 <= q < i && t@[q] == Instr::Close ==> {
                    &&& #[trigger] partner@[q] < q
                    &&& t@[partner@[q] as int] == Instr::Open
                    &&& partner@[partner@[q] as int] == q
                },
            forall|q: int| i <= q < n ==> #[trigger] partner@[q] == n,
        decreases n - i,
    {
        let x = t[i];
        assert(depth(t@, i + 1) == depth(t@, i as int) + bracket_delta(x));
        match x {
            Instr::Open => {
                stack.push(i);
            },
            Instr::Close => {
                if stack.len() == 0 {
                    assert(depth(t@, i + 1) < 0);
                    return Err(Error::BracketMismatch);
                }
                let s = stack.pop().unwrap();
                let ghost top = stack@.len();
                let ghost old_partner = partner@;
                assert(depth(t@, s as int) == top);
                assert forall|q: int|
                    0 <= q < i && t@[q] == Instr::Open && old_partner[q] == n && q != s implies depth(
                        t@,
                        q,
                    ) < top by {
                    if q < s {
                        assert(depth(t@, s as int) > depth(t@, q));
                    } else {
                        assert(depth(t@, q) > depth(t@, s as int));
                    }
                    assert(depth(t@, i as int) > depth(t@, q));
                }
                partner.set(s, i);
                partner.set(i, s);
                assert(is_match(t@, s as int, i as int));
            },
            _ => {},
        }
        i = i + 1;
    }
    if stack.len() > 0 {
        return Err(Error::BracketMismatch);
    }
    assert forall|q: int| 0 <= q < n && t@[q] == Instr::Open implies partner@[q] != n by {
        if partner@[q] == n {
            assert(depth(t@, n as int) > depth(t@, q));
        }
    }
    Ok(partner)
}

/// Rewrites every bracket of `t` into a jump to its partner.
pub fn map_bracket_jumps(t: &Vec<Instr>) -> (r: Result<Vec<Op>, Error>)
    ensures
        r is Ok <==> balanced(t@),
        r is Err ==> r == Err::<Vec<Op>, Error>(Error::BracketMismatch),
        r matches Ok(ops) ==> resolved(t@, ops@),
{
    let p = match bracket_jump_table(t) {
        Ok(p) => p,
        Err(e) => {
            return Err(e);
        },
    };
    let mut ops: Vec<Op> = Vec::new();
    let mut i: usize = 0;
    while i < t.len()
        invariant
            i <= t@.len(),
            p@.len() == t@.len(),
            forall|k: int|
                0 <= k < t@.len() && t@[k] == Instr::Open ==> is_match(
                    t@,
                    k,
                    #[trigger] p@[k] as int,
                ),
            forall|k: int|
                0 <= k < t@.len() && t@[k] == Instr::Close ==> is_match(
                    t@,
                    #[trigger] p@[k] as int,
                    k,
                ),
            ops@.len() == i,
            forall|k: int|
                0 <= k < i ==> match #[trigger] t@[k] {
                    Instr::Move(d) => ops@[k] == Op::PointerMove(d),
                    Instr::Add(d) => ops@[k] == Op::CellAdd(d),
                    Instr::Write => ops@[k] == Op::Write,
                    Instr::Read => ops@[k] == Op::Read,
                    Instr::Open => ops@[k] == Op::JumpIfZero(p@[k]),
                    Instr::Close => ops@[k] == Op::JumpIfNotZero(p@[k]),
                },
        decreases t.len() - i,
    {
        let op = match t[i] {
            Instr::Move(d) => Op::PointerMove(d),
            Instr::Add(d) => Op::CellAdd(d),
            Instr::Write => Op::Write,
            Instr::Read => Op::Read,
            Instr::Open => Op::JumpIfZero(p[i]),
            Instr::Close => Op::JumpIfNotZero(p[i]),
        };
        ops.push(op);
        i = i + 1;
    }
    assert(resolved(t@, ops@)) by {
        assert forall|k: int| 0 <= k < t@.len() implies match #[trigger] t@[k] {
            Instr::Move(d) => ops@[k] == Op::PointerMove(d),
            Instr::Add(d) => ops@[k] == Op::CellAdd(d),
            Instr::Write => ops@[k] == Op::Write,
            Instr::Read => ops@[k] == Op::Read,
            Instr::Open => ops@[k] is JumpIfZero && is_match(t@, k, ops@[k]->JumpIfZero_0 as int),
            Instr::Close => ops@[k] is JumpIfNotZero && is_match(
                t@,
                ops@[k]->JumpIfNotZero_0 as int,
                k,
            ),
        } by {
            match t@[k] {
                Instr::Open => {
                    assert(is_match(t@, k, p@[k] as int));
                },
                Instr::Close => {
                    assert(is_match(t@, p@[k] as int, k));
                },
                _ => {},
            }
        }
    }
    Ok(ops)
}

/// Turns source text into the canonical instruction sequence: filters
/// out every character outside the alphabet, merges runs of moves and of
/// adds, and resolves brackets into jumps. Fails, with nothing else returned,
/// exactly when the brackets of the text are not balanced.
pub fn parse(src: &str) -> (r: Result<Vec<Op>, Error>)
    requires
        src@.len() <= i64::MAX,
    ensures
        r is Ok <==> balanced(front_end(src@)),
        r is Err ==> r == Err::<Vec<Op>, Error>(Error::BracketMismatch),
        r matches Ok(ops) ==> resolved(front_end(src@), ops@),
{
    let unopt = tokenize(src);
    proof {
        lemma_lex_len(src@);
    }
    let opt = optimize(&unopt);
    map_bracket_jumps(&opt)
}

} // verus!
