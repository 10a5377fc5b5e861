use vstd::prelude::*;

use crate::helper::chars_of;
use crate::instruction::Instruction;

verus! {

/// Why a program could not be run.
#[derive(PartialEq, Eq, Structural, Clone, Copy, Debug)]
pub enum EvalError {
    /// The address counter passed the end of `usize`.
    PCOverFlow,
    /// The text offset passed the end of `usize`.
    SPOverFlow,
    /// The program is empty, or transfers control outside itself.
    InvalidPC,
    /// The machine reached a state that no well-formed program produces.
    InvalidContext,
}

/// Every instruction hands control only to addresses inside the program,
/// and the program has an instruction at address 0.
pub open spec fn well_formed(p: Seq<Instruction>) -> bool {
    &&& p.len() > 0
    &&& forall|i: int| 0 <= i < p.len() ==> #[trigger] targets_ok(p, i)
}

pub open spec fn targets_ok(p: Seq<Instruction>, i: int) -> bool {
    match p[i] {
        Instruction::Char(_) => i + 1 < p.len(),
        Instruction::Match => true,
        Instruction::Jump(a) => a < p.len(),
        Instruction::Split(a, b) => a < p.len() && b < p.len(),
    }
}

/// One move of the machine from state `s` to state `s2`; a state is an
/// address and an offset into the text.
pub open spec fn step(p: Seq<Instruction>, t: Seq<char>, s: (int, int), s2: (int, int)) -> bool {
    &&& 0 <= s.0 < p.len()
    &&& match p[s.0] {
        Instruction::Char(c) => 0 <= s.1 < t.len() && t[s.1] == c && s2 == (s.0 + 1, s.1 + 1),
        Instruction::Match => false,
        Instruction::Jump(a) => s2 == (a as int, s.1),
        Instruction::Split(a, b) => s2 == (a as int, s.1) || s2 == (b as int, s.1),
    }
}

/// A sequence of moves that ends on a `Match`.
pub open spec fn is_run(p: Seq<Instruction>, t: Seq<char>, path: Seq<(int, int)>) -> bool {
    &&& path.len() > 0
    &&& forall|i: int| 0 <= i < path.len() - 1 ==> #[trigger] step(p, t, path[i], path[i + 1])
    &&& 0 <= path.last().0 < p.len()
    &&& p[path.last().0] is Match
}

/// From state `s` the machine can reach a `Match`.
pub open spec fn reaches(p: Seq<Instruction>, t: Seq<char>, s: (int, int)) -> bool {
    exists|path: Seq<(int, int)>| is_run(p, t, path) && path[0] == s
}

/// The program matches somewhere in the text: started at address 0 at some
/// offset from 0 to the end of the text, the machine can reach a `Match`.
pub open spec fn accepts(p: Seq<Instruction>, t: Seq<char>) -> bool {
    exists|sp: int| 0 <= sp <= t.len() && reaches(p, t, (0, sp))
}

/// What running `p` on `t` gives.
pub open spec fn eval_result(p: Seq<Instruction>, t: Seq<char>) -> Result<bool, EvalError> {
    if well_formed(p) {
        Ok(accepts(p, t))
    } else {
        Err(EvalError::InvalidPC)
    }
}

/// Whether state `(pc, sp)` reaches a `Match` in one move, given which
/// addresses reach one at offset `sp` (`cur`) and at `sp + 1` (`next`).
spec fn local(
    p: Seq<Instruction>,
    t: Seq<char>,
    sp: int,
    next: Seq<bool>,
    cur: Seq<bool>,
    pc: int,
) -> bool {
    match p[pc] {
        Instruction::Char(c) => sp < t.len() && t[sp] == c && next[pc + 1],
        Instruction::Match => true,
        Instruction::Jump(a) => cur[a as int],
        Instruction::Split(a, b) => cur[a as int] || cur[b as int],
    }
}

/// The number of `false` entries.
spec fn falses(s: Seq<bool>) -> nat
    decreases s.len(),
{
    if s.len() == 0 {
        0
    } else {
        falses(s.drop_last()) + if s.last() {
            0nat
        } else {
            1nat
        }
    }
}

proof fn lemma_falses_update(s: Seq<bool>, i: int)
    requires
        0 <= i < s.len(),
        !s[i],
    ensures
        falses(s.update(i, true)) + 1 == falses(s),
    decreases s.len(),
{
    let u = s.update(i, true);
    if i < s.len() - 1 {
        assert(u.drop_last() =~= s.drop_last().update(i, true));
        lemma_falses_update(s.drop_last(), i);
    } else {
        assert(u.drop_last() =~= s.drop_last());
    }
}

proof fn lemma_reaches_back(p: Seq<Instruction>, t: Seq<char>, s: (int, int), s2: (int, int))
    requires
        step(p, t, s, s2),
        reaches(p, t, s2),
    ensures
        reaches(p, t, s),
{
    let path2 = choose|path: Seq<(int, int)>| is_run(p, t, path) && path[0] == s2;
    let path = seq![s] + path2;
    assert forall|i: int| 0 <= i < path.len() - 1 implies #[trigger] step(p, t, path[i], path[i + 1]) by {
        if i > 0 {
            assert(path[i] == path2[i - 1]);
            assert(path[i + 1] == path2[i]);
            assert(step(p, t, path2[i - 1], path2[(i - 1) + 1]));
        }
    }
    assert(path.last() == path2.last());
    assert(is_run(p, t, path) && path[0] == s);
}

proof fn lemma_reaches_match(p: Seq<Instruction>, t: Seq<char>, s: (int, int))
    requires
        0 <= s.0 < p.len(),
        p[s.0] is Match,
    ensures
        reaches(p, t, s),
{
    let path = seq![s];
    assert(is_run(p, t, path) && path[0] == s);
}

/// Where `cur` is closed under `local`, every state at offset `sp` that
/// reaches a `Match` is marked in `cur`.
proof fn lemma_closed_complete(
    p: Seq<Instruction>,
    t: Seq<char>,
    sp: int,
    next: Seq<bool>,
    cur: Seq<bool>,
    path: Seq<(int, int)>,
)
    requires
        well_formed(p),
        0 <= sp <= t.len(),
        next.len() == p.len(),
        cur.len() == p.len(),
        sp < t.len() ==> forall|q: int| 0 <= q < p.len() ==> (#[trigger] next[q] <==> reaches(p, t, (q, sp + 1))),
        forall|q: int| 0 <= q < p.len() && #[trigger] local(p, t, sp, next, cur, q) ==> cur[q],
        is_run(p, t, path),
        path[0].1 == sp,
        0 <= path[0].0 < p.len(),
    ensures
        cur[path[0].0],
    decreases path.len(),
{
    let s = path[0];
    assert(targets_ok(p, s.0));
    if path.len() == 1 {
        assert(local(p, t, sp, next, cur, s.0));
    } else {
        assert(step(p, t, path[0], path[0int + 1]));
        let rest = path.drop_first();
        assert forall|i: int| 0 <= i < rest.len() - 1 implies #[trigger] step(p, t, rest[i], rest[i + 1]) by {
            assert(step(p, t, path[i + 1], path[(i + 1) + 1]));
        }
        assert(is_run(p, t, rest));
        match p[s.0] {
            Instruction::Char(c) => {
                assert(reaches(p, t, rest[0]));
                assert(local(p, t, sp, next, cur, s.0));
            },
            Instruction::Match => {
                assert(local(p, t, sp, next, cur, s.0));
            },
            _ => {
                lemma_closed_complete(p, t, sp, next, cur, rest);
                assert(local(p, t, sp, next, cur, s.0));
            },
        }
    }
}

fn check_program(p: &Vec<Instruction>) -> (ok: bool)
    ensures
        ok == well_formed(p@),
{
    if p.len() == 0 {
        return false;
    }
    let mut i: usize = 0;
    while i < p.len()
        invariant
            0 <= i <= p@.len(),
            forall|j: int| 0 <= j < i ==> #[trigger] targets_ok(p@, j),
        decreases p@.len() - i,
    {
        let ok = match p[i] {
            Instruction::Char(_) => i + 1 < p.len(),
            Instruction::Match => true,
            Instruction::Jump(a) => a < p.len(),
            Instruction::Split(a, b) => a < p.len() && b < p.len(),
        };
        if !ok {
            assert(!targets_ok(p@, i as int));
            return false;
        }
        i = i + 1;
    }
    true
}

/// Marks, for each address, whether the machine reaches a `Match` from it at
/// offset `sp`, given the same for offset `sp + 1` in `next`.
fn reach_row(p: &Vec<Instruction>, t: &Vec<char>, sp: usize, next: &Vec<bool>) -> (cur: Vec<bool>)
    requires
        well_formed(p@),
        sp <= t@.len(),
        next@.len() == p@.len(),
        sp < t@.len() ==> forall|q: int| 0 <= q < p@.len() ==> (#[trigger] next@[q] <==> reaches(p@, t@, (q, sp + 1))),
    ensures
        cur@.len() == p@.len(),
        forall|q: int| 0 <= q < p@.len() ==> (#[trigger] cur@[q] <==> reaches(p@, t@, (q, sp as int))),
{
    let m = p.len();
    let mut cur: Vec<bool> = Vec::new();
    let mut k: usize = 0;
    while k < m
        invariant
            0 <= k <= m,
            m == p@.len(),
            cur@.len() == k,
            forall|q: int| 0 <= q < k ==> !cur@[q],
        decreases m - k,
    {
        cur.push(false);
        k = k + 1;
    }
    let mut changed = true;
    while changed
        invariant
            well_formed(p@),
            m == p@.len(),
            sp <= t@.len(),
            next@.len() == m,
            sp < t@.len() ==> forall|q: int| 0 <= q < p@.len() ==> (#[trigger] next@[q] <==> reaches(p@, t@, (q, sp + 1))),
            cur@.len() == m,
            forall|q: int| 0 <= q < m && #[trigger] cur@[q] ==> reaches(p@, t@, (q, sp as int)),
            !changed ==> forall|q: int| 0 <= q < m && #[trigger] local(p@, t@, sp as int, next@, cur@, q) ==> cur@[q],
        decreases falses(cur@) + if changed { 1nat } else { 0nat },
    {
        changed = false;
        let ghost start = cur@;
        let mut pc: usize = 0;
        while pc < m
            invariant
                well_formed(p@),
                m == p@.len(),
                sp <= t@.len(),
                next@.len() == m,
                sp < t@.len() ==> forall|q: int| 0 <= q < p@.len() ==> (#[trigger] next@[q] <==> reaches(p@, t@, (q, sp + 1))),
                cur@.len() == m,
                0 <= pc <= m,
                forall|q: int| 0 <= q < m && #[trigger] cur@[q] ==> reaches(p@, t@, (q, sp as int)),
                changed ==> falses(cur@) < falses(start),
                !changed ==> cur@ == start,
                !changed ==> forall|q: int| 0 <= q < pc && #[trigger] local(p@, t@, sp as int, next@, cur@, q) ==> cur@[q],
            decreases m - pc,
        {
            proof {
                assert(targets_ok(p@, pc as int));
            }
            if !cur[pc] {
                let hit = match p[pc] {
                    Instruction::Char(c) => sp < t.len() && t[sp] == c && next[pc + 1],
                    Instruction::Match => true,
                    Instruction::Jump(a) => cur[a],
                    Instruction::Split(a, b) => cur[a] || cur[b],
                };
                assert(hit == local(p@, t@, sp as int, next@, cur@, pc as int));
                if hit {
                    proof {
                        let s = (pc as int, sp as int);
                        match p@[pc as int] {
                            Instruction::Char(c) => {
                                lemma_reaches_back(p@, t@, s, (pc + 1, sp + 1));
                            },
                            Instruction::Match => {
                                lemma_reaches_match(p@, t@, s);
                            },
                            Instruction::Jump(a) => {
                                assert(cur@[a as int]);
                                lemma_reaches_back(p@, t@, s, (a as int, sp as int));
                            },
                            Instruction::Split(a, b) => {
                                if cur@[a as int] {
                                    lemma_reaches_back(p@, t@, s, (a as int, sp as int));
                                } else {
                                    assert(cur@[b as int]);
                                    lemma_reaches_back(p@, t@, s, (b as int, sp as int));
                                }
                            },
                        }
                        lemma_falses_update(cur@, pc as int);
                    }
                    cur[pc] = true;
                    changed = true;
                }
            }
            pc = pc + 1;
        }
    }
    proof {
        assert forall|q: int| 0 <= q < p@.len() && reaches(p@, t@, (q, sp as int)) implies #[trigger] cur@[q] by {
            let path = choose|path: Seq<(int, int)>| is_run(p@, t@, path) && path[0] == (q, sp as int);
            lemma_closed_complete(p@, t@, sp as int, next@, cur@, path);
        }
    }
    cur
}

/// Runs `program` on `text`: whether, started at address 0 at some offset
/// of the text (the end included), the machine can reach a `Match`.
///
/// The program is checked whole before it runs: one that is empty, or holds
/// any instruction that hands control outside the program (a `Jump` or
/// `Split` to a missing address, a `Char` in the last place), is refused
/// with `InvalidPC`, also where no run would reach that instruction. Every
/// program that the code generator builds passes this check.
///
/// Rather than searching depth first with backtracking, it computes, offset
/// by offset from the end of the text, the set of addresses from which a
/// `Match` is reachable. This ends also on loops that repeat without
/// consuming text (as in `(a*)*`), and its cost stays polynomial.
pub fn is_match(program: &Vec<Instruction>, text: &str) -> (r: Result<bool, EvalError>)
    ensures
        r == eval_result(program@, text@),
{
    if !check_program(program) {
        return Err(EvalError::InvalidPC);
    }
    let t = chars_of(text);
    let m = program.len();
    let mut next: Vec<bool> = Vec::new();
    let mut k: usize = 0;
    while k < m
        invariant
            0 <= k <= m,
            m == program@.len(),
            next@.len() == k,
        decreases m - k,
    {
        next.push(false);
        k = k + 1;
    }
    let mut found = false;
    let mut sp: usize = t.len();
    loop
        invariant
            well_formed(program@),
            t@ == text@,
            sp <= t@.len(),
            next@.len() == m,
            m == program@.len(),
            sp < t@.len() ==> forall|q: int| 0 <= q < m ==> (#[trigger] next@[q] <==> reaches(program@, t@, (q, sp + 1))),
            found <==> exists|j: int| sp < j <= t@.len() && reaches(program@, t@, (0, j)),
        decreases sp,
    {
        let cur = reach_row(program, &t, sp, &next);
        if cur[0] {
            found = true;
        }
        proof {
            assert(cur@[0] <==> reaches(program@, t@, (0, sp as int)));
        }
        if sp == 0 {
            return Ok(found);
        }
        next = cur;
        sp = sp - 1;
    }
}

} // verus!
