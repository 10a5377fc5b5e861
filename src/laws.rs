use vstd::prelude::*;

use crate::codegen::{
    code, code_seq, compile_result, count, count_seq, lemma_code_len, program,
    CodeGenError,
};
use crate::evaluator::{accepts, eval_result, is_run, reaches, step, targets_ok, well_formed, EvalError};
use crate::instruction::Instruction;
use crate::parser::{char_nodes_of, fold_or_spec, lemma_parse_spelled, parse_spec, spells, Regex};

verus! {

/// The code of each node has the size that its shape gives: one instruction
/// for a character, the sum of its parts for a concatenation, two more than
/// its branches for an alternation, two more than its body for a star and one
/// more for a plus or an optional; a whole program has one more, its `Match`.
pub proof fn law_instruction_counts(r: Regex, pc: int)
    ensures
        code(r, pc).len() == count(r),
        program(r).len() == count(r) + 1,
        r is Char ==> count(r) == 1,
        r matches Regex::Concat(v) ==> count(r) == count_seq(v),
        r matches Regex::Or(e1, e2) ==> count(r) == count(*e1) + count(*e2) + 2,
        r matches Regex::Star(e) ==> count(r) == count(*e) + 2,
        r matches Regex::Plus(e) ==> count(r) == count(*e) + 1,
        r matches Regex::Question(e) ==> count(r) == count(*e) + 1,
{
    lemma_code_len(r, pc);
    lemma_code_len(r, 0);
}

/// Compiling what the parser accepted never fails on a misplaced
/// placeholder: it gives the program, or `PCOverFlow` when the program does
/// not fit in the address space.
pub proof fn law_parsed_patterns_compile(s: Seq<char>)
    requires
        parse_spec(s) is Ok,
    ensures
        compile_result(parse_spec(s)->Ok_0) == Ok::<Seq<Instruction>, CodeGenError>(
            program(parse_spec(s)->Ok_0),
        ) || compile_result(parse_spec(s)->Ok_0) == Err::<Seq<Instruction>, CodeGenError>(
            CodeGenError::PCOverFlow,
        ),
{
}

/// Evaluation depends on the program and the text alone: two evaluations of
/// the same pair give the same result.
pub proof fn law_evaluation_repeats(
    p: Seq<Instruction>,
    t: Seq<char>,
    r1: Result<bool, EvalError>,
    r2: Result<bool, EvalError>,
)
    requires
        r1 == eval_result(p, t),
        r2 == eval_result(p, t),
    ensures
        r1 == r2,
{
}

/// Every address that `ins` transfers control to lies in `[lo, hi]`.
spec fn in_bounds(ins: Instruction, lo: int, hi: int) -> bool {
    match ins {
        Instruction::Jump(a) => lo <= a <= hi,
        Instruction::Split(a, b) => lo <= a <= hi && lo <= b <= hi,
        _ => true,
    }
}

spec fn all_in(s: Seq<Instruction>, lo: int, hi: int) -> bool {
    forall|k: int| 0 <= k < s.len() ==> #[trigger] in_bounds(s[k], lo, hi)
}

proof fn lemma_all_in_widen(s: Seq<Instruction>, lo: int, hi: int, lo2: int, hi2: int)
    requires
        all_in(s, lo, hi),
        lo2 <= lo,
        hi <= hi2,
    ensures
        all_in(s, lo2, hi2),
{
    assert forall|k: int| 0 <= k < s.len() implies #[trigger] in_bounds(s[k], lo2, hi2) by {
        assert(in_bounds(s[k], lo, hi));
    }
}

proof fn lemma_all_in_concat(a: Seq<Instruction>, b: Seq<Instruction>, lo: int, hi: int)
    requires
        all_in(a, lo, hi),
        all_in(b, lo, hi),
    ensures
        all_in(a + b, lo, hi),
{
    assert forall|k: int| 0 <= k < (a + b).len() implies #[trigger] in_bounds((a + b)[k], lo, hi) by {
        if k < a.len() {
            assert(in_bounds(a[k], lo, hi));
        } else {
            assert(in_bounds(b[k - a.len()], lo, hi));
        }
    }
}

proof fn lemma_one_in(ins: Instruction, lo: int, hi: int)
    requires
        in_bounds(ins, lo, hi),
    ensures
        all_in(seq![ins], lo, hi),
{
    assert(seq![ins][0] == ins);
}

/// The code of `r` at `pc` transfers control only within its own addresses
/// and the one just after them.
proof fn lemma_code_bounds(r: Regex, pc: int)
    requires
        0 <= pc,
        pc + count(r) <= usize::MAX,
    ensures
        all_in(code(r, pc), pc, pc + count(r)),
    decreases r,
{
    let hi = pc + count(r);
    match r {
        Regex::Char(c) => {
            lemma_one_in(Instruction::Char(c), pc, hi);
        },
        Regex::Or(e1, e2) => {
            let l2 = pc + count(*e1) + 2;
            lemma_code_bounds(*e1, pc + 1);
            lemma_code_bounds(*e2, l2);
            lemma_all_in_widen(code(*e1, pc + 1), pc + 1, pc + 1 + count(*e1), pc, hi);
            lemma_all_in_widen(code(*e2, l2), l2, l2 + count(*e2), pc, hi);
            lemma_one_in(Instruction::Split((pc + 1) as usize, l2 as usize), pc, hi);
            lemma_one_in(Instruction::Jump((l2 + count(*e2)) as usize), pc, hi);
            let a = seq![Instruction::Split((pc + 1) as usize, l2 as usize)];
            let j = seq![Instruction::Jump((l2 + count(*e2)) as usize)];
            lemma_all_in_concat(a, code(*e1, pc + 1), pc, hi);
            lemma_all_in_concat(a + code(*e1, pc + 1), j, pc, hi);
            lemma_all_in_concat(a + code(*e1, pc + 1) + j, code(*e2, l2), pc, hi);
        },
        Regex::Plus(e) => {
            lemma_code_bounds(*e, pc);
            lemma_all_in_widen(code(*e, pc), pc, pc + count(*e), pc, hi);
            let sp = Instruction::Split(pc as usize, (pc + count(*e) + 1) as usize);
            lemma_one_in(sp, pc, hi);
            lemma_all_in_concat(code(*e, pc), seq![sp], pc, hi);
        },
        Regex::Star(e) => {
            lemma_code_bounds(*e, pc + 1);
            lemma_all_in_widen(code(*e, pc + 1), pc + 1, pc + 1 + count(*e), pc, hi);
            let sp = Instruction::Split((pc + 1) as usize, (pc + count(*e) + 2) as usize);
            lemma_one_in(sp, pc, hi);
            lemma_one_in(Instruction::Jump(pc as usize), pc, hi);
            lemma_all_in_concat(seq![sp], code(*e, pc + 1), pc, hi);
            lemma_all_in_concat(seq![sp] + code(*e, pc + 1), seq![Instruction::Jump(pc as usize)], pc, hi);
        },
        Regex::Question(e) => {
            lemma_code_bounds(*e, pc + 1);
            lemma_all_in_widen(code(*e, pc + 1), pc + 1, pc + 1 + count(*e), pc, hi);
            let sp = Instruction::Split((pc + 1) as usize, (pc + count(*e) + 1) as usize);
            lemma_one_in(sp, pc, hi);
            lemma_all_in_concat(seq![sp], code(*e, pc + 1), pc, hi);
        },
        Regex::Concat(v) => {
            lemma_code_seq_bounds(v, pc);
        },
    }
}

proof fn lemma_code_seq_bounds(s: Seq<Regex>, pc: int)
    requires
        0 <= pc,
        pc + count_seq(s) <= usize::MAX,
    ensures
        all_in(code_seq(s, pc), pc, pc + count_seq(s)),
    decreases s,
{
    if s.len() == 0 {
        assert(code_seq(s, pc) =~= Seq::empty());
    } else {
        let front = s.drop_last();
        let mid = pc + count_seq(front);
        lemma_code_seq_bounds(front, pc);
        lemma_code_bounds(s.last(), mid);
        lemma_all_in_widen(code_seq(front, pc), pc, mid, pc, pc + count_seq(s));
        lemma_all_in_widen(code(s.last(), mid), mid, mid + count(s.last()), pc, pc + count_seq(s));
        lemma_all_in_concat(code_seq(front, pc), code(s.last(), mid), pc, pc + count_seq(s));
    }
}

/// Every program that the code generator builds is well formed, so running
/// it never fails: the result is whether it matches.
pub proof fn law_compiled_programs_run(r: Regex, t: Seq<char>)
    requires
        compile_result(r) is Ok,
    ensures
        well_formed(program(r)),
        eval_result(program(r), t) == Ok::<bool, EvalError>(accepts(program(r), t)),
{
    let p = program(r);
    lemma_code_len(r, 0);
    lemma_code_bounds(r, 0);
    assert forall|i: int| 0 <= i < p.len() implies #[trigger] targets_ok(p, i) by {
        if i < count(r) {
            assert(p[i] == code(r, 0)[i]);
            assert(in_bounds(code(r, 0)[i], 0, count(r) as int));
        }
    }
}

proof fn lemma_code_literal(q: Seq<Regex>, s: Seq<char>, pc: int)
    requires
        char_nodes_of(q, s),
    ensures
        count_seq(q) == s.len(),
        code_seq(q, pc).len() == s.len(),
        forall|i: int| 0 <= i < s.len() ==> (#[trigger] code_seq(q, pc)[i] is Char && code_seq(q, pc)[i]->Char_0 == s[i]),
    decreases s.len(),
{
    if s.len() > 0 {
        let front = s.drop_last();
        let qf = q.drop_last();
        assert(q[q.len() - 1] is Char);
        assert forall|i: int| 0 <= i < front.len() implies (#[trigger] qf[i] is Char && qf[i]->Char_0 == front[i]) by {
            assert(q[i] is Char && q[i]->Char_0 == s[i]);
        }
        lemma_code_literal(qf, front, pc);
        assert(count(q.last()) == 1);
        assert(count_seq(q) == count_seq(qf) + count(q.last()));
        let c = code_seq(q, pc);
        assert(c == code_seq(qf, pc) + code(q.last(), pc + count_seq(qf)));
        assert forall|i: int| 0 <= i < s.len() implies (#[trigger] c[i] is Char && c[i]->Char_0 == s[i]) by {
            if i < s.len() - 1 {
                assert(front[i] == s[i]);
                assert(c[i] == code_seq(qf, pc)[i]);
            } else {
                assert(q[i] is Char && q[i]->Char_0 == s[i]);
                assert(c[i] == code(q.last(), pc + count_seq(qf))[0]);
            }
        }
    }
}

/// `c` is one `Char` instruction for each character of `t`, in order.
pub open spec fn chars_code(c: Seq<Instruction>, t: Seq<char>) -> bool {
    &&& c.len() == t.len()
    &&& forall|i: int| 0 <= i < t.len() ==> (#[trigger] c[i] is Char && c[i]->Char_0 == t[i])
}

proof fn lemma_chars_code_concat(a: Seq<Instruction>, x: Seq<char>, b: Seq<Instruction>, y: Seq<char>)
    requires
        chars_code(a, x),
        chars_code(b, y),
    ensures
        chars_code(a + b, x + y),
{
    assert forall|i: int| 0 <= i < (x + y).len() implies (#[trigger] (a + b)[i] is Char && (a + b)[i]->Char_0 == (x + y)[i]) by {
        if i < x.len() {
            assert(a[i] is Char && a[i]->Char_0 == x[i]);
        } else {
            assert(b[i - x.len()] is Char && b[i - x.len()]->Char_0 == y[i - x.len()]);
        }
    }
}

/// A program whose code is the characters of `t` matches `t`.
proof fn lemma_chars_program_matches(r: Regex, t: Seq<char>)
    requires
        chars_code(code(r, 0), t),
        count(r) + 1 <= usize::MAX,
    ensures
        compile_result(r) is Ok,
        eval_result(program(r), t) == Ok::<bool, EvalError>(true),
{
    lemma_code_len(r, 0);
    law_compiled_programs_run(r, t);
    let p = program(r);
    let n = t.len() as int;
    let path = Seq::new((n + 1) as nat, |k: int| (k, k));
    assert forall|i: int| 0 <= i < path.len() - 1 implies #[trigger] step(p, t, path[i], path[i + 1]) by {
        assert(p[i] == code(r, 0)[i]);
        assert(p[i] is Char && p[i]->Char_0 == t[i]);
    }
    assert(p[n] == Instruction::Match);
    assert(is_run(p, t, path) && path[0] == (0int, 0int));
    assert(reaches(p, t, (0, 0)));
}

/// The concatenation of the characters of a text compiles to a program that
/// matches that text.
pub proof fn law_character_sequence_matches(q: Seq<Regex>, s: Seq<char>)
    requires
        char_nodes_of(q, s),
        s.len() + 1 <= usize::MAX,
    ensures
        compile_result(Regex::Concat(q)) is Ok,
        eval_result(program(Regex::Concat(q)), s) == Ok::<bool, EvalError>(true),
{
    lemma_code_literal(q, s, 0);
    lemma_chars_program_matches(Regex::Concat(q), s);
}

/// The tree holds only characters and concatenations.
pub open spec fn char_tree(r: Regex) -> bool
    decreases r,
{
    match r {
        Regex::Char(_) => true,
        Regex::Concat(v) => char_tree_seq(v),
        _ => false,
    }
}

pub open spec fn char_tree_seq(s: Seq<Regex>) -> bool
    decreases s,
{
    if s.len() == 0 {
        true
    } else {
        char_tree_seq(s.drop_last()) && char_tree(s.last())
    }
}

/// The characters at the leaves of a tree, from left to right.
pub open spec fn leaves(r: Regex) -> Seq<char>
    decreases r,
{
    match r {
        Regex::Char(c) => seq![c],
        Regex::Concat(v) => leaves_seq(v),
        _ => Seq::empty(),
    }
}

pub open spec fn leaves_seq(s: Seq<Regex>) -> Seq<char>
    decreases s,
{
    if s.len() == 0 {
        Seq::empty()
    } else {
        leaves_seq(s.drop_last()) + leaves(s.last())
    }
}

proof fn lemma_char_tree_code(r: Regex, pc: int)
    requires
        char_tree(r),
    ensures
        count(r) == leaves(r).len(),
        chars_code(code(r, pc), leaves(r)),
    decreases r,
{
    match r {
        Regex::Char(c) => {
            assert(code(r, pc)[0] == Instruction::Char(c));
        },
        Regex::Concat(v) => {
            lemma_char_tree_seq_code(v, pc);
        },
        _ => {},
    }
}

proof fn lemma_char_tree_seq_code(s: Seq<Regex>, pc: int)
    requires
        char_tree_seq(s),
    ensures
        count_seq(s) == leaves_seq(s).len(),
        chars_code(code_seq(s, pc), leaves_seq(s)),
    decreases s,
{
    if s.len() == 0 {
        assert(code_seq(s, pc) =~= Seq::empty());
    } else {
        let front = s.drop_last();
        lemma_char_tree_seq_code(front, pc);
        lemma_char_tree_code(s.last(), pc + count_seq(front));
        lemma_chars_code_concat(
            code_seq(front, pc),
            leaves_seq(front),
            code(s.last(), pc + count_seq(front)),
            leaves(s.last()),
        );
    }
}

/// A tree of only characters and concatenations, however nested, compiles to
/// a program that matches the text at its leaves.
pub proof fn law_char_trees_match(r: Regex)
    requires
        char_tree(r),
        leaves(r).len() + 1 <= usize::MAX,
    ensures
        compile_result(r) is Ok,
        eval_result(program(r), leaves(r)) == Ok::<bool, EvalError>(true),
{
    lemma_char_tree_code(r, 0);
    lemma_chars_program_matches(r, leaves(r));
}

/// A pattern without operators, which spells a text with its plain
/// characters and its escaped metacharacters, parses to the concatenation of
/// those characters, compiles, and matches the text it spells.
pub proof fn law_literal_patterns_match(p: Seq<char>, s: Seq<char>)
    requires
        spells(p, s),
        s.len() > 0,
        s.len() + 1 <= usize::MAX,
    ensures
        parse_spec(p) is Ok,
        parse_spec(p)->Ok_0 matches Regex::Concat(q) && char_nodes_of(q, s),
        compile_result(parse_spec(p)->Ok_0) is Ok,
        eval_result(program(parse_spec(p)->Ok_0), s) == Ok::<bool, EvalError>(true),
{
    let q = lemma_parse_spelled(p, s);
    law_character_sequence_matches(q, s);
}

/// Alternation nests to the right and keeps the order of its branches: the
/// first branch stands on the left of the alternation of the others.
pub proof fn law_alternation_nests_right(b: Seq<Regex>)
    requires
        b.len() >= 2,
    ensures
        fold_or_spec(b) == Some(
            Regex::Or(Box::new(b[0]), Box::new(fold_or_spec(b.drop_first())->Some_0)),
        ),
{
    assert(b.drop_first().drop_last() =~= b.drop_last().drop_first());
    assert(b.drop_first().last() == b.last());
}

} // verus!
