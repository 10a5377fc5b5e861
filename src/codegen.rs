use vstd::prelude::*;

use crate::helper::safe_add;
use crate::instruction::Instruction;
use crate::parser::{view_seq, Regex, AST};

verus! {

/// Why code generation stopped.
#[derive(PartialEq, Eq, Structural, Clone, Copy, Debug)]
pub enum CodeGenError {
    /// The program would need more addresses than `usize` holds.
    PCOverFlow,
    /// A placeholder of a star loop was not where it was left.
    FailStar,
    /// A placeholder of an alternation was not where it was left.
    FailOr,
    /// A placeholder of an optional expression was not where it was left.
    FailQuestion,
}

/// The number of instructions generated for `r`.
pub open spec fn count(r: Regex) -> nat
    decreases r,
{
    match r {
        Regex::Char(_) => 1,
        Regex::Plus(e) => count(*e) + 1,
        Regex::Star(e) => count(*e) + 2,
        Regex::Question(e) => count(*e) + 1,
        Regex::Or(e1, e2) => count(*e1) + count(*e2) + 2,
        Regex::Concat(v) => count_seq(v),
    }
}

/// The number of instructions generated for a sequence of expressions.
pub open spec fn count_seq(s: Seq<Regex>) -> nat
    decreases s,
{
    if s.len() == 0 {
        0
    } else {
        count_seq(s.drop_last()) + count(s.last())
    }
}

/// The instructions generated for `r` when its code starts at address `pc`.
pub open spec fn code(r: Regex, pc: int) -> Seq<Instruction>
    decreases r,
{
    match r {
        Regex::Char(c) => seq![Instruction::Char(c)],
        Regex::Or(e1, e2) => {
            let l2 = pc + count(*e1) + 2;
            seq![Instruction::Split((pc + 1) as usize, l2 as usize)] + code(*e1, pc + 1)
                + seq![Instruction::Jump((l2 + count(*e2)) as usize)] + code(*e2, l2)
        },
        Regex::Plus(e) => code(*e, pc) + seq![
            Instruction::Split(pc as usize, (pc + count(*e) + 1) as usize),
        ],
        Regex::Star(e) => seq![
            Instruction::Split((pc + 1) as usize, (pc + count(*e) + 2) as usize),
        ] + code(*e, pc + 1) + seq![Instruction::Jump(pc as usize)],
        Regex::Question(e) => seq![
            Instruction::Split((pc + 1) as usize, (pc + count(*e) + 1) as usize),
        ] + code(*e, pc + 1),
        Regex::Concat(v) => code_seq(v, pc),
    }
}

/// The instructions generated for a sequence of expressions, one after the
/// other, starting at address `pc`.
pub open spec fn code_seq(s: Seq<Regex>, pc: int) -> Seq<Instruction>
    decreases s,
{
    if s.len() == 0 {
        Seq::empty()
    } else {
        code_seq(s.drop_last(), pc) + code(s.last(), pc + count_seq(s.drop_last()))
    }
}

/// The whole program for `r`: its code at address 0, then `Match`.
pub open spec fn program(r: Regex) -> Seq<Instruction> {
    code(r, 0).push(Instruction::Match)
}

/// What compiling `r` gives: its program, unless it needs more addresses
/// than `usize` holds.
pub open spec fn compile_result(r: Regex) -> Result<Seq<Instruction>, CodeGenError> {
    if count(r) + 1 <= usize::MAX {
        Ok(program(r))
    } else {
        Err(CodeGenError::PCOverFlow)
    }
}

pub proof fn lemma_code_len(r: Regex, pc: int)
    ensures
        code(r, pc).len() == count(r),
    decreases r,
{
    match r {
        Regex::Char(_) => {},
        Regex::Or(e1, e2) => {
            lemma_code_len(*e1, pc + 1);
            lemma_code_len(*e2, pc + count(*e1) + 2);
        },
        Regex::Plus(e) => lemma_code_len(*e, pc),
        Regex::Star(e) => lemma_code_len(*e, pc + 1),
        Regex::Question(e) => lemma_code_len(*e, pc + 1),
        Regex::Concat(v) => lemma_code_seq_len(v, pc),
    }
}

pub proof fn lemma_code_seq_len(s: Seq<Regex>, pc: int)
    ensures
        code_seq(s, pc).len() == count_seq(s),
    decreases s,
{
    if s.len() > 0 {
        lemma_code_seq_len(s.drop_last(), pc);
        lemma_code_len(s.last(), pc + count_seq(s.drop_last()));
    }
}

proof fn lemma_count_seq_prefix(s: Seq<AST>, k: int)
    requires
        0 <= k <= s.len(),
    ensures
        count_seq(view_seq(s.take(k))) <= count_seq(view_seq(s)),
    decreases s.len(),
{
    if k == s.len() {
        assert(s.take(k) =~= s);
    } else {
        assert(s.drop_last().take(k) =~= s.take(k));
        lemma_count_seq_prefix(s.drop_last(), k);
        assert(view_seq(s).drop_last() =~= view_seq(s.drop_last()));
    }
}

/// The number of nodes of `r`, which bounds the depth of code generation.
spec fn size(r: Regex) -> nat
    decreases r,
{
    match r {
        Regex::Char(_) => 1,
        Regex::Plus(e) => size(*e) + 1,
        Regex::Star(e) => size(*e) + 1,
        Regex::Question(e) => size(*e) + 1,
        Regex::Or(e1, e2) => size(*e1) + size(*e2) + 1,
        Regex::Concat(v) => size_seq(v) + 1,
    }
}

spec fn size_seq(s: Seq<Regex>) -> nat
    decreases s,
{
    if s.len() == 0 {
        0
    } else {
        size_seq(s.drop_last()) + size(s.last())
    }
}

proof fn lemma_size_index(s: Seq<AST>, i: int)
    requires
        0 <= i < s.len(),
    ensures
        size(s[i]@) <= size_seq(view_seq(s)),
    decreases s.len(),
{
    assert(view_seq(s).drop_last() =~= view_seq(s.drop_last()));
    if i < s.len() - 1 {
        lemma_size_index(s.drop_last(), i);
    }
}

struct Generator {
    pc: usize,
    insts: Vec<Instruction>,
}

/// What a generator step owes: on success the code of `m` was appended at the
/// old address and the address advanced past it; it fails, with
/// `PCOverFlow`, exactly when that code would pass the end of `usize`.
spec fn gen_post(old: Generator, new: Generator, m: Regex, r: Result<(), CodeGenError>) -> bool {
    &&& r is Ok <==> old.pc + count(m) <= usize::MAX
    &&& r is Ok ==> new.insts@ == old.insts@ + code(m, old.pc as int) && new.pc == old.pc + count(m)
    &&& r is Ok ==> new.insts@.len() == new.pc
    &&& r is Err ==> r == Err::<(), CodeGenError>(CodeGenError::PCOverFlow)
}

/// Compiles `ast` into a program that ends in one `Match`.
pub fn get_code(ast: &AST) -> (r: Result<Vec<Instruction>, CodeGenError>)
    ensures
        match r {
            Ok(p) => compile_result(ast@) == Ok::<Seq<Instruction>, CodeGenError>(p@),
            Err(e) => compile_result(ast@) == Err::<Seq<Instruction>, CodeGenError>(e),
        },
{
    let mut generator = Generator { pc: 0, insts: Vec::new() };
    generator.gen_code(ast)?;
    proof {
        assert(generator.insts@ =~= program(ast@));
    }
    Ok(generator.insts)
}

impl Generator {
    fn gen_code(&mut self, ast: &AST) -> (r: Result<(), CodeGenError>)
        requires
            old(self).insts@.len() == old(self).pc,
        ensures
            r is Ok <==> old(self).pc + count(ast@) + 1 <= usize::MAX,
            r is Ok ==> final(self).insts@ == old(self).insts@ + code(ast@, old(self).pc as int).push(
                Instruction::Match,
            ),
            r is Ok ==> final(self).pc == old(self).pc + count(ast@) + 1,
            r is Err ==> r == Err::<(), CodeGenError>(CodeGenError::PCOverFlow),
    {
        let ghost start = self.insts@;
        let ghost pc0 = self.pc;
        self.gen_expr(ast)?;
        self.inc_pc()?;
        self.insts.push(Instruction::Match);
        proof {
            assert(self.insts@ =~= start + code(ast@, pc0 as int).push(Instruction::Match));
        }
        Ok(())
    }

    fn gen_expr(&mut self, ast: &AST) -> (r: Result<(), CodeGenError>)
        requires
            old(self).insts@.len() == old(self).pc,
        ensures
            gen_post(*old(self), *final(self), ast@, r),
        decreases size(ast@), 1int,
    {
        match ast {
            AST::Char(c) => self.gen_char(*c)?,
            AST::Or(e1, e2) => self.gen_or(e1, e2)?,
            AST::Plus(e) => self.gen_plus(e)?,
            AST::Star(e) => self.gen_star(e)?,
            AST::Question(e) => self.gen_question(e)?,
            AST::Concat(v) => self.gen_seq(v)?,
        }
        Ok(())
    }

    fn inc_pc(&mut self) -> (r: Result<(), CodeGenError>)
        ensures
            final(self).insts == old(self).insts,
            r is Ok <==> old(self).pc < usize::MAX,
            r is Ok ==> final(self).pc == old(self).pc + 1,
            r is Err ==> final(self).pc == old(self).pc,
            r is Err ==> r == Err::<(), CodeGenError>(CodeGenError::PCOverFlow),
    {
        if safe_add(&mut self.pc, 1) {
            Ok(())
        } else {
            Err(CodeGenError::PCOverFlow)
        }
    }

    fn gen_char(&mut self, c: char) -> (r: Result<(), CodeGenError>)
        requires
            old(self).insts@.len() == old(self).pc,
        ensures
            gen_post(*old(self), *final(self), Regex::Char(c), r),
    {
        let ghost start = self.insts@;
        self.inc_pc()?;
        self.insts.push(Instruction::Char(c));
        proof {
            assert(self.insts@ =~= start + code(Regex::Char(c), self.pc - 1));
        }
        Ok(())
    }

    fn gen_or(&mut self, e1: &AST, e2: &AST) -> (r: Result<(), CodeGenError>)
        requires
            old(self).insts@.len() == old(self).pc,
        ensures
            gen_post(*old(self), *final(self), Regex::Or(Box::new(e1@), Box::new(e2@)), r),
        decreases size(e1@) + size(e2@) + 1, 0int,
    {
        //     split L1, L2
        // L1: code of e1
        //     jump L3
        // L2: code of e2
        // L3:
        let ghost start = self.insts@;
        let split_addr = self.pc;
        self.inc_pc()?;
        self.insts.push(Instruction::Split(self.pc, 0));
        self.gen_expr(e1)?;
        proof {
            lemma_code_len(e1@, split_addr + 1);
        }
        let jump_addr = self.pc;
        self.inc_pc()?;
        self.insts.push(Instruction::Jump(0));
        if split_addr < self.insts.len() {
            match self.insts[split_addr] {
                Instruction::Split(l1, _) => {
                    self.insts[split_addr] = Instruction::Split(l1, self.pc);
                },
                _ => {
                    return Err(CodeGenError::FailOr);
                },
            }
        } else {
            return Err(CodeGenError::FailOr);
        }
        let ghost l2 = self.pc;
        self.gen_expr(e2)?;
        proof {
            lemma_code_len(e2@, l2 as int);
        }
        if jump_addr < self.insts.len() {
            match self.insts[jump_addr] {
                Instruction::Jump(_) => {
                    self.insts[jump_addr] = Instruction::Jump(self.pc);
                },
                _ => {
                    return Err(CodeGenError::FailOr);
                },
            }
        } else {
            return Err(CodeGenError::FailOr);
        }
        proof {
            let m = Regex::Or(Box::new(e1@), Box::new(e2@));
            assert(self.insts@ =~= start + code(m, split_addr as int));
        }
        Ok(())
    }

    fn gen_plus(&mut self, e: &AST) -> (r: Result<(), CodeGenError>)
        requires
            old(self).insts@.len() == old(self).pc,
        ensures
            gen_post(*old(self), *final(self), Regex::Plus(Box::new(e@)), r),
        decreases size(e@) + 1, 0int,
    {
        // L1: code of e
        //     split L1, L2
        // L2:
        let ghost start = self.insts@;
        let l1 = self.pc;
        self.gen_expr(e)?;
        proof {
            lemma_code_len(e@, l1 as int);
        }
        self.inc_pc()?;
        self.insts.push(Instruction::Split(l1, self.pc));
        proof {
            assert(self.insts@ =~= start + code(Regex::Plus(Box::new(e@)), l1 as int));
        }
        Ok(())
    }

    fn gen_star(&mut self, e: &AST) -> (r: Result<(), CodeGenError>)
        requires
            old(self).insts@.len() == old(self).pc,
        ensures
            gen_post(*old(self), *final(self), Regex::Star(Box::new(e@)), r),
        decreases size(e@) + 1, 0int,
    {
        // L1: split L2, L3
        // L2: code of e
        //     jump L1
        // L3:
        let ghost start = self.insts@;
        let l1 = self.pc;
        self.inc_pc()?;
        self.insts.push(Instruction::Split(self.pc, 0));
        self.gen_expr(e)?;
        proof {
            lemma_code_len(e@, l1 + 1);
        }
        self.inc_pc()?;
        self.insts.push(Instruction::Jump(l1));
        if l1 < self.insts.len() {
            match self.insts[l1] {
                Instruction::Split(l2, _) => {
                    self.insts[l1] = Instruction::Split(l2, self.pc);
                },
                _ => {
                    return Err(CodeGenError::FailStar);
                },
            }
        } else {
            return Err(CodeGenError::FailStar);
        }
        proof {
            assert(self.insts@ =~= start + code(Regex::Star(Box::new(e@)), l1 as int));
        }
        Ok(())
    }

    fn gen_question(&mut self, e: &AST) -> (r: Result<(), CodeGenError>)
        requires
            old(self).insts@.len() == old(self).pc,
        ensures
            gen_post(*old(self), *final(self), Regex::Question(Box::new(e@)), r),
        decreases size(e@) + 1, 0int,
    {
        //     split L1, L2
        // L1: code of e
        // L2:
        let ghost start = self.insts@;
        let split_addr = self.pc;
        self.inc_pc()?;
        self.insts.push(Instruction::Split(self.pc, 0));
        self.gen_expr(e)?;
        proof {
            lemma_code_len(e@, split_addr + 1);
        }
        if split_addr < self.insts.len() {
            match self.insts[split_addr] {
                Instruction::Split(l1, _) => {
                    self.insts[split_addr] = Instruction::Split(l1, self.pc);
                },
                _ => {
                    return Err(CodeGenError::FailQuestion);
                },
            }
        } else {
            return Err(CodeGenError::FailQuestion);
        }
        proof {
            assert(self.insts@ =~= start + code(Regex::Question(Box::new(e@)), split_addr as int));
        }
        Ok(())
    }

    fn gen_seq(&mut self, exprs: &Vec<AST>) -> (r: Result<(), CodeGenError>)
        requires
            old(self).insts@.len() == old(self).pc,
        ensures
            gen_post(*old(self), *final(self), Regex::Concat(view_seq(exprs@)), r),
        decreases size_seq(view_seq(exprs@)) + 1, 0int,
    {
        let ghost start = self.insts@;
        let ghost pc0 = self.pc;
        let mut i: usize = 0;
        while i < exprs.len()
            invariant
                0 <= i <= exprs@.len(),
                pc0 == old(self).pc,
                start == old(self).insts@,
                pc0 + count_seq(view_seq(exprs@.take(i as int))) <= usize::MAX,
                self.insts@ == start + code_seq(view_seq(exprs@.take(i as int)), pc0 as int),
                self.pc == pc0 + count_seq(view_seq(exprs@.take(i as int))),
                self.insts@.len() == self.pc,
            decreases exprs@.len() - i,
        {
            proof {
                assert(exprs@.take(i + 1) =~= exprs@.take(i as int).push(exprs@[i as int]));
                crate::parser::lemma_view_seq_push(exprs@.take(i as int), exprs@[i as int]);
                let s = view_seq(exprs@.take(i + 1));
                assert(s.drop_last() =~= view_seq(exprs@.take(i as int)));
                assert(s.last() == exprs@[i as int]@);
            }
            proof {
                lemma_size_index(exprs@, i as int);
            }
            let ghost before = *self;
            match self.gen_expr(&exprs[i]) {
                Ok(()) => {},
                Err(e) => {
                    proof {
                        lemma_count_seq_prefix(exprs@, i + 1);
                    }
                    return Err(e);
                },
            }
            proof {
                lemma_code_len(exprs@[i as int]@, before.pc as int);
                lemma_code_seq_len(view_seq(exprs@.take(i + 1)), pc0 as int);
            }
            i = i + 1;
        }
        proof {
            assert(exprs@.take(i as int) =~= exprs@);
        }
        Ok(())
    }
}

} // verus!
