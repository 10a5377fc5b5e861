use vstd::prelude::*;

use crate::helper::chars_of;

verus! {

/// Why a pattern was refused; positions count characters from 0.
#[derive(PartialEq, Eq, Structural, Clone, Copy, Debug)]
pub enum ParseError {
    /// A backslash was followed by a character that is not a metacharacter.
    InvalidEscape(usize, char),
    /// A `)` closed no group.
    InvalidRightParen(usize),
    /// A quantifier or `|` had no expression before it.
    NoPrev(usize),
    /// A group was left open at the end of the pattern.
    NoRightParen,
    /// The pattern held no expression.
    Empty,
}

/// The syntax tree of a pattern.
#[derive(Debug, PartialEq)]
pub enum AST {
    Char(char),
    Plus(Box<AST>),
    Star(Box<AST>),
    Question(Box<AST>),
    Or(Box<AST>, Box<AST>),
    Concat(Vec<AST>),
}

/// The mathematical value of an `AST`.
pub enum Regex {
    Char(char),
    Plus(Box<Regex>),
    Star(Box<Regex>),
    Question(Box<Regex>),
    Or(Box<Regex>, Box<Regex>),
    Concat(Seq<Regex>),
}

impl AST {
    pub open spec fn view(&self) -> Regex
        decreases self,
    {
        match self {
            AST::Char(c) => Regex::Char(*c),
            AST::Plus(e) => Regex::Plus(Box::new(e.view())),
            AST::Star(e) => Regex::Star(Box::new(e.view())),
            AST::Question(e) => Regex::Question(Box::new(e.view())),
            AST::Or(a, b) => Regex::Or(Box::new(a.view()), Box::new(b.view())),
            AST::Concat(v) => Regex::Concat(view_seq(v@)),
        }
    }
}

/// The values of a sequence of trees, in order.
pub open spec fn view_seq(s: Seq<AST>) -> Seq<Regex>
    decreases s,
{
    if s.len() == 0 {
        Seq::empty()
    } else {
        view_seq(s.drop_last()).push(s.last().view())
    }
}

pub proof fn lemma_view_seq_push(s: Seq<AST>, a: AST)
    ensures
        view_seq(s.push(a)) == view_seq(s).push(a@),
{
    assert(s.push(a).drop_last() =~= s);
}

pub proof fn lemma_view_seq_len(s: Seq<AST>)
    ensures
        view_seq(s).len() == s.len(),
    decreases s.len(),
{
    if s.len() > 0 {
        lemma_view_seq_len(s.drop_last());
    }
}

pub proof fn lemma_view_seq_drop_last(s: Seq<AST>)
    requires
        s.len() > 0,
    ensures
        view_seq(s.drop_last()) == view_seq(s).drop_last(),
        view_seq(s).last() == s.last()@,
{
    assert(view_seq(s).drop_last() =~= view_seq(s.drop_last()));
}

proof fn lemma_char_view(c: char)
    ensures
        AST::Char(c)@ == Regex::Char(c),
{
}

/// The characters that a backslash turns into literals.
pub open spec fn is_meta(c: char) -> bool {
    c == '\\' || c == '(' || c == ')' || c == '|' || c == '+' || c == '*' || c == '?'
}

/// Alternatives `prefix[0] | ... | last`, nested to the right.
pub open spec fn or_chain(prefix: Seq<Regex>, last: Regex) -> Regex
    decreases prefix.len(),
{
    if prefix.len() == 0 {
        last
    } else {
        Regex::Or(Box::new(prefix[0]), Box::new(or_chain(prefix.drop_first(), last)))
    }
}

/// The alternation of the given branches: none for no branch, the branch
/// itself for one.
pub open spec fn fold_or_spec(branches: Seq<Regex>) -> Option<Regex> {
    if branches.len() == 0 {
        None
    } else {
        Some(or_chain(branches.drop_last(), branches.last()))
    }
}

/// The state of the scan over a pattern: the expressions of the current
/// concatenation, the finished branches of the current group, the saved
/// states of the enclosing groups, and whether a backslash is pending.
pub struct ScanState {
    pub seq: Seq<Regex>,
    pub seq_or: Seq<Regex>,
    pub stack: Seq<(Seq<Regex>, Seq<Regex>)>,
    pub escape: bool,
}

/// The branches of a group once its current concatenation, if any, is closed.
pub open spec fn close_branch(seq: Seq<Regex>, seq_or: Seq<Regex>) -> Seq<Regex> {
    if seq.len() > 0 {
        seq_or.push(Regex::Concat(seq))
    } else {
        seq_or
    }
}

pub open spec fn initial_scan() -> ScanState {
    ScanState { seq: Seq::empty(), seq_or: Seq::empty(), stack: Seq::empty(), escape: false }
}

/// The last expression of `seq` under a quantifier.
pub open spec fn quantify(seq: Seq<Regex>, c: char) -> Seq<Regex> {
    let e = Box::new(seq.last());
    seq.drop_last().push(
        if c == '+' {
            Regex::Plus(e)
        } else if c == '*' {
            Regex::Star(e)
        } else {
            Regex::Question(e)
        },
    )
}

/// One step of the scan: character `c` at position `i`.
pub open spec fn scan_step(st: ScanState, i: int, c: char) -> Result<ScanState, ParseError> {
    if st.escape {
        if is_meta(c) {
            Ok(ScanState { seq: st.seq.push(Regex::Char(c)), escape: false, ..st })
        } else {
            Err(ParseError::InvalidEscape(i as usize, c))
        }
    } else if c == '+' || c == '*' || c == '?' {
        if st.seq.len() == 0 {
            Err(ParseError::NoPrev(i as usize))
        } else {
            Ok(ScanState { seq: quantify(st.seq, c), ..st })
        }
    } else if c == '(' {
        Ok(
            ScanState {
                seq: Seq::empty(),
                seq_or: Seq::empty(),
                stack: st.stack.push((st.seq, st.seq_or)),
                escape: false,
            },
        )
    } else if c == ')' {
        if st.stack.len() == 0 {
            Err(ParseError::InvalidRightParen(i as usize))
        } else {
            let (prev, prev_or) = st.stack.last();
            let outer = match fold_or_spec(close_branch(st.seq, st.seq_or)) {
                Some(a) => prev.push(a),
                None => prev,
            };
            Ok(ScanState { seq: outer, seq_or: prev_or, stack: st.stack.drop_last(), escape: false })
        }
    } else if c == '|' {
        if st.seq.len() == 0 {
            Err(ParseError::NoPrev(i as usize))
        } else {
            Ok(
                ScanState {
                    seq: Seq::empty(),
                    seq_or: st.seq_or.push(Regex::Concat(st.seq)),
                    ..st
                },
            )
        }
    } else if c == '\\' {
        Ok(ScanState { escape: true, ..st })
    } else {
        Ok(ScanState { seq: st.seq.push(Regex::Char(c)), ..st })
    }
}

/// The scan over all of `s`, or the first error it meets.
pub open spec fn scan(s: Seq<char>) -> Result<ScanState, ParseError>
    decreases s.len(),
{
    if s.len() == 0 {
        Ok(initial_scan())
    } else {
        match scan(s.drop_last()) {
            Ok(st) => scan_step(st, s.len() - 1, s.last()),
            Err(e) => Err(e),
        }
    }
}

/// What parsing `s` gives.
pub open spec fn parse_spec(s: Seq<char>) -> Result<Regex, ParseError> {
    match scan(s) {
        Err(e) => Err(e),
        Ok(st) => if st.stack.len() > 0 {
            Err(ParseError::NoRightParen)
        } else {
            match fold_or_spec(close_branch(st.seq, st.seq_or)) {
                Some(a) => Ok(a),
                None => Err(ParseError::Empty),
            }
        },
    }
}

proof fn lemma_scan_err(s: Seq<char>, k: int)
    requires
        0 <= k <= s.len(),
        scan(s.take(k)) is Err,
    ensures
        scan(s) == scan(s.take(k)),
    decreases s.len(),
{
    if k < s.len() {
        assert(s.drop_last().take(k) =~= s.take(k));
        lemma_scan_err(s.drop_last(), k);
    } else {
        assert(s.take(k) =~= s);
    }
}

pub proof fn lemma_scan_step_plain(st: ScanState, i: int, c: char)
    requires
        !st.escape,
        !is_meta(c),
    ensures
        scan_step(st, i, c) == Ok::<ScanState, ParseError>(
            ScanState { seq: st.seq.push(Regex::Char(c)), ..st },
        ),
{
}

/// The nodes of `q` are the characters of `s`, one for one.
pub open spec fn char_nodes_of(q: Seq<Regex>, s: Seq<char>) -> bool {
    &&& q.len() == s.len()
    &&& forall|i: int| 0 <= i < s.len() ==> (#[trigger] q[i] is Char && q[i]->Char_0 == s[i])
}

proof fn lemma_char_nodes_push(q: Seq<Regex>, s: Seq<char>, c: char)
    requires
        s.len() > 0,
        c == s.last(),
        char_nodes_of(q, s.drop_last()),
    ensures
        char_nodes_of(q.push(Regex::Char(c)), s),
{
    assert forall|i: int| 0 <= i < s.len() implies (#[trigger] q.push(Regex::Char(c))[i] is Char
        && q.push(Regex::Char(c))[i]->Char_0 == s[i]) by {
        if i < s.len() - 1 {
            assert(q[i] is Char && q[i]->Char_0 == s.drop_last()[i]);
        }
    }
}

proof fn last_char(s: Seq<char>) -> (c: char)
    requires
        s.len() > 0,
    ensures
        c == s.last(),
{
    s.last()
}

/// `p` is a pattern without operators that spells the text `s`: each of its
/// characters is either not a metacharacter, or a metacharacter that a
/// backslash before it turns into a literal.
pub open spec fn spells(p: Seq<char>, s: Seq<char>) -> bool
    decreases p.len(),
{
    if p.len() == 0 {
        s.len() == 0
    } else if s.len() == 0 {
        false
    } else if !is_meta(p.last()) {
        p.last() == s.last() && spells(p.drop_last(), s.drop_last())
    } else {
        &&& p.len() >= 2
        &&& p[p.len() - 2] == '\\'
        &&& p.last() == s.last()
        &&& spells(p.drop_last().drop_last(), s.drop_last())
    }
}

/// Scanning a pattern without operators only collects the characters that it
/// spells.
proof fn lemma_scan_spelled(p: Seq<char>, s: Seq<char>) -> (st: ScanState)
    requires
        spells(p, s),
    ensures
        scan(p) == Ok::<ScanState, ParseError>(st),
        char_nodes_of(st.seq, s),
        st.seq_or.len() == 0,
        st.stack.len() == 0,
        !st.escape,
    decreases p.len(),
{
    if p.len() == 0 {
        assert(s.len() == 0);
        initial_scan()
    } else {
        let c = last_char(p);
        if !is_meta(c) {
            let st0 = lemma_scan_spelled(p.drop_last(), s.drop_last());
            lemma_scan_step_plain(st0, p.len() - 1, c);
            lemma_char_nodes_push(st0.seq, s, c);
            ScanState { seq: st0.seq.push(Regex::Char(c)), seq_or: st0.seq_or, stack: st0.stack, escape: false }
        } else {
            let front = p.drop_last();
            let st0 = lemma_scan_spelled(front.drop_last(), s.drop_last());
            assert(front.last() == '\\');
            assert(front.drop_last() =~= p.take(p.len() - 2));
            let mid = ScanState { seq: st0.seq, seq_or: st0.seq_or, stack: st0.stack, escape: true };
            assert(scan(front) == Ok::<ScanState, ParseError>(mid));
            lemma_char_nodes_push(st0.seq, s, c);
            ScanState { seq: st0.seq.push(Regex::Char(c)), seq_or: st0.seq_or, stack: st0.stack, escape: false }
        }
    }
}

/// A pattern without operators parses to the concatenation of the
/// characters that it spells.
pub proof fn lemma_parse_spelled(p: Seq<char>, s: Seq<char>) -> (q: Seq<Regex>)
    requires
        spells(p, s),
        s.len() > 0,
    ensures
        parse_spec(p) == Ok::<Regex, ParseError>(Regex::Concat(q)),
        char_nodes_of(q, s),
{
    let st = lemma_scan_spelled(p, s);
    assert(close_branch(st.seq, st.seq_or) =~= seq![Regex::Concat(st.seq)]);
    assert(seq![Regex::Concat(st.seq)].drop_last() =~= Seq::<Regex>::empty());
    st.seq
}

/// The values of the saved group states.
pub open spec fn view_stack(stack: Seq<(Vec<AST>, Vec<AST>)>) -> Seq<(Seq<Regex>, Seq<Regex>)> {
    stack.map_values(|f: (Vec<AST>, Vec<AST>)| (view_seq(f.0@), view_seq(f.1@)))
}

fn parse_escape(pos: usize, c: char) -> (r: Result<AST, ParseError>)
    ensures
        is_meta(c) ==> (r matches Ok(a) && a@ == Regex::Char(c)),
        !is_meta(c) ==> r == Err::<AST, ParseError>(ParseError::InvalidEscape(pos, c)),
{
    match c {
        '\\' | '(' | ')' | '|' | '+' | '*' | '?' => Ok(AST::Char(c)),
        _ => Err(ParseError::InvalidEscape(pos, c)),
    }
}

enum ParseState {
    Char,
    Escape,
}

enum PSQ {
    Plus,
    Star,
    Question,
}

spec fn psq_char(k: PSQ) -> char {
    match k {
        PSQ::Plus => '+',
        PSQ::Star => '*',
        PSQ::Question => '?',
    }
}

fn parse_plus_star_question(seq: &mut Vec<AST>, ast_type: PSQ, pos: usize) -> (r: Result<
    (),
    ParseError,
>)
    ensures
        old(seq)@.len() == 0 ==> r == Err::<(), ParseError>(ParseError::NoPrev(pos)),
        old(seq)@.len() == 0 ==> final(seq)@ == old(seq)@,
        old(seq)@.len() > 0 ==> r is Ok && view_seq(final(seq)@) == quantify(
            view_seq(old(seq)@),
            psq_char(ast_type),
        ),
{
    if let Some(prev) = seq.pop() {
        proof {
            lemma_view_seq_drop_last(old(seq)@);
        }
        let ast = match ast_type {
            PSQ::Plus => AST::Plus(Box::new(prev)),
            PSQ::Star => AST::Star(Box::new(prev)),
            PSQ::Question => AST::Question(Box::new(prev)),
        };
        let ghost before = seq@;
        seq.push(ast);
        proof {
            lemma_view_seq_push(before, ast);
        }
        Ok(())
    } else {
        Err(ParseError::NoPrev(pos))
    }
}

fn fold_or(seq_or: Vec<AST>) -> (r: Option<AST>)
    ensures
        match r {
            Some(a) => fold_or_spec(view_seq(seq_or@)) == Some(a@),
            None => fold_or_spec(view_seq(seq_or@)) is None,
        },
{
    let ghost orig = view_seq(seq_or@);
    let ghost len = seq_or@.len() as int;
    proof {
        lemma_view_seq_len(seq_or@);
    }
    let mut rest = seq_or;
    match rest.pop() {
        None => None,
        Some(last) => {
            proof {
                lemma_view_seq_drop_last(seq_or@);
                assert(orig.subrange(len - 1, len - 1) =~= Seq::<Regex>::empty());
            }
            let mut ast = last;
            while rest.len() > 0
                invariant
                    rest@.len() < len,
                    len == orig.len(),
                    view_seq(rest@) == orig.take(rest@.len() as int),
                    ast@ == or_chain(orig.subrange(rest@.len() as int, len - 1), orig.last()),
                decreases rest@.len(),
            {
                let ghost n = rest@.len() as int;
                proof {
                    lemma_view_seq_drop_last(rest@);
                }
                let s = rest.pop().unwrap();
                proof {
                    assert(orig.subrange(n - 1, len - 1).drop_first() =~= orig.subrange(n, len - 1));
                    assert(orig.take(n - 1) =~= orig.take(n).drop_last());
                }
                ast = AST::Or(Box::new(s), Box::new(ast));
            }
            proof {
                assert(orig.subrange(0, len - 1) =~= orig.drop_last());
            }
            Some(ast)
        },
    }
}

/// The scan state that the parser's working values stand for.
spec fn abs_state(
    seq: Vec<AST>,
    seq_or: Vec<AST>,
    stack: Vec<(Vec<AST>, Vec<AST>)>,
    state: ParseState,
) -> ScanState {
    ScanState {
        seq: view_seq(seq@),
        seq_or: view_seq(seq_or@),
        stack: view_stack(stack@),
        escape: state is Escape,
    }
}

/// Parses a pattern into its syntax tree.
pub fn parse(expr: &str) -> (r: Result<AST, ParseError>)
    ensures
        match r {
            Ok(a) => parse_spec(expr@) == Ok::<Regex, ParseError>(a@),
            Err(e) => parse_spec(expr@) == Err::<Regex, ParseError>(e),
        },
{
    let chars = chars_of(expr);
    let mut seq: Vec<AST> = Vec::new();
    let mut seq_or: Vec<AST> = Vec::new();
    let mut stack: Vec<(Vec<AST>, Vec<AST>)> = Vec::new();
    let mut state = ParseState::Char;
    let mut i: usize = 0;
    proof {
        assert(chars@.take(0) =~= Seq::<char>::empty());
        assert(view_stack(stack@) =~= Seq::empty());
    }
    while i < chars.len()
        invariant
            chars@ == expr@,
            0 <= i <= chars@.len(),
            scan(chars@.take(i as int)) == Ok::<ScanState, ParseError>(
                abs_state(seq, seq_or, stack, state),
            ),
        decreases chars@.len() - i,
    {
        let c = chars[i];
        let ghost st = abs_state(seq, seq_or, stack, state);
        proof {
            assert(chars@.take(i + 1).drop_last() =~= chars@.take(i as int));
        }
        let ghost next = scan_step(st, i as int, c);
        assert(scan(chars@.take(i + 1)) == next);
        match state {
            ParseState::Char => match c {
                '+' | '*' | '?' => {
                    let kind = if c == '+' {
                        PSQ::Plus
                    } else if c == '*' {
                        PSQ::Star
                    } else {
                        PSQ::Question
                    };
                    match parse_plus_star_question(&mut seq, kind, i) {
                        Ok(()) => {},
                        Err(e) => {
                            proof {
                                lemma_scan_err(chars@, i + 1);
                            }
                            return Err(e);
                        },
                    }
                },
                '(' => {
                    let ghost before = stack@;
                    stack.push((seq, seq_or));
                    seq = Vec::new();
                    seq_or = Vec::new();
                    proof {
                        assert(view_stack(stack@) =~= view_stack(before).push(
                            (st.seq, st.seq_or),
                        ));
                        assert(view_seq(seq@) =~= Seq::empty());
                        assert(view_seq(seq_or@) =~= Seq::empty());
                    }
                },
                ')' => {
                    let ghost before = stack@;
                    match stack.pop() {
                        Some((mut prev, prev_or)) => {
                            proof {
                                assert(view_stack(stack@) =~= view_stack(before).drop_last());
                                assert(view_stack(before).last() == (
                                    view_seq(prev@),
                                    view_seq(prev_or@),
                                ));
                            }
                            if seq.len() > 0 {
                                let ghost b = seq_or@;
                                seq_or.push(AST::Concat(seq));
                                proof {
                                    lemma_view_seq_push(b, AST::Concat(seq));
                                }
                            }
                            assert(view_seq(seq_or@) == close_branch(st.seq, st.seq_or));
                            match fold_or(seq_or) {
                                Some(ast) => {
                                    let ghost p = prev@;
                                    prev.push(ast);
                                    proof {
                                        lemma_view_seq_push(p, ast);
                                    }
                                },
                                None => {},
                            }
                            seq = prev;
                            seq_or = prev_or;
                        },
                        None => {
                            proof {
                                lemma_scan_err(chars@, i + 1);
                            }
                            return Err(ParseError::InvalidRightParen(i));
                        },
                    }
                },
                '|' => {
                    if seq.len() == 0 {
                        proof {
                            lemma_scan_err(chars@, i + 1);
                        }
                        return Err(ParseError::NoPrev(i));
                    } else {
                        let prev = seq;
                        seq = Vec::new();
                        let ghost b = seq_or@;
                        seq_or.push(AST::Concat(prev));
                        proof {
                            lemma_view_seq_push(b, AST::Concat(prev));
                            assert(view_seq(seq@) =~= Seq::empty());
                        }
                    }
                },
                '\\' => state = ParseState::Escape,
                _ => {
                    let ghost b = seq@;
                    seq.push(AST::Char(c));
                    proof {
                        lemma_view_seq_push(b, AST::Char(c));
                        lemma_char_view(c);
                    }
                },
            },
            ParseState::Escape => {
                match parse_escape(i, c) {
                    Ok(ast) => {
                        let ghost b = seq@;
                        seq.push(ast);
                        proof {
                            lemma_view_seq_push(b, ast);
                        }
                        state = ParseState::Char;
                    },
                    Err(e) => {
                        proof {
                            lemma_scan_err(chars@, i + 1);
                        }
                        return Err(e);
                    },
                }
            },
        }
        assert(next == Ok::<ScanState, ParseError>(abs_state(seq, seq_or, stack, state)));
        i = i + 1;
    }
    proof {
        assert(chars@.take(i as int) =~= chars@);
    }
    if stack.len() > 0 {
        return Err(ParseError::NoRightParen);
    }
    if seq.len() > 0 {
        let ghost b = seq_or@;
        seq_or.push(AST::Concat(seq));
        proof {
            lemma_view_seq_push(b, AST::Concat(seq));
        }
    }
    match fold_or(seq_or) {
        Some(ast) => Ok(ast),
        None => Err(ParseError::Empty),
    }
}

} // verus!
