use regex_vm::{get_code, is_match, parse, EvalError, Instruction, ParseError, AST};

fn compile(pattern: &str) -> Vec<Instruction> {
    let ast = parse(pattern).expect("pattern parses");
    get_code(&ast).expect("pattern compiles")
}

fn run(pattern: &str, text: &str) -> bool {
    is_match(&compile(pattern), text).expect("program runs")
}

fn ch(c: char) -> AST {
    AST::Char(c)
}

fn cat(v: Vec<AST>) -> AST {
    AST::Concat(v)
}

#[test]
fn literal_patterns_match_their_text() {
    for s in ["a", "abc", "hello world", "xyz123"] {
        assert!(run(s, s), "{}", s);
    }
}

#[test]
fn escaped_literal_matches_its_text() {
    assert!(run("a\\*b\\(\\)", "a*b()"));
    assert!(run("\\\\\\|\\+\\?", "\\|+?"));
}

#[test]
fn parse_errors_on_malformed_patterns() {
    assert_eq!(parse("").unwrap_err(), ParseError::Empty);
    assert_eq!(parse("(").unwrap_err(), ParseError::NoRightParen);
    assert_eq!(parse(")").unwrap_err(), ParseError::InvalidRightParen(0));
    assert_eq!(parse("*").unwrap_err(), ParseError::NoPrev(0));
    assert_eq!(parse("+").unwrap_err(), ParseError::NoPrev(0));
    assert_eq!(parse("?").unwrap_err(), ParseError::NoPrev(0));
}

#[test]
fn parse_error_positions() {
    assert_eq!(parse("\\a").unwrap_err(), ParseError::InvalidEscape(1, 'a'));
    assert_eq!(parse("ab)").unwrap_err(), ParseError::InvalidRightParen(2));
    assert_eq!(parse("|a").unwrap_err(), ParseError::NoPrev(0));
    assert_eq!(parse("a|*").unwrap_err(), ParseError::NoPrev(2));
    assert_eq!(parse("a(b").unwrap_err(), ParseError::NoRightParen);
    assert_eq!(parse("()").unwrap_err(), ParseError::Empty);
}

#[test]
fn alternation_nests_to_the_right() {
    let expected = AST::Or(
        Box::new(cat(vec![ch('a')])),
        Box::new(AST::Or(Box::new(cat(vec![ch('b')])), Box::new(cat(vec![ch('c')])))),
    );
    assert_eq!(parse("a|b|c").unwrap(), expected);
}

#[test]
fn groups_and_quantifiers_parse() {
    let expected = cat(vec![
        ch('a'),
        AST::Star(Box::new(AST::Or(Box::new(cat(vec![ch('b')])), Box::new(cat(vec![ch('c')]))))),
        AST::Question(Box::new(ch('d'))),
        AST::Plus(Box::new(ch('e'))),
    ]);
    assert_eq!(parse("a(b|c)*d?e+").unwrap(), expected);
}

#[test]
fn trailing_backslash_is_dropped() {
    assert_eq!(parse("a\\").unwrap(), cat(vec![ch('a')]));
    assert_eq!(parse("\\").unwrap_err(), ParseError::Empty);
}

#[test]
fn star_compiles_to_four_instructions() {
    assert_eq!(
        compile("a*"),
        vec![Instruction::Split(1, 3), Instruction::Char('a'), Instruction::Jump(0), Instruction::Match]
    );
}

#[test]
fn other_nodes_compile_as_laid_out() {
    assert_eq!(
        compile("a|b"),
        vec![
            Instruction::Split(1, 3),
            Instruction::Char('a'),
            Instruction::Jump(4),
            Instruction::Char('b'),
            Instruction::Match
        ]
    );
    assert_eq!(compile("a+"), vec![Instruction::Char('a'), Instruction::Split(0, 2), Instruction::Match]);
    assert_eq!(compile("a?"), vec![Instruction::Split(1, 2), Instruction::Char('a'), Instruction::Match]);
}

#[test]
fn instruction_counts() {
    assert_eq!(compile("a").len(), 2);
    assert_eq!(compile("abc").len(), 4);
    assert_eq!(compile("a|b").len(), 5);
    assert_eq!(compile("a*").len(), 4);
    assert_eq!(compile("a+").len(), 3);
    assert_eq!(compile("a?").len(), 3);
    assert_eq!(compile("(ab|c)*d").len(), 9);
}

#[test]
fn parsed_patterns_compile() {
    for p in ["a", "a|b|c", "(a|b)*c", "a+b?", "((a)*)*", "x(y(z|w)+)?"] {
        assert!(get_code(&parse(p).unwrap()).is_ok(), "{}", p);
    }
}

#[test]
fn evaluation_repeats() {
    let code = compile("a(b|c)*d");
    let first = is_match(&code, "abcbd");
    let second = is_match(&code, "abcbd");
    assert_eq!(first, second);
    assert_eq!(first, Ok(true));
}

#[test]
fn alternation_in_group() {
    assert!(run("a(b|c)d", "abd"));
    assert!(run("a(b|c)d", "acd"));
    assert!(!run("a(b|c)d", "axd"));
}

#[test]
fn matches_anywhere_in_text() {
    assert!(run("b", "abc"));
    assert!(run("cd", "abcd"));
    assert!(!run("abc", "ab"));
    assert!(!run("a", ""));
    assert!(run("a*", ""));
}

#[test]
fn repetition() {
    assert!(run("ab+c", "abbbc"));
    assert!(!run("ab+c", "ac"));
    assert!(run("ab*c", "ac"));
    assert!(run("ab?c", "abc"));
    assert!(!run("ab?c", "abbc"));
    assert!(run("(a|b)*c", "ababc"));
}

#[test]
fn nested_empty_loops_terminate() {
    assert!(run("(a*)*b", "aab"));
    assert!(!run("(a*)*b", "aaa"));
    assert!(run("(a?)+", "x"));
}

#[test]
fn malformed_programs_are_refused() {
    assert_eq!(is_match(&vec![], "a"), Err(EvalError::InvalidPC));
    assert_eq!(is_match(&vec![Instruction::Jump(5)], "a"), Err(EvalError::InvalidPC));
    assert_eq!(is_match(&vec![Instruction::Split(0, 2), Instruction::Match], "a"), Err(EvalError::InvalidPC));
    assert_eq!(is_match(&vec![Instruction::Char('a')], "a"), Err(EvalError::InvalidPC));
}

#[test]
fn hand_written_programs_run() {
    let p = vec![Instruction::Char('a'), Instruction::Jump(3), Instruction::Char('z'), Instruction::Match];
    assert_eq!(is_match(&p, "xa"), Ok(true));
    assert_eq!(is_match(&p, "xz"), Ok(false));
    let looping = vec![Instruction::Split(0, 0), Instruction::Match];
    assert_eq!(is_match(&looping, "q"), Ok(false));
}

#[test]
fn faulty_instruction_is_refused_even_if_unreached() {
    assert_eq!(is_match(&vec![Instruction::Match, Instruction::Jump(5)], "a"), Err(EvalError::InvalidPC));
    assert_eq!(
        is_match(&vec![Instruction::Split(1, 2), Instruction::Match, Instruction::Jump(9)], ""),
        Err(EvalError::InvalidPC)
    );
}

#[test]
fn grouped_literals_match_their_text() {
    assert!(run("(ab)c", "abc"));
    assert!(run("((a)(b))(c)", "abc"));
    assert_eq!(compile("(ab)c").len(), 4);
    assert!(!run("(ab)c", "acb"));
}
