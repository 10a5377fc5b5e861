//! A small regular-expression engine: a parser from pattern text to an AST,
//! a code generator from the AST to a program for a backtracking machine, and
//! an evaluator that runs such a program against a text.
pub mod helper;
pub mod instruction;
pub mod parser;
pub mod codegen;
pub mod evaluator;
pub mod laws;

pub use codegen::{get_code, CodeGenError};
pub use evaluator::{is_match, EvalError};
pub use instruction::Instruction;
pub use parser::{parse, ParseError, AST};
