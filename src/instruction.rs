use vstd::prelude::*;

verus! {

/// One instruction of a program; addresses are indices into the program.
#[derive(PartialEq, Eq, Structural, Clone, Copy, Debug)]
pub enum Instruction {
    /// Consume one character of the text if it equals this one.
    Char(char),
    /// Report success.
    Match,
    /// Continue at the given address.
    Jump(usize),
    /// Try the first address, then the second.
    Split(usize, usize),
}

} // verus!
