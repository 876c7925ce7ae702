//! The data the pipeline passes along: tokens, operations, and the two
//! error kinds of the parser and the stack machine.

use vstd::prelude::*;

verus! {

/// A lexical unit: a whitespace-delimited word, or a signed integer literal.
#[derive(Debug, PartialEq, Eq)]
pub enum Token {
    Word(String),
    Number(i64),
}

/// The mathematical image of a token: the word's characters, or the number.
pub enum TokenModel {
    Word(Seq<char>),
    Number(i64),
}

impl View for Token {
    type V = TokenModel;

    open spec fn view(&self) -> TokenModel {
        match self {
            Token::Word(s) => TokenModel::Word(s@),
            Token::Number(n) => TokenModel::Number(*n),
        }
    }
}

/// The image of a token sequence, token by token.
pub open spec fn tokens_view(ts: Seq<Token>) -> Seq<TokenModel> {
    ts.map_values(|t: Token| t@)
}

/// The primitive stack operations: binary arithmetic and comparisons,
/// duplicate, and drop.
#[derive(Clone, Copy, Debug, PartialEq, Eq, Structural)]
pub enum Intrinsic {
    Add,
    Sub,
    Mult,
    Div,
    Mod,
    LT,
    GT,
    LE,
    GE,
    EQ,
    NE,
    Dup,
    Drop,
}

/// One instruction of the flat program. `BStart(else_idx, end_idx)` heads a
/// block; a head with no else branch carries its own index as `else_idx`,
/// which the machine recognizes and turns into a jump to `end_idx`.
/// `BElse(start_idx, end_idx)` heads an else branch and back-references the
/// block head; `BEnd(head_idx)` terminates a block and back-references the
/// head it was matched with (the else head, when one exists).
#[derive(Clone, Copy, Debug, PartialEq, Eq, Structural)]
pub enum Op {
    Push(i64),
    Intr(Intrinsic),
    Cond,
    LoopMark,
    BStart(usize, usize),
    BElse(usize, usize),
    BEnd(usize),
}

/// Why parsing failed: a word outside the operator table, or a block
/// terminator / else marker with no open block.
#[derive(Clone, Copy, Debug, PartialEq, Eq, Structural)]
pub enum ParseError {
    UnknownWord,
    UnmatchedDelimiter,
}

/// Why execution failed: an operand was required and the stack was empty
/// (or held one value where two were needed), or a division or modulo by
/// zero.
#[derive(Clone, Copy, Debug, PartialEq, Eq, Structural)]
pub enum RuntimeError {
    StackUnderflow,
    DivisionByZero,
}

} // verus!
