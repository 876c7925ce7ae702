//! A minimal stack-based language: a lexer that splits source text into
//! words and signed integer literals, a parser that resolves `{ … }` /
//! `{ … }{ … }` blocks into absolute jump indices, and a stack machine
//! that executes the resolved operation sequence.

pub mod ast;
pub mod lexer;
pub mod machine;
pub mod parser;

use vstd::prelude::*;

use crate::ast::{ParseError, RuntimeError};
use crate::lexer::{lex, lex_spec};
use crate::machine::{MachineState, init_state, run, run_n};
use crate::parser::{parse, parse_spec};

verus! {

/// The whole pipeline on one source text: lex, parse, then execute for at
/// most `fuel` steps. `Err` is the parse error; `Ok(None)` means the step
/// budget ran out with the program still running; `Ok(Some(..))` is the
/// machine's outcome — the final operand stack, or the runtime error.
pub fn run_program(source: &str, fuel: u64) -> (r: Result<
    Option<Result<Vec<i64>, RuntimeError>>,
    ParseError,
>)
    ensures
        ({
            let ps = parse_spec(lex_spec(source@));
            match r {
                Err(e) => ps == Err::<Seq<crate::ast::Op>, ParseError>(e),
                Ok(outcome) => ps is Ok && {
                    let out = run_n(ps->Ok_0, init_state(), fuel as nat);
                    match outcome {
                        None => out is Ok && out->Ok_0.ip < ps->Ok_0.len(),
                        Some(Ok(v)) => out is Ok && out->Ok_0.ip >= ps->Ok_0.len() && v@
                            == out->Ok_0.stack,
                        Some(Err(e)) => out == Err::<MachineState, RuntimeError>(e),
                    }
                },
            }
        }),
{
    let tokens = lex(source);
    match parse(&tokens) {
        Err(e) => Err(e),
        Ok(ops) => Ok(run(&ops, fuel)),
    }
}

} // verus!
