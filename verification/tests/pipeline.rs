use stacklang::ast::{Intrinsic, Op, ParseError, RuntimeError, Token};
use stacklang::lexer::{lex, lex_token};
use stacklang::machine::run;
use stacklang::parser::parse;

fn run_source(src: &str, fuel: u64) -> Option<Result<Vec<i64>, RuntimeError>> {
    let toks = lex(src);
    let ops = parse(&toks).expect("program should parse");
    run(&ops, fuel)
}

#[test]
fn lex_empty_input_yields_no_tokens() {
    assert_eq!(lex("").len(), 0);
}

#[test]
fn lex_whitespace_only_yields_no_tokens() {
    assert_eq!(lex(" \t\r\n   \u{00A0}\u{2003}").len(), 0);
}

#[test]
fn lex_classifies_numbers_and_words() {
    let toks = lex("-42 007 x1 10000000000 -9999999999 - }{");
    assert_eq!(
        toks,
        vec![
            Token::Number(-42),
            Token::Number(7),
            Token::Word("x1".to_string()),
            Token::Word("10000000000".to_string()),
            Token::Number(-9999999999),
            Token::Word("-".to_string()),
            Token::Word("}{".to_string()),
        ]
    );
}

#[test]
fn lex_token_ten_digits_is_a_number() {
    assert_eq!(lex_token("0011223344"), Token::Number(11223344));
}

#[test]
fn lex_token_eleven_digits_is_a_word() {
    assert_eq!(lex_token("00112233445"), Token::Word("00112233445".to_string()));
}

#[test]
fn lex_token_lone_minus_is_a_word() {
    assert_eq!(lex_token("-"), Token::Word("-".to_string()));
}

#[test]
fn lex_token_minus_zero_is_a_number() {
    assert_eq!(lex_token("-0"), Token::Number(0));
}

#[test]
fn lex_token_digits_with_suffix_are_a_word() {
    assert_eq!(lex_token("3x"), Token::Word("3x".to_string()));
}

#[test]
fn parse_rejects_words_outside_the_table() {
    assert_eq!(parse(&lex("λ")), Err(ParseError::UnknownWord));
    assert_eq!(parse(&lex("++")), Err(ParseError::UnknownWord));
}

#[test]
fn parse_resolves_if_else_block_indices() {
    let ops = parse(&lex("0 { 99 }{ 88 }")).unwrap();
    assert_eq!(
        ops,
        vec![
            Op::Push(0),
            Op::BStart(3, 5),
            Op::Push(99),
            Op::BElse(1, 5),
            Op::Push(88),
            Op::BEnd(3),
        ]
    );
}

#[test]
fn parse_resolves_plain_block_indices() {
    let ops = parse(&lex("0 { 99 }")).unwrap();
    assert_eq!(ops, vec![Op::Push(0), Op::BStart(1, 3), Op::Push(99), Op::BEnd(1)]);
}

#[test]
fn parse_maps_every_operator() {
    let ops = parse(&lex("+ - * / % < > <= >= == != : ; ? @")).unwrap();
    assert_eq!(
        ops,
        vec![
            Op::Intr(Intrinsic::Add),
            Op::Intr(Intrinsic::Sub),
            Op::Intr(Intrinsic::Mult),
            Op::Intr(Intrinsic::Div),
            Op::Intr(Intrinsic::Mod),
            Op::Intr(Intrinsic::LT),
            Op::Intr(Intrinsic::GT),
            Op::Intr(Intrinsic::LE),
            Op::Intr(Intrinsic::GE),
            Op::Intr(Intrinsic::EQ),
            Op::Intr(Intrinsic::NE),
            Op::Intr(Intrinsic::Dup),
            Op::Intr(Intrinsic::Drop),
            Op::Cond,
            Op::LoopMark,
        ]
    );
}

#[test]
fn parse_unmatched_terminator_fails() {
    assert_eq!(parse(&lex("}")), Err(ParseError::UnmatchedDelimiter));
}

#[test]
fn parse_unmatched_else_fails() {
    assert_eq!(parse(&lex("1 }{ 2")), Err(ParseError::UnmatchedDelimiter));
}

#[test]
fn parse_unknown_word_fails() {
    assert_eq!(parse(&lex("foo")), Err(ParseError::UnknownWord));
}

#[test]
fn run_addition() {
    assert_eq!(run_source("3 4 +", 100), Some(Ok(vec![7])));
}

#[test]
fn run_subtraction_is_second_minus_first() {
    assert_eq!(run_source("10 3 -", 100), Some(Ok(vec![7])));
}

#[test]
fn run_duplicate() {
    assert_eq!(run_source("5 :", 100), Some(Ok(vec![5, 5])));
}

#[test]
fn run_drop() {
    assert_eq!(run_source("5 ;", 100), Some(Ok(vec![])));
}

#[test]
fn run_if_true_takes_then_branch() {
    assert_eq!(run_source("1 { 99 }{ 88 }", 100), Some(Ok(vec![99])));
}

#[test]
fn run_if_false_takes_else_branch() {
    assert_eq!(run_source("0 { 99 }{ 88 }", 100), Some(Ok(vec![88])));
}

#[test]
fn run_if_false_without_else_skips_body() {
    assert_eq!(run_source("0 { 99 }", 100), Some(Ok(vec![])));
}

#[test]
fn run_nested_blocks() {
    assert_eq!(run_source("1 { 1 { 42 } }", 100), Some(Ok(vec![42])));
}

#[test]
fn run_empty_program_yields_empty_stack() {
    assert_eq!(run(&Vec::new(), 100), Some(Ok(vec![])));
    assert_eq!(run(&Vec::new(), 0), Some(Ok(vec![])));
}

#[test]
fn run_underflow_is_an_error() {
    assert_eq!(run_source("+", 100), Some(Err(RuntimeError::StackUnderflow)));
}

#[test]
fn run_underflow_on_one_of_two_operands() {
    assert_eq!(run_source("1 *", 100), Some(Err(RuntimeError::StackUnderflow)));
}

#[test]
fn run_division_truncates() {
    assert_eq!(run_source("7 2 /", 100), Some(Ok(vec![3])));
    assert_eq!(run_source("-7 2 /", 100), Some(Ok(vec![-3])));
    assert_eq!(run_source("7 2 %", 100), Some(Ok(vec![1])));
}

#[test]
fn run_division_by_zero_is_an_error() {
    assert_eq!(run_source("1 0 /", 100), Some(Err(RuntimeError::DivisionByZero)));
    assert_eq!(run_source("1 0 %", 100), Some(Err(RuntimeError::DivisionByZero)));
}

#[test]
fn run_comparisons() {
    assert_eq!(run_source("3 4 <", 100), Some(Ok(vec![1])));
    assert_eq!(run_source("3 4 >", 100), Some(Ok(vec![0])));
    assert_eq!(run_source("2 2 ==", 100), Some(Ok(vec![1])));
    assert_eq!(run_source("2 3 !=", 100), Some(Ok(vec![1])));
    assert_eq!(run_source("5 5 <=", 100), Some(Ok(vec![1])));
    assert_eq!(run_source("5 4 >=", 100), Some(Ok(vec![1])));
}

#[test]
fn run_cond_normalizes_truthiness() {
    assert_eq!(run_source("5 ?", 100), Some(Ok(vec![1])));
    assert_eq!(run_source("0 ?", 100), Some(Ok(vec![0])));
    assert_eq!(run_source("-3 ?", 100), Some(Ok(vec![1])));
}

#[test]
fn run_loop_exits_when_condition_turns_zero() {
    assert_eq!(run_source("2 @ { 7 0 }", 1000), Some(Ok(vec![7])));
}

#[test]
fn run_reports_exhausted_step_budget() {
    let ops = vec![Op::Push(1), Op::LoopMark, Op::BEnd(0)];
    assert_eq!(run(&ops, 1000), None);
}

#[test]
fn run_program_composes_the_pipeline() {
    assert_eq!(stacklang::run_program("3 4 +", 100), Ok(Some(Ok(vec![7]))));
}

#[test]
fn run_program_reports_parse_errors() {
    assert_eq!(stacklang::run_program("}", 100), Err(ParseError::UnmatchedDelimiter));
    assert_eq!(stacklang::run_program("nope", 100), Err(ParseError::UnknownWord));
}

#[test]
fn run_program_reports_exhausted_budget() {
    assert_eq!(stacklang::run_program("1 @ { 5 ; 0 @ }", 10000), Ok(None));
}

#[test]
fn run_addition_wraps_around() {
    let ops = vec![Op::Push(i64::MAX), Op::Push(1), Op::Intr(Intrinsic::Add)];
    assert_eq!(run(&ops, 10), Some(Ok(vec![i64::MIN])));
}
