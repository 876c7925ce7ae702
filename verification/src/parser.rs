//! The parser: maps recognized word lexemes to operations, turns numbers
//! into pushes, and resolves `{`, `}{`, `}` into block operations whose
//! jump targets are absolute indices into the output sequence. Open blocks
//! are tracked on a pending-index stack; the operation a pending index
//! points at is patched in place when its else marker or terminator is
//! found.

use vstd::prelude::*;

use crate::ast::{Intrinsic, Op, ParseError, Token, TokenModel, tokens_view};
use vstd::string::StrSliceExecFns;

verus! {

/// The operation a one-character lexeme stands for.
pub open spec fn lexeme1(c: char) -> Option<Op> {
    if c == '+' {
        Some(Op::Intr(Intrinsic::Add))
    } else if c == '-' {
        Some(Op::Intr(Intrinsic::Sub))
    } else if c == '*' {
        Some(Op::Intr(Intrinsic::Mult))
    } else if c == '/' {
        Some(Op::Intr(Intrinsic::Div))
    } else if c == '%' {
        Some(Op::Intr(Intrinsic::Mod))
    } else if c == '<' {
        Some(Op::Intr(Intrinsic::LT))
    } else if c == '>' {
        Some(Op::Intr(Intrinsic::GT))
    } else if c == ':' {
        Some(Op::Intr(Intrinsic::Dup))
    } else if c == ';' {
        Some(Op::Intr(Intrinsic::Drop))
    } else if c == '?' {
        Some(Op::Cond)
    } else if c == '@' {
        Some(Op::LoopMark)
    } else if c == '{' {
        Some(Op::BStart(0, 0))
    } else if c == '}' {
        Some(Op::BEnd(0))
    } else {
        None
    }
}

/// The operation a two-character lexeme stands for.
pub open spec fn lexeme2(a: char, b: char) -> Option<Op> {
    if a == '<' && b == '=' {
        Some(Op::Intr(Intrinsic::LE))
    } else if a == '>' && b == '=' {
        Some(Op::Intr(Intrinsic::GE))
    } else if a == '=' && b == '=' {
        Some(Op::Intr(Intrinsic::EQ))
    } else if a == '!' && b == '=' {
        Some(Op::Intr(Intrinsic::NE))
    } else if a == '}' && b == '{' {
        Some(Op::BElse(0, 0))
    } else {
        None
    }
}

/// The operator table: which words are recognized, and as what.
pub open spec fn lexeme_op(w: Seq<char>) -> Option<Op> {
    if w.len() == 1 {
        lexeme1(w[0])
    } else if w.len() == 2 {
        lexeme2(w[0], w[1])
    } else {
        None
    }
}

/// The parser's state: the operations emitted so far and the stack of
/// indices of block heads still waiting for their else marker or
/// terminator.
pub struct ParseState {
    pub ops: Seq<Op>,
    pub pend: Seq<usize>,
}

pub open spec fn parse_init() -> ParseState {
    ParseState { ops: Seq::<Op>::empty(), pend: Seq::<usize>::empty() }
}

/// One token's effect on the parser state. A number is emitted as a push.
/// `{` leaves a placeholder head and remembers its index. `}{` patches the
/// pending head to aim its else index at the new else operation, which
/// becomes the pending entry. `}` patches the pending operation (and,
/// behind an else, the block head too) with the terminator's index and
/// emits the terminator; a head closed without an else keeps its own index
/// as its else index.
pub open spec fn parse_step(st: ParseState, t: TokenModel) -> Result<ParseState, ParseError> {
    match t {
        TokenModel::Number(n) => Ok(
            ParseState { ops: st.ops.push(Op::Push(n)), pend: st.pend },
        ),
        TokenModel::Word(w) => match lexeme_op(w) {
            Option::None => Err(ParseError::UnknownWord),
            Option::Some(op) => match op {
                Op::BStart(_, _) => Ok(
                    ParseState {
                        ops: st.ops.push(Op::BStart(0, 0)),
                        pend: st.pend.push(st.ops.len() as usize),
                    },
                ),
                Op::BElse(_, _) => {
                    if st.pend.len() == 0 {
                        Err(ParseError::UnmatchedDelimiter)
                    } else {
                        let bi = st.pend.last();
                        let idx = st.ops.len() as usize;
                        Ok(
                            ParseState {
                                ops: st.ops.update(bi as int, Op::BStart(idx, 0)).push(
                                    Op::BElse(bi, 0),
                                ),
                                pend: st.pend.drop_last().push(idx),
                            },
                        )
                    }
                },
                Op::BEnd(_) => {
                    if st.pend.len() == 0 {
                        Err(ParseError::UnmatchedDelimiter)
                    } else {
                        let bi = st.pend.last();
                        let idx = st.ops.len() as usize;
                        match st.ops[bi as int] {
                            Op::BElse(o, _) => Ok(
                                ParseState {
                                    ops: st.ops.update(bi as int, Op::BElse(o, idx)).update(
                                        o as int,
                                        Op::BStart(bi, idx),
                                    ).push(Op::BEnd(bi)),
                                    pend: st.pend.drop_last(),
                                },
                            ),
                            _ => Ok(
                                ParseState {
                                    ops: st.ops.update(bi as int, Op::BStart(bi, idx)).push(
                                        Op::BEnd(bi),
                                    ),
                                    pend: st.pend.drop_last(),
                                },
                            ),
                        }
                    }
                },
                _ => Ok(ParseState { ops: st.ops.push(op), pend: st.pend }),
            },
        },
    }
}

/// The parser state after consuming all of `toks`, token by token.
pub open spec fn parse_fold(toks: Seq<TokenModel>, st: ParseState) -> Result<
    ParseState,
    ParseError,
>
    decreases toks.len(),
{
    if toks.len() == 0 {
        Ok(st)
    } else {
        match parse_step(st, toks[0]) {
            Ok(st2) => parse_fold(toks.skip(1), st2),
            Err(e) => Err(e),
        }
    }
}

/// The operation sequence of a token sequence, or the first parse error.
pub open spec fn parse_spec(toks: Seq<TokenModel>) -> Result<Seq<Op>, ParseError> {
    match parse_fold(toks, parse_init()) {
        Ok(st) => Ok(st.ops),
        Err(e) => Err(e),
    }
}

/// Mutual consistency at one block terminator: the terminator references
/// an operation before it that carries the terminator's index, and behind
/// an else head the block head agrees with both.
pub open spec fn end_resolved(ops: Seq<Op>, t: int) -> bool {
    match ops[t] {
        Op::BEnd(b) => {
            &&& (b as int) < t
            &&& match ops[b as int] {
                Op::BStart(el, en) => el == b && en as int == t,
                Op::BElse(o, en) => {
                    &&& en as int == t
                    &&& o < b
                    &&& match ops[o as int] {
                        Op::BStart(el2, en2) => el2 == b && en2 as int == t,
                        _ => false,
                    }
                },
                _ => false,
            }
        },
        _ => true,
    }
}

/// Every block terminator in `ops` is mutually consistent with its head.
pub open spec fn blocks_resolved(ops: Seq<Op>) -> bool {
    forall|t: int| 0 <= t < ops.len() ==> #[trigger] end_resolved(ops, t)
}

/// What holds of one pending entry: it points at a placeholder head or a
/// placeholder else operation (their end index still zero), pending
/// entries grow strictly, and a pending else operation's origin lies
/// strictly between every earlier pending entry and the else operation.
pub open spec fn pending_ok(st: ParseState, j: int) -> bool {
    let p = st.pend[j] as int;
    0 <= p && p < st.ops.len() && (forall|k: int| 0 <= k && k < j ==> (st.pend[k] as int) < p)
        && match st.ops[p] {
        Op::BStart(el, en) => el == 0 && en == 0,
        Op::BElse(o, en) => {
            &&& en == 0
            &&& (o as int) < p
            &&& (forall|k: int| 0 <= k && k < j ==> (st.pend[k] as int) < (o as int))
            &&& match st.ops[o as int] {
                Op::BStart(el2, en2) => el2 as int == p && en2 == 0,
                _ => false,
            }
        },
        _ => false,
    }
}

/// The parser's invariant: all closed blocks are resolved, and every
/// pending entry is a well-placed placeholder.
pub open spec fn parse_inv(st: ParseState) -> bool {
    &&& blocks_resolved(st.ops)
    &&& forall|j: int| 0 <= j < st.pend.len() ==> #[trigger] pending_ok(st, j)
}

proof fn lemma_push_keeps_resolved(ops: Seq<Op>, x: Op)
    requires
        blocks_resolved(ops),
        !(x is BEnd),
    ensures
        blocks_resolved(ops.push(x)),
{
    let ops2 = ops.push(x);
    assert forall|t: int| 0 <= t < ops2.len() implies end_resolved(ops2, t) by {
        if t < ops.len() {
            assert(end_resolved(ops, t));
        }
    }
}

/// A block operation whose end index is still zero is referenced by no
/// resolved terminator — every resolved terminator's references carry the
/// terminator's own, positive, index — so patching it cannot unresolve a
/// closed block.
proof fn lemma_update_zeroend_keeps_resolved(ops: Seq<Op>, pos: int, x: Op)
    requires
        blocks_resolved(ops),
        0 <= pos < ops.len(),
        match ops[pos] {
            Op::BStart(_, en) => en == 0,
            Op::BElse(_, en) => en == 0,
            _ => false,
        },
        !(x is BEnd),
    ensures
        blocks_resolved(ops.update(pos, x)),
{
    let ops2 = ops.update(pos, x);
    assert forall|t: int| 0 <= t < ops2.len() implies end_resolved(ops2, t) by {
        assert(end_resolved(ops, t));
        if ops[t] is BEnd && t != pos {
            let b = ops[t]->BEnd_0 as int;
            assert(b != pos);
            if ops[b] is BElse {
                assert(ops[b]->BElse_0 as int != pos);
            }
        }
    }
}

/// One parse step keeps the parser's invariant.
proof fn lemma_parse_step_inv(st: ParseState, t: TokenModel)
    requires
        parse_inv(st),
        st.ops.len() < usize::MAX,
    ensures
        match parse_step(st, t) {
            Ok(st2) => parse_inv(st2) && st2.ops.len() <= st.ops.len() + 1,
            Err(_) => true,
        },
{
    match parse_step(st, t) {
        Err(_) => {},
        Ok(st2) => {
            let pushed: Option<Op> = match t {
                TokenModel::Number(n) => Some(Op::Push(n)),
                TokenModel::Word(w) => match lexeme_op(w) {
                    Some(op) => match op {
                        Op::BStart(_, _) => None,
                        Op::BElse(_, _) => None,
                        Op::BEnd(_) => None,
                        _ => Some(op),
                    },
                    None => None,
                },
            };
            if pushed is Some {
                // a plain operation is appended; nothing else moves
                lemma_push_keeps_resolved(st.ops, pushed->0);
                assert forall|j: int| 0 <= j < st2.pend.len() implies pending_ok(st2, j) by {
                    assert(pending_ok(st, j));
                }
            } else {
                let w = t->Word_0;
                let op = lexeme_op(w)->0;
                match op {
                    Op::BStart(_, _) => {
                        lemma_push_keeps_resolved(st.ops, Op::BStart(0, 0));
                        assert forall|j: int| 0 <= j < st2.pend.len() implies pending_ok(
                            st2,
                            j,
                        ) by {
                            if j < st.pend.len() {
                                assert(pending_ok(st, j));
                            } else {
                                assert forall|k: int| 0 <= k < j implies (st2.pend[k] as int)
                                    < (st2.pend[j] as int) by {
                                    assert(pending_ok(st, k));
                                }
                            }
                        }
                    },
                    Op::BElse(_, _) => {
                        let last = st.pend.len() - 1;
                        let bi = st.pend[last] as int;
                        let idx = st.ops.len() as usize;
                        assert(pending_ok(st, last));
                        lemma_update_zeroend_keeps_resolved(st.ops, bi, Op::BStart(idx, 0));
                        let mid = ParseState {
                            ops: st.ops.update(bi, Op::BStart(idx, 0)),
                            pend: st.pend,
                        };
                        lemma_push_keeps_resolved(mid.ops, Op::BElse(st.pend[last], 0));
                        assert forall|j: int| 0 <= j < st2.pend.len() implies pending_ok(
                            st2,
                            j,
                        ) by {
                            if j < st2.pend.len() - 1 {
                                assert(pending_ok(st, j));
                                assert((st.pend[j] as int) < bi);
                                assert(st2.ops[st.pend[j] as int] == st.ops[st.pend[j] as int]);
                            } else {
                                // the new pending entry: the fresh else operation
                                assert(st2.pend[j] == idx);
                                assert(st2.ops[idx as int] == Op::BElse(st.pend[last], 0));
                                assert(st2.ops[bi] == Op::BStart(idx, 0));
                                assert forall|k: int| 0 <= k < j implies (st2.pend[k] as int)
                                    < bi by {
                                    assert(pending_ok(st, k));
                                }
                            }
                        }
                    },
                    Op::BEnd(_) => {
                        let last = st.pend.len() - 1;
                        let bi = st.pend[last] as int;
                        let idx = st.ops.len() as usize;
                        assert(pending_ok(st, last));
                        match st.ops[bi] {
                            Op::BElse(o, _) => {
                                lemma_update_zeroend_keeps_resolved(
                                    st.ops,
                                    bi,
                                    Op::BElse(o, idx),
                                );
                                let mid = ParseState {
                                    ops: st.ops.update(bi, Op::BElse(o, idx)),
                                    pend: st.pend,
                                };
                                assert(mid.ops[o as int] == st.ops[o as int]);
                                lemma_update_zeroend_keeps_resolved(
                                    mid.ops,
                                    o as int,
                                    Op::BStart(st.pend[last], idx),
                                );
                                let mid2 = ParseState {
                                    ops: mid.ops.update(o as int, Op::BStart(st.pend[last], idx)),
                                    pend: st.pend,
                                };
                                lemma_push_keeps_resolved2(mid2.ops, st.pend[last], idx);
                                assert forall|j: int| 0 <= j < st2.pend.len() implies pending_ok(
                                    st2,
                                    j,
                                ) by {
                                    assert(pending_ok(st, j));
                                    assert((st.pend[j] as int) < bi);
                                    assert((st.pend[j] as int) < (o as int));
                                    assert(st2.ops[st.pend[j] as int] == st.ops[st.pend[j] as int]);
                                    if st.ops[st.pend[j] as int] is BElse {
                                        let oj = st.ops[st.pend[j] as int]->BElse_0 as int;
                                        assert(oj < st.pend[j] as int);
                                        assert(st2.ops[oj] == st.ops[oj]);
                                    }
                                }
                            },
                            _ => {
                                lemma_update_zeroend_keeps_resolved(
                                    st.ops,
                                    bi,
                                    Op::BStart(st.pend[last], idx),
                                );
                                let mid2 = ParseState {
                                    ops: st.ops.update(bi, Op::BStart(st.pend[last], idx)),
                                    pend: st.pend,
                                };
                                lemma_push_keeps_resolved2(mid2.ops, st.pend[last], idx);
                                assert forall|j: int| 0 <= j < st2.pend.len() implies pending_ok(
                                    st2,
                                    j,
                                ) by {
                                    assert(pending_ok(st, j));
                                    assert((st.pend[j] as int) < bi);
                                    assert(st2.ops[st.pend[j] as int] == st.ops[st.pend[j] as int]);
                                    if st.ops[st.pend[j] as int] is BElse {
                                        let oj = st.ops[st.pend[j] as int]->BElse_0 as int;
                                        assert(oj < st.pend[j] as int);
                                        assert(st2.ops[oj] == st.ops[oj]);
                                    }
                                }
                            },
                        }
                    },
                    _ => {
                        // contradicts this branch: every other operation was
                        // handled as a plain push above
                        assert(false);
                    },
                }
            }
        },
    }
}

/// Appending the terminator `BEnd(b)` at index `idx` keeps every block
/// resolved, provided the operation at `b` (and, behind an else, its
/// origin) already carries `idx` as its end index.
proof fn lemma_push_keeps_resolved2(ops: Seq<Op>, b: usize, idx: usize)
    requires
        blocks_resolved(ops),
        idx as int == ops.len(),
        0 <= b as int && (b as int) < ops.len(),
        match ops[b as int] {
            Op::BStart(el, en) => el == b && en == idx,
            Op::BElse(o, en) => {
                &&& en == idx
                &&& o < b
                &&& match ops[o as int] {
                    Op::BStart(el2, en2) => el2 == b && en2 == idx,
                    _ => false,
                }
            },
            _ => false,
        },
    ensures
        blocks_resolved(ops.push(Op::BEnd(b))),
{
    let ops2 = ops.push(Op::BEnd(b));
    assert forall|t: int| 0 <= t < ops2.len() implies end_resolved(ops2, t) by {
        if t < ops.len() {
            assert(end_resolved(ops, t));
        } else {
            assert(ops2[t] == Op::BEnd(b));
        }
    }
}

/// One parse step emits at most one operation.
/// The parser's invariant holds after any number of successful steps.
proof fn lemma_parse_fold_inv(toks: Seq<TokenModel>, st: ParseState)
    requires
        parse_inv(st),
        st.ops.len() + toks.len() <= usize::MAX,
    ensures
        match parse_fold(toks, st) {
            Ok(st2) => parse_inv(st2),
            Err(_) => true,
        },
    decreases toks.len(),
{
    if toks.len() > 0 {
        lemma_parse_step_inv(st, toks[0]);
        match parse_step(st, toks[0]) {
            Ok(st2) => {
                lemma_parse_fold_inv(toks.skip(1), st2);
            },
            Err(_) => {},
        }
    }
}

/// After a successful parse, every block terminator and the head (and
/// else head) it closed reference one another consistently: the head
/// carries the terminator's index as its end index, the terminator
/// back-references the operation it closed, and a head closed without an
/// else carries its own index as its else index.
pub proof fn lemma_parse_blocks_resolved(toks: Seq<TokenModel>, ops: Seq<Op>)
    requires
        parse_spec(toks) == Ok::<Seq<Op>, ParseError>(ops),
        toks.len() <= usize::MAX,
    ensures
        blocks_resolved(ops),
{
    assert(parse_inv(parse_init()));
    lemma_parse_fold_inv(toks, parse_init());
}

/// Looks a word up in the operator table.
fn lookup_word(w: &str) -> (r: Option<Op>)
    ensures
        r == lexeme_op(w@),
{
    let n = w.unicode_len();
    if n == 1 {
        let c = w.get_char(0);
        if c == '+' {
            Some(Op::Intr(Intrinsic::Add))
        } else if c == '-' {
            Some(Op::Intr(Intrinsic::Sub))
        } else if c == '*' {
            Some(Op::Intr(Intrinsic::Mult))
        } else if c == '/' {
            Some(Op::Intr(Intrinsic::Div))
        } else if c == '%' {
            Some(Op::Intr(Intrinsic::Mod))
        } else if c == '<' {
            Some(Op::Intr(Intrinsic::LT))
        } else if c == '>' {
            Some(Op::Intr(Intrinsic::GT))
        } else if c == ':' {
            Some(Op::Intr(Intrinsic::Dup))
        } else if c == ';' {
            Some(Op::Intr(Intrinsic::Drop))
        } else if c == '?' {
            Some(Op::Cond)
        } else if c == '@' {
            Some(Op::LoopMark)
        } else if c == '{' {
            Some(Op::BStart(0, 0))
        } else if c == '}' {
            Some(Op::BEnd(0))
        } else {
            None
        }
    } else if n == 2 {
        let a = w.get_char(0);
        let b = w.get_char(1);
        if a == '<' && b == '=' {
            Some(Op::Intr(Intrinsic::LE))
        } else if a == '>' && b == '=' {
            Some(Op::Intr(Intrinsic::GE))
        } else if a == '=' && b == '=' {
            Some(Op::Intr(Intrinsic::EQ))
        } else if a == '!' && b == '=' {
            Some(Op::Intr(Intrinsic::NE))
        } else if a == '}' && b == '{' {
            Some(Op::BElse(0, 0))
        } else {
            None
        }
    } else {
        None
    }
}

/// Turns a token sequence into the flat operation sequence, resolving
/// every closed block's jump indices; fails on a word outside the operator
/// table and on an else marker or terminator with no open block.
pub fn parse(tokens: &Vec<Token>) -> (r: Result<Vec<Op>, ParseError>)
    ensures
        match r {
            Ok(ops) => parse_spec(tokens_view(tokens@)) == Ok::<Seq<Op>, ParseError>(ops@)
                && blocks_resolved(ops@),
            Err(e) => parse_spec(tokens_view(tokens@)) == Err::<Seq<Op>, ParseError>(e),
        },
{
    let ghost tv = tokens_view(tokens@);
    let mut res: Vec<Op> = Vec::new();
    let mut pend: Vec<usize> = Vec::new();
    let mut i: usize = 0;
    proof {
        assert(tv.skip(0) =~= tv);
        assert(res@ =~= parse_init().ops);
        assert(pend@ =~= parse_init().pend);
    }
    while i < tokens.len()
        invariant
            i <= tokens.len(),
            tv == tokens_view(tokens@),
            tv.len() == tokens@.len(),
            parse_fold(tv, parse_init()) == parse_fold(
                tv.skip(i as int),
                ParseState { ops: res@, pend: pend@ },
            ),
            parse_inv(ParseState { ops: res@, pend: pend@ }),
        decreases tokens.len() - i,
    {
        let ghost st = ParseState { ops: res@, pend: pend@ };
        let ghost rest = tv.skip(i as int);
        proof {
            assert(rest[0] == tv[i as int]);
            assert(tv[i as int] == tokens@[i as int]@);
            assert(rest.skip(1) =~= tv.skip(i as int + 1));
        }
        let t = &tokens[i];
        match t {
            Token::Number(n) => {
                res.push(Op::Push(*n));
            },
            Token::Word(w) => {
                match lookup_word(w.as_str()) {
                    None => {
                        proof {
                            assert(parse_step(st, rest[0]) == Err::<ParseState, ParseError>(
                                ParseError::UnknownWord,
                            ));
                        }
                        return Err(ParseError::UnknownWord);
                    },
                    Some(op) => {
                        match op {
                            Op::BStart(_, _) => {
                                pend.push(res.len());
                                res.push(Op::BStart(0, 0));
                            },
                            Op::BElse(_, _) => {
                                if pend.len() == 0 {
                                    proof {
                                        assert(parse_step(st, rest[0]) == Err::<
                                            ParseState,
                                            ParseError,
                                        >(ParseError::UnmatchedDelimiter));
                                    }
                                    return Err(ParseError::UnmatchedDelimiter);
                                }
                                proof {
                                    assert(pending_ok(st, st.pend.len() - 1));
                                }
                                let bi = pend.pop().unwrap();
                                let idx = res.len();
                                res[bi] = Op::BStart(idx, 0);
                                pend.push(idx);
                                res.push(Op::BElse(bi, 0));
                                proof {
                                    assert(pend@ =~= st.pend.drop_last().push(idx));
                                }
                            },
                            Op::BEnd(_) => {
                                if pend.len() == 0 {
                                    proof {
                                        assert(parse_step(st, rest[0]) == Err::<
                                            ParseState,
                                            ParseError,
                                        >(ParseError::UnmatchedDelimiter));
                                    }
                                    return Err(ParseError::UnmatchedDelimiter);
                                }
                                proof {
                                    assert(pending_ok(st, st.pend.len() - 1));
                                }
                                let bi = pend.pop().unwrap();
                                let idx = res.len();
                                let cur = res[bi];
                                match cur {
                                    Op::BElse(o, _) => {
                                        res[bi] = Op::BElse(o, idx);
                                        res[o] = Op::BStart(bi, idx);
                                        res.push(Op::BEnd(bi));
                                    },
                                    _ => {
                                        res[bi] = Op::BStart(bi, idx);
                                        res.push(Op::BEnd(bi));
                                    },
                                }
                                proof {
                                    assert(pend@ =~= st.pend.drop_last());
                                }
                            },
                            _ => {
                                res.push(op);
                            },
                        }
                    },
                }
            },
        }
        let n_now = res.len();
        proof {
            assert(st.ops.len() < usize::MAX);
            lemma_parse_step_inv(st, rest[0]);
            let st2 = ParseState { ops: res@, pend: pend@ };
            assert(parse_step(st, rest[0]) == Ok::<ParseState, ParseError>(st2));
            assert(parse_fold(rest, st) == parse_fold(rest.skip(1), st2));
        }
        i += 1;
    }
    proof {
        let stf = ParseState { ops: res@, pend: pend@ };
        assert(tv.skip(i as int).len() == 0);
        assert(parse_fold(tv.skip(i as int), stf) == Ok::<ParseState, ParseError>(stf));
        assert(parse_spec(tv) == Ok::<Seq<Op>, ParseError>(res@));
    }
    Ok(res)
}

} // verus!
