//! The lexer: splits source text on white space into words and signed
//! integer literals. It is total — any run of characters that is not an
//! integer literal becomes a word.

use vstd::prelude::*;

use crate::ast::{Token, TokenModel, tokens_view};
use vstd::string::StrSliceExecFns;

verus! {

/// The Unicode white-space code points, the delimiters the lexer splits on.
pub open spec fn is_ws_char(c: char) -> bool {
    let u = c as int;
    ||| u == 0x09
    ||| u == 0x0A
    ||| u == 0x0B
    ||| u == 0x0C
    ||| u == 0x0D
    ||| u == 0x20
    ||| u == 0x85
    ||| u == 0xA0
    ||| u == 0x1680
    ||| (0x2000 <= u && u <= 0x200A)
    ||| u == 0x2028
    ||| u == 0x2029
    ||| u == 0x202F
    ||| u == 0x205F
    ||| u == 0x3000
}

pub fn is_whitespace_char(c: char) -> (r: bool)
    ensures
        r == is_ws_char(c),
{
    let u = c as u32;
    u == 0x09 || u == 0x0A || u == 0x0B || u == 0x0C || u == 0x0D || u == 0x20 || u == 0x85
        || u == 0xA0 || u == 0x1680 || (0x2000 <= u && u <= 0x200A) || u == 0x2028 || u == 0x2029
        || u == 0x202F || u == 0x205F || u == 0x3000
}

pub open spec fn is_digit_char(c: char) -> bool {
    0x30 <= c as int && c as int <= 0x39
}

pub open spec fn all_digit_chars(s: Seq<char>) -> bool {
    forall|i: int| 0 <= i < s.len() ==> is_digit_char(s[i])
}

/// The integer-literal shape: an optional leading '-', then one to ten
/// decimal digits, and nothing else.
pub open spec fn is_int_literal(w: Seq<char>) -> bool {
    if w.len() > 0 && w[0] == '-' {
        2 <= w.len() && w.len() <= 11 && all_digit_chars(w.skip(1))
    } else {
        1 <= w.len() && w.len() <= 10 && all_digit_chars(w)
    }
}

/// Value of a digit run, most significant digit first.
pub open spec fn digits_value(s: Seq<char>) -> int
    decreases s.len(),
{
    if s.len() == 0 {
        0
    } else {
        digits_value(s.drop_last()) * 10 + (s.last() as int - 0x30)
    }
}

/// Value of an integer literal, sign included.
pub open spec fn int_literal_value(w: Seq<char>) -> int {
    if w.len() > 0 && w[0] == '-' {
        -digits_value(w.skip(1))
    } else {
        digits_value(w)
    }
}

/// How one word is classified: an integer literal becomes its number, any
/// other run of characters stays a word. Ten digits stay below 10^10, so
/// the value always fits in an `i64` and the cast below is exact.
pub open spec fn classify(w: Seq<char>) -> TokenModel {
    if is_int_literal(w) {
        TokenModel::Number(int_literal_value(w) as i64)
    } else {
        TokenModel::Word(w)
    }
}

/// The tokens of `s` when the non-white-space run `cur` has been read
/// immediately before: runs of non-white-space characters, in order, each
/// classified by `classify`.
pub open spec fn lex_running(s: Seq<char>, cur: Seq<char>) -> Seq<TokenModel>
    decreases s.len(),
{
    if s.len() == 0 {
        if cur.len() == 0 {
            Seq::<TokenModel>::empty()
        } else {
            seq![classify(cur)]
        }
    } else if is_ws_char(s[0]) {
        if cur.len() == 0 {
            lex_running(s.skip(1), Seq::<char>::empty())
        } else {
            seq![classify(cur)] + lex_running(s.skip(1), Seq::<char>::empty())
        }
    } else {
        lex_running(s.skip(1), cur.push(s[0]))
    }
}

/// The token sequence of a source text.
pub open spec fn lex_spec(s: Seq<char>) -> Seq<TokenModel> {
    lex_running(s, Seq::<char>::empty())
}

/// Powers of ten, for bounding digit-run values.
spec fn pow10(n: nat) -> int
    decreases n,
{
    if n == 0 {
        1
    } else {
        10 * pow10((n - 1) as nat)
    }
}

proof fn lemma_pow10_pos(n: nat)
    ensures
        pow10(n) >= 1,
    decreases n,
{
    if n > 0 {
        lemma_pow10_pos((n - 1) as nat);
    }
}

proof fn lemma_pow10_mono(a: nat, b: nat)
    requires
        a <= b,
    ensures
        pow10(a) <= pow10(b),
    decreases b,
{
    if a < b {
        lemma_pow10_mono(a, (b - 1) as nat);
        lemma_pow10_pos((b - 1) as nat);
    }
}

proof fn lemma_lex_running_ws(s: Seq<char>)
    requires
        forall|i: int| 0 <= i < s.len() ==> is_ws_char(s[i]),
    ensures
        lex_running(s, Seq::<char>::empty()) == Seq::<TokenModel>::empty(),
    decreases s.len(),
{
    if s.len() > 0 {
        assert(forall|i: int| 0 <= i < s.skip(1).len() ==> is_ws_char(s.skip(1)[i]));
        lemma_lex_running_ws(s.skip(1));
    }
}

/// White-space-only input yields no tokens at all.
pub proof fn lemma_lex_whitespace_only(s: Seq<char>)
    requires
        forall|i: int| 0 <= i < s.len() ==> is_ws_char(s[i]),
    ensures
        lex_spec(s) == Seq::<TokenModel>::empty(),
{
    lemma_lex_running_ws(s);
}

/// Classifies one whitespace-delimited word: an integer literal becomes
/// `Number` with its parsed value, anything else becomes `Word` with the
/// text unchanged.
pub fn lex_token(tok: &str) -> (t: Token)
    ensures
        t@ == classify(tok@),
{
    let n = tok.unicode_len();
    let neg = n > 0 && tok.get_char(0) == '-';
    let ds: usize = if neg {
        1
    } else {
        0
    };
    if n >= ds + 1 && n <= ds + 10 {
        let mut j = ds;
        let mut ok = true;
        let mut acc: i64 = 0;
        proof {
            assert(tok@.subrange(ds as int, ds as int) =~= Seq::<char>::empty());
        }
        while j < n
            invariant
                ds <= j <= n,
                ds <= 1,
                n == tok@.len(),
                n <= ds + 10,
                ok ==> all_digit_chars(tok@.subrange(ds as int, j as int)),
                ok ==> acc == digits_value(tok@.subrange(ds as int, j as int)),
                ok ==> 0 <= acc < pow10((j - ds) as nat),
                !ok ==> exists|k: int| ds <= k < n && !is_digit_char(tok@[k]),
            decreases n - j,
        {
            let c = tok.get_char(j);
            if ok {
                let u = c as u32;
                if 0x30 <= u && u <= 0x39 {
                    let ghost pre = tok@.subrange(ds as int, j as int);
                    let ghost post = tok@.subrange(ds as int, j as int + 1);
                    proof {
                        assert(post.drop_last() =~= pre);
                        assert(post.last() == tok@[j as int]);
                        assert(acc * 10 + (u - 0x30) < pow10((j + 1 - ds) as nat));
                        lemma_pow10_mono((j + 1 - ds) as nat, 10);
                        assert(pow10(10) == 10000000000) by {
                            reveal_with_fuel(pow10, 11);
                        }
                    }
                    acc = acc * 10 + ((u - 0x30) as i64);
                } else {
                    ok = false;
                }
            }
            j += 1;
        }
        if ok {
            let v: i64 = if neg {
                -acc
            } else {
                acc
            };
            proof {
                let w = tok@;
                assert(w.subrange(ds as int, n as int) =~= w.skip(ds as int));
                if neg {
                    assert(w[0] == '-');
                    assert(is_int_literal(w));
                    assert(int_literal_value(w) == -acc);
                } else {
                    assert(!(w.len() > 0 && w[0] == '-'));
                    assert(w.skip(0) =~= w);
                    assert(is_int_literal(w));
                    assert(int_literal_value(w) == acc);
                }
            }
            Token::Number(v)
        } else {
            proof {
                let w = tok@;
                let k = choose|k: int| ds <= k < n && !is_digit_char(w[k]);
                if w.len() > 0 && w[0] == '-' {
                    assert(w.skip(1)[k - 1] == w[k]);
                    assert(!all_digit_chars(w.skip(1)));
                } else {
                    assert(!all_digit_chars(w));
                }
                assert(!is_int_literal(w));
            }
            Token::Word(tok.to_owned())
        }
    } else {
        proof {
            let w = tok@;
            if w.len() > 0 && w[0] == '-' {
                assert(!(2 <= w.len() && w.len() <= 11));
            } else {
                assert(!(1 <= w.len() && w.len() <= 10));
            }
            assert(!is_int_literal(w));
        }
        Token::Word(tok.to_owned())
    }
}

/// Splits the input on white space and classifies each non-empty run;
/// consecutive white space yields no empty tokens.
pub fn lex(input: &str) -> (r: Vec<Token>)
    ensures
        tokens_view(r@) == lex_spec(input@),
{
    let n = input.unicode_len();
    let mut toks: Vec<Token> = Vec::new();
    let mut start: usize = 0;
    let mut i: usize = 0;
    proof {
        assert(input@.skip(0) =~= input@);
        assert(input@.subrange(0, 0) =~= Seq::<char>::empty());
        assert(tokens_view(toks@) =~= Seq::<TokenModel>::empty());
        assert(lex_spec(input@) =~= tokens_view(toks@) + lex_running(
            input@.skip(0),
            input@.subrange(0, 0),
        ));
    }
    while i < n
        invariant
            start <= i <= n,
            n == input@.len(),
            forall|k: int| start <= k < i ==> !is_ws_char(input@[k]),
            lex_spec(input@) == tokens_view(toks@) + lex_running(
                input@.skip(i as int),
                input@.subrange(start as int, i as int),
            ),
        decreases n - i,
    {
        let ghost rest = input@.skip(i as int);
        let ghost cur = input@.subrange(start as int, i as int);
        proof {
            assert(rest[0] == input@[i as int]);
            assert(rest.skip(1) =~= input@.skip(i as int + 1));
        }
        let c = input.get_char(i);
        if is_whitespace_char(c) {
            if start < i {
                let w = input.substring_char(start, i);
                let t = lex_token(w);
                proof {
                    assert(tokens_view(toks@.push(t)) =~= tokens_view(toks@) + seq![t@]);
                    assert(lex_running(rest, cur) == seq![classify(cur)] + lex_running(
                        rest.skip(1),
                        Seq::<char>::empty(),
                    ));
                    assert(tokens_view(toks@) + (seq![t@] + lex_running(
                        rest.skip(1),
                        Seq::<char>::empty(),
                    )) =~= (tokens_view(toks@) + seq![t@]) + lex_running(
                        rest.skip(1),
                        Seq::<char>::empty(),
                    ));
                }
                toks.push(t);
            } else {
                proof {
                    assert(cur =~= Seq::<char>::empty());
                }
            }
            i += 1;
            start = i;
            proof {
                assert(input@.subrange(start as int, i as int) =~= Seq::<char>::empty());
            }
        } else {
            proof {
                assert(input@.subrange(start as int, i as int + 1) =~= cur.push(
                    input@[i as int],
                ));
            }
            i += 1;
        }
    }
    if start < n {
        let w = input.substring_char(start, n);
        let t = lex_token(w);
        proof {
            let ghost cur = input@.subrange(start as int, n as int);
            assert(input@.skip(n as int).len() == 0);
            assert(lex_running(input@.skip(n as int), cur) == seq![classify(cur)]);
            assert(tokens_view(toks@.push(t)) =~= tokens_view(toks@) + seq![t@]);
        }
        toks.push(t);
    } else {
        proof {
            assert(input@.subrange(start as int, n as int) =~= Seq::<char>::empty());
            assert(input@.skip(n as int).len() == 0);
            assert(tokens_view(toks@) + Seq::<TokenModel>::empty() =~= tokens_view(toks@));
        }
    }
    toks
}

} // verus!
