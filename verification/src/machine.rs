//! The stack machine: executes a resolved operation sequence against an
//! operand stack of signed 64-bit integers. An instruction pointer walks
//! the sequence; block operations move it by the absolute indices the
//! parser resolved, and a marker stack remembers where a loop body
//! resumes. A program can loop forever, so the executable entry point
//! takes a step budget and reports when the budget ran out before the
//! program ended.

use vstd::prelude::*;

use crate::ast::{Intrinsic, Op, RuntimeError};

verus! {

/// The machine's state between steps: the instruction pointer, the
/// operand stack (bottom first), and the loop-marker stack.
pub struct MachineState {
    pub ip: nat,
    pub stack: Seq<i64>,
    pub marks: Seq<usize>,
}

pub open spec fn init_state() -> MachineState {
    MachineState { ip: 0, stack: Seq::<i64>::empty(), marks: Seq::<usize>::empty() }
}

/// Is this intrinsic a binary operation (it consumes two operands)?
pub open spec fn intr_binary(f: Intrinsic) -> bool {
    match f {
        Intrinsic::Dup => false,
        Intrinsic::Drop => false,
        _ => true,
    }
}

/// The result a binary intrinsic computes from the deeper operand `x`
/// (pushed earlier) and the top operand `y` (popped first): `x <op> y`.
/// Arithmetic wraps around two's complement, as the machine's native
/// integers do; comparisons yield 1 or 0; division and modulo fail on a
/// zero divisor and truncate toward zero otherwise (the one overflowing
/// quotient, `i64::MIN / -1`, wraps to `i64::MIN`, and its remainder is 0).
pub open spec fn apply_binary(f: Intrinsic, x: i64, y: i64) -> Result<i64, RuntimeError>
    recommends
        intr_binary(f),
{
    match f {
        Intrinsic::Add => Ok(x.wrapping_add(y)),
        Intrinsic::Sub => Ok(x.wrapping_sub(y)),
        Intrinsic::Mult => Ok(x.wrapping_mul(y)),
        Intrinsic::Div => {
            if y == 0 {
                Err(RuntimeError::DivisionByZero)
            } else {
                match x.checked_div(y) {
                    Some(q) => Ok(q),
                    None => Ok(i64::MIN),
                }
            }
        },
        Intrinsic::Mod => {
            if y == 0 {
                Err(RuntimeError::DivisionByZero)
            } else {
                match x.checked_rem(y) {
                    Some(m) => Ok(m),
                    None => Ok(0i64),
                }
            }
        },
        Intrinsic::LT => Ok(if x < y { 1i64 } else { 0i64 }),
        Intrinsic::GT => Ok(if x > y { 1i64 } else { 0i64 }),
        Intrinsic::LE => Ok(if x <= y { 1i64 } else { 0i64 }),
        Intrinsic::GE => Ok(if x >= y { 1i64 } else { 0i64 }),
        Intrinsic::EQ => Ok(if x == y { 1i64 } else { 0i64 }),
        Intrinsic::NE => Ok(if x != y { 1i64 } else { 0i64 }),
        Intrinsic::Dup => Ok(0i64),
        Intrinsic::Drop => Ok(0i64),
    }
}

/// One intrinsic's effect on the machine state.
pub open spec fn step_intr(f: Intrinsic, s: MachineState) -> Result<MachineState, RuntimeError> {
    match f {
        Intrinsic::Dup => {
            if s.stack.len() == 0 {
                Err(RuntimeError::StackUnderflow)
            } else {
                Ok(
                    MachineState {
                        ip: s.ip + 1,
                        stack: s.stack.push(s.stack.last()),
                        marks: s.marks,
                    },
                )
            }
        },
        Intrinsic::Drop => {
            if s.stack.len() == 0 {
                Err(RuntimeError::StackUnderflow)
            } else {
                Ok(MachineState { ip: s.ip + 1, stack: s.stack.drop_last(), marks: s.marks })
            }
        },
        _ => {
            if s.stack.len() < 2 {
                Err(RuntimeError::StackUnderflow)
            } else {
                let y = s.stack.last();
                let x = s.stack.drop_last().last();
                match apply_binary(f, x, y) {
                    Ok(v) => Ok(
                        MachineState {
                            ip: s.ip + 1,
                            stack: s.stack.drop_last().drop_last().push(v),
                            marks: s.marks,
                        },
                    ),
                    Err(e) => Err(e),
                }
            }
        },
    }
}

/// The truthiness normalization `?` and `@` apply to the top of stack.
pub open spec fn normalized(v: i64) -> i64 {
    if v != 0 {
        1i64
    } else {
        0i64
    }
}

/// One step of the machine at `s.ip`. After an ordinary operation the
/// pointer advances by one; a jump sets it to the target plus the same
/// advance. A false condition at a block head jumps to the else index —
/// or, when the head carries its own index there, to the end index — and
/// discards the innermost loop marker. An else head jumps to its end
/// index. A terminator returns to the innermost loop marker when one
/// exists. `@` normalizes the top of stack and records the current
/// pointer as the loop marker, unless it is already the innermost one.
pub open spec fn step(ops: Seq<Op>, s: MachineState) -> Result<MachineState, RuntimeError>
    recommends
        s.ip < ops.len(),
{
    match ops[s.ip as int] {
        Op::Push(n) => Ok(MachineState { ip: s.ip + 1, stack: s.stack.push(n), marks: s.marks }),
        Op::Intr(f) => step_intr(f, s),
        Op::Cond => {
            if s.stack.len() == 0 {
                Err(RuntimeError::StackUnderflow)
            } else {
                Ok(
                    MachineState {
                        ip: s.ip + 1,
                        stack: s.stack.drop_last().push(normalized(s.stack.last())),
                        marks: s.marks,
                    },
                )
            }
        },
        Op::LoopMark => {
            if s.stack.len() == 0 {
                Err(RuntimeError::StackUnderflow)
            } else {
                Ok(
                    MachineState {
                        ip: s.ip + 1,
                        stack: s.stack.drop_last().push(normalized(s.stack.last())),
                        marks: if s.marks.len() > 0 && s.marks.last() as nat == s.ip {
                            s.marks
                        } else {
                            s.marks.push(s.ip as usize)
                        },
                    },
                )
            }
        },
        Op::BStart(el, en) => {
            if s.stack.len() == 0 {
                Err(RuntimeError::StackUnderflow)
            } else if s.stack.last() == 0 {
                Ok(
                    MachineState {
                        ip: (if el as nat == s.ip {
                            en as nat
                        } else {
                            el as nat
                        }) + 1,
                        stack: s.stack.drop_last(),
                        marks: if s.marks.len() > 0 {
                            s.marks.drop_last()
                        } else {
                            s.marks
                        },
                    },
                )
            } else {
                Ok(MachineState { ip: s.ip + 1, stack: s.stack.drop_last(), marks: s.marks })
            }
        },
        Op::BElse(_, en) => Ok(
            MachineState { ip: en as nat + 1, stack: s.stack, marks: s.marks },
        ),
        Op::BEnd(_) => Ok(
            MachineState {
                ip: if s.marks.len() > 0 {
                    s.marks.last() as nat
                } else {
                    s.ip + 1
                },
                stack: s.stack,
                marks: s.marks,
            },
        ),
    }
}

/// At most `n` steps from `s`: stops early when the pointer leaves the
/// sequence, and propagates the first runtime error.
pub open spec fn run_n(ops: Seq<Op>, s: MachineState, n: nat) -> Result<
    MachineState,
    RuntimeError,
>
    decreases n,
{
    if n == 0 || s.ip >= ops.len() {
        Ok(s)
    } else {
        match step(ops, s) {
            Ok(s2) => run_n(ops, s2, (n - 1) as nat),
            Err(e) => Err(e),
        }
    }
}

fn binary_exec(f: Intrinsic, x: i64, y: i64) -> (r: Result<i64, RuntimeError>)
    requires
        intr_binary(f),
    ensures
        r == apply_binary(f, x, y),
{
    match f {
        Intrinsic::Add => Ok(x.wrapping_add(y)),
        Intrinsic::Sub => Ok(x.wrapping_sub(y)),
        Intrinsic::Mult => Ok(x.wrapping_mul(y)),
        Intrinsic::Div => {
            if y == 0 {
                Err(RuntimeError::DivisionByZero)
            } else {
                match x.checked_div(y) {
                    Some(q) => Ok(q),
                    None => Ok(i64::MIN),
                }
            }
        },
        Intrinsic::Mod => {
            if y == 0 {
                Err(RuntimeError::DivisionByZero)
            } else {
                match x.checked_rem(y) {
                    Some(m) => Ok(m),
                    None => Ok(0i64),
                }
            }
        },
        Intrinsic::LT => Ok(if x < y { 1i64 } else { 0i64 }),
        Intrinsic::GT => Ok(if x > y { 1i64 } else { 0i64 }),
        Intrinsic::LE => Ok(if x <= y { 1i64 } else { 0i64 }),
        Intrinsic::GE => Ok(if x >= y { 1i64 } else { 0i64 }),
        Intrinsic::EQ => Ok(if x == y { 1i64 } else { 0i64 }),
        Intrinsic::NE => Ok(if x != y { 1i64 } else { 0i64 }),
        Intrinsic::Dup => Ok(0i64),
        Intrinsic::Drop => Ok(0i64),
    }
}

/// Executes the operations from an empty state for at most `fuel` steps.
/// Returns the final operand stack, bottom first, when the pointer leaves
/// the sequence; the first runtime error otherwise; and `None` when the
/// budget ran out with the program still running.
pub fn run(ops: &Vec<Op>, fuel: u64) -> (r: Option<Result<Vec<i64>, RuntimeError>>)
    ensures
        ({
            let out = run_n(ops@, init_state(), fuel as nat);
            match r {
                None => out is Ok && out->Ok_0.ip < ops@.len(),
                Some(Ok(v)) => out is Ok && out->Ok_0.ip >= ops@.len() && v@ == out->Ok_0.stack,
                Some(Err(e)) => out == Err::<MachineState, RuntimeError>(e),
            }
        }),
        ops@.len() == 0 ==> (r matches Some(Ok(v)) && v@ == Seq::<i64>::empty()),
{
    let mut stack: Vec<i64> = Vec::new();
    let mut marks: Vec<usize> = Vec::new();
    let mut idx: usize = 0;
    let mut remaining: u64 = fuel;
    let ghost mut cur = init_state();
    proof {
        assert(stack@ =~= cur.stack);
        assert(marks@ =~= cur.marks);
    }
    while idx < ops.len()
        invariant
            run_n(ops@, init_state(), fuel as nat) == run_n(ops@, cur, remaining as nat),
            cur.stack == stack@,
            cur.marks == marks@,
            cur.ip == idx as nat || (cur.ip >= ops@.len() && idx as nat == ops@.len()),
        decreases remaining,
    {
        if remaining == 0 {
            return None;
        }
        let ghost pre = cur;
        let n = ops.len();
        let op = ops[idx];
        match op {
            Op::Push(v) => {
                stack.push(v);
                idx += 1;
                proof {
                    cur = MachineState { ip: pre.ip + 1, stack: pre.stack.push(v), marks: pre.marks };
                }
            },
            Op::Cond => {
                if stack.len() == 0 {
                    proof {
                        assert(run_n(ops@, pre, remaining as nat) == Err::<
                            MachineState,
                            RuntimeError,
                        >(RuntimeError::StackUnderflow));
                    }
                    return Some(Err(RuntimeError::StackUnderflow));
                }
                let v = stack.pop().unwrap();
                stack.push(if v != 0 { 1i64 } else { 0i64 });
                idx += 1;
                proof {
                    assert(pre.stack.drop_last() =~= pre.stack.subrange(
                        0,
                        pre.stack.len() - 1,
                    ));
                    cur = MachineState {
                        ip: pre.ip + 1,
                        stack: pre.stack.drop_last().push(normalized(pre.stack.last())),
                        marks: pre.marks,
                    };
                }
            },
            Op::LoopMark => {
                if stack.len() == 0 {
                    proof {
                        assert(run_n(ops@, pre, remaining as nat) == Err::<
                            MachineState,
                            RuntimeError,
                        >(RuntimeError::StackUnderflow));
                    }
                    return Some(Err(RuntimeError::StackUnderflow));
                }
                let v = stack.pop().unwrap();
                stack.push(if v != 0 { 1i64 } else { 0i64 });
                let already = if marks.len() > 0 {
                    let m = marks[marks.len() - 1];
                    m == idx
                } else {
                    false
                };
                if !already {
                    marks.push(idx);
                }
                idx += 1;
                proof {
                    assert(pre.stack.drop_last() =~= pre.stack.subrange(
                        0,
                        pre.stack.len() - 1,
                    ));
                    cur = MachineState {
                        ip: pre.ip + 1,
                        stack: pre.stack.drop_last().push(normalized(pre.stack.last())),
                        marks: if pre.marks.len() > 0 && pre.marks.last() as nat == pre.ip {
                            pre.marks
                        } else {
                            pre.marks.push(pre.ip as usize)
                        },
                    };
                }
            },
            Op::BStart(el, en) => {
                if stack.len() == 0 {
                    proof {
                        assert(run_n(ops@, pre, remaining as nat) == Err::<
                            MachineState,
                            RuntimeError,
                        >(RuntimeError::StackUnderflow));
                    }
                    return Some(Err(RuntimeError::StackUnderflow));
                }
                let c = stack.pop().unwrap();
                proof {
                    assert(pre.stack.drop_last() =~= pre.stack.subrange(
                        0,
                        pre.stack.len() - 1,
                    ));
                }
                if c == 0 {
                    let t = if el == idx {
                        en
                    } else {
                        el
                    };
                    if marks.len() > 0 {
                        let _discarded = marks.pop();
                    }
                    if t < n {
                        idx = t + 1;
                    } else {
                        idx = n;
                    }
                    proof {
                        assert(pre.marks.drop_last() =~= pre.marks.subrange(
                            0,
                            pre.marks.len() - 1,
                        ));
                        cur = MachineState {
                            ip: (if el as nat == pre.ip {
                                en as nat
                            } else {
                                el as nat
                            }) + 1,
                            stack: pre.stack.drop_last(),
                            marks: if pre.marks.len() > 0 {
                                pre.marks.drop_last()
                            } else {
                                pre.marks
                            },
                        };
                    }
                } else {
                    idx += 1;
                    proof {
                        cur = MachineState {
                            ip: pre.ip + 1,
                            stack: pre.stack.drop_last(),
                            marks: pre.marks,
                        };
                    }
                }
            },
            Op::BElse(_, en) => {
                if en < n {
                    idx = en + 1;
                } else {
                    idx = n;
                }
                proof {
                    cur = MachineState { ip: en as nat + 1, stack: pre.stack, marks: pre.marks };
                }
            },
            Op::BEnd(_) => {
                if marks.len() > 0 {
                    idx = marks[marks.len() - 1];
                } else {
                    idx += 1;
                }
                proof {
                    cur = MachineState {
                        ip: if pre.marks.len() > 0 {
                            pre.marks.last() as nat
                        } else {
                            pre.ip + 1
                        },
                        stack: pre.stack,
                        marks: pre.marks,
                    };
                }
            },
            Op::Intr(f) => {
                match f {
                    Intrinsic::Dup => {
                        if stack.len() == 0 {
                            proof {
                                assert(run_n(ops@, pre, remaining as nat) == Err::<
                                    MachineState,
                                    RuntimeError,
                                >(RuntimeError::StackUnderflow));
                            }
                            return Some(Err(RuntimeError::StackUnderflow));
                        }
                        let v = stack[stack.len() - 1];
                        stack.push(v);
                        idx += 1;
                        proof {
                            cur = MachineState {
                                ip: pre.ip + 1,
                                stack: pre.stack.push(pre.stack.last()),
                                marks: pre.marks,
                            };
                        }
                    },
                    Intrinsic::Drop => {
                        if stack.len() == 0 {
                            proof {
                                assert(run_n(ops@, pre, remaining as nat) == Err::<
                                    MachineState,
                                    RuntimeError,
                                >(RuntimeError::StackUnderflow));
                            }
                            return Some(Err(RuntimeError::StackUnderflow));
                        }
                        let _discarded = stack.pop();
                        idx += 1;
                        proof {
                            assert(pre.stack.drop_last() =~= pre.stack.subrange(
                                0,
                                pre.stack.len() - 1,
                            ));
                            cur = MachineState {
                                ip: pre.ip + 1,
                                stack: pre.stack.drop_last(),
                                marks: pre.marks,
                            };
                        }
                    },
                    _ => {
                        if stack.len() < 2 {
                            proof {
                                assert(run_n(ops@, pre, remaining as nat) == Err::<
                                    MachineState,
                                    RuntimeError,
                                >(RuntimeError::StackUnderflow));
                            }
                            return Some(Err(RuntimeError::StackUnderflow));
                        }
                        let y = stack.pop().unwrap();
                        let x = stack.pop().unwrap();
                        proof {
                            assert(pre.stack.drop_last() =~= pre.stack.subrange(
                                0,
                                pre.stack.len() - 1,
                            ));
                            assert(pre.stack.drop_last().drop_last()
                                =~= pre.stack.drop_last().subrange(
                                0,
                                pre.stack.drop_last().len() - 1,
                            ));
                        }
                        match binary_exec(f, x, y) {
                            Ok(v) => {
                                stack.push(v);
                                idx += 1;
                                proof {
                                    cur = MachineState {
                                        ip: pre.ip + 1,
                                        stack: pre.stack.drop_last().drop_last().push(v),
                                        marks: pre.marks,
                                    };
                                }
                            },
                            Err(e) => {
                                proof {
                                    assert(step(ops@, pre) == Err::<MachineState, RuntimeError>(
                                        e,
                                    ));
                                    assert(run_n(ops@, pre, remaining as nat) == Err::<
                                        MachineState,
                                        RuntimeError,
                                    >(e));
                                }
                                return Some(Err(e));
                            },
                        }
                    },
                }
            },
        }
        remaining = remaining - 1;
        proof {
            assert(step(ops@, pre) == Ok::<MachineState, RuntimeError>(cur));
            assert(run_n(ops@, pre, (remaining + 1) as nat) == run_n(
                ops@,
                cur,
                remaining as nat,
            ));
        }
    }
    proof {
        assert(cur.ip >= ops@.len());
        assert(run_n(ops@, cur, remaining as nat) == Ok::<MachineState, RuntimeError>(cur));
    }
    Some(Ok(stack))
}

} // verus!
