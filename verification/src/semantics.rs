//! What the compiled code computes: the meaning of the `i32` instructions
//! on WebAssembly's operand stack, and the law that an expression's code
//! leaves exactly the expression's value on the stack.

use vstd::prelude::*;
use crate::ast::{expr_code, factor_code, term_code, SpecExpr, SpecFactor, SpecTerm};
use crate::code::Instr;

verus! {

/// An integer taken modulo 2^32 as a two's complement `i32`.
pub open spec fn wrap_i32(x: int) -> i32 {
    let m = x % 0x1_0000_0000;
    (if m >= 0x8000_0000 {
        m - 0x1_0000_0000
    } else {
        m
    }) as i32
}

/// The unsigned reading of an `i32`'s bits.
pub open spec fn unsigned(v: i32) -> int {
    if v < 0 {
        v + 0x1_0000_0000
    } else {
        v as int
    }
}

/// The result of a binary instruction on operands `a` and `b`: addition,
/// subtraction and multiplication wrap around; `div_u` divides the unsigned
/// readings and traps (`None`) on a zero divisor.
pub open spec fn binary(op: Instr, a: i32, b: i32) -> Option<i32> {
    match op {
        Instr::Add => Some(wrap_i32(a + b)),
        Instr::Sub => Some(wrap_i32(a - b)),
        Instr::Mul => Some(wrap_i32(a * b)),
        Instr::DivU => if b == 0 {
            None
        } else {
            Some(wrap_i32(unsigned(a) / unsigned(b)))
        },
        _ => None,
    }
}

/// One instruction on the operand stack `stack` (top last), with `locals`
/// giving each local's value: `None` where it traps.
pub open spec fn step(i: Instr, stack: Seq<i32>, locals: spec_fn(Seq<char>) -> i32) -> Option<Seq<i32>> {
    match i {
        Instr::Const(c) => Some(stack.push(c)),
        Instr::LocalGet(name) => Some(stack.push(locals(name))),
        _ => if stack.len() < 2 {
            None
        } else {
            match binary(i, stack[stack.len() - 2], stack.last()) {
                Some(v) => Some(stack.drop_last().drop_last().push(v)),
                None => None,
            }
        },
    }
}

/// Running an instruction sequence from the stack `stack`.
pub open spec fn run(code: Seq<Instr>, stack: Seq<i32>, locals: spec_fn(Seq<char>) -> i32) -> Option<Seq<i32>>
    decreases code.len(),
{
    if code.len() == 0 {
        Some(stack)
    } else {
        match run(code.drop_last(), stack, locals) {
            Some(s) => step(code.last(), s, locals),
            None => None,
        }
    }
}

/// The value of an expression, `None` where a division by zero traps.
pub open spec fn expr_value(e: SpecExpr, locals: spec_fn(Seq<char>) -> i32) -> Option<i32>
    decreases e,
{
    match e {
        SpecExpr::Add(l, r) => match (expr_value(*l, locals), term_value(*r, locals)) {
            (Some(a), Some(b)) => binary(Instr::Add, a, b),
            _ => None,
        },
        SpecExpr::Subtract(l, r) => match (expr_value(*l, locals), term_value(*r, locals)) {
            (Some(a), Some(b)) => binary(Instr::Sub, a, b),
            _ => None,
        },
        SpecExpr::Term(t) => term_value(*t, locals),
    }
}

pub open spec fn term_value(t: SpecTerm, locals: spec_fn(Seq<char>) -> i32) -> Option<i32>
    decreases t,
{
    match t {
        SpecTerm::Multiply(l, r) => match (term_value(*l, locals), factor_value(*r, locals)) {
            (Some(a), Some(b)) => binary(Instr::Mul, a, b),
            _ => None,
        },
        SpecTerm::Divide(l, r) => match (term_value(*l, locals), factor_value(*r, locals)) {
            (Some(a), Some(b)) => binary(Instr::DivU, a, b),
            _ => None,
        },
        SpecTerm::Factor(f) => factor_value(*f, locals),
    }
}

pub open spec fn factor_value(f: SpecFactor, locals: spec_fn(Seq<char>) -> i32) -> Option<i32>
    decreases f,
{
    match f {
        SpecFactor::Const(c) => Some(c),
        SpecFactor::Param(p) => Some(locals(p)),
        SpecFactor::Expr(e) => expr_value(*e, locals),
    }
}

/// The stack after pushing `v`, if there is a value.
pub open spec fn pushed(stack: Seq<i32>, v: Option<i32>) -> Option<Seq<i32>> {
    match v {
        Some(x) => Some(stack.push(x)),
        None => None,
    }
}

/// Running two sequences in a row runs the second on what the first left.
pub proof fn lemma_run_append(a: Seq<Instr>, b: Seq<Instr>, stack: Seq<i32>, locals: spec_fn(Seq<char>) -> i32)
    ensures
        run(a + b, stack, locals) == match run(a, stack, locals) {
            Some(s) => run(b, s, locals),
            None => None,
        },
    decreases b.len(),
{
    if b.len() == 0 {
        assert(a + b == a);
    } else {
        lemma_run_append(a, b.drop_last(), stack, locals);
        assert((a + b).drop_last() == a + b.drop_last());
    }
}

/// Code that fails on one stack fails on any stack.
proof fn lemma_binary_operands(
    a: Seq<Instr>,
    b: Seq<Instr>,
    op: Instr,
    va: Option<i32>,
    vb: Option<i32>,
    stack: Seq<i32>,
    locals: spec_fn(Seq<char>) -> i32,
)
    requires
        op == Instr::Add || op == Instr::Sub || op == Instr::Mul || op == Instr::DivU,
        forall|s: Seq<i32>| run(a, s, locals) == pushed(s, va),
        forall|s: Seq<i32>| run(b, s, locals) == pushed(s, vb),
    ensures
        run(a + b + seq![op], stack, locals) == pushed(
            stack,
            match (va, vb) {
                (Some(x), Some(y)) => binary(op, x, y),
                _ => None,
            },
        ),
{
    lemma_run_append(a, b, stack, locals);
    lemma_run_append(a + b, seq![op], stack, locals);
    assert(seq![op].drop_last() =~= Seq::<Instr>::empty());
    assert(run(a, stack, locals) == pushed(stack, va));
    match va {
        None => {},
        Some(x) => {
            assert(run(b, stack.push(x), locals) == pushed(stack.push(x), vb));
            match vb {
                None => {},
                Some(y) => {
                    let s2 = stack.push(x).push(y);
                    assert(run(Seq::<Instr>::empty(), s2, locals) == Some(s2));
                    assert(run(seq![op], s2, locals) == step(op, s2, locals));
                    assert(s2[s2.len() - 2] == x);
                    assert(s2.last() == y);
                    assert(s2.drop_last().drop_last() == stack);
                },
            }
        },
    }
}

/// Compilation is correct: running an expression's code on any stack pushes
/// the expression's value, and traps exactly where the expression divides
/// by zero.
pub proof fn lemma_expr_code_value(e: SpecExpr, stack: Seq<i32>, locals: spec_fn(Seq<char>) -> i32)
    ensures
        run(expr_code(e), stack, locals) == pushed(stack, expr_value(e, locals)),
    decreases e,
{
    match e {
        SpecExpr::Add(l, r) => {
            assert forall|s: Seq<i32>| run(expr_code(*l), s, locals) == pushed(s, expr_value(*l, locals)) by {
                lemma_expr_code_value(*l, s, locals);
            }
            assert forall|s: Seq<i32>| run(term_code(*r), s, locals) == pushed(s, term_value(*r, locals)) by {
                lemma_term_code_value(*r, s, locals);
            }
            lemma_binary_operands(expr_code(*l), term_code(*r), Instr::Add, expr_value(*l, locals), term_value(*r, locals), stack, locals);
        },
        SpecExpr::Subtract(l, r) => {
            assert forall|s: Seq<i32>| run(expr_code(*l), s, locals) == pushed(s, expr_value(*l, locals)) by {
                lemma_expr_code_value(*l, s, locals);
            }
            assert forall|s: Seq<i32>| run(term_code(*r), s, locals) == pushed(s, term_value(*r, locals)) by {
                lemma_term_code_value(*r, s, locals);
            }
            lemma_binary_operands(expr_code(*l), term_code(*r), Instr::Sub, expr_value(*l, locals), term_value(*r, locals), stack, locals);
        },
        SpecExpr::Term(t) => lemma_term_code_value(*t, stack, locals),
    }
}

/// Running a term's code pushes the term's value.
pub proof fn lemma_term_code_value(t: SpecTerm, stack: Seq<i32>, locals: spec_fn(Seq<char>) -> i32)
    ensures
        run(term_code(t), stack, locals) == pushed(stack, term_value(t, locals)),
    decreases t,
{
    match t {
        SpecTerm::Multiply(l, r) => {
            assert forall|s: Seq<i32>| run(term_code(*l), s, locals) == pushed(s, term_value(*l, locals)) by {
                lemma_term_code_value(*l, s, locals);
            }
            assert forall|s: Seq<i32>| run(factor_code(*r), s, locals) == pushed(s, factor_value(*r, locals)) by {
                lemma_factor_code_value(*r, s, locals);
            }
            lemma_binary_operands(term_code(*l), factor_code(*r), Instr::Mul, term_value(*l, locals), factor_value(*r, locals), stack, locals);
        },
        SpecTerm::Divide(l, r) => {
            assert forall|s: Seq<i32>| run(term_code(*l), s, locals) == pushed(s, term_value(*l, locals)) by {
                lemma_term_code_value(*l, s, locals);
            }
            assert forall|s: Seq<i32>| run(factor_code(*r), s, locals) == pushed(s, factor_value(*r, locals)) by {
                lemma_factor_code_value(*r, s, locals);
            }
            lemma_binary_operands(term_code(*l), factor_code(*r), Instr::DivU, term_value(*l, locals), factor_value(*r, locals), stack, locals);
        },
        SpecTerm::Factor(f) => lemma_factor_code_value(*f, stack, locals),
    }
}

/// Running a factor's code pushes the factor's value.
pub proof fn lemma_factor_code_value(f: SpecFactor, stack: Seq<i32>, locals: spec_fn(Seq<char>) -> i32)
    ensures
        run(factor_code(f), stack, locals) == pushed(stack, factor_value(f, locals)),
    decreases f,
{
    match f {
        SpecFactor::Expr(e) => lemma_expr_code_value(*e, stack, locals),
        _ => {
            assert(factor_code(f).drop_last() =~= Seq::<Instr>::empty());
            assert(run(Seq::<Instr>::empty(), stack, locals) == Some(stack));
        },
    }
}

} // verus!
