//! The tokens an expression is written with, and the laws relating the
//! parser to them: parsing reads back exactly the expression whose tokens
//! it consumed.

use vstd::prelude::*;
use crate::ast::{
    expr_tail, parse_expr, parse_factor, parse_term, term_tail, SpecExpr, SpecFactor, SpecTerm,
};
use crate::code::{decimal_text, digit_char, digits_text, instr_text, Instr};
use crate::token::{
    digit_run, digit_value, digits_value, is_digit, is_lower, is_operator, lex_all, lex_step,
    lower_run, skip_spaces, LexError, LexStep, SpecToken,
};

verus! {

/// The tokens of an expression, operators between their operands and
/// parentheses around parenthesized expressions.
pub open spec fn print_expr(e: SpecExpr) -> Seq<SpecToken>
    decreases e,
{
    match e {
        SpecExpr::Add(l, r) => print_expr(*l) + seq![SpecToken::Operator('+')] + print_term(*r),
        SpecExpr::Subtract(l, r) => print_expr(*l) + seq![SpecToken::Operator('-')] + print_term(*r),
        SpecExpr::Term(t) => print_term(*t),
    }
}

pub open spec fn print_term(t: SpecTerm) -> Seq<SpecToken>
    decreases t,
{
    match t {
        SpecTerm::Multiply(l, r) => print_term(*l) + seq![SpecToken::Operator('*')] + print_factor(*r),
        SpecTerm::Divide(l, r) => print_term(*l) + seq![SpecToken::Operator('/')] + print_factor(*r),
        SpecTerm::Factor(f) => print_factor(*f),
    }
}

pub open spec fn print_factor(f: SpecFactor) -> Seq<SpecToken>
    decreases f,
{
    match f {
        SpecFactor::Const(c) => seq![SpecToken::Number(c)],
        SpecFactor::Param(p) => seq![SpecToken::Variable(p)],
        SpecFactor::Expr(e) => seq![SpecToken::Open('(')] + print_expr(*e) + seq![SpecToken::Close(')')],
    }
}

/// Whether a token is one of the operators `* /`.
pub open spec fn is_mul_op(t: SpecToken) -> bool {
    t == SpecToken::Operator('*') || t == SpecToken::Operator('/')
}

/// Whether a token is one of the operators `+ - * /`.
pub open spec fn is_arith_op(t: SpecToken) -> bool {
    is_mul_op(t) || t == SpecToken::Operator('+') || t == SpecToken::Operator('-')
}

/// Whether an expression's tokens followed by `rest` end where the
/// expression ends: `rest` does not go on with an operator, and is not an
/// end of stream at which the tokenizer fails.
pub open spec fn ends_expression(rest: Seq<SpecToken>, fault: bool) -> bool {
    if rest.len() == 0 {
        !fault
    } else {
        !is_arith_op(rest[0])
    }
}

proof fn lemma_print_factor_nonempty(f: SpecFactor)
    ensures
        print_factor(f).len() > 0,
{
}

proof fn lemma_print_term_nonempty(t: SpecTerm)
    ensures
        print_term(t).len() > 0,
    decreases t,
{
    match t {
        SpecTerm::Multiply(l, r) => lemma_print_term_nonempty(*l),
        SpecTerm::Divide(l, r) => lemma_print_term_nonempty(*l),
        SpecTerm::Factor(f) => lemma_print_factor_nonempty(*f),
    }
}

/// A factor's tokens parse back to the factor, whatever follows.
proof fn lemma_parse_print_factor(f: SpecFactor, rest: Seq<SpecToken>, fault: bool)
    ensures
        parse_factor(print_factor(f) + rest, fault) == Some((f, rest)),
    decreases f, 0int,
{
    let ts = print_factor(f) + rest;
    match f {
        SpecFactor::Const(c) => {
            assert(ts.drop_first() == rest);
        },
        SpecFactor::Param(p) => {
            assert(ts.drop_first() == rest);
        },
        SpecFactor::Expr(e) => {
            let inner = seq![SpecToken::Close(')')] + rest;
            assert(ts.drop_first() == print_expr(*e) + inner);
            lemma_parse_print_expr(*e, inner, fault);
            lemma_expr_tail_stops(*e, inner, fault);
            assert(inner.drop_first() == rest);
        },
    }
}

/// A term's tokens parse back to the term, and parsing goes on with what
/// follows as the rest of a term.
proof fn lemma_parse_print_term(t: SpecTerm, rest: Seq<SpecToken>, fault: bool)
    ensures
        parse_term(print_term(t) + rest, fault) == term_tail(t, rest, fault),
    decreases t, 1int,
{
    let ts = print_term(t) + rest;
    match t {
        SpecTerm::Factor(f) => {
            lemma_parse_print_factor(*f, rest, fault);
            lemma_print_factor_nonempty(*f);
        },
        SpecTerm::Multiply(l, r) => {
            let after = seq![SpecToken::Operator('*')] + print_factor(*r) + rest;
            assert(ts == print_term(*l) + after);
            lemma_parse_print_term(*l, after, fault);
            assert(after.drop_first() == print_factor(*r) + rest);
            lemma_parse_print_factor(*r, rest, fault);
            lemma_print_factor_nonempty(*r);
        },
        SpecTerm::Divide(l, r) => {
            let after = seq![SpecToken::Operator('/')] + print_factor(*r) + rest;
            assert(ts == print_term(*l) + after);
            lemma_parse_print_term(*l, after, fault);
            assert(after.drop_first() == print_factor(*r) + rest);
            lemma_parse_print_factor(*r, rest, fault);
            lemma_print_factor_nonempty(*r);
        },
    }
}

/// An expression's tokens parse back to the expression, and parsing goes on
/// with what follows as the rest of an expression, where that does not
/// start with `*` or `/`.
proof fn lemma_parse_print_expr(e: SpecExpr, rest: Seq<SpecToken>, fault: bool)
    requires
        rest.len() == 0 || !is_mul_op(rest[0]),
    ensures
        parse_expr(print_expr(e) + rest, fault) == expr_tail(e, rest, fault),
    decreases e, 1int,
{
    match e {
        SpecExpr::Term(t) => {
            lemma_parse_print_term(*t, rest, fault);
            lemma_print_term_nonempty(*t);
        },
        SpecExpr::Add(l, r) => {
            let after = seq![SpecToken::Operator('+')] + print_term(*r) + rest;
            assert(print_expr(e) + rest == print_expr(*l) + after);
            lemma_parse_print_expr(*l, after, fault);
            assert(after.drop_first() == print_term(*r) + rest);
            lemma_parse_print_term(*r, rest, fault);
            lemma_term_tail_stops(*r, rest, fault);
            lemma_print_term_nonempty(*r);
        },
        SpecExpr::Subtract(l, r) => {
            let after = seq![SpecToken::Operator('-')] + print_term(*r) + rest;
            assert(print_expr(e) + rest == print_expr(*l) + after);
            lemma_parse_print_expr(*l, after, fault);
            assert(after.drop_first() == print_term(*r) + rest);
            lemma_parse_print_term(*r, rest, fault);
            lemma_term_tail_stops(*r, rest, fault);
            lemma_print_term_nonempty(*r);
        },
    }
}

/// Continuing a term stops at once before anything but `*` and `/`.
proof fn lemma_term_tail_stops(t: SpecTerm, rest: Seq<SpecToken>, fault: bool)
    requires
        rest.len() == 0 || !is_mul_op(rest[0]),
    ensures
        term_tail(t, rest, fault) == (if rest.len() == 0 && fault {
            None
        } else {
            Some((t, rest))
        }),
{
}

/// Continuing an expression stops at once before anything but an operator.
proof fn lemma_expr_tail_stops(e: SpecExpr, rest: Seq<SpecToken>, fault: bool)
    requires
        rest.len() > 0,
        !is_arith_op(rest[0]),
    ensures
        expr_tail(e, rest, fault) == Some((e, rest)),
{
}

/// Parsing inverts printing: the tokens of any expression, followed by
/// tokens that end it, parse back to that expression and leave exactly
/// what followed.
pub proof fn lemma_parse_print(e: SpecExpr, rest: Seq<SpecToken>, fault: bool)
    requires
        ends_expression(rest, fault),
    ensures
        parse_expr(print_expr(e) + rest, fault) == Some((e, rest)),
{
    lemma_parse_print_expr(e, rest, fault);
    if rest.len() > 0 {
        lemma_expr_tail_stops(e, rest, fault);
    }
}

proof fn lemma_factor_consumes(ts: Seq<SpecToken>, fault: bool)
    ensures
        parse_factor(ts, fault) matches Some((f, rest)) ==> ts == print_factor(f) + rest,
    decreases ts.len(), 1int,
{
    if ts.len() > 0 {
        match ts[0] {
            SpecToken::Open(c) => {
                if c == '(' {
                    lemma_expr_consumes(ts.drop_first(), fault);
                    if let Some((e, r)) = parse_expr(ts.drop_first(), fault) {
                        if r.len() > 0 && r[0] == SpecToken::Close(')') {
                            assert(r == seq![SpecToken::Close(')')] + r.drop_first());
                            assert(ts == seq![ts[0]] + ts.drop_first());
                        }
                    }
                }
            },
            _ => {
                assert(ts == seq![ts[0]] + ts.drop_first());
            },
        }
    }
}

proof fn lemma_term_tail_consumes(acc: SpecTerm, ts: Seq<SpecToken>, fault: bool)
    ensures
        term_tail(acc, ts, fault) matches Some((t, rest)) ==> print_term(acc) + ts == print_term(t)
            + rest,
    decreases ts.len(), 0int,
{
    if ts.len() > 0 && is_mul_op(ts[0]) {
        lemma_factor_consumes(ts.drop_first(), fault);
        if let Some((f, r)) = parse_factor(ts.drop_first(), fault) {
            if r.len() < ts.len() {
                let next = if ts[0] == SpecToken::Operator('*') {
                    SpecTerm::Multiply(Box::new(acc), Box::new(f))
                } else {
                    SpecTerm::Divide(Box::new(acc), Box::new(f))
                };
                lemma_term_tail_consumes(next, r, fault);
                assert(ts == seq![ts[0]] + ts.drop_first());
                assert(print_term(acc) + ts == print_term(next) + r);
            }
        }
    }
}

proof fn lemma_term_consumes(ts: Seq<SpecToken>, fault: bool)
    ensures
        parse_term(ts, fault) matches Some((t, rest)) ==> ts == print_term(t) + rest,
    decreases ts.len(), 2int,
{
    lemma_factor_consumes(ts, fault);
    if let Some((f, r)) = parse_factor(ts, fault) {
        if r.len() < ts.len() {
            lemma_term_tail_consumes(SpecTerm::Factor(Box::new(f)), r, fault);
        }
    }
}

proof fn lemma_expr_tail_consumes(acc: SpecExpr, ts: Seq<SpecToken>, fault: bool)
    ensures
        expr_tail(acc, ts, fault) matches Some((e, rest)) ==> print_expr(acc) + ts == print_expr(e)
            + rest,
    decreases ts.len(), 0int,
{
    if ts.len() > 0 && (ts[0] == SpecToken::Operator('+') || ts[0] == SpecToken::Operator('-')) {
        lemma_term_consumes(ts.drop_first(), fault);
        if let Some((t, r)) = parse_term(ts.drop_first(), fault) {
            if r.len() < ts.len() {
                let next = if ts[0] == SpecToken::Operator('+') {
                    SpecExpr::Add(Box::new(acc), Box::new(t))
                } else {
                    SpecExpr::Subtract(Box::new(acc), Box::new(t))
                };
                lemma_expr_tail_consumes(next, r, fault);
                assert(ts == seq![ts[0]] + ts.drop_first());
                assert(print_expr(acc) + ts == print_expr(next) + r);
            }
        }
    }
}

proof fn lemma_expr_consumes(ts: Seq<SpecToken>, fault: bool)
    ensures
        parse_expr(ts, fault) matches Some((e, rest)) ==> ts == print_expr(e) + rest,
    decreases ts.len(), 3int,
{
    lemma_term_consumes(ts, fault);
    if let Some((t, r)) = parse_term(ts, fault) {
        if r.len() < ts.len() {
            lemma_expr_tail_consumes(SpecExpr::Term(Box::new(t)), r, fault);
        }
    }
}

/// Parsing reads exactly the tokens of what it returns: where an expression
/// is parsed from `ts`, `ts` is that expression's tokens followed by the
/// tokens left.
pub proof fn lemma_parse_reads_print(ts: Seq<SpecToken>, fault: bool)
    ensures
        parse_expr(ts, fault) matches Some((e, rest)) ==> ts == print_expr(e) + rest && ends_expression(rest, fault),
{
    lemma_expr_consumes(ts, fault);
    lemma_expr_ends(ts, fault);
}

/// Whether a term's tokens followed by `rest` end where the term ends.
pub open spec fn ends_term(rest: Seq<SpecToken>, fault: bool) -> bool {
    if rest.len() == 0 {
        !fault
    } else {
        !is_mul_op(rest[0])
    }
}

proof fn lemma_term_tail_ends(acc: SpecTerm, ts: Seq<SpecToken>, fault: bool)
    ensures
        term_tail(acc, ts, fault) matches Some((t, rest)) ==> ends_term(rest, fault),
    decreases ts.len(),
{
    if ts.len() > 0 && is_mul_op(ts[0]) {
        if let Some((f, r)) = parse_factor(ts.drop_first(), fault) {
            if r.len() < ts.len() {
                let next = if ts[0] == SpecToken::Operator('*') {
                    SpecTerm::Multiply(Box::new(acc), Box::new(f))
                } else {
                    SpecTerm::Divide(Box::new(acc), Box::new(f))
                };
                lemma_term_tail_ends(next, r, fault);
            }
        }
    }
}

proof fn lemma_term_ends(ts: Seq<SpecToken>, fault: bool)
    ensures
        parse_term(ts, fault) matches Some((t, rest)) ==> ends_term(rest, fault),
{
    if let Some((f, r)) = parse_factor(ts, fault) {
        if r.len() < ts.len() {
            lemma_term_tail_ends(SpecTerm::Factor(Box::new(f)), r, fault);
        }
    }
}

proof fn lemma_expr_tail_ends(acc: SpecExpr, ts: Seq<SpecToken>, fault: bool)
    requires
        ends_term(ts, fault),
    ensures
        expr_tail(acc, ts, fault) matches Some((e, rest)) ==> ends_expression(rest, fault),
    decreases ts.len(),
{
    if ts.len() > 0 && (ts[0] == SpecToken::Operator('+') || ts[0] == SpecToken::Operator('-')) {
        lemma_term_ends(ts.drop_first(), fault);
        if let Some((t, r)) = parse_term(ts.drop_first(), fault) {
            if r.len() < ts.len() {
                let next = if ts[0] == SpecToken::Operator('+') {
                    SpecExpr::Add(Box::new(acc), Box::new(t))
                } else {
                    SpecExpr::Subtract(Box::new(acc), Box::new(t))
                };
                lemma_expr_tail_ends(next, r, fault);
            }
        }
    }
}

proof fn lemma_expr_ends(ts: Seq<SpecToken>, fault: bool)
    ensures
        parse_expr(ts, fault) matches Some((e, rest)) ==> ends_expression(rest, fault),
{
    lemma_term_ends(ts, fault);
    if let Some((t, r)) = parse_term(ts, fault) {
        if r.len() < ts.len() {
            lemma_expr_tail_ends(SpecExpr::Term(Box::new(t)), r, fault);
        }
    }
}

/// Printing is unambiguous: two expressions whose tokens, each followed by
/// tokens that end it, are the same token sequence are the same expression,
/// followed by the same tokens.
pub proof fn lemma_print_unambiguous(
    e1: SpecExpr,
    rest1: Seq<SpecToken>,
    e2: SpecExpr,
    rest2: Seq<SpecToken>,
    fault: bool,
)
    requires
        ends_expression(rest1, fault),
        ends_expression(rest2, fault),
        print_expr(e1) + rest1 == print_expr(e2) + rest2,
    ensures
        e1 == e2,
        rest1 == rest2,
{
    lemma_parse_print(e1, rest1, fault);
    lemma_parse_print(e2, rest2, fault);
}

/// Whether a token can be written as text: numbers are not negative,
/// variable names are non-empty runs of lowercase letters, and operators
/// and parentheses are the ones the tokenizer reads.
pub open spec fn writable(t: SpecToken) -> bool {
    match t {
        SpecToken::Number(n) => n >= 0,
        SpecToken::Variable(v) => v.len() > 0 && forall|k: int| 0 <= k < v.len() ==> is_lower(#[trigger] v[k]),
        SpecToken::Operator(c) => is_operator(c),
        SpecToken::Open(c) => c == '(',
        SpecToken::Close(c) => c == ')',
    }
}

/// The text of a token: a number in decimal, a variable by its name, any
/// other token by its character.
pub open spec fn token_text(t: SpecToken) -> Seq<char> {
    match t {
        SpecToken::Number(n) => digits_text(n as nat),
        SpecToken::Variable(v) => v,
        SpecToken::Operator(c) => seq![c],
        SpecToken::Open(c) => seq![c],
        SpecToken::Close(c) => seq![c],
    }
}

/// The text of a token sequence, each token followed by a space.
pub open spec fn tokens_text(ts: Seq<SpecToken>) -> Seq<char>
    decreases ts.len(),
{
    if ts.len() == 0 {
        Seq::empty()
    } else {
        token_text(ts[0]) + seq![' '] + tokens_text(ts.drop_first())
    }
}

proof fn lemma_digit_char_value(d: int)
    requires
        0 <= d < 10,
    ensures
        is_digit(digit_char(d)),
        digit_value(digit_char(d)) == d,
{
}

/// The decimal digits of `n` are digits, and their value is `n`.
proof fn lemma_digits_text(n: nat)
    ensures
        digits_text(n).len() > 0,
        forall|k: int| 0 <= k < digits_text(n).len() ==> is_digit(#[trigger] digits_text(n)[k]),
        digits_value(digits_text(n)) == n,
    decreases n,
{
    if n < 10 {
        lemma_digit_char_value(n as int);
        assert(seq![digit_char(n as int)].drop_last() == Seq::<char>::empty());
        assert(digits_value(Seq::<char>::empty()) == 0);
    } else {
        lemma_digits_text(n / 10);
        lemma_digit_char_value((n % 10) as int);
        let d = digits_text(n / 10);
        assert(digits_text(n).drop_last() == d);
        assert(digits_text(n).last() == digit_char((n % 10) as int));
        assert(digits_value(digits_text(n)) == digits_value(d) * 10 + (n % 10));
    }
}

proof fn lemma_digit_run_word(w: Seq<char>, rest: Seq<char>)
    requires
        forall|k: int| 0 <= k < w.len() ==> is_digit(#[trigger] w[k]),
    ensures
        digit_run(w + seq![' '] + rest) == w.len(),
    decreases w.len(),
{
    let s = w + seq![' '] + rest;
    if w.len() > 0 {
        assert(s.drop_first() == w.drop_first() + seq![' '] + rest);
        lemma_digit_run_word(w.drop_first(), rest);
    } else {
        assert(s[0] == ' ');
    }
}

proof fn lemma_lower_run_word(w: Seq<char>, rest: Seq<char>)
    requires
        forall|k: int| 0 <= k < w.len() ==> is_lower(#[trigger] w[k]),
    ensures
        lower_run(w + seq![' '] + rest) == w.len(),
    decreases w.len(),
{
    let s = w + seq![' '] + rest;
    if w.len() > 0 {
        assert(s.drop_first() == w.drop_first() + seq![' '] + rest);
        lemma_lower_run_word(w.drop_first(), rest);
    } else {
        assert(s[0] == ' ');
    }
}

proof fn lemma_skip_spaces_idempotent(s: Seq<char>)
    ensures
        skip_spaces(skip_spaces(s)) == skip_spaces(s),
    decreases s.len(),
{
    if s.len() > 0 && s[0] == ' ' {
        lemma_skip_spaces_idempotent(s.drop_first());
    }
}

/// Reading after a space reads as without it.
proof fn lemma_lex_all_space(rest: Seq<char>)
    ensures
        lex_all(seq![' '] + rest) == lex_all(rest),
{
    let s = seq![' '] + rest;
    assert(s.drop_first() == rest);
    assert(skip_spaces(s) == skip_spaces(rest));
}

/// Reading a written token gives the token back, and reading goes on after
/// the space that follows it.
proof fn lemma_lex_step_word(t: SpecToken, rest: Seq<char>)
    requires
        writable(t),
    ensures
        lex_step(token_text(t) + seq![' '] + rest) == LexStep::Token(t, seq![' '] + rest),
{
    let w = token_text(t);
    let s = w + seq![' '] + rest;
    match t {
        SpecToken::Number(n) => {
            lemma_digits_text(n as nat);
            lemma_digit_run_word(w, rest);
            assert(s[0] == w[0]);
            assert(skip_spaces(s) == s);
            assert(s.take(w.len() as int) == w);
            assert(s.skip(w.len() as int) == seq![' '] + rest);
        },
        SpecToken::Variable(v) => {
            lemma_lower_run_word(w, rest);
            assert(s[0] == w[0]);
            assert(is_lower(w[0]));
            assert(skip_spaces(s) == s);
            assert(s.take(w.len() as int) == w);
            assert(s.skip(w.len() as int) == seq![' '] + rest);
        },
        _ => {
            assert(s[0] == w[0]);
            assert(skip_spaces(s) == s);
            assert(s.drop_first() == seq![' '] + rest);
        },
    }
}

/// Tokenizing the text of writable tokens gives back those tokens, with no
/// error: the tokenizer reads what tokens are written as.
pub proof fn lemma_lex_tokens_text(ts: Seq<SpecToken>)
    requires
        forall|k: int| 0 <= k < ts.len() ==> writable(#[trigger] ts[k]),
    ensures
        lex_all(tokens_text(ts)) == (ts, None::<crate::token::LexError>),
    decreases ts.len(),
{
    if ts.len() == 0 {
        assert(skip_spaces(Seq::<char>::empty()) == Seq::<char>::empty());
    } else {
        let rest = tokens_text(ts.drop_first());
        assert(writable(ts[0]));
        lemma_lex_step_word(ts[0], rest);
        lemma_lex_all_space(rest);
        lemma_lex_tokens_text(ts.drop_first());
        assert(ts == seq![ts[0]] + ts.drop_first());
    }
}

/// The text of an expression whose tokens are writable reads back as that
/// expression: tokenizing it and parsing the tokens gives the expression and
/// leaves nothing.
pub proof fn lemma_read_written_expr(e: SpecExpr)
    requires
        forall|k: int| 0 <= k < print_expr(e).len() ==> writable(#[trigger] print_expr(e)[k]),
    ensures
        lex_all(tokens_text(print_expr(e))) == (print_expr(e), None::<crate::token::LexError>),
        parse_expr(lex_all(tokens_text(print_expr(e))).0, false) == Some((e, Seq::<SpecToken>::empty())),
{
    lemma_lex_tokens_text(print_expr(e));
    lemma_parse_print(e, Seq::empty(), false);
    assert(print_expr(e) + Seq::<SpecToken>::empty() == print_expr(e));
}

/// Skipping the spaces of a concatenation: those of the first part, then,
/// where it is all spaces, those of the second.
proof fn lemma_skip_spaces_concat(a: Seq<char>, b: Seq<char>)
    ensures
        skip_spaces(a).len() <= a.len(),
        skip_spaces(a) == a.skip(a.len() - skip_spaces(a).len()),
        skip_spaces(a).len() > 0 ==> skip_spaces(a + b) == skip_spaces(a) + b,
        skip_spaces(a).len() == 0 ==> skip_spaces(a + b) == skip_spaces(b),
    decreases a.len(),
{
    if a.len() == 0 {
        assert(a + b == b);
        assert(a.skip(0) == a);
    } else if a[0] == ' ' {
        lemma_skip_spaces_concat(a.drop_first(), b);
        assert((a + b).drop_first() == a.drop_first() + b);
        assert((a + b)[0] == ' ');
        assert(a.drop_first().skip(a.drop_first().len() - skip_spaces(a).len()) == a.skip(
            a.len() - skip_spaces(a).len(),
        ));
    } else {
        assert((a + b)[0] == a[0]);
        assert(a.skip(0) == a);
    }
}

/// The run of digits at the start of a concatenation.
proof fn lemma_digit_run_concat(a: Seq<char>, b: Seq<char>)
    ensures
        digit_run(a) <= a.len(),
        forall|j: int| 0 <= j < digit_run(a) ==> is_digit(#[trigger] a[j]),
        (forall|j: int| 0 <= j < a.len() ==> is_digit(#[trigger] a[j])) ==> digit_run(a) == a.len(),
        digit_run(a) < a.len() ==> digit_run(a + b) == digit_run(a),
        digit_run(a) == a.len() ==> digit_run(a + b) == a.len() + digit_run(b),
    decreases a.len(),
{
    if a.len() == 0 {
        assert(a + b == b);
    } else {
        assert((a + b)[0] == a[0]);
        if is_digit(a[0]) {
            lemma_digit_run_concat(a.drop_first(), b);
            assert((a + b).drop_first() == a.drop_first() + b);
            assert forall|j: int| 0 <= j < digit_run(a) implies is_digit(#[trigger] a[j]) by {
                if j > 0 {
                    assert(a[j] == a.drop_first()[j - 1]);
                }
            }
            if forall|j: int| 0 <= j < a.len() ==> is_digit(#[trigger] a[j]) {
                assert forall|j: int| 0 <= j < a.drop_first().len() implies is_digit(
                    #[trigger] a.drop_first()[j],
                ) by {
                    assert(a.drop_first()[j] == a[j + 1]);
                }
            }
        }
    }
}

/// The run of lowercase letters at the start of a concatenation.
proof fn lemma_lower_run_concat(a: Seq<char>, b: Seq<char>)
    ensures
        lower_run(a) <= a.len(),
        forall|j: int| 0 <= j < lower_run(a) ==> is_lower(#[trigger] a[j]),
        (forall|j: int| 0 <= j < a.len() ==> is_lower(#[trigger] a[j])) ==> lower_run(a) == a.len(),
        lower_run(a) < a.len() ==> lower_run(a + b) == lower_run(a),
        lower_run(a) == a.len() ==> lower_run(a + b) == a.len() + lower_run(b),
    decreases a.len(),
{
    if a.len() == 0 {
        assert(a + b == b);
    } else {
        assert((a + b)[0] == a[0]);
        if is_lower(a[0]) {
            lemma_lower_run_concat(a.drop_first(), b);
            assert((a + b).drop_first() == a.drop_first() + b);
            assert forall|j: int| 0 <= j < lower_run(a) implies is_lower(#[trigger] a[j]) by {
                if j > 0 {
                    assert(a[j] == a.drop_first()[j - 1]);
                }
            }
            if forall|j: int| 0 <= j < a.len() ==> is_lower(#[trigger] a[j]) {
                assert forall|j: int| 0 <= j < a.drop_first().len() implies is_lower(
                    #[trigger] a.drop_first()[j],
                ) by {
                    assert(a.drop_first()[j] == a[j + 1]);
                }
            }
        }
    }
}

/// Reading a token from `p` + `x1` and from `p` + `x2` fails alike, or gives
/// the same token from the first `k` characters of `p`.
spec fn steps_alike(p: Seq<char>, x1: Seq<char>, x2: Seq<char>, k: int) -> bool {
    match lex_step(p + x1) {
        LexStep::Fault(e) => lex_step(p + x2) == LexStep::Fault(e),
        LexStep::Token(tok, r) => 0 < k <= p.len() && r == p.skip(k) + x1 && lex_step(p + x2)
            == LexStep::Token(tok, p.skip(k) + x2),
        LexStep::End => false,
    }
}

/// Reading a token from `p` followed by a text that starts a variable (by a
/// letter or by `$`): where `p` does not end inside a name, the token comes
/// from `p` alone, whichever of the two texts follows, or both fail alike.
proof fn lemma_lex_step_before_name(p: Seq<char>, x1: Seq<char>, x2: Seq<char>) -> (k: int)
    requires
        skip_spaces(p).len() > 0,
        !is_lower(p.last()),
        p.last() != '$',
        x1.len() > 0,
        x2.len() > 0,
        x1[0] == '$' || is_lower(x1[0]),
        x2[0] == '$' || is_lower(x2[0]),
    ensures
        steps_alike(p, x1, x2, k),
{
    let t = skip_spaces(p);
    lemma_skip_spaces_concat(p, x1);
    lemma_skip_spaces_concat(p, x2);
    let j = p.len() - t.len();
    assert(t == p.skip(j));
    assert(t.last() == p.last());
    assert((t + x1)[0] == t[0]);
    assert((t + x2)[0] == t[0]);
    if is_digit(t[0]) {
        lemma_digit_run_concat(t, x1);
        lemma_digit_run_concat(t, x2);
        assert(digit_run(x1) == 0);
        assert(digit_run(x2) == 0);
        let n = digit_run(t) as int;
        assert((t + x1).take(n) == t.take(n));
        assert((t + x2).take(n) == t.take(n));
        assert((t + x1).skip(n) == t.skip(n) + x1);
        assert((t + x2).skip(n) == t.skip(n) + x2);
        assert(t.skip(n) == p.skip(j + n));
        j + n
    } else if is_lower(t[0]) {
        lemma_lower_run_concat(t, x1);
        lemma_lower_run_concat(t, x2);
        if lower_run(t) == t.len() {
            assert(is_lower(t[t.len() - 1]));
            assert(false);
        }
        let n = lower_run(t) as int;
        assert((t + x1).take(n) == t.take(n));
        assert((t + x2).take(n) == t.take(n));
        assert((t + x1).skip(n) == t.skip(n) + x1);
        assert((t + x2).skip(n) == t.skip(n) + x2);
        assert(t.skip(n) == p.skip(j + n));
        j + n
    } else if is_operator(t[0]) || t[0] == '(' || t[0] == ')' {
        assert((t + x1).drop_first() == t.drop_first() + x1);
        assert((t + x2).drop_first() == t.drop_first() + x2);
        assert(t.drop_first() == p.skip(j + 1));
        j + 1
    } else if t[0] == '$' {
        if t.len() == 1 {
            assert(t.last() == '$');
            assert(false);
        }
        assert((t + x1)[1] == t[1]);
        assert((t + x2)[1] == t[1]);
        if is_lower(t[1]) {
            let u = t.drop_first();
            assert((t + x1).drop_first() == u + x1);
            assert((t + x2).drop_first() == u + x2);
            lemma_lower_run_concat(u, x1);
            lemma_lower_run_concat(u, x2);
            if lower_run(u) == u.len() {
                assert(is_lower(u[u.len() - 1]));
                assert(u[u.len() - 1] == t.last());
                assert(false);
            }
            let n = lower_run(u) as int;
            assert((u + x1).take(n) == u.take(n));
            assert((u + x2).take(n) == u.take(n));
            assert((u + x1).skip(n) == u.skip(n) + x1);
            assert((u + x2).skip(n) == u.skip(n) + x2);
            assert(u.skip(n) == p.skip(j + 1 + n));
            j + 1 + n
        } else {
            0
        }
    } else {
        0
    }
}

/// A variable may be written with a leading `$`: for every non-empty run of
/// lowercase letters `w`, text `p` that does not end in a lowercase letter or
/// a `$`, and text `q` that does not start with a lowercase letter (`q` may
/// be empty), `p` + `$` + `w` + `q` has the same tokens, and the same error,
/// as `p` + `w` + `q`.
pub proof fn lemma_dollar_name(p: Seq<char>, w: Seq<char>, q: Seq<char>)
    requires
        w.len() > 0,
        forall|k: int| 0 <= k < w.len() ==> is_lower(#[trigger] w[k]),
        p.len() > 0 ==> !is_lower(p.last()) && p.last() != '$',
        q.len() > 0 ==> !is_lower(q[0]),
    ensures
        lex_all(p + seq!['$'] + w + q) == lex_all(p + w + q),
    decreases p.len(),
{
    let x1 = seq!['$'] + w + q;
    let x2 = w + q;
    assert(p + seq!['$'] + w + q == p + x1);
    assert(p + w + q == p + x2);
    lemma_skip_spaces_concat(p, x1);
    lemma_skip_spaces_concat(p, x2);
    assert(x1[0] == '$');
    assert(x2[0] == w[0]);
    if skip_spaces(p).len() == 0 {
        assert(skip_spaces(x1) == x1);
        assert(skip_spaces(x2) == x2);
        lemma_lower_run_concat(w, q);
        assert(lower_run(q) == 0);
        assert(x1.drop_first() == x2);
        assert(x1[1] == w[0]);
        assert(x2.take(w.len() as int) == w);
        assert(x2.skip(w.len() as int) == q);
        assert(lex_step(p + x1) == lex_step(p + x2));
    } else {
        let k = lemma_lex_step_before_name(p, x1, x2);
        if lex_step(p + x1) is Token {
            let p2 = p.skip(k);
            assert(p2.len() > 0 ==> p2.last() == p.last());
            lemma_dollar_name(p2, w, q);
            assert(p2 + seq!['$'] + w + q == p2 + x1);
            assert(p2 + w + q == p2 + x2);
        }
    }
}

/// Whether `d` is a decimal numeral: digits only, at least one, and no
/// leading zero unless it is the numeral `0`.
pub open spec fn is_numeral(d: Seq<char>) -> bool {
    &&& d.len() > 0
    &&& forall|k: int| 0 <= k < d.len() ==> is_digit(#[trigger] d[k])
    &&& d.len() > 1 ==> d[0] != '0'
}

/// The decimal digits of a positive number do not start with `0`.
proof fn lemma_digits_text_leading(n: nat)
    ensures
        digits_text(n).len() > 1 ==> n >= 10,
        n > 0 ==> digits_text(n)[0] != '0',
    decreases n,
{
    if n >= 10 {
        lemma_digits_text_leading(n / 10);
        lemma_digits_text(n / 10);
        assert(digits_text(n)[0] == digits_text(n / 10)[0]);
    }
}

/// The WAT text of a constant `c` is `i32.const ` and then `c` in decimal:
/// for `c >= 0` a numeral whose value is `c`, which the tokenizer reads back
/// as the number `c`; for `c < 0` a `-` and a numeral whose value is `-c`.
pub proof fn lemma_const_text(c: i32)
    ensures
        instr_text(Instr::Const(c)).take(10) == "i32.const "@,
        c >= 0 ==> is_numeral(instr_text(Instr::Const(c)).skip(10)),
        c >= 0 ==> digits_value(instr_text(Instr::Const(c)).skip(10)) == c,
        c >= 0 ==> lex_all(instr_text(Instr::Const(c)).skip(10)) == (
            seq![SpecToken::Number(c)],
            None::<LexError>,
        ),
        c < 0 ==> instr_text(Instr::Const(c))[10] == '-',
        c < 0 ==> is_numeral(instr_text(Instr::Const(c)).skip(11)),
        c < 0 ==> digits_value(instr_text(Instr::Const(c)).skip(11)) == -c,
{
    reveal_strlit("i32.const ");
    let pre = "i32.const "@;
    let d = decimal_text(c as int);
    let s = instr_text(Instr::Const(c));
    assert(s == pre + d);
    assert(pre.len() == 10);
    assert(s.take(10) == pre);
    assert(s.skip(10) == d);
    if c >= 0 {
        let n = c as nat;
        lemma_digits_text(n);
        lemma_digits_text_leading(n);
        lemma_digit_run_concat(d, Seq::empty());
        assert(d[0] != ' ');
        assert(skip_spaces(d) == d);
        assert(d.take(d.len() as int) == d);
        assert(d.skip(d.len() as int) == Seq::<char>::empty());
        assert(skip_spaces(Seq::<char>::empty()) == Seq::<char>::empty());
        assert(lex_all(Seq::<char>::empty()) == (Seq::<SpecToken>::empty(), None::<LexError>));
        assert(seq![SpecToken::Number(c)] + Seq::<SpecToken>::empty() == seq![SpecToken::Number(c)]);
    } else {
        let n = (-c) as nat;
        lemma_digits_text(n);
        lemma_digits_text_leading(n);
        assert(s == pre + seq!['-'] + digits_text(n));
        assert(s.skip(11) == digits_text(n));
    }
}

} // verus!
