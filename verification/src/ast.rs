//! Expressions: their syntax tree, the parser from tokens, and their
//! compilation to WebAssembly text and binary code.

use vstd::prelude::*;
use vstd::string::*;
use crate::code::{
    Instr, code_bound, instr_text, is_plain_char, plain_names, code_bytes, code_text, instr_bytes, lemma_code_bytes_append,
    lemma_code_text_append, local_index, names_of,
};
use crate::leb128::write_leb128;
use crate::text::push_decimal;
use crate::token::{SpecToken, Token, TokenStream};

verus! {

/// The names of the locals, by index.
pub type Bindings = [String];

/// WebAssembly text.
pub type Wat = String;

/// WebAssembly binary code.
pub type Wasm = Vec<u8>;

/// Compilation of a syntax-tree node to WebAssembly binary code.
pub trait ToWasm {
    /// The instructions this node compiles to.
    spec fn code(&self) -> Seq<Instr>;

    /// The binary encoding of `code`, locals numbered by their position in
    /// `bindings`; every local read must be bound.
    fn to_wasm(&self, bindings: &Bindings) -> (out: Wasm)
        requires
            code_bound(self.code(), names_of(bindings@)),
        ensures
            out@ == code_bytes(self.code(), names_of(bindings@)),
    ;
}

/// A sum or difference of terms, grouped to the left.
pub enum Expr {
    Add(Box<Expr>, Box<Term>),
    Subtract(Box<Expr>, Box<Term>),
    Term(Box<Term>),
}

/// A product or quotient of factors, grouped to the left.
pub enum Term {
    Multiply(Box<Term>, Box<Factor>),
    Divide(Box<Term>, Box<Factor>),
    Factor(Box<Factor>),
}

/// A constant, a variable, or an expression in parentheses.
pub enum Factor {
    Const(i32),
    Param(String),
    Expr(Box<Expr>), // braced: ( Expr )
}

/// An expression with its variable names seen as sequences of characters.
pub enum SpecExpr {
    Add(Box<SpecExpr>, Box<SpecTerm>),
    Subtract(Box<SpecExpr>, Box<SpecTerm>),
    Term(Box<SpecTerm>),
}

/// A term with its variable names seen as sequences of characters.
pub enum SpecTerm {
    Multiply(Box<SpecTerm>, Box<SpecFactor>),
    Divide(Box<SpecTerm>, Box<SpecFactor>),
    Factor(Box<SpecFactor>),
}

/// A factor with its variable name seen as a sequence of characters.
pub enum SpecFactor {
    Const(i32),
    Param(Seq<char>),
    Expr(Box<SpecExpr>),
}

pub open spec fn expr_view(e: Expr) -> SpecExpr
    decreases e,
{
    match e {
        Expr::Add(l, r) => SpecExpr::Add(Box::new(expr_view(*l)), Box::new(term_view(*r))),
        Expr::Subtract(l, r) => SpecExpr::Subtract(Box::new(expr_view(*l)), Box::new(term_view(*r))),
        Expr::Term(t) => SpecExpr::Term(Box::new(term_view(*t))),
    }
}

pub open spec fn term_view(t: Term) -> SpecTerm
    decreases t,
{
    match t {
        Term::Multiply(l, r) => SpecTerm::Multiply(Box::new(term_view(*l)), Box::new(factor_view(*r))),
        Term::Divide(l, r) => SpecTerm::Divide(Box::new(term_view(*l)), Box::new(factor_view(*r))),
        Term::Factor(f) => SpecTerm::Factor(Box::new(factor_view(*f))),
    }
}

pub open spec fn factor_view(f: Factor) -> SpecFactor
    decreases f,
{
    match f {
        Factor::Const(c) => SpecFactor::Const(c),
        Factor::Param(p) => SpecFactor::Param(p@),
        Factor::Expr(e) => SpecFactor::Expr(Box::new(expr_view(*e))),
    }
}

impl View for Expr {
    type V = SpecExpr;

    open spec fn view(&self) -> SpecExpr {
        expr_view(*self)
    }
}

impl View for Term {
    type V = SpecTerm;

    open spec fn view(&self) -> SpecTerm {
        term_view(*self)
    }
}

impl View for Factor {
    type V = SpecFactor;

    open spec fn view(&self) -> SpecFactor {
        factor_view(*self)
    }
}

/// The instructions of an expression: its operands' code, then its operator
/// (postfix order).
pub open spec fn expr_code(e: SpecExpr) -> Seq<Instr>
    decreases e,
{
    match e {
        SpecExpr::Add(l, r) => expr_code(*l) + term_code(*r) + seq![Instr::Add],
        SpecExpr::Subtract(l, r) => expr_code(*l) + term_code(*r) + seq![Instr::Sub],
        SpecExpr::Term(t) => term_code(*t),
    }
}

pub open spec fn term_code(t: SpecTerm) -> Seq<Instr>
    decreases t,
{
    match t {
        SpecTerm::Multiply(l, r) => term_code(*l) + factor_code(*r) + seq![Instr::Mul],
        SpecTerm::Divide(l, r) => term_code(*l) + factor_code(*r) + seq![Instr::DivU],
        SpecTerm::Factor(f) => factor_code(*f),
    }
}

pub open spec fn factor_code(f: SpecFactor) -> Seq<Instr>
    decreases f,
{
    match f {
        SpecFactor::Const(c) => seq![Instr::Const(c)],
        SpecFactor::Param(p) => seq![Instr::LocalGet(p)],
        SpecFactor::Expr(e) => expr_code(*e),
    }
}

pub proof fn lemma_expr_code_nonempty(e: SpecExpr)
    ensures
        expr_code(e).len() > 0,
    decreases e,
{
    match e {
        SpecExpr::Term(t) => lemma_term_code_nonempty(*t),
        _ => {},
    }
}

pub proof fn lemma_term_code_nonempty(t: SpecTerm)
    ensures
        term_code(t).len() > 0,
    decreases t,
{
    match t {
        SpecTerm::Factor(f) => lemma_factor_code_nonempty(*f),
        _ => {},
    }
}

pub proof fn lemma_factor_code_nonempty(f: SpecFactor)
    ensures
        factor_code(f).len() > 0,
    decreases f,
{
    match f {
        SpecFactor::Expr(e) => lemma_expr_code_nonempty(*e),
        _ => {},
    }
}

/// The result of parsing an expression at the front of `ts`, a token
/// sequence that the stream cannot go past when `fault` holds: the
/// expression and the tokens after it, or `None` where parsing fails.
///
/// An expression is a term followed by any number of `+` or `-` and a
/// term, grouped to the left; it ends before the first token that is not
/// `+` or `-`.
pub open spec fn parse_expr(ts: Seq<SpecToken>, fault: bool) -> Option<(SpecExpr, Seq<SpecToken>)>
    decreases ts.len(), 3int,
{
    match parse_term(ts, fault) {
        Some((t, rest)) => if rest.len() < ts.len() {
            expr_tail(SpecExpr::Term(Box::new(t)), rest, fault)
        } else {
            None
        },
        None => None,
    }
}

/// Continues an expression `acc` with the `+ term` and `- term` parts at the
/// front of `ts`.
pub open spec fn expr_tail(acc: SpecExpr, ts: Seq<SpecToken>, fault: bool) -> Option<
    (SpecExpr, Seq<SpecToken>),
>
    decreases ts.len(), 0int,
{
    if ts.len() == 0 {
        if fault {
            None
        } else {
            Some((acc, ts))
        }
    } else if ts[0] == SpecToken::Operator('+') || ts[0] == SpecToken::Operator('-') {
        match parse_term(ts.drop_first(), fault) {
            Some((t, rest)) => if rest.len() < ts.len() {
                if ts[0] == SpecToken::Operator('+') {
                    expr_tail(SpecExpr::Add(Box::new(acc), Box::new(t)), rest, fault)
                } else {
                    expr_tail(SpecExpr::Subtract(Box::new(acc), Box::new(t)), rest, fault)
                }
            } else {
                None
            },
            None => None,
        }
    } else {
        Some((acc, ts))
    }
}

/// The result of parsing a term at the front of `ts`: a factor followed by
/// any number of `*` or `/` and a factor, grouped to the left.
pub open spec fn parse_term(ts: Seq<SpecToken>, fault: bool) -> Option<(SpecTerm, Seq<SpecToken>)>
    decreases ts.len(), 2int,
{
    match parse_factor(ts, fault) {
        Some((f, rest)) => if rest.len() < ts.len() {
            term_tail(SpecTerm::Factor(Box::new(f)), rest, fault)
        } else {
            None
        },
        None => None,
    }
}

/// Continues a term `acc` with the `* factor` and `/ factor` parts at the
/// front of `ts`.
pub open spec fn term_tail(acc: SpecTerm, ts: Seq<SpecToken>, fault: bool) -> Option<
    (SpecTerm, Seq<SpecToken>),
>
    decreases ts.len(), 0int,
{
    if ts.len() == 0 {
        if fault {
            None
        } else {
            Some((acc, ts))
        }
    } else if ts[0] == SpecToken::Operator('*') || ts[0] == SpecToken::Operator('/') {
        match parse_factor(ts.drop_first(), fault) {
            Some((f, rest)) => if rest.len() < ts.len() {
                if ts[0] == SpecToken::Operator('*') {
                    term_tail(SpecTerm::Multiply(Box::new(acc), Box::new(f)), rest, fault)
                } else {
                    term_tail(SpecTerm::Divide(Box::new(acc), Box::new(f)), rest, fault)
                }
            } else {
                None
            },
            None => None,
        }
    } else {
        Some((acc, ts))
    }
}

/// The result of parsing a factor at the front of `ts`: a number, a
/// variable, or an expression between `(` and `)`.
pub open spec fn parse_factor(ts: Seq<SpecToken>, fault: bool) -> Option<(SpecFactor, Seq<SpecToken>)>
    decreases ts.len(), 1int,
{
    if ts.len() == 0 {
        None
    } else {
        match ts[0] {
            SpecToken::Number(n) => Some((SpecFactor::Const(n), ts.drop_first())),
            SpecToken::Variable(v) => Some((SpecFactor::Param(v), ts.drop_first())),
            SpecToken::Open(c) => if c == '(' {
                match parse_expr(ts.drop_first(), fault) {
                    Some((e, rest)) => if rest.len() > 0 && rest[0] == SpecToken::Close(')') {
                        Some((SpecFactor::Expr(Box::new(e)), rest.drop_first()))
                    } else {
                        None
                    },
                    None => None,
                }
            } else {
                None
            },
            _ => None,
        }
    }
}

/// What a parse of a stream seen as `before` returns and leaves the stream
/// as, given the spec-level `outcome`.
pub open spec fn parse_outcome<T: View>(
    outcome: Option<(T::V, Seq<SpecToken>)>,
    before: (Seq<SpecToken>, Option<crate::token::LexError>),
    r: Option<T>,
    after: (Seq<SpecToken>, Option<crate::token::LexError>),
) -> bool {
    match outcome {
        Some((x, rest)) => r matches Some(v) && v@ == x && after == (rest, before.1) && rest.len()
            < before.0.len(),
        None => r is None,
    }
}

impl Expr {
    /// Parses an expression from the front of the stream; `None` where the
    /// tokens do not form one.
    pub fn try_parse(i: &mut TokenStream) -> (r: Option<Self>)
        ensures
            parse_outcome(parse_expr(old(i)@.0, old(i)@.1 is Some), old(i)@, r, final(i)@),
        decreases old(i)@.0.len(), 3int,
    {
        let ghost fault = i@.1 is Some;
        let ghost start = i@.0;
        let t = match Term::parse(i) {
            Some(t) => t,
            None => return None,
        };
        let mut term = Expr::Term(Box::new(t));
        loop
            invariant
                i@.1 is Some == fault,
                i@.1 == old(i)@.1,
                start == old(i)@.0,
                i@.0.len() < start.len(),
                parse_expr(start, fault) == expr_tail(term@, i@.0, fault),
            decreases i@.0.len(),
        {
            match i.peek_operator() {
                Ok(Some(c)) => {
                    if c == '+' || c == '-' {
                        let ghost ts = i@.0;
                        let _ = i.next();
                        let rhs = match Term::parse(i) {
                            Some(t) => t,
                            None => return None,
                        };
                        if c == '+' {
                            term = Expr::Add(Box::new(term), Box::new(rhs));
                        } else {
                            term = Expr::Subtract(Box::new(term), Box::new(rhs));
                        }
                    } else {
                        return Some(term);
                    }
                },
                Ok(None) => {
                    return Some(term);
                },
                Err(_) => {
                    return None;
                },
            }
        }
    }

    /// Parses an expression from the front of the stream, where the tokens
    /// form one.
    pub fn parse(i: &mut TokenStream) -> (e: Self)
        requires
            parse_expr(old(i)@.0, old(i)@.1 is Some) is Some,
        ensures
            parse_expr(old(i)@.0, old(i)@.1 is Some) == Some((e@, final(i)@.0)),
            final(i)@.1 == old(i)@.1,
    {
        match Self::try_parse(i) {
            Some(e) => e,
            None => Expr::Term(Box::new(Term::Factor(Box::new(Factor::Const(0))))),
        }
    }
}

impl Term {
    fn parse(i: &mut TokenStream) -> (r: Option<Self>)
        ensures
            parse_outcome(parse_term(old(i)@.0, old(i)@.1 is Some), old(i)@, r, final(i)@),
        decreases old(i)@.0.len(), 2int,
    {
        let ghost fault = i@.1 is Some;
        let ghost start = i@.0;
        let f = match Factor::parse(i) {
            Some(f) => f,
            None => return None,
        };
        let mut factor = Term::Factor(Box::new(f));
        loop
            invariant
                i@.1 is Some == fault,
                i@.1 == old(i)@.1,
                start == old(i)@.0,
                i@.0.len() < start.len(),
                parse_term(start, fault) == term_tail(factor@, i@.0, fault),
            decreases i@.0.len(),
        {
            match i.peek_operator() {
                Ok(Some(c)) => {
                    if c == '*' || c == '/' {
                        let _ = i.next();
                        let rhs = match Factor::parse(i) {
                            Some(f) => f,
                            None => return None,
                        };
                        if c == '*' {
                            factor = Term::Multiply(Box::new(factor), Box::new(rhs));
                        } else {
                            factor = Term::Divide(Box::new(factor), Box::new(rhs));
                        }
                    } else {
                        return Some(factor);
                    }
                },
                Ok(None) => {
                    return Some(factor);
                },
                Err(_) => {
                    return None;
                },
            }
        }
    }
}

impl Factor {
    fn parse(i: &mut TokenStream) -> (r: Option<Self>)
        ensures
            parse_outcome(parse_factor(old(i)@.0, old(i)@.1 is Some), old(i)@, r, final(i)@),
        decreases old(i)@.0.len(), 1int,
    {
        match i.next() {
            Ok(Some(Token::Number(n))) => Some(Factor::Const(n)),
            Ok(Some(Token::Variable(v))) => Some(Factor::Param(v)),
            Ok(Some(Token::Open(c))) => {
                if c != '(' {
                    return None;
                }
                let e = match Expr::try_parse(i) {
                    Some(e) => e,
                    None => return None,
                };
                match i.next() {
                    Ok(Some(Token::Close(d))) => {
                        if d == ')' {
                            Some(Factor::Expr(Box::new(e)))
                        } else {
                            None
                        }
                    },
                    _ => None,
                }
            },
            _ => None,
        }
    }
}

impl Expr {
    /// The WebAssembly text of the expression: one instruction per line, in
    /// postfix order.
    pub fn to_wat(&self) -> (w: Wat)
        ensures
            w@ == code_text(expr_code(self@)),
        decreases self,
    {
        match self {
            Expr::Add(l, r) => {
                let ghost (a, b) = (expr_code(l@), term_code(r@));
                let mut w = l.to_wat();
                w.append("\n");
                w.append(r.to_wat().as_str());
                w.append("\n");
                w.append("i32.add");
                proof {
                    lemma_expr_code_nonempty(l@);
                    lemma_term_code_nonempty(r@);
                    lemma_infix_text(a, b, Instr::Add);
                }
                w
            },
            Expr::Subtract(l, r) => {
                let ghost (a, b) = (expr_code(l@), term_code(r@));
                let mut w = l.to_wat();
                w.append("\n");
                w.append(r.to_wat().as_str());
                w.append("\n");
                w.append("i32.sub");
                proof {
                    lemma_expr_code_nonempty(l@);
                    lemma_term_code_nonempty(r@);
                    lemma_infix_text(a, b, Instr::Sub);
                }
                w
            },
            Expr::Term(t) => t.to_wat(),
        }
    }
}

impl Term {
    /// The WebAssembly text of the term.
    pub fn to_wat(&self) -> (w: Wat)
        ensures
            w@ == code_text(term_code(self@)),
        decreases self,
    {
        match self {
            Term::Multiply(l, r) => {
                let ghost (a, b) = (term_code(l@), factor_code(r@));
                let mut w = l.to_wat();
                w.append("\n");
                w.append(r.to_wat().as_str());
                w.append("\n");
                w.append("i32.mul");
                proof {
                    lemma_term_code_nonempty(l@);
                    lemma_factor_code_nonempty(r@);
                    lemma_infix_text(a, b, Instr::Mul);
                }
                w
            },
            Term::Divide(l, r) => {
                let ghost (a, b) = (term_code(l@), factor_code(r@));
                let mut w = l.to_wat();
                w.append("\n");
                w.append(r.to_wat().as_str());
                w.append("\n");
                w.append("i32.div_u");
                proof {
                    lemma_term_code_nonempty(l@);
                    lemma_factor_code_nonempty(r@);
                    lemma_infix_text(a, b, Instr::DivU);
                }
                w
            },
            Term::Factor(f) => f.to_wat(),
        }
    }
}

impl Factor {
    /// The WebAssembly text of the factor.
    pub fn to_wat(&self) -> (w: Wat)
        ensures
            w@ == code_text(factor_code(self@)),
        decreases self,
    {
        match self {
            Factor::Const(c) => {
                let mut w = String::from_str("i32.const ");
                push_decimal(&mut w, *c);
                w
            },
            Factor::Param(p) => {
                let mut w = String::from_str("local.get $");
                w.append(p.as_str());
                w
            },
            Factor::Expr(e) => e.to_wat(),
        }
    }
}

/// The encoding of `a`, then `b`, then `op`, and where `a + b + [op]` reads
/// only bound locals, so do `a` and `b`.
proof fn lemma_infix_bytes(a: Seq<Instr>, b: Seq<Instr>, op: Instr, names: Seq<Seq<char>>)
    ensures
        code_bytes(a + b + seq![op], names) == code_bytes(a, names) + code_bytes(b, names)
            + instr_bytes(op, names),
        code_bound(a + b + seq![op], names) ==> code_bound(a, names) && code_bound(b, names),
{
    lemma_code_bytes_append(a, b, names);
    assert((a + b + seq![op]).drop_last() == a + b);
    if code_bound(a + b + seq![op], names) {
        assert forall|k: int| 0 <= k < a.len() implies (#[trigger] a[k] matches Instr::LocalGet(n) ==> names.contains(n)) by {
            assert(a[k] == (a + b + seq![op])[k]);
        }
        assert forall|k: int| 0 <= k < b.len() implies (#[trigger] b[k] matches Instr::LocalGet(n) ==> names.contains(n)) by {
            assert(b[k] == (a + b + seq![op])[a.len() + k]);
        }
    }
}

/// The text of `a`, then `b`, then `op`, where `a` and `b` are the code of
/// operands.
proof fn lemma_infix_text(a: Seq<Instr>, b: Seq<Instr>, op: Instr)
    requires
        a.len() > 0,
        b.len() > 0,
    ensures
        code_text(a + b + seq![op]) == code_text(a) + "\n"@ + code_text(b) + "\n"@ + instr_text(op),
{
    lemma_code_text_append(a, b);
    lemma_code_text_append(a + b, seq![op]);
}

impl ToWasm for Expr {
    open spec fn code(&self) -> Seq<Instr> {
        expr_code(self@)
    }

    fn to_wasm(&self, bindings: &Bindings) -> (out: Wasm)
        decreases self,
    {
        match self {
            Expr::Add(l, r) => {
                proof {
                    lemma_infix_bytes(l.code(), r.code(), Instr::Add, names_of(bindings@));
                }
                let mut out = l.to_wasm(bindings);
                let mut rhs = r.to_wasm(bindings);
                out.append(&mut rhs);
                out.push(0x6a); // i32.add
                out
            },
            Expr::Subtract(l, r) => {
                proof {
                    lemma_infix_bytes(l.code(), r.code(), Instr::Sub, names_of(bindings@));
                }
                let mut out = l.to_wasm(bindings);
                let mut rhs = r.to_wasm(bindings);
                out.append(&mut rhs);
                out.push(0x6b); // i32.sub
                out
            },
            Expr::Term(t) => t.to_wasm(bindings),
        }
    }
}

impl ToWasm for Term {
    open spec fn code(&self) -> Seq<Instr> {
        term_code(self@)
    }

    fn to_wasm(&self, bindings: &Bindings) -> (out: Wasm)
        decreases self,
    {
        match self {
            Term::Multiply(l, r) => {
                proof {
                    lemma_infix_bytes(l.code(), r.code(), Instr::Mul, names_of(bindings@));
                }
                let mut out = l.to_wasm(bindings);
                let mut rhs = r.to_wasm(bindings);
                out.append(&mut rhs);
                out.push(0x6c); // i32.mul
                out
            },
            Term::Divide(l, r) => {
                proof {
                    lemma_infix_bytes(l.code(), r.code(), Instr::DivU, names_of(bindings@));
                }
                let mut out = l.to_wasm(bindings);
                let mut rhs = r.to_wasm(bindings);
                out.append(&mut rhs);
                out.push(0x6e); // i32.div_u
                out
            },
            Term::Factor(f) => f.to_wasm(bindings),
        }
    }
}

impl ToWasm for Factor {
    open spec fn code(&self) -> Seq<Instr> {
        factor_code(self@)
    }

    fn to_wasm(&self, bindings: &Bindings) -> (out: Wasm)
        decreases self,
    {
        match self {
            Factor::Const(c) => {
                let mut out = vec![0x41]; // i32.const
                assert(out@ == seq![0x41u8]);
                write_leb128(*c as i128, &mut out);
                assert(self.code().drop_last() =~= Seq::<Instr>::empty());
                assert(code_bytes(Seq::<Instr>::empty(), names_of(bindings@)) == Seq::<u8>::empty());
                assert(code_bytes(self.code(), names_of(bindings@))
                    =~= instr_bytes(Instr::Const(*c), names_of(bindings@)));
                out
            },
            Factor::Param(p) => {
                let mut out = vec![0x20]; // local.get
                assert(out@ == seq![0x20u8]);
                assert(self.code()[0] == Instr::LocalGet(p@));
                let index = binding_position(bindings, p);
                write_leb128(index as i128, &mut out);
                assert(self.code().drop_last() =~= Seq::<Instr>::empty());
                assert(code_bytes(Seq::<Instr>::empty(), names_of(bindings@)) == Seq::<u8>::empty());
                assert(code_bytes(self.code(), names_of(bindings@))
                    =~= instr_bytes(Instr::LocalGet(p@), names_of(bindings@)));
                out
            },
            Factor::Expr(e) => e.to_wasm(bindings),
        }
    }
}

/// The position of the first binding named `name`, which must be bound.
fn binding_position(bindings: &Bindings, name: &String) -> (k: usize)
    requires
        names_of(bindings@).contains(name@),
    ensures
        k == local_index(names_of(bindings@), name@),
{
    let ghost names = names_of(bindings@);
    proof {
        names.index_of_first_ensures(name@);
    }
    let ghost idx = names.index_of_first(name@)->Some_0;
    let mut k: usize = 0;
    while k < bindings.len()
        invariant
            k <= bindings.len(),
            names == names_of(bindings@),
            names.index_of_first(name@) == Some(idx),
            0 <= idx < names.len(),
            names[idx] == name@,
            forall|j: int| 0 <= j < idx ==> names[j] != name@,
            k <= idx,
        decreases bindings.len() - k,
    {
        assert(names[k as int] == bindings@[k as int]@);
        if bindings[k] == *name {
            return k;
        }
        k = k + 1;
    }
    k
}

/// `a + b + [op]` reads only bound locals exactly where `a` and `b` do.
proof fn lemma_bound_infix(a: Seq<Instr>, b: Seq<Instr>, op: Instr, names: Seq<Seq<char>>)
    requires
        !(op is LocalGet),
    ensures
        code_bound(a + b + seq![op], names) == (code_bound(a, names) && code_bound(b, names)),
{
    lemma_infix_bytes(a, b, op, names);
    let c = a + b + seq![op];
    if code_bound(a, names) && code_bound(b, names) {
        assert forall|k: int| 0 <= k < c.len() implies (#[trigger] c[k] matches Instr::LocalGet(n) ==> names.contains(n)) by {
            if k < a.len() {
                assert(c[k] == a[k]);
            } else if k < a.len() + b.len() {
                assert(c[k] == b[k - a.len()]);
            }
        }
    }
}

impl Expr {
    /// Whether every variable of the expression is among `bindings`.
    pub fn is_bound_in(&self, bindings: &Bindings) -> (b: bool)
        ensures
            b == code_bound(expr_code(self@), names_of(bindings@)),
        decreases self,
    {
        match self {
            Expr::Add(l, r) => {
                proof {
                    lemma_bound_infix(l.code(), r.code(), Instr::Add, names_of(bindings@));
                }
                l.is_bound_in(bindings) && r.is_bound_in(bindings)
            },
            Expr::Subtract(l, r) => {
                proof {
                    lemma_bound_infix(l.code(), r.code(), Instr::Sub, names_of(bindings@));
                }
                l.is_bound_in(bindings) && r.is_bound_in(bindings)
            },
            Expr::Term(t) => t.is_bound_in(bindings),
        }
    }
}

impl Term {
    /// Whether every variable of the term is among `bindings`.
    pub fn is_bound_in(&self, bindings: &Bindings) -> (b: bool)
        ensures
            b == code_bound(term_code(self@), names_of(bindings@)),
        decreases self,
    {
        match self {
            Term::Multiply(l, r) => {
                proof {
                    lemma_bound_infix(l.code(), r.code(), Instr::Mul, names_of(bindings@));
                }
                l.is_bound_in(bindings) && r.is_bound_in(bindings)
            },
            Term::Divide(l, r) => {
                proof {
                    lemma_bound_infix(l.code(), r.code(), Instr::DivU, names_of(bindings@));
                }
                l.is_bound_in(bindings) && r.is_bound_in(bindings)
            },
            Term::Factor(f) => f.is_bound_in(bindings),
        }
    }
}

impl Factor {
    /// Whether the factor's variables are among `bindings`.
    pub fn is_bound_in(&self, bindings: &Bindings) -> (b: bool)
        ensures
            b == code_bound(factor_code(self@), names_of(bindings@)),
        decreases self,
    {
        match self {
            Factor::Const(c) => {
                assert(factor_code(self@) == seq![Instr::Const(*c)]);
                assert(factor_code(self@)[0] == Instr::Const(*c));
                true
            },
            Factor::Param(p) => {
                let ghost names = names_of(bindings@);
                assert(factor_code(self@) == seq![Instr::LocalGet(p@)]);
                let mut k: usize = 0;
                while k < bindings.len()
                    invariant
                        factor_code(self@) == seq![Instr::LocalGet(p@)],
                        k <= bindings.len(),
                        names == names_of(bindings@),
                        forall|j: int| 0 <= j < k ==> names[j] != p@,
                    decreases bindings.len() - k,
                {
                    assert(names[k as int] == bindings@[k as int]@);
                    if bindings[k] == *p {
                        assert(names[k as int] == p@);
                        assert(names.contains(p@));
                        assert(factor_code(self@)[0] == Instr::LocalGet(p@));
                        return true;
                    }
                    k = k + 1;
                }
                false
            },
            Factor::Expr(e) => e.is_bound_in(bindings),
        }
    }
}

/// `a + b + [op]` names its locals plainly exactly where `a` and `b` do.
proof fn lemma_plain_infix(a: Seq<Instr>, b: Seq<Instr>, op: Instr)
    requires
        !(op is LocalGet),
    ensures
        plain_names(a + b + seq![op]) == (plain_names(a) && plain_names(b)),
{
    let c = a + b + seq![op];
    assert forall|k: int| 0 <= k < a.len() implies c[k] == a[k] by {}
    assert forall|k: int| 0 <= k < b.len() implies c[a.len() + k] == b[k] by {}
    if plain_names(a) && plain_names(b) {
        assert forall|k: int| 0 <= k < c.len() implies (#[trigger] c[k] matches Instr::LocalGet(n) ==> (
        forall|j: int| 0 <= j < n.len() ==> is_plain_char(#[trigger] n[j]))) by {
            if k < a.len() {
                assert(c[k] == a[k]);
            } else if k < a.len() + b.len() {
                assert(c[k] == b[k - a.len()]);
            }
        }
    }
    if plain_names(c) {
        assert forall|k: int| 0 <= k < a.len() implies (#[trigger] a[k] matches Instr::LocalGet(n) ==> (
        forall|j: int| 0 <= j < n.len() ==> is_plain_char(#[trigger] n[j]))) by {
            assert(c[k] == a[k]);
        }
        assert forall|k: int| 0 <= k < b.len() implies (#[trigger] b[k] matches Instr::LocalGet(n) ==> (
        forall|j: int| 0 <= j < n.len() ==> is_plain_char(#[trigger] n[j]))) by {
            assert(c[a.len() + k] == b[k]);
        }
    }
}

impl Expr {
    /// Whether every variable of the expression is named by plain
    /// characters only (as the tokenizer's names are), so that its WAT text
    /// is one token.
    pub fn has_plain_names(&self) -> (b: bool)
        ensures
            b == plain_names(expr_code(self@)),
        decreases self,
    {
        match self {
            Expr::Add(l, r) => {
                proof {
                    lemma_plain_infix(l.code(), r.code(), Instr::Add);
                }
                l.has_plain_names() && r.has_plain_names()
            },
            Expr::Subtract(l, r) => {
                proof {
                    lemma_plain_infix(l.code(), r.code(), Instr::Sub);
                }
                l.has_plain_names() && r.has_plain_names()
            },
            Expr::Term(t) => t.has_plain_names(),
        }
    }
}

impl Term {
    /// Whether every variable of the term is named by plain characters only.
    pub fn has_plain_names(&self) -> (b: bool)
        ensures
            b == plain_names(term_code(self@)),
        decreases self,
    {
        match self {
            Term::Multiply(l, r) => {
                proof {
                    lemma_plain_infix(l.code(), r.code(), Instr::Mul);
                }
                l.has_plain_names() && r.has_plain_names()
            },
            Term::Divide(l, r) => {
                proof {
                    lemma_plain_infix(l.code(), r.code(), Instr::DivU);
                }
                l.has_plain_names() && r.has_plain_names()
            },
            Term::Factor(f) => f.has_plain_names(),
        }
    }
}

impl Factor {
    /// Whether the factor's variable, if any, is named by plain characters only.
    pub fn has_plain_names(&self) -> (b: bool)
        ensures
            b == plain_names(factor_code(self@)),
        decreases self,
    {
        match self {
            Factor::Const(c) => {
                assert(factor_code(self@)[0] == Instr::Const(*c));
                true
            },
            Factor::Param(p) => {
                let name = p.as_str();
                let n = name.unicode_len();
                assert(factor_code(self@) == seq![Instr::LocalGet(p@)]);
                let mut k: usize = 0;
                while k < n
                    invariant
                        factor_code(self@) == seq![Instr::LocalGet(p@)],
                        n == p@.len(),
                        name@ == p@,
                        k <= n,
                        forall|j: int| 0 <= j < k ==> is_plain_char(#[trigger] p@[j]),
                    decreases n - k,
                {
                    let c = name.get_char(k);
                    if c == ' ' || c == '\t' || c == '\n' || c == '\r' || c == '(' || c == ')' || c == '"' || c == ';' {
                        assert(factor_code(self@)[0] == Instr::LocalGet(p@));
                        assert(!is_plain_char(p@[k as int]));
                        assert(!plain_names(factor_code(self@))) by {
                            if plain_names(factor_code(self@)) {
                                let code = factor_code(self@);
                                assert(code[0] matches Instr::LocalGet(n) ==> (
                                forall|j: int| 0 <= j < n.len() ==> is_plain_char(#[trigger] n[j])));
                                assert(is_plain_char(p@[k as int]));
                            }
                        }
                        return false;
                    }
                    k = k + 1;
                }
                assert(factor_code(self@)[0] == Instr::LocalGet(p@));
                true
            },
            Factor::Expr(e) => e.has_plain_names(),
        }
    }
}

} // verus!
