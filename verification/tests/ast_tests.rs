use wasm_calc::ast::{Expr, Factor, Term};
use wasm_calc::eval::eval_wasm;
use wasm_calc::token::Tokenizer;

#[test]
fn ast_test_to_wat() {
    let expected = r#"i32.const 1
i32.const 2
i32.add
local.get $x
i32.add"#;
    let expr = Expr::Add(
        Box::new(Expr::Add(
            Box::new(Expr::Term(Box::new(Term::Factor(Box::new(Factor::Const(
                1,
            )))))),
            Box::new(Term::Factor(Box::new(Factor::Const(2)))),
        )),
        Box::new(Term::Factor(Box::new(Factor::Param("x".to_string())))),
    );
    assert_eq!(expr.to_wat(), expected);
}

#[test]
fn main_test_to_wat() {
    let expected = r#"i32.const 1
i32.const 2
i32.add
local.get $x
i32.add"#;
    let expr = Expr::Add(
        Box::new(Expr::Add(
            Box::new(Expr::Term(Box::new(Term::Factor(Box::new(Factor::Const(
                1,
            )))))),
            Box::new(Term::Factor(Box::new(Factor::Const(2)))),
        )),
        Box::new(Term::Factor(Box::new(Factor::Param("x".to_string())))),
    );
    assert_eq!(expr.to_wat(), expected);
}

fn compile(s: &str) -> String {
    let expr = Expr::parse(&mut Tokenizer::from_str(s).peekable());
    expr.to_wat().replace('\n', " ")
}

#[test]
fn ast_test_parse() {
    assert_eq!(compile("0001"), "i32.const 1");
    assert_eq!(compile("2 + 3"), "i32.const 2 i32.const 3 i32.add");
    assert_eq!(compile("2*3"), "i32.const 2 i32.const 3 i32.mul");
    assert_eq!(compile("1+2*3"), "i32.const 1 i32.const 2 i32.const 3 i32.mul i32.add");
    assert_eq!(compile("1*2+3"), "i32.const 1 i32.const 2 i32.mul i32.const 3 i32.add");
    assert_eq!(compile("(1+2)*3"), "i32.const 1 i32.const 2 i32.add i32.const 3 i32.mul");
    assert_eq!(compile("1+x"), "i32.const 1 local.get $x i32.add");
    assert_eq!(compile("123/x"), "i32.const 123 local.get $x i32.div_u");
    assert_eq!(compile("variable"), "local.get $variable");
}

#[test]
fn main_test_parse() {
    assert_eq!(compile("0001"), "i32.const 1");
    assert_eq!(compile("2+3"), "i32.const 2 i32.const 3 i32.add");
    assert_eq!(compile("2*3"), "i32.const 2 i32.const 3 i32.mul");
    assert_eq!(compile("1+2*3"), "i32.const 1 i32.const 2 i32.const 3 i32.mul i32.add");
    assert_eq!(compile("1*2+3"), "i32.const 1 i32.const 2 i32.mul i32.const 3 i32.add");
    assert_eq!(compile("(1+2)*3"), "i32.const 1 i32.const 2 i32.add i32.const 3 i32.mul");
    assert_eq!(compile("1+x"), "i32.const 1 local.get $x i32.add");
    assert_eq!(compile("123/x"), "i32.const 123 local.get $x i32.div_u");
    assert_eq!(compile("variable"), "local.get $variable");
}

#[test]
fn test_eval() {
    fn evaluate(s: &str) -> i32 {
        let expr = Expr::parse(&mut Tokenizer::from_str(s).peekable());
        println!("{}", expr.to_wat());
        // eval_wat(&expr).expect("Failed to evaluate")
        eval_wasm(&expr).expect("Failed to evaluate")
    }
    assert_eq!(evaluate("1+2+3+4+5+6+7+8+9"), 45);
    assert_eq!(evaluate("1*2*3*4*5*6*7*8*9"), 362880);
    assert_eq!(evaluate("0*x"), 0);
    assert_eq!(evaluate("x-x"), 0);
    assert_eq!(evaluate("((x))"), 7);
    assert_eq!(evaluate("0-x"), -7);
    assert_eq!(evaluate("2+2*9/3-1"), 7);
    assert_eq!(evaluate("100"), 100);
    assert_eq!(evaluate("100/3"), 33);
}
