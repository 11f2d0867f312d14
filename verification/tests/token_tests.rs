use wasm_calc::token::Token::{Close, Number, Open, Operator, Variable};
use wasm_calc::token::Tokenizer;

#[test]
fn token_test_tokenizer() {
    assert_eq!(Tokenizer::from_str("").next(), None);
    assert_eq!(Tokenizer::from_str("x").next(), Some(Variable("x".to_string())));
    assert_eq!(Tokenizer::from_str("xy").next(), Some(Variable("xy".to_string())));
    assert_eq!(Tokenizer::from_str("123").next(), Some(Number(123)));
    assert_eq!(Tokenizer::from_str("+").next(), Some(Operator('+')));
    let ts: Vec<_> = Tokenizer::from_str("(+-*/a1)").collect();
    assert_eq!(ts, [Open('('), Operator('+'), Operator('-'), Operator('*'),
                    Operator('/'), Variable("a".into()), Number(1), Close(')')]);
    let ts: Vec<_> = Tokenizer::from_str("ab xy 12 34l").collect();
    assert_eq!(ts, [Variable("ab".into()), Variable("xy".into()),
                    Number(12), Number(34), Variable("l".into())]);
}

#[test]
fn main_test_tokenizer() {
    assert_eq!(Tokenizer::from_str("").next(), None);
    assert_eq!(Tokenizer::from_str("x").next(), Some(Variable("x".to_string())));
    assert_eq!(Tokenizer::from_str("xy").next(), Some(Variable("xy".to_string())));
    assert_eq!(Tokenizer::from_str("123").next(), Some(Number(123)));
    assert_eq!(Tokenizer::from_str("+").next(), Some(Operator('+')));
    let ts: Vec<_> = Tokenizer::from_str("(+-*/a1)").collect();
    assert_eq!(ts, [Open('('), Operator('+'), Operator('-'), Operator('*'),
                    Operator('/'), Variable("a".into()), Number(1), Close(')')]);
}
