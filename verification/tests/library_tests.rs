use wasm_calc::ast::{Expr, Factor, Term, ToWasm};
use wasm_calc::eval::{eval_wasm, eval_wat, run_calc, EvalError};
use wasm_calc::leb128::write_leb128;
use wasm_calc::token::Token::{Close, Number, Operator, Variable};
use wasm_calc::token::{LexError, TokenStream, Tokenizer};
use wasm_calc::wasm::{
    add_fluff, add_fluff_one_param, generate_wasm, make_code_section, make_func, one_param_module,
    make_section, SIGNATURE_CODE,
};

fn leb(i: i128) -> Vec<u8> {
    let mut out = Vec::new();
    write_leb128(i, &mut out);
    out
}

fn parse(s: &str) -> Expr {
    Expr::parse(&mut Tokenizer::from_str(s).peekable())
}

#[test]
fn leb128_small_and_boundary_values() {
    assert_eq!(leb(0), [0x00]);
    assert_eq!(leb(1), [0x01]);
    assert_eq!(leb(-1), [0x7f]);
    assert_eq!(leb(63), [0x3f]);
    assert_eq!(leb(64), [0xc0, 0x00]);
    assert_eq!(leb(-64), [0x40]);
    assert_eq!(leb(-65), [0xbf, 0x7f]);
    assert_eq!(leb(127), [0xff, 0x00]);
    assert_eq!(leb(128), [0x80, 0x01]);
    assert_eq!(leb(123), [0xfb, 0x00]);
}

#[test]
fn leb128_extremes_are_shaped_and_appended() {
    let mut out = vec![0xaa];
    write_leb128(i128::MAX, &mut out);
    assert_eq!(out[0], 0xaa);
    assert_eq!(out.len(), 1 + 19);
    assert!(out[1..out.len() - 1].iter().all(|b| *b >= 0x80));
    assert!(*out.last().unwrap() < 0x80);
    assert_eq!(leb(i128::MIN).len(), 19);
    assert_eq!(leb(i32::MIN as i128), [0x80, 0x80, 0x80, 0x80, 0x78]);
}

#[test]
fn make_func_prefixes_the_length() {
    assert_eq!(make_func(&[1, 2, 3]), [3, 1, 2, 3]);
    assert_eq!(make_func(&[]), [0]);
    let long = vec![7u8; 200];
    let f = make_func(&long);
    assert_eq!(&f[..2], &[0xc8, 0x01]);
    assert_eq!(f.len(), 202);
}

#[test]
fn sections_record_their_size() {
    let a: &[u8] = &[1, 2];
    let b: &[u8] = &[3];
    assert_eq!(make_section::<SIGNATURE_CODE>(&[a, b]), [0x0a, 4, 2, 1, 2, 3]);
    assert_eq!(make_code_section(&[a, b]), [4, 2, 1, 2, 3]);
    assert_eq!(make_section::<SIGNATURE_CODE>(&[]), [0x0a, 1, 0]);
}

#[test]
fn tokenizer_reports_malformed_tokens() {
    assert_eq!(Tokenizer::from_str("  #").try_next(), Err(LexError::InvalidCharacter('#')));
    assert_eq!(Tokenizer::from_str("2147483648").try_next(), Err(LexError::NumberOverflow));
    assert_eq!(Tokenizer::from_str("2147483647").try_next(), Ok(Some(Number(i32::MAX))));
    assert_eq!(Tokenizer::from_str("   ").try_next(), Ok(None));
    assert_eq!(Tokenizer::from_str("1 + #").try_collect(), Err(LexError::InvalidCharacter('#')));
    assert_eq!(
        Tokenizer::from_str(" x1 ").try_collect(),
        Ok(vec![Variable("x".to_string()), Number(1)])
    );
}

#[test]
fn token_stream_peeks_without_consuming() {
    let mut s = TokenStream::new(vec![Operator('*'), Number(4)]);
    assert_eq!(s.peek_operator(), Ok(Some('*')));
    assert_eq!(s.peek_operator(), Ok(Some('*')));
    assert_eq!(s.next(), Ok(Some(Operator('*'))));
    assert_eq!(s.peek_operator(), Ok(None));
    assert_eq!(s.next(), Ok(Some(Number(4))));
    assert_eq!(s.next(), Ok(None));
    let mut lazy = Tokenizer::from_str("- $").peekable();
    assert_eq!(lazy.peek_operator(), Ok(Some('-')));
    assert_eq!(lazy.next(), Ok(Some(Operator('-'))));
    assert_eq!(lazy.peek_operator(), Err(LexError::InvalidCharacter('$')));
}

#[test]
fn parsing_stops_where_the_expression_ends() {
    let mut s = TokenStream::new(vec![Number(1), Operator('+'), Number(2), Close(')'), Number(5)]);
    let e = Expr::parse(&mut s);
    assert_eq!(e.to_wat(), "i32.const 1\ni32.const 2\ni32.add");
    assert_eq!(s.next(), Ok(Some(Close(')'))));
    let mut s = Tokenizer::from_str("1 2").peekable();
    assert_eq!(Expr::parse(&mut s).to_wat(), "i32.const 1");
    assert_eq!(s.next(), Ok(Some(Number(2))));
    // the parse stops before a malformed token that it never reads
    let mut s = Tokenizer::from_str("7)#").peekable();
    assert_eq!(Expr::parse(&mut s).to_wat(), "i32.const 7");
}

#[test]
fn malformed_expressions_do_not_parse() {
    for s in ["", "1+", "(1", ")", "1*(2", "+", "1+#", "(1]"] {
        assert!(Expr::try_parse(&mut Tokenizer::from_str(s).peekable()).is_none(), "{s}");
    }
}

#[test]
fn operators_group_to_the_left() {
    assert_eq!(
        parse("8-3-2").to_wat().replace('\n', " "),
        "i32.const 8 i32.const 3 i32.sub i32.const 2 i32.sub"
    );
    assert_eq!(
        parse("8/4/2").to_wat().replace('\n', " "),
        "i32.const 8 i32.const 4 i32.div_u i32.const 2 i32.div_u"
    );
}

#[test]
fn negative_constants_print_in_decimal() {
    let e = Expr::Term(Box::new(Term::Factor(Box::new(Factor::Const(-5)))));
    assert_eq!(e.to_wat(), "i32.const -5");
    let e = Expr::Term(Box::new(Term::Factor(Box::new(Factor::Const(i32::MIN)))));
    assert_eq!(e.to_wat(), "i32.const -2147483648");
    assert_eq!(e.to_wasm(&[]), [0x41, 0x80, 0x80, 0x80, 0x80, 0x78]);
}

#[test]
fn locals_are_numbered_by_their_first_binding() {
    let bindings = ["x".to_string(), "yy".to_string(), "yy".to_string()];
    let e = parse("yy*x");
    assert_eq!(e.to_wasm(&bindings), [0x20, 0x01, 0x20, 0x00, 0x6c]);
    assert!(e.is_bound_in(&bindings));
    assert!(!parse("x+z").is_bound_in(&bindings));
    assert_eq!(parse("(1-2)/3").to_wasm(&[]), [0x41, 1, 0x41, 2, 0x6b, 0x41, 3, 0x6e]);
}

#[test]
fn add_fluff_wraps_the_code() {
    let wat = add_fluff("i32.const 1");
    assert!(wat.starts_with("\n        (module\n"));
    assert!(wat.ends_with(
        "(func $eval_expr (param $x i32) (param $yy i32) (result i32)i32.const 1 return))"
    ));
    let wat = add_fluff_one_param("local.get $x");
    assert!(wat.ends_with("(func $eval_expr (param $x i32) (result i32)local.get $x return))"));
}

#[test]
fn generated_module_layout() {
    let e = parse("x");
    let bindings = ["x".to_string(), "yy".to_string()];
    let wasm = generate_wasm(&e, &bindings);
    assert_eq!(&wasm[..8], &[0x00, 0x61, 0x73, 0x6d, 0x01, 0x00, 0x00, 0x00]);
    let code_section = [
        0x0a, 22, 2, 14, 0x00, 0x41, 0xfb, 0x00, 0x10, 0x00, 0x41, 0x07, 0x41, 0x09, 0x10, 0x02,
        0x0f, 0x0b, 5, 0x00, 0x20, 0x00, 0x0f, 0x0b,
    ];
    assert_eq!(&wasm[wasm.len() - code_section.len()..], &code_section);
    assert_eq!(wasm.len(), 8 + 17 + 29 + code_section.len());
}

#[test]
fn generated_module_evaluates_with_both_locals() {
    let bindings = ["x".to_string(), "yy".to_string()];
    let wasm = generate_wasm(&parse("x*yy+1"), &bindings);
    assert_eq!(run_calc(&wasm).unwrap(), 64);
    let wat = add_fluff(&parse("yy-x").to_wat());
    assert_eq!(run_calc(wat.as_bytes()).unwrap(), 2);
}

#[test]
fn one_param_module_layout() {
    let wasm = one_param_module(&[0x41, 0x05]);
    assert_eq!(wasm.len(), 54 + 1 + 1 + 13 + 6);
    assert_eq!(&wasm[54..], &[20, 2, 12, 0x00, 0x41, 0xfb, 0x00, 0x10, 0x00, 0x41, 0x07, 0x10,
        0x02, 0x0f, 0x0b, 5, 0x00, 0x41, 0x05, 0x0f, 0x0b]);
    assert_eq!(run_calc(&wasm).unwrap(), 5);
}

#[test]
fn text_and_binary_evaluation_agree() {
    for s in ["1+2+3", "x*x-10", "(x+4)*2", "(x*x-10)/3", "2147483647+1", "0-1/2"] {
        let e = parse(s);
        assert_eq!(eval_wat(&e).unwrap(), eval_wasm(&e).unwrap(), "{s}");
    }
    assert_eq!(eval_wasm(&parse("2147483647+1")).unwrap(), i32::MIN);
    assert_eq!(eval_wasm(&parse("0-1/2")).unwrap(), 0);
    assert_eq!(eval_wasm(&parse("(0-1)/2")).unwrap(), i32::MAX);
    assert_eq!(eval_wasm(&parse("(x*x-10)/3")).unwrap(), 13);
}

#[test]
fn division_by_zero_traps() {
    assert!(matches!(eval_wasm(&parse("1/0")), Err(EvalError::Engine(_))));
    assert!(matches!(eval_wat(&parse("x/(x-7)")), Err(EvalError::Engine(_))));
}

#[test]
fn unbound_variables_fail_to_compile_as_text() {
    assert!(matches!(eval_wat(&parse("y")), Err(EvalError::Engine(_))));
}

fn param(name: &str) -> Expr {
    Expr::Term(Box::new(Term::Factor(Box::new(Factor::Param(name.to_string())))))
}

#[test]
fn plain_names_hold_no_separator() {
    assert!(parse("x+abc*(y-1)").has_plain_names());
    assert!(param("x1").has_plain_names());
    assert!(param("").has_plain_names());
    for name in ["x)", "x y", "x;", "x\"", "(x", "x\n"] {
        assert!(!param(name).has_plain_names(), "{name:?}");
    }
}

#[test]
fn hand_built_unbound_name_fails_to_compile_as_text() {
    assert!(matches!(eval_wat(&param("x1")), Err(EvalError::Engine(_))));
    assert_eq!(eval_wat(&param("x")).unwrap(), 7);
}

#[test]
fn readme_examples() {
    let cases = [
        ("1+2", "i32.const 1\ni32.const 2\ni32.add", 3),
        ("1+$x*3", "i32.const 1\nlocal.get $x\ni32.const 3\ni32.mul\ni32.add", 22),
        ("($x+4)*2", "local.get $x\ni32.const 4\ni32.add\ni32.const 2\ni32.mul", 22),
        (
            "($x*$x-10)/3",
            "local.get $x\nlocal.get $x\ni32.mul\ni32.const 10\ni32.sub\ni32.const 3\ni32.div_u",
            13,
        ),
    ];
    for (input, wat, value) in cases {
        let e = parse(input);
        assert_eq!(e.to_wat(), wat);
        assert_eq!(eval_wat(&e).unwrap(), value);
        assert_eq!(eval_wasm(&e).unwrap(), value);
    }
}

#[test]
fn dollar_names_a_variable() {
    assert_eq!(Tokenizer::from_str("$yy+").try_collect(), Ok(vec![Variable("yy".to_string()), Operator('+')]));
    assert_eq!(Tokenizer::from_str("$").try_next(), Err(LexError::InvalidCharacter('$')));
    assert_eq!(Tokenizer::from_str("$1").try_next(), Err(LexError::InvalidCharacter('$')));
}

fn read_sleb128(bytes: &[u8]) -> (i128, usize) {
    let mut value: i128 = 0;
    let mut shift = 0;
    for (k, b) in bytes.iter().enumerate() {
        value |= ((b & 0x7f) as i128) << shift;
        shift += 7;
        if b & 0x80 == 0 {
            if b & 0x40 != 0 && shift < 128 {
                value |= -1i128 << shift;
            }
            return (value, k + 1);
        }
    }
    panic!("unterminated");
}

#[test]
fn leb128_reads_back() {
    for i in [0i128, 1, -1, 63, 64, -64, -65, 624485, -123456, i32::MIN as i128, i64::MAX as i128, i128::MIN + 1] {
        let mut bytes = leb(i);
        let n = bytes.len();
        bytes.push(0x6a);
        assert_eq!(read_sleb128(&bytes), (i, n), "{i}");
    }
}

#[test]
fn binary_code_lists_the_instructions() {
    assert_eq!(
        parse("x*300-1").to_wasm(&["x".to_string()]),
        [0x20, 0x00, 0x41, 0xac, 0x02, 0x6c, 0x41, 0x01, 0x6b]
    );
}

#[test]
fn written_expression_reads_back() {
    let text = "( 1 + x ) * 20 / y - 3 ";
    let tokens = Tokenizer::from_str(text).collect();
    assert_eq!(tokens.len(), 11);
    let mut stream = TokenStream::new(tokens);
    let e = Expr::parse(&mut stream);
    assert_eq!(stream.next(), Ok(None));
    assert_eq!(
        e.to_wat().replace('\n', " "),
        "i32.const 1 local.get $x i32.add i32.const 20 i32.mul local.get $y i32.div_u i32.const 3 i32.sub"
    );
}
