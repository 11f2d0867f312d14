use wasm_calc::leb128::write_leb128;
use wasm_calc::wasm::{make_func_type, make_section, SIGNATURE_TYPE};

#[test]
fn ast_test_write_leb128() {
    // examples from wikipedia:
    let mut out = Vec::new();
    write_leb128(624485, &mut out);
    assert_eq!(out, &[0xE5, 0x8E, 0x26]);
    out.clear();
    write_leb128(-123456, &mut out);
    assert_eq!(out, &[0xC0, 0xBB, 0x78]);
}

#[test]
fn main_test_write_leb128() {
    // examples from wikipedia:
    let mut out = Vec::new();
    write_leb128(624485, &mut out);
    assert_eq!(out, &[0xE5, 0x8E, 0x26]);
    out.clear();
    write_leb128(-123456, &mut out);
    assert_eq!(out, &[0xC0, 0xBB, 0x78]);
}

#[test]
fn test_make_func_type() {
    let f1 = make_func_type(&[0x7f], &[]);
    assert_eq!(f1, &[0x60, 0x01, 0x7f, 0x00]);
    let f2 = make_func_type(&[], &[0x7f]);
    assert_eq!(f2, &[0x60, 0x00, 0x01, 0x7f]);
    let f3 = make_func_type(&[0x7f, 0x7f], &[0x7f]);
    assert_eq!(f3, &[0x60, 0x02, 0x7f, 0x7f, 0x01, 0x7f]);
    let type_section = make_section::<SIGNATURE_TYPE>(&[ &f1, &f2, &f3]);
    assert_eq!(type_section,
            [0x01, 0x0f, 0x03, 0x60, 0x01, 0x7f, 0x00,
                                  0x60, 0x00, 0x01, 0x7f,
                                  0x60, 0x02, 0x7f, 0x7f, 0x01, 0x7f,]);
}
