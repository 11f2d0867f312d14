//! Character-level helpers for building strings.

use vstd::prelude::*;
use crate::code::{decimal_text, digit_char, digits_text};

verus! {

/// Appends one character to a string, as `String::push` does; vstd gives
/// `String::push` no specification, so its documented effect is stated here.
#[verifier::external_body]
pub fn push_char(s: &mut String, c: char)
    ensures
        final(s)@ == old(s)@.push(c),
{
    s.push(c);
}

/// Appends the decimal digits of `n`.
fn push_digits(s: &mut String, n: u32)
    ensures
        final(s)@ == old(s)@ + digits_text(n as nat),
    decreases n,
{
    let d = n % 10;
    if n >= 10 {
        push_digits(s, n / 10);
    }
    let c = ((d as u8) + 48u8) as char;
    assert(c == digit_char(d as int));
    push_char(s, c);
}

/// Appends the decimal notation of `i`.
pub fn push_decimal(s: &mut String, i: i32)
    ensures
        final(s)@ == old(s)@ + decimal_text(i as int),
{
    if i < 0 {
        push_char(s, '-');
        let n: u32 = (0i64 - (i as i64)) as u32;
        push_digits(s, n);
        assert(old(s)@ + decimal_text(i as int) == old(s)@.push('-') + digits_text(n as nat));
    } else {
        push_digits(s, i as u32);
    }
}

} // verus!
