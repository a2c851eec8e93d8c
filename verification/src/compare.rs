//! Byte classification helpers used by search conditions: tests for
//! alphabetic, numeric and ordinal-like ASCII bytes.

use vstd::prelude::*;
use vstd::utf8::encode_utf8_decode_utf8;

verus! {

/// The low byte of a character's code point.
pub fn char_num(c: char) -> (r: u8)
    ensures
        r == (c as u32) % 256,
{
    let x: u32 = c as u32;
    proof {
        assert(x as u8 == x % 256) by (bit_vector);
    }
    #[verifier::truncate]
    (x as u8)
}

/// Whether `b` is an ASCII upper-case letter (`A`..=`Z`).
pub fn is_upper_alpha(b: u8) -> (r: bool)
    ensures
        r == (65 <= b && b <= 90),
{
    b >= char_num('A') && b <= char_num('Z')
}

/// Whether `b` is an ASCII lower-case letter (`a`..=`z`).
pub fn is_lower_alpha(b: u8) -> (r: bool)
    ensures
        r == (97 <= b && b <= 122),
{
    b >= char_num('a') && b <= char_num('z')
}

/// Whether `b` is an ASCII digit (`0`..=`9`).
pub fn is_num(b: u8) -> (r: bool)
    ensures
        r == (48 <= b && b <= 57),
{
    b >= char_num('0') && b <= char_num('9')
}

/// Whether `b` is an ASCII letter of either case.
pub fn is_alpha(b: u8) -> (r: bool)
    ensures
        r == ((65 <= b && b <= 90) || (97 <= b && b <= 122)),
{
    is_upper_alpha(b) || is_lower_alpha(b)
}

/// Whether `b` is an ASCII letter or digit.
pub fn is_alphanum(b: u8) -> (r: bool)
    ensures
        r == ((65 <= b && b <= 90) || (97 <= b && b <= 122) || (48 <= b && b <= 57)),
{
    is_alpha(b) || is_num(b)
}

/// Whether `b` is one of the upper-case letters `A`..=`I`.
pub fn is_upper_atoi(b: u8) -> (r: bool)
    ensures
        r == (65 <= b && b <= 73),
{
    b >= char_num('A') && b <= char_num('I')
}

/// Whether `b` is one of the lower-case letters `a`..=`i`.
pub fn is_lower_atoi(b: u8) -> (r: bool)
    ensures
        r == (97 <= b && b <= 105),
{
    b >= char_num('a') && b <= char_num('i')
}

/// Whether `b` could stand for an ordinal: `A`..=`I`, `a`..=`i` or a digit.
pub fn is_ord(b: u8) -> (r: bool)
    ensures
        r == ((65 <= b && b <= 73) || (97 <= b && b <= 105) || (48 <= b && b <= 57)),
{
    is_upper_atoi(b) || is_lower_atoi(b) || is_num(b)
}

/// Compare two byte slices.
pub fn bytes_eq(a: &[u8], b: &[u8]) -> (r: bool)
    ensures
        r == (a@ == b@),
{
    if a.len() != b.len() {
        return false;
    }
    let n = a.len();
    let mut i: usize = 0;
    while i < n
        invariant
            n == a@.len() == b@.len(),
            i <= n,
            forall|j: int| 0 <= j < i ==> a@[j] == b@[j],
        decreases n - i,
    {
        if a[i] != b[i] {
            return false;
        }
        i = i + 1;
    }
    proof {
        assert(a@ =~= b@);
    }
    true
}

/// Compare two strings by their byte forms.
pub fn str_eq(a: &str, b: &str) -> (r: bool)
    ensures
        r == (a@ == b@),
{
    let r = bytes_eq(a.as_bytes(), b.as_bytes());
    proof {
        encode_utf8_decode_utf8(a@);
        encode_utf8_decode_utf8(b@);
    }
    r
}


} // verus!
