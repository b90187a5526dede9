//! UTF-8 validity: a byte-level specification and a verified validator.
//!
//! A byte sequence is valid UTF-8 when it decomposes, left to right, into
//! the well-formed encodings of scalar values: ASCII bytes stand alone,
//! longer encodings start with a leading byte that fixes their length and
//! continue with continuation bytes, with the usual exclusions of overlong
//! forms, surrogate code points and values above the last scalar value.

use vstd::prelude::*;

verus! {

/// A continuation byte of a multi-byte encoding.
pub open spec fn is_cont(b: u8) -> bool {
    0x80 <= b && b <= 0xBF
}

/// The bytes of `s` from position `i` on decompose into well-formed
/// scalar-value encodings.
pub open spec fn utf8_from(s: Seq<u8>, i: int) -> bool
    decreases s.len() - i when 0 <= i
{
    if i >= s.len() {
        true
    } else {
        let b = s[i];
        if b < 0x80 {
            utf8_from(s, i + 1)
        } else if 0xC2 <= b && b <= 0xDF {
            i + 2 <= s.len() && is_cont(s[i + 1]) && utf8_from(s, i + 2)
        } else if b == 0xE0 {
            i + 3 <= s.len() && 0xA0 <= s[i + 1] && s[i + 1] <= 0xBF && is_cont(s[i + 2])
                && utf8_from(s, i + 3)
        } else if (0xE1 <= b && b <= 0xEC) || b == 0xEE || b == 0xEF {
            i + 3 <= s.len() && is_cont(s[i + 1]) && is_cont(s[i + 2]) && utf8_from(s, i + 3)
        } else if b == 0xED {
            i + 3 <= s.len() && 0x80 <= s[i + 1] && s[i + 1] <= 0x9F && is_cont(s[i + 2])
                && utf8_from(s, i + 3)
        } else if b == 0xF0 {
            i + 4 <= s.len() && 0x90 <= s[i + 1] && s[i + 1] <= 0xBF && is_cont(s[i + 2])
                && is_cont(s[i + 3]) && utf8_from(s, i + 4)
        } else if 0xF1 <= b && b <= 0xF3 {
            i + 4 <= s.len() && is_cont(s[i + 1]) && is_cont(s[i + 2]) && is_cont(s[i + 3])
                && utf8_from(s, i + 4)
        } else if b == 0xF4 {
            i + 4 <= s.len() && 0x80 <= s[i + 1] && s[i + 1] <= 0x8F && is_cont(s[i + 2])
                && is_cont(s[i + 3]) && utf8_from(s, i + 4)
        } else {
            false
        }
    }
}

/// The whole byte sequence is valid UTF-8.
pub open spec fn is_utf8(s: Seq<u8>) -> bool {
    utf8_from(s, 0)
}

/// Decides UTF-8 validity of `s`.
pub fn utf8_check(s: &Vec<u8>) -> (r: bool)
    ensures
        r == is_utf8(s@),
{
    let n = s.len();
    let mut i: usize = 0;
    while i < n
        invariant
            i <= n,
            n == s.len(),
            is_utf8(s@) == utf8_from(s@, i as int),
        decreases n - i,
    {
        let b = s[i];
        if b < 0x80 {
            i = i + 1;
        } else if 0xC2 <= b && b <= 0xDF {
            if !(n - i >= 2 && is_cont_byte(s[i + 1])) {
                return false;
            }
            i = i + 2;
        } else if b == 0xE0 {
            if !(n - i >= 3 && 0xA0 <= s[i + 1] && s[i + 1] <= 0xBF && is_cont_byte(s[i + 2])) {
                return false;
            }
            i = i + 3;
        } else if (0xE1 <= b && b <= 0xEC) || b == 0xEE || b == 0xEF {
            if !(n - i >= 3 && is_cont_byte(s[i + 1]) && is_cont_byte(s[i + 2])) {
                return false;
            }
            i = i + 3;
        } else if b == 0xED {
            if !(n - i >= 3 && 0x80 <= s[i + 1] && s[i + 1] <= 0x9F && is_cont_byte(s[i + 2])) {
                return false;
            }
            i = i + 3;
        } else if b == 0xF0 {
            if !(n - i >= 4 && 0x90 <= s[i + 1] && s[i + 1] <= 0xBF && is_cont_byte(s[i + 2])
                && is_cont_byte(s[i + 3])) {
                return false;
            }
            i = i + 4;
        } else if 0xF1 <= b && b <= 0xF3 {
            if !(n - i >= 4 && is_cont_byte(s[i + 1]) && is_cont_byte(s[i + 2])
                && is_cont_byte(s[i + 3])) {
                return false;
            }
            i = i + 4;
        } else if b == 0xF4 {
            if !(n - i >= 4 && 0x80 <= s[i + 1] && s[i + 1] <= 0x8F && is_cont_byte(s[i + 2])
                && is_cont_byte(s[i + 3])) {
                return false;
            }
            i = i + 4;
        } else {
            return false;
        }
    }
    true
}

/// Decides whether `b` is a continuation byte.
fn is_cont_byte(b: u8) -> (r: bool)
    ensures
        r == is_cont(b),
{
    0x80 <= b && b <= 0xBF
}

} // verus!
