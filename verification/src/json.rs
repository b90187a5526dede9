//! Serialization of the result set: a JSON-style array of double-quoted
//! strings, with the quote, the backslash and the control bytes escaped the
//! usual JSON way, and everything else copied through byte for byte.

use vstd::prelude::*;

use crate::order::views;

verus! {

/// The lower-case hexadecimal digit of `n`.
pub open spec fn hex_digit(n: int) -> u8 {
    if n < 10 {
        (0x30 + n) as u8
    } else {
        (0x57 + n) as u8
    }
}

/// The escaped form of one byte inside a string literal: `\"` and `\\` for
/// the quote and the backslash, the short escapes for backspace, tab, line
/// feed, form feed and carriage return, `\u00..` for the other control
/// bytes, and the byte itself for everything else.
pub open spec fn escape_byte(b: u8) -> Seq<u8> {
    if b == 0x22 {
        seq![0x5Cu8, 0x22u8]
    } else if b == 0x5C {
        seq![0x5Cu8, 0x5Cu8]
    } else if b == 0x08 {
        seq![0x5Cu8, 0x62u8]
    } else if b == 0x09 {
        seq![0x5Cu8, 0x74u8]
    } else if b == 0x0A {
        seq![0x5Cu8, 0x6Eu8]
    } else if b == 0x0C {
        seq![0x5Cu8, 0x66u8]
    } else if b == 0x0D {
        seq![0x5Cu8, 0x72u8]
    } else if b < 0x20 {
        seq![0x5Cu8, 0x75u8, 0x30u8, 0x30u8, hex_digit(b as int / 16), hex_digit(b as int % 16)]
    } else {
        seq![b]
    }
}

/// The escaped form of a whole byte string.
pub open spec fn escape_bytes(s: Seq<u8>) -> Seq<u8>
    decreases s.len(),
{
    if s.len() == 0 {
        Seq::empty()
    } else {
        escape_bytes(s.drop_last()) + escape_byte(s.last())
    }
}

/// One double-quoted string literal.
pub open spec fn json_string(s: Seq<u8>) -> Seq<u8> {
    seq![0x22u8] + escape_bytes(s) + seq![0x22u8]
}

/// The comma-separated string literals of `v`, without the brackets.
pub open spec fn json_items(v: Seq<Seq<u8>>) -> Seq<u8>
    decreases v.len(),
{
    if v.len() == 0 {
        Seq::empty()
    } else if v.len() == 1 {
        json_string(v[0])
    } else {
        json_items(v.drop_last()) + seq![0x2Cu8] + json_string(v.last())
    }
}

/// The serialized array: the string literals of `v`, comma-separated,
/// between brackets.
pub open spec fn json_array(v: Seq<Seq<u8>>) -> Seq<u8> {
    seq![0x5Bu8] + json_items(v) + seq![0x5Du8]
}

/// The lower-case hexadecimal digit of `n`.
fn hex_digit_of(n: u8) -> (r: u8)
    requires
        n < 16,
    ensures
        r == hex_digit(n as int),
{
    if n < 10 {
        0x30 + n
    } else {
        0x57 + n
    }
}

/// Appends the escaped form of `s` to `out`.
fn push_escaped(out: &mut Vec<u8>, s: &Vec<u8>)
    ensures
        final(out)@ == old(out)@ + escape_bytes(s@),
{
    let n = s.len();
    let mut k: usize = 0;
    proof {
        assert(out@ + escape_bytes(s@.take(0)) =~= out@);
    }
    while k < n
        invariant
            k <= n,
            n == s@.len(),
            out@ == old(out)@ + escape_bytes(s@.take(k as int)),
        decreases n - k,
    {
        let ghost before = out@;
        let b = s[k];
        if b == 0x22 {
            out.push(0x5C);
            out.push(0x22);
        } else if b == 0x5C {
            out.push(0x5C);
            out.push(0x5C);
        } else if b == 0x08 {
            out.push(0x5C);
            out.push(0x62);
        } else if b == 0x09 {
            out.push(0x5C);
            out.push(0x74);
        } else if b == 0x0A {
            out.push(0x5C);
            out.push(0x6E);
        } else if b == 0x0C {
            out.push(0x5C);
            out.push(0x66);
        } else if b == 0x0D {
            out.push(0x5C);
            out.push(0x72);
        } else if b < 0x20 {
            out.push(0x5C);
            out.push(0x75);
            out.push(0x30);
            out.push(0x30);
            out.push(hex_digit_of(b / 16));
            out.push(hex_digit_of(b % 16));
        } else {
            out.push(b);
        }
        proof {
            assert(out@ =~= before + escape_byte(s@[k as int]));
            assert(s@.take(k + 1).drop_last() =~= s@.take(k as int));
            assert(s@.take(k + 1).last() == s@[k as int]);
            assert(before + escape_byte(s@[k as int]) =~= old(out)@ + escape_bytes(s@.take(
                k + 1,
            )));
        }
        k = k + 1;
    }
    proof {
        assert(s@.take(n as int) =~= s@);
    }
}

/// Serializes the byte strings of `urls` as a JSON-style array of string
/// literals.
pub fn json_serialize(urls: &Vec<Vec<u8>>) -> (out: Vec<u8>)
    ensures
        out@ == json_array(views(urls@)),
{
    let ghost vs = views(urls@);
    let mut out: Vec<u8> = Vec::new();
    out.push(0x5B);
    let n = urls.len();
    let mut i: usize = 0;
    proof {
        assert(out@ =~= seq![0x5Bu8] + json_items(vs.take(0)));
    }
    while i < n
        invariant
            i <= n,
            n == urls@.len(),
            vs == views(urls@),
            out@ == seq![0x5Bu8] + json_items(vs.take(i as int)),
        decreases n - i,
    {
        if i > 0 {
            out.push(0x2C);
        }
        let ghost mid = out@;
        out.push(0x22);
        push_escaped(&mut out, &urls[i]);
        out.push(0x22);
        proof {
            assert(urls@[i as int]@ == vs[i as int]);
            assert(out@ =~= mid + json_string(vs[i as int]));
            assert(vs.take(i + 1).drop_last() =~= vs.take(i as int));
            assert(vs.take(i + 1).last() == vs[i as int]);
            if i == 0 {
                assert(vs.take(1)[0] == vs[0]);
                assert(out@ =~= seq![0x5Bu8] + json_items(vs.take(1)));
            } else {
                assert(json_items(vs.take(i + 1)) == json_items(vs.take(i as int)) + seq![0x2Cu8]
                    + json_string(vs[i as int]));
                assert(out@ =~= seq![0x5Bu8] + json_items(vs.take(i + 1)));
            }
        }
        i = i + 1;
    }
    out.push(0x5D);
    proof {
        assert(vs.take(n as int) =~= vs);
        assert(out@ =~= json_array(vs));
    }
    out
}

} // verus!
