//! Conversions between strings and character sequences.

use vstd::prelude::*;

verus! {

/// The characters of `s`, in order.
pub fn chars_of(s: &str) -> (r: Vec<char>)
    ensures
        r@ == s@,
{
    let mut out: Vec<char> = Vec::new();
    for c in iter: s.chars()
        invariant
            out@ == iter.seq().take(iter.index()),
    {
        out.push(c);
    }
    out
}

/// Appends `c` to `s` (`String::push`).
#[verifier::external_body]
pub fn push_char(s: &mut String, c: char)
    ensures
        final(s)@ == old(s)@.push(c),
{
    s.push(c);
}

/// The string made of `chars`.
pub fn string_of(chars: &[char]) -> (r: String)
    ensures
        r@ == chars@,
{
    let mut out: String = String::new();
    let mut i: usize = 0;
    while i < chars.len()
        invariant
            0 <= i <= chars@.len(),
            out@ == chars@.subrange(0, i as int),
        decreases chars@.len() - i,
    {
        push_char(&mut out, chars[i]);
        proof {
            assert(chars@.subrange(0, i + 1) =~= chars@.subrange(0, i as int).push(chars@[i as int]));
        }
        i = i + 1;
    }
    proof {
        assert(chars@.subrange(0, chars@.len() as int) =~= chars@);
    }
    out
}

} // verus!

verus! {

/// The character with code point `v`, if `v` is a Unicode scalar value
/// (`char::from_u32`).
#[verifier::external_body]
pub fn char_from_u32(v: u32) -> (r: Option<char>)
    ensures
        r is Some <==> (v < 0xD800 || (0xE000 <= v && v <= 0x10FFFF)),
        r matches Some(c) ==> c as int == v as int,
{
    char::from_u32(v)
}

/// The value of a hexadecimal digit.
pub fn hex_digit_value(c: char) -> (r: Option<u32>)
    ensures
        r == hex_value(c),
{
    let v: u32 = c as u32;
    if 0x30 <= v && v <= 0x39 {
        Some(v - 0x30)
    } else if 0x41 <= v && v <= 0x46 {
        Some(v - 0x41 + 10)
    } else if 0x61 <= v && v <= 0x66 {
        Some(v - 0x61 + 10)
    } else {
        None
    }
}

/// The value of a hexadecimal digit (upper or lower case).
pub open spec fn hex_value(c: char) -> Option<u32> {
    let v = c as u32;
    if 0x30 <= v && v <= 0x39 {
        Some((v - 0x30) as u32)
    } else if 0x41 <= v && v <= 0x46 {
        Some((v - 0x41 + 10) as u32)
    } else if 0x61 <= v && v <= 0x66 {
        Some((v - 0x61 + 10) as u32)
    } else {
        None
    }
}

} // verus!

verus! {

/// The concatenation of `a` and `b`.
pub fn concat(a: &str, b: &str) -> (r: String)
    ensures
        r@ == a@ + b@,
{
    let mut out: String = a.to_owned();
    for c in iter: b.chars()
        invariant
            out@ == a@ + iter.seq().take(iter.index()),
    {
        push_char(&mut out, c);
        proof {
            assert(iter.seq().take(iter.index() + 1) =~= iter.seq().take(iter.index() as int).push(c));
        }
    }
    out
}

/// Whether `a` and `b` hold the same characters.
pub fn str_eq(a: &str, b: &str) -> (r: bool)
    ensures
        r == (a@ == b@),
{
    let x: Vec<char> = chars_of(a);
    let y: Vec<char> = chars_of(b);
    if x.len() != y.len() {
        return false;
    }
    let mut i: usize = 0;
    while i < x.len()
        invariant
            x@ == a@,
            y@ == b@,
            x.len() == y.len(),
            0 <= i <= x.len(),
            forall|k: int| 0 <= k < i ==> x@[k] == y@[k],
        decreases x.len() - i,
    {
        if x[i] != y[i] {
            return false;
        }
        i = i + 1;
    }
    proof {
        assert(x@ =~= y@);
    }
    true
}

} // verus!

verus! {

/// The code point of `c`.
/// A character's code point is at most `0x10FFFF`.
pub proof fn lemma_char_bound(c: char)
    ensures
        0 <= c as int <= 0x10FFFF,
{
}

pub fn char_code(c: char) -> (r: u32)
    ensures
        r as int == c as int,
        r == c as u32,
{
    c as u32
}

} // verus!
