//! Strings as sequences of characters.

use vstd::prelude::*;

verus! {

/// `String::push` appends one character to the end of the string.
pub assume_specification[ String::push ](s: &mut String, c: char)
    ensures
        final(s)@ == old(s)@.push(c),
;

/// `c` with `A`..=`Z` mapped to `a`..=`z` and every other character kept.
pub open spec fn ascii_lower(c: char) -> char {
    if 'A' <= c && c <= 'Z' {
        ((c as u32) + 32) as char
    } else {
        c
    }
}

/// `c` with `a`..=`z` mapped to `A`..=`Z` and every other character kept.
pub open spec fn ascii_upper(c: char) -> char {
    if 'a' <= c && c <= 'z' {
        ((c as u32) - 32) as char
    } else {
        c
    }
}

/// Two characters are equal up to ASCII case.
pub open spec fn same_letter(a: char, b: char) -> bool {
    ascii_lower(a) == ascii_lower(b)
}

/// Maps `A`..=`Z` to `a`..=`z` and keeps every other character.
pub fn lower(c: char) -> (r: char)
    ensures
        r == ascii_lower(c),
{
    if 'A' <= c && c <= 'Z' {
        let code: u8 = c as u8;
        (code + 32) as char
    } else {
        c
    }
}

/// Maps `a`..=`z` to `A`..=`Z` and keeps every other character.
pub fn upper(c: char) -> (r: char)
    ensures
        r == ascii_upper(c),
{
    if 'a' <= c && c <= 'z' {
        let code: u8 = c as u8;
        (code - 32) as char
    } else {
        c
    }
}

/// Compares two characters, ignoring ASCII case.
pub fn eq_ignore_ascii_case(a: char, b: char) -> (r: bool)
    ensures
        r == same_letter(a, b),
{
    lower(a) == lower(b)
}

/// The texts of a sequence of strings.
pub open spec fn texts(v: Seq<String>) -> Seq<Seq<char>> {
    v.map_values(|s: String| s@)
}

/// The characters of `s`, in order.
pub fn chars_of(s: &str) -> (v: Vec<char>)
    ensures
        v@ == s@,
{
    let mut v: Vec<char> = Vec::new();
    for c in iter: s.chars()
        invariant
            iter.seq() == s@,
            v@ == s@.take(iter.index()),
    {
        v.push(c);
    }
    v
}

/// The string made of the characters of `v` from `from` up to `to`.
pub fn string_of(v: &[char], from: usize, to: usize) -> (s: String)
    requires
        from <= to <= v@.len(),
    ensures
        s@ == v@.subrange(from as int, to as int),
{
    let mut s = String::new();
    let mut i: usize = from;
    while i < to
        invariant
            from <= i <= to <= v@.len(),
            s@ == v@.subrange(from as int, i as int),
        decreases to - i,
    {
        s.push(v[i]);
        i += 1;
    }
    s
}

/// Two characters are alike exactly if they are the same character, or one is an
/// ASCII capital and the other the small letter 32 code points behind it.
pub proof fn lemma_same_letter(a: char, b: char)
    ensures
        same_letter(a, b) <==> {
            ||| a == b
            ||| 65 <= a as u32 <= 90 && b as u32 == a as u32 + 32
            ||| 65 <= b as u32 <= 90 && a as u32 == b as u32 + 32
        },
{
    lemma_lower_code(a);
    lemma_lower_code(b);
}

proof fn lemma_lower_code(c: char)
    ensures
        65 <= c as u32 <= 90 ==> ascii_lower(c) as u32 == c as u32 + 32,
        !(65 <= c as u32 <= 90) ==> ascii_lower(c) == c,
{
}

/// Raising a character moves a small ASCII letter 32 code points down and leaves
/// every other character alone; characters are alike exactly if they raise to
/// the same one.
pub proof fn lemma_ascii_upper(a: char, b: char)
    ensures
        97 <= a as u32 <= 122 ==> ascii_upper(a) as u32 == a as u32 - 32,
        !(97 <= a as u32 <= 122) ==> ascii_upper(a) == a,
        same_letter(a, b) <==> ascii_upper(a) == ascii_upper(b),
{
    lemma_lower_code(a);
    lemma_lower_code(b);
}

} // verus!
