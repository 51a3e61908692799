//! The base-62 alphabet: `0-9`, then `A-Z`, then `a-z`, in increasing code-point order.

use vstd::prelude::*;

verus! {

pub open spec fn is_digit(c: char) -> bool {
    ('0' <= c && c <= '9') || ('A' <= c && c <= 'Z') || ('a' <= c && c <= 'z')
}

/// Position of a symbol in the alphabet.
pub open spec fn digit_val(c: char) -> int {
    if c <= '9' {
        c as int - 48
    } else if c <= 'Z' {
        c as int - 55
    } else {
        c as int - 61
    }
}

/// Symbol at a position of the alphabet.
pub open spec fn digit_char(v: int) -> char {
    if v < 10 {
        (v + 48) as char
    } else if v < 36 {
        (v + 55) as char
    } else {
        (v + 61) as char
    }
}

pub open spec fn all_digits(s: Seq<char>) -> bool {
    forall|i: int| 0 <= i < s.len() ==> is_digit(#[trigger] s[i])
}

pub proof fn lemma_digit(c: char)
    requires
        is_digit(c),
    ensures
        0 <= digit_val(c) < 62,
        digit_char(digit_val(c)) == c,
{
}

pub proof fn lemma_char(v: int)
    requires
        0 <= v < 62,
    ensures
        is_digit(digit_char(v)),
        digit_val(digit_char(v)) == v,
{
}

/// The alphabet's order agrees with the order of code points.
pub proof fn lemma_order(c: char, d: char)
    requires
        is_digit(c),
        is_digit(d),
    ensures
        (c < d) == (digit_val(c) < digit_val(d)),
        (c == d) == (digit_val(c) == digit_val(d)),
{
}

pub const DIGITS: &'static str = "0123456789ABCDEFGHIJKLMNOPQRSTUVWXYZabcdefghijklmnopqrstuvwxyz";

/// The position of an alphabet symbol.
pub fn value_of(c: char) -> (r: u8)
    requires
        is_digit(c),
    ensures
        r as int == digit_val(c),
        r < 62,
{
    if c <= '9' {
        (c as u32 - 48) as u8
    } else if c <= 'Z' {
        (c as u32 - 55) as u8
    } else {
        (c as u32 - 61) as u8
    }
}

/// The alphabet symbol at a position.
pub fn symbol_of(v: u8) -> (r: char)
    requires
        v < 62,
    ensures
        r == digit_char(v as int),
{
    proof {
        reveal_strlit("0123456789ABCDEFGHIJKLMNOPQRSTUVWXYZabcdefghijklmnopqrstuvwxyz");
    }
    DIGITS.get_char(v as usize)
}

/// The alphabet symbol at a position, as a one-character string.
fn symbol_str(v: u8) -> (r: &'static str)
    requires
        v < 62,
    ensures
        r@ == seq![digit_char(v as int)],
{
    proof {
        reveal_strlit("0123456789ABCDEFGHIJKLMNOPQRSTUVWXYZabcdefghijklmnopqrstuvwxyz");
    }
    let s = DIGITS.substring_char(v as usize, v as usize + 1);
    assert(s@ =~= seq![digit_char(v as int)]);
    s
}

/// The characters of a string.
pub fn chars_of(s: &str) -> (r: Vec<char>)
    ensures
        r@ == s@,
{
    let n = s.unicode_len();
    let mut v: Vec<char> = Vec::new();
    let mut i: usize = 0;
    while i < n
        invariant
            n == s@.len(),
            i <= n,
            v@ == s@.subrange(0, i as int),
        decreases n - i,
    {
        v.push(s.get_char(i));
        i += 1;
        assert(v@ =~= s@.subrange(0, i as int));
    }
    assert(v@ =~= s@);
    v
}

/// A string of alphabet symbols.
pub fn string_of(v: &Vec<char>) -> (r: String)
    requires
        all_digits(v@),
    ensures
        r@ == v@,
{
    let mut s = String::new();
    let mut i: usize = 0;
    while i < v.len()
        invariant
            all_digits(v@),
            i <= v.len(),
            s@ == v@.subrange(0, i as int),
        decreases v.len() - i,
    {
        let c = v[i];
        proof {
            lemma_digit(c);
        }
        s.append(symbol_str(value_of(c)));
        i += 1;
        assert(s@ =~= v@.subrange(0, i as int));
    }
    assert(s@ =~= v@);
    s
}

} // verus!
