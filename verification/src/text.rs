//! Character and string primitives: classification of word and whitespace
//! characters, ASCII case folding, and small verified string utilities that
//! the tokenizer, classifier and snippet generator share.

use vstd::prelude::*;

verus! {

/// Whether a character counts as part of a word (letter or digit).
/// The value is fixed by `char::is_alphanumeric`.
pub uninterp spec fn word_char(c: char) -> bool;

/// Whether a character is whitespace, as `char::is_whitespace` decides it.
pub uninterp spec fn white_char(c: char) -> bool;

/// Relies on `char::is_alphanumeric`: a pure classification that depends on
/// the character alone.
#[verifier::external_body]
pub(crate) fn is_word_char(c: char) -> (r: bool)
    ensures
        r == word_char(c),
{
    c.is_alphanumeric()
}

/// Relies on `char::is_whitespace`: a pure classification that depends on
/// the character alone.
#[verifier::external_body]
pub(crate) fn is_white_char(c: char) -> (r: bool)
    ensures
        r == white_char(c),
{
    c.is_whitespace()
}

/// Relies on `String::from_iter` over `char`: the resulting string is the
/// concatenation of the characters in order.
#[verifier::external_body]
pub(crate) fn chars_to_string(v: &Vec<char>) -> (r: String)
    ensures
        r@ == v@,
{
    v.iter().collect()
}

/// ASCII case folding of one character: uppercase ASCII letters map to their
/// lowercase counterparts, every other character is unchanged.
pub open spec fn lower_char(c: char) -> char {
    if 'A' <= c && c <= 'Z' {
        (((c as u8) + 32) as char)
    } else {
        c
    }
}

/// ASCII case folding of a character sequence.
pub open spec fn lower_chars(s: Seq<char>) -> Seq<char> {
    s.map_values(|c: char| lower_char(c))
}

/// Folds one character to lowercase (ASCII letters only).
pub fn to_lower_char(c: char) -> (r: char)
    ensures
        r == lower_char(c),
{
    if 'A' <= c && c <= 'Z' {
        ((c as u8) + 32) as char
    } else {
        c
    }
}

/// The characters of a string, in order.
pub fn chars_of(s: &str) -> (v: Vec<char>)
    ensures
        v@ == s@,
{
    let n: usize = s.unicode_len();
    let mut v: Vec<char> = Vec::new();
    let mut i: usize = 0;
    while i < n
        invariant
            n == s@.len(),
            i <= n,
            v@ == s@.subrange(0, i as int),
        decreases n - i,
    {
        v.push(s.get_char(i));
        i = i + 1;
        proof {
            assert(v@ =~= s@.subrange(0, i as int));
        }
    }
    proof {
        assert(v@ =~= s@);
    }
    v
}

/// Lowercases (ASCII) every character of a sequence of characters.
pub fn lower_vec(v: &Vec<char>) -> (r: Vec<char>)
    ensures
        r@ == lower_chars(v@),
{
    let mut r: Vec<char> = Vec::new();
    let mut i: usize = 0;
    while i < v.len()
        invariant
            i <= v@.len(),
            r@ == lower_chars(v@.subrange(0, i as int)),
        decreases v@.len() - i,
    {
        r.push(to_lower_char(v[i]));
        i = i + 1;
        proof {
            assert(r@ =~= lower_chars(v@.subrange(0, i as int)));
        }
    }
    proof {
        assert(v@.subrange(0, v@.len() as int) =~= v@);
    }
    r
}

/// Whether two strings hold the same characters.
pub fn str_eq(a: &str, b: &str) -> (r: bool)
    ensures
        r == (a@ == b@),
{
    let na: usize = a.unicode_len();
    let nb: usize = b.unicode_len();
    if na != nb {
        return false;
    }
    let mut i: usize = 0;
    while i < na
        invariant
            na == a@.len(),
            na == b@.len(),
            i <= na,
            forall|j: int| 0 <= j < i ==> a@[j] == b@[j],
        decreases na - i,
    {
        if a.get_char(i) != b.get_char(i) {
            return false;
        }
        i = i + 1;
    }
    proof {
        assert(a@ =~= b@);
    }
    true
}

/// Whether `p` is a prefix of `s`.
pub open spec fn is_prefix(p: Seq<char>, s: Seq<char>) -> bool {
    p.len() <= s.len() && s.subrange(0, p.len() as int) == p
}

/// Whether the string `p` is a prefix of the string `s`.
pub fn str_starts_with(s: &str, p: &str) -> (r: bool)
    ensures
        r == is_prefix(p@, s@),
{
    let np: usize = p.unicode_len();
    let ns: usize = s.unicode_len();
    if np > ns {
        proof {
            assert(!is_prefix(p@, s@));
        }
        return false;
    }
    let mut i: usize = 0;
    while i < np
        invariant
            np == p@.len(),
            ns == s@.len(),
            np <= ns,
            i <= np,
            forall|j: int| 0 <= j < i ==> s@[j] == p@[j],
        decreases np - i,
    {
        if s.get_char(i) != p.get_char(i) {
            proof {
                assert(s@.subrange(0, p@.len() as int)[i as int] != p@[i as int]);
            }
            return false;
        }
        i = i + 1;
    }
    proof {
        assert(s@.subrange(0, p@.len() as int) =~= p@);
    }
    true
}

} // verus!
