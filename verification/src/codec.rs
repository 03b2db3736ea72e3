//! The persistence codec: the document store, the postings index, the tag
//! index and the aggregate counters are written to a single binary blob and
//! read back. Integers are little-endian; strings are character counts
//! followed by 32-bit code points; every list is length-prefixed. The
//! identifier counter and the cache are not persisted: the counter is
//! reseeded from the largest identifier and the cache starts empty.

use vstd::prelude::*;

use crate::doc::{Document, DocumentV};
use crate::postings::{PostingEntry, PostingsIndex, PostingsV, TokenPostings};
use crate::tags::{TagEntry, TagIndex, TagsV};
use vstd::utf8::{char_is_scalar, char_u32_cast, is_scalar};

verus! {

/// Whether a 32-bit value is a Unicode scalar value.
pub open spec fn valid_scalar(v: u32) -> bool {
    is_scalar(v)
}

/// The character with code point `v` (meaningful when `v` is a scalar).
pub open spec fn char_of(v: u32) -> char {
    v as char
}

/// Relies on `char::from_u32`: it returns the character with the given
/// code point exactly when the value is a Unicode scalar value.
#[verifier::external_body]
fn char_from_code(v: u32) -> (r: Option<char>)
    ensures
        match r {
            Some(c) => c as u32 == v,
            None => !valid_scalar(v),
        },
{
    char::from_u32(v)
}

/// The eight little-endian bytes of a 64-bit value.
pub open spec fn le64(v: u64) -> Seq<u8> {
    seq![
        (v & 0xff) as u8,
        ((v >> 8) & 0xff) as u8,
        ((v >> 16) & 0xff) as u8,
        ((v >> 24) & 0xff) as u8,
        ((v >> 32) & 0xff) as u8,
        ((v >> 40) & 0xff) as u8,
        ((v >> 48) & 0xff) as u8,
        ((v >> 56) & 0xff) as u8,
    ]
}

/// The four little-endian bytes of a 32-bit value.
pub open spec fn le32(v: u32) -> Seq<u8> {
    seq![(v & 0xff) as u8, ((v >> 8) & 0xff) as u8, ((v >> 16) & 0xff) as u8, ((v >> 24)
        & 0xff) as u8]
}

/// The 64-bit value read little-endian at `pos`.
pub open spec fn le64_at(b: Seq<u8>, pos: int) -> u64 {
    (b[pos] as u64) | ((b[pos + 1] as u64) << 8) | ((b[pos + 2] as u64) << 16) | ((b[pos + 3]
        as u64) << 24) | ((b[pos + 4] as u64) << 32) | ((b[pos + 5] as u64) << 40) | ((b[pos + 6]
        as u64) << 48) | ((b[pos + 7] as u64) << 56)
}

/// The 32-bit value read little-endian at `pos`.
pub open spec fn le32_at(b: Seq<u8>, pos: int) -> u32 {
    (b[pos] as u32) | ((b[pos + 1] as u32) << 8) | ((b[pos + 2] as u32) << 16) | ((b[pos + 3]
        as u32) << 24)
}

proof fn lemma_le64_round(v: u64)
    ensures
        forall|b: Seq<u8>, pos: int|
            0 <= pos && pos + 8 <= b.len() && b.subrange(pos, pos + 8) == le64(v) ==> le64_at(
                b,
                pos,
            ) == v,
{
    assert forall|b: Seq<u8>, pos: int|
        0 <= pos && pos + 8 <= b.len() && b.subrange(pos, pos + 8) == le64(v) implies le64_at(
        b,
        pos,
    ) == v by {
        let s = b.subrange(pos, pos + 8);
        assert(b[pos] == s[0] && b[pos + 1] == s[1] && b[pos + 2] == s[2] && b[pos + 3] == s[3]
            && b[pos + 4] == s[4] && b[pos + 5] == s[5] && b[pos + 6] == s[6] && b[pos + 7]
            == s[7]);
        assert((((v & 0xff) as u8) as u64) | ((((v >> 8) & 0xff) as u8) as u64) << 8 | ((((v
            >> 16) & 0xff) as u8) as u64) << 16 | ((((v >> 24) & 0xff) as u8) as u64) << 24
            | ((((v >> 32) & 0xff) as u8) as u64) << 32 | ((((v >> 40) & 0xff) as u8) as u64)
            << 40 | ((((v >> 48) & 0xff) as u8) as u64) << 48 | ((((v >> 56) & 0xff) as u8)
            as u64) << 56 == v) by (bit_vector);
    }
}

proof fn lemma_le32_round(v: u32)
    ensures
        forall|b: Seq<u8>, pos: int|
            0 <= pos && pos + 4 <= b.len() && b.subrange(pos, pos + 4) == le32(v) ==> le32_at(
                b,
                pos,
            ) == v,
{
    assert forall|b: Seq<u8>, pos: int|
        0 <= pos && pos + 4 <= b.len() && b.subrange(pos, pos + 4) == le32(v) implies le32_at(
        b,
        pos,
    ) == v by {
        let s = b.subrange(pos, pos + 4);
        assert(b[pos] == s[0] && b[pos + 1] == s[1] && b[pos + 2] == s[2] && b[pos + 3] == s[3]);
        assert((((v & 0xff) as u8) as u32) | ((((v >> 8) & 0xff) as u8) as u32) << 8 | ((((v
            >> 16) & 0xff) as u8) as u32) << 16 | ((((v >> 24) & 0xff) as u8) as u32) << 24 == v)
            by (bit_vector);
    }
}

/// Appends the little-endian bytes of a 64-bit value.
fn push_u64(out: &mut Vec<u8>, v: u64)
    ensures
        final(out)@ == old(out)@ + le64(v),
{
    out.push((v & 0xff) as u8);
    out.push(((v >> 8) & 0xff) as u8);
    out.push(((v >> 16) & 0xff) as u8);
    out.push(((v >> 24) & 0xff) as u8);
    out.push(((v >> 32) & 0xff) as u8);
    out.push(((v >> 40) & 0xff) as u8);
    out.push(((v >> 48) & 0xff) as u8);
    out.push(((v >> 56) & 0xff) as u8);
    proof {
        assert(final(out)@ =~= old(out)@ + le64(v));
    }
}

/// Appends the little-endian bytes of a 32-bit value.
fn push_u32(out: &mut Vec<u8>, v: u32)
    ensures
        final(out)@ == old(out)@ + le32(v),
{
    out.push((v & 0xff) as u8);
    out.push(((v >> 8) & 0xff) as u8);
    out.push(((v >> 16) & 0xff) as u8);
    out.push(((v >> 24) & 0xff) as u8);
    proof {
        assert(final(out)@ =~= old(out)@ + le32(v));
    }
}

/// The encoding of a string: its character count, then each code point.
pub open spec fn enc_chars(s: Seq<char>) -> Seq<u8>
    decreases s.len(),
{
    if s.len() == 0 {
        Seq::empty()
    } else {
        enc_chars(s.drop_last()) + le32(s.last() as u32)
    }
}

pub open spec fn enc_str(s: Seq<char>) -> Seq<u8> {
    le64(s.len() as u64) + enc_chars(s)
}

/// Appends the encoding of a string.
fn push_str(out: &mut Vec<u8>, s: &str)
    ensures
        final(out)@ == old(out)@ + enc_str(s@),
{
    let cs = crate::text::chars_of(s);
    push_u64(out, cs.len() as u64);
    let mut i: usize = 0;
    while i < cs.len()
        invariant
            i <= cs@.len(),
            cs@ == s@,
            out@ == old(out)@ + le64(s@.len() as u64) + enc_chars(s@.subrange(0, i as int)),
        decreases cs@.len() - i,
    {
        let ghost pre = s@.subrange(0, i as int);
        let ghost post = s@.subrange(0, i + 1 as int);
        proof {
            assert(post.drop_last() =~= pre);
            assert(post.last() == s@[i as int]);
        }
        push_u32(out, cs[i] as u32);
        i = i + 1;
        proof {
            assert(out@ =~= old(out)@ + le64(s@.len() as u64) + enc_chars(
                s@.subrange(0, i as int),
            ));
        }
    }
    proof {
        assert(s@.subrange(0, s@.len() as int) =~= s@);
    }
}

/// Reads a 64-bit value; fails when fewer than eight bytes remain. Every
/// parser returns the parsed value with the position after it.
pub open spec fn dec_u64(b: Seq<u8>, pos: int) -> Option<(u64, int)> {
    if pos < 0 || pos + 8 > b.len() {
        None
    } else {
        Some((le64_at(b, pos), pos + 8))
    }
}

/// Reads a 32-bit value; fails when fewer than four bytes remain.
pub open spec fn dec_u32(b: Seq<u8>, pos: int) -> Option<(u32, int)> {
    if pos < 0 || pos + 4 > b.len() {
        None
    } else {
        Some((le32_at(b, pos), pos + 4))
    }
}

/// Reads one character; fails on truncation or a non-scalar code point.
pub open spec fn dec_char(b: Seq<u8>, pos: int) -> Option<(char, int)> {
    match dec_u32(b, pos) {
        None => None,
        Some((v, p2)) => if valid_scalar(v) {
            Some((char_of(v), p2))
        } else {
            None
        },
    }
}

/// Reads `n` characters.
pub open spec fn dec_chars(b: Seq<u8>, pos: int, n: u64) -> Option<(Seq<char>, int)>
    decreases n,
{
    if n == 0 {
        Some((Seq::empty(), pos))
    } else {
        match dec_char(b, pos) {
            None => None,
            Some((c, p2)) => match dec_chars(b, p2, (n - 1) as u64) {
                None => None,
                Some((s, p3)) => Some((seq![c] + s, p3)),
            },
        }
    }
}

/// Reads a string.
pub open spec fn dec_str(b: Seq<u8>, pos: int) -> Option<(Seq<char>, int)> {
    match dec_u64(b, pos) {
        None => None,
        Some((n, p2)) => dec_chars(b, p2, n),
    }
}

/// Reads a 64-bit value.
fn parse_u64(b: &Vec<u8>, pos: usize) -> (r: Option<(u64, usize)>)
    ensures
        match r {
            Some(x) => dec_u64(b@, pos as int) == Some((x.0, x.1 as int)) && x.1 <= b@.len(),
            None => dec_u64(b@, pos as int) is None,
        },
{
    if pos > b.len() || b.len() - pos < 8 {
        return None;
    }
    let v: u64 = (b[pos] as u64) | ((b[pos + 1] as u64) << 8u64) | ((b[pos + 2] as u64) << 16u64)
        | ((b[pos + 3] as u64) << 24u64) | ((b[pos + 4] as u64) << 32u64) | ((b[pos + 5] as u64)
        << 40u64) | ((b[pos + 6] as u64) << 48u64) | ((b[pos + 7] as u64) << 56u64);
    Some((v, pos + 8))
}

/// Reads a 32-bit value.
fn parse_u32(b: &Vec<u8>, pos: usize) -> (r: Option<(u32, usize)>)
    ensures
        match r {
            Some(x) => dec_u32(b@, pos as int) == Some((x.0, x.1 as int)) && x.1 <= b@.len(),
            None => dec_u32(b@, pos as int) is None,
        },
{
    if pos > b.len() || b.len() - pos < 4 {
        return None;
    }
    let v: u32 = (b[pos] as u32) | ((b[pos + 1] as u32) << 8u32) | ((b[pos + 2] as u32) << 16u32)
        | ((b[pos + 3] as u32) << 24u32);
    Some((v, pos + 4))
}

/// Reads a string.
fn parse_str(b: &Vec<u8>, pos: usize) -> (r: Option<(String, usize)>)
    ensures
        match r {
            Some(x) => dec_str(b@, pos as int) == Some((x.0@, x.1 as int)) && x.1 <= b@.len(),
            None => dec_str(b@, pos as int) is None,
        },
{
    let (n, mut p) = match parse_u64(b, pos) {
        Some(x) => x,
        None => {
            return None;
        },
    };
    let mut cs: Vec<char> = Vec::new();
    let mut i: u64 = 0;
    while i < n
        invariant
            i <= n,
            p <= b@.len(),
            dec_chars(b@, p as int, (n - i) as u64) matches Some(x) ==> dec_chars(
                b@,
                (match dec_u64(b@, pos as int) {
                    Some(y) => y.1,
                    None => 0,
                }),
                n,
            ) == Some((cs@ + x.0, x.1)),
            dec_chars(b@, p as int, (n - i) as u64) is None ==> dec_chars(
                b@,
                (match dec_u64(b@, pos as int) {
                    Some(y) => y.1,
                    None => 0,
                }),
                n,
            ) is None,
            dec_u64(b@, pos as int) is Some,
        decreases n - i,
    {
        let (v, p2) = match parse_u32(b, p) {
            Some(x) => x,
            None => {
                return None;
            },
        };
        let c = match char_from_code(v) {
            Some(c) => c,
            None => {
                proof {
                    assert(dec_char(b@, p as int) is None);
                }
                return None;
            },
        };
        proof {
            assert(valid_scalar(v)) by {
                char_is_scalar(c);
            }
            assert(char_of(v) == c) by {
                char_u32_cast(c, v);
            }
            assert(dec_char(b@, p as int) == Some((c, p2 as int)));
        }
        let ghost old_cs = cs@;
        cs.push(c);
        proof {
            assert(cs@ =~= old_cs.push(c));
            assert(old_cs.push(c) + (match dec_chars(b@, p2 as int, (n - i - 1) as u64) {
                Some(x) => x.0,
                None => Seq::empty(),
            }) =~= old_cs + (seq![c] + (match dec_chars(b@, p2 as int, (n - i - 1) as u64) {
                Some(x) => x.0,
                None => Seq::empty(),
            })));
        }
        p = p2;
        i = i + 1;
    }
    proof {
        assert(dec_chars(b@, p as int, 0) == Some((Seq::<char>::empty(), p as int)));
        assert(cs@ + Seq::<char>::empty() =~= cs@);
    }
    Some((crate::text::chars_to_string(&cs), p))
}

/// Reading back the encoding of a string yields the string.
pub proof fn lemma_str_round(s: Seq<char>, b: Seq<u8>, pos: int)
    requires
        0 <= pos,
        pos + enc_str(s).len() <= b.len(),
        b.subrange(pos, pos + enc_str(s).len()) == enc_str(s),
        s.len() <= u64::MAX,
    ensures
        dec_str(b, pos) == Some((s, pos + enc_str(s).len())),
{
    lemma_le64_round(s.len() as u64);
    lemma_enc_chars_len(s);
    assert forall|j: int| 0 <= j < enc_str(s).len() implies b[pos + j] == enc_str(s)[j] by {
        assert(b.subrange(pos, pos + enc_str(s).len())[j] == b[pos + j]);
    }
    assert(b.subrange(pos, pos + 8) =~= le64(s.len() as u64)) by {
        assert(forall|k: int|
            0 <= k < 8 ==> #[trigger] b.subrange(pos, pos + 8)[k] == b[pos + k]);
    }
    assert(dec_u64(b, pos) == Some((s.len() as u64, pos + 8)));
    assert(b.subrange(pos + 8, pos + 8 + enc_chars(s).len()) =~= enc_chars(s)) by {
        assert(forall|k: int|
            0 <= k < enc_chars(s).len() ==> #[trigger] b.subrange(
                pos + 8,
                pos + 8 + enc_chars(s).len(),
            )[k] == b[pos + 8 + k]);
        assert(forall|k: int| 0 <= k < enc_chars(s).len() ==> enc_str(s)[8 + k] == enc_chars(s)[k]);
    }
    lemma_chars_round(s, b, pos + 8);
}

proof fn lemma_chars_round(s: Seq<char>, b: Seq<u8>, pos: int)
    requires
        0 <= pos,
        pos + enc_chars(s).len() <= b.len(),
        b.subrange(pos, pos + enc_chars(s).len()) == enc_chars(s),
        s.len() <= u64::MAX,
    ensures
        dec_chars(b, pos, s.len() as u64) == Some((s, pos + enc_chars(s).len())),
    decreases s.len(),
{
    lemma_enc_chars_len(s);
    if s.len() == 0 {
    } else {
        let first = s.first();
        let rest = s.drop_first();
        lemma_enc_chars_first(s);
        lemma_enc_chars_len(rest);
        assert(enc_chars(s) == le32(first as u32) + enc_chars(rest));
        lemma_le32_round(first as u32);
        assert forall|j: int| 0 <= j < enc_chars(s).len() implies b[pos + j] == enc_chars(
            s,
        )[j] by {
            assert(b.subrange(pos, pos + enc_chars(s).len())[j] == b[pos + j]);
        }
        assert(b.subrange(pos, pos + 4) =~= le32(first as u32)) by {
            assert(forall|k: int|
                0 <= k < 4 ==> #[trigger] b.subrange(pos, pos + 4)[k] == b[pos + k]);
        }
        assert(dec_u32(b, pos) == Some((first as u32, pos + 4)));
        assert(valid_scalar(first as u32)) by {
            char_is_scalar(first);
        }
        assert(char_of(first as u32) == first) by {
            char_u32_cast(first, first as u32);
        }
        assert(dec_char(b, pos) == Some((first, pos + 4)));
        assert(b.subrange(pos + 4, pos + 4 + enc_chars(rest).len()) =~= enc_chars(rest)) by {
            assert(forall|k: int|
                0 <= k < enc_chars(rest).len() ==> #[trigger] b.subrange(
                    pos + 4,
                    pos + 4 + enc_chars(rest).len(),
                )[k] == b[pos + 4 + k]);
            assert(forall|k: int|
                0 <= k < enc_chars(rest).len() ==> enc_chars(s)[4 + k] == enc_chars(rest)[k]);
        }
        lemma_chars_round(rest, b, pos + 4);
        assert(seq![first] + rest =~= s);
    }
}

/// The encoding of a string takes four bytes per character after the count.
pub proof fn lemma_enc_chars_len(s: Seq<char>)
    ensures
        enc_chars(s).len() == 4 * s.len(),
    decreases s.len(),
{
    if s.len() > 0 {
        lemma_enc_chars_len(s.drop_last());
    }
}

/// The encoding of a list: each element in order.
pub open spec fn enc_list<T>(s: Seq<T>, f: spec_fn(T) -> Seq<u8>) -> Seq<u8>
    decreases s.len(),
{
    if s.len() == 0 {
        Seq::empty()
    } else {
        enc_list(s.drop_last(), f) + f(s.last())
    }
}

/// A length-prefixed list.
pub open spec fn enc_counted<T>(s: Seq<T>, f: spec_fn(T) -> Seq<u8>) -> Seq<u8> {
    le64(s.len() as u64) + enc_list(s, f)
}

pub proof fn lemma_enc_list_first<T>(s: Seq<T>, f: spec_fn(T) -> Seq<u8>)
    requires
        s.len() > 0,
    ensures
        enc_list(s, f) == f(s.first()) + enc_list(s.drop_first(), f),
    decreases s.len(),
{
    if s.len() == 1 {
        assert(s.drop_last() =~= Seq::<T>::empty());
        assert(s.drop_first() =~= Seq::<T>::empty());
        assert(s.last() == s.first());
        assert(enc_list(s, f) =~= f(s.first()) + enc_list(s.drop_first(), f));
    } else {
        lemma_enc_list_first(s.drop_last(), f);
        assert(s.drop_last().first() == s.first());
        assert(s.drop_last().drop_first() =~= s.drop_first().drop_last());
        assert(s.drop_first().last() == s.last());
        assert(enc_list(s, f) =~= f(s.first()) + enc_list(s.drop_first(), f));
    }
}

/// Reads `n` elements with the given parser.
pub open spec fn dec_list<T>(
    b: Seq<u8>,
    pos: int,
    n: u64,
    g: spec_fn(Seq<u8>, int) -> Option<(T, int)>,
) -> Option<(Seq<T>, int)>
    decreases n,
{
    if n == 0 {
        Some((Seq::empty(), pos))
    } else {
        match g(b, pos) {
            None => None,
            Some(xp) => match dec_list(b, xp.1, (n - 1) as u64, g) {
                None => None,
                Some(sp) => Some((seq![xp.0] + sp.0, sp.1)),
            },
        }
    }
}

/// Reads a length-prefixed list.
pub open spec fn dec_counted<T>(
    b: Seq<u8>,
    pos: int,
    g: spec_fn(Seq<u8>, int) -> Option<(T, int)>,
) -> Option<(Seq<T>, int)> {
    match dec_u64(b, pos) {
        None => None,
        Some(np) => dec_list(b, np.1, np.0, g),
    }
}

/// The parser `g` reads back exactly what `f` wrote for value `x`, wherever
/// the encoding stands in a larger buffer.
pub open spec fn parser_inverts<T>(
    f: spec_fn(T) -> Seq<u8>,
    g: spec_fn(Seq<u8>, int) -> Option<(T, int)>,
    x: T,
) -> bool {
    forall|b: Seq<u8>, pos: int|
        0 <= pos && pos + f(x).len() <= b.len() && b.subrange(pos, pos + f(x).len()) == f(x)
            ==> #[trigger] g(b, pos) == Some((x, pos + f(x).len()))
}

/// Splits a matched concatenation into its two matched halves.
pub proof fn lemma_seg(b: Seq<u8>, pos: int, s1: Seq<u8>, s2: Seq<u8>)
    requires
        0 <= pos,
        pos + s1.len() + s2.len() <= b.len(),
        b.subrange(pos, pos + s1.len() + s2.len()) == s1 + s2,
    ensures
        b.subrange(pos, pos + s1.len()) == s1,
        b.subrange(pos + s1.len(), pos + s1.len() + s2.len()) == s2,
{
    assert forall|j: int| 0 <= j < s1.len() + s2.len() implies #[trigger] b[pos + j] == (s1
        + s2)[j] by {
        assert(b.subrange(pos, pos + s1.len() + s2.len())[j] == b[pos + j]);
    }
    assert(b.subrange(pos, pos + s1.len()) =~= s1);
    assert forall|k: int|
        0 <= k < s2.len() implies #[trigger] b.subrange(
        pos + s1.len(),
        pos + s1.len() + s2.len(),
    )[k] == s2[k] by {
        assert(b[pos + (s1.len() + k)] == (s1 + s2)[s1.len() + k]);
        assert(pos + (s1.len() + k) == pos + s1.len() + k);
    }
    assert(b.subrange(pos + s1.len(), pos + s1.len() + s2.len()) =~= s2);
}

/// Reading back an encoded list yields the list.
pub proof fn lemma_list_round<T>(
    s: Seq<T>,
    f: spec_fn(T) -> Seq<u8>,
    g: spec_fn(Seq<u8>, int) -> Option<(T, int)>,
    b: Seq<u8>,
    pos: int,
)
    requires
        0 <= pos,
        pos + enc_list(s, f).len() <= b.len(),
        b.subrange(pos, pos + enc_list(s, f).len()) == enc_list(s, f),
        s.len() <= u64::MAX,
        forall|i: int| 0 <= i < s.len() ==> parser_inverts(f, g, #[trigger] s[i]),
    ensures
        dec_list(b, pos, s.len() as u64, g) == Some((s, pos + enc_list(s, f).len())),
    decreases s.len(),
{
    if s.len() == 0 {
    } else {
        lemma_enc_list_first(s, f);
        let first = s.first();
        let rest = s.drop_first();
        lemma_seg(b, pos, f(first), enc_list(rest, f));
        assert(parser_inverts(f, g, first)) by {
            assert(s[0] == first);
        }
        assert(g(b, pos) == Some((first, pos + f(first).len())));
        assert forall|i: int| 0 <= i < rest.len() implies parser_inverts(
            f,
            g,
            #[trigger] rest[i],
        ) by {
            assert(s[i + 1] == rest[i]);
        }
        lemma_list_round(rest, f, g, b, pos + f(first).len());
        assert(seq![first] + rest =~= s);
    }
}

/// Reading back an encoded length-prefixed list yields the list.
pub proof fn lemma_counted_round<T>(
    s: Seq<T>,
    f: spec_fn(T) -> Seq<u8>,
    g: spec_fn(Seq<u8>, int) -> Option<(T, int)>,
    b: Seq<u8>,
    pos: int,
)
    requires
        0 <= pos,
        pos + enc_counted(s, f).len() <= b.len(),
        b.subrange(pos, pos + enc_counted(s, f).len()) == enc_counted(s, f),
        s.len() <= u64::MAX,
        forall|i: int| 0 <= i < s.len() ==> parser_inverts(f, g, #[trigger] s[i]),
    ensures
        dec_counted(b, pos, g) == Some((s, pos + enc_counted(s, f).len())),
{
    lemma_seg(b, pos, le64(s.len() as u64), enc_list(s, f));
    lemma_le64_round(s.len() as u64);
    assert(dec_u64(b, pos) == Some((s.len() as u64, pos + 8)));
    lemma_list_round(s, f, g, b, pos + 8);
}

/// The encoder of one occurrence position.
pub open spec fn pos_enc() -> spec_fn(usize) -> Seq<u8> {
    |p: usize| le64(p as u64)
}

/// Reads one occurrence position.
pub open spec fn dec_pos(b: Seq<u8>, pos: int) -> Option<(usize, int)> {
    match dec_u64(b, pos) {
        None => None,
        Some(vp) => if vp.0 <= usize::MAX {
            Some((vp.0 as usize, vp.1))
        } else {
            None
        },
    }
}

pub open spec fn pos_dec() -> spec_fn(Seq<u8>, int) -> Option<(usize, int)> {
    |b: Seq<u8>, pos: int| dec_pos(b, pos)
}

proof fn lemma_pos_inverts(p: usize)
    ensures
        parser_inverts(pos_enc(), pos_dec(), p),
{
    lemma_le64_round(p as u64);
    assert forall|b: Seq<u8>, pos: int|
        0 <= pos && pos + pos_enc()(p).len() <= b.len() && b.subrange(
            pos,
            pos + pos_enc()(p).len(),
        ) == pos_enc()(p) implies #[trigger] pos_dec()(b, pos) == Some(
        (p, pos + pos_enc()(p).len()),
    ) by {
        assert(b.subrange(pos, pos + 8) == le64(p as u64));
        assert(le64_at(b, pos) == p as u64);
    }
}

/// The encoder of one document id.
pub open spec fn id_enc() -> spec_fn(u32) -> Seq<u8> {
    |v: u32| le32(v)
}

pub open spec fn id_dec() -> spec_fn(Seq<u8>, int) -> Option<(u32, int)> {
    |b: Seq<u8>, pos: int| dec_u32(b, pos)
}

proof fn lemma_id_inverts(v: u32)
    ensures
        parser_inverts(id_enc(), id_dec(), v),
{
    lemma_le32_round(v);
    assert forall|b: Seq<u8>, pos: int|
        0 <= pos && pos + id_enc()(v).len() <= b.len() && b.subrange(pos, pos + id_enc()(v).len())
            == id_enc()(v) implies #[trigger] id_dec()(b, pos) == Some(
        (v, pos + id_enc()(v).len()),
    ) by {
        assert(b.subrange(pos, pos + 4) == le32(v));
        assert(le32_at(b, pos) == v);
    }
}

/// The encoder of one string.
pub open spec fn str_enc() -> spec_fn(Seq<char>) -> Seq<u8> {
    |s: Seq<char>| enc_str(s)
}

pub open spec fn str_dec() -> spec_fn(Seq<u8>, int) -> Option<(Seq<char>, int)> {
    |b: Seq<u8>, pos: int| dec_str(b, pos)
}

proof fn lemma_str_inverts(s: Seq<char>)
    requires
        s.len() <= u64::MAX,
    ensures
        parser_inverts(str_enc(), str_dec(), s),
{
    assert forall|b: Seq<u8>, pos: int|
        0 <= pos && pos + str_enc()(s).len() <= b.len() && b.subrange(
            pos,
            pos + str_enc()(s).len(),
        ) == str_enc()(s) implies #[trigger] str_dec()(b, pos) == Some(
        (s, pos + str_enc()(s).len()),
    ) by {
        lemma_str_round(s, b, pos);
    }
}

/// The encoding of one postings entry: the document id, then the counted
/// position list.
pub open spec fn enc_entry(e: (u32, Seq<usize>)) -> Seq<u8> {
    le32(e.0) + enc_counted(e.1, pos_enc())
}

pub open spec fn dec_entry(b: Seq<u8>, pos: int) -> Option<((u32, Seq<usize>), int)> {
    match dec_u32(b, pos) {
        None => None,
        Some(vp) => match dec_counted(b, vp.1, pos_dec()) {
            None => None,
            Some(sp) => Some(((vp.0, sp.0), sp.1)),
        },
    }
}

pub open spec fn entry_enc() -> spec_fn((u32, Seq<usize>)) -> Seq<u8> {
    |e: (u32, Seq<usize>)| enc_entry(e)
}

pub open spec fn entry_dec() -> spec_fn(Seq<u8>, int) -> Option<((u32, Seq<usize>), int)> {
    |b: Seq<u8>, pos: int| dec_entry(b, pos)
}

proof fn lemma_entry_inverts(e: (u32, Seq<usize>))
    requires
        e.1.len() <= u64::MAX,
    ensures
        parser_inverts(entry_enc(), entry_dec(), e),
{
    assert forall|b: Seq<u8>, pos: int|
        0 <= pos && pos + entry_enc()(e).len() <= b.len() && b.subrange(
            pos,
            pos + entry_enc()(e).len(),
        ) == entry_enc()(e) implies #[trigger] entry_dec()(b, pos) == Some(
        (e, pos + entry_enc()(e).len()),
    ) by {
        lemma_seg(b, pos, le32(e.0), enc_counted(e.1, pos_enc()));
        lemma_le32_round(e.0);
        assert(dec_u32(b, pos) == Some((e.0, pos + 4)));
        assert forall|i: int| 0 <= i < e.1.len() implies parser_inverts(
            pos_enc(),
            pos_dec(),
            #[trigger] e.1[i],
        ) by {
            lemma_pos_inverts(e.1[i]);
        }
        lemma_counted_round(e.1, pos_enc(), pos_dec(), b, pos + 4);
    }
}

/// The encoding of one token's postings: the token, then the counted
/// entry list.
pub open spec fn enc_post(p: (Seq<char>, Seq<(u32, Seq<usize>)>)) -> Seq<u8> {
    enc_str(p.0) + enc_counted(p.1, entry_enc())
}

pub open spec fn dec_post(b: Seq<u8>, pos: int) -> Option<
    ((Seq<char>, Seq<(u32, Seq<usize>)>), int),
> {
    match dec_str(b, pos) {
        None => None,
        Some(tp) => match dec_counted(b, tp.1, entry_dec()) {
            None => None,
            Some(sp) => Some(((tp.0, sp.0), sp.1)),
        },
    }
}

pub open spec fn post_enc() -> spec_fn((Seq<char>, Seq<(u32, Seq<usize>)>)) -> Seq<u8> {
    |p: (Seq<char>, Seq<(u32, Seq<usize>)>)| enc_post(p)
}

pub open spec fn post_dec() -> spec_fn(Seq<u8>, int) -> Option<
    ((Seq<char>, Seq<(u32, Seq<usize>)>), int),
> {
    |b: Seq<u8>, pos: int| dec_post(b, pos)
}

proof fn lemma_post_inverts(p: (Seq<char>, Seq<(u32, Seq<usize>)>))
    requires
        p.0.len() <= u64::MAX,
        p.1.len() <= u64::MAX,
        forall|i: int| 0 <= i < p.1.len() ==> (#[trigger] p.1[i]).1.len() <= u64::MAX,
    ensures
        parser_inverts(post_enc(), post_dec(), p),
{
    assert forall|b: Seq<u8>, pos: int|
        0 <= pos && pos + post_enc()(p).len() <= b.len() && b.subrange(
            pos,
            pos + post_enc()(p).len(),
        ) == post_enc()(p) implies #[trigger] post_dec()(b, pos) == Some(
        (p, pos + post_enc()(p).len()),
    ) by {
        lemma_seg(b, pos, enc_str(p.0), enc_counted(p.1, entry_enc()));
        lemma_str_round(p.0, b, pos);
        assert forall|i: int| 0 <= i < p.1.len() implies parser_inverts(
            entry_enc(),
            entry_dec(),
            #[trigger] p.1[i],
        ) by {
            lemma_entry_inverts(p.1[i]);
        }
        lemma_counted_round(p.1, entry_enc(), entry_dec(), b, pos + enc_str(p.0).len());
    }
}

/// The encoding of one tag with its document ids.
pub open spec fn enc_tagent(t: (Seq<char>, Seq<u32>)) -> Seq<u8> {
    enc_str(t.0) + enc_counted(t.1, id_enc())
}

pub open spec fn dec_tagent(b: Seq<u8>, pos: int) -> Option<((Seq<char>, Seq<u32>), int)> {
    match dec_str(b, pos) {
        None => None,
        Some(tp) => match dec_counted(b, tp.1, id_dec()) {
            None => None,
            Some(sp) => Some(((tp.0, sp.0), sp.1)),
        },
    }
}

pub open spec fn tagent_enc() -> spec_fn((Seq<char>, Seq<u32>)) -> Seq<u8> {
    |t: (Seq<char>, Seq<u32>)| enc_tagent(t)
}

pub open spec fn tagent_dec() -> spec_fn(Seq<u8>, int) -> Option<((Seq<char>, Seq<u32>), int)> {
    |b: Seq<u8>, pos: int| dec_tagent(b, pos)
}

proof fn lemma_tagent_inverts(t: (Seq<char>, Seq<u32>))
    requires
        t.0.len() <= u64::MAX,
        t.1.len() <= u64::MAX,
    ensures
        parser_inverts(tagent_enc(), tagent_dec(), t),
{
    assert forall|b: Seq<u8>, pos: int|
        0 <= pos && pos + tagent_enc()(t).len() <= b.len() && b.subrange(
            pos,
            pos + tagent_enc()(t).len(),
        ) == tagent_enc()(t) implies #[trigger] tagent_dec()(b, pos) == Some(
        (t, pos + tagent_enc()(t).len()),
    ) by {
        lemma_seg(b, pos, enc_str(t.0), enc_counted(t.1, id_enc()));
        lemma_str_round(t.0, b, pos);
        assert forall|i: int| 0 <= i < t.1.len() implies parser_inverts(
            id_enc(),
            id_dec(),
            #[trigger] t.1[i],
        ) by {
            lemma_id_inverts(t.1[i]);
        }
        lemma_counted_round(t.1, id_enc(), id_dec(), b, pos + enc_str(t.0).len());
    }
}

/// The encoding of one document record.
pub open spec fn enc_doc(d: DocumentV) -> Seq<u8> {
    le32(d.id) + enc_str(d.path) + enc_str(d.title) + enc_str(d.content) + enc_counted(
        d.tags,
        str_enc(),
    ) + le64(d.num_tokens as u64) + le64(d.modified_time)
}

pub open spec fn dec_doc(b: Seq<u8>, pos: int) -> Option<(DocumentV, int)> {
    match dec_u32(b, pos) {
        None => None,
        Some(ip) => match dec_str(b, ip.1) {
            None => None,
            Some(pp) => match dec_str(b, pp.1) {
                None => None,
                Some(tp) => match dec_str(b, tp.1) {
                    None => None,
                    Some(cp) => match dec_counted(b, cp.1, str_dec()) {
                        None => None,
                        Some(gp) => match dec_u64(b, gp.1) {
                            None => None,
                            Some(np) => if np.0 <= usize::MAX {
                                match dec_u64(b, np.1) {
                                    None => None,
                                    Some(mp) => Some(
                                        (
                                            DocumentV {
                                                id: ip.0,
                                                path: pp.0,
                                                title: tp.0,
                                                content: cp.0,
                                                tags: gp.0,
                                                num_tokens: np.0 as nat,
                                                modified_time: mp.0,
                                            },
                                            mp.1,
                                        ),
                                    ),
                                }
                            } else {
                                None
                            },
                        },
                    },
                },
            },
        },
    }
}

pub open spec fn doc_enc() -> spec_fn(DocumentV) -> Seq<u8> {
    |d: DocumentV| enc_doc(d)
}

pub open spec fn doc_dec() -> spec_fn(Seq<u8>, int) -> Option<(DocumentV, int)> {
    |b: Seq<u8>, pos: int| dec_doc(b, pos)
}

proof fn lemma_doc_inverts(d: DocumentV)
    requires
        d.path.len() <= u64::MAX,
        d.title.len() <= u64::MAX,
        d.content.len() <= u64::MAX,
        d.tags.len() <= u64::MAX,
        forall|i: int| 0 <= i < d.tags.len() ==> (#[trigger] d.tags[i]).len() <= u64::MAX,
        d.num_tokens <= usize::MAX,
    ensures
        parser_inverts(doc_enc(), doc_dec(), d),
{
    assert forall|b: Seq<u8>, pos: int|
        0 <= pos && pos + doc_enc()(d).len() <= b.len() && b.subrange(
            pos,
            pos + doc_enc()(d).len(),
        ) == doc_enc()(d) implies #[trigger] doc_dec()(b, pos) == Some(
        (d, pos + doc_enc()(d).len()),
    ) by {
        let s1 = le32(d.id);
        let s2 = enc_str(d.path);
        let s3 = enc_str(d.title);
        let s4 = enc_str(d.content);
        let s5 = enc_counted(d.tags, str_enc());
        let s6 = le64(d.num_tokens as u64);
        let s7 = le64(d.modified_time);
        assert(enc_doc(d) =~= s1 + (s2 + (s3 + (s4 + (s5 + (s6 + s7))))));
        let p1 = pos + s1.len();
        lemma_seg(b, pos, s1, s2 + (s3 + (s4 + (s5 + (s6 + s7)))));
        let p2 = p1 + s2.len();
        lemma_seg(b, p1, s2, s3 + (s4 + (s5 + (s6 + s7))));
        let p3 = p2 + s3.len();
        lemma_seg(b, p2, s3, s4 + (s5 + (s6 + s7)));
        let p4 = p3 + s4.len();
        lemma_seg(b, p3, s4, s5 + (s6 + s7));
        let p5 = p4 + s5.len();
        lemma_seg(b, p4, s5, s6 + s7);
        let p6 = p5 + s6.len();
        lemma_seg(b, p5, s6, s7);
        lemma_le32_round(d.id);
        assert(dec_u32(b, pos) == Some((d.id, p1)));
        lemma_str_round(d.path, b, p1);
        lemma_str_round(d.title, b, p2);
        lemma_str_round(d.content, b, p3);
        assert forall|i: int| 0 <= i < d.tags.len() implies parser_inverts(
            str_enc(),
            str_dec(),
            #[trigger] d.tags[i],
        ) by {
            lemma_str_inverts(d.tags[i]);
        }
        lemma_counted_round(d.tags, str_enc(), str_dec(), b, p4);
        lemma_le64_round(d.num_tokens as u64);
        assert(dec_u64(b, p5) == Some((d.num_tokens as u64, p6)));
        lemma_le64_round(d.modified_time);
        assert(dec_u64(b, p6) == Some((d.modified_time, p6 + 8)));
    }
}

/// The decoded pieces of a persisted index.
#[verifier::ext_equal]
pub ghost struct PartsV {
    pub cache_capacity: u64,
    pub total_docs: u64,
    pub total_tokens: u64,
    pub docs: Seq<DocumentV>,
    pub postings: PostingsV,
    pub tags: TagsV,
}

/// The encoding of a whole index.
pub open spec fn enc_index(p: PartsV) -> Seq<u8> {
    le64(p.cache_capacity) + le64(p.total_docs) + le64(p.total_tokens) + enc_counted(
        p.docs,
        doc_enc(),
    ) + enc_counted(p.postings, post_enc()) + enc_counted(p.tags, tagent_enc())
}

/// Reads a whole index from the start of a blob; trailing bytes are
/// tolerated.
pub open spec fn dec_index(b: Seq<u8>) -> Option<PartsV> {
    match dec_u64(b, 0) {
        None => None,
        Some(cp) => match dec_u64(b, cp.1) {
            None => None,
            Some(dp) => match dec_u64(b, dp.1) {
                None => None,
                Some(tp) => match dec_counted(b, tp.1, doc_dec()) {
                    None => None,
                    Some(docs) => match dec_counted(b, docs.1, post_dec()) {
                        None => None,
                        Some(posts) => match dec_counted(b, posts.1, tagent_dec()) {
                            None => None,
                            Some(tags) => Some(
                                PartsV {
                                    cache_capacity: cp.0,
                                    total_docs: dp.0,
                                    total_tokens: tp.0,
                                    docs: docs.0,
                                    postings: posts.0,
                                    tags: tags.0,
                                },
                            ),
                        },
                    },
                },
            },
        },
    }
}

/// Size bounds under which an index encodes losslessly; every index held
/// in memory satisfies them.
pub open spec fn parts_bounds(p: PartsV) -> bool {
    &&& p.docs.len() <= u64::MAX
    &&& forall|i: int| 0 <= i < p.docs.len() ==> {
        let d = #[trigger] p.docs[i];
        &&& d.path.len() <= u64::MAX
        &&& d.title.len() <= u64::MAX
        &&& d.content.len() <= u64::MAX
        &&& d.tags.len() <= u64::MAX
        &&& (forall|j: int| 0 <= j < d.tags.len() ==> (#[trigger] d.tags[j]).len() <= u64::MAX)
        &&& d.num_tokens <= usize::MAX
    }
    &&& p.postings.len() <= u64::MAX
    &&& forall|i: int| 0 <= i < p.postings.len() ==> {
        let t = #[trigger] p.postings[i];
        &&& t.0.len() <= u64::MAX
        &&& t.1.len() <= u64::MAX
        &&& (forall|j: int| 0 <= j < t.1.len() ==> (#[trigger] t.1[j]).1.len() <= u64::MAX)
    }
    &&& p.tags.len() <= u64::MAX
    &&& forall|i: int| 0 <= i < p.tags.len() ==> (#[trigger] p.tags[i]).0.len() <= u64::MAX
        && p.tags[i].1.len() <= u64::MAX
}

/// Reading back an encoded index yields the same parts: the persistence
/// round trip is exact.
#[verifier::rlimit(100)]
#[verifier::spinoff_prover]
pub proof fn lemma_index_round(p: PartsV)
    requires
        parts_bounds(p),
    ensures
        dec_index(enc_index(p)) == Some(p),
{
    let b = enc_index(p);
    let s1 = le64(p.cache_capacity);
    let s2 = le64(p.total_docs);
    let s3 = le64(p.total_tokens);
    let s4 = enc_counted(p.docs, doc_enc());
    let s5 = enc_counted(p.postings, post_enc());
    let s6 = enc_counted(p.tags, tagent_enc());
    let t2 = s1 + s2;
    let t3 = t2 + s3;
    let t4 = t3 + s4;
    let t5 = t4 + s5;
    assert(b == t5 + s6);
    assert(b.subrange(0, b.len() as int) =~= b);
    lemma_seg(b, 0, t5, s6);
    lemma_seg(b, 0, t4, s5);
    lemma_seg(b, 0, t3, s4);
    lemma_seg(b, 0, t2, s3);
    lemma_seg(b, 0, s1, s2);
    let p1 = s1.len() as int;
    let p2 = p1 + s2.len();
    let p3 = p2 + s3.len();
    let p4 = p3 + s4.len();
    let p5 = p4 + s5.len();
    lemma_le64_round(p.cache_capacity);
    lemma_le64_round(p.total_docs);
    lemma_le64_round(p.total_tokens);
    assert(dec_u64(b, 0) == Some((p.cache_capacity, p1)));
    assert(dec_u64(b, p1) == Some((p.total_docs, p2)));
    assert(dec_u64(b, p2) == Some((p.total_tokens, p3)));
    lemma_all_docs_invert(p);
    lemma_counted_round(p.docs, doc_enc(), doc_dec(), b, p3);
    lemma_all_posts_invert(p);
    lemma_counted_round(p.postings, post_enc(), post_dec(), b, p4);
    lemma_all_tagents_invert(p);
    lemma_counted_round(p.tags, tagent_enc(), tagent_dec(), b, p5);
}

proof fn lemma_all_docs_invert(p: PartsV)
    requires
        parts_bounds(p),
    ensures
        forall|i: int| 0 <= i < p.docs.len() ==> parser_inverts(
            doc_enc(),
            doc_dec(),
            #[trigger] p.docs[i],
        ),
{
    assert forall|i: int| 0 <= i < p.docs.len() implies parser_inverts(
        doc_enc(),
        doc_dec(),
        #[trigger] p.docs[i],
    ) by {
        lemma_doc_inverts(p.docs[i]);
    }
}

proof fn lemma_all_posts_invert(p: PartsV)
    requires
        parts_bounds(p),
    ensures
        forall|i: int| 0 <= i < p.postings.len() ==> parser_inverts(
            post_enc(),
            post_dec(),
            #[trigger] p.postings[i],
        ),
{
    assert forall|i: int| 0 <= i < p.postings.len() implies parser_inverts(
        post_enc(),
        post_dec(),
        #[trigger] p.postings[i],
    ) by {
        lemma_post_inverts(p.postings[i]);
    }
}

proof fn lemma_all_tagents_invert(p: PartsV)
    requires
        parts_bounds(p),
    ensures
        forall|i: int| 0 <= i < p.tags.len() ==> parser_inverts(
            tagent_enc(),
            tagent_dec(),
            #[trigger] p.tags[i],
        ),
{
    assert forall|i: int| 0 <= i < p.tags.len() implies parser_inverts(
        tagent_enc(),
        tagent_dec(),
        #[trigger] p.tags[i],
    ) by {
        lemma_tagent_inverts(p.tags[i]);
    }
}

/// The decoded pieces of a persisted index, as executable values.
pub struct DecodedIndex {
    pub cache_capacity: u64,
    pub total_docs: u64,
    pub total_tokens: u64,
    pub documents: Vec<Document>,
    pub postings: PostingsIndex,
    pub tags: TagIndex,
}

impl View for DecodedIndex {
    type V = PartsV;

    open spec fn view(&self) -> PartsV {
        PartsV {
            cache_capacity: self.cache_capacity,
            total_docs: self.total_docs,
            total_tokens: self.total_tokens,
            docs: self.documents.deep_view(),
            postings: self.postings@,
            tags: self.tags@,
        }
    }
}

/// Appends a counted position list.
fn push_positions(out: &mut Vec<u8>, v: &Vec<usize>)
    ensures
        final(out)@ == old(out)@ + enc_counted(v@, pos_enc()),
{
    push_u64(out, v.len() as u64);
    let mut i: usize = 0;
    while i < v.len()
        invariant
            i <= v@.len(),
            out@ == old(out)@ + le64(v@.len() as u64) + enc_list(
                v@.subrange(0, i as int),
                pos_enc(),
            ),
        decreases v@.len() - i,
    {
        let ghost pre = v@.subrange(0, i as int);
        let ghost post = v@.subrange(0, i + 1 as int);
        proof {
            assert(post.drop_last() =~= pre);
            assert(post.last() == v@[i as int]);
        }
        push_u64(out, v[i] as u64);
        i = i + 1;
        proof {
            assert(out@ =~= old(out)@ + le64(v@.len() as u64) + enc_list(
                v@.subrange(0, i as int),
                pos_enc(),
            ));
        }
    }
    proof {
        assert(v@.subrange(0, v@.len() as int) =~= v@);
    }
}

/// Appends one postings entry.
fn push_entry(out: &mut Vec<u8>, e: &PostingEntry)
    ensures
        final(out)@ == old(out)@ + enc_entry(e@),
{
    push_u32(out, e.doc_id);
    push_positions(out, &e.positions);
    proof {
        assert(final(out)@ =~= old(out)@ + enc_entry(e@));
    }
}

/// Appends the counted postings of one token.
fn push_post(out: &mut Vec<u8>, t: &TokenPostings)
    ensures
        final(out)@ == old(out)@ + enc_post(t@),
{
    push_str(out, t.token.as_str());
    push_u64(out, t.entries.len() as u64);
    let ghost ev = t.entries.deep_view();
    let mut i: usize = 0;
    while i < t.entries.len()
        invariant
            i <= t.entries@.len(),
            ev == t.entries.deep_view(),
            ev.len() == t.entries@.len(),
            out@ == old(out)@ + enc_str(t.token@) + le64(ev.len() as u64) + enc_list(
                ev.subrange(0, i as int),
                entry_enc(),
            ),
        decreases t.entries@.len() - i,
    {
        let ghost pre = ev.subrange(0, i as int);
        let ghost post = ev.subrange(0, i + 1 as int);
        proof {
            assert(post.drop_last() =~= pre);
            assert(post.last() == ev[i as int]);
            assert(ev[i as int] == t.entries@[i as int]@);
        }
        push_entry(out, &t.entries[i]);
        i = i + 1;
        proof {
            assert(out@ =~= old(out)@ + enc_str(t.token@) + le64(ev.len() as u64) + enc_list(
                ev.subrange(0, i as int),
                entry_enc(),
            ));
        }
    }
    proof {
        assert(ev.subrange(0, ev.len() as int) =~= ev);
        assert(final(out)@ =~= old(out)@ + enc_post(t@));
    }
}

/// Appends one tag with its counted id list.
fn push_tagent(out: &mut Vec<u8>, t: &TagEntry)
    ensures
        final(out)@ == old(out)@ + enc_tagent(t@),
{
    push_str(out, t.tag.as_str());
    push_u64(out, t.ids.len() as u64);
    let mut i: usize = 0;
    while i < t.ids.len()
        invariant
            i <= t.ids@.len(),
            out@ == old(out)@ + enc_str(t.tag@) + le64(t.ids@.len() as u64) + enc_list(
                t.ids@.subrange(0, i as int),
                id_enc(),
            ),
        decreases t.ids@.len() - i,
    {
        let ghost pre = t.ids@.subrange(0, i as int);
        let ghost post = t.ids@.subrange(0, i + 1 as int);
        proof {
            assert(post.drop_last() =~= pre);
            assert(post.last() == t.ids@[i as int]);
        }
        push_u32(out, t.ids[i]);
        i = i + 1;
        proof {
            assert(out@ =~= old(out)@ + enc_str(t.tag@) + le64(t.ids@.len() as u64) + enc_list(
                t.ids@.subrange(0, i as int),
                id_enc(),
            ));
        }
    }
    proof {
        assert(t.ids@.subrange(0, t.ids@.len() as int) =~= t.ids@);
        assert(final(out)@ =~= old(out)@ + enc_tagent(t@));
    }
}

/// Appends one document record.
fn push_doc(out: &mut Vec<u8>, d: &Document)
    ensures
        final(out)@ == old(out)@ + enc_doc(d@),
{
    push_u32(out, d.id);
    push_str(out, d.path.as_str());
    push_str(out, d.title.as_str());
    push_str(out, d.content.as_str());
    push_u64(out, d.tags.len() as u64);
    let ghost tv = d.tags.deep_view();
    let mut i: usize = 0;
    while i < d.tags.len()
        invariant
            i <= d.tags@.len(),
            tv == d.tags.deep_view(),
            tv.len() == d.tags@.len(),
            out@ == old(out)@ + le32(d.id) + enc_str(d.path@) + enc_str(d.title@) + enc_str(
                d.content@,
            ) + le64(tv.len() as u64) + enc_list(tv.subrange(0, i as int), str_enc()),
        decreases d.tags@.len() - i,
    {
        let ghost pre = tv.subrange(0, i as int);
        let ghost post = tv.subrange(0, i + 1 as int);
        proof {
            assert(post.drop_last() =~= pre);
            assert(post.last() == tv[i as int]);
            assert(tv[i as int] == d.tags@[i as int]@);
        }
        push_str(out, d.tags[i].as_str());
        i = i + 1;
        proof {
            assert(out@ =~= old(out)@ + le32(d.id) + enc_str(d.path@) + enc_str(d.title@)
                + enc_str(d.content@) + le64(tv.len() as u64) + enc_list(
                tv.subrange(0, i as int),
                str_enc(),
            ));
        }
    }
    push_u64(out, d.num_tokens as u64);
    push_u64(out, d.modified_time);
    proof {
        assert(tv.subrange(0, tv.len() as int) =~= tv);
        assert(final(out)@ =~= old(out)@ + enc_doc(d@));
    }
}

/// Encodes the persisted parts of an index into one blob.
#[verifier::rlimit(100)]
pub fn encode_index(
    cache_capacity: u64,
    total_docs: u64,
    total_tokens: u64,
    documents: &Vec<Document>,
    postings: &PostingsIndex,
    tags: &TagIndex,
) -> (r: Vec<u8>)
    ensures
        r@ == enc_index(
            PartsV {
                cache_capacity,
                total_docs,
                total_tokens,
                docs: documents.deep_view(),
                postings: postings@,
                tags: tags@,
            },
        ),
{
    let mut out: Vec<u8> = Vec::new();
    push_u64(&mut out, cache_capacity);
    push_u64(&mut out, total_docs);
    push_u64(&mut out, total_tokens);
    push_u64(&mut out, documents.len() as u64);
    let ghost dv = documents.deep_view();
    let ghost header = le64(cache_capacity) + le64(total_docs) + le64(total_tokens);
    let mut i: usize = 0;
    while i < documents.len()
        invariant
            i <= documents@.len(),
            dv == documents.deep_view(),
            dv.len() == documents@.len(),
            out@ == header + le64(dv.len() as u64) + enc_list(
                dv.subrange(0, i as int),
                doc_enc(),
            ),
        decreases documents@.len() - i,
    {
        let ghost pre = dv.subrange(0, i as int);
        let ghost post = dv.subrange(0, i + 1 as int);
        proof {
            assert(post.drop_last() =~= pre);
            assert(post.last() == dv[i as int]);
            assert(dv[i as int] == documents@[i as int]@);
        }
        push_doc(&mut out, &documents[i]);
        i = i + 1;
        proof {
            assert(out@ =~= header + le64(dv.len() as u64) + enc_list(
                dv.subrange(0, i as int),
                doc_enc(),
            ));
        }
    }
    proof {
        assert(dv.subrange(0, dv.len() as int) =~= dv);
    }
    push_u64(&mut out, postings.items.len() as u64);
    let ghost pv = postings@;
    let ghost header2 = header + enc_counted(dv, doc_enc());
    proof {
        assert(out@ =~= header2 + le64(pv.len() as u64));
    }
    let mut i2: usize = 0;
    while i2 < postings.items.len()
        invariant
            i2 <= postings.items@.len(),
            pv == postings@,
            pv.len() == postings.items@.len(),
            out@ == header2 + le64(pv.len() as u64) + enc_list(
                pv.subrange(0, i2 as int),
                post_enc(),
            ),
        decreases postings.items@.len() - i2,
    {
        let ghost pre = pv.subrange(0, i2 as int);
        let ghost post = pv.subrange(0, i2 + 1 as int);
        proof {
            assert(post.drop_last() =~= pre);
            assert(post.last() == pv[i2 as int]);
            assert(pv[i2 as int] == postings.items@[i2 as int]@);
        }
        push_post(&mut out, &postings.items[i2]);
        i2 = i2 + 1;
        proof {
            assert(out@ =~= header2 + le64(pv.len() as u64) + enc_list(
                pv.subrange(0, i2 as int),
                post_enc(),
            ));
        }
    }
    proof {
        assert(pv.subrange(0, pv.len() as int) =~= pv);
    }
    push_u64(&mut out, tags.items.len() as u64);
    let ghost gv = tags@;
    let ghost header3 = header2 + enc_counted(pv, post_enc());
    proof {
        assert(out@ =~= header3 + le64(gv.len() as u64));
    }
    let mut i3: usize = 0;
    while i3 < tags.items.len()
        invariant
            i3 <= tags.items@.len(),
            gv == tags@,
            gv.len() == tags.items@.len(),
            out@ == header3 + le64(gv.len() as u64) + enc_list(
                gv.subrange(0, i3 as int),
                tagent_enc(),
            ),
        decreases tags.items@.len() - i3,
    {
        let ghost pre = gv.subrange(0, i3 as int);
        let ghost post = gv.subrange(0, i3 + 1 as int);
        proof {
            assert(post.drop_last() =~= pre);
            assert(post.last() == gv[i3 as int]);
            assert(gv[i3 as int] == tags.items@[i3 as int]@);
        }
        push_tagent(&mut out, &tags.items[i3]);
        i3 = i3 + 1;
        proof {
            assert(out@ =~= header3 + le64(gv.len() as u64) + enc_list(
                gv.subrange(0, i3 as int),
                tagent_enc(),
            ));
        }
    }
    proof {
        assert(gv.subrange(0, gv.len() as int) =~= gv);
        assert(out@ =~= enc_index(
            PartsV {
                cache_capacity,
                total_docs,
                total_tokens,
                docs: dv,
                postings: pv,
                tags: gv,
            },
        ));
    }
    out
}

/// Reads one occurrence position.
fn parse_pos(b: &Vec<u8>, pos: usize) -> (r: Option<(usize, usize)>)
    ensures
        match r {
            Some(x) => dec_pos(b@, pos as int) == Some((x.0, x.1 as int)) && x.1 <= b@.len(),
            None => dec_pos(b@, pos as int) is None,
        },
{
    match parse_u64(b, pos) {
        None => None,
        Some((v, p2)) => {
            if v <= usize::MAX as u64 {
                Some((v as usize, p2))
            } else {
                None
            }
        },
    }
}

/// Reads a counted position list.
fn parse_positions(b: &Vec<u8>, pos: usize) -> (r: Option<(Vec<usize>, usize)>)
    ensures
        match r {
            Some(x) => dec_counted(b@, pos as int, pos_dec()) == Some((x.0@, x.1 as int)) && x.1
                <= b@.len(),
            None => dec_counted(b@, pos as int, pos_dec()) is None,
        },
{
    let (n, p0) = match parse_u64(b, pos) {
        Some(x) => x,
        None => {
            return None;
        },
    };
    let ghost start = p0 as int;
    let mut out: Vec<usize> = Vec::new();
    let mut p: usize = p0;
    let mut i: u64 = 0;
    while i < n
        invariant
            i <= n,
            p <= b@.len(),
            dec_list(b@, start, n, pos_dec()) == (match dec_list(
                b@,
                p as int,
                (n - i) as u64,
                pos_dec(),
            ) {
                Some(x) => Some((out@ + x.0, x.1)),
                None => None,
            }),
        decreases n - i,
    {
        match parse_pos(b, p) {
            None => {
                proof {
                    assert(pos_dec()(b@, p as int) == dec_pos(b@, p as int));
                }
                return None;
            },
            Some((x, p2)) => {
                let ghost prev = out@;
                out.push(x);
                proof {
                    assert(pos_dec()(b@, p as int) == dec_pos(b@, p as int));
                    assert(out@ =~= prev.push(x));
                    assert forall|y: Seq<usize>| true implies prev + (seq![x] + y) =~= out@
                        + y by {}
                }
                p = p2;
                i = i + 1;
            },
        }
    }
    proof {
        assert(dec_list(b@, p as int, 0, pos_dec()) == Some((Seq::<usize>::empty(), p as int)));
        assert(out@ + Seq::<usize>::empty() =~= out@);
    }
    Some((out, p))
}

/// Reads one postings entry.
fn parse_entry(b: &Vec<u8>, pos: usize) -> (r: Option<(PostingEntry, usize)>)
    ensures
        match r {
            Some(x) => dec_entry(b@, pos as int) == Some((x.0@, x.1 as int)) && x.1 <= b@.len(),
            None => dec_entry(b@, pos as int) is None,
        },
{
    let (id, p1) = match parse_u32(b, pos) {
        Some(x) => x,
        None => {
            return None;
        },
    };
    match parse_positions(b, p1) {
        None => None,
        Some((ps, p2)) => Some((PostingEntry { doc_id: id, positions: ps }, p2)),
    }
}

/// Reads a counted entry list.
fn parse_entries(b: &Vec<u8>, pos: usize) -> (r: Option<(Vec<PostingEntry>, usize)>)
    ensures
        match r {
            Some(x) => dec_counted(b@, pos as int, entry_dec()) == Some(
                (x.0.deep_view(), x.1 as int),
            ) && x.1 <= b@.len(),
            None => dec_counted(b@, pos as int, entry_dec()) is None,
        },
{
    let (n, p0) = match parse_u64(b, pos) {
        Some(x) => x,
        None => {
            return None;
        },
    };
    let ghost start = p0 as int;
    let mut out: Vec<PostingEntry> = Vec::new();
    let mut p: usize = p0;
    let mut i: u64 = 0;
    while i < n
        invariant
            i <= n,
            p <= b@.len(),
            dec_list(b@, start, n, entry_dec()) == (match dec_list(
                b@,
                p as int,
                (n - i) as u64,
                entry_dec(),
            ) {
                Some(x) => Some((out.deep_view() + x.0, x.1)),
                None => None,
            }),
        decreases n - i,
    {
        match parse_entry(b, p) {
            None => {
                proof {
                    assert(entry_dec()(b@, p as int) == dec_entry(b@, p as int));
                }
                return None;
            },
            Some((x, p2)) => {
                let ghost prev = out.deep_view();
                let ghost xv = x@;
                out.push(x);
                proof {
                    assert(entry_dec()(b@, p as int) == dec_entry(b@, p as int));
                    assert(out.deep_view() =~= prev.push(xv));
                    assert forall|y: Seq<(u32, Seq<usize>)>| true implies prev + (seq![xv] + y)
                        =~= out.deep_view() + y by {}
                }
                p = p2;
                i = i + 1;
            },
        }
    }
    proof {
        assert(dec_list(b@, p as int, 0, entry_dec()) == Some(
            (Seq::<(u32, Seq<usize>)>::empty(), p as int),
        ));
        assert(out.deep_view() + Seq::<(u32, Seq<usize>)>::empty() =~= out.deep_view());
    }
    Some((out, p))
}

/// Reads one token's postings.
fn parse_post(b: &Vec<u8>, pos: usize) -> (r: Option<(TokenPostings, usize)>)
    ensures
        match r {
            Some(x) => dec_post(b@, pos as int) == Some((x.0@, x.1 as int)) && x.1 <= b@.len(),
            None => dec_post(b@, pos as int) is None,
        },
{
    let (t, p1) = match parse_str(b, pos) {
        Some(x) => x,
        None => {
            return None;
        },
    };
    match parse_entries(b, p1) {
        None => None,
        Some((es, p2)) => Some((TokenPostings { token: t, entries: es }, p2)),
    }
}

/// Reads the counted postings list.
fn parse_posts(b: &Vec<u8>, pos: usize) -> (r: Option<(Vec<TokenPostings>, usize)>)
    ensures
        match r {
            Some(x) => dec_counted(b@, pos as int, post_dec()) == Some(
                (x.0.deep_view(), x.1 as int),
            ) && x.1 <= b@.len(),
            None => dec_counted(b@, pos as int, post_dec()) is None,
        },
{
    let (n, p0) = match parse_u64(b, pos) {
        Some(x) => x,
        None => {
            return None;
        },
    };
    let ghost start = p0 as int;
    let mut out: Vec<TokenPostings> = Vec::new();
    let mut p: usize = p0;
    let mut i: u64 = 0;
    while i < n
        invariant
            i <= n,
            p <= b@.len(),
            dec_list(b@, start, n, post_dec()) == (match dec_list(
                b@,
                p as int,
                (n - i) as u64,
                post_dec(),
            ) {
                Some(x) => Some((out.deep_view() + x.0, x.1)),
                None => None,
            }),
        decreases n - i,
    {
        match parse_post(b, p) {
            None => {
                proof {
                    assert(post_dec()(b@, p as int) == dec_post(b@, p as int));
                }
                return None;
            },
            Some((x, p2)) => {
                let ghost prev = out.deep_view();
                let ghost xv = x@;
                out.push(x);
                proof {
                    assert(post_dec()(b@, p as int) == dec_post(b@, p as int));
                    assert(out.deep_view() =~= prev.push(xv));
                    assert forall|y: Seq<(Seq<char>, Seq<(u32, Seq<usize>)>)>| true implies prev
                        + (seq![xv] + y) =~= out.deep_view() + y by {}
                }
                p = p2;
                i = i + 1;
            },
        }
    }
    proof {
        assert(dec_list(b@, p as int, 0, post_dec()) == Some(
            (Seq::<(Seq<char>, Seq<(u32, Seq<usize>)>)>::empty(), p as int),
        ));
        assert(out.deep_view() + Seq::<(Seq<char>, Seq<(u32, Seq<usize>)>)>::empty()
            =~= out.deep_view());
    }
    Some((out, p))
}

/// Reads a counted id list.
fn parse_ids(b: &Vec<u8>, pos: usize) -> (r: Option<(Vec<u32>, usize)>)
    ensures
        match r {
            Some(x) => dec_counted(b@, pos as int, id_dec()) == Some((x.0@, x.1 as int)) && x.1
                <= b@.len(),
            None => dec_counted(b@, pos as int, id_dec()) is None,
        },
{
    let (n, p0) = match parse_u64(b, pos) {
        Some(x) => x,
        None => {
            return None;
        },
    };
    let ghost start = p0 as int;
    let mut out: Vec<u32> = Vec::new();
    let mut p: usize = p0;
    let mut i: u64 = 0;
    while i < n
        invariant
            i <= n,
            p <= b@.len(),
            dec_list(b@, start, n, id_dec()) == (match dec_list(
                b@,
                p as int,
                (n - i) as u64,
                id_dec(),
            ) {
                Some(x) => Some((out@ + x.0, x.1)),
                None => None,
            }),
        decreases n - i,
    {
        match parse_u32(b, p) {
            None => {
                proof {
                    assert(id_dec()(b@, p as int) == dec_u32(b@, p as int));
                }
                return None;
            },
            Some((x, p2)) => {
                let ghost prev = out@;
                out.push(x);
                proof {
                    assert(id_dec()(b@, p as int) == dec_u32(b@, p as int));
                    assert(out@ =~= prev.push(x));
                    assert forall|y: Seq<u32>| true implies prev + (seq![x] + y) =~= out@
                        + y by {}
                }
                p = p2;
                i = i + 1;
            },
        }
    }
    proof {
        assert(dec_list(b@, p as int, 0, id_dec()) == Some((Seq::<u32>::empty(), p as int)));
        assert(out@ + Seq::<u32>::empty() =~= out@);
    }
    Some((out, p))
}

/// Reads one tag entry.
fn parse_tagent(b: &Vec<u8>, pos: usize) -> (r: Option<(TagEntry, usize)>)
    ensures
        match r {
            Some(x) => dec_tagent(b@, pos as int) == Some((x.0@, x.1 as int)) && x.1 <= b@.len(),
            None => dec_tagent(b@, pos as int) is None,
        },
{
    let (t, p1) = match parse_str(b, pos) {
        Some(x) => x,
        None => {
            return None;
        },
    };
    match parse_ids(b, p1) {
        None => None,
        Some((ids, p2)) => Some((TagEntry { tag: t, ids }, p2)),
    }
}

/// Reads the counted tag list.
fn parse_tagents(b: &Vec<u8>, pos: usize) -> (r: Option<(Vec<TagEntry>, usize)>)
    ensures
        match r {
            Some(x) => dec_counted(b@, pos as int, tagent_dec()) == Some(
                (x.0.deep_view(), x.1 as int),
            ) && x.1 <= b@.len(),
            None => dec_counted(b@, pos as int, tagent_dec()) is None,
        },
{
    let (n, p0) = match parse_u64(b, pos) {
        Some(x) => x,
        None => {
            return None;
        },
    };
    let ghost start = p0 as int;
    let mut out: Vec<TagEntry> = Vec::new();
    let mut p: usize = p0;
    let mut i: u64 = 0;
    while i < n
        invariant
            i <= n,
            p <= b@.len(),
            dec_list(b@, start, n, tagent_dec()) == (match dec_list(
                b@,
                p as int,
                (n - i) as u64,
                tagent_dec(),
            ) {
                Some(x) => Some((out.deep_view() + x.0, x.1)),
                None => None,
            }),
        decreases n - i,
    {
        match parse_tagent(b, p) {
            None => {
                proof {
                    assert(tagent_dec()(b@, p as int) == dec_tagent(b@, p as int));
                }
                return None;
            },
            Some((x, p2)) => {
                let ghost prev = out.deep_view();
                let ghost xv = x@;
                out.push(x);
                proof {
                    assert(tagent_dec()(b@, p as int) == dec_tagent(b@, p as int));
                    assert(out.deep_view() =~= prev.push(xv));
                    assert forall|y: Seq<(Seq<char>, Seq<u32>)>| true implies prev + (seq![xv]
                        + y) =~= out.deep_view() + y by {}
                }
                p = p2;
                i = i + 1;
            },
        }
    }
    proof {
        assert(dec_list(b@, p as int, 0, tagent_dec()) == Some(
            (Seq::<(Seq<char>, Seq<u32>)>::empty(), p as int),
        ));
        assert(out.deep_view() + Seq::<(Seq<char>, Seq<u32>)>::empty() =~= out.deep_view());
    }
    Some((out, p))
}

/// Reads a counted string list.
fn parse_strings(b: &Vec<u8>, pos: usize) -> (r: Option<(Vec<String>, usize)>)
    ensures
        match r {
            Some(x) => dec_counted(b@, pos as int, str_dec()) == Some(
                (x.0.deep_view(), x.1 as int),
            ) && x.1 <= b@.len(),
            None => dec_counted(b@, pos as int, str_dec()) is None,
        },
{
    let (n, p0) = match parse_u64(b, pos) {
        Some(x) => x,
        None => {
            return None;
        },
    };
    let ghost start = p0 as int;
    let mut out: Vec<String> = Vec::new();
    let mut p: usize = p0;
    let mut i: u64 = 0;
    while i < n
        invariant
            i <= n,
            p <= b@.len(),
            dec_list(b@, start, n, str_dec()) == (match dec_list(
                b@,
                p as int,
                (n - i) as u64,
                str_dec(),
            ) {
                Some(x) => Some((out.deep_view() + x.0, x.1)),
                None => None,
            }),
        decreases n - i,
    {
        match parse_str(b, p) {
            None => {
                proof {
                    assert(str_dec()(b@, p as int) == dec_str(b@, p as int));
                }
                return None;
            },
            Some((x, p2)) => {
                let ghost prev = out.deep_view();
                let ghost xv = x@;
                out.push(x);
                proof {
                    assert(str_dec()(b@, p as int) == dec_str(b@, p as int));
                    assert(out.deep_view() =~= prev.push(xv));
                    assert forall|y: Seq<Seq<char>>| true implies prev + (seq![xv] + y)
                        =~= out.deep_view() + y by {}
                }
                p = p2;
                i = i + 1;
            },
        }
    }
    proof {
        assert(dec_list(b@, p as int, 0, str_dec()) == Some(
            (Seq::<Seq<char>>::empty(), p as int),
        ));
        assert(out.deep_view() + Seq::<Seq<char>>::empty() =~= out.deep_view());
    }
    Some((out, p))
}

/// Reads one document record.
fn parse_doc(b: &Vec<u8>, pos: usize) -> (r: Option<(Document, usize)>)
    ensures
        match r {
            Some(x) => dec_doc(b@, pos as int) == Some((x.0@, x.1 as int)) && x.1 <= b@.len(),
            None => dec_doc(b@, pos as int) is None,
        },
{
    let (id, p1) = match parse_u32(b, pos) {
        Some(x) => x,
        None => {
            return None;
        },
    };
    let (path, p2) = match parse_str(b, p1) {
        Some(x) => x,
        None => {
            return None;
        },
    };
    let (title, p3) = match parse_str(b, p2) {
        Some(x) => x,
        None => {
            return None;
        },
    };
    let (content, p4) = match parse_str(b, p3) {
        Some(x) => x,
        None => {
            return None;
        },
    };
    let (tags, p5) = match parse_strings(b, p4) {
        Some(x) => x,
        None => {
            return None;
        },
    };
    let (nt, p6) = match parse_u64(b, p5) {
        Some(x) => x,
        None => {
            return None;
        },
    };
    if nt > usize::MAX as u64 {
        return None;
    }
    let (mt, p7) = match parse_u64(b, p6) {
        Some(x) => x,
        None => {
            return None;
        },
    };
    let d = Document {
        id,
        path,
        title,
        content,
        tags,
        num_tokens: nt as usize,
        modified_time: mt,
    };
    Some((d, p7))
}

/// Reads the counted document list.
fn parse_docs(b: &Vec<u8>, pos: usize) -> (r: Option<(Vec<Document>, usize)>)
    ensures
        match r {
            Some(x) => dec_counted(b@, pos as int, doc_dec()) == Some(
                (x.0.deep_view(), x.1 as int),
            ) && x.1 <= b@.len(),
            None => dec_counted(b@, pos as int, doc_dec()) is None,
        },
{
    let (n, p0) = match parse_u64(b, pos) {
        Some(x) => x,
        None => {
            return None;
        },
    };
    let ghost start = p0 as int;
    let mut out: Vec<Document> = Vec::new();
    let mut p: usize = p0;
    let mut i: u64 = 0;
    while i < n
        invariant
            i <= n,
            p <= b@.len(),
            dec_list(b@, start, n, doc_dec()) == (match dec_list(
                b@,
                p as int,
                (n - i) as u64,
                doc_dec(),
            ) {
                Some(x) => Some((out.deep_view() + x.0, x.1)),
                None => None,
            }),
        decreases n - i,
    {
        match parse_doc(b, p) {
            None => {
                proof {
                    assert(doc_dec()(b@, p as int) == dec_doc(b@, p as int));
                }
                return None;
            },
            Some((x, p2)) => {
                let ghost prev = out.deep_view();
                let ghost xv = x@;
                out.push(x);
                proof {
                    assert(doc_dec()(b@, p as int) == dec_doc(b@, p as int));
                    assert(out.deep_view() =~= prev.push(xv));
                    assert forall|y: Seq<DocumentV>| true implies prev + (seq![xv] + y)
                        =~= out.deep_view() + y by {}
                }
                p = p2;
                i = i + 1;
            },
        }
    }
    proof {
        assert(dec_list(b@, p as int, 0, doc_dec()) == Some(
            (Seq::<DocumentV>::empty(), p as int),
        ));
        assert(out.deep_view() + Seq::<DocumentV>::empty() =~= out.deep_view());
    }
    Some((out, p))
}

/// Reads the persisted parts of an index from a blob.
pub fn parse_index(b: &Vec<u8>) -> (r: Option<DecodedIndex>)
    ensures
        match r {
            Some(d) => dec_index(b@) == Some(d@),
            None => dec_index(b@) is None,
        },
{
    let (cap, p1) = match parse_u64(b, 0) {
        Some(x) => x,
        None => {
            return None;
        },
    };
    let (td, p2) = match parse_u64(b, p1) {
        Some(x) => x,
        None => {
            return None;
        },
    };
    let (tt, p3) = match parse_u64(b, p2) {
        Some(x) => x,
        None => {
            return None;
        },
    };
    let (docs, p4) = match parse_docs(b, p3) {
        Some(x) => x,
        None => {
            return None;
        },
    };
    let (posts, p5) = match parse_posts(b, p4) {
        Some(x) => x,
        None => {
            return None;
        },
    };
    let (tags, _p6) = match parse_tagents(b, p5) {
        Some(x) => x,
        None => {
            return None;
        },
    };
    let d = DecodedIndex {
        cache_capacity: cap,
        total_docs: td,
        total_tokens: tt,
        documents: docs,
        postings: PostingsIndex { items: posts },
        tags: TagIndex { items: tags },
    };
    proof {
        assert(dec_index(b@) == Some(d@)) by {
            assert(d@ =~~= dec_index(b@).unwrap());
        }
    }
    Some(d)
}

proof fn lemma_enc_chars_first(s: Seq<char>)
    requires
        s.len() > 0,
    ensures
        enc_chars(s) == le32(s.first() as u32) + enc_chars(s.drop_first()),
    decreases s.len(),
{
    if s.len() == 1 {
        assert(s.drop_last() =~= Seq::<char>::empty());
        assert(s.drop_first() =~= Seq::<char>::empty());
        assert(s.last() == s.first());
        assert(enc_chars(s) =~= le32(s.first() as u32) + enc_chars(s.drop_first()));
    } else {
        lemma_enc_chars_first(s.drop_last());
        assert(s.drop_last().first() == s.first());
        assert(s.drop_last().drop_first() =~= s.drop_first().drop_last());
        assert(s.drop_first().last() == s.last());
        assert(enc_chars(s) == enc_chars(s.drop_last()) + le32(s.last() as u32));
        assert(enc_chars(s.drop_first()) == enc_chars(s.drop_first().drop_last()) + le32(
            s.last() as u32,
        ));
        assert(enc_chars(s) =~= le32(s.first() as u32) + enc_chars(s.drop_first()));
    }
}

} // verus!
