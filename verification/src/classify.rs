//! The query classifier: a raw query string is read as exactly one of a tag
//! lookup, a phrase query, or a keyword query, first match wins. Keyword
//! words ending in `*` are wildcard terms and expand to every indexed token
//! with the stemmed prefix.

use vstd::prelude::*;

use crate::text::{
    chars_of, chars_to_string, is_white_char, is_word_char, lower_chars, lower_vec, str_starts_with,
    is_prefix, white_char, word_char,
};
use crate::tokenizer::{tokenize, tokens_of};

verus! {

/// A classified query.
pub enum Query {
    /// The empty query: no results, unconditionally.
    Empty,
    /// A tag lookup with the normalized (trimmed, lowercased) tag name.
    Tag(String),
    /// A phrase query with the text between the quotes.
    Phrase(String),
    /// A keyword query: each term with a flag telling whether it came from
    /// a wildcard expansion (such terms are not eligible for fuzzy fallback).
    Keyword(Vec<(String, bool)>),
}

/// The mathematical value of a classified query.
pub ghost enum QueryV {
    Empty,
    Tag(Seq<char>),
    Phrase(Seq<char>),
    Keyword(Seq<(Seq<char>, bool)>),
}

/// The mathematical value of a term list.
pub open spec fn terms_view(v: Seq<(String, bool)>) -> Seq<(Seq<char>, bool)> {
    v.map_values(|p: (String, bool)| (p.0@, p.1))
}

impl View for Query {
    type V = QueryV;

    open spec fn view(&self) -> QueryV {
        match self {
            Query::Empty => QueryV::Empty,
            Query::Tag(t) => QueryV::Tag(t@),
            Query::Phrase(p) => QueryV::Phrase(p@),
            Query::Keyword(ts) => QueryV::Keyword(terms_view(ts@)),
        }
    }
}

pub proof fn lemma_terms_view_push(s: Seq<(String, bool)>, p: (String, bool))
    ensures
        terms_view(s.push(p)) == terms_view(s).push((p.0@, p.1)),
{
    assert(terms_view(s.push(p)) =~= terms_view(s).push((p.0@, p.1)));
}

/// The sequence without its leading whitespace.
pub open spec fn trim_start_spec(s: Seq<char>) -> Seq<char>
    decreases s.len(),
{
    if s.len() > 0 && white_char(s.first()) {
        trim_start_spec(s.drop_first())
    } else {
        s
    }
}

/// The sequence without its trailing whitespace.
pub open spec fn trim_end_spec(s: Seq<char>) -> Seq<char>
    decreases s.len(),
{
    if s.len() > 0 && white_char(s.last()) {
        trim_end_spec(s.drop_last())
    } else {
        s
    }
}

/// The sequence without leading and trailing whitespace.
pub open spec fn trim_spec(s: Seq<char>) -> Seq<char> {
    trim_end_spec(trim_start_spec(s))
}

/// State of the whitespace splitter: completed words and the partial word.
pub open spec fn wsplit_state(s: Seq<char>) -> (Seq<Seq<char>>, Seq<char>)
    decreases s.len(),
{
    if s.len() == 0 {
        (Seq::empty(), Seq::empty())
    } else {
        let st = wsplit_state(s.drop_last());
        let c = s.last();
        if !white_char(c) {
            (st.0, st.1.push(c))
        } else if st.1.len() > 0 {
            (st.0.push(st.1), Seq::empty())
        } else {
            st
        }
    }
}

/// The whitespace-delimited words of `s`, in order.
pub open spec fn wwords_of(s: Seq<char>) -> Seq<Seq<char>> {
    let st = wsplit_state(s);
    if st.1.len() > 0 {
        st.0.push(st.1)
    } else {
        st.0
    }
}

/// A word with trailing characters that are neither word characters nor `*`
/// removed.
pub open spec fn clean_word(w: Seq<char>) -> Seq<char>
    decreases w.len(),
{
    if w.len() > 0 && !(word_char(w.last()) || w.last() == '*') {
        clean_word(w.drop_last())
    } else {
        w
    }
}

/// The wildcard expansion of one stemmed prefix part: every indexed token
/// starting with it, in index order, marked as wildcard-born.
pub open spec fn expand_prefix(toks: Seq<Seq<char>>, p: Seq<char>) -> Seq<(Seq<char>, bool)>
    decreases toks.len(),
{
    if toks.len() == 0 {
        Seq::empty()
    } else {
        let rest = expand_prefix(toks.drop_last(), p);
        if is_prefix(p, toks.last()) {
            rest.push((toks.last(), true))
        } else {
            rest
        }
    }
}

/// The wildcard expansion of all stemmed prefix parts, in order.
pub open spec fn expand_parts(toks: Seq<Seq<char>>, parts: Seq<Seq<char>>) -> Seq<
    (Seq<char>, bool),
>
    decreases parts.len(),
{
    if parts.len() == 0 {
        Seq::empty()
    } else {
        expand_parts(toks, parts.drop_last()) + expand_prefix(toks, parts.last())
    }
}

/// The literal (fuzzy-eligible) terms of a tokenized word: its nonempty
/// tokens.
pub open spec fn literal_terms(ts: Seq<Seq<char>>) -> Seq<(Seq<char>, bool)>
    decreases ts.len(),
{
    if ts.len() == 0 {
        Seq::empty()
    } else {
        let rest = literal_terms(ts.drop_last());
        if ts.last().len() > 0 {
            rest.push((ts.last(), false))
        } else {
            rest
        }
    }
}

/// The search terms of one query word.
pub open spec fn word_terms(w: Seq<char>, toks: Seq<Seq<char>>) -> Seq<(Seq<char>, bool)> {
    let c = clean_word(w);
    if c.len() > 1 && c.last() == '*' {
        expand_parts(toks, tokens_of(c.drop_last()))
    } else {
        literal_terms(tokens_of(c))
    }
}

/// The search terms of a word list, concatenated in order.
pub open spec fn keyword_terms(words: Seq<Seq<char>>, toks: Seq<Seq<char>>) -> Seq<
    (Seq<char>, bool),
>
    decreases words.len(),
{
    if words.len() == 0 {
        Seq::empty()
    } else {
        keyword_terms(words.drop_last(), toks) + word_terms(words.last(), toks)
    }
}

/// Classification of a raw query against the indexed token list: a leading
/// `#` makes a tag lookup, enclosing double quotes make a phrase, anything
/// else is a keyword query over the lowercased, whitespace-split words.
pub open spec fn classify_spec(q: Seq<char>, toks: Seq<Seq<char>>) -> QueryV {
    if q.len() == 0 {
        QueryV::Empty
    } else if q.first() == '#' {
        QueryV::Tag(lower_chars(trim_spec(q.drop_first())))
    } else if q.first() == '"' && q.last() == '"' && q.len() > 1 {
        QueryV::Phrase(q.subrange(1, q.len() - 1))
    } else {
        QueryV::Keyword(keyword_terms(wwords_of(lower_chars(q)), toks))
    }
}

/// Trims whitespace from both ends of a character sequence.
fn trim_chars(v: &Vec<char>) -> (r: Vec<char>)
    ensures
        r@ == trim_spec(v@),
{
    let n = v.len();
    proof {
        assert(v@.subrange(0, n as int) =~= v@);
    }
    let mut start: usize = 0;
    while start < n && is_white_char(v[start])
        invariant
            start <= n,
            trim_start_spec(v@) == trim_start_spec(v@.subrange(start as int, n as int)),
        decreases n - start,
    {
        proof {
            let cur = v@.subrange(start as int, n as int);
            assert(cur.first() == v@[start as int]);
            assert(cur.drop_first() =~= v@.subrange(start + 1 as int, n as int));
        }
        start = start + 1;
    }
    proof {
        let cur = v@.subrange(start as int, n as int);
        if start < n {
            assert(cur.first() == v@[start as int]);
        }
        assert(trim_start_spec(v@) == cur);
    }
    let mut end: usize = n;
    while end > start && is_white_char(v[end - 1])
        invariant
            start <= end <= n,
            trim_spec(v@) == trim_end_spec(v@.subrange(start as int, end as int)),
        decreases end,
    {
        proof {
            let cur = v@.subrange(start as int, end as int);
            assert(cur.last() == v@[end - 1]);
            assert(cur.drop_last() =~= v@.subrange(start as int, end - 1));
        }
        end = end - 1;
    }
    proof {
        let cur = v@.subrange(start as int, end as int);
        if end > start {
            assert(cur.last() == v@[end - 1]);
        }
        assert(trim_spec(v@) == cur);
    }
    let mut r: Vec<char> = Vec::new();
    let mut i: usize = start;
    while i < end
        invariant
            start <= i <= end,
            r@ == v@.subrange(start as int, i as int),
        decreases end - i,
    {
        r.push(v[i]);
        i = i + 1;
        proof {
            assert(r@ =~= v@.subrange(start as int, i as int));
        }
    }
    r
}

/// Removes trailing characters that are neither word characters nor `*`.
fn clean_chars(v: &Vec<char>) -> (r: Vec<char>)
    ensures
        r@ == clean_word(v@),
{
    let mut end: usize = v.len();
    proof {
        assert(v@.subrange(0, end as int) =~= v@);
    }
    while end > 0 && !(is_word_char(v[end - 1]) || v[end - 1] == '*')
        invariant
            end <= v@.len(),
            clean_word(v@) == clean_word(v@.subrange(0, end as int)),
        decreases end,
    {
        proof {
            let cur = v@.subrange(0, end as int);
            assert(cur.last() == v@[end - 1]);
            assert(cur.drop_last() =~= v@.subrange(0, end - 1));
        }
        end = end - 1;
    }
    proof {
        let cur = v@.subrange(0, end as int);
        if end > 0 {
            assert(cur.last() == v@[end - 1]);
        }
        assert(clean_word(v@) == cur);
    }
    let mut r: Vec<char> = Vec::new();
    let mut i: usize = 0;
    while i < end
        invariant
            i <= end <= v@.len(),
            r@ == v@.subrange(0, i as int),
        decreases end - i,
    {
        r.push(v[i]);
        i = i + 1;
        proof {
            assert(r@ =~= v@.subrange(0, i as int));
        }
    }
    r
}

/// Splits an already lowercased character sequence at whitespace.
fn wsplit_words(v: &Vec<char>) -> (r: Vec<String>)
    ensures
        r.deep_view() == wwords_of(v@),
{
    let mut ws: Vec<String> = Vec::new();
    let mut cur: Vec<char> = Vec::new();
    let mut i: usize = 0;
    while i < v.len()
        invariant
            i <= v@.len(),
            ws.deep_view() == wsplit_state(v@.subrange(0, i as int)).0,
            cur@ == wsplit_state(v@.subrange(0, i as int)).1,
        decreases v@.len() - i,
    {
        let ghost pre = v@.subrange(0, i as int);
        let ghost post = v@.subrange(0, i + 1 as int);
        proof {
            assert(post.drop_last() =~= pre);
            assert(post.last() == v@[i as int]);
        }
        let c = v[i];
        if !is_white_char(c) {
            cur.push(c);
        } else if cur.len() > 0 {
            let w = chars_to_string(&cur);
            ws.push(w);
            proof {
                assert(ws.deep_view() =~= wsplit_state(post).0);
            }
            cur = Vec::new();
        }
        i = i + 1;
    }
    proof {
        assert(v@.subrange(0, v@.len() as int) =~= v@);
    }
    if cur.len() > 0 {
        let w = chars_to_string(&cur);
        ws.push(w);
        proof {
            assert(ws.deep_view() =~= wwords_of(v@));
        }
    }
    ws
}

/// Collects the search terms of one query word into `out`.
fn push_word_terms(out: &mut Vec<(String, bool)>, w: &str, indexed: &Vec<String>)
    ensures
        terms_view(final(out)@) == terms_view(old(out)@) + word_terms(
            w@,
            indexed.deep_view(),
        ),
{
    let ghost toks = indexed.deep_view();
    let ghost base = terms_view(old(out)@);
    let wc = chars_of(w);
    let cleaned = clean_chars(&wc);
    let n = cleaned.len();
    if n > 1 && cleaned[n - 1] == '*' {
        let mut prefix: Vec<char> = Vec::new();
        let mut i: usize = 0;
        while i < n - 1
            invariant
                n == cleaned@.len(),
                i <= n - 1,
                prefix@ == cleaned@.subrange(0, i as int),
            decreases n - 1 - i,
        {
            prefix.push(cleaned[i]);
            i = i + 1;
            proof {
                assert(prefix@ =~= cleaned@.subrange(0, i as int));
            }
        }
        proof {
            assert(cleaned@.drop_last() =~= cleaned@.subrange(0, n - 1));
        }
        let prefix_s = chars_to_string(&prefix);
        let parts = tokenize(prefix_s.as_str());
        let ghost pv = parts.deep_view();
        let mut k: usize = 0;
        while k < parts.len()
            invariant
                k <= parts@.len(),
                pv == parts.deep_view(),
                pv == tokens_of(clean_word(w@).drop_last()),
                terms_view(out@) == base + expand_parts(toks, pv.subrange(0, k as int)),
            decreases parts@.len() - k,
        {
            let ghost ppre = pv.subrange(0, k as int);
            let ghost ppost = pv.subrange(0, k + 1 as int);
            proof {
                assert(ppost.drop_last() =~= ppre);
                assert(ppost.last() == pv[k as int]);
                assert(pv[k as int] == parts@[k as int]@);
            }
            let part = &parts[k];
            let mut m: usize = 0;
            while m < indexed.len()
                invariant
                    m <= indexed@.len(),
                    k < parts@.len(),
                    pv == parts.deep_view(),
                    part@ == pv[k as int],
                    terms_view(out@) == base + expand_parts(toks, pv.subrange(0, k as int))
                        + expand_prefix(toks.subrange(0, m as int), pv[k as int]),
                decreases indexed@.len() - m,
            {
                let ghost tpre = toks.subrange(0, m as int);
                let ghost tpost = toks.subrange(0, m + 1 as int);
                proof {
                    assert(tpost.drop_last() =~= tpre);
                    assert(tpost.last() == toks[m as int]);
                    assert(toks[m as int] == indexed@[m as int]@);
                }
                let tok = &indexed[m];
                if str_starts_with(tok.as_str(), part.as_str()) {
                    let ghost prev = out@;
                    out.push((tok.clone(), true));
                    proof {
                        let x = out@.last();
                        assert(out@ == prev.push(x));
                        lemma_terms_view_push(prev, x);
                        assert(x.0@ == toks[m as int] && x.1 == true);
                        assert(expand_prefix(tpost, pv[k as int]) == expand_prefix(
                            tpre,
                            pv[k as int],
                        ).push((toks[m as int], true)));
                        assert(terms_view(out@) =~~= base + expand_parts(
                            toks,
                            pv.subrange(0, k as int),
                        ) + expand_prefix(tpost, pv[k as int]));
                    }
                } else {
                    proof {
                        assert(expand_prefix(tpost, pv[k as int]) =~= expand_prefix(
                            tpre,
                            pv[k as int],
                        ));
                    }
                }
                m = m + 1;
            }
            proof {
                assert(toks.subrange(0, toks.len() as int) =~= toks);
                assert(base + expand_parts(toks, ppre) + expand_prefix(toks, pv[k as int])
                    =~~= base + expand_parts(toks, ppost));
            }
            k = k + 1;
        }
        proof {
            assert(pv.subrange(0, pv.len() as int) =~= pv);
            assert(clean_word(w@).len() > 1 && clean_word(w@).last() == '*');
        }
    } else {
        let cleaned_s = chars_to_string(&cleaned);
        let ts = tokenize(cleaned_s.as_str());
        let ghost tv = ts.deep_view();
        let mut k: usize = 0;
        while k < ts.len()
            invariant
                k <= ts@.len(),
                tv == ts.deep_view(),
                tv == tokens_of(clean_word(w@)),
                terms_view(out@) == base + literal_terms(tv.subrange(0, k as int)),
            decreases ts@.len() - k,
        {
            let ghost tpre = tv.subrange(0, k as int);
            let ghost tpost = tv.subrange(0, k + 1 as int);
            proof {
                assert(tpost.drop_last() =~= tpre);
                assert(tpost.last() == tv[k as int]);
                assert(tv[k as int] == ts@[k as int]@);
            }
            let t = &ts[k];
            if t.as_str().unicode_len() > 0 {
                let ghost prev = out@;
                out.push((t.clone(), false));
                proof {
                    let x = out@.last();
                    assert(out@ == prev.push(x));
                    lemma_terms_view_push(prev, x);
                    assert(x.0@ == tv[k as int] && x.1 == false);
                    assert(literal_terms(tpost) == literal_terms(tpre).push((tv[k as int], false)));
                    assert(terms_view(out@) =~~= base + literal_terms(tpost));
                }
            } else {
                proof {
                    assert(literal_terms(tpost) =~= literal_terms(tpre));
                }
            }
            k = k + 1;
        }
        proof {
            assert(tv.subrange(0, tv.len() as int) =~= tv);
            assert(!(clean_word(w@).len() > 1 && clean_word(w@).last() == '*'));
        }
    }
}

/// Classifies a raw query string against the indexed tokens.
pub fn classify(q: &str, indexed: &Vec<String>) -> (r: Query)
    ensures
        r@ == classify_spec(q@, indexed.deep_view()),
{
    let qc = chars_of(q);
    let n = qc.len();
    if n == 0 {
        return Query::Empty;
    }
    if qc[0] == '#' {
        let mut tail: Vec<char> = Vec::new();
        let mut i: usize = 1;
        while i < n
            invariant
                1 <= i <= n,
                n == qc@.len(),
                tail@ == qc@.subrange(1, i as int),
            decreases n - i,
        {
            tail.push(qc[i]);
            i = i + 1;
            proof {
                assert(tail@ =~= qc@.subrange(1, i as int));
            }
        }
        proof {
            assert(tail@ =~= q@.drop_first());
        }
        let trimmed = trim_chars(&tail);
        let lowered = lower_vec(&trimmed);
        return Query::Tag(chars_to_string(&lowered));
    }
    if qc[0] == '"' && qc[n - 1] == '"' && n > 1 {
        let mut interior: Vec<char> = Vec::new();
        let mut i: usize = 1;
        while i < n - 1
            invariant
                1 <= i <= n - 1,
                n == qc@.len(),
                n > 1,
                interior@ == qc@.subrange(1, i as int),
            decreases n - 1 - i,
        {
            interior.push(qc[i]);
            i = i + 1;
            proof {
                assert(interior@ =~= qc@.subrange(1, i as int));
            }
        }
        return Query::Phrase(chars_to_string(&interior));
    }
    let low = lower_vec(&qc);
    let words = wsplit_words(&low);
    let ghost wv = words.deep_view();
    let mut terms: Vec<(String, bool)> = Vec::new();
    let mut i: usize = 0;
    while i < words.len()
        invariant
            i <= words@.len(),
            wv == words.deep_view(),
            terms_view(terms@) == keyword_terms(wv.subrange(0, i as int), indexed.deep_view()),
        decreases words@.len() - i,
    {
        let ghost pre = wv.subrange(0, i as int);
        let ghost post = wv.subrange(0, i + 1 as int);
        proof {
            assert(post.drop_last() =~= pre);
            assert(post.last() == wv[i as int]);
            assert(wv[i as int] == words@[i as int]@);
        }
        let w = &words[i];
        push_word_terms(&mut terms, w.as_str(), indexed);
        i = i + 1;
    }
    proof {
        assert(wv.subrange(0, wv.len() as int) =~= wv);
    }
    Query::Keyword(terms)
}

} // verus!
