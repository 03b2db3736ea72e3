//! The text tokenizer: ASCII case folding, splitting on non-word characters,
//! stop-word removal and stemming. Stemming and the stop-word list come from
//! outside collaborators; the split-and-filter pipeline around them is
//! verified, so the token stream of a text is pinned down by the spec
//! functions below.

use vstd::prelude::*;

use crate::text::{chars_of, chars_to_string, is_word_char, lower_chars, lower_vec, word_char};

verus! {

/// The stem of one lowercased word. The value is fixed by the English
/// Snowball stemmer: it depends on the word alone.
pub uninterp spec fn stem_of(w: Seq<char>) -> Seq<char>;

/// Whether a lowercased word is an English stop word. The value is fixed by
/// the English stop-word list: it depends on the word alone.
pub uninterp spec fn stop_word(w: Seq<char>) -> bool;

/// Relies on `rust_stemmers::Stemmer::create(Algorithm::English)` and
/// `Stemmer::stem`: the Snowball English stemmer is a pure function of the
/// word it is given.
#[verifier::external_body]
fn stem_word(w: &str) -> (r: String)
    ensures
        r@ == stem_of(w@),
{
    rust_stemmers::Stemmer::create(rust_stemmers::Algorithm::English).stem(w).to_string()
}

/// Relies on `stop_words::get`: the English stop-word list is a fixed table,
/// so membership depends on the word alone.
#[verifier::external_body]
fn is_stop_word(w: &str) -> (r: bool)
    ensures
        r == stop_word(w@),
{
    stop_words::get(stop_words::LANGUAGE::English).iter().any(|s| *s == w)
}

/// The state of the word splitter after reading `s`: the words already
/// completed, and the partial word still being read.
pub open spec fn split_state(s: Seq<char>) -> (Seq<Seq<char>>, Seq<char>)
    decreases s.len(),
{
    if s.len() == 0 {
        (Seq::empty(), Seq::empty())
    } else {
        let st = split_state(s.drop_last());
        let c = s.last();
        if word_char(c) {
            (st.0, st.1.push(c))
        } else if st.1.len() > 0 {
            (st.0.push(st.1), Seq::empty())
        } else {
            st
        }
    }
}

/// The maximal runs of word characters in `s`, in order.
pub open spec fn words_of(s: Seq<char>) -> Seq<Seq<char>> {
    let st = split_state(s);
    if st.1.len() > 0 {
        st.0.push(st.1)
    } else {
        st.0
    }
}

/// The tokens produced from a word list: stop words are dropped and every
/// remaining word is replaced by its stem.
pub open spec fn token_list(words: Seq<Seq<char>>) -> Seq<Seq<char>>
    decreases words.len(),
{
    if words.len() == 0 {
        Seq::empty()
    } else {
        let rest = token_list(words.drop_last());
        if stop_word(words.last()) {
            rest
        } else {
            rest.push(stem_of(words.last()))
        }
    }
}

/// The token stream of a text: the text is case-folded, split into words,
/// stop words are dropped, and each remaining word is stemmed. A token's
/// position is its index in this sequence.
pub open spec fn tokens_of(text: Seq<char>) -> Seq<Seq<char>> {
    token_list(words_of(lower_chars(text)))
}

proof fn lemma_token_list_len(ws: Seq<Seq<char>>)
    ensures
        token_list(ws).len() <= ws.len(),
    decreases ws.len(),
{
    if ws.len() > 0 {
        lemma_token_list_len(ws.drop_last());
    }
}

proof fn lemma_split_count(s: Seq<char>)
    ensures
        split_state(s).0.len() + (if split_state(s).1.len() > 0 {
            1int
        } else {
            0int
        }) <= s.len(),
    decreases s.len(),
{
    if s.len() > 0 {
        lemma_split_count(s.drop_last());
    }
}

/// A text has no more tokens than characters.
pub proof fn lemma_tokens_len(text: Seq<char>)
    ensures
        tokens_of(text).len() <= text.len(),
{
    lemma_token_list_len(words_of(lower_chars(text)));
    lemma_split_count(lower_chars(text));
}

/// Splits an already lowercased character sequence into its words.
fn split_words(v: &Vec<char>) -> (r: Vec<String>)
    ensures
        r.deep_view() == words_of(v@),
{
    let mut ws: Vec<String> = Vec::new();
    let mut cur: Vec<char> = Vec::new();
    let mut i: usize = 0;
    while i < v.len()
        invariant
            i <= v@.len(),
            ws.deep_view() == split_state(v@.subrange(0, i as int)).0,
            cur@ == split_state(v@.subrange(0, i as int)).1,
        decreases v@.len() - i,
    {
        let ghost pre = v@.subrange(0, i as int);
        let ghost post = v@.subrange(0, i + 1 as int);
        proof {
            assert(post.drop_last() =~= pre);
            assert(post.last() == v@[i as int]);
        }
        let c = v[i];
        if is_word_char(c) {
            cur.push(c);
        } else if cur.len() > 0 {
            let w = chars_to_string(&cur);
            ws.push(w);
            proof {
                assert(ws.deep_view() =~= split_state(post).0);
            }
            cur = Vec::new();
        }
        i = i + 1;
    }
    proof {
        assert(v@.subrange(0, v@.len() as int) =~= v@);
    }
    if cur.len() > 0 {
        let w = chars_to_string(&cur);
        ws.push(w);
        proof {
            assert(ws.deep_view() =~= words_of(v@));
        }
    }
    ws
}

/// Tokenizes a text: case folding, word splitting, stop-word removal and
/// stemming, in that order. The result is exactly `tokens_of(text@)`.
pub fn tokenize(text: &str) -> (r: Vec<String>)
    ensures
        r.deep_view() == tokens_of(text@),
{
    let cs = chars_of(text);
    let low = lower_vec(&cs);
    let words = split_words(&low);
    let ghost wseq = words.deep_view();
    let mut out: Vec<String> = Vec::new();
    let mut i: usize = 0;
    while i < words.len()
        invariant
            i <= words@.len(),
            wseq == words.deep_view(),
            wseq.len() == words@.len(),
            forall|j: int| 0 <= j < words@.len() ==> wseq[j] == words@[j]@,
            out.deep_view() == token_list(wseq.subrange(0, i as int)),
        decreases words@.len() - i,
    {
        let ghost pre = wseq.subrange(0, i as int);
        let ghost post = wseq.subrange(0, i + 1 as int);
        proof {
            assert(post.drop_last() =~= pre);
            assert(post.last() == wseq[i as int]);
        }
        let w = &words[i];
        if !is_stop_word(w.as_str()) {
            let s = stem_word(w.as_str());
            out.push(s);
            proof {
                assert(out.deep_view() =~= token_list(post));
            }
        }
        i = i + 1;
    }
    proof {
        assert(wseq.subrange(0, wseq.len() as int) =~= wseq);
    }
    out
}

} // verus!
