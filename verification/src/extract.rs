//! Derivation of document metadata from plain values: the tag set is
//! scanned out of the extracted content (`#word` patterns, lowercased), and
//! the title is the file name without directory and extension.

use vstd::prelude::*;

use crate::text::{
    chars_of, chars_to_string, is_word_char, lower_chars, lower_vec, word_char,
};

verus! {

/// Characters a tag is made of: word characters and the underscore.
pub open spec fn tag_char(c: char) -> bool {
    word_char(c) || c == '_'
}

fn is_tag_char(c: char) -> (r: bool)
    ensures
        r == tag_char(c),
{
    is_word_char(c) || c == '_'
}

/// The state of the tag scanner after reading a prefix: the tags already
/// completed, and the partial tag being read after a `#`, if any.
pub open spec fn tag_state(s: Seq<char>) -> (Seq<Seq<char>>, Option<Seq<char>>)
    decreases s.len(),
{
    if s.len() == 0 {
        (Seq::empty(), None)
    } else {
        let st = tag_state(s.drop_last());
        let c = s.last();
        match st.1 {
            Some(p) => if tag_char(c) {
                (st.0, Some(p.push(c)))
            } else if p.len() > 0 {
                (st.0.push(p), if c == '#' {
                    Some(Seq::empty())
                } else {
                    None
                })
            } else {
                (st.0, if c == '#' {
                    Some(Seq::empty())
                } else {
                    None
                })
            },
            None => (st.0, if c == '#' {
                Some(Seq::empty())
            } else {
                None
            }),
        }
    }
}

/// The raw `#word` tags of a text, in order of occurrence.
pub open spec fn raw_tags(s: Seq<char>) -> Seq<Seq<char>> {
    let st = tag_state(s);
    match st.1 {
        Some(p) => if p.len() > 0 {
            st.0.push(p)
        } else {
            st.0
        },
        None => st.0,
    }
}

/// The tags of a text: each `#word` occurrence, lowercased.
pub open spec fn tags_of(s: Seq<char>) -> Seq<Seq<char>> {
    raw_tags(s).map_values(|t: Seq<char>| lower_chars(t))
}

/// Scans the tags out of a text.
pub fn extract_tags(content: &str) -> (r: Vec<String>)
    ensures
        r.deep_view() == tags_of(content@),
{
    let cs = chars_of(content);
    let mut done: Vec<String> = Vec::new();
    let mut cur: Option<Vec<char>> = None;
    let mut i: usize = 0;
    while i < cs.len()
        invariant
            i <= cs@.len(),
            cs@ == content@,
            ({
                let st = tag_state(content@.subrange(0, i as int));
                &&& done.deep_view() == st.0.map_values(|t: Seq<char>| lower_chars(t))
                &&& (match cur {
                    Some(p) => st.1 is Some && p@ == st.1.unwrap(),
                    None => st.1 is None,
                })
            }),
        decreases cs@.len() - i,
    {
        let ghost pre = content@.subrange(0, i as int);
        let ghost post = content@.subrange(0, i + 1 as int);
        let ghost st_pre = tag_state(pre);
        let ghost st_post = tag_state(post);
        proof {
            assert(post.drop_last() =~= pre);
            assert(post.last() == content@[i as int]);
        }
        let c = cs[i];
        let mut flushed: Option<Vec<char>> = None;
        let next_is_open = c == '#';
        match cur {
            Some(mut p) => {
                proof {
                    assert(st_pre.1 == Some(p@));
                }
                if is_tag_char(c) {
                    p.push(c);
                    proof {
                        assert(st_post.0 == st_pre.0 && st_post.1 == Some(st_pre.1.unwrap().push(
                            content@[i as int],
                        )));
                    }
                    cur = Some(p);
                } else {
                    if p.len() > 0 {
                        proof {
                            assert(st_post.0 == st_pre.0.push(st_pre.1.unwrap()));
                        }
                        flushed = Some(p);
                    } else {
                        proof {
                            assert(st_post.0 == st_pre.0);
                        }
                    }
                    cur = if next_is_open {
                        Some(Vec::new())
                    } else {
                        None
                    };
                }
            },
            None => {
                proof {
                    assert(st_pre.1 is None);
                    assert(st_post.0 == st_pre.0);
                }
                cur = if next_is_open {
                    Some(Vec::new())
                } else {
                    None
                };
            },
        }
        match flushed {
            Some(p) => {
                let low = lower_vec(&p);
                let lows = chars_to_string(&low);
                let ghost prev_done = done.deep_view();
                done.push(lows);
                proof {
                    assert(done.deep_view() =~= prev_done.push(lower_chars(p@)));
                    assert(st_post.0 == st_pre.0.push(p@));
                    assert(done.deep_view() =~= st_post.0.map_values(
                        |t: Seq<char>| lower_chars(t),
                    ));
                }
            },
            None => {
                proof {
                    assert(st_post.0 == st_pre.0);
                    assert(done.deep_view() =~= st_post.0.map_values(
                        |t: Seq<char>| lower_chars(t),
                    ));
                }
            },
        }
        proof {
            if cur is Some {
                assert(st_post.1 is Some);
            } else {
                assert(st_post.1 is None);
            }
        }
        i = i + 1;
    }
    proof {
        assert(content@.subrange(0, content@.len() as int) =~= content@);
    }
    match cur {
        Some(p) => {
            if p.len() > 0 {
                let low = lower_vec(&p);
                let lows = chars_to_string(&low);
                let ghost prev_done = done.deep_view();
                done.push(lows);
                proof {
                    let fullst = tag_state(content@);
                    assert(fullst.1 == Some(p@));
                    assert(raw_tags(content@) == fullst.0.push(p@));
                    assert(done.deep_view() =~= prev_done.push(lower_chars(p@)));
                    assert(done.deep_view() =~= tags_of(content@));
                }
            } else {
                proof {
                    assert(done.deep_view() =~= tags_of(content@));
                }
            }
        },
        None => {
            proof {
                assert(done.deep_view() =~= tags_of(content@));
            }
        },
    }
    done
}

/// The part of a path after its last slash.
pub open spec fn after_slash(p: Seq<char>) -> Seq<char>
    decreases p.len(),
{
    if p.len() == 0 {
        p
    } else if p.last() == '/' {
        Seq::empty()
    } else {
        after_slash(p.drop_last()).push(p.last())
    }
}

/// The file name without its extension: everything before the last dot,
/// unless the only dot is the first character or there is none.
pub open spec fn stem_of(name: Seq<char>) -> Seq<char> {
    if exists|w: int| 1 <= w < name.len() && name[w] == '.' {
        name.subrange(0, last_dot_of(name))
    } else {
        name
    }
}

/// The index of the last dot at a positive position.
pub open spec fn last_dot_of(name: Seq<char>) -> int {
    choose|w: int|
        1 <= w < name.len() && name[w] == '.' && (forall|v: int|
            w < v < name.len() ==> name[v] != '.')
}

/// The title derived from a path.
pub open spec fn title_of(p: Seq<char>) -> Seq<char> {
    stem_of(after_slash(p))
}

/// Derives a document title from its source path.
#[verifier::rlimit(60)]
pub fn derive_title(path: &str) -> (r: String)
    ensures
        r@ == title_of(path@),
{
    let cs = chars_of(path);
    let mut name: Vec<char> = Vec::new();
    let mut i: usize = 0;
    while i < cs.len()
        invariant
            i <= cs@.len(),
            cs@ == path@,
            name@ == after_slash(path@.subrange(0, i as int)),
        decreases cs@.len() - i,
    {
        let ghost pre = path@.subrange(0, i as int);
        let ghost post = path@.subrange(0, i + 1 as int);
        proof {
            assert(post.drop_last() =~= pre);
            assert(post.last() == path@[i as int]);
        }
        if cs[i] == '/' {
            name = Vec::new();
            proof {
                assert(name@ =~= after_slash(post));
            }
        } else {
            name.push(cs[i]);
            proof {
                assert(name@ =~= after_slash(post));
            }
        }
        i = i + 1;
    }
    proof {
        assert(path@.subrange(0, path@.len() as int) =~= path@);
    }
    let n = name.len();
    let mut cut: usize = n;
    let mut j: usize = n;
    while j > 1
        invariant
            j <= n,
            n == name@.len(),
            cut == n || (1 <= cut < n && name@[cut as int] == '.'),
            cut == n ==> forall|w: int| j <= w < n ==> name@[w] != '.',
            cut < n ==> forall|w: int| cut < w < n ==> name@[w] != '.',
        decreases j,
    {
        if cut == n && name[j - 1] == '.' {
            cut = j - 1;
        }
        j = j - 1;
    }
    let mut out: Vec<char> = Vec::new();
    let mut k: usize = 0;
    while k < cut
        invariant
            k <= cut <= n,
            n == name@.len(),
            out@ == name@.subrange(0, k as int),
        decreases cut - k,
    {
        out.push(name[k]);
        k = k + 1;
        proof {
            assert(out@ =~= name@.subrange(0, k as int));
        }
    }
    proof {
        if cut < n {
            assert(exists|w: int| 1 <= w < name@.len() && name@[w] == '.') by {
                assert(name@[cut as int] == '.');
            }
            let c2 = last_dot_of(name@);
            assert(1 <= c2 < name@.len() && name@[c2] == '.' && (forall|v: int|
                c2 < v < name@.len() ==> name@[v] != '.')) by {
                assert(1 <= cut < name@.len() && name@[cut as int] == '.' && (forall|v: int|
                    cut < v < name@.len() ==> name@[v] != '.'));
            }
            if c2 != cut {
                if c2 < cut {
                    assert(name@[cut as int] != '.');
                } else {
                    assert(name@[c2] != '.');
                }
                assert(false);
            }
            assert(stem_of(name@) == name@.subrange(0, cut as int));
        } else {
            assert(!(exists|w: int| 1 <= w < name@.len() && name@[w] == '.'));
            assert(name@.subrange(0, cut as int) =~= name@);
        }
        assert(out@ == stem_of(name@));
    }
    chars_to_string(&out)
}

} // verus!
