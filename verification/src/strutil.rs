//! String utilities shared by the request parser, the response serializer and
//! the router: substring containment, first-occurrence search, line trimming
//! and whitespace tokenization, each as a spec function with a verified
//! executable counterpart.

use vstd::prelude::*;

verus! {

/// `needle` occurs in `hay` starting at position `i`.
pub open spec fn contains_at(hay: Seq<char>, i: int, needle: Seq<char>) -> bool {
    &&& 0 <= i
    &&& i + needle.len() <= hay.len()
    &&& hay.subrange(i, i + needle.len()) == needle
}

/// `needle` occurs somewhere in `hay`.
pub open spec fn contains_seq(hay: Seq<char>, needle: Seq<char>) -> bool {
    exists|i: int| contains_at(hay, i, needle)
}

/// The character `c` occurs in `s`.
pub open spec fn contains_char(s: Seq<char>, c: char) -> bool {
    exists|i: int| 0 <= i < s.len() && s[i] == c
}

/// Index of the first occurrence of `c` in `s`, or -1 when `c` does not occur.
pub open spec fn find_first(s: Seq<char>, c: char) -> int
    decreases s.len(),
{
    if s.len() == 0 {
        -1
    } else if s[0] == c {
        0
    } else {
        let r = find_first(s.skip(1), c);
        if r == -1 {
            -1
        } else {
            1 + r
        }
    }
}

/// What `find_first` returns: either -1 and no occurrence, or the index of
/// the first occurrence.
pub proof fn lemma_find_first(s: Seq<char>, c: char)
    ensures
        find_first(s, c) == -1 ==> !contains_char(s, c),
        find_first(s, c) != -1 ==> {
            let i = find_first(s, c);
            &&& 0 <= i < s.len()
            &&& s[i] == c
            &&& forall|j: int| 0 <= j < i ==> s[j] != c
        },
    decreases s.len(),
{
    if s.len() == 0 {
    } else if s[0] == c {
    } else {
        lemma_find_first(s.skip(1), c);
        let r = find_first(s.skip(1), c);
        if r == -1 {
            assert forall|i: int| 0 <= i < s.len() implies s[i] != c by {
                if i > 0 {
                    assert(s.skip(1)[i - 1] == s[i]);
                }
            }
        } else {
            assert(s.skip(1)[r] == s[r + 1]);
            assert forall|j: int| 0 <= j < r + 1 implies s[j] != c by {
                if j > 0 {
                    assert(s.skip(1)[j - 1] == s[j]);
                }
            }
        }
    }
}

/// Converse direction: an occurrence at `i` with none before pins `find_first`.
pub proof fn lemma_find_first_is(s: Seq<char>, c: char, i: int)
    requires
        0 <= i < s.len(),
        s[i] == c,
        forall|j: int| 0 <= j < i ==> s[j] != c,
    ensures
        find_first(s, c) == i,
    decreases s.len(),
{
    if i == 0 {
    } else {
        assert forall|j: int| 0 <= j < i - 1 implies s.skip(1)[j] != c by {
            assert(s.skip(1)[j] == s[j + 1]);
        }
        assert(s.skip(1)[i - 1] == s[i]);
        lemma_find_first_is(s.skip(1), c, i - 1);
    }
}

/// No occurrence at all means `find_first` is -1.
pub proof fn lemma_find_first_none(s: Seq<char>, c: char)
    requires
        forall|j: int| 0 <= j < s.len() ==> s[j] != c,
    ensures
        find_first(s, c) == -1,
{
    lemma_find_first(s, c);
}

/// `s` ends with `suffix`.
pub open spec fn ends_with(s: Seq<char>, suffix: Seq<char>) -> bool {
    s.len() >= suffix.len() && s.skip(s.len() - suffix.len()) == suffix
}

/// A logical line as `str::lines` yields it: one trailing carriage return,
/// when present, is removed.
pub open spec fn trim_cr(s: Seq<char>) -> Seq<char> {
    if s.len() > 0 && s[s.len() - 1] == '\r' {
        s.take(s.len() - 1)
    } else {
        s
    }
}

/// The whitespace characters the tokenizer splits on.
pub open spec fn is_space(c: char) -> bool {
    c == ' ' || c == '\t' || c == '\r' || c == '\n'
}

/// Length of the maximal whitespace-free prefix of `s`.
pub open spec fn token_len(s: Seq<char>) -> int
    decreases s.len(),
{
    if s.len() == 0 || is_space(s[0]) {
        0
    } else {
        1 + token_len(s.skip(1))
    }
}

/// `token_len` is within bounds and delimits a whitespace-free prefix.
pub proof fn lemma_token_len(s: Seq<char>)
    ensures
        0 <= token_len(s) <= s.len(),
        forall|j: int| 0 <= j < token_len(s) ==> !is_space(s[j]),
        token_len(s) < s.len() ==> is_space(s[token_len(s)]),
        s.len() > 0 && !is_space(s[0]) ==> token_len(s) >= 1,
    decreases s.len(),
{
    if s.len() == 0 || is_space(s[0]) {
    } else {
        lemma_token_len(s.skip(1));
        let t = token_len(s.skip(1));
        assert forall|j: int| 0 <= j < t + 1 implies !is_space(s[j]) by {
            if j > 0 {
                assert(s.skip(1)[j - 1] == s[j]);
            }
        }
        if t < s.skip(1).len() {
            assert(s.skip(1)[t] == s[t + 1]);
        }
    }
}

#[via_fn]
proof fn tokens_decreases(s: Seq<char>) {
    lemma_token_len(s);
}

/// The whitespace-separated tokens of `s`, in order, as `str::split_whitespace`
/// yields them for ASCII whitespace.
pub open spec fn tokens(s: Seq<char>) -> Seq<Seq<char>>
    decreases s.len(),
        via tokens_decreases
{
    if s.len() == 0 {
        Seq::empty()
    } else if is_space(s[0]) {
        tokens(s.skip(1))
    } else {
        seq![s.take(token_len(s))] + tokens(s.skip(token_len(s)))
    }
}

/// Whether two string slices hold the same characters.
pub fn str_eq(a: &str, b: &str) -> (r: bool)
    ensures
        r == (a@ == b@),
{
    let alen = a.unicode_len();
    let blen = b.unicode_len();
    if alen != blen {
        return false;
    }
    let mut i: usize = 0;
    while i < alen
        invariant
            i <= alen,
            alen == a@.len(),
            alen == b@.len(),
            forall|j: int| 0 <= j < i ==> a@[j] == b@[j],
        decreases alen - i,
    {
        if a.get_char(i) != b.get_char(i) {
            return false;
        }
        i += 1;
    }
    proof {
        assert(a@ =~= b@);
    }
    true
}

/// Whether `needle` occurs in `hay` as a contiguous substring.
pub fn contains_str(hay: &str, needle: &str) -> (r: bool)
    ensures
        r == contains_seq(hay@, needle@),
{
    let hlen = hay.unicode_len();
    let nlen = needle.unicode_len();
    if nlen == 0 {
        proof {
            assert(contains_at(hay@, 0, needle@)) by {
                assert(hay@.subrange(0, 0) =~= needle@);
            }
        }
        return true;
    }
    if nlen > hlen {
        proof {
            assert forall|k: int| !contains_at(hay@, k, needle@) by {}
        }
        return false;
    }
    let mut i: usize = 0;
    while i <= hlen - nlen
        invariant
            0 < nlen <= hlen,
            hlen == hay@.len(),
            nlen == needle@.len(),
            i <= hlen - nlen + 1,
            forall|k: int| 0 <= k < i ==> !contains_at(hay@, k, needle@),
        decreases hlen + 1 - nlen - i,
    {
        let mut j: usize = 0;
        let mut matched = true;
        while j < nlen
            invariant
                i + nlen <= hlen,
                hlen == hay@.len(),
                nlen == needle@.len(),
                j <= nlen,
                matched ==> forall|t: int| 0 <= t < j ==> hay@[i + t] == needle@[t],
                !matched ==> !contains_at(hay@, i as int, needle@),
            decreases nlen - j,
    {
            if hay.get_char(i + j) != needle.get_char(j) {
                proof {
                    let sub = hay@.subrange(i as int, i + nlen);
                    assert(sub != needle@) by {
                        if sub == needle@ {
                            assert(sub[j as int] == hay@[i + j]);
                            assert(sub[j as int] == needle@[j as int]);
                        }
                    }
                }
                matched = false;
                j = nlen;
            } else {
                j += 1;
            }
        }
        if matched {
            proof {
                assert(hay@.subrange(i as int, i + nlen) =~= needle@);
                assert(contains_at(hay@, i as int, needle@));
            }
            return true;
        }
        i += 1;
    }
    proof {
        assert forall|k: int| !contains_at(hay@, k, needle@) by {
            if 0 <= k && k + nlen <= hlen {
                assert(k < i);
            }
        }
    }
    false
}

/// Index of the first occurrence of `c` in `s`, matching `find_first`.
pub fn find_char(s: &str, c: char) -> (r: Option<usize>)
    ensures
        match r {
            Some(i) => find_first(s@, c) == i as int,
            None => find_first(s@, c) == -1,
        },
{
    let len = s.unicode_len();
    let mut i: usize = 0;
    while i < len
        invariant
            i <= len,
            len == s@.len(),
            forall|j: int| 0 <= j < i ==> s@[j] != c,
        decreases len - i,
    {
        if s.get_char(i) == c {
            proof {
                lemma_find_first_is(s@, c, i as int);
            }
            return Some(i);
        }
        i += 1;
    }
    proof {
        lemma_find_first_none(s@, c);
    }
    None
}

/// The whitespace-separated tokens of `s` as owned strings, matching `tokens`.
pub fn split_whitespace_tokens(s: &str) -> (v: Vec<String>)
    ensures
        v.deep_view() == tokens(s@),
{
    let len = s.unicode_len();
    let mut v: Vec<String> = Vec::new();
    proof {
        assert(v.deep_view() =~= Seq::<Seq<char>>::empty());
        assert(s@.skip(0) =~= s@);
        assert(v.deep_view() + tokens(s@) =~= tokens(s@));
    }
    let mut pos: usize = 0;
    while pos < len
        invariant
            pos <= len,
            len == s@.len(),
            v.deep_view() + tokens(s@.skip(pos as int)) == tokens(s@),
        decreases len - pos,
    {
        let c = s.get_char(pos);
        if c == ' ' || c == '\t' || c == '\r' || c == '\n' {
            proof {
                let rem = s@.skip(pos as int);
                assert(rem[0] == s@[pos as int]);
                assert(is_space(rem[0]));
                assert(tokens(rem) == tokens(rem.skip(1)));
                assert(rem.skip(1) =~= s@.skip(pos as int + 1));
            }
            pos += 1;
        } else {
            let ghost rem = s@.skip(pos as int);
            proof {
                assert(rem[0] == s@[pos as int]);
                lemma_token_len(rem);
            }
            let mut end: usize = pos + 1;
            while end < len
                invariant
                    pos < end <= len,
                    len == s@.len(),
                    rem == s@.skip(pos as int),
                    forall|j: int| 0 <= j < end - pos ==> !is_space(rem[j]),
                ensures
                    pos < end <= len,
                    forall|j: int| 0 <= j < end - pos ==> !is_space(rem[j]),
                    end < len ==> is_space(rem[end - pos]),
                decreases len - end,
            {
                let c2 = s.get_char(end);
                proof {
                    assert(rem[end - pos] == s@[end as int]);
                }
                if c2 == ' ' || c2 == '\t' || c2 == '\r' || c2 == '\n' {
                    break;
                }
                end += 1;
            }
            proof {
                lemma_token_len(rem);
                assert(token_len(rem) == end - pos) by {
                    if token_len(rem) < end - pos {
                        assert(!is_space(rem[token_len(rem)]));
                    }
                    if token_len(rem) > end - pos {
                        assert((end as int) - (pos as int) < rem.len());
                        assert(!is_space(rem[end - pos]));
                    }
                }
            }
            let tok = s.substring_char(pos, end);
            let owned = tok.to_owned();
            let ghost old_dv = v.deep_view();
            v.push(owned);
            proof {
                let tl = token_len(rem);
                assert(v.deep_view() =~= old_dv.push(tok@));
                assert(rem.take(tl) =~= s@.subrange(pos as int, end as int));
                assert(rem.take(tl) == tok@);
                assert(rem.skip(tl) =~= s@.skip(end as int));
                assert(tokens(rem) == seq![rem.take(tl)] + tokens(rem.skip(tl)));
                assert(old_dv.push(tok@) + tokens(s@.skip(end as int)) =~= old_dv + (seq![tok@]
                    + tokens(s@.skip(end as int))));
                assert(seq![tok@] + tokens(s@.skip(end as int)) =~= seq![rem.take(tl)] + tokens(
                    rem.skip(tl),
                ));
            }
            pos = end;
        }
    }
    proof {
        assert(s@.skip(len as int) =~= Seq::<char>::empty());
        assert(tokens(s@.skip(len as int)) =~= Seq::<Seq<char>>::empty());
        assert(v.deep_view() =~= v.deep_view() + tokens(s@.skip(len as int)));
    }
    v
}

} // verus!
