//! Sentence splitting and small text transforms.
//!
//! A text is split on runs of one or more terminal punctuation marks from a
//! fixed small set; fragments that are empty between delimiters are dropped,
//! the remaining fragments are trimmed of surrounding whitespace, and the
//! original order is preserved.

use vstd::prelude::*;

verus! {

use vstd::string::StrSliceExecFns;
use vstd::string::StringExecFns;

/// Terminal punctuation: ideographic full stop, fullwidth exclamation mark,
/// fullwidth question mark.
pub open spec fn is_terminal(c: char) -> bool {
    c == '\u{3002}' || c == '\u{FF01}' || c == '\u{FF1F}'
}

/// The Unicode `White_Space` characters, as trimmed from fragment edges.
pub open spec fn is_space(c: char) -> bool {
    let u = c as u32;
    ||| (0x09 <= u && u <= 0x0D)
    ||| u == 0x20
    ||| u == 0x85
    ||| u == 0xA0
    ||| u == 0x1680
    ||| (0x2000 <= u && u <= 0x200A)
    ||| u == 0x2028
    ||| u == 0x2029
    ||| u == 0x202F
    ||| u == 0x205F
    ||| u == 0x3000
}

fn is_terminal_char(c: char) -> (r: bool)
    ensures
        r == is_terminal(c),
{
    c == '\u{3002}' || c == '\u{FF01}' || c == '\u{FF1F}'
}

fn is_space_char(c: char) -> (r: bool)
    ensures
        r == is_space(c),
{
    let u = c as u32;
    (0x09 <= u && u <= 0x0D) || u == 0x20 || u == 0x85 || u == 0xA0 || u == 0x1680 || (0x2000 <= u
        && u <= 0x200A) || u == 0x2028 || u == 0x2029 || u == 0x202F || u == 0x205F || u == 0x3000
}

/// `s` with leading whitespace removed.
pub open spec fn trim_front(s: Seq<char>) -> Seq<char>
    decreases s.len(),
{
    if s.len() > 0 && is_space(s[0]) {
        trim_front(s.skip(1))
    } else {
        s
    }
}

/// `s` with trailing whitespace removed.
pub open spec fn trim_back(s: Seq<char>) -> Seq<char>
    decreases s.len(),
{
    if s.len() > 0 && is_space(s.last()) {
        trim_back(s.drop_last())
    } else {
        s
    }
}

/// `s` with surrounding whitespace removed.
pub open spec fn trim_spec(s: Seq<char>) -> Seq<char> {
    trim_back(trim_front(s))
}

proof fn lemma_trim_front_skip(s: Seq<char>, k: int)
    requires
        0 <= k <= s.len(),
        forall|j: int| 0 <= j < k ==> is_space(#[trigger] s[j]),
        k == s.len() || !is_space(s[k]),
    ensures
        trim_front(s) == s.skip(k),
    decreases k,
{
    if k == 0 {
        assert(s.skip(0) =~= s);
    } else {
        assert(is_space(s[0]));
        lemma_trim_front_skip(s.skip(1), k - 1);
        assert(s.skip(1).skip(k - 1) =~= s.skip(k));
    }
}

proof fn lemma_trim_back_take(s: Seq<char>, k: int)
    requires
        0 <= k <= s.len(),
        forall|j: int| k <= j < s.len() ==> is_space(#[trigger] s[j]),
        k == 0 || !is_space(s[k - 1]),
    ensures
        trim_back(s) == s.take(k),
    decreases s.len(),
{
    if k == s.len() {
        assert(s.take(k) =~= s);
    } else {
        assert(is_space(s.last()));
        lemma_trim_back_take(s.drop_last(), k);
        assert(s.drop_last().take(k) =~= s.take(k));
    }
}

/// Removes surrounding whitespace from `s`.
pub fn trim_str(s: &str) -> (r: String)
    ensures
        r@ == trim_spec(s@),
{
    let n = s.unicode_len();
    let mut lo: usize = 0;
    while lo < n && is_space_char(s.get_char(lo))
        invariant
            lo <= n,
            n == s@.len(),
            forall|j: int| 0 <= j < lo ==> is_space(#[trigger] s@[j]),
        decreases n - lo,
    {
        lo = lo + 1;
    }
    proof {
        lemma_trim_front_skip(s@, lo as int);
    }
    if lo == n {
        proof {
            assert(s@.skip(n as int) =~= Seq::<char>::empty());
            assert(trim_back(Seq::<char>::empty()) =~= Seq::<char>::empty());
        }
        return String::new();
    }
    let mut hi: usize = n;
    while hi > lo && is_space_char(s.get_char(hi - 1))
        invariant
            lo <= hi <= n,
            n == s@.len(),
            forall|j: int| hi <= j < n ==> is_space(#[trigger] s@[j]),
        decreases hi,
    {
        hi = hi - 1;
    }
    proof {
        assert(!is_space(s@[lo as int]));
        assert(hi > lo);
        let t = s@.skip(lo as int);
        assert(forall|j: int|
            hi - lo <= j < t.len() ==> is_space(#[trigger] t[j]) == is_space(s@[j + lo]));
        assert(!is_space(t[hi - lo - 1]));
        lemma_trim_back_take(t, hi - lo);
        assert(t.take(hi - lo) =~= s@.subrange(lo as int, hi as int));
    }
    let sub = s.substring_char(lo, hi);
    String::from_str(sub)
}

/// Index of the first terminal punctuation mark in `s`, if any.
pub open spec fn first_term(s: Seq<char>) -> Option<int>
    decreases s.len(),
{
    if s.len() == 0 {
        None
    } else if is_terminal(s[0]) {
        Some(0)
    } else {
        match first_term(s.skip(1)) {
            Some(j) => Some(j + 1),
            None => None,
        }
    }
}

/// Length of the run of terminal punctuation at the front of `s`.
pub open spec fn term_run(s: Seq<char>) -> int
    decreases s.len(),
{
    if s.len() == 0 {
        0
    } else if is_terminal(s[0]) {
        1 + term_run(s.skip(1))
    } else {
        0
    }
}

proof fn lemma_first_term(s: Seq<char>)
    ensures
        match first_term(s) {
            Some(j) => 0 <= j < s.len() && is_terminal(s[j]) && forall|k: int|
                0 <= k < j ==> !is_terminal(#[trigger] s[k]),
            None => forall|k: int| 0 <= k < s.len() ==> !is_terminal(#[trigger] s[k]),
        },
    decreases s.len(),
{
    if s.len() > 0 && !is_terminal(s[0]) {
        lemma_first_term(s.skip(1));
        match first_term(s.skip(1)) {
            Some(j) => {
                assert(s[j + 1] == s.skip(1)[j]);
                assert forall|k: int| 0 <= k < j + 1 implies !is_terminal(#[trigger] s[k]) by {
                    if k > 0 {
                        assert(!is_terminal(s.skip(1)[k - 1]));
                    }
                }
            },
            None => {
                assert forall|k: int| 0 <= k < s.len() implies !is_terminal(#[trigger] s[k]) by {
                    if k > 0 {
                        assert(!is_terminal(s.skip(1)[k - 1]));
                    }
                }
            },
        }
    }
}

proof fn lemma_term_run(s: Seq<char>)
    ensures
        0 <= term_run(s) <= s.len(),
        forall|k: int| 0 <= k < term_run(s) ==> is_terminal(#[trigger] s[k]),
        term_run(s) < s.len() ==> !is_terminal(s[term_run(s)]),
    decreases s.len(),
{
    if s.len() > 0 && is_terminal(s[0]) {
        lemma_term_run(s.skip(1));
        assert forall|k: int| 0 <= k < term_run(s) implies is_terminal(#[trigger] s[k]) by {
            if k > 0 {
                assert(is_terminal(s.skip(1)[k - 1]));
            }
        }
        if term_run(s) < s.len() {
            assert(s[term_run(s)] == s.skip(1)[term_run(s) - 1]);
        }
    }
}

/// The sentences of `text`: split on runs of terminal punctuation, drop the
/// fragments that are empty between delimiters, trim the rest, keep order.
pub open spec fn split_spec(s: Seq<char>) -> Seq<Seq<char>>
    decreases s.len(),
    via split_spec_decreases
{
    if s.len() == 0 {
        Seq::empty()
    } else {
        match first_term(s) {
            None => seq![trim_spec(s)],
            Some(j) => {
                let run = term_run(s.skip(j));
                let rest = split_spec(s.skip(j + run));
                if j == 0 {
                    rest
                } else {
                    seq![trim_spec(s.take(j))] + rest
                }
            },
        }
    }
}

#[via_fn]
proof fn split_spec_decreases(s: Seq<char>) {
    if s.len() > 0 {
        match first_term(s) {
            None => {},
            Some(j) => {
                lemma_first_term(s);
                lemma_term_run(s.skip(j));
                assert(is_terminal(s.skip(j)[0]));
                assert(term_run(s.skip(j)) >= 1);
            },
        }
    }
}

/// Splits `text` into sentences as `split_spec` describes.
pub fn split_sentences(text: &str) -> (r: Vec<String>)
    ensures
        r.deep_view() == split_spec(text@),
    decreases text@.len(),
{
    let n = text.unicode_len();
    if n == 0 {
        let r: Vec<String> = Vec::new();
        proof {
            assert(r.deep_view() =~= split_spec(text@));
        }
        return r;
    }
    let mut j: usize = 0;
    while j < n && !is_terminal_char(text.get_char(j))
        invariant
            j <= n,
            n == text@.len(),
            forall|k: int| 0 <= k < j ==> !is_terminal(#[trigger] text@[k]),
        decreases n - j,
    {
        j = j + 1;
    }
    proof {
        lemma_first_term(text@);
    }
    if j == n {
        let t = trim_str(text);
        let mut r: Vec<String> = Vec::new();
        r.push(t);
        proof {
            assert(first_term(text@) is None);
            assert(r.deep_view() =~= split_spec(text@));
        }
        return r;
    }
    proof {
        assert(is_terminal(text@[j as int]));
        assert(first_term(text@) == Some(j as int));
    }
    let mut e: usize = j;
    while e < n && is_terminal_char(text.get_char(e))
        invariant
            j <= e <= n,
            n == text@.len(),
            forall|k: int| j <= k < e ==> is_terminal(#[trigger] text@[k]),
        decreases n - e,
    {
        e = e + 1;
    }
    proof {
        assert(e > j);
        let t = text@.skip(j as int);
        lemma_term_run(t);
        assert(forall|k: int| 0 <= k < t.len() ==> t[k] == text@[k + j]);
        let run = term_run(t);
        assert(forall|k: int| 0 <= k < e - j ==> is_terminal(#[trigger] t[k]));
        if run < e - j {
            assert(is_terminal(t[run]));
            assert(false);
        }
        if run > e - j {
            assert(e < n);
            assert(!is_terminal(text@[e as int]));
            assert(is_terminal(t[e - j]));
            assert(false);
        }
        assert(run == e - j);
    }
    let rest_str = text.substring_char(e, n);
    proof {
        assert(rest_str@ =~= text@.skip(e as int));
    }
    let rest = split_sentences(rest_str);
    if j == 0 {
        return rest;
    }
    let frag = text.substring_char(0, j);
    proof {
        assert(frag@ =~= text@.take(j as int));
    }
    let t = trim_str(frag);
    let mut r: Vec<String> = Vec::new();
    r.push(t);
    let mut rest_vec = rest;
    r.append(&mut rest_vec);
    proof {
        assert(r.deep_view() =~= seq![trim_spec(text@.take(j as int))] + split_spec(
            text@.skip(e as int),
        ));
    }
    r
}

/// `needle` occurs in `hay` at character position `i`.
pub open spec fn matches_at(hay: Seq<char>, needle: Seq<char>, i: int) -> bool {
    &&& 0 <= i
    &&& i + needle.len() <= hay.len()
    &&& hay.subrange(i, i + needle.len() as int) == needle
}

/// Position of the first occurrence of `needle` in `hay` at or after `k`.
pub open spec fn find_from(hay: Seq<char>, needle: Seq<char>, k: int) -> Option<int>
    decreases hay.len() - k,
{
    if k < 0 || k + needle.len() > hay.len() {
        None
    } else if needle.len() == 0 {
        Some(k)
    } else if matches_at(hay, needle, k) {
        Some(k)
    } else {
        find_from(hay, needle, k + 1)
    }
}

/// Position of the first occurrence of `needle` in `hay`, if any.
pub open spec fn find_spec(hay: Seq<char>, needle: Seq<char>) -> Option<int> {
    find_from(hay, needle, 0)
}

pub proof fn lemma_find_from(hay: Seq<char>, needle: Seq<char>, k: int)
    requires
        0 <= k,
    ensures
        match find_from(hay, needle, k) {
            Some(i) => k <= i && matches_at(hay, needle, i) && forall|j: int|
                k <= j < i ==> !matches_at(hay, needle, j),
            None => forall|j: int| j >= k ==> !matches_at(hay, needle, j),
        },
    decreases hay.len() - k,
{
    if k + needle.len() <= hay.len() && needle.len() == 0 {
        assert(hay.subrange(k, k) =~= needle);
        assert(matches_at(hay, needle, k));
    } else if !(k + needle.len() > hay.len()) && !matches_at(hay, needle, k) {
        lemma_find_from(hay, needle, k + 1);
    }
}

/// Character position of the first occurrence of `needle` in `hay`, if any.
pub fn find_sub(hay: &str, needle: &str) -> (r: Option<usize>)
    ensures
        match r {
            Some(i) => matches_at(hay@, needle@, i as int) && forall|k: int|
                0 <= k < i ==> !matches_at(hay@, needle@, k),
            None => forall|k: int| !matches_at(hay@, needle@, k),
        },
{
    let n = hay.unicode_len();
    let m = needle.unicode_len();
    if m > n {
        return None;
    }
    if m == 0 {
        proof {
            assert(hay@.subrange(0, 0) =~= needle@);
        }
        return Some(0);
    }
    let mut i: usize = 0;
    while i <= n - m
        invariant
            0 < m <= n,
            n == hay@.len(),
            m == needle@.len(),
            i <= n - m + 1,
            forall|k: int| 0 <= k < i ==> !matches_at(hay@, needle@, k),
        decreases n - i,
    {
        let mut t: usize = 0;
        let mut mismatch = false;
        while t < m && !mismatch
            invariant
                i + m <= n,
                n == hay@.len(),
                m == needle@.len(),
                t <= m,
                !mismatch ==> forall|k: int| 0 <= k < t ==> hay@[i + k] == #[trigger] needle@[k],
                mismatch ==> !matches_at(hay@, needle@, i as int),
            decreases m - t + (if mismatch { 0int } else { 1int }),
        {
            if hay.get_char(i + t) == needle.get_char(t) {
                t = t + 1;
            } else {
                proof {
                    if matches_at(hay@, needle@, i as int) {
                        assert(hay@.subrange(i as int, i + m as int)[t as int] == needle@[t as int]);
                    }
                }
                mismatch = true;
            }
        }
        if !mismatch {
            proof {
                assert(hay@.subrange(i as int, i + m as int) =~= needle@);
            }
            return Some(i);
        }
        i = i + 1;
    }
    proof {
        assert forall|k: int| !matches_at(hay@, needle@, k) by {
            if 0 <= k && k + m <= n {
                assert(k < i);
            }
        }
    }
    None
}

/// The characters of the cloze opening marker.
pub open spec fn cloze_open() -> Seq<char> {
    seq!['{', '{', 'c', '1', ':', ':']
}

/// The characters of the cloze closing marker.
pub open spec fn cloze_close() -> Seq<char> {
    seq!['}', '}']
}

/// Replaces the characters `[loc, loc + phrase.len())` of `sentence` with the
/// phrase wrapped in cloze markers.
pub fn make_cloze(sentence: &str, phrase: &str, loc: usize) -> (r: String)
    requires
        loc + phrase@.len() <= sentence@.len(),
    ensures
        r@ == sentence@.take(loc as int) + cloze_open() + phrase@ + cloze_close()
            + sentence@.skip(loc + phrase@.len()),
{
    let n = sentence.unicode_len();
    let m = phrase.unicode_len();
    let mut r = String::from_str(sentence.substring_char(0, loc));
    r.append("{{c1::");
    r.append(phrase);
    r.append("}}");
    r.append(sentence.substring_char(loc + m, n));
    proof {
        reveal_strlit("{{c1::");
        reveal_strlit("}}");
        assert("{{c1::"@ =~= cloze_open());
        assert("}}"@ =~= cloze_close());
        assert(r@ =~= sentence@.take(loc as int) + cloze_open() + phrase@ + cloze_close()
            + sentence@.skip(loc + phrase@.len()));
    }
    r
}

} // verus!
