//! The vocabulary lexicon: entries with a proficiency tier, stable handles,
//! tier-label parsing, and the sentence classifier.
//!
//! Entries are deduplicated by (text, tier) and assigned a stable index at
//! load time.  A token matches the highest tier at which its text occurs.
//! Classification is strict: a sentence with even one token that matches no
//! tier is rejected outright; otherwise the sentence's effective tier is the
//! maximum matched tier, and only the tokens matched at that tier receive
//! credit.

use vstd::prelude::*;

verus! {

use vstd::string::StrSliceExecFns;

/// Relies on `str`'s `PartialEq`: two string slices are equal exactly when
/// they consist of the same characters in the same order.
pub assume_specification[ <str as PartialEq>::eq ](a: &str, b: &str) -> (r: bool)
    ensures
        r == (a@ == b@),
;

/// A proficiency tier, 1 (most basic) through 7; tier 7 aggregates all
/// source tiers of 7 and above.
#[derive(Clone, Copy, PartialEq, Eq, Structural, Debug, Hash)]
pub struct HskLevel(pub usize);

/// A stable handle for a vocabulary entry: its index in the entry list.
#[derive(Clone, Copy, PartialEq, Eq, Structural, Debug, Hash)]
pub struct PhraseIdx(pub usize);

/// A vocabulary entry: its text and its tier.
pub struct HskPhrase {
    pub simplified: String,
    pub level: HskLevel,
}

/// Mathematical model of an entry.
#[verifier::ext_equal]
pub ghost struct PhraseView {
    pub simplified: Seq<char>,
    pub level: int,
}

impl View for HskPhrase {
    type V = PhraseView;

    open spec fn view(&self) -> PhraseView {
        PhraseView { simplified: self.simplified@, level: self.level.0 as int }
    }
}

impl DeepView for HskPhrase {
    type V = PhraseView;

    open spec fn deep_view(&self) -> PhraseView {
        self.view()
    }
}

/// The tiers, lowest first.
pub fn hsk_levels() -> (r: Vec<HskLevel>)
    ensures
        r@.len() == 7,
        forall|i: int| 0 <= i < 7 ==> (#[trigger] r@[i]).0 == i + 1,
{
    let mut r: Vec<HskLevel> = Vec::new();
    let mut l: usize = 1;
    while l <= 7
        invariant
            1 <= l <= 8,
            r@.len() == l - 1,
            forall|i: int| 0 <= i < l - 1 ==> (#[trigger] r@[i]).0 == i + 1,
        decreases 8 - l,
    {
        r.push(HskLevel(l));
        l = l + 1;
    }
    r
}

/// What a tier label means: the digit strings "1" through "6" map to their
/// value, the aggregate label "7-9" maps to tier 7, anything else is
/// unparseable.
pub open spec fn spec_parse_level(s: Seq<char>) -> Option<int> {
    if s.len() == 1 && 0x31 <= s[0] as u32 && s[0] as u32 <= 0x36 {
        Some(s[0] as u32 - 0x30)
    } else if s == seq!['7', '-', '9'] {
        Some(7)
    } else {
        None
    }
}

/// Parses a tier label.
pub fn parse_level(label: &str) -> (r: Option<HskLevel>)
    ensures
        match spec_parse_level(label@) {
            Some(l) => r matches Some(h) && h.0 == l,
            None => r is None,
        },
{
    let n = label.unicode_len();
    if n == 1 {
        let u = label.get_char(0) as u32;
        if 0x31 <= u && u <= 0x36 {
            proof {
                assert(label@ !== seq!['7', '-', '9']);
            }
            Some(HskLevel((u - 0x30) as usize))
        } else {
            None
        }
    } else if n == 3 {
        let c0 = label.get_char(0);
        let c1 = label.get_char(1);
        let c2 = label.get_char(2);
        if c0 == '7' && c1 == '-' && c2 == '9' {
            proof {
                assert(label@ =~= seq!['7', '-', '9']);
            }
            Some(HskLevel(7))
        } else {
            proof {
                assert(label@ !== seq!['7', '-', '9']);
            }
            None
        }
    } else {
        None
    }
}

/// Well-formed lexicon contents: every tier in range, no two entries with
/// the same text and tier.
pub open spec fn hsk_wf(ps: Seq<PhraseView>) -> bool {
    &&& forall|i: int| 0 <= i < ps.len() ==> 1 <= (#[trigger] ps[i]).level <= 7
    &&& forall|i: int, j: int|
        0 <= i < ps.len() && 0 <= j < ps.len() && i != j ==> !((#[trigger] ps[i]).simplified
            == (#[trigger] ps[j]).simplified && ps[i].level == ps[j].level)
}

/// The in-memory lexicon index.
pub struct Hsk {
    phrases: Vec<HskPhrase>,
}

impl View for Hsk {
    type V = Seq<PhraseView>;

    closed spec fn view(&self) -> Seq<PhraseView> {
        self.phrases.deep_view()
    }
}

/// Index of the first entry with the given text at exactly the given tier.
pub open spec fn find_in_level(ps: Seq<PhraseView>, word: Seq<char>, l: int) -> Option<int>
    decreases ps.len(),
{
    if ps.len() == 0 {
        None
    } else if ps[0].simplified == word && ps[0].level == l {
        Some(0)
    } else {
        match find_in_level(ps.skip(1), word, l) {
            Some(i) => Some(i + 1),
            None => None,
        }
    }
}

/// Searches tiers from `l` down to 1 and yields the first tier at which the
/// word is present, with the entry's handle.
pub open spec fn lookup_word(ps: Seq<PhraseView>, word: Seq<char>, l: int) -> Option<(int, int)>
    decreases l,
{
    if l < 1 {
        None
    } else {
        match find_in_level(ps, word, l) {
            Some(i) => Some((l, i)),
            None => lookup_word(ps, word, l - 1),
        }
    }
}

proof fn lemma_find_in_level(ps: Seq<PhraseView>, word: Seq<char>, l: int)
    ensures
        match find_in_level(ps, word, l) {
            Some(i) => 0 <= i < ps.len() && ps[i].simplified == word && ps[i].level == l
                && forall|k: int|
                0 <= k < i ==> !((#[trigger] ps[k]).simplified == word && ps[k].level == l),
            None => forall|k: int|
                0 <= k < ps.len() ==> !((#[trigger] ps[k]).simplified == word && ps[k].level == l),
        },
    decreases ps.len(),
{
    if ps.len() > 0 && !(ps[0].simplified == word && ps[0].level == l) {
        lemma_find_in_level(ps.skip(1), word, l);
        match find_in_level(ps.skip(1), word, l) {
            Some(i) => {
                assert(ps[i + 1] == ps.skip(1)[i]);
                assert forall|k: int|
                    0 <= k < i + 1 implies !((#[trigger] ps[k]).simplified == word && ps[k].level
                    == l) by {
                    if k > 0 {
                        assert(ps.skip(1)[k - 1] == ps[k]);
                    }
                }
            },
            None => {
                assert forall|k: int|
                    0 <= k < ps.len() implies !((#[trigger] ps[k]).simplified == word && ps[k].level
                    == l) by {
                    if k > 0 {
                        assert(ps.skip(1)[k - 1] == ps[k]);
                    }
                }
            },
        }
    }
}

impl Hsk {
    /// The lexicon is well formed (established by `build_hsk`).
    pub open spec fn wf(&self) -> bool {
        hsk_wf(self@)
    }

    /// Number of entries.
    pub fn len(&self) -> (r: usize)
        ensures
            r == self@.len(),
    {
        self.phrases.len()
    }

    /// The entry a handle refers to.
    pub fn phrase(&self, idx: PhraseIdx) -> (r: &HskPhrase)
        requires
            idx.0 < self@.len(),
        ensures
            r@ == self@[idx.0 as int],
    {
        &self.phrases[idx.0]
    }

    /// Looks a word up at exactly one tier.
    fn find_at(&self, word: &str, l: usize) -> (r: Option<usize>)
        ensures
            match find_in_level(self@, word@, l as int) {
                Some(i) => r matches Some(x) && x == i,
                None => r is None,
            },
    {
        let n = self.phrases.len();
        let mut i: usize = 0;
        while i < n
            invariant
                n == self@.len(),
                i <= n,
                forall|k: int|
                    0 <= k < i ==> !((#[trigger] self@[k]).simplified == word@ && self@[k].level
                        == l),
            decreases n - i,
        {
            let p = &self.phrases[i];
            proof {
                assert(self@[i as int] == self.phrases@[i as int]@);
            }
            if p.level.0 == l && p.simplified.as_str().eq(word) {
                proof {
                    lemma_find_in_level(self@, word@, l as int);
                    assert(self@[i as int].simplified == word@ && self@[i as int].level
                        == l as int);
                    match find_in_level(self@, word@, l as int) {
                        Some(x) => {
                            if x < i {
                                assert(!((#[trigger] self@[x]).simplified == word@ && self@[x].level
                                    == l as int));
                                assert(false);
                            }
                            if x > i {
                                assert(!(self@[i as int].simplified == word@ && self@[
                                i as int].level == l as int));
                                assert(false);
                            }
                        },
                        None => {
                            assert(!(self@[i as int].simplified == word@ && self@[i as int].level
                                == l as int));
                            assert(false);
                        },
                    }
                }
                return Some(i);
            }
            i = i + 1;
        }
        proof {
            lemma_find_in_level(self@, word@, l as int);
            match find_in_level(self@, word@, l as int) {
                Some(x) => {
                    assert(!((#[trigger] self@[x]).simplified == word@ && self@[x].level
                        == l as int));
                    assert(false);
                },
                None => {},
            }
        }
        None
    }

    /// Looks a word up, searching tiers from the highest down; yields the
    /// first tier at which it is present, with the entry's handle.
    pub fn lookup(&self, word: &str) -> (r: Option<(HskLevel, PhraseIdx)>)
        ensures
            match lookup_word(self@, word@, 7) {
                Some(p) => r matches Some(q) && q.0.0 == p.0 && q.1.0 == p.1,
                None => r is None,
            },
    {
        let mut l: usize = 7;
        while l >= 1
            invariant
                l <= 7,
                lookup_word(self@, word@, 7) == lookup_word(self@, word@, l as int),
            decreases l,
        {
            match self.find_at(word, l) {
                Some(i) => {
                    return Some((HskLevel(l), PhraseIdx(i)));
                },
                None => {},
            }
            l = l - 1;
        }
        None
    }
}

/// A lexicon with a new row folded in: a duplicate (text, tier) row is
/// dropped, anything else is appended.
pub open spec fn add_row(ps: Seq<PhraseView>, text: Seq<char>, level: int) -> Seq<PhraseView> {
    if exists|i: int|
        0 <= i < ps.len() && (#[trigger] ps[i]).simplified == text && ps[i].level == level {
        ps
    } else {
        ps.push(PhraseView { simplified: text, level })
    }
}

/// The lexicon contents after folding in the first `k` rows; `None` as soon
/// as a tier label fails to parse.
pub open spec fn spec_build(rows: Seq<(Seq<char>, Seq<char>)>, k: int) -> Option<Seq<PhraseView>>
    decreases k,
{
    if k <= 0 {
        Some(Seq::empty())
    } else {
        match spec_build(rows, k - 1) {
            None => None,
            Some(ps) => match spec_parse_level(rows[k - 1].1) {
                None => None,
                Some(l) => Some(add_row(ps, rows[k - 1].0, l)),
            },
        }
    }
}

/// The view of a row list: each row as (text, tier label).
pub open spec fn rows_view(rows: Seq<(String, String)>) -> Seq<(Seq<char>, Seq<char>)> {
    rows.map_values(|p: (String, String)| (p.0@, p.1@))
}

/// Builds the lexicon from parsed tabular rows of (text, tier label).
/// Fails on the first row with an unparseable tier label, returning its
/// index; no partial load is exposed.
pub fn build_hsk(rows: &Vec<(String, String)>) -> (r: Result<Hsk, usize>)
    ensures
        match r {
            Ok(h) => spec_build(rows_view(rows@), rows@.len() as int) == Some(h@) && h.wf(),
            Err(i) => i < rows@.len() && spec_build(rows_view(rows@), i as int) is Some
                && spec_parse_level(rows@[i as int].1@) is None,
        },
{
    let ghost rv = rows_view(rows@);
    let n = rows.len();
    let mut out: Vec<HskPhrase> = Vec::new();
    let mut k: usize = 0;
    while k < n
        invariant
            n == rows@.len(),
            k <= n,
            rv == rows_view(rows@),
            spec_build(rv, k as int) == Some(out.deep_view()),
            hsk_wf(out.deep_view()),
        decreases n - k,
    {
        let text = &rows[k].0;
        let label = &rows[k].1;
        proof {
            assert(rv[k as int] == (text@, label@));
        }
        let level = match parse_level(label.as_str()) {
            Some(l) => l,
            None => {
                return Err(k);
            },
        };
        let present = {
            let mut found = false;
            let mut i: usize = 0;
            let m = out.len();
            while i < m && !found
                invariant
                    m == out.deep_view().len(),
                    i <= m,
                    found ==> exists|j: int|
                        0 <= j < m && (#[trigger] out.deep_view()[j]).simplified == text@
                            && out.deep_view()[j].level == level.0 as int,
                    !found ==> forall|j: int|
                        0 <= j < i ==> !((#[trigger] out.deep_view()[j]).simplified == text@
                            && out.deep_view()[j].level == level.0 as int),
                decreases m - i + (if found { 0int } else { 1int }),
            {
                let p = &out[i];
                if p.level.0 == level.0 && p.simplified.eq(text) {
                    proof {
                        assert(out.deep_view()[i as int].simplified == text@);
                    }
                    found = true;
                } else {
                    i = i + 1;
                }
            }
            found
        };
        let ghost old_view = out.deep_view();
        if !present {
            out.push(HskPhrase { simplified: text.clone(), level });
            proof {
                assert(out.deep_view() =~= old_view.push(
                    PhraseView { simplified: text@, level: level.0 as int },
                ));
                assert(out.deep_view() =~= add_row(old_view, text@, level.0 as int));
            }
        } else {
            proof {
                assert(out.deep_view() =~= add_row(old_view, text@, level.0 as int));
            }
        }
        k = k + 1;
    }
    let h = Hsk { phrases: out };
    proof {
        assert(h@ == out.deep_view());
    }
    Ok(h)
}

/// The per-token lookups for a whole token list; `None` as soon as any
/// token matches no tier.
pub open spec fn analyze_all(ps: Seq<PhraseView>, tokens: Seq<Seq<char>>) -> Option<
    Seq<(int, int)>,
>
    decreases tokens.len(),
{
    if tokens.len() == 0 {
        Some(Seq::empty())
    } else {
        match lookup_word(ps, tokens[0], 7) {
            None => None,
            Some(p) => match analyze_all(ps, tokens.skip(1)) {
                None => None,
                Some(rest) => Some(seq![p] + rest),
            },
        }
    }
}

/// The maximum matched tier among the per-token lookups (0 if none).
pub open spec fn max_level(pairs: Seq<(int, int)>) -> int
    decreases pairs.len(),
{
    if pairs.len() == 0 {
        0
    } else {
        let m = max_level(pairs.skip(1));
        if pairs[0].0 >= m {
            pairs[0].0
        } else {
            m
        }
    }
}

/// The handles of the tokens whose matched tier equals `m`, in token order.
pub open spec fn selected(pairs: Seq<(int, int)>, m: int) -> Seq<int>
    decreases pairs.len(),
{
    if pairs.len() == 0 {
        Seq::empty()
    } else {
        (if pairs[0].0 == m {
            seq![pairs[0].1]
        } else {
            Seq::empty()
        }) + selected(pairs.skip(1), m)
    }
}

/// What classification yields for a token list: `None` if any token fails
/// to match (strict-all-match) or if there are no tokens; otherwise the
/// handles of the tokens matched at the maximal tier, in token order.
pub open spec fn classify_spec(ps: Seq<PhraseView>, tokens: Seq<Seq<char>>) -> Option<Seq<int>> {
    match analyze_all(ps, tokens) {
        None => None,
        Some(pairs) => if pairs.len() == 0 {
            None
        } else {
            Some(selected(pairs, max_level(pairs)))
        },
    }
}

proof fn lemma_analyze_all(ps: Seq<PhraseView>, tokens: Seq<Seq<char>>)
    ensures
        match analyze_all(ps, tokens) {
            Some(pairs) => pairs.len() == tokens.len() && forall|i: int|
                0 <= i < tokens.len() ==> lookup_word(ps, tokens[i], 7) == Some(
                    #[trigger] pairs[i],
                ),
            None => exists|i: int|
                0 <= i < tokens.len() && lookup_word(ps, #[trigger] tokens[i], 7) is None,
        },
    decreases tokens.len(),
{
    if tokens.len() > 0 {
        lemma_analyze_all(ps, tokens.skip(1));
        match lookup_word(ps, tokens[0], 7) {
            None => {},
            Some(p) => {
                match analyze_all(ps, tokens.skip(1)) {
                    None => {
                        let i = choose|i: int|
                            0 <= i < tokens.skip(1).len() && lookup_word(
                                ps,
                                #[trigger] tokens.skip(1)[i],
                                7,
                            ) is None;
                        assert(tokens[i + 1] == tokens.skip(1)[i]);
                    },
                    Some(rest) => {
                        let pairs = seq![p] + rest;
                        assert forall|i: int|
                            0 <= i < tokens.len() implies lookup_word(ps, tokens[i], 7) == Some(
                            #[trigger] pairs[i],
                        ) by {
                            if i > 0 {
                                assert(tokens.skip(1)[i - 1] == tokens[i]);
                                assert(rest[i - 1] == pairs[i]);
                            }
                        }
                    },
                }
            },
        }
    }
}

proof fn lemma_max_level(pairs: Seq<(int, int)>)
    requires
        pairs.len() > 0,
        forall|i: int| 0 <= i < pairs.len() ==> (#[trigger] pairs[i]).0 >= 1,
    ensures
        exists|i: int| 0 <= i < pairs.len() && (#[trigger] pairs[i]).0 == max_level(pairs),
        forall|i: int| 0 <= i < pairs.len() ==> (#[trigger] pairs[i]).0 <= max_level(pairs),
    decreases pairs.len(),
{
    if pairs.len() == 1 {
        assert(pairs.skip(1) =~= Seq::<(int, int)>::empty());
        assert(max_level(Seq::<(int, int)>::empty()) == 0);
        assert(pairs[0].0 == max_level(pairs));
    } else {
        assert forall|i: int| 0 <= i < pairs.skip(1).len() implies (#[trigger] pairs.skip(
            1,
        )[i]).0 >= 1 by {
            assert(pairs.skip(1)[i] == pairs[i + 1]);
        }
        lemma_max_level(pairs.skip(1));
        let m = max_level(pairs.skip(1));
        if pairs[0].0 >= m {
            assert(pairs[0].0 == max_level(pairs));
            assert forall|i: int| 0 <= i < pairs.len() implies (#[trigger] pairs[i]).0 <= max_level(
                pairs,
            ) by {
                if i > 0 {
                    assert(pairs.skip(1)[i - 1] == pairs[i]);
                }
            }
        } else {
            let j = choose|j: int|
                0 <= j < pairs.skip(1).len() && (#[trigger] pairs.skip(1)[j]).0 == m;
            assert(pairs[j + 1] == pairs.skip(1)[j]);
            assert forall|i: int| 0 <= i < pairs.len() implies (#[trigger] pairs[i]).0 <= max_level(
                pairs,
            ) by {
                if i > 0 {
                    assert(pairs.skip(1)[i - 1] == pairs[i]);
                }
            }
        }
    }
}

proof fn lemma_selected_push(pairs: Seq<(int, int)>, p: (int, int), m: int)
    ensures
        selected(pairs.push(p), m) == selected(pairs, m) + (if p.0 == m {
            seq![p.1]
        } else {
            Seq::<int>::empty()
        }),
    decreases pairs.len(),
{
    let tail: Seq<int> = if p.0 == m {
        seq![p.1]
    } else {
        Seq::empty()
    };
    if pairs.len() == 0 {
        assert(pairs.push(p) =~= seq![p]);
        assert(seq![p].skip(1) =~= Seq::<(int, int)>::empty());
        assert(selected(Seq::<(int, int)>::empty(), m) == Seq::<int>::empty());
        assert(seq![p][0] == p);
        assert(selected(seq![p], m) =~= tail);
        assert(selected(pairs, m) + tail =~= tail);
    } else {
        assert(pairs.push(p).skip(1) =~= pairs.skip(1).push(p));
        assert(pairs.push(p)[0] == pairs[0]);
        lemma_selected_push(pairs.skip(1), p, m);
        let head: Seq<int> = if pairs[0].0 == m {
            seq![pairs[0].1]
        } else {
            Seq::empty()
        };
        assert(selected(pairs.push(p), m) == head + (selected(pairs.skip(1), m) + tail));
        assert(head + (selected(pairs.skip(1), m) + tail) =~= (head + selected(pairs.skip(1), m))
            + tail);
    }
}

impl Hsk {
    /// Classifies a tokenized sentence.  Strict-all-match: `None` if any
    /// token matches no tier, or if there are no tokens; otherwise the
    /// handles of exactly the tokens whose matched tier is the sentence's
    /// maximal tier, in token order (duplicates included).
    pub fn analyze(&self, words: &Vec<String>) -> (r: Option<Vec<PhraseIdx>>)
        ensures
            match classify_spec(self@, words.deep_view()) {
                Some(hs) => r matches Some(v) && v@.map_values(|p: PhraseIdx| p.0 as int) == hs
                    && forall|i: int| 0 <= i < v@.len() ==> (#[trigger] v@[i]).0 < self@.len(),
                None => r is None,
            },
{
        let ghost toks = words.deep_view();
        proof {
            lemma_analyze_all(self@, toks);
        }
        let n = words.len();
        let mut pairs: Vec<(usize, usize)> = Vec::new();
        let mut i: usize = 0;
        while i < n
            invariant
                n == toks.len(),
                toks == words.deep_view(),
                i <= n,
                pairs@.len() == i,
                forall|k: int|
                    0 <= k < i ==> lookup_word(self@, toks[k], 7) == Some((
                        (#[trigger] pairs@[k]).0 as int,
                        pairs@[k].1 as int,
                    )),
                forall|k: int| 0 <= k < i ==> (#[trigger] pairs@[k]).1 < self@.len(),
                forall|k: int| 0 <= k < i ==> 1 <= (#[trigger] pairs@[k]).0 <= 7,
            decreases n - i,
        {
            proof {
                assert(toks[i as int] == words@[i as int]@);
            }
            match self.lookup(words[i].as_str()) {
                Some((lev, idx)) => {
                    proof {
                        lemma_lookup_range(self@, toks[i as int]);
                    }
                    pairs.push((lev.0, idx.0));
                },
                None => {
                    proof {
                        lemma_analyze_all(self@, toks);
                        match analyze_all(self@, toks) {
                            Some(gp) => {
                                assert(lookup_word(self@, toks[i as int], 7) == Some(
                                    gp[i as int],
                                ));
                                assert(false);
                            },
                            None => {},
                        }
                    }
                    return None;
                },
            }
            i = i + 1;
        }
        if n == 0 {
            return None;
        }
        let ghost gpairs = analyze_all(self@, toks).unwrap();
        proof {
            match analyze_all(self@, toks) {
                None => {
                    let bad = choose|bi: int|
                        0 <= bi < toks.len() && lookup_word(self@, #[trigger] toks[bi], 7) is None;
                    assert(lookup_word(self@, toks[bad], 7) == Some((
                        pairs@[bad].0 as int,
                        pairs@[bad].1 as int,
                    )));
                    assert(false);
                },
                Some(gp) => {
                    assert(gpairs == gp);
                },
            }
            assert(gpairs.len() == n);
            assert forall|k: int| 0 <= k < n implies #[trigger] gpairs[k] == ((
            pairs@[k].0 as int,
            pairs@[k].1 as int,
            )) by {
                assert(lookup_word(self@, toks[k], 7) == Some(gpairs[k]));
            }
            assert forall|k: int| 0 <= k < n implies (#[trigger] gpairs[k]).0 >= 1 by {
                assert(gpairs[k] == (pairs@[k].0 as int, pairs@[k].1 as int));
                assert(pairs@[k].0 >= 1);
            }
            lemma_max_level(gpairs);
        }
        let mut m: usize = pairs[0].0;
        let mut best: usize = 0;
        let mut j: usize = 1;
        while j < n
            invariant
                n == gpairs.len(),
                pairs@.len() == n,
                n > 0,
                j <= n,
                best < n,
                forall|k: int| 0 <= k < n ==> #[trigger] gpairs[k] == ((pairs@[k].0 as int,
                    pairs@[k].1 as int)),
                m == pairs@[best as int].0,
                forall|k: int| 0 <= k < j ==> (#[trigger] pairs@[k]).0 <= m,
            decreases n - j,
        {
            if pairs[j].0 > m {
                m = pairs[j].0;
                best = j;
            }
            j = j + 1;
        }
        proof {
            let gm = max_level(gpairs);
            assert(gpairs[best as int].0 == m as int);
            assert(m as int <= gm);
            let w = choose|w: int| 0 <= w < gpairs.len() && (#[trigger] gpairs[w]).0 == gm;
            assert(pairs@[w].0 as int == gm);
            assert(gm <= m as int);
            assert(gm == m as int);
        }
        let mut out: Vec<PhraseIdx> = Vec::new();
        let mut t: usize = 0;
        while t < n
            invariant
                n == gpairs.len(),
                pairs@.len() == n,
                t <= n,
                m as int == max_level(gpairs),
                forall|k: int| 0 <= k < n ==> #[trigger] gpairs[k] == ((pairs@[k].0 as int,
                    pairs@[k].1 as int)),
                forall|k: int| 0 <= k < n ==> (#[trigger] pairs@[k]).1 < self@.len(),
                out@.map_values(|p: PhraseIdx| p.0 as int) == selected(gpairs.take(t as int),
                    m as int),
                forall|k: int| 0 <= k < out@.len() ==> (#[trigger] out@[k]).0 < self@.len(),
            decreases n - t,
        {
            proof {
                lemma_selected_push(gpairs.take(t as int), gpairs[t as int], m as int);
                assert(gpairs.take(t + 1) =~= gpairs.take(t as int).push(gpairs[t as int]));
            }
            if pairs[t].0 == m {
                out.push(PhraseIdx(pairs[t].1));
                proof {
                    assert(out@.map_values(|p: PhraseIdx| p.0 as int) =~= selected(
                        gpairs.take(t + 1),
                        m as int,
                    ));
                }
            } else {
                proof {
                    assert(out@.map_values(|p: PhraseIdx| p.0 as int) =~= selected(
                        gpairs.take(t + 1),
                        m as int,
                    ));
                }
            }
            t = t + 1;
        }
        proof {
            assert(gpairs.take(n as int) =~= gpairs);
        }
        Some(out)
    }
}

/// A successful lookup yields a tier in range and a handle into the entry
/// list.
proof fn lemma_lookup_range(ps: Seq<PhraseView>, word: Seq<char>)
    ensures
        match lookup_word(ps, word, 7) {
            Some(p) => 1 <= p.0 <= 7 && 0 <= p.1 < ps.len() && ps[p.1].simplified == word
                && ps[p.1].level == p.0,
            None => true,
        },
{
    lemma_lookup_range_rec(ps, word, 7);
}

proof fn lemma_lookup_range_rec(ps: Seq<PhraseView>, word: Seq<char>, l: int)
    requires
        l <= 7,
    ensures
        match lookup_word(ps, word, l) {
            Some(p) => 1 <= p.0 <= 7 && 0 <= p.1 < ps.len() && ps[p.1].simplified == word
                && ps[p.1].level == p.0,
            None => true,
        },
    decreases l,
{
    if l >= 1 {
        lemma_find_in_level(ps, word, l);
        match find_in_level(ps, word, l) {
            Some(i) => {},
            None => {
                lemma_lookup_range_rec(ps, word, l - 1);
            },
        }
    }
}

} // verus!
