//! Deck assembly: for one proficiency tier, gathers every stored snippet of
//! every entry at that tier, shuffles the pairs, stably orders them by
//! context richness (both neighbors first, then one, then none), and keeps
//! at most `DECK_SIZE` of them.  A downstream collaborator renders the
//! ordered pairs; this module only supplies them, together with the cloze
//! fields for one card.

use rand::seq::SliceRandom;
use vstd::prelude::*;

verus! {

use vstd::seq_lib::group_to_multiset_ensures;
use crate::corpus::index_view;
use crate::corpus::index_ok;
use crate::corpus::range_ok;
use crate::file_db::ByteRange;
use crate::file_db::FileDbReader;
use crate::file_db::Snippet;
use crate::file_db::spec_read;
use crate::lexicon::Hsk;
use crate::lexicon::HskLevel;
use crate::lexicon::HskPhrase;
use crate::lexicon::PhraseView;
use crate::text::cloze_close;
use crate::text::cloze_open;
use crate::text::find_from;
use crate::text::find_spec;
use crate::text::find_sub;
use crate::text::lemma_find_from;
use crate::text::make_cloze;
use crate::text::matches_at;
use crate::text::split_sentences;
use crate::text::split_spec;

/// At most this many pairs are kept per tier.
pub const DECK_SIZE: usize = 50;

/// Context richness, lower is richer: 0 with both neighbors, 1 with one,
/// 2 with none.
pub open spec fn rank_of(s: crate::file_db::SnipView) -> int {
    (if s.prefix is Some {
        0int
    } else {
        1int
    }) + (if s.suffix is Some {
        0int
    } else {
        1int
    })
}

fn rank(s: &Snippet) -> (r: usize)
    ensures
        r == rank_of(s@),
{
    let mut r: usize = 0;
    if s.prefix.is_none() {
        r = r + 1;
    }
    if s.suffix.is_none() {
        r = r + 1;
    }
    r
}

/// Relies on `rand::seq::SliceRandom::shuffle`: permutes the slice in
/// place, so the multiset of pairs is unchanged; nothing is promised about
/// the order.
#[verifier::external_body]
fn shuffle_pairs(v: &mut Vec<(Snippet, HskPhrase)>)
    ensures
        final(v)@.to_multiset() == old(v)@.to_multiset(),
{
    v.shuffle(&mut rand::rng());
}

/// A verified copy of an entry.
fn clone_phrase(p: &HskPhrase) -> (r: HskPhrase)
    ensures
        r@ == p@,
{
    HskPhrase { simplified: p.simplified.clone(), level: p.level }
}

/// Every element of a filtered sequence occurs in the source.
proof fn lemma_filter_in<A>(s: Seq<A>, pred: spec_fn(A) -> bool)
    ensures
        forall|i: int|
            0 <= i < s.filter(pred).len() ==> s.contains(#[trigger] s.filter(pred)[i]),
    decreases s.len(),
{
    reveal(Seq::filter);
    if s.len() > 0 {
        lemma_filter_in(s.drop_last(), pred);
        let out = s.filter(pred);
        let sub = s.drop_last().filter(pred);
        assert forall|i: int| 0 <= i < out.len() implies s.contains(#[trigger] out[i]) by {
            if pred(s.last()) && i == out.len() - 1 {
                assert(out[i] == s.last());
                assert(s[s.len() - 1] == s.last());
            } else {
                assert(out[i] == sub[i]);
                assert(s.drop_last().contains(sub[i]));
                let j = choose|j: int| 0 <= j < s.drop_last().len() && s.drop_last()[j] == sub[i];
                assert(s[j] == sub[i]);
            }
        }
    }
}

/// The pairs ordered by context richness: the stable bucket order, i.e.
/// exactly the rank-0 pairs in their original order, then the rank-1
/// pairs, then the rank-2 pairs.
pub open spec fn bucketed(v: Seq<(Snippet, HskPhrase)>) -> Seq<(Snippet, HskPhrase)> {
    v.filter(|p: (Snippet, HskPhrase)| rank_of(p.0@) == 0) + v.filter(
        |p: (Snippet, HskPhrase)| rank_of(p.0@) == 1,
    ) + v.filter(|p: (Snippet, HskPhrase)| rank_of(p.0@) == 2)
}

/// Stably sorts the pairs by context richness.
fn sort_by_context(v: Vec<(Snippet, HskPhrase)>) -> (r: Vec<(Snippet, HskPhrase)>)
    ensures
        r@ == bucketed(v@),
        forall|i: int, j: int| 0 <= i < j < r@.len() ==> rank_of((#[trigger] r@[i]).0@) <= rank_of(
            (#[trigger] r@[j]).0@,
        ),
        forall|i: int| 0 <= i < r@.len() ==> v@.contains(#[trigger] r@[i]),
{
    broadcast use vstd::seq_lib::group_filter_ensures;

    let ghost gv = v@;
    let mut b0: Vec<(Snippet, HskPhrase)> = Vec::new();
    let mut b1: Vec<(Snippet, HskPhrase)> = Vec::new();
    let mut b2: Vec<(Snippet, HskPhrase)> = Vec::new();
    let n = v.len();
    let mut i: usize = 0;
    let mut rest = v;
    proof {
        assert(gv.take(0) =~= Seq::<(Snippet, HskPhrase)>::empty());
        assert(gv.skip(0) =~= gv);
        reveal(Seq::filter);
        assert(b0@ =~= gv.take(0).filter(|p: (Snippet, HskPhrase)| rank_of(p.0@) == 0));
        assert(b1@ =~= gv.take(0).filter(|p: (Snippet, HskPhrase)| rank_of(p.0@) == 1));
        assert(b2@ =~= gv.take(0).filter(|p: (Snippet, HskPhrase)| rank_of(p.0@) == 2));
    }
    while i < n
        invariant
            n == gv.len(),
            rest@ == gv.skip(i as int),
            i <= n,
            b0@ == gv.take(i as int).filter(|p: (Snippet, HskPhrase)| rank_of(p.0@) == 0),
            b1@ == gv.take(i as int).filter(|p: (Snippet, HskPhrase)| rank_of(p.0@) == 1),
            b2@ == gv.take(i as int).filter(|p: (Snippet, HskPhrase)| rank_of(p.0@) == 2),
        decreases n - i,
    {
        let el = rest.remove(0);
        proof {
            assert(gv.skip(i as int)[0] == gv[i as int]);
            assert(el == gv[i as int]);
            assert(rest@ =~= gv.skip(i + 1));
        }
        let rk = rank(&el.0);
        proof {
            let pred0 = |p: (Snippet, HskPhrase)| rank_of(p.0@) == 0;
            let pred1 = |p: (Snippet, HskPhrase)| rank_of(p.0@) == 1;
            let pred2 = |p: (Snippet, HskPhrase)| rank_of(p.0@) == 2;
            let t = gv.take(i as int);
            assert(gv.take(i + 1) =~= t.push(el));
            reveal(Seq::filter);
            assert(t.push(el).drop_last() =~= t);
            assert(t.push(el).filter(pred0) == (if pred0(el) {
                t.filter(pred0).push(el)
            } else {
                t.filter(pred0)
            }));
            assert(t.push(el).filter(pred1) == (if pred1(el) {
                t.filter(pred1).push(el)
            } else {
                t.filter(pred1)
            }));
            assert(t.push(el).filter(pred2) == (if pred2(el) {
                t.filter(pred2).push(el)
            } else {
                t.filter(pred2)
            }));
        }
        if rk == 0 {
            b0.push(el);
        } else if rk == 1 {
            b1.push(el);
        } else {
            proof {
                assert(rank_of(el.0@) == 2);
            }
            b2.push(el);
        }
        i = i + 1;
    }
    proof {
        assert(gv.take(n as int) =~= gv);
    }
    let mut r = b0;
    let mut b1m = b1;
    let mut b2m = b2;
    r.append(&mut b1m);
    r.append(&mut b2m);
    proof {
        let pred0 = |p: (Snippet, HskPhrase)| rank_of(p.0@) == 0;
        let pred1 = |p: (Snippet, HskPhrase)| rank_of(p.0@) == 1;
        let pred2 = |p: (Snippet, HskPhrase)| rank_of(p.0@) == 2;
        assert(r@ == gv.filter(pred0) + gv.filter(pred1) + gv.filter(pred2));
        let f0 = gv.filter(pred0);
        let f1 = gv.filter(pred1);
        let f2 = gv.filter(pred2);
        assert forall|i2: int, j2: int| 0 <= i2 < j2 < r@.len() implies rank_of(
            (#[trigger] r@[i2]).0@,
        ) <= rank_of((#[trigger] r@[j2]).0@) by {
            assert(forall|k: int| 0 <= k < f0.len() ==> rank_of((#[trigger] f0[k]).0@) == 0);
            assert(forall|k: int| 0 <= k < f1.len() ==> rank_of((#[trigger] f1[k]).0@) == 1);
            assert(forall|k: int| 0 <= k < f2.len() ==> rank_of((#[trigger] f2[k]).0@) == 2);
            if i2 < f0.len() {
                assert(r@[i2] == f0[i2]);
            } else if i2 < f0.len() + f1.len() {
                assert(r@[i2] == f1[i2 - f0.len()]);
            } else {
                assert(r@[i2] == f2[i2 - f0.len() - f1.len()]);
            }
            if j2 < f0.len() {
                assert(r@[j2] == f0[j2]);
            } else if j2 < f0.len() + f1.len() {
                assert(r@[j2] == f1[j2 - f0.len()]);
            } else {
                assert(r@[j2] == f2[j2 - f0.len() - f1.len()]);
            }
        }
        lemma_filter_in(gv, pred0);
        lemma_filter_in(gv, pred1);
        lemma_filter_in(gv, pred2);
        assert forall|i2: int| 0 <= i2 < r@.len() implies gv.contains(#[trigger] r@[i2]) by {
            if i2 < f0.len() {
                assert(r@[i2] == f0[i2]);
            } else if i2 < f0.len() + f1.len() {
                assert(r@[i2] == f1[i2 - f0.len()]);
            } else {
                assert(r@[i2] == f2[i2 - f0.len() - f1.len()]);
            }
        }
    }
    r
}

/// The filters by rank split a pair sequence without loss.
proof fn lemma_bucket_len(v: Seq<(Snippet, HskPhrase)>)
    ensures
        bucketed(v).len() == v.len(),
    decreases v.len(),
{
    reveal(Seq::filter);
    if v.len() > 0 {
        lemma_bucket_len(v.drop_last());
        let last = v.last();
        assert(0 <= rank_of(last.0@) <= 2);
    }
}

/// The number of ranges filed under entries of a tier, among the first `k`
/// entries.
pub open spec fn level_total(
    ps: Seq<PhraseView>,
    idx: Seq<Seq<ByteRange>>,
    lvl: int,
    k: int,
) -> int
    decreases k,
{
    if k <= 0 {
        0
    } else {
        level_total(ps, idx, lvl, k - 1) + (if ps[k - 1].level == lvl {
            idx[k - 1].len() as int
        } else {
            0
        })
    }
}

/// A pair is accounted for at a tier: its entry is a lexicon entry of that
/// tier, and its snippet reads back from some range filed under that
/// entry's handle.
pub open spec fn pair_ok(
    store: Seq<u8>,
    ps: Seq<PhraseView>,
    idx: Seq<Seq<ByteRange>>,
    lvl: int,
    pr: (Snippet, HskPhrase),
) -> bool {
    exists|pi: int|
        {
            &&& 0 <= pi < ps.len()
            &&& pr.1@ == ps[pi]
            &&& ps[pi].level == lvl
            &&& exists|k: int|
                0 <= k < idx[pi].len() && spec_read(store, #[trigger] idx[pi][k]) == Some(pr.0@)
        }
}

/// Assembles the deck pairs for one tier: every stored snippet of every
/// entry at that tier, shuffled, stably ordered by context richness, and
/// cut to at most `DECK_SIZE`.
pub fn build_decks(
    hsk: &Hsk,
    reader: &FileDbReader,
    index: &Vec<Vec<ByteRange>>,
    level: HskLevel,
) -> (r: Vec<(Snippet, HskPhrase)>)
    requires
        hsk.wf(),
        index@.len() == hsk@.len(),
        index_ok(reader@, hsk@, index_view(index@)),
    ensures
        r@.len() == vstd::math::min(
            DECK_SIZE as int,
            level_total(hsk@, index_view(index@), level.0 as int, hsk@.len() as int),
        ),
        forall|i: int, j: int| 0 <= i < j < r@.len() ==> rank_of((#[trigger] r@[i]).0@) <= rank_of(
            (#[trigger] r@[j]).0@,
        ),
        forall|i: int|
            0 <= i < r@.len() ==> pair_ok(
                reader@,
                hsk@,
                index_view(index@),
                level.0 as int,
                #[trigger] r@[i],
            ),
{
    broadcast use group_to_multiset_ensures;

    let ghost ps = hsk@;
    let ghost iv = index_view(index@);
    let n = hsk.len();
    let mut pairs: Vec<(Snippet, HskPhrase)> = Vec::new();
    let mut pi: usize = 0;
    while pi < n
        invariant
            hsk.wf(),
            ps == hsk@,
            iv == index_view(index@),
            index@.len() == n,
            n == ps.len(),
            pi <= n,
            index_ok(reader@, ps, iv),
            pairs@.len() == level_total(ps, iv, level.0 as int, pi as int),
            forall|i: int|
                0 <= i < pairs@.len() ==> pair_ok(
                    reader@,
                    ps,
                    iv,
                    level.0 as int,
                    #[trigger] pairs@[i],
                ),
        decreases n - pi,
    {
        let phrase = hsk.phrase(crate::lexicon::PhraseIdx(pi));
        if phrase.level.0 == level.0 {
            let ranges = &index[pi];
            let m = ranges.len();
            proof {
                assert(iv[pi as int] == index@[pi as int]@);
            }
            let mut k: usize = 0;
            while k < m
                invariant
                    hsk.wf(),
                    ps == hsk@,
                    iv == index_view(index@),
                    index@.len() == n,
                    n == ps.len(),
                    pi < n,
                    m == index@[pi as int]@.len(),
                    k <= m,
                    phrase@ == ps[pi as int],
                    ps[pi as int].level == level.0 as int,
                    index_ok(reader@, ps, iv),
                    m == iv[pi as int].len(),
                    pairs@.len() == level_total(ps, iv, level.0 as int, pi as int) + k,
                    forall|i: int|
                        0 <= i < pairs@.len() ==> pair_ok(
                            reader@,
                            ps,
                            iv,
                            level.0 as int,
                            #[trigger] pairs@[i],
                        ),
                decreases m - k,
            {
                let rg = index[pi][k];
                proof {
                    assert(iv[pi as int] == index@[pi as int]@);
                    assert(range_ok(reader@, ps, pi as int, iv[pi as int][k as int]));
                }
                match reader.read(rg) {
                    Some(snippet) => {
                        let pr = (snippet, clone_phrase(phrase));
                        proof {
                            assert(spec_read(reader@, rg) == Some(pr.0@));
                            assert(iv[pi as int][k as int] == rg);
                        }
                        pairs.push(pr);
                    },
                    None => {
                        proof {
                            assert(spec_read(reader@, rg) is Some);
                            assert(false);
                        }
                    },
                }
                k = k + 1;
            }
            proof {
                assert(level_total(ps, iv, level.0 as int, pi + 1) == level_total(
                    ps,
                    iv,
                    level.0 as int,
                    pi as int,
                ) + iv[pi as int].len());
            }
        } else {
            proof {
                assert(ps[pi as int].level != level.0 as int);
                assert(level_total(ps, iv, level.0 as int, pi + 1) == level_total(
                    ps,
                    iv,
                    level.0 as int,
                    pi as int,
                ));
            }
        }
        pi = pi + 1;
    }
    let ghost gathered = pairs@;
    shuffle_pairs(&mut pairs);
    proof {
        assert forall|i: int| 0 <= i < pairs@.len() implies pair_ok(
            reader@,
            ps,
            iv,
            level.0 as int,
            #[trigger] pairs@[i],
        ) by {
            assert(pairs@.contains(pairs@[i]));
            assert(pairs@.to_multiset().count(pairs@[i]) > 0);
            assert(gathered.to_multiset().count(pairs@[i]) > 0);
            assert(gathered.contains(pairs@[i]));
            let j = choose|j: int| 0 <= j < gathered.len() && gathered[j] == pairs@[i];
            assert(pair_ok(reader@, ps, iv, level.0 as int, gathered[j]));
        }
        assert(pairs@.len() == pairs@.to_multiset().len());
        assert(gathered.len() == gathered.to_multiset().len());
        assert(pairs@.len() == gathered.len());
    }
    let ghost shuffled = pairs@;
    let mut sorted = sort_by_context(pairs);
    proof {
        assert forall|i: int| 0 <= i < sorted@.len() implies pair_ok(
            reader@,
            ps,
            iv,
            level.0 as int,
            #[trigger] sorted@[i],
        ) by {
            assert(shuffled.contains(sorted@[i]));
            let j = choose|j: int| 0 <= j < shuffled.len() && shuffled[j] == sorted@[i];
        }
    }
    proof {
        lemma_bucket_len(shuffled);
        assert(sorted@.len() == level_total(ps, iv, level.0 as int, n as int));
    }
    sorted.truncate(DECK_SIZE);
    proof {
        assert(sorted@ =~= bucketed(shuffled).take(
            vstd::math::min(DECK_SIZE as int, bucketed(shuffled).len() as int),
        ));
    }
    sorted
}

/// The three rendered fields of one card: the cloze sentence and the
/// neighbor texts (empty when absent).
pub struct CardFields {
    pub cloze: String,
    pub prefix: String,
    pub suffix: String,
}

/// The first (sentence, position) at which the phrase occurs among the
/// sentences, scanning sentences in order from `i`.
pub open spec fn first_hit(sents: Seq<Seq<char>>, ph: Seq<char>, i: int) -> Option<(int, int)>
    decreases sents.len() - i,
{
    if i < 0 || i >= sents.len() {
        None
    } else {
        match find_spec(sents[i], ph) {
            Some(loc) => Some((i, loc)),
            None => first_hit(sents, ph, i + 1),
        }
    }
}

/// Builds the card fields for a snippet and the phrase it illustrates: the
/// snippet's sentence text is split into sentences, the first sentence
/// containing the phrase gets the phrase wrapped in cloze markers at its
/// first occurrence, and the neighbor texts are passed through (empty when
/// absent).  `None` when no sentence contains the phrase.
pub fn build_card(snippet: &Snippet, phrase: &str) -> (r: Option<CardFields>)
    ensures
        r is Some <==> first_hit(split_spec(snippet.sentence@), phrase@, 0) is Some,
        r matches Some(cf) ==> ({
            let sents = split_spec(snippet.sentence@);
            let hit = first_hit(sents, phrase@, 0).unwrap();
            &&& 0 <= hit.0 < sents.len()
            &&& 0 <= hit.1
            &&& hit.1 + phrase@.len() <= sents[hit.0].len()
            &&& cf.cloze@ == sents[hit.0].take(hit.1) + cloze_open() + phrase@ + cloze_close()
                + sents[hit.0].skip(hit.1 + phrase@.len())
            &&& cf.prefix@ == (match snippet.prefix {
                Some(p) => p@,
                None => Seq::<char>::empty(),
            })
            &&& cf.suffix@ == (match snippet.suffix {
                Some(s) => s@,
                None => Seq::<char>::empty(),
            })
        }),
{
    let sents = split_sentences(snippet.sentence.as_str());
    let ghost sv = split_spec(snippet.sentence@);
    let n = sents.len();
    let mut i: usize = 0;
    while i < n
        invariant
            sv == sents.deep_view(),
            sv == split_spec(snippet.sentence@),
            n == sents@.len(),
            i <= n,
            first_hit(sv, phrase@, 0) == first_hit(sv, phrase@, i as int),
        decreases n - i,
    {
        proof {
            assert(sv[i as int] == sents@[i as int]@);
        }
        match find_sub(sents[i].as_str(), phrase) {
            Some(loc) => {
                proof {
                    lemma_find_from(sv[i as int], phrase@, 0);
                    match find_spec(sv[i as int], phrase@) {
                        Some(fl) => {
                            if fl < loc {
                                assert(!matches_at(sv[i as int], phrase@, fl));
                                assert(false);
                            }
                            if fl > loc {
                                assert(!matches_at(sv[i as int], phrase@, loc as int));
                                assert(false);
                            }
                        },
                        None => {
                            assert(!matches_at(sv[i as int], phrase@, loc as int));
                            assert(false);
                        },
                    }
                    assert(find_spec(sv[i as int], phrase@) == Some(loc as int));
                    assert(first_hit(sv, phrase@, i as int) == Some((i as int, loc as int)));
                    assert(first_hit(sv, phrase@, 0) == Some((i as int, loc as int)));
                }
                let cloze = make_cloze(sents[i].as_str(), phrase, loc);
                let prefix = match &snippet.prefix {
                    Some(p) => p.clone(),
                    None => String::new(),
                };
                let suffix = match &snippet.suffix {
                    Some(s) => s.clone(),
                    None => String::new(),
                };
                proof {
                    assert(cloze@ == sv[i as int].take(loc as int) + cloze_open() + phrase@
                        + cloze_close() + sv[i as int].skip(loc + phrase@.len()));
                    assert(prefix@ == (match snippet.prefix {
                        Some(p) => p@,
                        None => Seq::<char>::empty(),
                    }));
                    assert(suffix@ == (match snippet.suffix {
                        Some(s) => s@,
                        None => Seq::<char>::empty(),
                    }));
                }
                return Some(CardFields { cloze, prefix, suffix });
            },
            None => {
                proof {
                    lemma_find_from(sv[i as int], phrase@, 0);
                    match find_spec(sv[i as int], phrase@) {
                        Some(fl) => {
                            assert(matches_at(sv[i as int], phrase@, fl));
                            assert(false);
                        },
                        None => {},
                    }
                }
            },
        }
        i = i + 1;
    }
    proof {
        assert(first_hit(sv, phrase@, n as int) is None);
    }
    None
}

} // verus!
