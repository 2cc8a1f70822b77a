//! The corpus indexer: a single pass over corpus records that filters by
//! quality score, escapes the text for safe embedding in rendered output,
//! splits it into sentences, classifies each sentence, writes qualifying
//! sentences (with neighboring-sentence context) through the record store,
//! and accumulates byte ranges keyed by vocabulary handle.

use unicode_segmentation::UnicodeSegmentation;
use vstd::prelude::*;

verus! {

use crate::file_db::ByteRange;
use crate::file_db::FileDbWriter;
use crate::file_db::Snippet;
use crate::file_db::SnipView;
use crate::file_db::spec_encode_snippet;
use crate::file_db::spec_decode_snippet;
use crate::lexicon::Hsk;
use crate::lexicon::PhraseIdx;
use crate::lexicon::PhraseView;
use crate::lexicon::classify_spec;
use crate::text::split_sentences;
use crate::text::split_spec;

/// A corpus record: its text and its quality score in millionths (a score
/// of 0.8 is 800000 millionths).
pub struct CorpusEntry {
    pub text: String,
    pub score_micros: u64,
}

/// Records scoring strictly below this many millionths are skipped.
pub const SCORE_THRESHOLD_MICROS: u64 = 800000;

/// Classified sentences shorter than this many grapheme clusters are
/// skipped.
pub const LEN_THRESHOLD: usize = 10;

/// What the word segmenter yields for a sentence: a sequence of word
/// strings covering the sentence.  The tokenization algorithm itself is an
/// external collaborator; only its output shape is relied upon.
pub uninterp spec fn cut_of(s: Seq<char>) -> Seq<Seq<char>>;

/// The number of grapheme clusters (user-perceived characters) of a text.
pub uninterp spec fn grapheme_count(s: Seq<char>) -> nat;

/// Declares the outside segmenter type so that a field may hold it; the
/// value is opaque to the verifier.
#[verifier::external_type_specification]
#[verifier::external_body]
pub struct ExJieba(jieba_rs::Jieba);

/// The word segmenter: a dictionary/statistical tokenizer over its crate's
/// embedded default dictionary.
pub struct Segmenter {
    inner: jieba_rs::Jieba,
}

impl Segmenter {
    /// Relies on `jieba_rs::Jieba::new`: builds the segmenter over the
    /// crate's embedded default dictionary.
    #[verifier::external_body]
    pub fn new() -> (r: Segmenter) {
        Segmenter { inner: jieba_rs::Jieba::new() }
    }

    /// Relies on `jieba_rs::Jieba::cut` with HMM disabled: over the fixed
    /// default dictionary the token list is a deterministic function of the
    /// sentence text alone.
    #[verifier::external_body]
    pub(crate) fn cut(&self, sentence: &str) -> (r: Vec<String>)
        ensures
            r.deep_view() == cut_of(sentence@),
    {
        self.inner.cut(sentence, false).into_iter().map(|t| t.word.to_string()).collect()
    }
}

/// Relies on `unicode_segmentation::UnicodeSegmentation::graphemes` with
/// extended grapheme clusters: counts user-perceived characters.
#[verifier::external_body]
fn grapheme_len(s: &str) -> (r: usize)
    ensures
        r == grapheme_count(s@),
        s@.len() == 0 ==> r == 0,
{
    s.graphemes(true).count()
}

/// How one character is escaped for safe embedding in rendered output.
pub open spec fn escape_char(c: char) -> Seq<char> {
    if c == '&' {
        seq!['&', 'a', 'm', 'p', ';']
    } else if c == '<' {
        seq!['&', 'l', 't', ';']
    } else if c == '>' {
        seq!['&', 'g', 't', ';']
    } else if c == '"' {
        seq!['&', 'q', 'u', 'o', 't', ';']
    } else if c == '\'' {
        seq!['&', '#', 'x', '2', '7', ';']
    } else if c == '/' {
        seq!['&', '#', 'x', '2', 'F', ';']
    } else {
        seq![c]
    }
}

/// A text with every markup-significant character escaped.
pub open spec fn escape_text(s: Seq<char>) -> Seq<char>
    decreases s.len(),
{
    if s.len() == 0 {
        Seq::empty()
    } else {
        escape_char(s[0]) + escape_text(s.skip(1))
    }
}

/// Relies on `html_escape::encode_safe`: replaces each of `&`, `<`, `>`,
/// `"`, `'` and `/` by its HTML entity and leaves every other character
/// unchanged.
#[verifier::external_body]
fn escape_safe(s: &str) -> (r: String)
    ensures
        r@ == escape_text(s@),
{
    html_escape::encode_safe(s).into_owned()
}

/// A range list with consecutive duplicates removed (the value kept is the
/// shared one).
pub open spec fn dedup_spec(s: Seq<ByteRange>) -> Seq<ByteRange>
    decreases s.len(),
{
    if s.len() == 0 {
        Seq::empty()
    } else if s.len() >= 2 && s[0] == s[1] {
        dedup_spec(s.skip(1))
    } else {
        seq![s[0]] + dedup_spec(s.skip(1))
    }
}

proof fn lemma_dedup_first(s: Seq<ByteRange>)
    requires
        s.len() > 0,
    ensures
        dedup_spec(s).len() > 0,
        dedup_spec(s)[0] == s[0],
        dedup_spec(s).last() == s.last(),
    decreases s.len(),
{
    if s.len() >= 2 {
        lemma_dedup_first(s.skip(1));
        if !(s[0] == s[1]) {
            assert(dedup_spec(s) == seq![s[0]] + dedup_spec(s.skip(1)));
            assert(s.skip(1).last() == s.last());
        } else {
            assert(s.skip(1)[0] == s[1]);
            assert(s.skip(1).last() == s.last());
        }
    } else {
        assert(s.skip(1) =~= Seq::<ByteRange>::empty());
        assert(dedup_spec(Seq::<ByteRange>::empty()) == Seq::<ByteRange>::empty());
        assert(dedup_spec(s) =~= seq![s[0]]);
    }
}

proof fn lemma_dedup_no_adjacent(s: Seq<ByteRange>)
    ensures
        forall|i: int|
            0 <= i < dedup_spec(s).len() - 1 ==> #[trigger] dedup_spec(s)[i] != dedup_spec(s)[i
                + 1],
    decreases s.len(),
{
    if s.len() >= 2 {
        lemma_dedup_no_adjacent(s.skip(1));
        if s[0] == s[1] {
            let d = dedup_spec(s);
            let dt = dedup_spec(s.skip(1));
            assert(d == dt);
            assert forall|i: int| 0 <= i < d.len() - 1 implies #[trigger] d[i] != d[i + 1] by {
                assert(dt[i] != dt[i + 1]);
            }
        } else {
            lemma_dedup_first(s.skip(1));
            let d = dedup_spec(s);
            let dt = dedup_spec(s.skip(1));
            assert(d == seq![s[0]] + dt);
            assert(d[0] == s[0]);
            assert(dt[0] == s[1]);
            assert forall|i: int| 0 <= i < d.len() - 1 implies #[trigger] d[i] != d[i + 1] by {
                if i == 0 {
                    assert(d[1] == dt[0]);
                } else {
                    assert(d[i] == dt[i - 1]);
                    assert(d[i + 1] == dt[i]);
                }
            }
        }
    } else if s.len() == 1 {
        assert(s.skip(1) =~= Seq::<ByteRange>::empty());
        assert(dedup_spec(Seq::<ByteRange>::empty()) == Seq::<ByteRange>::empty());
        assert(dedup_spec(s) =~= seq![s[0]]);
    }
}

proof fn lemma_dedup_of_distinct(s: Seq<ByteRange>)
    requires
        forall|i: int| 0 <= i < s.len() - 1 ==> #[trigger] s[i] != s[i + 1],
    ensures
        dedup_spec(s) == s,
    decreases s.len(),
{
    if s.len() == 0 {
        assert(dedup_spec(s) =~= s);
    } else if s.len() == 1 {
        assert(s.skip(1) =~= Seq::<ByteRange>::empty());
        assert(dedup_spec(Seq::<ByteRange>::empty()) == Seq::<ByteRange>::empty());
        assert(dedup_spec(s) =~= s);
    } else {
        assert(s[0] != s[1]);
        assert forall|i: int| 0 <= i < s.skip(1).len() - 1 implies #[trigger] s.skip(1)[i] != s.skip(
            1,
        )[i + 1] by {
            assert(s.skip(1)[i] == s[i + 1]);
            assert(s.skip(1)[i + 1] == s[i + 2]);
        }
        lemma_dedup_of_distinct(s.skip(1));
        assert(dedup_spec(s) =~= s);
    }
}

/// Deduplicating a range list twice yields the same result as once.
pub proof fn lemma_dedup_idempotent(s: Seq<ByteRange>)
    ensures
        dedup_spec(dedup_spec(s)) == dedup_spec(s),
{
    lemma_dedup_no_adjacent(s);
    lemma_dedup_of_distinct(dedup_spec(s));
}

/// Deduplication neither invents nor loses range values.
proof fn lemma_dedup_contains(s: Seq<ByteRange>)
    ensures
        forall|x: ByteRange| dedup_spec(s).contains(x) == s.contains(x),
    decreases s.len(),
{
    if s.len() >= 1 {
        lemma_dedup_contains(s.skip(1));
        assert forall|x: ByteRange| dedup_spec(s).contains(x) == s.contains(x) by {
            if s.len() >= 2 && s[0] == s[1] {
                if s.contains(x) {
                    let i = choose|i: int| 0 <= i < s.len() && s[i] == x;
                    if i == 0 {
                        assert(s.skip(1)[0] == x);
                        assert(s.skip(1).contains(x));
                    } else {
                        assert(s.skip(1)[i - 1] == x);
                        assert(s.skip(1).contains(x));
                    }
                }
                if s.skip(1).contains(x) {
                    let i = choose|i: int| 0 <= i < s.skip(1).len() && s.skip(1)[i] == x;
                    assert(s[i + 1] == x);
                    assert(s.contains(x));
                }
            } else {
                let d = dedup_spec(s);
                if s.contains(x) {
                    let i = choose|i: int| 0 <= i < s.len() && s[i] == x;
                    if i == 0 {
                        assert(d[0] == x);
                        assert(d.contains(x));
                    } else {
                        assert(s.skip(1)[i - 1] == x);
                        assert(s.skip(1).contains(x));
                        let j = choose|j: int|
                            0 <= j < dedup_spec(s.skip(1)).len() && dedup_spec(s.skip(1))[j] == x;
                        assert(d[j + 1] == x);
                        assert(d.contains(x));
                    }
                }
                if d.contains(x) {
                    let i = choose|i: int| 0 <= i < d.len() && d[i] == x;
                    if i == 0 {
                        assert(s[0] == x);
                        assert(s.contains(x));
                    } else {
                        assert(dedup_spec(s.skip(1))[i - 1] == x);
                        assert(dedup_spec(s.skip(1)).contains(x));
                        assert(s.skip(1).contains(x));
                        let j = choose|j: int| 0 <= j < s.skip(1).len() && s.skip(1)[j] == x;
                        assert(s[j + 1] == x);
                        assert(s.contains(x));
                    }
                }
            }
        }
    }
}

proof fn lemma_dedup_push(s: Seq<ByteRange>, x: ByteRange)
    ensures
        dedup_spec(s.push(x)) == (if s.len() > 0 && s.last() == x {
            dedup_spec(s)
        } else {
            dedup_spec(s) + seq![x]
        }),
    decreases s.len(),
{
    if s.len() == 0 {
        assert(s.push(x) =~= seq![x]);
        assert(seq![x].skip(1) =~= Seq::<ByteRange>::empty());
        assert(dedup_spec(Seq::<ByteRange>::empty()) == Seq::<ByteRange>::empty());
        assert(dedup_spec(seq![x]) =~= seq![x]);
        assert(dedup_spec(s) + seq![x] =~= seq![x]);
    } else {
        assert(s.push(x).skip(1) =~= s.skip(1).push(x));
        assert(s.push(x)[0] == s[0]);
        assert(s.push(x)[1] == (if s.len() >= 2 {
            s[1]
        } else {
            x
        }));
        lemma_dedup_push(s.skip(1), x);
        if s.len() == 1 {
            assert(s.skip(1) =~= Seq::<ByteRange>::empty());
            assert(dedup_spec(Seq::<ByteRange>::empty()) == Seq::<ByteRange>::empty());
            assert(seq![x].skip(1) =~= Seq::<ByteRange>::empty());
            if s[0] == x {
                assert(dedup_spec(s.push(x)) == dedup_spec(s.push(x).skip(1)));
                assert(s.push(x).skip(1) =~= seq![x]);
                assert(dedup_spec(seq![x]) =~= seq![x]);
                assert(dedup_spec(s) =~= seq![s[0]]);
            } else {
                assert(dedup_spec(s.push(x)) == seq![s[0]] + dedup_spec(s.skip(1).push(x)));
                assert(dedup_spec(s) =~= seq![s[0]]);
                assert(seq![s[0]] + (dedup_spec(s.skip(1)) + seq![x]) =~= dedup_spec(s)
                    + seq![x]);
            }
        } else {
            assert(s.last() == s.skip(1).last());
            if s[0] == s[1] {
                assert(dedup_spec(s.push(x)) == dedup_spec(s.skip(1).push(x)));
            } else {
                assert(dedup_spec(s.push(x)) == seq![s[0]] + dedup_spec(s.skip(1).push(x)));
                if s.last() == x {
                    assert(seq![s[0]] + dedup_spec(s.skip(1)) == dedup_spec(s));
                } else {
                    assert(seq![s[0]] + (dedup_spec(s.skip(1)) + seq![x]) =~= (seq![s[0]]
                        + dedup_spec(s.skip(1))) + seq![x]);
                }
            }
        }
    }
}

/// Removes consecutive duplicate ranges from a list.
pub fn dedup_ranges(v: &Vec<ByteRange>) -> (r: Vec<ByteRange>)
    ensures
        r@ == dedup_spec(v@),
{
    let mut out: Vec<ByteRange> = Vec::new();
    let n = v.len();
    let mut i: usize = 0;
    proof {
        assert(v@.take(0) =~= Seq::<ByteRange>::empty());
    }
    while i < n
        invariant
            n == v@.len(),
            i <= n,
            out@ == dedup_spec(v@.take(i as int)),
        decreases n - i,
    {
        let x = v[i];
        proof {
            lemma_dedup_push(v@.take(i as int), x);
            assert(v@.take(i + 1) =~= v@.take(i as int).push(x));
            if i > 0 {
                lemma_dedup_first(v@.take(i as int));
                assert(v@.take(i as int).last() == v@[i - 1]);
            }
        }
        if out.len() > 0 {
            let last = out[out.len() - 1];
            if last.start == x.start && last.end == x.end {
                proof {
                    assert(out@.last() == last);
                    assert(last == x);
                }
                i = i + 1;
                continue ;
            }
        }
        proof {
            if i > 0 {
                assert(out@.last() == dedup_spec(v@.take(i as int)).last());
            }
            assert(out@ + seq![x] =~= out@.push(x));
        }
        out.push(x);
        i = i + 1;
    }
    proof {
        assert(v@.take(n as int) =~= v@);
    }
    out
}

/// The view of a handle-indexed list of range lists.
pub open spec fn index_view(v: Seq<Vec<ByteRange>>) -> Seq<Seq<ByteRange>> {
    v.map_values(|x: Vec<ByteRange>| x@)
}

/// A range is accounted for: it lies inside the store, decodes to a
/// snippet, and the snippet's sentence classifies to a handle set that
/// contains `h` (at the sentence's maximal tier).
pub open spec fn range_ok(buf: Seq<u8>, ps: Seq<PhraseView>, h: int, r: ByteRange) -> bool {
    &&& r.start <= r.end
    &&& r.end <= buf.len()
    &&& match spec_decode_snippet(buf.subrange(r.start as int, r.end as int)) {
        Some(v) => match classify_spec(ps, cut_of(v.sentence)) {
            Some(hs) => hs.contains(h),
            None => false,
        },
        None => false,
    }
}

/// Range integrity: every range filed under a handle is accounted for.
pub open spec fn index_ok(buf: Seq<u8>, ps: Seq<PhraseView>, idx: Seq<Seq<ByteRange>>) -> bool {
    &&& idx.len() == ps.len()
    &&& forall|h: int, k: int|
        0 <= h < idx.len() && 0 <= k < idx[h].len() ==> range_ok(buf, ps, h, #[trigger] idx[h][k])
}

/// The snippet built around sentence `i`: the sentence plus the literal
/// text of its immediate neighbors, present exactly when a neighbor exists.
pub open spec fn snip_of(sents: Seq<Seq<char>>, i: int) -> SnipView {
    SnipView {
        prefix: if i > 0 {
            Some(sents[i - 1])
        } else {
            None
        },
        sentence: sents[i],
        suffix: if i < sents.len() - 1 {
            Some(sents[i + 1])
        } else {
            None
        },
    }
}

/// The index with `r` appended to the range list of every handle in `hs`,
/// in order (one append per occurrence).
pub open spec fn push_ranges(idx: Seq<Seq<ByteRange>>, hs: Seq<int>, r: ByteRange) -> Seq<
    Seq<ByteRange>,
>
    decreases hs.len(),
{
    if hs.len() == 0 {
        idx
    } else {
        let h = hs[0];
        let idx1 = if 0 <= h < idx.len() {
            idx.update(h, idx[h].push(r))
        } else {
            idx
        };
        push_ranges(idx1, hs.skip(1), r)
    }
}

/// The store and index after the sentences of one record from position `i`
/// on are processed: a sentence that classified and is at least
/// `LEN_THRESHOLD` grapheme clusters long is written as a snippet with its
/// neighbors, and the returned range is filed under every emitted handle.
pub open spec fn step_sentences(
    ps: Seq<PhraseView>,
    buf: Seq<u8>,
    idx: Seq<Seq<ByteRange>>,
    sents: Seq<Seq<char>>,
    i: int,
) -> (Seq<u8>, Seq<Seq<ByteRange>>)
    decreases sents.len() - i,
{
    if i < 0 || i >= sents.len() {
        (buf, idx)
    } else {
        let next = match classify_spec(ps, cut_of(sents[i])) {
            None => (buf, idx),
            Some(hs) => if grapheme_count(sents[i]) < LEN_THRESHOLD {
                (buf, idx)
            } else {
                let enc = spec_encode_snippet(snip_of(sents, i));
                let r = ByteRange {
                    start: buf.len() as u64,
                    end: (buf.len() + enc.len()) as u64,
                };
                (buf + enc, push_ranges(idx, hs, r))
            },
        };
        step_sentences(ps, next.0, next.1, sents, i + 1)
    }
}

/// The store and index after one corpus record is processed: a record
/// scoring below the threshold is skipped whole; otherwise its text is
/// escaped, split into sentences, and the sentences are processed.
pub open spec fn step_record(
    ps: Seq<PhraseView>,
    buf: Seq<u8>,
    idx: Seq<Seq<ByteRange>>,
    text: Seq<char>,
    score_micros: u64,
) -> (Seq<u8>, Seq<Seq<ByteRange>>) {
    if score_micros < SCORE_THRESHOLD_MICROS {
        (buf, idx)
    } else {
        step_sentences(ps, buf, idx, split_spec(escape_text(text)), 0)
    }
}

/// The view of a record list.
pub open spec fn recs_view(rs: Seq<CorpusEntry>) -> Seq<(Seq<char>, u64)> {
    rs.map_values(|e: CorpusEntry| (e.text@, e.score_micros))
}

/// The store and index after the first `k` records are processed in order,
/// starting from an empty store and an index of empty range lists.
pub open spec fn run_records(ps: Seq<PhraseView>, rs: Seq<(Seq<char>, u64)>, k: int) -> (
    Seq<u8>,
    Seq<Seq<ByteRange>>,
)
    decreases k,
{
    if k <= 0 {
        (Seq::empty(), Seq::new(ps.len(), |h: int| Seq::<ByteRange>::empty()))
    } else {
        let prev = run_records(ps, rs, k - 1);
        step_record(ps, prev.0, prev.1, rs[k - 1].0, rs[k - 1].1)
    }
}

proof fn lemma_range_ok_extend(buf: Seq<u8>, ext: Seq<u8>, ps: Seq<PhraseView>, h: int,
    r: ByteRange)
    requires
        range_ok(buf, ps, h, r),
    ensures
        range_ok(buf + ext, ps, h, r),
{
    assert((buf + ext).subrange(r.start as int, r.end as int) =~= buf.subrange(
        r.start as int,
        r.end as int,
    ));
}

proof fn lemma_push_ranges_ok(
    buf: Seq<u8>,
    ps: Seq<PhraseView>,
    idx: Seq<Seq<ByteRange>>,
    hs: Seq<int>,
    r: ByteRange,
)
    requires
        idx.len() == ps.len(),
        forall|h: int, k: int|
            0 <= h < idx.len() && 0 <= k < idx[h].len() ==> range_ok(
                buf,
                ps,
                h,
                #[trigger] idx[h][k],
            ),
        forall|j: int| 0 <= j < hs.len() ==> range_ok(buf, ps, #[trigger] hs[j], r),
    ensures
        push_ranges(idx, hs, r).len() == idx.len(),
        forall|h: int, k: int|
            0 <= h < idx.len() && 0 <= k < push_ranges(idx, hs, r)[h].len() ==> range_ok(
                buf,
                ps,
                h,
                #[trigger] push_ranges(idx, hs, r)[h][k],
            ),
    decreases hs.len(),
{
    if hs.len() > 0 {
        let h0 = hs[0];
        let idx1 = if 0 <= h0 < idx.len() {
            idx.update(h0, idx[h0].push(r))
        } else {
            idx
        };
        assert(range_ok(buf, ps, h0, r));
        assert forall|h: int, k: int|
            0 <= h < idx1.len() && 0 <= k < idx1[h].len() implies range_ok(
            buf,
            ps,
            h,
            #[trigger] idx1[h][k],
        ) by {
            if 0 <= h0 < idx.len() && h == h0 {
                if k < idx[h0].len() {
                    assert(idx1[h][k] == idx[h][k]);
                } else {
                    assert(idx1[h][k] == r);
                }
            } else {
                assert(idx1[h][k] == idx[h][k]);
            }
        }
        assert forall|j: int| 0 <= j < hs.skip(1).len() implies range_ok(
            buf,
            ps,
            #[trigger] hs.skip(1)[j],
            r,
        ) by {
            assert(hs.skip(1)[j] == hs[j + 1]);
        }
        lemma_push_ranges_ok(buf, ps, idx1, hs.skip(1), r);
        assert(push_ranges(idx, hs, r) == push_ranges(idx1, hs.skip(1), r));
    }
}

/// Mirrors the classifier result for one sentence: either both reject, or
/// the handle list realizes the spec-level handle sequence with every
/// handle in range.
pub open spec fn cls_ok(c: Option<Vec<PhraseIdx>>, s: Option<Seq<int>>, n: int) -> bool {
    match s {
        Some(hs) => c matches Some(v) && v@.map_values(|p: PhraseIdx| p.0 as int) == hs
            && forall|j: int| 0 <= j < v@.len() ==> 0 <= (#[trigger] v@[j]).0 < n,
        None => c is None,
    }
}

/// Processes one corpus record.
fn process_record(
    hsk: &Hsk,
    seg: &Segmenter,
    writer: &mut FileDbWriter,
    index: &mut Vec<Vec<ByteRange>>,
    entry: &CorpusEntry,
)
    requires
        hsk.wf(),
        old(index)@.len() == hsk@.len(),
        index_ok(old(writer)@, hsk@, index_view(old(index)@)),
    ensures
        (final(writer)@, index_view(final(index)@)) == step_record(
            hsk@,
            old(writer)@,
            index_view(old(index)@),
            entry.text@,
            entry.score_micros,
        ),
        index_ok(final(writer)@, hsk@, index_view(final(index)@)),
        final(index)@.len() == old(index)@.len(),
{
    let ghost ps = hsk@;
    let ghost w0 = writer@;
    let ghost idx0 = index_view(index@);
    if entry.score_micros < SCORE_THRESHOLD_MICROS {
        return ;
    }
    let escaped = escape_safe(entry.text.as_str());
    let sents = split_sentences(escaped.as_str());
    let ghost sv = sents.deep_view();
    let n_sents = sents.len();
    proof {
        assert(sv.len() == n_sents);
    }
    let mut cls: Vec<Option<Vec<PhraseIdx>>> = Vec::new();
    let mut i: usize = 0;
    while i < n_sents
        invariant
            hsk.wf(),
            n_sents == sents@.len(),
            sv == sents.deep_view(),
            ps == hsk@,
            i <= n_sents,
            cls@.len() == i,
            forall|k: int|
                0 <= k < i ==> cls_ok(
                    #[trigger] cls@[k],
                    classify_spec(ps, cut_of(sv[k])),
                    ps.len() as int,
                ),
        decreases n_sents - i,
    {
        let words = seg.cut(sents[i].as_str());
        proof {
            assert(sv[i as int] == sents@[i as int]@);
        }
        let c = hsk.analyze(&words);
        cls.push(c);
        i = i + 1;
    }
    let mut s: usize = 0;
    while s < n_sents
        invariant
            hsk.wf(),
            n_sents == sents@.len(),
            sv == sents.deep_view(),
            ps == hsk@,
            s <= n_sents,
            cls@.len() == n_sents,
            forall|k: int|
                0 <= k < n_sents ==> cls_ok(
                    #[trigger] cls@[k],
                    classify_spec(ps, cut_of(sv[k])),
                    ps.len() as int,
                ),
            index@.len() == ps.len(),
            index_ok(writer@, ps, index_view(index@)),
            step_sentences(ps, w0, idx0, sv, 0) == step_sentences(
                ps,
                writer@,
                index_view(index@),
                sv,
                s as int,
            ),
        decreases n_sents - s,
    {
        let ghost wb = writer@;
        let ghost ib = index_view(index@);
        match &cls[s] {
            None => {
                proof {
                    assert(classify_spec(ps, cut_of(sv[s as int])) is None);
                }
            },
            Some(handles) => {
                let glen = grapheme_len(sents[s].as_str());
                proof {
                    assert(sv[s as int] == sents@[s as int]@);
                }
                if glen >= LEN_THRESHOLD {
                    let ghost hs = classify_spec(ps, cut_of(sv[s as int])).unwrap();
                    let prefix = if s > 0 {
                        Some(sents[s - 1].clone())
                    } else {
                        None
                    };
                    let suffix = if s + 1 < n_sents {
                        Some(sents[s + 1].clone())
                    } else {
                        None
                    };
                    let snippet = Snippet { prefix, sentence: sents[s].clone(), suffix };
                    proof {
                        if s > 0 {
                            assert(sv[s as int - 1] == sents@[s as int - 1]@);
                        }
                        if s + 1 < n_sents {
                            assert(sv[s as int + 1] == sents@[s as int + 1]@);
                        }
                        assert(snippet@ =~= snip_of(sv, s as int));
                    }
                    let range = writer.write(&snippet);
                    proof {
                        assert forall|h: int, k: int|
                            0 <= h < ib.len() && 0 <= k < ib[h].len() implies range_ok(
                            writer@,
                            ps,
                            h,
                            #[trigger] ib[h][k],
                        ) by {
                            lemma_range_ok_extend(wb, spec_encode_snippet(snippet@), ps, h,
                                ib[h][k]);
                        }
                        assert forall|j: int| 0 <= j < hs.len() implies range_ok(
                            writer@,
                            ps,
                            #[trigger] hs[j],
                            range,
                        ) by {
                            assert(hs.contains(hs[j]));
                        }
                        lemma_push_ranges_ok(writer@, ps, ib, hs, range);
                    }
                    let m = handles.len();
                    let ghost hv = handles@;
                    let mut j: usize = 0;
                    proof {
                        assert(hv.map_values(|p: PhraseIdx| p.0 as int) == hs);
                        assert(hs.len() == hv.len());
                        assert(hs.skip(0) =~= hs);
                    }
                    while j < m
                        invariant
                            s < cls@.len(),
                            m == hv.len(),
                            hv.map_values(|p: PhraseIdx| p.0 as int) == hs,
                            forall|jj: int| 0 <= jj < hv.len() ==> 0 <= (#[trigger] hv[jj]).0
                                < ps.len(),
                            j <= m,
                            index@.len() == ps.len(),
                            cls@[s as int] matches Some(hvv) && hvv@ == hv,
                            push_ranges(ib, hs, range) == push_ranges(
                                index_view(index@),
                                hs.skip(j as int),
                                range,
                            ),
                        decreases m - j,
                    {
                        let h = handles_at(&cls, s, j);
                        proof {
                            assert(hs.skip(j as int)[0] == hs[j as int]);
                            assert(hs[j as int] == hv[j as int].0 as int);
                            assert(hs.skip(j as int).skip(1) =~= hs.skip(j + 1));
                        }
                        let ghost before = index_view(index@);
                        index[h].push(range);
                        proof {
                            assert(index_view(index@) =~= before.update(
                                h as int,
                                before[h as int].push(range),
                            ));
                        }
                        j = j + 1;
                    }
                    proof {
                        assert(hs.skip(m as int) =~= Seq::<int>::empty());
                        assert(push_ranges(index_view(index@), Seq::<int>::empty(), range)
                            == index_view(index@));
                        assert(index_view(index@) == push_ranges(ib, hs, range));
                        assert(writer@ == wb + spec_encode_snippet(snip_of(sv, s as int)));
                    }
                } else {
                    proof {
                        assert(grapheme_count(sv[s as int]) < LEN_THRESHOLD);
                    }
                }
            },
        }
        s = s + 1;
    }
    proof {
        assert(step_sentences(ps, writer@, index_view(index@), sv, n_sents as int) == (
        writer@,
        index_view(index@),
        ));
        assert(sv == split_spec(escape_text(entry.text@)));
    }
}

/// The handle at position `j` of the classification result of sentence `s`.
fn handles_at(cls: &Vec<Option<Vec<PhraseIdx>>>, s: usize, j: usize) -> (r: usize)
    requires
        s < cls@.len(),
        cls@[s as int] matches Some(v) && j < v@.len(),
    ensures
        cls@[s as int] matches Some(v) && r == v@[j as int].0,
{
    match &cls[s] {
        Some(v) => v[j].0,
        None => 0,
    }
}

/// Runs the single corpus pass: processes every record in order, then
/// deduplicates each handle's range list.  Returns the record store and the
/// range index; range integrity (`index_ok`) holds of the result.
pub fn build_corpus(hsk: &Hsk, seg: &Segmenter, records: &Vec<CorpusEntry>) -> (r: (
    FileDbWriter,
    Vec<Vec<ByteRange>>,
))
    requires
        hsk.wf(),
    ensures
        ({
            let st = run_records(hsk@, recs_view(records@), records@.len() as int);
            &&& r.0@ == st.0
            &&& index_view(r.1@) == st.1.map_values(|l: Seq<ByteRange>| dedup_spec(l))
            &&& index_ok(r.0@, hsk@, index_view(r.1@))
            &&& r.1@.len() == hsk@.len()
        }),
{
    let ghost ps = hsk@;
    let ghost rv = recs_view(records@);
    let n = hsk.len();
    let mut writer = FileDbWriter::new();
    let mut index: Vec<Vec<ByteRange>> = Vec::new();
    let mut h: usize = 0;
    while h < n
        invariant
            h <= n,
            index@.len() == h,
            forall|k: int| 0 <= k < h ==> (#[trigger] index@[k])@.len() == 0,
        decreases n - h,
    {
        index.push(Vec::new());
        h = h + 1;
    }
    proof {
        assert forall|hh: int| 0 <= hh < n implies #[trigger] index_view(index@)[hh] == Seq::<
            ByteRange,
        >::empty() by {
            assert(index_view(index@)[hh] == index@[hh]@);
            assert(index@[hh]@ =~= Seq::<ByteRange>::empty());
        }
        assert(index_view(index@) =~= Seq::new(ps.len(), |hh: int| Seq::<ByteRange>::empty()));
        assert((writer@, index_view(index@)) == run_records(ps, rv, 0));
    }
    let nr = records.len();
    let mut k: usize = 0;
    while k < nr
        invariant
            hsk.wf(),
            ps == hsk@,
            rv == recs_view(records@),
            nr == records@.len(),
            k <= nr,
            index@.len() == ps.len(),
            (writer@, index_view(index@)) == run_records(ps, rv, k as int),
            index_ok(writer@, ps, index_view(index@)),
        decreases nr - k,
    {
        proof {
            assert(rv[k as int] == (records@[k as int].text@, records@[k as int].score_micros));
        }
        process_record(hsk, seg, &mut writer, &mut index, &records[k]);
        k = k + 1;
    }
    let mut deduped: Vec<Vec<ByteRange>> = Vec::new();
    let mut d: usize = 0;
    while d < n
        invariant
            n == ps.len(),
            index@.len() == n,
            d <= n,
            deduped@.len() == d,
            index_ok(writer@, ps, index_view(index@)),
            forall|k2: int|
                0 <= k2 < d ==> (#[trigger] index_view(deduped@)[k2]) == dedup_spec(
                    index_view(index@)[k2],
                ),
        decreases n - d,
    {
        let ghost old_ded = deduped@;
        let l = dedup_ranges(&index[d]);
        proof {
            assert(l@ == dedup_spec(index@[d as int]@));
        }
        deduped.push(l);
        proof {
            assert forall|k2: int|
                0 <= k2 < d + 1 implies (#[trigger] index_view(deduped@)[k2]) == dedup_spec(
                index_view(index@)[k2],
            ) by {
                assert(index_view(deduped@)[k2] == deduped@[k2]@);
                assert(index_view(index@)[k2] == index@[k2]@);
                if k2 < d {
                    assert(deduped@[k2] == old_ded[k2]);
                    assert(index_view(old_ded)[k2] == old_ded[k2]@);
                }
            }
        }
        d = d + 1;
    }
    proof {
        assert(index_view(deduped@) =~= index_view(index@).map_values(
            |l: Seq<ByteRange>| dedup_spec(l),
        ));
        assert forall|h2: int, k2: int|
            0 <= h2 < index_view(deduped@).len() && 0 <= k2 < index_view(deduped@)[h2].len()
            implies range_ok(writer@, ps, h2, #[trigger] index_view(deduped@)[h2][k2]) by {
            let orig = index_view(index@)[h2];
            lemma_dedup_contains(orig);
            let x = index_view(deduped@)[h2][k2];
            assert(dedup_spec(orig).contains(x));
            assert(orig.contains(x));
            let k3 = choose|k3: int| 0 <= k3 < orig.len() && orig[k3] == x;
            assert(range_ok(writer@, ps, h2, orig[k3]));
        }
    }
    (writer, deduped)
}

} // verus!
