//! Append-only, byte-range-addressed record store.
//!
//! Records are serialized to a self-describing byte encoding and appended to
//! a growing byte buffer; each write returns the half-open range of offsets
//! the record occupies.  A later read pass decodes a record from exactly the
//! bytes of a previously returned range.  The format is the concatenation of
//! encoded records with no delimiter and no header: integrity depends on the
//! caller retaining the returned ranges.

use vstd::prelude::*;

verus! {

use vstd::bytes::spec_u32_to_le_bytes;
use vstd::bytes::spec_u32_from_le_bytes;
use vstd::bytes::spec_u64_to_le_bytes;
use vstd::bytes::spec_u64_from_le_bytes;
use vstd::bytes::lemma_auto_spec_u32_to_from_le_bytes;
use vstd::bytes::lemma_auto_spec_u64_to_from_le_bytes;
use vstd::bytes::u32_to_le_bytes;
use vstd::bytes::u32_from_le_bytes;
use vstd::bytes::u64_to_le_bytes;
use vstd::bytes::u64_from_le_bytes;
use vstd::slice::slice_subrange;
use vstd::string::StrSliceExecFns;

/// Half-open `[start, end)` range of byte offsets into the record store.
/// The sole addressing unit for stored records: produced only by
/// `FileDbWriter::write`, consumed only by `FileDbReader::read`.
#[derive(Clone, Copy, PartialEq, Eq, Structural, Debug, Hash)]
pub struct ByteRange {
    pub start: u64,
    pub end: u64,
}

/// A sentence plus the literal text of its immediate neighbors in the source
/// record, kept for display context.  `None` means "no neighbor", which is
/// distinct from an empty neighbor text.
pub struct Snippet {
    pub prefix: Option<String>,
    pub sentence: String,
    pub suffix: Option<String>,
}

/// Mathematical model of a `Snippet`: each text as a sequence of characters.
#[verifier::ext_equal]
pub ghost struct SnipView {
    pub prefix: Option<Seq<char>>,
    pub sentence: Seq<char>,
    pub suffix: Option<Seq<char>>,
}

impl View for Snippet {
    type V = SnipView;

    open spec fn view(&self) -> SnipView {
        SnipView {
            prefix: self.prefix.deep_view(),
            sentence: self.sentence@,
            suffix: self.suffix.deep_view(),
        }
    }
}

impl Snippet {
    /// Field-wise equality test (the record type deliberately has no derived
    /// `PartialEq`; string fields are compared through their views).
    pub fn matches(&self, other: &Snippet) -> (r: bool)
        ensures
            r == (self@ =~~= other@),
    {
        let pre_eq = match (&self.prefix, &other.prefix) {
            (None, None) => true,
            (Some(a), Some(b)) => a.eq(b),
            _ => false,
        };
        let suf_eq = match (&self.suffix, &other.suffix) {
            (None, None) => true,
            (Some(a), Some(b)) => a.eq(b),
            _ => false,
        };
        pre_eq && suf_eq && self.sentence.eq(&other.sentence)
    }
}

/// A unicode scalar value: what `char::from_u32` accepts.
pub open spec fn valid_scalar(u: u32) -> bool {
    u < 0xD800 || (0xE000 <= u && u <= 0x10FFFF)
}

/// Encoding of one character: its scalar value in four little-endian bytes.
pub open spec fn spec_enc_char(c: char) -> Seq<u8> {
    spec_u32_to_le_bytes(c as u32)
}

/// Encoding of a character sequence: each character in order.
pub open spec fn spec_enc_chars(s: Seq<char>) -> Seq<u8>
    decreases s.len(),
{
    if s.len() == 0 {
        Seq::empty()
    } else {
        spec_enc_char(s[0]) + spec_enc_chars(s.skip(1))
    }
}

/// Encoding of a text field: character count in eight little-endian bytes,
/// then the characters.
pub open spec fn spec_enc_str(s: Seq<char>) -> Seq<u8> {
    spec_u64_to_le_bytes(s.len() as u64) + spec_enc_chars(s)
}

/// Encoding of an optional text field: a one-byte presence tag, then the
/// text if present.
pub open spec fn spec_enc_opt(s: Option<Seq<char>>) -> Seq<u8> {
    match s {
        None => seq![0u8],
        Some(t) => seq![1u8] + spec_enc_str(t),
    }
}

/// Encoding of a whole record: prefix, sentence, suffix.
pub open spec fn spec_encode_snippet(v: SnipView) -> Seq<u8> {
    spec_enc_opt(v.prefix) + spec_enc_str(v.sentence) + spec_enc_opt(v.suffix)
}

/// Decodes exactly `n` characters from the front of `b`; returns the
/// characters and the remaining bytes, or `None` if the bytes run out or a
/// group is not a valid scalar value.
pub open spec fn spec_dec_chars(b: Seq<u8>, n: nat) -> Option<(Seq<char>, Seq<u8>)>
    decreases n,
{
    if n == 0 {
        Some((Seq::empty(), b))
    } else if b.len() < 4 {
        None
    } else {
        let u = spec_u32_from_le_bytes(b.take(4));
        if valid_scalar(u) {
            match spec_dec_chars(b.skip(4), (n - 1) as nat) {
                Some(p) => Some((seq![u as char] + p.0, p.1)),
                None => None,
            }
        } else {
            None
        }
    }
}

/// Decodes a length-prefixed text field from the front of `b`.
pub open spec fn spec_dec_str(b: Seq<u8>) -> Option<(Seq<char>, Seq<u8>)> {
    if b.len() < 8 {
        None
    } else {
        let n = spec_u64_from_le_bytes(b.take(8));
        spec_dec_chars(b.skip(8), n as nat)
    }
}

/// Decodes a tagged optional text field from the front of `b`.
pub open spec fn spec_dec_opt(b: Seq<u8>) -> Option<(Option<Seq<char>>, Seq<u8>)> {
    if b.len() < 1 {
        None
    } else if b[0] == 0u8 {
        Some((None, b.skip(1)))
    } else if b[0] == 1u8 {
        match spec_dec_str(b.skip(1)) {
            Some(p) => Some((Some(p.0), p.1)),
            None => None,
        }
    } else {
        None
    }
}

/// Decodes a whole record from exactly the bytes of `b`: trailing bytes make
/// the decode fail, as does any malformed field.
pub open spec fn spec_decode_snippet(b: Seq<u8>) -> Option<SnipView> {
    match spec_dec_opt(b) {
        Some(p0) => match spec_dec_str(p0.1) {
            Some(p1) => match spec_dec_opt(p1.1) {
                Some(p2) => if p2.1.len() == 0 {
                    Some(SnipView { prefix: p0.0, sentence: p1.0, suffix: p2.0 })
                } else {
                    None
                },
                None => None,
            },
            None => None,
        },
        None => None,
    }
}

/// A record is encodable when each text field's length fits the eight-byte
/// length prefix; every real string satisfies this.
pub open spec fn snip_wf(v: SnipView) -> bool {
    &&& v.sentence.len() <= u64::MAX
    &&& match v.prefix {
        Some(p) => p.len() <= u64::MAX,
        None => true,
    }
    &&& match v.suffix {
        Some(s) => s.len() <= u64::MAX,
        None => true,
    }
}

proof fn lemma_enc_chars_len(s: Seq<char>)
    ensures
        spec_enc_chars(s).len() == 4 * s.len(),
    decreases s.len(),
{
    lemma_auto_spec_u32_to_from_le_bytes();
    if s.len() > 0 {
        lemma_enc_chars_len(s.skip(1));
    }
}

proof fn lemma_dec_enc_chars(s: Seq<char>, rest: Seq<u8>)
    ensures
        spec_dec_chars(spec_enc_chars(s) + rest, s.len()) == Some((s, rest)),
    decreases s.len(),
{
    lemma_auto_spec_u32_to_from_le_bytes();
    if s.len() == 0 {
        assert(spec_enc_chars(s) + rest =~= rest);
        assert(spec_dec_chars(rest, 0) == Some((Seq::<char>::empty(), rest)));
        assert(s =~= Seq::<char>::empty());
    } else {
        let c = s[0];
        let b = spec_enc_chars(s) + rest;
        lemma_enc_chars_len(s);
        lemma_enc_chars_len(s.skip(1));
        assert(b.take(4) =~= spec_enc_char(c));
        let u = spec_u32_from_le_bytes(b.take(4));
        assert(u == c as u32);
        vstd::utf8::char_is_scalar(c);
        lemma_is_scalar_valid(c as u32);
        vstd::utf8::char_u32_cast(c, u);
        assert(b.skip(4) =~= spec_enc_chars(s.skip(1)) + rest);
        lemma_dec_enc_chars(s.skip(1), rest);
        assert(seq![u as char] + s.skip(1) =~= s);
    }
}

/// vstd states that a `char` is a scalar in terms of its UTF-8 encoding
/// widths; this restates it as plain bounds.
proof fn lemma_is_scalar_valid(u: u32)
    requires
        vstd::utf8::is_scalar(u),
    ensures
        valid_scalar(u),
{
}

proof fn lemma_dec_enc_str(s: Seq<char>, rest: Seq<u8>)
    requires
        s.len() <= u64::MAX,
    ensures
        spec_dec_str(spec_enc_str(s) + rest) == Some((s, rest)),
{
    lemma_auto_spec_u64_to_from_le_bytes();
    let b = spec_enc_str(s) + rest;
    lemma_enc_chars_len(s);
    assert(b.take(8) =~= spec_u64_to_le_bytes(s.len() as u64));
    assert(spec_u64_from_le_bytes(b.take(8)) == s.len() as u64);
    assert(b.skip(8) =~= spec_enc_chars(s) + rest);
    lemma_dec_enc_chars(s, rest);
}

proof fn lemma_dec_enc_opt(s: Option<Seq<char>>, rest: Seq<u8>)
    requires
        match s {
            Some(t) => t.len() <= u64::MAX,
            None => true,
        },
    ensures
        spec_dec_opt(spec_enc_opt(s) + rest) == Some((s, rest)),
{
    match s {
        None => {
            let b = spec_enc_opt(s) + rest;
            assert(b[0] == 0u8);
            assert(b.skip(1) =~= rest);
        },
        Some(t) => {
            let b = spec_enc_opt(s) + rest;
            assert(b[0] == 1u8);
            assert(b.skip(1) =~= spec_enc_str(t) + rest);
            lemma_dec_enc_str(t, rest);
        },
    }
}

/// Round trip: decoding the encoding of any record gives the record back,
/// including records with absent optional context fields and arbitrary text.
pub proof fn lemma_snippet_round_trip(v: SnipView)
    requires
        snip_wf(v),
    ensures
        spec_decode_snippet(spec_encode_snippet(v)) == Some(v),
{
    let b = spec_encode_snippet(v);
    let tail1 = spec_enc_str(v.sentence) + spec_enc_opt(v.suffix);
    assert(b =~= spec_enc_opt(v.prefix) + tail1);
    lemma_dec_enc_opt(v.prefix, tail1);
    lemma_dec_enc_str(v.sentence, spec_enc_opt(v.suffix));
    lemma_dec_enc_opt(v.suffix, Seq::empty());
    assert(spec_enc_opt(v.suffix) + Seq::<u8>::empty() =~= spec_enc_opt(v.suffix));
    assert(spec_decode_snippet(b) == Some(SnipView {
        prefix: v.prefix,
        sentence: v.sentence,
        suffix: v.suffix,
    }));
    assert(SnipView { prefix: v.prefix, sentence: v.sentence, suffix: v.suffix } =~= v);
}

proof fn lemma_enc_chars_push(s: Seq<char>, c: char)
    ensures
        spec_enc_chars(s.push(c)) == spec_enc_chars(s) + spec_enc_char(c),
    decreases s.len(),
{
    if s.len() == 0 {
        assert(s.push(c) =~= seq![c]);
        assert(seq![c].skip(1) =~= Seq::<char>::empty());
        assert(spec_enc_chars(Seq::<char>::empty()) == Seq::<u8>::empty());
        assert(seq![c][0] == c);
        assert(spec_enc_chars(seq![c]) == spec_enc_char(c) + Seq::<u8>::empty());
        assert(spec_enc_char(c) + Seq::<u8>::empty() =~= spec_enc_char(c));
        assert(spec_enc_chars(s) + spec_enc_char(c) =~= spec_enc_char(c));
    } else {
        assert(s.push(c).skip(1) =~= s.skip(1).push(c));
        assert(s.push(c)[0] == s[0]);
        lemma_enc_chars_push(s.skip(1), c);
        assert(spec_enc_chars(s.push(c)) == spec_enc_char(s[0]) + (spec_enc_chars(s.skip(1))
            + spec_enc_char(c)));
        assert(spec_enc_char(s[0]) + (spec_enc_chars(s.skip(1)) + spec_enc_char(c)) =~= (
        spec_enc_char(s[0]) + spec_enc_chars(s.skip(1))) + spec_enc_char(c));
    }
}

/// Relies on `char::from_u32`: returns the character with the given scalar
/// value, `None` exactly for surrogates and values above the Unicode maximum.
#[verifier::external_body]
fn char_from_u32(u: u32) -> (r: Option<char>)
    ensures
        r is Some <==> valid_scalar(u),
        r matches Some(c) ==> c as u32 == u,
{
    char::from_u32(u)
}

/// Relies on `String: FromIterator<char>`: collecting characters yields the
/// string with exactly those characters in order.
#[verifier::external_body]
fn string_from_chars(v: &Vec<char>) -> (r: String)
    ensures
        r@ == v@,
{
    v.iter().collect()
}

/// Appends the encoding of one text field to `buf`.
fn enc_push_str(buf: &mut Vec<u8>, s: &str)
    ensures
        final(buf)@ == old(buf)@ + spec_enc_str(s@),
        s@.len() <= u64::MAX,
{
    let n = s.unicode_len();
    let mut len_bytes = u64_to_le_bytes(n as u64);
    buf.append(&mut len_bytes);
    let ghost base = buf@;
    let mut i: usize = 0;
    while i < n
        invariant
            n == s@.len(),
            i <= n,
            buf@ == base + spec_enc_chars(s@.take(i as int)),
        decreases n - i,
    {
        proof {
            lemma_enc_chars_push(s@.take(i as int), s@[i as int]);
            assert(s@.take(i + 1) =~= s@.take(i as int).push(s@[i as int]));
        }
        let c = s.get_char(i);
        let mut cb = u32_to_le_bytes(c as u32);
        buf.append(&mut cb);
        proof {
            assert(base + spec_enc_chars(s@.take(i as int)) + spec_enc_char(c) =~= base
                + (spec_enc_chars(s@.take(i as int)) + spec_enc_char(c)));
        }
        i = i + 1;
    }
    proof {
        assert(s@.take(n as int) =~= s@);
        assert(old(buf)@ + spec_u64_to_le_bytes(n as u64) + spec_enc_chars(s@) =~= old(buf)@
            + spec_enc_str(s@));
    }
}

/// Appends the encoding of one optional text field to `buf`.
fn enc_push_opt(buf: &mut Vec<u8>, s: &Option<String>)
    ensures
        final(buf)@ == old(buf)@ + spec_enc_opt(s.deep_view()),
        match s.deep_view() {
            Some(t) => t.len() <= u64::MAX,
            None => true,
        },
{
    match s {
        None => {
            buf.push(0u8);
            proof {
                assert(old(buf)@.push(0u8) =~= old(buf)@ + spec_enc_opt(None));
            }
        },
        Some(t) => {
            buf.push(1u8);
            enc_push_str(buf, t.as_str());
            proof {
                assert(old(buf)@.push(1u8) + spec_enc_str(t@) =~= old(buf)@ + spec_enc_opt(
                    Some(t@),
                ));
            }
        },
    }
}

/// Decodes a length-prefixed text field from the front of `b`, returning the
/// text and the remaining bytes.
fn dec_str_exec<'a>(b: &'a [u8]) -> (r: Option<(String, &'a [u8])>)
    ensures
        match spec_dec_str(b@) {
            Some(p) => r matches Some(q) && q.0@ == p.0 && q.1@ == p.1,
            None => r is None,
        },
{
    if b.len() < 8 {
        return None;
    }
    let len_bytes = slice_subrange(b, 0, 8);
    let n = u64_from_le_bytes(len_bytes);
    proof {
        assert(len_bytes@ =~= b@.take(8));
    }
    let mut cur = slice_subrange(b, 8, b.len());
    proof {
        assert(cur@ =~= b@.skip(8));
    }
    let ghost whole = cur@;
    let mut out: Vec<char> = Vec::new();
    let mut i: u64 = 0;
    proof {
        match spec_dec_chars(whole, n as nat) {
            Some(p) => {
                assert(out@ + p.0 =~= p.0);
            },
            None => {},
        }
    }
    while i < n
        invariant
            i <= n,
            spec_dec_str(b@) == spec_dec_chars(whole, n as nat),
            spec_dec_chars(whole, n as nat) == (match spec_dec_chars(cur@, (n - i) as nat) {
                Some(p) => Some((out@ + p.0, p.1)),
                None => None::<(Seq<char>, Seq<u8>)>,
            }),
        decreases n - i,
    {
        if cur.len() < 4 {
            proof {
                assert(spec_dec_chars(cur@, (n - i) as nat) is None);
            }
            return None;
        }
        let cb = slice_subrange(cur, 0, 4);
        proof {
            assert(cb@ =~= cur@.take(4));
        }
        let u = u32_from_le_bytes(cb);
        let c = match char_from_u32(u) {
            Some(c) => c,
            None => {
                proof {
                    assert(spec_dec_chars(cur@, (n - i) as nat) is None);
                }
                return None;
            },
        };
        let next = slice_subrange(cur, 4, cur.len());
        proof {
            assert(next@ =~= cur@.skip(4));
            vstd::utf8::char_u32_cast(c, u);
            assert(u as char == c);
            let inner = spec_dec_chars(next@, (n - i - 1) as nat);
            assert(spec_dec_chars(cur@, (n - i) as nat) == (match inner {
                Some(p) => Some((seq![c] + p.0, p.1)),
                None => None::<(Seq<char>, Seq<u8>)>,
            }));
            match inner {
                Some(p) => {
                    assert(out@ + (seq![c] + p.0) =~= out@.push(c) + p.0);
                },
                None => {},
            }
        }
        out.push(c);
        cur = next;
        i = i + 1;
    }
    proof {
        assert(spec_dec_chars(cur@, 0) == Some((Seq::<char>::empty(), cur@)));
        assert(out@ + Seq::<char>::empty() =~= out@);
    }
    let s = string_from_chars(&out);
    Some((s, cur))
}

/// Decodes a tagged optional text field from the front of `b`.
fn dec_opt_exec<'a>(b: &'a [u8]) -> (r: Option<(Option<String>, &'a [u8])>)
    ensures
        match spec_dec_opt(b@) {
            Some(p) => r matches Some(q) && q.0.deep_view() == p.0 && q.1@ == p.1,
            None => r is None,
        },
{
    if b.len() < 1 {
        return None;
    }
    let tag = *vstd::slice::slice_index_get(b, 0);
    let rest = slice_subrange(b, 1, b.len());
    proof {
        assert(rest@ =~= b@.skip(1));
    }
    if tag == 0u8 {
        Some((None, rest))
    } else if tag == 1u8 {
        match dec_str_exec(rest) {
            Some(p) => Some((Some(p.0), p.1)),
            None => None,
        }
    } else {
        None
    }
}

/// Decodes a whole record from exactly the bytes of `b`.
pub fn decode_snippet(b: &[u8]) -> (r: Option<Snippet>)
    ensures
        match spec_decode_snippet(b@) {
            Some(v) => r matches Some(s) && s@ == v,
            None => r is None,
        },
{
    let (prefix, b1) = match dec_opt_exec(b) {
        Some(p) => p,
        None => {
            return None;
        },
    };
    let (sentence, b2) = match dec_str_exec(b1) {
        Some(p) => p,
        None => {
            return None;
        },
    };
    let (suffix, b3) = match dec_opt_exec(b2) {
        Some(p) => p,
        None => {
            return None;
        },
    };
    if b3.len() != 0 {
        return None;
    }
    let snip = Snippet { prefix, sentence, suffix };
    proof {
        assert(snip@ =~= spec_decode_snippet(b@).unwrap());
    }
    Some(snip)
}

/// The write half of the record store.  Serializes each record and appends
/// its bytes; maintains a monotonically increasing cursor and never rewrites
/// previously written bytes.  The caller persists the byte buffer; the store
/// itself performs no I/O.
pub struct FileDbWriter {
    buf: Vec<u8>,
}

impl View for FileDbWriter {
    type V = Seq<u8>;

    closed spec fn view(&self) -> Seq<u8> {
        self.buf@
    }
}

impl FileDbWriter {
    /// A fresh, empty store.
    pub fn new() -> (r: Self)
        ensures
            r@ == Seq::<u8>::empty(),
    {
        FileDbWriter { buf: Vec::new() }
    }

    /// Appends the encoding of `snippet` and returns the byte range it
    /// occupies.  The range decodes back to exactly the written record.
    pub fn write(&mut self, snippet: &Snippet) -> (r: ByteRange)
        ensures
            final(self)@ == old(self)@ + spec_encode_snippet(snippet@),
            r.start == old(self)@.len(),
            r.end == final(self)@.len(),
            spec_decode_snippet(final(self)@.subrange(r.start as int, r.end as int)) == Some(
                snippet@,
            ),
    {
        let start_usize = self.buf.len();
        let ghost old_buf = self.buf@;
        enc_push_opt(&mut self.buf, &snippet.prefix);
        enc_push_str(&mut self.buf, snippet.sentence.as_str());
        enc_push_opt(&mut self.buf, &snippet.suffix);
        proof {
            assert(self.buf@ =~= old_buf + spec_encode_snippet(snippet@));
            lemma_snippet_round_trip(snippet@);
            assert(self.buf@.subrange(old_buf.len() as int, self.buf@.len() as int)
                =~= spec_encode_snippet(snippet@));
        }
        let end_usize = self.buf.len();
        ByteRange { start: start_usize as u64, end: end_usize as u64 }
    }

    /// The bytes written so far, for the caller to persist.
    pub fn bytes(&self) -> (r: &Vec<u8>)
        ensures
            r@ == self@,
    {
        &self.buf
    }
}

/// The read half of the record store.  Holds the full byte content of a
/// store written earlier and decodes records at previously returned ranges.
/// A range that was not returned by a write to the same store either fails
/// to decode or decodes to an unrelated record; callers own that invariant.
pub struct FileDbReader {
    buf: Vec<u8>,
}

impl View for FileDbReader {
    type V = Seq<u8>;

    closed spec fn view(&self) -> Seq<u8> {
        self.buf@
    }
}

/// What reading a range from store contents `store` yields.
pub open spec fn spec_read(store: Seq<u8>, range: ByteRange) -> Option<SnipView> {
    if range.start <= range.end && range.end <= store.len() {
        spec_decode_snippet(store.subrange(range.start as int, range.end as int))
    } else {
        None
    }
}

impl FileDbReader {
    /// Opens a store over the given bytes.
    pub fn load(bytes: Vec<u8>) -> (r: Self)
        ensures
            r@ == bytes@,
    {
        FileDbReader { buf: bytes }
    }

    /// Reads exactly the bytes of `range` and decodes them.
    pub fn read(&self, range: ByteRange) -> (r: Option<Snippet>)
        ensures
            match spec_read(self@, range) {
                Some(v) => r matches Some(s) && s@ == v,
                None => r is None,
            },
    {
        if !(range.start <= range.end && range.end <= self.buf.len() as u64) {
            return None;
        }
        let slice = slice_subrange(self.buf.as_slice(), range.start as usize, range.end as usize);
        proof {
            assert(slice@ =~= self@.subrange(range.start as int, range.end as int));
        }
        decode_snippet(slice)
    }
}

} // verus!
