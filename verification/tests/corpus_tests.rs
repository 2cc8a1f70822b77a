use card_builder::corpus::{build_corpus, dedup_ranges, CorpusEntry, Segmenter};
use card_builder::file_db::{ByteRange, FileDbReader};
use card_builder::lexicon::{build_hsk, Hsk};

fn lexicon(pairs: &[(&str, &str)]) -> Hsk {
    let rows: Vec<(String, String)> =
        pairs.iter().map(|(a, b)| (a.to_string(), b.to_string())).collect();
    build_hsk(&rows).expect("lexicon rows must parse")
}

fn entry(text: &str, score_micros: u64) -> CorpusEntry {
    CorpusEntry { text: text.to_string(), score_micros }
}

/// A lexicon covering the segmented words of the test sentences.
fn cat_lexicon() -> Hsk {
    lexicon(&[("我", "1"), ("喜欢", "2"), ("猫", "1")])
}

fn total_ranges(index: &Vec<Vec<ByteRange>>) -> usize {
    index.iter().map(|l| l.len()).sum()
}

#[test]
fn score_boundary_kept_at_threshold() {
    let hsk = cat_lexicon();
    let seg = Segmenter::new();
    // 10 grapheme clusters, all words of the default dictionary.
    let records = vec![entry("我喜欢猫我喜欢猫喜欢", 800000)];
    let (_, index) = build_corpus(&hsk, &seg, &records);
    assert!(total_ranges(&index) > 0, "a record at exactly the threshold is retained");
}

#[test]
fn score_boundary_dropped_below_threshold() {
    let hsk = cat_lexicon();
    let seg = Segmenter::new();
    let records = vec![entry("我喜欢猫我喜欢猫喜欢", 799900)];
    let (writer, index) = build_corpus(&hsk, &seg, &records);
    assert_eq!(total_ranges(&index), 0);
    assert!(writer.bytes().is_empty());
}

#[test]
fn length_boundary_ten_graphemes_retained() {
    let hsk = cat_lexicon();
    let seg = Segmenter::new();
    let records = vec![entry("我喜欢猫我喜欢猫喜欢", 900000)];
    let (_, index) = build_corpus(&hsk, &seg, &records);
    assert!(total_ranges(&index) > 0);
}

#[test]
fn length_boundary_nine_graphemes_dropped() {
    let hsk = cat_lexicon();
    let seg = Segmenter::new();
    let records = vec![entry("我喜欢猫我喜欢猫我", 900000)];
    let (writer, index) = build_corpus(&hsk, &seg, &records);
    assert_eq!(total_ranges(&index), 0);
    assert!(writer.bytes().is_empty());
}

/// A lexicon that also covers an accented Latin token however the
/// segmenter splits it.
fn accent_lexicon() -> Hsk {
    lexicon(&[
        ("我", "1"),
        ("喜欢", "2"),
        ("猫", "1"),
        ("e\u{301}", "1"),
        ("e", "1"),
        ("\u{301}", "1"),
        ("了", "1"),
    ])
}

#[test]
fn length_counts_grapheme_clusters_not_code_points() {
    let hsk = accent_lexicon();
    let seg = Segmenter::new();
    // Ten code points but nine grapheme clusters: the accented letter is a
    // single user-perceived character, so the sentence is dropped.
    let nine = "我喜欢猫我喜欢猫e\u{301}";
    assert_eq!(nine.chars().count(), 10);
    let (_, index) = build_corpus(&hsk, &seg, &vec![entry(nine, 900000)]);
    assert_eq!(total_ranges(&index), 0);
    // One more character reaches ten grapheme clusters and is retained.
    let ten = "我喜欢猫我喜欢猫了e\u{301}";
    assert_eq!(ten.chars().count(), 11);
    let (_, index) = build_corpus(&hsk, &seg, &vec![entry(ten, 900000)]);
    assert!(total_ranges(&index) > 0);
}

#[test]
fn credit_goes_to_max_tier_tokens_only() {
    let hsk = cat_lexicon();
    let seg = Segmenter::new();
    let records = vec![entry("我喜欢猫我喜欢猫喜欢", 900000)];
    let (writer, index) = build_corpus(&hsk, &seg, &records);
    // The sentence's maximal tier is 2 and only the tier-2 word gets credit.
    let (_, like) = hsk.lookup("喜欢").expect("present word");
    let (_, me) = hsk.lookup("我").expect("present word");
    let (_, cat) = hsk.lookup("猫").expect("present word");
    assert_eq!(index[like.0].len(), 1, "the hardest word is credited once after dedup");
    assert_eq!(index[me.0].len(), 0);
    assert_eq!(index[cat.0].len(), 0);
    let reader = FileDbReader::load(writer.bytes().clone());
    let snippet = reader.read(index[like.0][0]).expect("stored range must decode");
    assert_eq!(snippet.sentence, "我喜欢猫我喜欢猫喜欢");
    assert_eq!(snippet.prefix, None);
    assert_eq!(snippet.suffix, None);
}

#[test]
fn end_to_end_strict_match_stores_nothing() {
    // Because two words of the first sentence are absent from the lexicon,
    // the sentence fails the strict-all-match rule and produces no stored
    // snippet or range, despite containing a valid tier-1 word.
    let hsk = lexicon(&[("猫", "1")]);
    let seg = Segmenter::new();
    let records = vec![entry("我喜欢猫。它很可爱。", 900000)];
    let (writer, index) = build_corpus(&hsk, &seg, &records);
    assert_eq!(total_ranges(&index), 0);
    assert!(writer.bytes().is_empty());
}

#[test]
fn failed_neighbor_still_serves_as_context() {
    let hsk = cat_lexicon();
    let seg = Segmenter::new();
    // The first sentence cannot classify (its markup is escaped into
    // unknown tokens), but it still provides prefix text for its neighbor.
    let records = vec![entry("甲<乙。我喜欢猫我喜欢猫喜欢。", 900000)];
    let (writer, index) = build_corpus(&hsk, &seg, &records);
    let (_, like) = hsk.lookup("喜欢").expect("present word");
    assert_eq!(index[like.0].len(), 1);
    let reader = FileDbReader::load(writer.bytes().clone());
    let snippet = reader.read(index[like.0][0]).expect("stored range must decode");
    assert_eq!(snippet.sentence, "我喜欢猫我喜欢猫喜欢");
    assert_eq!(snippet.prefix.as_deref(), Some("甲&lt;乙"), "markup is escaped before splitting");
    assert_eq!(snippet.suffix, None);
}

#[test]
fn dedup_removes_consecutive_duplicates() {
    let a = ByteRange { start: 0, end: 5 };
    let b = ByteRange { start: 5, end: 9 };
    let v = vec![a, a, b, b, b, a];
    let once = dedup_ranges(&v);
    assert_eq!(once, vec![a, b, a]);
}

#[test]
fn dedup_idempotent() {
    let a = ByteRange { start: 0, end: 5 };
    let b = ByteRange { start: 5, end: 9 };
    for v in [vec![], vec![a], vec![a, a, a], vec![a, b, b, a, a, b]] {
        let once = dedup_ranges(&v);
        let twice = dedup_ranges(&once);
        assert_eq!(twice, once);
    }
}
