use card_builder::file_db::{ByteRange, FileDbReader, FileDbWriter, Snippet};

fn snip(prefix: Option<&str>, sentence: &str, suffix: Option<&str>) -> Snippet {
    Snippet {
        prefix: prefix.map(|s| s.to_string()),
        sentence: sentence.to_string(),
        suffix: suffix.map(|s| s.to_string()),
    }
}

#[test]
fn round_trip_full() {
    let mut w = FileDbWriter::new();
    let s = snip(Some("前面的句子"), "我喜欢猫我喜欢猫", Some("后面的句子"));
    let r = w.write(&s);
    let reader = FileDbReader::load(w.bytes().clone());
    let back = reader.read(r).expect("stored range must decode");
    assert!(back.matches(&s));
    assert_eq!(back.sentence, "我喜欢猫我喜欢猫");
    assert_eq!(back.prefix.as_deref(), Some("前面的句子"));
    assert_eq!(back.suffix.as_deref(), Some("后面的句子"));
}

#[test]
fn round_trip_absent_context() {
    let mut w = FileDbWriter::new();
    let s = snip(None, "一句话", None);
    let r = w.write(&s);
    let reader = FileDbReader::load(w.bytes().clone());
    let back = reader.read(r).expect("stored range must decode");
    assert!(back.matches(&s));
    assert_eq!(back.prefix, None);
    assert_eq!(back.suffix, None);
}

#[test]
fn round_trip_empty_and_mixed_text() {
    let mut w = FileDbWriter::new();
    let s = snip(Some(""), "", Some("mixed ASCII 和中文 \u{1F600}"));
    let r = w.write(&s);
    let reader = FileDbReader::load(w.bytes().clone());
    let back = reader.read(r).expect("stored range must decode");
    assert!(back.matches(&s));
    assert_eq!(back.prefix.as_deref(), Some(""));
    assert_eq!(back.sentence, "");
}

#[test]
fn many_records_each_readable() {
    let mut w = FileDbWriter::new();
    let records = vec![
        snip(None, "第一条", None),
        snip(Some("第一条"), "第二条", Some("第三条")),
        snip(Some("第二条"), "第三条", None),
    ];
    let ranges: Vec<ByteRange> = records.iter().map(|s| w.write(s)).collect();
    assert!(ranges[0].start == 0);
    assert!(ranges[0].end == ranges[1].start);
    assert!(ranges[1].end == ranges[2].start);
    let reader = FileDbReader::load(w.bytes().clone());
    for (rg, s) in ranges.iter().zip(records.iter()) {
        let back = reader.read(*rg).expect("stored range must decode");
        assert!(back.matches(s));
    }
}

#[test]
fn foreign_range_fails_or_is_garbage() {
    let mut w = FileDbWriter::new();
    let s = snip(None, "只有一条记录", None);
    let r = w.write(&s);
    let reader = FileDbReader::load(w.bytes().clone());
    let shifted = ByteRange { start: r.start + 1, end: r.end };
    assert!(reader.read(shifted).is_none());
    let beyond = ByteRange { start: r.start, end: r.end + 10 };
    assert!(reader.read(beyond).is_none());
}
