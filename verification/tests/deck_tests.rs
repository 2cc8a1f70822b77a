use card_builder::corpus::{build_corpus, CorpusEntry, Segmenter};
use card_builder::deck::{build_card, build_decks, DECK_SIZE};
use card_builder::file_db::{FileDbReader, Snippet};
use card_builder::lexicon::{build_hsk, Hsk, HskLevel};

fn lexicon(pairs: &[(&str, &str)]) -> Hsk {
    let rows: Vec<(String, String)> =
        pairs.iter().map(|(a, b)| (a.to_string(), b.to_string())).collect();
    build_hsk(&rows).expect("lexicon rows must parse")
}

fn entry(text: &str, score_micros: u64) -> CorpusEntry {
    CorpusEntry { text: text.to_string(), score_micros }
}

#[test]
fn build_decks_returns_pairs_for_the_tier() {
    let hsk = lexicon(&[("我", "1"), ("喜欢", "2"), ("猫", "1")]);
    let seg = Segmenter::new();
    let records = vec![entry("我喜欢猫我喜欢猫喜欢。我喜欢猫我喜欢猫喜欢。", 900000)];
    let (writer, index) = build_corpus(&hsk, &seg, &records);
    let reader = FileDbReader::load(writer.bytes().clone());

    let tier2 = build_decks(&hsk, &reader, &index, HskLevel(2));
    assert!(tier2.len() >= 1);
    assert!(tier2.len() <= DECK_SIZE);
    for (snippet, phrase) in &tier2 {
        assert_eq!(phrase.simplified, "喜欢");
        assert_eq!(phrase.level.0, 2);
        assert!(snippet.sentence.contains("喜欢"));
    }

    // Pairs with both neighbors must come before pairs with fewer.
    let richness = |s: &Snippet| {
        (if s.prefix.is_some() { 0 } else { 1 }) + (if s.suffix.is_some() { 0 } else { 1 })
    };
    for w in tier2.windows(2) {
        assert!(richness(&w[0].0) <= richness(&w[1].0));
    }

    let tier3 = build_decks(&hsk, &reader, &index, HskLevel(3));
    assert_eq!(tier3.len(), 0);
}

#[test]
fn build_card_clozes_first_occurrence() {
    let snippet = Snippet {
        prefix: Some("前一句".to_string()),
        sentence: "我喜欢猫我喜欢猫喜欢".to_string(),
        suffix: None,
    };
    let cf = build_card(&snippet, "喜欢").expect("phrase occurs in the sentence");
    assert_eq!(cf.cloze, "我{{c1::喜欢}}猫我喜欢猫喜欢");
    assert_eq!(cf.prefix, "前一句");
    assert_eq!(cf.suffix, "");
}

#[test]
fn build_card_picks_first_containing_sentence() {
    let snippet = Snippet {
        prefix: None,
        sentence: "没有那个词。这里有猫。".to_string(),
        suffix: None,
    };
    let cf = build_card(&snippet, "猫").expect("phrase occurs in a later sentence");
    assert_eq!(cf.cloze, "这里有{{c1::猫}}");
}

#[test]
fn build_card_none_when_phrase_absent() {
    let snippet = Snippet { prefix: None, sentence: "完全无关。".to_string(), suffix: None };
    assert!(build_card(&snippet, "猫猫").is_none());
}
