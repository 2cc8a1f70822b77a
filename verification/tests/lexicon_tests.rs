use card_builder::lexicon::{build_hsk, hsk_levels, parse_level, Hsk};

fn rows(pairs: &[(&str, &str)]) -> Vec<(String, String)> {
    pairs.iter().map(|(a, b)| (a.to_string(), b.to_string())).collect()
}

fn lexicon(pairs: &[(&str, &str)]) -> Hsk {
    build_hsk(&rows(pairs)).expect("lexicon rows must parse")
}

#[test]
fn parse_level_digits() {
    for (label, want) in [("1", 1), ("2", 2), ("3", 3), ("4", 4), ("5", 5), ("6", 6)] {
        assert_eq!(parse_level(label).expect("digit label").0, want);
    }
}

#[test]
fn parse_level_aggregate() {
    assert_eq!(parse_level("7-9").expect("aggregate label").0, 7);
}

#[test]
fn parse_level_rejects_other_labels() {
    for label in ["", "0", "7", "8", "10", "1-3", "x", "7-8", " 1"] {
        assert!(parse_level(label).is_none(), "label {:?} must be rejected", label);
    }
}

#[test]
fn hsk_levels_are_one_through_seven() {
    let ls = hsk_levels();
    assert_eq!(ls.len(), 7);
    for (i, l) in ls.iter().enumerate() {
        assert_eq!(l.0, i + 1);
    }
}

#[test]
fn build_hsk_fails_on_bad_label() {
    let r = build_hsk(&rows(&[("你好", "1"), ("世界", "八")]));
    assert_eq!(r.err(), Some(1));
}

#[test]
fn build_hsk_dedups_by_text_and_tier() {
    let h = lexicon(&[("你好", "1"), ("你好", "1"), ("你好", "3")]);
    assert_eq!(h.len(), 2);
}

#[test]
fn lookup_prefers_highest_tier() {
    let h = lexicon(&[("你好", "1"), ("你好", "3")]);
    let (level, _) = h.lookup("你好").expect("present word");
    assert_eq!(level.0, 3);
    assert!(h.lookup("火星").is_none());
}

#[test]
fn strict_match_emits_max_tier_handles() {
    let h = lexicon(&[("你好", "1"), ("世界", "3")]);
    let tokens = vec!["你好".to_string(), "世界".to_string()];
    let handles = h.analyze(&tokens).expect("all tokens known");
    assert_eq!(handles.len(), 1);
    let phrase = h.phrase(handles[0]);
    assert_eq!(phrase.simplified, "世界");
    assert_eq!(phrase.level.0, 3);
}

#[test]
fn strict_match_rejects_unknown_token() {
    let h = lexicon(&[("你好", "1"), ("世界", "3")]);
    let tokens = vec!["你好".to_string(), "火星".to_string()];
    assert!(h.analyze(&tokens).is_none());
}

#[test]
fn analyze_rejects_empty_token_list() {
    let h = lexicon(&[("你好", "1")]);
    assert!(h.analyze(&Vec::new()).is_none());
}

#[test]
fn analyze_keeps_duplicate_tokens() {
    let h = lexicon(&[("你好", "2")]);
    let tokens = vec!["你好".to_string(), "你好".to_string()];
    let handles = h.analyze(&tokens).expect("all tokens known");
    assert_eq!(handles.len(), 2);
    assert_eq!(handles[0].0, handles[1].0);
}
