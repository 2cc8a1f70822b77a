use card_builder::text::{find_sub, make_cloze, split_sentences, trim_str};

#[test]
fn split_basic() {
    assert_eq!(split_sentences("A。B！C"), vec!["A", "B", "C"]);
}

#[test]
fn split_empty() {
    assert_eq!(split_sentences(""), Vec::<String>::new());
}

#[test]
fn split_no_terminal() {
    assert_eq!(split_sentences("A"), vec!["A"]);
}

#[test]
fn split_repeated_punctuation() {
    assert_eq!(split_sentences("A。。B"), vec!["A", "B"]);
}

#[test]
fn split_question_and_exclamation() {
    assert_eq!(split_sentences("你好吗？很好！再见。"), vec!["你好吗", "很好", "再见"]);
}

#[test]
fn split_leading_terminal_drops_empty_fragment() {
    assert_eq!(split_sentences("。A"), vec!["A"]);
}

#[test]
fn split_trims_fragments() {
    assert_eq!(split_sentences(" A 。 B "), vec!["A", "B"]);
}

#[test]
fn trim_surrounding_whitespace() {
    assert_eq!(trim_str("  你好\u{3000} "), "你好");
    assert_eq!(trim_str(""), "");
    assert_eq!(trim_str("   "), "");
    assert_eq!(trim_str("a b"), "a b");
}

#[test]
fn find_sub_first_occurrence() {
    assert_eq!(find_sub("我喜欢猫喜欢", "喜欢"), Some(1));
    assert_eq!(find_sub("我喜欢猫", "狗"), None);
    assert_eq!(find_sub("abc", ""), Some(0));
}

#[test]
fn make_cloze_wraps_phrase() {
    assert_eq!(make_cloze("我喜欢猫", "喜欢", 1), "我{{c1::喜欢}}猫");
    assert_eq!(make_cloze("喜欢", "喜欢", 0), "{{c1::喜欢}}");
}
