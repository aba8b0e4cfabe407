use docparse::detokenize::detokenize;
use docparse::mapping::{Mapping, MappingError, parse_token_id};
use docparse::names::{find, insert};
use docparse::text::{collapse_runs, replace_all};

fn vocabulary(words: &[&str]) -> Vec<String> {
    words.iter().map(|w| w.to_string()).collect()
}

#[test]
fn runs_are_collapsed() {
    assert_eq!(collapse_runs("a____b", '_', 3), "a___b");
    assert_eq!(collapse_runs("____a____", '_', 1), "_a_");
    assert_eq!(collapse_runs("a.b.c", '.', 0), "abc");
    assert_eq!(collapse_runs("", '.', 3), "");
    let once = collapse_runs("x.....y......", '.', 3);
    assert_eq!(once, "x...y...");
    assert_eq!(collapse_runs(&once, '.', 3), once);
}

#[test]
fn occurrences_are_replaced_from_the_left() {
    assert_eq!(replace_all("aaa", "aa", "b"), "ba");
    assert_eq!(replace_all("abcabc", "bc", ""), "aa");
    assert_eq!(replace_all("abc", "x", "y"), "abc");
    assert_eq!(replace_all("aXbX", "X", "XX"), "aXXbXX");
}

#[test]
fn tokens_are_joined_in_order() {
    let vocab = vocabulary(&["ab", "", "cd"]);
    assert_eq!(detokenize(&vocab, &[2, 0, 2]), "cdabcd");
    assert_eq!(detokenize(&vocab, &[]), "");
}

#[test]
fn unknown_tokens_are_dropped() {
    let vocab = vocabulary(&["ab", "", "cd"]);
    assert_eq!(detokenize(&vocab, &[0, 1, 7, -1, i64::MIN, i64::MAX, 2]), "abcd");
}

#[test]
fn marks_become_spaces_and_newlines() {
    let vocab = vocabulary(&["\u{120}a", "\u{10a}", "b\u{120}c\u{10a}d"]);
    assert_eq!(detokenize(&vocab, &[0, 1, 2]), " a\nb c\nd");
}

#[test]
fn soft_breaks_are_joined() {
    let vocab = vocabulary(&["re", "-<|sn|>", "join", " <|sn|>", "two", "<|sn|>"]);
    assert_eq!(detokenize(&vocab, &[0, 1, 2]), "rejoin");
    assert_eq!(detokenize(&vocab, &[0, 3, 4]), "re two");
    assert_eq!(detokenize(&vocab, &[0, 5, 4]), "re two");
}

#[test]
fn special_tokens_vanish() {
    let vocab = vocabulary(&[
        "<|bos|>", "<|eos|>", "<|pad|>", "<|unk|>", "<s>", "</s>", "\u{ffff}", "x",
    ]);
    assert_eq!(detokenize(&vocab, &[0, 7, 1, 2, 7, 3, 4, 5, 6, 7]), "xxx");
}

#[test]
fn marks_within_special_tokens_are_replaced_first() {
    let vocab = vocabulary(&["<|b", "os|>", "-\u{120}<|sn|>"]);
    assert_eq!(detokenize(&vocab, &[0, 1]), "");
    assert_eq!(detokenize(&vocab, &[2]), "- ");
}

#[test]
fn long_rules_are_shortened() {
    let vocab = vocabulary(&["____", "....", "-", "a"]);
    assert_eq!(detokenize(&vocab, &[0, 0, 3, 1, 1, 3, 2]), "___a...a-");
}

#[test]
fn plain_text_is_kept() {
    let vocab = vocabulary(&["<table><tr>", "<td>1.5</td>", "</tr></table>"]);
    assert_eq!(
        detokenize(&vocab, &[0, 1, 2]),
        "<table><tr><td>1.5</td></tr></table>"
    );
}

#[test]
fn token_numbers_are_decimal() {
    assert_eq!(parse_token_id("0"), Some(0));
    assert_eq!(parse_token_id("+42"), Some(42));
    assert_eq!(parse_token_id("007"), Some(7));
    assert_eq!(parse_token_id(&usize::MAX.to_string()), Some(usize::MAX));
    for key in ["", "+", "-1", "++1", " 1", "1 ", "1a", "0x1", "18446744073709551616", "\u{661}"] {
        assert_eq!(parse_token_id(key), None, "{key}");
        assert!(key.parse::<usize>().is_err());
    }
}

#[test]
fn mapping_is_read() {
    let m = Mapping::from_json(
        br#"{"vocab_size": 4,
             "id_to_token": {"0": "<|bos|>", "2": "b", "+1": "a", "9": "far", "3": 5},
             "special_tokens": {"bos_token_id": 1, "eos_token_id": -3}}"#,
    )
    .unwrap_or_else(|e| panic!("{e:?}"));
    assert_eq!(m.vocab, vocabulary(&["<|bos|>", "a", "b", ""]));
    assert_eq!((m.bos, m.eos), (1, -3));
}

#[test]
fn special_tokens_have_defaults() {
    for special in [
        "",
        r#", "special_tokens": {}"#,
        r#", "special_tokens": 7"#,
        r#", "special_tokens": {"bos_token_id": "x", "eos_token_id": 1.5}"#,
    ] {
        let file = format!(r#"{{"vocab_size": 0, "id_to_token": {{}}{special}}}"#);
        let m = Mapping::from_json(file.as_bytes()).unwrap_or_else(|e| panic!("{e:?}"));
        assert_eq!((m.bos, m.eos), (0, 2));
        assert!(m.vocab.is_empty());
    }
}

fn refused(file: &str) -> MappingError {
    match Mapping::from_json(file.as_bytes()) {
        Ok(_) => panic!("accepted: {file}"),
        Err(e) => e,
    }
}

#[test]
fn bad_mappings_are_refused() {
    assert_eq!(refused("{"), MappingError::Malformed);
    assert_eq!(refused(""), MappingError::Malformed);
    assert_eq!(refused("[]"), MappingError::VocabSizeMissing);
    assert_eq!(refused(r#"{"vocab_size": -1}"#), MappingError::VocabSizeMissing);
    assert_eq!(refused(r#"{"vocab_size": 1.0}"#), MappingError::VocabSizeMissing);
    assert_eq!(refused(r#"{"vocab_size": 3}"#), MappingError::TokensMissing);
    assert_eq!(
        refused(r#"{"vocab_size": 3, "id_to_token": ["a"]}"#),
        MappingError::TokensMissing
    );
    assert_eq!(
        refused(r#"{"vocab_size": 3, "id_to_token": {"0": "a", "x": "b"}}"#),
        MappingError::TokenId
    );
}

#[test]
fn later_values_replace_earlier_ones() {
    let mut entries: Vec<(String, u32)> = Vec::new();
    insert(&mut entries, "a".to_string(), 1);
    insert(&mut entries, "b".to_string(), 2);
    insert(&mut entries, "a".to_string(), 3);
    assert_eq!(entries.len(), 2);
    assert_eq!(find(&entries, "a"), Some(&3));
    assert_eq!(find(&entries, "b"), Some(&2));
    assert_eq!(find(&entries, "c"), None);
}
