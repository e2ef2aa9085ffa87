use courses_data::tokenizer::{char_windows, NGramTokenizer, NGRAM_WIDTH};

fn toks(s: &str) -> Vec<String> {
    NGramTokenizer.tokenize(s)
}

#[test]
fn window_width_is_three() {
    assert_eq!(NGRAM_WIDTH, 3);
}

#[test]
fn empty_text_has_no_tokens() {
    assert!(toks("").is_empty());
}

#[test]
fn text_shorter_than_window_has_no_tokens() {
    assert!(toks("a").is_empty());
    assert!(toks("ab").is_empty());
    assert!(toks("é∂").is_empty());
}

#[test]
fn text_of_window_width_is_one_token() {
    assert_eq!(toks("abc"), vec!["abc".to_string()]);
}

#[test]
fn tokens_slide_by_one_scalar() {
    assert_eq!(toks("hello"), vec!["hel", "ell", "llo"]);
}

#[test]
fn token_count_is_length_less_width_plus_one() {
    for len in 0usize..40 {
        let text: String = std::iter::repeat('x').take(len).collect();
        let expected = if len >= 3 { len - 3 + 1 } else { 0 };
        assert_eq!(toks(&text).len(), expected);
    }
}

#[test]
fn tokens_are_lowercased() {
    assert_eq!(toks("ABC"), vec!["abc"]);
    assert_eq!(toks("MaChInE"), vec!["mac", "ach", "chi", "hin", "ine"]);
}

#[test]
fn tokens_keep_spaces_and_punctuation() {
    assert_eq!(toks("a | b"), vec!["a |", " | ", "| b"]);
}

#[test]
fn windows_count_scalars_not_bytes() {
    assert_eq!(toks("héllo"), vec!["hél", "éll", "llo"]);
    assert_eq!(toks("日本語テキスト").len(), 5);
    assert_eq!(toks("日本語テキスト")[0], "日本語");
    assert_eq!(toks("a😀b😀"), vec!["a😀b", "😀b😀"]);
}

#[test]
fn each_window_is_lowercased_on_its_own() {
    // U+0130 lowercases to two scalar values; the windows are cut before.
    let t = toks("\u{130}ab");
    assert_eq!(t.len(), 1);
    assert_eq!(t[0], "i\u{307}ab");
    assert_eq!(t[0].chars().count(), 4);
}

#[test]
fn final_sigma_is_decided_inside_the_window() {
    assert_eq!(toks("ΑΣ Α"), vec!["ας ", "σ α"]);
}

#[test]
fn every_token_of_plain_text_has_three_scalars() {
    for t in toks("Intro to Machine Learning 15-112") {
        assert_eq!(t.chars().count(), 3);
    }
}

#[test]
fn tokenizing_is_deterministic() {
    assert_eq!(toks("some text, twice"), toks("some text, twice"));
}

#[test]
fn char_windows_gives_slices_of_the_text() {
    assert_eq!(char_windows("abcd", 2), vec!["ab", "bc", "cd"]);
    assert_eq!(char_windows("abcd", 4), vec!["abcd"]);
    assert!(char_windows("abcd", 5).is_empty());
    assert_eq!(char_windows("AbC", 1), vec!["A", "b", "C"]);
    assert!(char_windows("", 1).is_empty());
}

#[test]
fn char_windows_does_not_lowercase() {
    assert_eq!(char_windows("ABCD", 3), vec!["ABC", "BCD"]);
}
