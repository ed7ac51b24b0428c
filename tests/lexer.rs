use tag_spider_rs::lexer::{is_space, tokenize, Lexer};

fn all_tokens(text: &str) -> Vec<String> {
    let mut lexer = Lexer::new(text);
    let mut out = Vec::new();
    while let Some(t) = lexer.next_token() {
        out.push(t);
    }
    out
}

#[test]
fn words_are_lowercased_and_stemmed() {
    assert_eq!(tokenize("Running CATS jumped"), vec!["run", "cat", "jump"]);
}

#[test]
fn digit_runs_stay_verbatim() {
    assert_eq!(tokenize("2024 and 007"), vec!["2024", "and", "007"]);
}

#[test]
fn digits_then_letters_split() {
    assert_eq!(tokenize("123abc"), vec!["123", "abc"]);
}

#[test]
fn letters_then_digits_stay_together() {
    assert_eq!(tokenize("abc123"), vec!["abc123"]);
}

#[test]
fn punctuation_is_one_token_per_character() {
    assert_eq!(tokenize("cat, dog!?"), vec!["cat", ",", "dog", "!", "?"]);
}

#[test]
fn multibyte_symbols_are_whole_tokens() {
    assert_eq!(tokenize("a€b"), vec!["a", "€", "b"]);
}

#[test]
fn empty_and_blank_inputs_give_no_tokens() {
    assert!(tokenize("").is_empty());
    assert!(tokenize("  \t\n  ").is_empty());
}

#[test]
fn whitespace_separates_tokens() {
    assert_eq!(tokenize("fishing\n\tconnections"), vec!["fish", "connect"]);
}

#[test]
fn lexer_stays_exhausted() {
    let mut lexer = Lexer::new("cat");
    assert_eq!(lexer.next_token(), Some("cat".to_string()));
    assert_eq!(lexer.next_token(), None);
    assert_eq!(lexer.next_token(), None);
}

#[test]
fn fresh_lexers_agree() {
    let text = "The cats sat on 2 mats, easily!";
    let first = all_tokens(text);
    let second = all_tokens(text);
    assert_eq!(first, second);
    assert_eq!(first, tokenize(text));
    assert_eq!(first, vec!["the", "cat", "sat", "on", "2", "mat", ",", "easili", "!"]);
}

#[test]
fn whitespace_test_agrees_with_std() {
    for c in (0u32..=0x10FFFF).filter_map(char::from_u32) {
        assert_eq!(is_space(c), c.is_whitespace(), "{:?}", c);
    }
}

#[test]
fn unicode_spaces_separate_tokens() {
    assert_eq!(tokenize("cat\u{3000}dog\u{a0}mat\u{2009}log"), vec!["cat", "dog", "mat", "log"]);
}

#[test]
fn non_alphanumeric_start_is_one_token() {
    assert_eq!(tokenize("-12"), vec!["-", "12"]);
}
