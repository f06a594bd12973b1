use search_engine::string_to_chars;
use search_engine::tokenize;
use search_engine::tokenizer::TokenCharKind;
use search_engine::Tokenizer;

fn tokens_of(text: &str) -> Vec<String> {
    let chars = string_to_chars(text);
    tokenize(&chars)
}

#[test]
fn tokenize_mixed_text() {
    assert_eq!(tokens_of("foo-bar 42x"), vec!["FOO", "-", "BAR", "42", "X"]);
}

#[test]
fn tokenize_empty_and_whitespace() {
    assert_eq!(tokens_of(""), Vec::<String>::new());
    assert_eq!(tokens_of("   \t\n  "), Vec::<String>::new());
}

#[test]
fn tokenize_punctuation_single_chars() {
    assert_eq!(tokens_of("a,b"), vec!["A", ",", "B"]);
    assert_eq!(tokens_of("!?"), vec!["!", "?"]);
}

#[test]
fn tokenize_numeric_runs() {
    assert_eq!(tokens_of("123 45a"), vec!["123", "45", "A"]);
    // a numeric run stops at an alphabetic character; an alphabetic run
    // swallows following digits
    assert_eq!(tokens_of("a45"), vec!["A45"]);
}

#[test]
fn tokenize_case_normalization_idempotent() {
    let lower = tokens_of("fog");
    let upper = tokens_of("FOG");
    let mixed = tokens_of("Fog");
    assert_eq!(lower, vec!["FOG"]);
    assert_eq!(lower, upper);
    assert_eq!(lower, mixed);
}

#[test]
fn tokenize_non_ascii_letters_kept() {
    // non-ASCII letters are alphabetic but not changed by ASCII case folding
    assert_eq!(tokens_of("caf\u{e9}"), vec!["CAF\u{e9}"]);
}

#[test]
fn tokenize_partition_reconstructs_non_whitespace() {
    let inputs = ["ab 12,cd", "  x  y  ", "one-two  three\t4", "\u{3b1} b\u{e9}ta 9"];
    for text in inputs.iter() {
        let toks = tokens_of(text);
        let concat: String = toks.concat();
        let expected: String = text
            .chars()
            .filter(|c| !c.is_whitespace())
            .map(|c| c.to_ascii_uppercase())
            .collect();
        assert_eq!(concat, expected);
        for t in toks.iter() {
            assert!(!t.is_empty());
        }
    }
}

#[test]
fn tokenizer_next_token_sequence() {
    let chars = string_to_chars(" the  cat ");
    let mut t = Tokenizer::new(&chars);
    assert_eq!(t.next_token(), Some(String::from("THE")));
    assert_eq!(t.next_token(), Some(String::from("CAT")));
    assert_eq!(t.next_token(), None);
    assert_eq!(t.next_token(), None);
}

#[test]
fn tokenizer_chop_takes_prefix() {
    let chars = string_to_chars("abcde");
    let mut t = Tokenizer::new(&chars);
    let first = t.chop(2);
    assert_eq!(first, vec!['a', 'b']);
    let rest = t.chop(3);
    assert_eq!(rest, vec!['c', 'd', 'e']);
}

#[test]
fn tokenizer_chop_while_takes_maximal_run() {
    let chars = string_to_chars("ab12 cd");
    let mut t = Tokenizer::new(&chars);
    let run = t.chop_while(TokenCharKind::Alphanumeric);
    assert_eq!(run, vec!['a', 'b', '1', '2']);
    let ws = t.chop_while(TokenCharKind::Whitespace);
    assert_eq!(ws, vec![' ']);
    let none = t.chop_while(TokenCharKind::Numeric);
    assert_eq!(none, Vec::<char>::new());
}
