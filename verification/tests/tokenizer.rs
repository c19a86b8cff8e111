use docgraph::hashing::hash_term;
use docgraph::tokenizer::{add_token, classify, token_spans, tokenize, CharKind};

#[test]
fn test_tokenize() {
    assert_eq!(
        tokenize("Hello, worlds! This is a test. CamelCases hyphenate-words snake_words"),
        vec![
            "Hello",
            "world",
            "Thi",
            "test",
            "Camel",
            "Case",
            "CamelCase",
            "hyphenate",
            "word",
            "hyphenate-word",
            "snake",
            "word",
            "snake_word"
        ]
    );
}

#[test]
fn test_hash_term() {
    // Should be case insensitive
    assert_eq!(hash_term("Hello"), hash_term("HELLO"));
    assert_eq!(hash_term("Hello"), hash_term("hello"));
}

#[test]
fn hash_term_tells_terms_apart() {
    assert_ne!(hash_term("hello"), hash_term("world"));
    assert_ne!(hash_term("hello"), hash_term("hell"));
}

#[test]
fn tokenize_empty_and_short() {
    assert!(tokenize("").is_empty());
    assert!(tokenize("a bc de").is_empty());
    assert_eq!(tokenize("abc"), vec!["abc"]);
}

#[test]
fn tokenize_counts_characters_before_stripping() {
    // three characters pass the length test, then lose their plural
    assert_eq!(tokenize("abs"), vec!["ab"]);
    assert_eq!(tokenize("as"), Vec::<&str>::new());
}

#[test]
fn tokenize_trailing_joiner() {
    assert_eq!(tokenize("abc-"), vec!["abc", "abc-"]);
    assert_eq!(tokenize("abc_def"), vec!["abc", "def", "abc_def"]);
}

#[test]
fn tokenize_case_transitions() {
    assert_eq!(tokenize("fooBarBaz"), vec!["foo", "Bar", "Baz", "fooBarBaz"]);
    // an uppercase run is one subword
    assert_eq!(tokenize("HTTPServer"), vec!["HTTPServer"]);
}

#[test]
fn add_token_strips_one_plural() {
    let mut tokens = vec![];
    add_token("words", &mut tokens);
    add_token("class", &mut tokens);
    add_token("glass", &mut tokens);
    add_token("word", &mut tokens);
    add_token("s", &mut tokens);
    assert_eq!(tokens, vec!["word", "clas", "glas", "word", ""]);
}

#[test]
fn token_spans_on_kinds() {
    let lower = CharKind { joiner: false, letter: true, upper: false };
    let upper = CharKind { joiner: false, letter: true, upper: true };
    let joiner = CharKind { joiner: true, letter: false, upper: false };
    let other = CharKind { joiner: false, letter: false, upper: false };
    // "abcDef-ghi x"
    let kinds = vec![
        lower, lower, lower, upper, lower, lower, joiner, lower, lower, lower, other, lower,
    ];
    assert_eq!(token_spans(&kinds), vec![(0, 3), (3, 6), (7, 10), (0, 10)]);
}

#[test]
fn classify_marks_joiners_and_case() {
    let kinds = classify(&vec!['a', 'B', '-', '_', '1']);
    assert_eq!(kinds[0], CharKind { joiner: false, letter: true, upper: false });
    assert_eq!(kinds[1], CharKind { joiner: false, letter: true, upper: true });
    assert!(kinds[2].joiner && !kinds[2].letter);
    assert!(kinds[3].joiner && !kinds[3].letter);
    assert_eq!(kinds[4], CharKind { joiner: false, letter: false, upper: false });
}
