use rusty_markov::token::Token;
use rusty_markov::tokenize::{
    split_out_punctuation_beginings, split_out_punctuation_endings, split_out_sentence_boundaries,
    tokenize,
};
use rusty_markov::BoundaryConfigs;

#[test]
fn test_tokenize_with_sentence_endings() {
    let input = "I see a (little) silhouetto of a man.";
    let tokenized = tokenize(input, &BoundaryConfigs::SentenceEndings);
    let output: Vec<Token> = vec![
        Token::from("I"),
        Token::from("see"),
        Token::from("a"),
        Token::from("("),
        Token::from("little"),
        Token::from(")"),
        Token::from("silhouetto"),
        Token::from("of"),
        Token::from("a"),
        Token::from("man"),
        Token::Boundary,
    ];

    assert_eq!(output, tokenized)
}

#[test]
fn test_tokenize_with_line_endings() {
    let input = "I see a (little) silhouetto of a man.";
    let tokenized = tokenize(input, &BoundaryConfigs::LineEndings);
    let output: Vec<Token> = vec![
        Token::from("I"),
        Token::from("see"),
        Token::from("a"),
        Token::from("("),
        Token::from("little"),
        Token::from(")"),
        Token::from("silhouetto"),
        Token::from("of"),
        Token::from("a"),
        Token::from("man"),
        Token::from("."),
    ];

    assert_eq!(output, tokenized)
}

#[test]
fn test_split_out_sentence_boundaries() {
    // Level 1: Easy
    let mut tokens = vec![Token::from("a"), Token::from("man.")];
    split_out_sentence_boundaries(&mut tokens);
    let expected: Vec<Token> = vec![Token::from("a"), Token::from("man"), Token::Boundary];

    assert_eq!(expected, tokens, "Should split period off end of word");

    // Level 2: Interesting - just the boundary
    let mut tokens = vec![Token::from(".")];
    split_out_sentence_boundaries(&mut tokens);
    let expected: Vec<Token> = vec![Token::Boundary];
    assert_eq!(
        expected, tokens,
        "Should split just a boundary without stray tokens"
    );

    // Level 3: Just weird - sentance boundaries where they don't belong
    let mut tokens = vec![
        Token::from("(something)"),
        // First sentence boundary
        Token::from("?"),
        // Second sentence boundary
        Token::from(".truly!"),
        Token::from(".odd"),
        // Third sentence boundary
        Token::from("happening."),
        Token::from("here.)"),
    ];
    split_out_sentence_boundaries(&mut tokens);
    let expected: Vec<Token> = vec![
        Token::from("(something)"),
        // First sentence boundary split
        Token::Boundary,
        // Second sentence boundary split
        Token::from(".truly"),
        Token::Boundary,
        Token::from(".odd"),
        // Second sentence boundary split
        Token::from("happening"),
        Token::Boundary,
        Token::from("here.)"),
    ];
    assert_eq!(expected, tokens, "Failed level 3");
}

#[test]
fn test_split_out_punctuation_endings() {
    // Level 1: Easy
    let mut tokens = vec![Token::from("(a)"), Token::from("man\""), Token::from(")")];
    split_out_punctuation_endings(&mut tokens);
    let expected: Vec<Token> = vec![
        Token::from("(a"),
        Token::from(")"),
        Token::from("man"),
        Token::from("\""),
        Token::from(")"),
    ];

    assert_eq!(expected, tokens, "Should split right parens and quotes");
}

#[test]
fn test_split_out_punctuation_beginings() {
    // Level 1: Easy
    let mut tokens = vec![Token::from("(a)"), Token::from("\"man"), Token::from("(")];
    split_out_punctuation_beginings(&mut tokens);
    let expected: Vec<Token> = vec![
        Token::from("("),
        Token::from("a)"),
        Token::from("\""),
        Token::from("man"),
        Token::from("("),
    ];

    assert_eq!(expected, tokens, "Should split left parens and quotes");
}

#[test]
fn test_tokenize_punctuation_free_line_is_whitespace_split() {
    // A line with no punctuation tokenizes to exactly its
    // whitespace-split words, under both configurations.
    let input = "  plain words \t with  spacing  ";
    let expected: Vec<Token> = vec![
        Token::from("plain"),
        Token::from("words"),
        Token::from("with"),
        Token::from("spacing"),
    ];
    assert_eq!(expected, tokenize(input, &BoundaryConfigs::LineEndings));
    assert_eq!(expected, tokenize(input, &BoundaryConfigs::SentenceEndings));
}

#[test]
fn test_tokenize_single_period_yields_only_boundary() {
    // A lone sentence-ending character becomes exactly one boundary,
    // never an accompanying empty word.
    let tokenized = tokenize(".", &BoundaryConfigs::SentenceEndings);
    let expected: Vec<Token> = vec![Token::Boundary];
    assert_eq!(expected, tokenized);
}

#[test]
fn test_tokenize_composes_leading_and_trailing_splits() {
    let tokenized = tokenize("(Paren)", &BoundaryConfigs::LineEndings);
    let expected: Vec<Token> = vec![Token::from("("), Token::from("Paren"), Token::from(")")];
    assert_eq!(expected, tokenized);

    let tokenized = tokenize("(Paren)", &BoundaryConfigs::SentenceEndings);
    let expected: Vec<Token> = vec![Token::from("("), Token::from("Paren"), Token::from(")")];
    assert_eq!(expected, tokenized);
}

#[test]
fn test_tokenize_empty_line_yields_no_tokens() {
    assert_eq!(
        Vec::<Token>::new(),
        tokenize("", &BoundaryConfigs::LineEndings)
    );
    assert_eq!(
        Vec::<Token>::new(),
        tokenize("   ", &BoundaryConfigs::SentenceEndings)
    );
}
