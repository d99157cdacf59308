use rusty_markov::token::Token;
use rusty_markov::train::{train_with_lines, train_with_tokens};
use rusty_markov::transitions::Transitions;
use rusty_markov::BoundaryConfigs;

/// The stored count for the transition from `a` to `b`, if any.
fn stored_count(table: &Transitions, a: &Token, b: &Token) -> Option<u32> {
    let row = table.next_tokens(a)?;
    for (tok, c) in row.iter() {
        if tok == b {
            return Some(*c);
        }
    }
    None
}

/// How many destinations the row of `a` holds.
fn row_len(table: &Transitions, a: &Token) -> usize {
    match table.next_tokens(a) {
        Some(row) => row.len(),
        None => 0,
    }
}

fn song_lines() -> Vec<String> {
    vec![
        String::from(""),
        String::from("        I see a little silhouetto of a man."),
        String::from("        Scaramouche, Scaramouche, will you do the Fandango?"),
        String::from("        "),
    ]
}

#[test]
fn test_tokenize_song_line_endings() {
    let mut transitions = Transitions::new();
    train_with_lines(
        &song_lines(),
        &mut transitions,
        &BoundaryConfigs::LineEndings,
    );

    let expected: Vec<(Token, Vec<(Token, u32)>)> = vec![
        (
            Token::Boundary,
            vec![(Token::from("I"), 1), (Token::from("Scaramouche"), 1)],
        ),
        (Token::from("I"), vec![(Token::from("see"), 1)]),
        (Token::from("see"), vec![(Token::from("a"), 1)]),
        (
            Token::from("a"),
            vec![(Token::from("little"), 1), (Token::from("man"), 1)],
        ),
        (Token::from("silhouetto"), vec![(Token::from("of"), 1)]),
        (Token::from("of"), vec![(Token::from("a"), 1)]),
        (Token::from("little"), vec![(Token::from("silhouetto"), 1)]),
        (Token::from("man"), vec![(Token::from("."), 1)]),
        (Token::from("."), vec![(Token::Boundary, 1)]),
        (Token::from("Scaramouche"), vec![(Token::from(","), 2)]),
        (
            Token::from(","),
            vec![(Token::from("Scaramouche"), 1), (Token::from("will"), 1)],
        ),
        (Token::from("will"), vec![(Token::from("you"), 1)]),
        (Token::from("you"), vec![(Token::from("do"), 1)]),
        (Token::from("do"), vec![(Token::from("the"), 1)]),
        (Token::from("the"), vec![(Token::from("Fandango"), 1)]),
        (Token::from("Fandango"), vec![(Token::from("?"), 1)]),
        (Token::from("?"), vec![(Token::Boundary, 1)]),
    ];

    assert_eq!(expected.len(), transitions.last_tokens().len());
    for (src, row) in &expected {
        assert_eq!(row.len(), row_len(&transitions, src));
        for (dst, count) in row {
            assert_eq!(Some(*count), stored_count(&transitions, src, dst));
        }
    }
}

#[test]
fn test_tokenize_song_sentence_endings() {
    let mut transitions = Transitions::new();
    train_with_lines(
        &song_lines(),
        &mut transitions,
        &BoundaryConfigs::SentenceEndings,
    );

    let expected: Vec<(Token, Vec<(Token, u32)>)> = vec![
        (
            Token::Boundary,
            vec![(Token::from("I"), 1), (Token::from("Scaramouche"), 1)],
        ),
        (Token::from("I"), vec![(Token::from("see"), 1)]),
        (Token::from("see"), vec![(Token::from("a"), 1)]),
        (
            Token::from("a"),
            vec![(Token::from("little"), 1), (Token::from("man"), 1)],
        ),
        (Token::from("silhouetto"), vec![(Token::from("of"), 1)]),
        (Token::from("of"), vec![(Token::from("a"), 1)]),
        (Token::from("little"), vec![(Token::from("silhouetto"), 1)]),
        (Token::from("man"), vec![(Token::Boundary, 1)]),
        (Token::from("Scaramouche"), vec![(Token::from(","), 2)]),
        (
            Token::from(","),
            vec![(Token::from("Scaramouche"), 1), (Token::from("will"), 1)],
        ),
        (Token::from("will"), vec![(Token::from("you"), 1)]),
        (Token::from("you"), vec![(Token::from("do"), 1)]),
        (Token::from("do"), vec![(Token::from("the"), 1)]),
        (Token::from("the"), vec![(Token::from("Fandango"), 1)]),
        (Token::from("Fandango"), vec![(Token::Boundary, 1)]),
    ];

    assert_eq!(expected.len(), transitions.last_tokens().len());
    for (src, row) in &expected {
        assert_eq!(row.len(), row_len(&transitions, src));
        for (dst, count) in row {
            assert_eq!(Some(*count), stored_count(&transitions, src, dst));
        }
    }
}

#[test]
fn test_train_with_tokens_populates_transitions_map() {
    let mut transitions = Transitions::new();
    let tokens = vec![
        Token::from("I"),
        Token::from("see"),
        Token::from("a"),
        Token::from("little"),
        Token::from("silhouetto"),
        Token::from("of"),
        Token::from("a"),
        Token::from("man."),
    ];

    train_with_tokens(tokens, &mut transitions);

    let expected: Vec<(Token, Vec<(Token, u32)>)> = vec![
        (Token::from("I"), vec![(Token::from("see"), 1)]),
        (Token::from("see"), vec![(Token::from("a"), 1)]),
        (
            Token::from("a"),
            vec![(Token::from("little"), 1), (Token::from("man."), 1)],
        ),
        (Token::from("little"), vec![(Token::from("silhouetto"), 1)]),
        (Token::from("silhouetto"), vec![(Token::from("of"), 1)]),
        (Token::from("of"), vec![(Token::from("a"), 1)]),
    ];

    assert_eq!(expected.len(), transitions.last_tokens().len());
    for (src, row) in &expected {
        assert_eq!(row.len(), row_len(&transitions, src));
        for (dst, count) in row {
            assert_eq!(Some(*count), stored_count(&transitions, src, dst));
        }
    }
}

#[test]
fn test_train_with_tokens_suppresses_boundary_pair() {
    let mut transitions = Transitions::new();
    train_with_tokens(vec![Token::Boundary, Token::Boundary], &mut transitions);

    assert_eq!(0, transitions.last_tokens().len());
}

#[test]
fn test_consecutive_blank_lines_record_no_boundary_self_loop() {
    let lines = vec![
        String::from(""),
        String::from(""),
        String::from("a b"),
        String::from(""),
        String::from(""),
    ];
    let mut transitions = Transitions::new();
    train_with_lines(&lines, &mut transitions, &BoundaryConfigs::LineEndings);

    assert_eq!(
        None,
        stored_count(&transitions, &Token::Boundary, &Token::Boundary)
    );
    assert_eq!(
        Some(1),
        stored_count(&transitions, &Token::Boundary, &Token::from("a"))
    );
    assert_eq!(
        Some(1),
        stored_count(&transitions, &Token::from("a"), &Token::from("b"))
    );
    assert_eq!(
        Some(1),
        stored_count(&transitions, &Token::from("b"), &Token::Boundary)
    );
    assert_eq!(3, transitions.last_tokens().len());
}

#[test]
fn test_sentence_endings_carry_token_across_line_break() {
    let lines = vec![String::from("start"), String::from("middle end.")];
    let mut transitions = Transitions::new();
    train_with_lines(&lines, &mut transitions, &BoundaryConfigs::SentenceEndings);

    // The adjacency crosses the line break: start -> middle, with no
    // boundary inserted between them.
    assert_eq!(
        Some(1),
        stored_count(&transitions, &Token::from("start"), &Token::from("middle"))
    );
    assert_eq!(1, row_len(&transitions, &Token::from("start")));
    assert_eq!(
        None,
        stored_count(&transitions, &Token::from("start"), &Token::Boundary)
    );
    assert_eq!(
        Some(1),
        stored_count(&transitions, &Token::from("end"), &Token::Boundary)
    );
    assert_eq!(
        Some(1),
        stored_count(&transitions, &Token::Boundary, &Token::from("start"))
    );
    assert_eq!(
        Some(1),
        stored_count(&transitions, &Token::from("middle"), &Token::from("end"))
    );
}
