use rusty_markov::token::Token;
use rusty_markov::transitions::Transitions;

/// The stored count for the transition from `a` to `b`, if any.
fn count_of(table: &Transitions, a: &Token, b: &Token) -> Option<u32> {
    let row = table.next_tokens(a)?;
    for (tok, c) in row.iter() {
        if tok == b {
            return Some(*c);
        }
    }
    None
}

#[test]
fn test_new_transitions_counts() {
    let mut transitions = Transitions::new();
    let last_token = Token::from("last");
    let next_token = Token::from("next");

    transitions.count_transition(&last_token, &next_token);

    assert_eq!(Some(1u32), count_of(&transitions, &last_token, &next_token));
    assert_eq!(1, transitions.last_tokens().len());
    assert_eq!(1, transitions.next_tokens(&last_token).unwrap().len());
}

#[test]
fn test_new_transitions_is_empty() {
    let transitions = Transitions::new();

    assert_eq!(0, transitions.last_tokens().len());
}

#[test]
fn test_counting_same_pair_twice_gives_two() {
    let mut transitions = Transitions::new();
    let a = Token::from("a");
    let b = Token::from("b");

    transitions.count_transition(&a, &b);
    transitions.count_transition(&a, &b);

    assert_eq!(Some(2u32), count_of(&transitions, &a, &b));
    assert_eq!(1, transitions.next_tokens(&a).unwrap().len());
}

#[test]
fn test_counting_from_boundary_and_words() {
    let mut transitions = Transitions::new();
    let a = Token::from("a");
    let b = Token::from("b");

    transitions.count_transition(&Token::Boundary, &a);
    transitions.count_transition(&a, &b);
    transitions.count_transition(&a, &Token::Boundary);

    assert_eq!(Some(1u32), count_of(&transitions, &Token::Boundary, &a));
    assert_eq!(Some(1u32), count_of(&transitions, &a, &b));
    assert_eq!(Some(1u32), count_of(&transitions, &a, &Token::Boundary));
    assert_eq!(None, count_of(&transitions, &b, &a));
    assert!(transitions.next_tokens(&b).is_none());
    assert!(transitions.start_tokens().is_some());
    assert_eq!(2, transitions.last_tokens().len());
}
