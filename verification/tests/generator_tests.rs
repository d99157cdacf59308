use rusty_markov::generator::MarkovGenerator;
use rusty_markov::BoundaryConfigs;

#[test]
fn test_generator_properties_chain() {
    let mut generator = MarkovGenerator::new(BoundaryConfigs::LineEndings);
    // This should force a predictable generation loop, since there is only one transition available
    // to each token
    let lines = vec![String::from("1 2 3 4 5 6")];
    generator.train(&lines);

    // Collect 5 tokens
    let tokens: Vec<String> = generator.generate(5);

    // Should be able to generate a chain
    assert_eq!(tokens.len(), 5, "Should generate 5 tokens");

    // Each token should be one of our expected tokens
    let expected_tokens = ["1", "2", "3", "4", "5"];
    for token in &tokens {
        assert!(
            expected_tokens.contains(&token.as_str()),
            "Token '{}' should be one of {:?}",
            token,
            expected_tokens
        );
    }
}

#[test]
fn test_generator_empty_training() {
    let mut generator = MarkovGenerator::new(BoundaryConfigs::LineEndings);
    // No training data

    // Should return None immediately
    let first_token = generator.produce_next();
    assert!(
        first_token.is_none(),
        "Should return None with no training data"
    );
}

#[test]
fn test_generator_dead_end_token() {
    let mut generator = MarkovGenerator::new(BoundaryConfigs::LineEndings);
    let lines = vec![String::from("start deadend")];
    generator.train(&lines);

    // Should generate start, then deadend, then stop
    let tokens: Vec<String> = generator.generate(10);

    assert!(tokens.len() <= 2, "Should stop at deadend token");
    assert!(tokens.len() >= 1, "Should have at least one token");

    // First token should be either "start" or "deadend" (randomly chosen)
    assert!(
        tokens[0] == "start" || tokens[0] == "deadend",
        "First token should be either 'start' or 'deadend', got: {}",
        tokens[0]
    );

    match tokens.len() {
        // If we have one token, the first should be "deadend"
        1 => {
            assert_eq!(tokens[0], "deadend", "First token should be deadend");
        }
        // If we have two tokens the first should be "start", second should be "deadend"
        2 => {
            assert_eq!(tokens[0], "start", "First token should be start");
            assert_eq!(tokens[1], "deadend", "Second token should be deadend");
        }
        i => panic!("tokens length should be 1 or 2, received {}", i),
    }
}

#[test]
fn test_generator_self_loop_emits_only_that_word() {
    // A word whose only destination is itself keeps being emitted, on
    // every run, up to the requested count.
    let mut generator = MarkovGenerator::new(BoundaryConfigs::SentenceEndings);
    let lines = vec![String::from("lonely lonely")];
    generator.train(&lines);

    let tokens: Vec<String> = generator.generate(30);

    assert_eq!(30, tokens.len(), "Should emit the full requested count");
    for token in &tokens {
        assert_eq!("lonely", token);
    }
}

#[test]
fn test_generator_empty_model_generates_nothing() {
    let mut generator = MarkovGenerator::new(BoundaryConfigs::SentenceEndings);

    let tokens: Vec<String> = generator.generate(5);
    assert_eq!(0, tokens.len(), "An untrained model emits no tokens");
}

#[test]
fn test_generator_weighted_sampling_respects_destinations() {
    // Whatever the random draws, every emitted word must be a recorded
    // destination, and the first one a destination of the boundary.
    let mut generator = MarkovGenerator::new(BoundaryConfigs::LineEndings);
    let lines = vec![
        String::from("go left"),
        String::from("go right"),
        String::from("go right"),
    ];
    generator.train(&lines);

    for _ in 0..20 {
        let tokens: Vec<String> = generator.generate(3);
        if !tokens.is_empty() {
            assert_eq!("go", tokens[0], "Every line starts with 'go'");
        }
        for token in &tokens {
            assert!(
                token == "go" || token == "left" || token == "right",
                "Unexpected token: {}",
                token
            );
        }
    }
}
