use regex_dfa::dfa::Dfa;
use regex_dfa::generate_dfa;
use regex_dfa::lexer;
use regex_dfa::parser;
use regex_dfa::DfaGenerationError;

/// Compares a generated automaton with the expected state count, accepting
/// states and transitions, treating the accepting set and the transition
/// table as sets of entries.
pub fn dfa_matches(
    output: &Dfa,
    n_states: usize,
    accepting: Vec<usize>,
    transitions: Vec<(usize, char, usize)>,
) -> bool {
    if output.n_states != n_states || output.start_state != 0 {
        return false;
    }
    let mut got_accepting = output.accepting_states.clone();
    got_accepting.sort();
    let mut want_accepting = accepting;
    want_accepting.sort();
    if got_accepting != want_accepting {
        return false;
    }
    let mut got_transitions: Vec<(usize, char, usize)> = Vec::new();
    for (source, row) in output.transition_function.iter().enumerate() {
        for (c, target) in row {
            got_transitions.push((source, *c, *target));
        }
    }
    got_transitions.sort();
    let mut want_transitions = transitions;
    want_transitions.sort();
    got_transitions == want_transitions
}

#[test]
fn dfa_generation_tests_test_empty_string() {
    let output = generate_dfa("", "ab").unwrap();
    assert!(dfa_matches(&output, 1, vec![0], vec![]));
}

#[test]
fn test_character() {
    let output = generate_dfa("a", "ab").unwrap();
    assert!(dfa_matches(&output, 2, vec![1], vec![(0, 'a', 1)]));
}

#[test]
fn test_invalid_character() {
    let expected_output = DfaGenerationError::Lexical(lexer::LexicalError::CharacterParsing(
        lexer::CharacterParsingError {
            unmatchable_char: 'z',
        },
    ));
    let output = generate_dfa("z", "ab").unwrap_err();
    assert_eq!(output, expected_output);
}

#[test]
fn test_closure_empty_string() {
    let output = generate_dfa("()*", "").unwrap();
    assert!(dfa_matches(&output, 1, vec![0], vec![]));
}

#[test]
fn test_invalid_closure_empty_string() {
    let expected_output = DfaGenerationError::Syntactic(parser::SyntacticError::UnexpectedToken(
        parser::UnexpectedTokenError {
            token: lexer::Token::ReservedToken(lexer::ReservedToken::Closure),
            expected_tokens: vec![
                lexer::Token::Char('.'),
                lexer::Token::ReservedToken(lexer::ReservedToken::LeftPrecedence),
            ],
        },
    ));
    let output = generate_dfa("*", "").unwrap_err();
    assert_eq!(output, expected_output);
}

#[test]
fn test_closure_closure_empty_string() {
    let output = generate_dfa("(()*)*", "").unwrap();
    assert!(dfa_matches(&output, 1, vec![0], vec![]));
}

#[test]
fn test_invalid_closure_closure_empty_string() {
    let expected_output = DfaGenerationError::Syntactic(parser::SyntacticError::UnexpectedToken(
        parser::UnexpectedTokenError {
            token: lexer::Token::ReservedToken(lexer::ReservedToken::Closure),
            expected_tokens: vec![
                lexer::Token::ReservedToken(lexer::ReservedToken::Choice),
                lexer::Token::ReservedToken(lexer::ReservedToken::RightPrecedence),
                lexer::Token::Char('.'),
            ],
        },
    ));
    let output = generate_dfa("()**", "").unwrap_err();
    assert_eq!(output, expected_output);
}

#[test]
fn test_closure_character() {
    let output = generate_dfa("a*", "ab").unwrap();
    assert!(dfa_matches(&output, 1, vec![0], vec![(0, 'a', 0)]));
}

#[test]
fn test_closure_closure_character() {
    let output = generate_dfa("(a*)*", "ab").unwrap();
    assert!(dfa_matches(&output, 1, vec![0], vec![(0, 'a', 0)]));
}

#[test]
fn test_concatenated_closure_character() {
    let output = generate_dfa("a*b*", "ab").unwrap();
    assert!(dfa_matches(
        &output,
        2,
        vec![0, 1],
        vec![(0, 'a', 0), (0, 'b', 1), (1, 'b', 1)],
    ));
}

#[test]
fn test_concatenated_character_and_closure_character() {
    let output = generate_dfa("ab*", "ab").unwrap();
    assert!(dfa_matches(
        &output,
        3,
        vec![2],
        vec![(0, 'a', 1), (1, 'b', 2), (2, 'b', 2)],
    ));
}

#[test]
fn test_concatenated_closure_character_and_character() {
    let output = generate_dfa("a*b", "ab").unwrap();
    assert!(dfa_matches(
        &output,
        3,
        vec![1, 2],
        vec![(0, 'a', 1), (0, 'b', 2), (1, 'a', 1), (1, 'b', 2)],
    ));
}

#[test]
fn test_closure_concatenation() {
    let output = generate_dfa("(ab)*", "ab").unwrap();
    assert!(dfa_matches(
        &output,
        3,
        vec![0, 1],
        vec![(0, 'a', 1), (1, 'b', 2), (2, 'a', 1)],
    ));
}

#[test]
fn test_multiple_concatenated_closures() {
    // This test checks multiple possible outputs, because the DFA generated
    // depends on the order in which discovered states are expanded, and any
    // valid ordering is acceptable.
    let output = generate_dfa("ab*c*d", "abcd").unwrap();
    let matches_a = dfa_matches(
        &output,
        4,
        vec![3],
        vec![
            (0, 'a', 1),
            (1, 'b', 1),
            (1, 'c', 2),
            (1, 'd', 3),
            (2, 'c', 2),
            (2, 'd', 3),
        ],
    );
    let matches_b = dfa_matches(
        &output,
        4,
        vec![2],
        vec![
            (0, 'a', 1),
            (1, 'b', 1),
            (1, 'd', 2),
            (1, 'c', 3),
            (3, 'c', 3),
            (3, 'd', 2),
        ],
    );
    assert!(matches_a || matches_b);
}

#[test]
fn test_concatenated_choice_closure() {
    let output = generate_dfa("a(a|b)*b", "ab").unwrap();
    assert!(dfa_matches(
        &output,
        3,
        vec![2],
        vec![
            (0, 'a', 1),
            (1, 'a', 1),
            (1, 'b', 2),
            (2, 'a', 1),
            (2, 'b', 2),
        ],
    ));
}

#[test]
fn test_choice_character_character() {
    let output = generate_dfa("a|b", "ab").unwrap();
    assert!(dfa_matches(
        &output,
        2,
        vec![1],
        vec![(0, 'a', 1), (0, 'b', 1)],
    ));
}

#[test]
fn test_choice_character_empty_string() {
    let output = generate_dfa("|a", "ab").unwrap();
    assert!(dfa_matches(&output, 2, vec![0, 1], vec![(0, 'a', 1)]));
}

#[test]
fn test_invalid_choice_character_empty_string() {
    let expected_output = DfaGenerationError::Syntactic(
        parser::SyntacticError::MissingExpectedToken(parser::MissingExpectedTokenError {
            expected_tokens: vec![
                lexer::Token::Char('.'),
                lexer::Token::ReservedToken(lexer::ReservedToken::LeftPrecedence),
            ],
        }),
    );
    let output = generate_dfa("a|", "ab").unwrap_err();
    assert_eq!(output, expected_output);
}

#[test]
fn test_choice_empty_string_empty_string() {
    let output = generate_dfa("|()", "ab").unwrap();
    assert!(dfa_matches(&output, 1, vec![0], vec![]));
}

#[test]
fn test_invalid_choice_empty_string_empty_string() {
    let expected_output = DfaGenerationError::Syntactic(
        parser::SyntacticError::MissingExpectedToken(parser::MissingExpectedTokenError {
            expected_tokens: vec![
                lexer::Token::Char('.'),
                lexer::Token::ReservedToken(lexer::ReservedToken::LeftPrecedence),
            ],
        }),
    );
    let output = generate_dfa("|", "ab").unwrap_err();
    assert_eq!(output, expected_output);
}

#[test]
fn test_choice_character_concatenation() {
    let output = generate_dfa("a|ab", "ab").unwrap();
    assert!(dfa_matches(
        &output,
        3,
        vec![1, 2],
        vec![(0, 'a', 1), (1, 'b', 2)],
    ));
}

#[test]
fn test_choice_concatenation_concatenation() {
    // This test checks two possible outputs, because the DFA generated
    // depends on the order in which discovered states are expanded, and
    // either the "ab" or the "ba" branch may be followed first.
    let output = generate_dfa("ab|ba", "ab").unwrap();
    let matches_a = dfa_matches(
        &output,
        4,
        vec![3],
        vec![(0, 'a', 1), (0, 'b', 2), (1, 'b', 3), (2, 'a', 3)],
    );
    let matches_b = dfa_matches(
        &output,
        4,
        vec![3],
        vec![(0, 'b', 1), (0, 'a', 2), (1, 'a', 3), (2, 'b', 3)],
    );
    assert!(matches_a || matches_b);
}

#[test]
fn test_concatenated_choice_character() {
    let output = generate_dfa("(a|b)a", "ab").unwrap();
    assert!(dfa_matches(
        &output,
        3,
        vec![2],
        vec![(0, 'a', 1), (0, 'b', 1), (1, 'a', 2)],
    ));
}

#[test]
fn test_concatenated_character_choice() {
    let output = generate_dfa("a(a|b)", "ab").unwrap();
    assert!(dfa_matches(
        &output,
        3,
        vec![2],
        vec![(0, 'a', 1), (1, 'a', 2), (1, 'b', 2)],
    ));
}

#[test]
fn test_redundant_parentheses() {
    let output = generate_dfa("((a))", "ab").unwrap();
    assert!(dfa_matches(&output, 2, vec![1], vec![(0, 'a', 1)]));
}

#[test]
fn test_concatenated_char_and_empty_string() {
    let output = generate_dfa("a()", "ab").unwrap();
    assert!(dfa_matches(&output, 1, vec![], vec![]));
}

#[test]
fn test_concatenated_empty_string_and_char() {
    let output = generate_dfa("()a", "ab").unwrap();
    assert!(dfa_matches(&output, 2, vec![1], vec![(0, 'a', 1)]));
}

#[test]
fn test_reserved_alphabet_character_is_rejected() {
    let expected_output = DfaGenerationError::Lexical(lexer::LexicalError::ReservedTokenOverwrite(
        lexer::ReservedTokenOverwriteError {
            overwritten_char: '(',
            overwritten_token: lexer::Token::ReservedToken(lexer::ReservedToken::LeftPrecedence),
        },
    ));
    let output = generate_dfa("a", "a(b").unwrap_err();
    assert_eq!(output, expected_output);
}

#[test]
fn test_empty_expression_rejects_nonempty_strings() {
    let output = generate_dfa("", "ab").unwrap();
    assert!(output.evaluate(""));
    assert!(!output.evaluate("a"));
    assert!(!output.evaluate("b"));
    assert!(!output.evaluate("ab"));
}

#[test]
fn test_duplicate_alphabet_characters() {
    let output = generate_dfa("ab", "abab").unwrap();
    assert!(dfa_matches(
        &output,
        3,
        vec![2],
        vec![(0, 'a', 1), (1, 'b', 2)],
    ));
}

#[test]
fn test_empty_alphabet_accepts_only_empty_expression() {
    let output = generate_dfa("", "").unwrap();
    assert!(output.evaluate(""));
    assert!(!output.evaluate("a"));
}
