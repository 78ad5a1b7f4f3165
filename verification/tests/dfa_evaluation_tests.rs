use regex_dfa::generate_dfa;

#[test]
fn test_char_dfa_accepts_valid_char() {
    let input_expression = "a";
    let input_alphabet = "ab";
    let dfa = generate_dfa(input_expression, input_alphabet).unwrap();
    assert!(dfa.evaluate("a"));
}

#[test]
fn test_char_dfa_rejects_invalid_char() {
    let input_expression = "a";
    let input_alphabet = "ab";
    let dfa = generate_dfa(input_expression, input_alphabet).unwrap();
    assert!(!dfa.evaluate("b"));
}

#[test]
fn test_char_dfa_rejects_non_alphabet_char() {
    let input_expression = "a";
    let input_alphabet = "ab";
    let dfa = generate_dfa(input_expression, input_alphabet).unwrap();
    assert!(!dfa.evaluate("z"));
}

#[test]
fn test_char_dfa_rejects_empty_string() {
    let input_expression = "a";
    let input_alphabet = "ab";
    let dfa = generate_dfa(input_expression, input_alphabet).unwrap();
    assert!(!dfa.evaluate(""));
}

#[test]
fn test_closure_dfa_accepts_empty_string() {
    let input_expression = "a*";
    let input_alphabet = "ab";
    let dfa = generate_dfa(input_expression, input_alphabet).unwrap();
    assert!(dfa.evaluate(""));
}

#[test]
fn test_closure_dfa_accepts_single_char() {
    let input_expression = "a*";
    let input_alphabet = "ab";
    let dfa = generate_dfa(input_expression, input_alphabet).unwrap();
    assert!(dfa.evaluate("a"));
}

#[test]
fn test_closure_dfa_rejects_single_invalid_char() {
    let input_expression = "a*";
    let input_alphabet = "ab";
    let dfa = generate_dfa(input_expression, input_alphabet).unwrap();
    assert!(!dfa.evaluate("b"));
}

#[test]
fn test_closure_dfa_accepts_repeated_char() {
    let input_expression = "a*";
    let input_alphabet = "ab";
    let dfa = generate_dfa(input_expression, input_alphabet).unwrap();
    assert!(dfa.evaluate("aaaaa"));
}

#[test]
fn test_closure_dfa_rejects_invalid_char_after_repetition() {
    let input_expression = "a*";
    let input_alphabet = "ab";
    let dfa = generate_dfa(input_expression, input_alphabet).unwrap();
    assert!(!dfa.evaluate("aaaaab"));
}

#[test]
fn test_closure_dfa_rejects_invalid_char_in_repetition() {
    let input_expression = "a*";
    let input_alphabet = "ab";
    let dfa = generate_dfa(input_expression, input_alphabet).unwrap();
    assert!(!dfa.evaluate("aaaaabaaa"));
}

#[test]
fn test_choice_dfa_accepts_left() {
    let input_expression = "a|b";
    let input_alphabet = "ab";
    let dfa = generate_dfa(input_expression, input_alphabet).unwrap();
    assert!(dfa.evaluate("a"));
}

#[test]
fn test_choice_dfa_accepts_right() {
    let input_expression = "a|b";
    let input_alphabet = "ab";
    let dfa = generate_dfa(input_expression, input_alphabet).unwrap();
    assert!(dfa.evaluate("b"));
}

#[test]
fn test_choice_dfa_rejects_concatenation() {
    let input_expression = "a|b";
    let input_alphabet = "ab";
    let dfa = generate_dfa(input_expression, input_alphabet).unwrap();
    assert!(!dfa.evaluate("ab"));
}

#[test]
fn test_choice_dfa_rejects_empty_string() {
    let input_expression = "a|b";
    let input_alphabet = "ab";
    let dfa = generate_dfa(input_expression, input_alphabet).unwrap();
    assert!(!dfa.evaluate(""));
}

#[test]
fn test_complex_dfa_accepts_valid_input() {
    let input_expression = "a(a|b)*b|b(a|b)*a";
    let input_alphabet = "ab";
    let dfa = generate_dfa(input_expression, input_alphabet).unwrap();
    assert!(dfa.evaluate("abbabababb"));
}

#[test]
fn test_complex_dfa_rejects_invalid_input() {
    let input_expression = "a(a|b)*b|b(a|b)*a";
    let input_alphabet = "ab";
    let dfa = generate_dfa(input_expression, input_alphabet).unwrap();
    assert!(!dfa.evaluate("abbabababba"));
}

#[test]
fn test_evaluation_is_repeatable() {
    let input_expression = "a(a|b)*b|b(a|b)*a";
    let input_alphabet = "ab";
    let dfa = generate_dfa(input_expression, input_alphabet).unwrap();
    let first = dfa.evaluate("abbabababb");
    let second = dfa.evaluate("abbabababb");
    let third = dfa.evaluate("abbabababb");
    assert!(first && second && third);
}

#[test]
fn test_generation_is_language_deterministic() {
    let input_expression = "a(a|b)*b|b(a|b)*a";
    let input_alphabet = "ab";
    let first = generate_dfa(input_expression, input_alphabet).unwrap();
    let second = generate_dfa(input_expression, input_alphabet).unwrap();
    let samples = ["", "a", "b", "ab", "ba", "abb", "abbabababb", "abbabababba", "bbbba"];
    for sample in samples {
        assert_eq!(first.evaluate(sample), second.evaluate(sample));
    }
}

#[test]
fn test_generated_dfa_structure() {
    let input_expression = "a(a|b)*b|b(a|b)*a";
    let input_alphabet = "ab";
    let dfa = generate_dfa(input_expression, input_alphabet).unwrap();
    assert_eq!(dfa.start_state, 0);
    assert_eq!(dfa.transition_function.len(), dfa.n_states);
    for accepting in &dfa.accepting_states {
        assert!(*accepting < dfa.n_states);
    }
    for state in 1..dfa.n_states {
        let mut is_target = false;
        for row in &dfa.transition_function {
            for (_, target) in row {
                if *target == state {
                    is_target = true;
                }
            }
        }
        assert!(is_target);
    }
}
