use regex_dfa::annotator::annotate_ast;
use regex_dfa::dfa::calculate_matches_next;
use regex_dfa::dfa::generate_dfa;
use regex_dfa::dfa::Dfa;
use regex_dfa::parser::Expression;
use regex_dfa::pos_set::PosSet;

/// Compares a generated automaton with the expected state count, accepting
/// states and transitions, treating the accepting set and the transition
/// table as sets of entries.
pub fn dfa_matches(
    output: &Dfa,
    n_states: usize,
    accepting: Vec<usize>,
    transitions: Vec<(usize, char, usize)>,
) -> bool {
    if output.n_states != n_states || output.start_state != 0 {
        return false;
    }
    let mut got_accepting = output.accepting_states.clone();
    got_accepting.sort();
    let mut want_accepting = accepting;
    want_accepting.sort();
    if got_accepting != want_accepting {
        return false;
    }
    let mut got_transitions: Vec<(usize, char, usize)> = Vec::new();
    for (source, row) in output.transition_function.iter().enumerate() {
        for (c, target) in row {
            got_transitions.push((source, *c, *target));
        }
    }
    got_transitions.sort();
    let mut want_transitions = transitions;
    want_transitions.sort();
    got_transitions == want_transitions
}

// Example regular expression: the concatenation of a closed choice of two
// characters with three single characters, whose follow sets exercise every
// construction rule at once.
//
// This function tests unexposed internal functionality, but is appropriate in
// order to verify that the algorithm has been correctly implemented.
#[test]
fn test_calculates_matches_next() {
    let input = Expression::Concatenation(vec![
        Expression::Closure(Box::from(Expression::Choice(vec![
            Expression::Char('a'),
            Expression::Char('b'),
        ]))),
        Expression::Char('a'),
        Expression::Char('b'),
        Expression::Char('b'),
    ]);
    let expected_output = vec![
        PosSet::from_elems(&vec![0, 1, 2]),
        PosSet::from_elems(&vec![0, 1, 2]),
        PosSet::from_elems(&vec![3]),
        PosSet::from_elems(&vec![4]),
        PosSet::from_elems(&vec![5]),
        PosSet::from_elems(&vec![]),
    ];
    let annotated_input = annotate_ast(input).unwrap();
    let mut matches_next = vec![
        PosSet::empty(),
        PosSet::empty(),
        PosSet::empty(),
        PosSet::empty(),
        PosSet::empty(),
        PosSet::empty(),
    ];
    calculate_matches_next(&annotated_input.expression, &mut matches_next);
    assert_eq!(matches_next, expected_output);
}

#[test]
fn test_generates_dfa() {
    let input = Expression::Concatenation(vec![
        Expression::Closure(Box::from(Expression::Choice(vec![
            Expression::Char('a'),
            Expression::Char('b'),
        ]))),
        Expression::Char('a'),
        Expression::Char('b'),
        Expression::Char('b'),
    ]);
    let annotated_input = annotate_ast(input).unwrap();
    let output = generate_dfa(annotated_input);
    assert!(dfa_matches(
        &output,
        4,
        vec![3],
        vec![
            (0, 'a', 1),
            (0, 'b', 0),
            (1, 'a', 1),
            (1, 'b', 2),
            (2, 'a', 1),
            (2, 'b', 3),
            (3, 'a', 1),
            (3, 'b', 0),
        ],
    ));
}

// The following tests, testing DFA generation, are implementation-sensitive
// and thus only test simple expressions and don't provide much confidence in
// the DFA generation implementation.
#[test]
fn test_char_expression_dfa() {
    let input = Expression::Char('a');
    let annotated_input = annotate_ast(input).unwrap();
    let output = generate_dfa(annotated_input);
    assert!(dfa_matches(&output, 2, vec![1], vec![(0, 'a', 1)]));
}

#[test]
fn test_empty_string_expression_dfa() {
    let input = Expression::EmptyString;
    let annotated_input = annotate_ast(input).unwrap();
    let output = generate_dfa(annotated_input);
    assert!(dfa_matches(&output, 1, vec![0], vec![]));
}

#[test]
fn test_concatenation_expression_dfa() {
    let input = Expression::Concatenation(vec![Expression::Char('a'), Expression::Char('b')]);
    let annotated_input = annotate_ast(input).unwrap();
    let output = generate_dfa(annotated_input);
    assert!(dfa_matches(
        &output,
        3,
        vec![2],
        vec![(0, 'a', 1), (1, 'b', 2)],
    ));
}

#[test]
fn test_not_nullable_choice_expression_dfa() {
    let input = Expression::Choice(vec![Expression::Char('a'), Expression::Char('b')]);
    let annotated_input = annotate_ast(input).unwrap();
    let output = generate_dfa(annotated_input);
    assert!(dfa_matches(
        &output,
        2,
        vec![1],
        vec![(0, 'a', 1), (0, 'b', 1)],
    ));
}

#[test]
fn test_nullable_choice_expression_dfa() {
    let input = Expression::Choice(vec![
        Expression::EmptyString,
        Expression::Char('a'),
        Expression::Char('b'),
    ]);
    let annotated_input = annotate_ast(input).unwrap();
    let output = generate_dfa(annotated_input);
    assert!(dfa_matches(
        &output,
        2,
        vec![0, 1],
        vec![(0, 'a', 1), (0, 'b', 1)],
    ));
}
