use regex_dfa::annotator::annotate_ast;
use regex_dfa::annotator::AnnotatedExpression;
use regex_dfa::annotator::AnnotatedExpressionContext;
use regex_dfa::annotator::AnnotatedExpressionType;
use regex_dfa::parser::Expression;
use regex_dfa::pos_set::PosSet;

fn pos_set(elems: Vec<usize>) -> PosSet {
    PosSet::from_elems(&elems)
}

/// Strips the synthetic terminal wrapper: checks that the root is a
/// two-child concatenation whose second child is the terminal leaf, and
/// returns the original annotated expression with the leaves before the
/// terminal.
fn unwrap_terminal(
    context: AnnotatedExpressionContext,
) -> Option<(AnnotatedExpression, Vec<AnnotatedExpression>)> {
    let mut leaves = context.leaves;
    match context.expression.expression {
        AnnotatedExpressionType::Concatenation(mut subexpressions) => {
            if subexpressions.len() != 2 {
                panic!("Expected a concatenation of the expression and the terminal.");
            }
            let index = leaves.len() - 1;
            let terminal = subexpressions.pop().unwrap();
            let expected_terminal = AnnotatedExpression {
                expression: AnnotatedExpressionType::Terminal(index),
                is_nullable: false,
                matches_start: pos_set(vec![index]),
                matches_end: pos_set(vec![index]),
            };
            if terminal != expected_terminal {
                panic!("Expected a concatenation of the expression and the terminal.");
            }
            let last_leaf = leaves.pop().unwrap();
            assert_eq!(last_leaf, expected_terminal);
            Some((subexpressions.pop().unwrap(), leaves))
        }
        _ => panic!("Expected a concatenation of the expression and the terminal."),
    }
}

#[test]
fn test_char_expression_annotation() {
    let input = Expression::Char('a');
    let expected_annotated_expression = AnnotatedExpression {
        expression: AnnotatedExpressionType::Char('a', 0),
        is_nullable: false,
        matches_start: pos_set(vec![0]),
        matches_end: pos_set(vec![0]),
    };
    let output = unwrap_terminal(annotate_ast(input).unwrap()).unwrap();
    assert_eq!(output.0, expected_annotated_expression);
    assert_eq!(output.0, output.1[0]);
}

#[test]
fn test_empty_string_expression_annotation() {
    let input = Expression::EmptyString;
    let expected_annotated_expression = AnnotatedExpression {
        expression: AnnotatedExpressionType::EmptyString(0),
        is_nullable: true,
        matches_start: pos_set(vec![]),
        matches_end: pos_set(vec![]),
    };
    let output = unwrap_terminal(annotate_ast(input).unwrap()).unwrap();
    assert_eq!(output.0, expected_annotated_expression);
    assert_eq!(output.0, output.1[0]);
}

#[test]
fn test_concatenation_annotation() {
    let input = Expression::Concatenation(vec![Expression::Char('a'), Expression::Char('b')]);
    let expected_annotated_expression = AnnotatedExpression {
        expression: AnnotatedExpressionType::Concatenation(vec![
            AnnotatedExpression {
                expression: AnnotatedExpressionType::Char('a', 0),
                is_nullable: false,
                matches_start: pos_set(vec![0]),
                matches_end: pos_set(vec![0]),
            },
            AnnotatedExpression {
                expression: AnnotatedExpressionType::Char('b', 1),
                is_nullable: false,
                matches_start: pos_set(vec![1]),
                matches_end: pos_set(vec![1]),
            },
        ]),
        is_nullable: false,
        matches_start: pos_set(vec![0]),
        matches_end: pos_set(vec![1]),
    };
    let output = unwrap_terminal(annotate_ast(input).unwrap()).unwrap();
    assert_eq!(output.0, expected_annotated_expression);
}

#[test]
fn test_nullable_choice_annotation() {
    let input = Expression::Choice(vec![Expression::EmptyString, Expression::Char('a')]);
    let expected_annotated_expression = AnnotatedExpression {
        expression: AnnotatedExpressionType::Choice(vec![
            AnnotatedExpression {
                expression: AnnotatedExpressionType::EmptyString(0),
                is_nullable: true,
                matches_start: pos_set(vec![]),
                matches_end: pos_set(vec![]),
            },
            AnnotatedExpression {
                expression: AnnotatedExpressionType::Char('a', 1),
                is_nullable: false,
                matches_start: pos_set(vec![1]),
                matches_end: pos_set(vec![1]),
            },
        ]),
        is_nullable: true,
        matches_start: pos_set(vec![1]),
        matches_end: pos_set(vec![1]),
    };
    let output = unwrap_terminal(annotate_ast(input).unwrap()).unwrap();
    assert_eq!(output.0, expected_annotated_expression);
}

#[test]
fn test_not_nullable_choice_annotation() {
    let input = Expression::Choice(vec![Expression::Char('a'), Expression::Char('b')]);
    let expected_annotated_expression = AnnotatedExpression {
        expression: AnnotatedExpressionType::Choice(vec![
            AnnotatedExpression {
                expression: AnnotatedExpressionType::Char('a', 0),
                is_nullable: false,
                matches_start: pos_set(vec![0]),
                matches_end: pos_set(vec![0]),
            },
            AnnotatedExpression {
                expression: AnnotatedExpressionType::Char('b', 1),
                is_nullable: false,
                matches_start: pos_set(vec![1]),
                matches_end: pos_set(vec![1]),
            },
        ]),
        is_nullable: false,
        matches_start: pos_set(vec![0, 1]),
        matches_end: pos_set(vec![0, 1]),
    };
    let output = unwrap_terminal(annotate_ast(input).unwrap()).unwrap();
    assert_eq!(output.0, expected_annotated_expression);
}

#[test]
fn test_closure_annotation() {
    let input = Expression::Closure(Box::from(Expression::Char('a')));
    let expected_annotated_expression = AnnotatedExpression {
        expression: AnnotatedExpressionType::Closure(Box::from(AnnotatedExpression {
            expression: AnnotatedExpressionType::Char('a', 0),
            is_nullable: false,
            matches_start: pos_set(vec![0]),
            matches_end: pos_set(vec![0]),
        })),
        is_nullable: true,
        matches_start: pos_set(vec![0]),
        matches_end: pos_set(vec![0]),
    };
    let output = unwrap_terminal(annotate_ast(input).unwrap()).unwrap();
    assert_eq!(output.0, expected_annotated_expression);
}

#[test]
fn test_empty_concatenation_is_invalid() {
    let input = Expression::Concatenation(vec![]);
    let output = annotate_ast(input).unwrap_err();
    assert_eq!(
        output,
        regex_dfa::annotator::AnnotationError::InvalidExpression(
            regex_dfa::annotator::InvalidExpressionError {}
        )
    );
}

#[test]
fn test_nested_empty_concatenation_is_invalid() {
    let input = Expression::Choice(vec![
        Expression::Char('a'),
        Expression::Closure(Box::from(Expression::Concatenation(vec![]))),
    ]);
    let output = annotate_ast(input).unwrap_err();
    assert_eq!(
        output,
        regex_dfa::annotator::AnnotationError::InvalidExpression(
            regex_dfa::annotator::InvalidExpressionError {}
        )
    );
}
