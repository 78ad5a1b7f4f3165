//! Parses a token stream into an expression tree, by recursive descent over
//! the grammar
//!
//! ```text
//! choice        := concatenation ('|' concatenation)*
//! concatenation := closure+
//! closure       := atomic '*'?
//! atomic        := char | '(' choice ')' | epsilon
//! ```
//!
//! Grouping with no right parenthesis, and a `*` with nothing to repeat, are
//! syntax errors.

use vstd::prelude::*;
use crate::lexer::ReservedToken;
use crate::lexer::Token;

verus! {

/// The mathematical shape of an expression tree, used by contracts to pin
/// down what the parser and the later stages produce.
pub enum ExpTree {
    Concatenation(Seq<ExpTree>),
    Choice(Seq<ExpTree>),
    Closure(Box<ExpTree>),
    Char(char),
    EmptyString,
}

/// Represents an AST node.
///
/// [`Expression::EmptyString`] and [`Expression::Char`] are always and the
/// only leaf nodes.
#[derive(Debug, PartialEq)]
pub enum Expression {
    Concatenation(Vec<Expression>),
    Choice(Vec<Expression>),
    Closure(Box<Expression>),
    Char(char),
    EmptyString,
}

/// The view of each expression of a sequence, in order.
pub open spec fn expr_views(s: Seq<Expression>) -> Seq<ExpTree>
    decreases s,
{
    if s.len() == 0 {
        Seq::empty()
    } else {
        seq![expr_view(s[0])] + expr_views(s.drop_first())
    }
}

/// The mathematical shape of an expression tree.
pub open spec fn expr_view(e: Expression) -> ExpTree
    decreases e,
{
    match e {
        Expression::Concatenation(es) => ExpTree::Concatenation(expr_views(es@)),
        Expression::Choice(es) => ExpTree::Choice(expr_views(es@)),
        Expression::Closure(b) => ExpTree::Closure(Box::new(expr_view(*b))),
        Expression::Char(c) => ExpTree::Char(c),
        Expression::EmptyString => ExpTree::EmptyString,
    }
}

impl View for Expression {
    type V = ExpTree;

    open spec fn view(&self) -> ExpTree {
        expr_view(*self)
    }
}

/// `expr_views` maps each element to its view.
pub proof fn lemma_expr_views(s: Seq<Expression>)
    ensures
        expr_views(s).len() == s.len(),
        forall|i: int| 0 <= i < s.len() ==> expr_views(s)[i] == expr_view(s[i]),
    decreases s,
{
    if s.len() > 0 {
        lemma_expr_views(s.drop_first());
        assert(forall|i: int| 0 < i < s.len() ==> s.drop_first()[i - 1] == s[i]);
    }
}

/// Mirrors [`SyntacticError`] with mathematical payloads.
pub enum SpecParseError {
    UnexpectedToken(Token, Seq<Token>),
    MissingExpectedToken(Seq<Token>),
}

/// Runtime error representing that the input token stream was invalid due to a missing token.
///
/// For example, a [`ReservedToken::Choice`] not followed by a valid [`Expression`], or a
/// [`ReservedToken::LeftPrecedence`] without a matching [`ReservedToken::RightPrecedence`].
#[derive(Debug, PartialEq)]
pub struct MissingExpectedTokenError {
    pub expected_tokens: Vec<Token>,
}

/// Runtime error representing that the input token stream was invalid due to an extra token.
///
/// For example, a [`ReservedToken::Closure`] not after a non-empty [`Expression`].
#[derive(Debug, PartialEq)]
pub struct UnexpectedTokenError {
    pub token: Token,
    pub expected_tokens: Vec<Token>,
}

/// Wraps all parser-based errors.
#[derive(Debug, PartialEq)]
pub enum SyntacticError {
    UnexpectedToken(UnexpectedTokenError),
    MissingExpectedToken(MissingExpectedTokenError),
}

/// The mathematical shape of a parser error.
pub open spec fn err_view(e: SyntacticError) -> SpecParseError {
    match e {
        SyntacticError::UnexpectedToken(u) => SpecParseError::UnexpectedToken(
            u.token,
            u.expected_tokens@,
        ),
        SyntacticError::MissingExpectedToken(m) => SpecParseError::MissingExpectedToken(
            m.expected_tokens@,
        ),
    }
}

/// The token at `pos`, if any.
pub open spec fn peek(toks: Seq<Token>, pos: int) -> Option<Token> {
    if 0 <= pos < toks.len() {
        Some(toks[pos])
    } else {
        None
    }
}

/// Parses a single character or a parenthesised subexpression. The pair in
/// each outcome carries the position the parse stopped at, which on an error
/// is wherever the failure left the stream.
pub open spec fn spec_parse_atomic(toks: Seq<Token>, pos: int) -> Result<
    (ExpTree, int),
    (SpecParseError, int),
>
    decreases toks.len() - pos, 1int,
{
    match peek(toks, pos) {
        Some(Token::Char(c)) => Ok((ExpTree::Char(c), pos + 1)),
        Some(Token::ReservedToken(ReservedToken::LeftPrecedence)) => {
            match spec_parse_expression(toks, pos + 1) {
                Err(e) => Err(e),
                Ok((exp, p2)) => match peek(toks, p2) {
                    Some(Token::ReservedToken(ReservedToken::RightPrecedence)) => Ok(
                        (exp, p2 + 1),
                    ),
                    None => Err(
                        (
                            SpecParseError::MissingExpectedToken(
                                seq![Token::ReservedToken(ReservedToken::RightPrecedence)],
                            ),
                            p2,
                        ),
                    ),
                    Some(t) => Err((SpecParseError::UnexpectedToken(t, Seq::empty()), p2 + 1)),
                },
            }
        },
        Some(t) => Err(
            (
                SpecParseError::UnexpectedToken(
                    t,
                    seq![
                        Token::Char('.'),
                        Token::ReservedToken(ReservedToken::LeftPrecedence),
                    ],
                ),
                pos,
            ),
        ),
        None => Err(
            (
                SpecParseError::MissingExpectedToken(
                    seq![
                        Token::Char('.'),
                        Token::ReservedToken(ReservedToken::LeftPrecedence),
                    ],
                ),
                pos,
            ),
        ),
    }
}

/// Parses an atomic followed by an optional closure operator.
pub open spec fn spec_parse_closure(toks: Seq<Token>, pos: int) -> Result<
    (ExpTree, int),
    (SpecParseError, int),
>
    decreases toks.len() - pos, 2int,
{
    match spec_parse_atomic(toks, pos) {
        Err(e) => Err(e),
        Ok((exp, p1)) => match peek(toks, p1) {
            Some(Token::ReservedToken(ReservedToken::Closure)) => Ok(
                (ExpTree::Closure(Box::new(exp)), p1 + 1),
            ),
            _ => Ok((exp, p1)),
        },
    }
}

/// Continues a concatenation after its first closure, accumulating children
/// until a choice bar, a right parenthesis, or the end of the stream.
///
/// The bounds checks guarding the recursive calls here and in the other
/// parsing functions only keep the recursion well-founded: a successful
/// sub-parse always advances within the stream, so the fallback branches are
/// never taken.
pub open spec fn spec_parse_concat_rest(toks: Seq<Token>, pos: int, acc: Seq<ExpTree>) -> Result<
    (ExpTree, int),
    (SpecParseError, int),
>
    decreases toks.len() - pos, 3int,
{
    match peek(toks, pos) {
        None => Ok((ExpTree::Concatenation(acc), pos)),
        Some(Token::ReservedToken(ReservedToken::Choice)) => Ok(
            (ExpTree::Concatenation(acc), pos),
        ),
        Some(Token::ReservedToken(ReservedToken::RightPrecedence)) => Ok(
            (ExpTree::Concatenation(acc), pos),
        ),
        Some(Token::ReservedToken(ReservedToken::Closure)) => Err(
            (
                SpecParseError::UnexpectedToken(
                    Token::ReservedToken(ReservedToken::Closure),
                    seq![
                        Token::ReservedToken(ReservedToken::Choice),
                        Token::ReservedToken(ReservedToken::RightPrecedence),
                        Token::Char('.'),
                    ],
                ),
                pos,
            ),
        ),
        Some(_) => match spec_parse_closure(toks, pos) {
            Err(e) => Err(e),
            Ok((exp, p2)) => {
                if pos < p2 <= toks.len() {
                    spec_parse_concat_rest(toks, p2, acc.push(exp))
                } else {
                    spec_parse_concat_rest(toks, pos + 1, acc.push(exp))
                }
            },
        },
    }
}

/// Parses one or more closures in sequence; a single closure stands alone,
/// two or more become a concatenation node.
pub open spec fn spec_parse_concatenation(toks: Seq<Token>, pos: int) -> Result<
    (ExpTree, int),
    (SpecParseError, int),
>
    decreases toks.len() - pos, 4int,
{
    match spec_parse_closure(toks, pos) {
        Err(e) => Err(e),
        Ok((exp, p1)) => match peek(toks, p1) {
            None => Ok((exp, p1)),
            Some(Token::ReservedToken(ReservedToken::RightPrecedence)) => Ok((exp, p1)),
            Some(Token::ReservedToken(ReservedToken::Choice)) => Ok((exp, p1)),
            Some(_) => {
                if pos <= p1 <= toks.len() {
                    spec_parse_concat_rest(toks, p1, seq![exp])
                } else {
                    spec_parse_concat_rest(toks, pos, seq![exp])
                }
            },
        },
    }
}

/// Continues a choice after its first concatenation, consuming a bar and a
/// concatenation at a time.
pub open spec fn spec_parse_choice_rest(toks: Seq<Token>, pos: int, acc: Seq<ExpTree>) -> Result<
    (ExpTree, int),
    (SpecParseError, int),
>
    decreases toks.len() - pos, 5int,
{
    match peek(toks, pos) {
        None => Ok((ExpTree::Choice(acc), pos)),
        Some(Token::ReservedToken(ReservedToken::RightPrecedence)) => Ok(
            (ExpTree::Choice(acc), pos),
        ),
        Some(Token::ReservedToken(ReservedToken::Choice)) => {
            match spec_parse_concatenation(toks, pos + 1) {
                Err(e) => Err(e),
                Ok((exp, p2)) => {
                    if pos + 1 < p2 <= toks.len() {
                        spec_parse_choice_rest(toks, p2, acc.push(exp))
                    } else {
                        spec_parse_choice_rest(toks, pos + 1, acc.push(exp))
                    }
                },
            }
        },
        Some(t) => Err(
            (
                SpecParseError::UnexpectedToken(
                    t,
                    seq![
                        Token::ReservedToken(ReservedToken::Choice),
                        Token::ReservedToken(ReservedToken::RightPrecedence),
                    ],
                ),
                pos,
            ),
        ),
    }
}

/// Parses a choice: one concatenation, or several separated by bars. A
/// failure of the first concatenation on a missing token, on a choice bar,
/// or on a right parenthesis stands for the empty string, and parsing goes
/// on from wherever the failure stopped.
pub open spec fn spec_parse_choice(toks: Seq<Token>, pos: int) -> Result<
    (ExpTree, int),
    (SpecParseError, int),
>
    decreases toks.len() - pos, 6int,
{
    let first = match spec_parse_concatenation(toks, pos) {
        Err((SpecParseError::MissingExpectedToken(_), p2)) => Ok((ExpTree::EmptyString, p2)),
        Err(
            (SpecParseError::UnexpectedToken(Token::ReservedToken(ReservedToken::Choice), _), p2),
        ) => Ok((ExpTree::EmptyString, p2)),
        Err(
            (
                SpecParseError::UnexpectedToken(
                    Token::ReservedToken(ReservedToken::RightPrecedence),
                    _,
                ),
                p2,
            ),
        ) => Ok((ExpTree::EmptyString, p2)),
        r => r,
    };
    match first {
        Err(e) => Err(e),
        Ok((exp, p1)) => match peek(toks, p1) {
            None => Ok((exp, p1)),
            Some(Token::ReservedToken(ReservedToken::RightPrecedence)) => Ok((exp, p1)),
            Some(_) => {
                if pos <= p1 <= toks.len() {
                    spec_parse_choice_rest(toks, p1, seq![exp])
                } else {
                    spec_parse_choice_rest(toks, pos, seq![exp])
                }
            },
        },
    }
}

/// Parses a whole expression: a choice, per the grammar hierarchy.
pub open spec fn spec_parse_expression(toks: Seq<Token>, pos: int) -> Result<
    (ExpTree, int),
    (SpecParseError, int),
>
    decreases toks.len() - pos, 7int,
{
    spec_parse_choice(toks, pos)
}

/// Parses a complete token stream: a whole expression with nothing after it.
pub open spec fn spec_parse(toks: Seq<Token>) -> Result<ExpTree, SpecParseError> {
    match spec_parse_expression(toks, 0) {
        Err((e, _)) => Err(e),
        Ok((exp, p)) => match peek(toks, p) {
            None => Ok(exp),
            Some(t) => Err(SpecParseError::UnexpectedToken(t, Seq::empty())),
        },
    }
}

/// Appending one expression extends the sequence of views by its view.
pub proof fn lemma_expr_views_push(s: Seq<Expression>, e: Expression)
    ensures
        expr_views(s.push(e)) == expr_views(s).push(expr_view(e)),
{
    lemma_expr_views(s);
    lemma_expr_views(s.push(e));
    assert(forall|i: int| 0 <= i < s.len() ==> s.push(e)[i] == s[i]);
    assert(s.push(e)[s.len() as int] == e);
    assert(expr_views(s.push(e)) =~= expr_views(s).push(expr_view(e)));
}

/// The views of a one-expression sequence.
pub proof fn lemma_expr_views_singleton(e: Expression)
    ensures
        expr_views(seq![e]) == seq![expr_view(e)],
{
    let s = seq![e];
    assert(s.len() == 1 && s[0] == e);
    assert(s.drop_first() =~= Seq::<Expression>::empty());
    assert(expr_views(Seq::<Expression>::empty()) == Seq::<ExpTree>::empty());
    assert(expr_views(s) == seq![expr_view(e)] + Seq::<ExpTree>::empty());
    assert(seq![expr_view(e)] + Seq::<ExpTree>::empty() =~= seq![expr_view(e)]);
}

/// The expected-token list reported when an atomic parse fails.
fn expected_atomic_tokens() -> (v: Vec<Token>)
    ensures
        v@ == seq![Token::Char('.'), Token::ReservedToken(ReservedToken::LeftPrecedence)],
{
    let mut v: Vec<Token> = Vec::new();
    v.push(Token::Char('.'));
    v.push(Token::ReservedToken(ReservedToken::LeftPrecedence));
    proof {
        assert(v@ =~= seq![Token::Char('.'), Token::ReservedToken(ReservedToken::LeftPrecedence)]);
    }
    v
}

/// The expected-token list reported when a concatenation meets a stray token.
fn expected_concat_tokens() -> (v: Vec<Token>)
    ensures
        v@ == seq![
            Token::ReservedToken(ReservedToken::Choice),
            Token::ReservedToken(ReservedToken::RightPrecedence),
            Token::Char('.'),
        ],
{
    let mut v: Vec<Token> = Vec::new();
    v.push(Token::ReservedToken(ReservedToken::Choice));
    v.push(Token::ReservedToken(ReservedToken::RightPrecedence));
    v.push(Token::Char('.'));
    proof {
        assert(v@ =~= seq![
            Token::ReservedToken(ReservedToken::Choice),
            Token::ReservedToken(ReservedToken::RightPrecedence),
            Token::Char('.'),
        ]);
    }
    v
}

/// The expected-token list reported when a choice meets a stray token.
fn expected_choice_tokens() -> (v: Vec<Token>)
    ensures
        v@ == seq![
            Token::ReservedToken(ReservedToken::Choice),
            Token::ReservedToken(ReservedToken::RightPrecedence),
        ],
{
    let mut v: Vec<Token> = Vec::new();
    v.push(Token::ReservedToken(ReservedToken::Choice));
    v.push(Token::ReservedToken(ReservedToken::RightPrecedence));
    proof {
        assert(v@ =~= seq![
            Token::ReservedToken(ReservedToken::Choice),
            Token::ReservedToken(ReservedToken::RightPrecedence),
        ]);
    }
    v
}

/// Parses an [`Expression::Char`] or a parenthesised [`Expression`]. Returns
/// the outcome together with the position the parse stopped at.
pub fn parse_atomic(toks: &Vec<Token>, pos: usize) -> (r: (
    Result<Expression, SyntacticError>,
    usize,
))
    requires
        pos <= toks@.len(),
    ensures
        r.1 <= toks@.len(),
        pos <= r.1,
        match r.0 {
            Ok(e) => spec_parse_atomic(toks@, pos as int) == Ok::<
                (ExpTree, int),
                (SpecParseError, int),
            >((e@, r.1 as int)) && pos < r.1,
            Err(err) => spec_parse_atomic(toks@, pos as int) == Err::<
                (ExpTree, int),
                (SpecParseError, int),
            >((err_view(err), r.1 as int)),
        },
    decreases toks@.len() - pos, 1int,
{
    if pos < toks.len() {
        match toks[pos] {
            Token::Char(c) => (Ok(Expression::Char(c)), pos + 1),
            Token::ReservedToken(ReservedToken::LeftPrecedence) => {
                let (r2, p2) = parse_expression(toks, pos + 1);
                match r2 {
                    Err(e) => (Err(e), p2),
                    Ok(exp) => {
                        if p2 < toks.len() {
                            let t = toks[p2];
                            match t {
                                Token::ReservedToken(ReservedToken::RightPrecedence) => (
                                    Ok(exp),
                                    p2 + 1,
                                ),
                                _ => (
                                    Err(
                                        SyntacticError::UnexpectedToken(
                                            UnexpectedTokenError {
                                                token: t,
                                                expected_tokens: Vec::new(),
                                            },
                                        ),
                                    ),
                                    p2 + 1,
                                ),
                            }
                        } else {
                            let mut v: Vec<Token> = Vec::new();
                            v.push(Token::ReservedToken(ReservedToken::RightPrecedence));
                            proof {
                                assert(v@ =~= seq![
                                    Token::ReservedToken(ReservedToken::RightPrecedence),
                                ]);
                            }
                            (
                                Err(
                                    SyntacticError::MissingExpectedToken(
                                        MissingExpectedTokenError { expected_tokens: v },
                                    ),
                                ),
                                p2,
                            )
                        }
                    },
                }
            },
            t => (
                Err(
                    SyntacticError::UnexpectedToken(
                        UnexpectedTokenError { token: t, expected_tokens: expected_atomic_tokens() },
                    ),
                ),
                pos,
            ),
        }
    } else {
        (
            Err(
                SyntacticError::MissingExpectedToken(
                    MissingExpectedTokenError { expected_tokens: expected_atomic_tokens() },
                ),
            ),
            pos,
        )
    }
}

/// Parses an [`Expression::Closure`]: an atomic with an optional `*` after it.
pub fn parse_closure(toks: &Vec<Token>, pos: usize) -> (r: (
    Result<Expression, SyntacticError>,
    usize,
))
    requires
        pos <= toks@.len(),
    ensures
        r.1 <= toks@.len(),
        pos <= r.1,
        match r.0 {
            Ok(e) => spec_parse_closure(toks@, pos as int) == Ok::<
                (ExpTree, int),
                (SpecParseError, int),
            >((e@, r.1 as int)) && pos < r.1,
            Err(err) => spec_parse_closure(toks@, pos as int) == Err::<
                (ExpTree, int),
                (SpecParseError, int),
            >((err_view(err), r.1 as int)),
        },
    decreases toks@.len() - pos, 2int,
{
    let (r1, p1) = parse_atomic(toks, pos);
    match r1 {
        Err(e) => (Err(e), p1),
        Ok(exp) => {
            if p1 < toks.len() {
                match toks[p1] {
                    Token::ReservedToken(ReservedToken::Closure) => (
                        Ok(Expression::Closure(Box::new(exp))),
                        p1 + 1,
                    ),
                    _ => (Ok(exp), p1),
                }
            } else {
                (Ok(exp), p1)
            }
        },
    }
}

/// Parses an [`Expression::Concatenation`]: one or more closures in sequence.
pub fn parse_concatenation(toks: &Vec<Token>, pos: usize) -> (r: (
    Result<Expression, SyntacticError>,
    usize,
))
    requires
        pos <= toks@.len(),
    ensures
        r.1 <= toks@.len(),
        pos <= r.1,
        match r.0 {
            Ok(e) => spec_parse_concatenation(toks@, pos as int) == Ok::<
                (ExpTree, int),
                (SpecParseError, int),
            >((e@, r.1 as int)) && pos < r.1,
            Err(err) => spec_parse_concatenation(toks@, pos as int) == Err::<
                (ExpTree, int),
                (SpecParseError, int),
            >((err_view(err), r.1 as int)),
        },
    decreases toks@.len() - pos, 4int,
{
    let (r1, p1) = parse_closure(toks, pos);
    match r1 {
        Err(e) => (Err(e), p1),
        Ok(exp) => {
            if p1 >= toks.len() {
                return (Ok(exp), p1);
            }
            match toks[p1] {
                Token::ReservedToken(ReservedToken::RightPrecedence) => {
                    return (Ok(exp), p1);
                },
                Token::ReservedToken(ReservedToken::Choice) => {
                    return (Ok(exp), p1);
                },
                _ => {},
            }
            let mut concatenation: Vec<Expression> = Vec::new();
            let ghost first_view = expr_view(exp);
            concatenation.push(exp);
            proof {
                lemma_expr_views_singleton(concatenation@[0]);
                assert(concatenation@ =~= seq![concatenation@[0]]);
                assert(expr_views(concatenation@) == seq![first_view]);
            }
            let mut p: usize = p1;
            loop
                invariant
                    pos < p <= toks@.len(),
                    spec_parse_concatenation(toks@, pos as int) == spec_parse_concat_rest(
                        toks@,
                        p as int,
                        expr_views(concatenation@),
                    ),
                decreases toks@.len() - p,
            {
                if p >= toks.len() {
                    return (Ok(Expression::Concatenation(concatenation)), p);
                }
                match toks[p] {
                    Token::ReservedToken(ReservedToken::Choice) => {
                        return (Ok(Expression::Concatenation(concatenation)), p);
                    },
                    Token::ReservedToken(ReservedToken::RightPrecedence) => {
                        return (Ok(Expression::Concatenation(concatenation)), p);
                    },
                    Token::ReservedToken(ReservedToken::Closure) => {
                        return (
                            Err(
                                SyntacticError::UnexpectedToken(
                                    UnexpectedTokenError {
                                        token: toks[p],
                                        expected_tokens: expected_concat_tokens(),
                                    },
                                ),
                            ),
                            p,
                        );
                    },
                    _ => {
                        let ghost acc = expr_views(concatenation@);
                        let (r2, p2) = parse_closure(toks, p);
                        match r2 {
                            Err(e) => {
                                return (Err(e), p2);
                            },
                            Ok(e2) => {
                                proof {
                                    lemma_expr_views_push(concatenation@, e2);
                                }
                                concatenation.push(e2);
                                p = p2;
                            },
                        }
                    },
                }
            }
        },
    }
}

/// Parses an [`Expression::Choice`]: concatenations separated by bars. A
/// first concatenation that fails on a missing token, a bar, or a right
/// parenthesis stands for the empty string.
pub fn parse_choice(toks: &Vec<Token>, pos: usize) -> (r: (
    Result<Expression, SyntacticError>,
    usize,
))
    requires
        pos <= toks@.len(),
    ensures
        r.1 <= toks@.len(),
        pos <= r.1,
        match r.0 {
            Ok(e) => spec_parse_choice(toks@, pos as int) == Ok::<
                (ExpTree, int),
                (SpecParseError, int),
            >((e@, r.1 as int)),
            Err(err) => spec_parse_choice(toks@, pos as int) == Err::<
                (ExpTree, int),
                (SpecParseError, int),
            >((err_view(err), r.1 as int)),
        },
    decreases toks@.len() - pos, 6int,
{
    let (r1, p1) = parse_concatenation(toks, pos);
    let first: Result<Expression, SyntacticError> = match r1 {
        Err(SyntacticError::MissingExpectedToken(_)) => Ok(Expression::EmptyString),
        Err(SyntacticError::UnexpectedToken(u)) => {
            match u.token {
                Token::ReservedToken(ReservedToken::Choice) => Ok(Expression::EmptyString),
                Token::ReservedToken(ReservedToken::RightPrecedence) => Ok(
                    Expression::EmptyString,
                ),
                _ => Err(SyntacticError::UnexpectedToken(u)),
            }
        },
        Ok(e) => Ok(e),
    };
    match first {
        Err(e) => (Err(e), p1),
        Ok(exp) => {
            if p1 >= toks.len() {
                return (Ok(exp), p1);
            }
            match toks[p1] {
                Token::ReservedToken(ReservedToken::RightPrecedence) => {
                    return (Ok(exp), p1);
                },
                _ => {},
            }
            let mut choice: Vec<Expression> = Vec::new();
            let ghost first_view = expr_view(exp);
            choice.push(exp);
            proof {
                lemma_expr_views_singleton(choice@[0]);
                assert(choice@ =~= seq![choice@[0]]);
                assert(expr_views(choice@) == seq![first_view]);
            }
            let mut p: usize = p1;
            loop
                invariant
                    pos <= p <= toks@.len(),
                    spec_parse_choice(toks@, pos as int) == spec_parse_choice_rest(
                        toks@,
                        p as int,
                        expr_views(choice@),
                    ),
                decreases toks@.len() - p,
            {
                if p >= toks.len() {
                    return (Ok(Expression::Choice(choice)), p);
                }
                match toks[p] {
                    Token::ReservedToken(ReservedToken::RightPrecedence) => {
                        return (Ok(Expression::Choice(choice)), p);
                    },
                    Token::ReservedToken(ReservedToken::Choice) => {
                        let (r2, p2) = parse_concatenation(toks, p + 1);
                        match r2 {
                            Err(e) => {
                                return (Err(e), p2);
                            },
                            Ok(e2) => {
                                proof {
                                    lemma_expr_views_push(choice@, e2);
                                }
                                choice.push(e2);
                                p = p2;
                            },
                        }
                    },
                    t => {
                        return (
                            Err(
                                SyntacticError::UnexpectedToken(
                                    UnexpectedTokenError {
                                        token: t,
                                        expected_tokens: expected_choice_tokens(),
                                    },
                                ),
                            ),
                            p,
                        );
                    },
                }
            }
        },
    }
}

/// Parses an [`Expression`]: the grammar hierarchy starts at a choice.
pub fn parse_expression(toks: &Vec<Token>, pos: usize) -> (r: (
    Result<Expression, SyntacticError>,
    usize,
))
    requires
        pos <= toks@.len(),
    ensures
        r.1 <= toks@.len(),
        pos <= r.1,
        match r.0 {
            Ok(e) => spec_parse_expression(toks@, pos as int) == Ok::<
                (ExpTree, int),
                (SpecParseError, int),
            >((e@, r.1 as int)),
            Err(err) => spec_parse_expression(toks@, pos as int) == Err::<
                (ExpTree, int),
                (SpecParseError, int),
            >((err_view(err), r.1 as int)),
        },
    decreases toks@.len() - pos, 7int,
{
    parse_choice(toks, pos)
}

/// Generates the root of an AST representing the token stream.
pub fn parse(token_stream: Vec<Token>) -> (r: Result<Expression, SyntacticError>)
    ensures
        match r {
            Ok(e) => spec_parse(token_stream@) == Ok::<ExpTree, SpecParseError>(e@),
            Err(err) => spec_parse(token_stream@) == Err::<ExpTree, SpecParseError>(
                err_view(err),
            ),
        },
{
    let (r1, p1) = parse_expression(&token_stream, 0);
    match r1 {
        Err(e) => Err(e),
        Ok(exp) => {
            if p1 < token_stream.len() {
                Err(
                    SyntacticError::UnexpectedToken(
                        UnexpectedTokenError {
                            token: token_stream[p1],
                            expected_tokens: Vec::new(),
                        },
                    ),
                )
            } else {
                Ok(exp)
            }
        },
    }
}

} // verus!
