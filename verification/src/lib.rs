//! Compiles a regular expression over a caller-supplied finite alphabet
//! directly into a deterministic finite automaton, without building a
//! nondeterministic automaton first. The pipeline lexes the expression
//! string into tokens, parses them into an expression tree, annotates the
//! tree with nullability and first/last position sets, and runs
//! position-set subset construction to produce the automaton.

use vstd::prelude::*;

pub mod annotator;
pub mod dfa;
pub mod lexer;
pub mod parser;
pub mod pos_set;

use crate::annotator::AnnTree;

verus! {

/// Represents an error during the creation of the DFA.
#[derive(Debug, PartialEq)]
pub enum DfaGenerationError {
    /// Represents an error during lexing of the input regular expression and
    /// alphabet into a token stream.
    Lexical(lexer::LexicalError),
    /// Represents an error during parsing of the token stream to an AST.
    Syntactic(parser::SyntacticError),
    /// Represents an error during annotation of the AST.
    Annotation(annotator::AnnotationError),
}

/// The annotated context that the front half of the pipeline produces for an
/// expression and an alphabet, when every stage succeeds: the alphabet claims
/// no reserved character, every character of the expression lexes, the token
/// stream parses, and annotation assigns every position.
pub open spec fn pipeline_tree(expr: Seq<char>, alphabet: Seq<char>) -> Option<
    (AnnTree, Seq<AnnTree>),
> {
    if lexer::first_reserved(alphabet) is Some {
        None
    } else {
        match lexer::spec_lex(alphabet, expr) {
            Err(_) => None,
            Ok(toks) => match parser::spec_parse(toks) {
                Err(_) => None,
                Ok(tree) => match annotator::spec_annotate_ast(tree) {
                    Err(_) => None,
                    Ok((root, lvs)) => Some((root, lvs)),
                },
            },
        }
    }
}

/// The error a failing pipeline reports: the alphabet check, the lexer, the
/// parser and the annotator are tried in that order, and the first stage to
/// fail names the error.
pub open spec fn pipeline_error_matches(
    expr: Seq<char>,
    alphabet: Seq<char>,
    e: DfaGenerationError,
) -> bool {
    match e {
        DfaGenerationError::Lexical(le) => {
            if lexer::first_reserved(alphabet) is Some {
                le == lexer::LexicalError::ReservedTokenOverwrite(
                    (lexer::ReservedTokenOverwriteError {
                        overwritten_char: lexer::first_reserved(alphabet)->Some_0,
                        overwritten_token: lexer::Token::ReservedToken(
                            lexer::reserved_token_of(lexer::first_reserved(alphabet)->Some_0),
                        ),
                    }),
                )
            } else {
                lexer::spec_lex(alphabet, expr) is Err && le == lexer::LexicalError::CharacterParsing(
                    (lexer::CharacterParsingError {
                        unmatchable_char: lexer::spec_lex(alphabet, expr)->Err_0,
                    }),
                )
            }
        },
        DfaGenerationError::Syntactic(se) => {
            &&& lexer::first_reserved(alphabet) is None
            &&& lexer::spec_lex(alphabet, expr) is Ok
            &&& parser::spec_parse(lexer::spec_lex(alphabet, expr)->Ok_0) == Err::<
                parser::ExpTree,
                parser::SpecParseError,
            >(parser::err_view(se))
        },
        DfaGenerationError::Annotation(ae) => {
            &&& lexer::first_reserved(alphabet) is None
            &&& lexer::spec_lex(alphabet, expr) is Ok
            &&& parser::spec_parse(lexer::spec_lex(alphabet, expr)->Ok_0) is Ok
            &&& annotator::spec_annotate_ast(
                parser::spec_parse(lexer::spec_lex(alphabet, expr)->Ok_0)->Ok_0,
            ) == Err::<(AnnTree, Seq<AnnTree>), annotator::AnnotationError>(ae)
        },
    }
}

/// Generates a DFA from an input regular expression string and alphabet.
/// Succeeds exactly when every pipeline stage succeeds, and then returns an
/// automaton that the subset construction yields for the annotated
/// expression; a failure reports the first stage that rejected the input.
pub fn generate_dfa(raw_expression: &str, alphabet: &str) -> (r: Result<
    dfa::Dfa,
    DfaGenerationError,
>)
    ensures
        ({
            let pt = pipeline_tree(raw_expression@, alphabet@);
            match r {
                Ok(d) => pt is Some && dfa::generated_from(d, pt->Some_0.0, pt->Some_0.1)
                    && d.start_state == 0 && d.n_states >= 1 && d.transition_function@.len()
                    == d.n_states,
                Err(e) => pt is None && pipeline_error_matches(raw_expression@, alphabet@, e),
            }
        }),
{
    let sanitised_alphabet = match lexer::generate_token_map(alphabet) {
        Ok(map) => map,
        Err(e) => {
            return Err(DfaGenerationError::Lexical(e));
        },
    };
    let lexed_expression = match lexer::lex_string(&sanitised_alphabet, raw_expression) {
        Ok(tokens) => tokens,
        Err(e) => {
            return Err(DfaGenerationError::Lexical(e));
        },
    };
    let parsed_expression = match parser::parse(lexed_expression) {
        Ok(expression) => expression,
        Err(e) => {
            return Err(DfaGenerationError::Syntactic(e));
        },
    };
    let annotated_expression = match annotator::annotate_ast(parsed_expression) {
        Ok(ctx) => ctx,
        Err(e) => {
            return Err(DfaGenerationError::Annotation(e));
        },
    };
    proof {
        let tree = parser::spec_parse(lexer::spec_lex(alphabet@, raw_expression@)->Ok_0)->Ok_0;
        dfa::lemma_spec_annotate_ast_wf(tree);
        annotator::lemma_ann_views(annotated_expression.leaves@);
    }
    Ok(dfa::generate_dfa(annotated_expression))
}

/// Repeated generation is deterministic in the language: two automata
/// generated for the same expression and alphabet accept exactly the same
/// strings, even where internal state numbering could differ.
pub proof fn lemma_generate_dfa_deterministic(
    expr: Seq<char>,
    alphabet: Seq<char>,
    d1: dfa::Dfa,
    d2: dfa::Dfa,
    s: Seq<char>,
)
    requires
        pipeline_tree(expr, alphabet) is Some,
        dfa::generated_from(
            d1,
            pipeline_tree(expr, alphabet)->Some_0.0,
            pipeline_tree(expr, alphabet)->Some_0.1,
        ),
        dfa::generated_from(
            d2,
            pipeline_tree(expr, alphabet)->Some_0.0,
            pipeline_tree(expr, alphabet)->Some_0.1,
        ),
    ensures
        d1.spec_accepts(s) == d2.spec_accepts(s),
{
    dfa::lemma_language_deterministic(
        d1,
        d2,
        pipeline_tree(expr, alphabet)->Some_0.0,
        pipeline_tree(expr, alphabet)->Some_0.1,
        s,
    );
}

/// Over any alphabet that claims no reserved character, the pipeline
/// succeeds on the empty expression.
pub proof fn lemma_empty_expression_pipeline(alphabet: Seq<char>)
    requires
        lexer::first_reserved(alphabet) is None,
    ensures
        pipeline_tree(Seq::empty(), alphabet) is Some,
{
    lemma_empty_expression_tree(alphabet);
}

/// The annotated context of the empty expression: an empty-string leaf at
/// position zero and the terminal at position one, with the terminal alone
/// in the root's first and last position sets.
proof fn lemma_empty_expression_tree(alphabet: Seq<char>)
    requires
        lexer::first_reserved(alphabet) is None,
    ensures
        ({
            let pt = pipeline_tree(Seq::empty(), alphabet);
            &&& pt is Some
            &&& pt->Some_0.0.first == seq![1usize]
            &&& pt->Some_0.1.len() == 2
            &&& pt->Some_0.1 == seq![annotator::empty_leaf(0), annotator::terminal_leaf(1)]
        }),
{
    let toks = Seq::<lexer::Token>::empty();
    assert(lexer::spec_lex(alphabet, Seq::empty()) == Ok::<Seq<lexer::Token>, char>(toks));
    assert(parser::peek(toks, 0) is None);
    let missing = parser::SpecParseError::MissingExpectedToken(
        seq![
            lexer::Token::Char('.'),
            lexer::Token::ReservedToken(lexer::ReservedToken::LeftPrecedence),
        ],
    );
    assert(parser::spec_parse_atomic(toks, 0) == Err::<
        (parser::ExpTree, int),
        (parser::SpecParseError, int),
    >((missing, 0)));
    assert(parser::spec_parse_closure(toks, 0) == Err::<
        (parser::ExpTree, int),
        (parser::SpecParseError, int),
    >((missing, 0)));
    assert(parser::spec_parse_concatenation(toks, 0) == Err::<
        (parser::ExpTree, int),
        (parser::SpecParseError, int),
    >((missing, 0)));
    assert(parser::spec_parse_choice(toks, 0) == Ok::<
        (parser::ExpTree, int),
        (parser::SpecParseError, int),
    >((parser::ExpTree::EmptyString, 0)));
    assert(parser::spec_parse_expression(toks, 0) == Ok::<
        (parser::ExpTree, int),
        (parser::SpecParseError, int),
    >((parser::ExpTree::EmptyString, 0)));
    assert(parser::spec_parse(toks) == Ok::<parser::ExpTree, parser::SpecParseError>(
        parser::ExpTree::EmptyString,
    ));
    let leaf = annotator::empty_leaf(0);
    assert(annotator::spec_annotate(parser::ExpTree::EmptyString, 0) == Ok::<
        (AnnTree, int, Seq<AnnTree>),
        annotator::AnnotationError,
    >((leaf, 1, seq![leaf])));
    let terminal = annotator::terminal_leaf(1);
    let cs = pos_set::merge(pos_set::merge(Seq::empty(), terminal.first), leaf.first);
    let ce = pos_set::merge(pos_set::merge(Seq::empty(), leaf.last), terminal.last);
    assert(pos_set::merge(Seq::<usize>::empty(), terminal.first) == terminal.first);
    assert(cs == seq![1usize]) by {
        assert(leaf.first.len() == 0);
        assert(pos_set::merge(terminal.first, leaf.first) == terminal.first);
    }
    assert(pos_set::merge(Seq::<usize>::empty(), leaf.last) == leaf.last);
    assert(ce == seq![1usize]) by {
        assert(pos_set::merge(leaf.last, terminal.last) == terminal.last);
    }
    let root = AnnTree {
        kind: annotator::AnnKind::Concatenation(seq![leaf, terminal]),
        nullable: false,
        first: cs,
        last: ce,
    };
    assert(annotator::spec_annotate_ast(parser::ExpTree::EmptyString) == Ok::<
        (AnnTree, Seq<AnnTree>),
        annotator::AnnotationError,
    >((root, seq![leaf].push(terminal))));
    assert(seq![leaf].push(terminal) =~= seq![leaf, terminal]);
}

/// Nullability correctness: an automaton generated for the empty expression
/// accepts a string exactly when the string is empty, over any alphabet that
/// claims no reserved character.
pub proof fn lemma_empty_expression_dfa(alphabet: Seq<char>, d: dfa::Dfa, s: Seq<char>)
    requires
        lexer::first_reserved(alphabet) is None,
        ({
            let pt = pipeline_tree(Seq::empty(), alphabet);
            pt is Some && dfa::generated_from(d, pt->Some_0.0, pt->Some_0.1)
        }),
    ensures
        d.spec_accepts(s) == (s.len() == 0),
{
    lemma_empty_expression_tree(alphabet);
    let pt = pipeline_tree(Seq::empty(), alphabet);
    let root = pt->Some_0.0;
    let leaves = pt->Some_0.1;
    let term = 1usize;
    let kinds = dfa::kinds_of(leaves);
    let follow = dfa::follow_table(root, leaves.len());
    let init = dfa::sc_init(root.first, term);
    assert(root.first == seq![1usize]);
    assert(root.first.contains(1usize)) by {
        assert(root.first[0] == 1usize);
    }
    assert(init.states == seq![seq![1usize]]);
    assert(init.accepting == seq![0usize]);
    assert(kinds.len() == 2);
    assert(kinds[1] == dfa::leaf_char(annotator::terminal_leaf(1)));
    assert(kinds[1] is None);
    let st0 = init;
    assert(!dfa::sc_done(st0));
    let gs = dfa::groups_of(st0.states[0], kinds, follow);
    assert(gs =~= Seq::<(char, Seq<usize>)>::empty()) by {
        let state = st0.states[0];
        assert(state.len() == 1);
        assert(state.last() == 1usize);
        assert(state.drop_last() =~= Seq::<usize>::empty());
        assert(dfa::groups_of(state.drop_last(), kinds, follow) == Seq::<(char, Seq<usize>)>::empty());
    }
    let st1 = dfa::sc_step(st0, kinds, follow, term);
    assert(dfa::add_groups(st0.states, st0.accepting, Seq::empty(), gs, term) == (
        st0.states,
        st0.accepting,
        Seq::<(char, usize)>::empty(),
    ));
    assert(st1.states == st0.states && st1.processed == 1 && st1.accepting == st0.accepting);
    assert(st1.rows == Seq::<Seq<(char, usize)>>::empty().push(Seq::<(char, usize)>::empty()));
    assert(dfa::sc_done(st1));
    let k = choose|k: nat| dfa::subset_outcome(d, root, leaves, k);
    assert(dfa::sc_iter(1, init, kinds, follow, term) == st1) by {
        assert(dfa::sc_iter(0, init, kinds, follow, term) == init);
    }
    assert(k >= 1) by {
        if k == 0 {
            assert(dfa::sc_iter(0, init, kinds, follow, term) == init);
            assert(!dfa::sc_done(init));
        }
    }
    dfa::lemma_sc_iter_stable(1, k, init, kinds, follow, term);
    let st = dfa::sc_iter(k, init, kinds, follow, term);
    assert(st == st1);
    assert(d.n_states == 1 && d.start_state == 0);
    assert(d.accepting_states@ == seq![0usize]);
    assert(dfa::rows_view(d.transition_function@) == st1.rows);
    assert(d.transition_function@.len() == 1) by {
        assert(dfa::rows_view(d.transition_function@).len() == d.transition_function@.len());
        assert(st1.rows.len() == 1);
    }
    if s.len() == 0 {
        assert(d.spec_accepts(s) == d.accepting_states@.contains(0usize));
        assert(d.accepting_states@.contains(0usize)) by {
            assert(d.accepting_states@[0] == 0usize);
        }
    } else {
        assert(d.transition_function@[0]@ == dfa::rows_view(d.transition_function@)[0]);
        assert(d.transition_function@[0]@ == Seq::<(char, usize)>::empty());
        assert(dfa::row_lookup(d.transition_function@[0]@, s[0]) is None);
        assert(d.spec_transition(0usize, s[0]) is None);
        assert(!d.spec_accepts(s));
    }
}

} // verus!
