//! Turns a regular-expression string into a stream of tokens, over a
//! caller-supplied alphabet. Four characters are reserved for operators:
//! choice `|`, closure `*`, and the grouping parentheses. An alphabet that
//! claims a reserved character is rejected, and so is an input character
//! that is neither reserved nor in the alphabet.

use vstd::prelude::*;
use vstd::string::StrSliceExecFns;

verus! {

/// Tokens that stand for the regular-expression operators rather than for
/// characters of the user-defined alphabet.
#[derive(Copy, Clone, Debug, PartialEq, Eq, Structural)]
pub enum ReservedToken {
    Choice,
    Closure,
    LeftPrecedence,
    RightPrecedence,
}

/// The units of the lexed text, consumed by the parser.
#[derive(Copy, Clone, Debug, PartialEq, Eq, Structural)]
pub enum Token {
    Char(char),
    ReservedToken(ReservedToken),
}

/// Whether `c` is one of the four reserved operator characters.
pub open spec fn is_reserved_char(c: char) -> bool {
    c == '|' || c == '*' || c == '(' || c == ')'
}

/// The operator token a reserved character stands for.
pub open spec fn reserved_token_of(c: char) -> ReservedToken {
    if c == '|' {
        ReservedToken::Choice
    } else if c == '*' {
        ReservedToken::Closure
    } else if c == '(' {
        ReservedToken::LeftPrecedence
    } else {
        ReservedToken::RightPrecedence
    }
}

/// The token a single character lexes to, given the alphabet: reserved
/// characters map to their operator, alphabet characters to `Token::Char`,
/// and anything else to nothing.
pub open spec fn token_of(alphabet: Seq<char>, c: char) -> Option<Token> {
    if is_reserved_char(c) {
        Some(Token::ReservedToken(reserved_token_of(c)))
    } else if alphabet.contains(c) {
        Some(Token::Char(c))
    } else {
        None
    }
}

/// The first reserved character of `s`, if any: the character that a
/// token-map check reports as overwritten.
pub open spec fn first_reserved(s: Seq<char>) -> Option<char>
    decreases s.len(),
{
    if s.len() == 0 {
        None
    } else if is_reserved_char(s[0]) {
        Some(s[0])
    } else {
        first_reserved(s.drop_first())
    }
}

/// The token stream of `s` over `alphabet`, or the first character that
/// lexes to no token.
pub open spec fn spec_lex(alphabet: Seq<char>, s: Seq<char>) -> Result<Seq<Token>, char>
    decreases s.len(),
{
    if s.len() == 0 {
        Ok(Seq::empty())
    } else {
        match token_of(alphabet, s[0]) {
            None => Err(s[0]),
            Some(t) => match spec_lex(alphabet, s.drop_first()) {
                Ok(ts) => Ok(seq![t] + ts),
                Err(c) => Err(c),
            },
        }
    }
}

/// Runtime error representing that the input string is not parsable to a [`Token`].
#[derive(Debug, PartialEq)]
pub struct CharacterParsingError {
    pub unmatchable_char: char,
}

/// Runtime error representing that the input alphabet overwrote some reserved [`Token`].
#[derive(Debug, PartialEq)]
pub struct ReservedTokenOverwriteError {
    pub overwritten_char: char,
    pub overwritten_token: Token,
}

/// Runtime error representing that the input alphabet does not satisfy the prefix property.
///
/// This error is currently never returned, as only single characters are
/// supported in the user-defined alphabet and all reserved tokens are
/// single characters. It is kept because the alphabet may later admit
/// arbitrary-length strings.
#[derive(Debug, PartialEq)]
pub struct PrefixPropertyViolationError {
    pub contained_string: String,
    pub containing_string: String,
}

/// Wraps all lexer-based errors.
#[derive(Debug, PartialEq)]
pub enum LexicalError {
    CharacterParsing(CharacterParsingError),
    ReservedTokenOverwrite(ReservedTokenOverwriteError),
    PrefixPropertyViolation(PrefixPropertyViolationError),
}

/// The set of characters the expression may use, checked not to claim any
/// reserved operator character.
#[derive(Debug)]
pub struct TokenMap {
    alphabet: Vec<char>,
}

impl View for TokenMap {
    type V = Seq<char>;

    closed spec fn view(&self) -> Seq<char> {
        self.alphabet@
    }
}

impl TokenMap {
    /// No character of the alphabet is reserved.
    pub open spec fn wf(&self) -> bool {
        forall|i: int| 0 <= i < self@.len() ==> !is_reserved_char(self@[i])
    }

    /// Verifies that no reserved token was overwritten by the alphabet and
    /// that the alphabet keeps the prefix property (the latter holds of any
    /// single-character alphabet).
    pub fn verify_reserved_tokens_exist(alphabet: &Vec<char>) -> (r: Result<
        (),
        LexicalError,
    >)
        ensures
            match r {
                Ok(()) => first_reserved(alphabet@) is None && (forall|i: int|
                    0 <= i < alphabet@.len() ==> !is_reserved_char(alphabet@[i])),
                Err(e) => first_reserved(alphabet@) is Some && e == LexicalError::ReservedTokenOverwrite(
                    (ReservedTokenOverwriteError {
                        overwritten_char: first_reserved(alphabet@)->Some_0,
                        overwritten_token: Token::ReservedToken(
                            reserved_token_of(first_reserved(alphabet@)->Some_0),
                        ),
                    }),
                ),
            },
    {
        let mut i: usize = 0;
        proof {
            assert(alphabet@.skip(0) == alphabet@);
        }
        while i < alphabet.len()
            invariant
                i <= alphabet.len(),
                forall|k: int| 0 <= k < i ==> !is_reserved_char(alphabet@[k]),
                first_reserved(alphabet@) == first_reserved(alphabet@.skip(i as int)),
            decreases alphabet.len() - i,
        {
            let c = alphabet[i];
            let ghost rest = alphabet@.skip(i as int);
            proof {
                assert(rest[0] == c);
                assert(rest.drop_first() =~= alphabet@.skip(i + 1));
            }
            if c == '|' || c == '*' || c == '(' || c == ')' {
                return Err(
                    LexicalError::ReservedTokenOverwrite(
                        ReservedTokenOverwriteError {
                            overwritten_char: c,
                            overwritten_token: Token::ReservedToken(
                                if c == '|' {
                                    ReservedToken::Choice
                                } else if c == '*' {
                                    ReservedToken::Closure
                                } else if c == '(' {
                                    ReservedToken::LeftPrecedence
                                } else {
                                    ReservedToken::RightPrecedence
                                },
                            ),
                        },
                    ),
                );
            }
            i = i + 1;
        }
        proof {
            assert(alphabet@.skip(alphabet@.len() as int) =~= Seq::<char>::empty());
        }
        Ok(())
    }

    /// Sanitising constructor.
    pub fn new(alphabet: Vec<char>) -> (r: Result<TokenMap, LexicalError>)
        ensures
            match r {
                Ok(map) => map@ == alphabet@ && map.wf() && first_reserved(alphabet@) is None,
                Err(e) => first_reserved(alphabet@) is Some && e == LexicalError::ReservedTokenOverwrite(
                    (ReservedTokenOverwriteError {
                        overwritten_char: first_reserved(alphabet@)->Some_0,
                        overwritten_token: Token::ReservedToken(
                            reserved_token_of(first_reserved(alphabet@)->Some_0),
                        ),
                    }),
                ),
            },
    {
        match TokenMap::verify_reserved_tokens_exist(&alphabet) {
            Ok(()) => Ok(TokenMap { alphabet }),
            Err(e) => Err(e),
        }
    }
}

/// Collects the characters of a string slice.
pub fn str_chars(s: &str) -> (v: Vec<char>)
    ensures
        v@ == s@,
{
    let n = s.unicode_len();
    let mut v: Vec<char> = Vec::new();
    let mut i: usize = 0;
    while i < n
        invariant
            i <= n,
            n == s@.len(),
            v@ == s@.take(i as int),
        decreases n - i,
    {
        v.push(s.get_char(i));
        i = i + 1;
        proof {
            assert(v@ =~= s@.take(i as int));
        }
    }
    proof {
        assert(s@.take(s@.len() as int) =~= s@);
    }
    v
}

/// Generates a [`TokenMap`] from an input alphabet.
pub fn generate_token_map(alphabet: &str) -> (r: Result<TokenMap, LexicalError>)
    ensures
        match r {
            Ok(map) => map@ == alphabet@ && map.wf() && first_reserved(alphabet@) is None,
            Err(e) => first_reserved(alphabet@) is Some && e == LexicalError::ReservedTokenOverwrite(
                (ReservedTokenOverwriteError {
                    overwritten_char: first_reserved(alphabet@)->Some_0,
                    overwritten_token: Token::ReservedToken(
                        reserved_token_of(first_reserved(alphabet@)->Some_0),
                    ),
                }),
            ),
        },
{
    let chars = str_chars(alphabet);
    TokenMap::new(chars)
}

/// The reserved characters, each with the operator token it stands for.
pub open spec fn reserved_pairs() -> Seq<(char, Token)> {
    seq![
        ('|', Token::ReservedToken(ReservedToken::Choice)),
        ('*', Token::ReservedToken(ReservedToken::Closure)),
        ('(', Token::ReservedToken(ReservedToken::LeftPrecedence)),
        (')', Token::ReservedToken(ReservedToken::RightPrecedence)),
    ]
}

/// Generates the map of the reserved characters to their operator tokens.
pub fn generate_reserved_token_map() -> (r: Vec<(char, Token)>)
    ensures
        r@ == reserved_pairs(),
{
    let mut r: Vec<(char, Token)> = Vec::new();
    r.push(('|', Token::ReservedToken(ReservedToken::Choice)));
    r.push(('*', Token::ReservedToken(ReservedToken::Closure)));
    r.push(('(', Token::ReservedToken(ReservedToken::LeftPrecedence)));
    r.push((')', Token::ReservedToken(ReservedToken::RightPrecedence)));
    proof {
        assert(r@ =~= reserved_pairs());
    }
    r
}

/// Matches a single character to its [`Token`] under the map.
pub fn match_token(token_map: &TokenMap, c: char) -> (r: Option<Token>)
    ensures
        r == token_of(token_map@, c),
{
    let reserved = generate_reserved_token_map();
    let mut k: usize = 0;
    while k < reserved.len()
        invariant
            k <= reserved@.len(),
            reserved@ == reserved_pairs(),
            forall|j: int| 0 <= j < k ==> (#[trigger] reserved@[j]).0 != c,
        decreases reserved@.len() - k,
    {
        let (rc, rt) = reserved[k];
        if rc == c {
            proof {
                assert(is_reserved_char(c));
                assert(rt == Token::ReservedToken(reserved_token_of(c))) by {
                    assert(reserved@[k as int] == reserved_pairs()[k as int]);
                }
            }
            return Some(rt);
        }
        k = k + 1;
    }
    proof {
        assert(!is_reserved_char(c)) by {
            assert(reserved@[0].0 == '|' && reserved@[1].0 == '*' && reserved@[2].0 == '('
                && reserved@[3].0 == ')');
        }
    }
    {
        let mut i: usize = 0;
        while i < token_map.alphabet.len()
            invariant
                i <= token_map@.len(),
                !is_reserved_char(c),
                forall|k: int| 0 <= k < i ==> token_map@[k] != c,
            decreases token_map@.len() - i,
        {
            if token_map.alphabet[i] == c {
                proof {
                    assert(token_map@[i as int] == c);
                    assert(token_map@.contains(c));
                }
                return Some(Token::Char(c));
            }
            i = i + 1;
        }
        proof {
            assert(!token_map@.contains(c));
        }
        None
    }
}

/// Generates the token stream representing `input_string` under the map, or
/// reports the first character that matches no token.
pub fn lex_string(token_map: &TokenMap, input_string: &str) -> (r: Result<
    Vec<Token>,
    LexicalError,
>)
    ensures
        match r {
            Ok(ts) => spec_lex(token_map@, input_string@) == Ok::<Seq<Token>, char>(ts@),
            Err(e) => spec_lex(token_map@, input_string@) is Err && e == LexicalError::CharacterParsing(
                (CharacterParsingError {
                    unmatchable_char: spec_lex(token_map@, input_string@)->Err_0,
                }),
            ),
        },
{
    let chars = str_chars(input_string);
    let ghost s = input_string@;
    let mut token_stream: Vec<Token> = Vec::new();
    let mut i: usize = 0;
    proof {
        assert(s.skip(0) == s);
    }
    while i < chars.len()
        invariant
            i <= chars.len(),
            chars@ == s,
            s == input_string@,
            spec_lex(token_map@, s) == lex_prepend(token_stream@, spec_lex(token_map@, s.skip(i as int))),
            token_stream@.len() == i,
        decreases chars.len() - i,
    {
        let ghost rest = s.skip(i as int);
        proof {
            assert(rest[0] == s[i as int]);
            assert(rest.drop_first() =~= s.skip(i + 1));
        }
        match match_token(token_map, chars[i]) {
            Some(t) => {
                let ghost ts0 = token_stream@;
                token_stream.push(t);
                i = i + 1;
                proof {
                    assert(token_of(token_map@, rest[0]) == Some(t));
                    assert(spec_lex(token_map@, rest) == lex_prepend(
                        seq![t],
                        spec_lex(token_map@, s.skip(i as int)),
                    ));
                    lemma_lex_prepend_assoc(ts0, t, spec_lex(token_map@, s.skip(i as int)));
                    assert(token_stream@ == ts0.push(t));
                }
            },
            None => {
                proof {
                    assert(spec_lex(token_map@, rest) == Err::<Seq<Token>, char>(rest[0]));
                    assert(spec_lex(token_map@, s) == Err::<Seq<Token>, char>(s[i as int]));
                }
                return Err(
                    LexicalError::CharacterParsing(
                        CharacterParsingError { unmatchable_char: chars[i] },
                    ),
                );
            },
        }
    }
    proof {
        assert(s.skip(s.len() as int) =~= Seq::<char>::empty());
        assert(lex_prepend(token_stream@, spec_lex(token_map@, s.skip(s.len() as int)))
            == Ok::<Seq<Token>, char>(token_stream@ + Seq::<Token>::empty()));
        assert(token_stream@ + Seq::<Token>::empty() =~= token_stream@);
    }
    Ok(token_stream)
}

/// Prefixes an already-lexed token sequence onto the outcome of lexing the
/// remaining characters.
pub open spec fn lex_prepend(ts: Seq<Token>, rest: Result<Seq<Token>, char>) -> Result<
    Seq<Token>,
    char,
> {
    match rest {
        Ok(us) => Ok(ts + us),
        Err(c) => Err(c),
    }
}

/// Moving one token from the remainder into the prefix keeps the combined
/// outcome of `lex_prepend`.
proof fn lemma_lex_prepend_assoc(ts: Seq<Token>, t: Token, rest: Result<Seq<Token>, char>)
    ensures
        lex_prepend(ts, lex_prepend(seq![t], rest)) == lex_prepend(ts.push(t), rest),
{
    match rest {
        Ok(us) => {
            assert(ts + (seq![t] + us) =~= ts.push(t) + us);
        },
        Err(_) => {},
    }
}

} // verus!
