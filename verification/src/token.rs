use vstd::prelude::*;

verus! {

/// A primitive token of the surface syntax.
///
/// `Concat` is synthetic: the scanner never produces it from text; the
/// concatenation inserter places it between two tokens wherever the
/// surface syntax expresses "followed by" through juxtaposition.
#[derive(Clone, Copy, Debug)]
pub enum Token {
    Literal(char),
    Pipe,
    Star,
    LParen,
    RParen,
    Concat,
}

/// The accepted literal alphabet: ASCII letters and digits.
pub open spec fn is_literal_char(c: char) -> bool {
    ('a' <= c && c <= 'z') || ('A' <= c && c <= 'Z') || ('0' <= c && c <= '9')
}

/// How the scanner classifies one character; `None` means the character
/// is outside the accepted alphabet and the whole input is rejected.
pub open spec fn token_of_char(c: char) -> Option<Token> {
    if is_literal_char(c) {
        Some(Token::Literal(c))
    } else if c == '|' {
        Some(Token::Pipe)
    } else if c == '*' {
        Some(Token::Star)
    } else if c == '(' {
        Some(Token::LParen)
    } else if c == ')' {
        Some(Token::RParen)
    } else {
        None
    }
}

/// A token that can end an atomic sub-pattern.
pub open spec fn ends_atom(t: Token) -> bool {
    t is Literal || t is Star || t is RParen
}

/// A token that can start an atomic sub-pattern.
pub open spec fn starts_atom(t: Token) -> bool {
    t is Literal || t is LParen
}

} // verus!
