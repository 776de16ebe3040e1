use vstd::prelude::*;
use vstd::string::StrSliceExecFns;

use crate::token::{ends_atom, starts_atom, token_of_char, Token};

verus! {

/// What the scanner produces for a whole input: one token per character,
/// in order, or `None` as soon as any character is outside the accepted
/// alphabet.
pub open spec fn spec_scan(s: Seq<char>) -> Option<Seq<Token>> {
    if forall|i: int| 0 <= i < s.len() ==> token_of_char(s[i]) is Some {
        Some(Seq::new(s.len(), |i: int| token_of_char(s[i])->0))
    } else {
        None
    }
}

/// The token stream after implicit-concatenation insertion: a synthetic
/// `Concat` stands between two adjacent tokens exactly when the first
/// can end an atomic sub-pattern and the second can start one.
pub open spec fn spec_with_concat(ts: Seq<Token>) -> Seq<Token>
    decreases ts.len(),
{
    if ts.len() <= 1 {
        ts
    } else if ends_atom(ts[0]) && starts_atom(ts[1]) {
        seq![ts[0], Token::Concat] + spec_with_concat(ts.drop_first())
    } else {
        seq![ts[0]] + spec_with_concat(ts.drop_first())
    }
}

/// The scanner's classification of one character.
fn char_token(c: char) -> (r: Option<Token>)
    ensures
        r == token_of_char(c),
{
    if (c >= 'a' && c <= 'z') || (c >= 'A' && c <= 'Z') || (c >= '0' && c <= '9') {
        Some(Token::Literal(c))
    } else if c == '|' {
        Some(Token::Pipe)
    } else if c == '*' {
        Some(Token::Star)
    } else if c == '(' {
        Some(Token::LParen)
    } else if c == ')' {
        Some(Token::RParen)
    } else {
        None
    }
}

/// The scanner: maps each character of `text` to its token, rejecting
/// the input on the first character outside the accepted alphabet.
pub(crate) fn scan(text: &str) -> (r: Option<Vec<Token>>)
    ensures
        match r {
            Some(ts) => spec_scan(text@) == Some(ts@),
            None => spec_scan(text@) is None,
        },
{
    let n = text.unicode_len();
    let mut tokens: Vec<Token> = Vec::new();
    let mut i: usize = 0;
    while i < n
        invariant
            n == text@.len(),
            i <= n,
            tokens@.len() == i,
            forall|j: int| 0 <= j < i ==> (#[trigger] token_of_char(text@[j])) is Some,
            forall|j: int| 0 <= j < i ==> #[trigger] tokens@[j] == token_of_char(text@[j])->0,
        decreases n - i,
    {
        let c = text.get_char(i);
        match char_token(c) {
            Some(t) => {
                tokens.push(t);
                proof {
                    assert(token_of_char(text@[i as int]) == Some(t));
                    assert(tokens@[i as int] == t);
                }
                i = i + 1;
            },
            None => {
                proof {
                    assert(token_of_char(text@[i as int]) is None);
                }
                return None;
            },
        }
    }
    proof {
        assert(tokens@ =~= Seq::new(text@.len(), |j: int| token_of_char(text@[j])->0));
    }
    Some(tokens)
}

/// The concatenation inserter: walks the scanner's tokens with one token
/// of lookahead and emits a `Concat` wherever juxtaposition joins two
/// atomic sub-patterns.
pub(crate) fn with_concat(ts: &Vec<Token>) -> (r: Vec<Token>)
    ensures
        r@ == spec_with_concat(ts@),
{
    let mut out: Vec<Token> = Vec::new();
    let mut i: usize = 0;
    proof {
        assert(ts@.skip(0) =~= ts@);
        assert(out@ + spec_with_concat(ts@) =~= spec_with_concat(ts@));
    }
    while i < ts.len()
        invariant
            i <= ts@.len(),
            spec_with_concat(ts@) == out@ + spec_with_concat(ts@.skip(i as int)),
        decreases ts@.len() - i,
    {
        let t = ts[i];
        let ghost prev_out = out@;
        out.push(t);
        let insert = i + 1 < ts.len() && ends_atom_exec(&t) && starts_atom_exec(&ts[i + 1]);
        if insert {
            out.push(Token::Concat);
        }
        proof {
            let rest = ts@.skip(i as int);
            assert(rest.len() == ts@.len() - i);
            assert(rest[0] == ts@[i as int]);
            if i + 1 < ts@.len() {
                assert(rest[1] == ts@[i + 1]);
                assert(rest.drop_first() =~= ts@.skip(i + 1));
                if insert {
                    assert(prev_out + spec_with_concat(rest) =~= out@ + spec_with_concat(
                        ts@.skip(i + 1),
                    ));
                } else {
                    assert(prev_out + spec_with_concat(rest) =~= out@ + spec_with_concat(
                        ts@.skip(i + 1),
                    ));
                }
            } else {
                assert(rest.len() == 1);
                assert(spec_with_concat(rest) == rest);
                assert(prev_out + spec_with_concat(rest) =~= out@ + spec_with_concat(
                    ts@.skip(i + 1),
                ));
            }
        }
        i = i + 1;
    }
    proof {
        assert(ts@.skip(i as int) =~= Seq::<Token>::empty());
        assert(spec_with_concat(ts@.skip(i as int)) =~= Seq::<Token>::empty());
        assert(out@ =~= spec_with_concat(ts@));
    }
    out
}

/// Executable test matching `ends_atom`.
fn ends_atom_exec(t: &Token) -> (r: bool)
    ensures
        r == ends_atom(*t),
{
    match t {
        Token::Literal(_) => true,
        Token::Star => true,
        Token::RParen => true,
        _ => false,
    }
}

/// Executable test matching `starts_atom`.
fn starts_atom_exec(t: &Token) -> (r: bool)
    ensures
        r == starts_atom(*t),
{
    match t {
        Token::Literal(_) => true,
        Token::LParen => true,
        _ => false,
    }
}

} // verus!
