use vstd::prelude::*;

use crate::ast::Node;
use crate::token::Token;

verus! {

// The grammar, lowest precedence first, all binary operators
// left-associative:
//
//   Alternation   := Concatenation ( '|' Concatenation )*
//   Concatenation := Repetition ( CONCAT Repetition )*
//   Repetition    := Atom ( '*' )*
//   Atom          := Literal | '(' Alternation ')'
//
// Each level is specified by two functions over a token sequence and a
// start index: one parses the first operand, the other folds the
// operator chain left to right, carrying the accumulated node.  A result
// `Some((n, j))` means the level produced `n` and stopped just before
// index `j`; `None` means the input has no parse at this level.
//
// Each fold carries a range check on the position returned by the level
// below before it recurses, so that the mutual recursion visibly
// terminates; the bounds lemmas below show that a successful level
// always lands in range, so the check never turns a parse away.

/// An atom: a literal, or a parenthesized alternation.
pub open spec fn atom_at(ts: Seq<Token>, i: int) -> Option<(Node, int)>
    decreases ts.len() - i, 0int,
{
    if !(0 <= i < ts.len()) {
        None
    } else {
        match ts[i] {
            Token::Literal(c) => Some((Node::Literal { character: c }, i + 1)),
            Token::LParen => match alternation_at(ts, i + 1) {
                Some((n, j)) => if 0 <= j < ts.len() && ts[j] is RParen {
                    Some((n, j + 1))
                } else {
                    None
                },
                None => None,
            },
            _ => None,
        }
    }
}

/// A repetition: an atom followed by any number of `*`, each wrapping
/// the accumulated node in one `Kleene`.
pub open spec fn repetition_at(ts: Seq<Token>, i: int) -> Option<(Node, int)>
    decreases ts.len() - i, 2int,
{
    match atom_at(ts, i) {
        Some((n, j)) => if i < j <= ts.len() {
            repetition_rest(ts, j, n)
        } else {
            None
        },
        None => None,
    }
}

/// The `( '*' )*` tail of a repetition.
pub open spec fn repetition_rest(ts: Seq<Token>, j: int, acc: Node) -> Option<(Node, int)>
    decreases ts.len() - j, 1int,
{
    if 0 <= j < ts.len() && ts[j] is Star {
        repetition_rest(ts, j + 1, Node::Kleene { child: Box::new(acc) })
    } else {
        Some((acc, j))
    }
}

/// A concatenation: a left fold of repetitions over `CONCAT` tokens.
pub open spec fn concatenation_at(ts: Seq<Token>, i: int) -> Option<(Node, int)>
    decreases ts.len() - i, 4int,
{
    match repetition_at(ts, i) {
        Some((n, j)) => if i < j <= ts.len() {
            concatenation_rest(ts, j, n)
        } else {
            None
        },
        None => None,
    }
}

/// The `( CONCAT Repetition )*` tail of a concatenation.
pub open spec fn concatenation_rest(ts: Seq<Token>, j: int, acc: Node) -> Option<(Node, int)>
    decreases ts.len() - j, 5int,
{
    if 0 <= j < ts.len() && ts[j] is Concat {
        match repetition_at(ts, j + 1) {
            Some((m, k)) => if j + 1 < k <= ts.len() {
                concatenation_rest(
                    ts,
                    k,
                    Node::Concatenation { left: Box::new(acc), right: Box::new(m) },
                )
            } else {
                None
            },
            None => None,
        }
    } else {
        Some((acc, j))
    }
}

/// An alternation: a left fold of concatenations over `|` tokens.
pub open spec fn alternation_at(ts: Seq<Token>, i: int) -> Option<(Node, int)>
    decreases ts.len() - i, 6int,
{
    match concatenation_at(ts, i) {
        Some((n, j)) => if i < j <= ts.len() {
            alternation_rest(ts, j, n)
        } else {
            None
        },
        None => None,
    }
}

/// The `( '|' Concatenation )*` tail of an alternation.
pub open spec fn alternation_rest(ts: Seq<Token>, j: int, acc: Node) -> Option<(Node, int)>
    decreases ts.len() - j, 7int,
{
    if 0 <= j < ts.len() && ts[j] is Pipe {
        match concatenation_at(ts, j + 1) {
            Some((m, k)) => if j + 1 < k <= ts.len() {
                alternation_rest(
                    ts,
                    k,
                    Node::Alternation { left: Box::new(acc), right: Box::new(m) },
                )
            } else {
                None
            },
            None => None,
        }
    } else {
        Some((acc, j))
    }
}

/// A successful repetition tail never moves backwards and never stops
/// past the end of the stream.
pub proof fn lemma_repetition_rest_bounds(ts: Seq<Token>, j: int, acc: Node)
    ensures
        repetition_rest(ts, j, acc) matches Some(p) ==> j <= p.1 && (j <= ts.len() ==> p.1
            <= ts.len()),
    decreases ts.len() - j,
{
    if 0 <= j < ts.len() && ts[j] is Star {
        lemma_repetition_rest_bounds(ts, j + 1, Node::Kleene { child: Box::new(acc) });
    }
}

/// A successful concatenation tail never moves backwards and never stops
/// past the end of the stream.
pub proof fn lemma_concatenation_rest_bounds(ts: Seq<Token>, j: int, acc: Node)
    ensures
        concatenation_rest(ts, j, acc) matches Some(p) ==> j <= p.1 && (j <= ts.len() ==> p.1
            <= ts.len()),
    decreases ts.len() - j,
{
    if 0 <= j < ts.len() && ts[j] is Concat {
        match repetition_at(ts, j + 1) {
            Some((m, k)) => {
                if j + 1 < k <= ts.len() {
                    lemma_concatenation_rest_bounds(
                        ts,
                        k,
                        Node::Concatenation { left: Box::new(acc), right: Box::new(m) },
                    );
                }
            },
            None => {},
        }
    }
}

/// A successful alternation tail never moves backwards and never stops
/// past the end of the stream.
pub proof fn lemma_alternation_rest_bounds(ts: Seq<Token>, j: int, acc: Node)
    ensures
        alternation_rest(ts, j, acc) matches Some(p) ==> j <= p.1 && (j <= ts.len() ==> p.1
            <= ts.len()),
    decreases ts.len() - j,
{
    if 0 <= j < ts.len() && ts[j] is Pipe {
        match concatenation_at(ts, j + 1) {
            Some((m, k)) => {
                if j + 1 < k <= ts.len() {
                    lemma_alternation_rest_bounds(
                        ts,
                        k,
                        Node::Alternation { left: Box::new(acc), right: Box::new(m) },
                    );
                }
            },
            None => {},
        }
    }
}

/// A successful alternation starts strictly before its stop position,
/// which never lies past the end of the stream.
pub proof fn lemma_alternation_at_bounds(ts: Seq<Token>, i: int)
    ensures
        alternation_at(ts, i) matches Some(p) ==> i < p.1 <= ts.len(),
{
    match concatenation_at(ts, i) {
        Some((n0, j0)) => {
            if i < j0 <= ts.len() {
                lemma_alternation_rest_bounds(ts, j0, n0);
            }
        },
        None => {},
    }
}

/// The executable result of one parser level, with its stop position
/// widened to `int` so that it can be compared to the level's
/// specification.
pub open spec fn widened(r: Option<(Node, usize)>) -> Option<(Node, int)> {
    match r {
        Some((n, j)) => Some((n, j as int)),
        None => None,
    }
}

/// The parser level for atoms.
pub(crate) fn parse_atom(ts: &Vec<Token>, i: usize) -> (r: Option<(Node, usize)>)
    requires
        i <= ts@.len(),
    ensures
        widened(r) == atom_at(ts@, i as int),
        r matches Some(p) ==> i < p.1 <= ts@.len(),
    decreases ts@.len() - i, 0int,
{
    if i >= ts.len() {
        return None;
    }
    match ts[i] {
        Token::Literal(c) => Some((Node::Literal { character: c }, i + 1)),
        Token::LParen => {
            match parse_alternation(ts, i + 1) {
                Some((n, j)) => {
                    if j < ts.len() && matches!(ts[j], Token::RParen) {
                        Some((n, j + 1))
                    } else {
                        None
                    }
                },
                None => None,
            }
        },
        _ => None,
    }
}

/// The parser level for repetitions.
pub(crate) fn parse_repetition(ts: &Vec<Token>, i: usize) -> (r: Option<(Node, usize)>)
    requires
        i <= ts@.len(),
    ensures
        widened(r) == repetition_at(ts@, i as int),
        r matches Some(p) ==> i < p.1 <= ts@.len(),
    decreases ts@.len() - i, 2int,
{
    match parse_atom(ts, i) {
        None => None,
        Some((first, after)) => {
            let mut acc = first;
            let mut j = after;
            loop
                invariant
                    i < j <= ts@.len(),
                    repetition_at(ts@, i as int) == repetition_rest(ts@, j as int, acc),
                decreases ts@.len() - j,
            {
                if j < ts.len() && matches!(ts[j], Token::Star) {
                    acc = Node::Kleene { child: Box::new(acc) };
                    j = j + 1;
                } else {
                    return Some((acc, j));
                }
            }
        },
    }
}

/// The parser level for concatenations.
pub(crate) fn parse_concatenation(ts: &Vec<Token>, i: usize) -> (r: Option<(Node, usize)>)
    requires
        i <= ts@.len(),
    ensures
        widened(r) == concatenation_at(ts@, i as int),
        r matches Some(p) ==> i < p.1 <= ts@.len(),
    decreases ts@.len() - i, 4int,
{
    match parse_repetition(ts, i) {
        None => None,
        Some((first, after)) => {
            let mut acc = first;
            let mut j = after;
            loop
                invariant
                    i < j <= ts@.len(),
                    concatenation_at(ts@, i as int) == concatenation_rest(ts@, j as int, acc),
                decreases ts@.len() - j,
            {
                if j < ts.len() && matches!(ts[j], Token::Concat) {
                    match parse_repetition(ts, j + 1) {
                        None => {
                            return None;
                        },
                        Some((m, k)) => {
                            acc = Node::Concatenation {
                                left: Box::new(acc),
                                right: Box::new(m),
                            };
                            j = k;
                        },
                    }
                } else {
                    return Some((acc, j));
                }
            }
        },
    }
}

/// The parser level for alternations: the grammar's start symbol.
pub(crate) fn parse_alternation(ts: &Vec<Token>, i: usize) -> (r: Option<(Node, usize)>)
    requires
        i <= ts@.len(),
    ensures
        widened(r) == alternation_at(ts@, i as int),
        r matches Some(p) ==> i < p.1 <= ts@.len(),
    decreases ts@.len() - i, 6int,
{
    match parse_concatenation(ts, i) {
        None => None,
        Some((first, after)) => {
            let mut acc = first;
            let mut j = after;
            loop
                invariant
                    i < j <= ts@.len(),
                    alternation_at(ts@, i as int) == alternation_rest(ts@, j as int, acc),
                decreases ts@.len() - j,
            {
                if j < ts.len() && matches!(ts[j], Token::Pipe) {
                    match parse_concatenation(ts, j + 1) {
                        None => {
                            return None;
                        },
                        Some((m, k)) => {
                            acc = Node::Alternation {
                                left: Box::new(acc),
                                right: Box::new(m),
                            };
                            j = k;
                        },
                    }
                } else {
                    return Some((acc, j));
                }
            }
        },
    }
}

} // verus!
