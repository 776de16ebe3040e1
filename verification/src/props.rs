use vstd::prelude::*;

use crate::ast::Node;
use crate::parser::{
    alternation_at, alternation_rest, atom_at, concatenation_at, concatenation_rest,
    lemma_alternation_rest_bounds, lemma_concatenation_rest_bounds, lemma_repetition_rest_bounds,
    repetition_at, repetition_rest,
};
use crate::scanner::{spec_scan, spec_with_concat};
use crate::spec_parse;
use crate::token::{ends_atom, starts_atom, token_of_char, Token};

verus! {

// The laws of `spec_parse`, stated over whole inputs and proved from
// the grammar's definition.  The supporting lemmas come first: facts
// about the inserter and the scanner, then the extension, shift and
// balance lemmas about the parser levels; the public laws close the
// module.

/// The concatenation inserter never changes the first token.
proof fn lemma_with_concat_head(ts: Seq<Token>)
    requires
        ts.len() > 0,
    ensures
        spec_with_concat(ts).len() > 0,
        spec_with_concat(ts)[0] == ts[0],
{
}

/// A token that cannot start an atom is appended to the inserter's
/// output as it stands, with no `Concat` before it.
proof fn lemma_with_concat_push_non_start(ts: Seq<Token>, t: Token)
    requires
        !starts_atom(t),
    ensures
        spec_with_concat(ts.push(t)) == spec_with_concat(ts).push(t),
    decreases ts.len(),
{
    let e = ts.push(t);
    if ts.len() == 0 {
        assert(e.len() == 1);
        assert(spec_with_concat(e) == e);
        assert(spec_with_concat(ts) == ts);
        assert(ts.push(t) =~= spec_with_concat(ts).push(t));
    } else if ts.len() == 1 {
        assert(e.len() == 2);
        assert(e[0] == ts[0]);
        assert(e[1] == t);
        assert(e.drop_first() =~= seq![t]);
        assert(spec_with_concat(seq![t]) == seq![t]);
        assert(spec_with_concat(e) == seq![e[0]] + spec_with_concat(e.drop_first()));
        assert(spec_with_concat(e) =~= spec_with_concat(ts).push(t));
    } else {
        assert(e[0] == ts[0]);
        assert(e[1] == ts[1]);
        assert(e.drop_first() =~= ts.drop_first().push(t));
        lemma_with_concat_push_non_start(ts.drop_first(), t);
        assert(spec_with_concat(e) =~= spec_with_concat(ts).push(t));
    }
}

/// Scanning maps concatenation of inputs to concatenation of token
/// sequences.
proof fn lemma_scan_concat(s1: Seq<char>, s2: Seq<char>)
    requires
        spec_scan(s1) is Some,
        spec_scan(s2) is Some,
    ensures
        spec_scan(s1 + s2) == Some(spec_scan(s1)->0 + spec_scan(s2)->0),
{
    let s = s1 + s2;
    assert forall|i: int| 0 <= i < s.len() implies (#[trigger] token_of_char(s[i])) is Some by {
        if i < s1.len() {
            assert(s[i] == s1[i]);
        } else {
            assert(s[i] == s2[i - s1.len()]);
        }
    }
    assert(Seq::new(s.len(), |i: int| token_of_char(s[i])->0) =~= spec_scan(s1)->0 + spec_scan(
        s2,
    )->0);
}

// The extension lemmas: appending tokens to a stream leaves an already
// successful parse of a level unchanged, provided the parse either
// stopped strictly before the old end, or the first appended token
// cannot continue the level's operator chains.  `sfx` is the appended
// suffix; the three `stops_*` predicates say which first tokens leave
// which levels undisturbed at the old end of the stream.
spec fn stops_repetition(sfx: Seq<Token>) -> bool {
    sfx.len() == 0 || !(sfx[0] is Star)
}

spec fn stops_concatenation(sfx: Seq<Token>) -> bool {
    stops_repetition(sfx) && (sfx.len() == 0 || !(sfx[0] is Concat))
}

spec fn stops_alternation(sfx: Seq<Token>) -> bool {
    stops_concatenation(sfx) && (sfx.len() == 0 || !(sfx[0] is Pipe))
}

proof fn lemma_extend_atom(ts: Seq<Token>, sfx: Seq<Token>, i: int)
    requires
        atom_at(ts, i) is Some,
    ensures
        atom_at(ts + sfx, i) == atom_at(ts, i),
    decreases ts.len() - i, 0int,
{
    let ts2 = ts + sfx;
    assert(0 <= i < ts.len());
    assert(ts2[i] == ts[i]);
    match ts[i] {
        Token::LParen => {
            let (n, j) = alternation_at(ts, i + 1)->0;
            assert(0 <= j < ts.len() && ts[j] is RParen);
            lemma_extend_alternation(ts, sfx, i + 1);
            assert(ts2[j] == ts[j]);
        },
        _ => {},
    }
}

proof fn lemma_extend_repetition_rest(ts: Seq<Token>, sfx: Seq<Token>, j: int, acc: Node)
    requires
        0 <= j <= ts.len(),
        repetition_rest(ts, j, acc) matches Some(p) && (p.1 < ts.len() || stops_repetition(sfx)),
    ensures
        repetition_rest(ts + sfx, j, acc) == repetition_rest(ts, j, acc),
    decreases ts.len() - j, 1int,
{
    let ts2 = ts + sfx;
    if j < ts.len() && ts[j] is Star {
        assert(ts2[j] == ts[j]);
        lemma_extend_repetition_rest(ts, sfx, j + 1, Node::Kleene { child: Box::new(acc) });
    } else if j == ts.len() {
        if sfx.len() == 0 {
            assert(ts2 =~= ts);
        } else {
            assert(ts2[j] == sfx[0]);
        }
    } else {
        assert(ts2[j] == ts[j]);
    }
}

proof fn lemma_extend_repetition(ts: Seq<Token>, sfx: Seq<Token>, i: int)
    requires
        repetition_at(ts, i) matches Some(p) && (p.1 < ts.len() || stops_repetition(sfx)),
    ensures
        repetition_at(ts + sfx, i) == repetition_at(ts, i),
    decreases ts.len() - i, 2int,
{
    let ts2 = ts + sfx;
    let (n0, j0) = atom_at(ts, i)->0;
    assert(i < j0 <= ts.len());
    lemma_extend_atom(ts, sfx, i);
    lemma_repetition_rest_bounds(ts, j0, n0);
    lemma_extend_repetition_rest(ts, sfx, j0, n0);
    assert(repetition_at(ts2, i) == repetition_rest(ts2, j0, n0));
}

proof fn lemma_extend_concatenation_rest(ts: Seq<Token>, sfx: Seq<Token>, j: int, acc: Node)
    requires
        0 <= j <= ts.len(),
        concatenation_rest(ts, j, acc) matches Some(p) && (p.1 < ts.len() || stops_concatenation(
            sfx,
        )),
    ensures
        concatenation_rest(ts + sfx, j, acc) == concatenation_rest(ts, j, acc),
    decreases ts.len() - j, 5int,
{
    let ts2 = ts + sfx;
    if j < ts.len() && ts[j] is Concat {
        assert(ts2[j] == ts[j]);
        let (m, k1) = repetition_at(ts, j + 1)->0;
        assert(j + 1 < k1 <= ts.len());
        let acc2 = Node::Concatenation { left: Box::new(acc), right: Box::new(m) };
        lemma_concatenation_rest_bounds(ts, k1, acc2);
        lemma_extend_repetition(ts, sfx, j + 1);
        lemma_extend_concatenation_rest(ts, sfx, k1, acc2);
        assert(concatenation_rest(ts2, j, acc) == concatenation_rest(ts, j, acc));
    } else if j == ts.len() {
        if sfx.len() == 0 {
            assert(ts2 =~= ts);
        } else {
            assert(ts2[j] == sfx[0]);
        }
    } else {
        assert(ts2[j] == ts[j]);
    }
}

proof fn lemma_extend_concatenation(ts: Seq<Token>, sfx: Seq<Token>, i: int)
    requires
        concatenation_at(ts, i) matches Some(p) && (p.1 < ts.len() || stops_concatenation(sfx)),
    ensures
        concatenation_at(ts + sfx, i) == concatenation_at(ts, i),
    decreases ts.len() - i, 4int,
{
    let ts2 = ts + sfx;
    let (n0, j0) = repetition_at(ts, i)->0;
    assert(i < j0 <= ts.len());
    lemma_concatenation_rest_bounds(ts, j0, n0);
    lemma_extend_repetition(ts, sfx, i);
    lemma_extend_concatenation_rest(ts, sfx, j0, n0);
    assert(concatenation_at(ts2, i) == concatenation_rest(ts2, j0, n0));
}

proof fn lemma_extend_alternation_rest(ts: Seq<Token>, sfx: Seq<Token>, j: int, acc: Node)
    requires
        0 <= j <= ts.len(),
        alternation_rest(ts, j, acc) matches Some(p) && (p.1 < ts.len() || stops_alternation(sfx)),
    ensures
        alternation_rest(ts + sfx, j, acc) == alternation_rest(ts, j, acc),
    decreases ts.len() - j, 7int,
{
    let ts2 = ts + sfx;
    if j < ts.len() && ts[j] is Pipe {
        assert(ts2[j] == ts[j]);
        let (m, k1) = concatenation_at(ts, j + 1)->0;
        assert(j + 1 < k1 <= ts.len());
        let acc2 = Node::Alternation { left: Box::new(acc), right: Box::new(m) };
        lemma_alternation_rest_bounds(ts, k1, acc2);
        lemma_extend_concatenation(ts, sfx, j + 1);
        lemma_extend_alternation_rest(ts, sfx, k1, acc2);
        assert(alternation_rest(ts2, j, acc) == alternation_rest(ts, j, acc));
    } else if j == ts.len() {
        if sfx.len() == 0 {
            assert(ts2 =~= ts);
        } else {
            assert(ts2[j] == sfx[0]);
        }
    } else {
        assert(ts2[j] == ts[j]);
    }
}

proof fn lemma_extend_alternation(ts: Seq<Token>, sfx: Seq<Token>, i: int)
    requires
        alternation_at(ts, i) matches Some(p) && (p.1 < ts.len() || stops_alternation(sfx)),
    ensures
        alternation_at(ts + sfx, i) == alternation_at(ts, i),
    decreases ts.len() - i, 6int,
{
    let ts2 = ts + sfx;
    let (n0, j0) = concatenation_at(ts, i)->0;
    assert(i < j0 <= ts.len());
    lemma_alternation_rest_bounds(ts, j0, n0);
    lemma_extend_concatenation(ts, sfx, i);
    lemma_extend_alternation_rest(ts, sfx, j0, n0);
    assert(alternation_at(ts2, i) == alternation_rest(ts2, j0, n0));
}

// The shift lemmas: each parser level looks only at the tokens from its
// start index onward, so prepending a prefix of length `d` shifts every
// position in its result by `d` and changes nothing else.
spec fn shifted(r: Option<(Node, int)>, d: int) -> Option<(Node, int)> {
    match r {
        Some((n, j)) => Some((n, j + d)),
        None => None,
    }
}

proof fn lemma_shift_atom(pre: Seq<Token>, ts: Seq<Token>, i: int)
    requires
        0 <= i,
    ensures
        atom_at(pre + ts, pre.len() + i) == shifted(atom_at(ts, i), pre.len() as int),
    decreases ts.len() - i, 0int,
{
    let d = pre.len() as int;
    let ts2 = pre + ts;
    if 0 <= i < ts.len() {
        assert(ts2[d + i] == ts[i]);
        match ts[i] {
            Token::LParen => {
                lemma_shift_alternation(pre, ts, i + 1);
                crate::parser::lemma_alternation_at_bounds(ts, i + 1);
                match alternation_at(ts, i + 1) {
                    Some((n, j)) => {
                        if 0 <= j < ts.len() {
                            assert(ts2[d + j] == ts[j]);
                        }
                    },
                    None => {},
                }
            },
            _ => {},
        }
    }
}

proof fn lemma_shift_repetition_rest(pre: Seq<Token>, ts: Seq<Token>, j: int, acc: Node)
    requires
        0 <= j,
    ensures
        repetition_rest(pre + ts, pre.len() + j, acc) == shifted(
            repetition_rest(ts, j, acc),
            pre.len() as int,
        ),
    decreases ts.len() - j, 1int,
{
    let d = pre.len() as int;
    let ts2 = pre + ts;
    if 0 <= j < ts.len() && ts[j] is Star {
        assert(ts2[d + j] == ts[j]);
        lemma_shift_repetition_rest(pre, ts, j + 1, Node::Kleene { child: Box::new(acc) });
    }
}

proof fn lemma_shift_repetition(pre: Seq<Token>, ts: Seq<Token>, i: int)
    requires
        0 <= i,
    ensures
        repetition_at(pre + ts, pre.len() + i) == shifted(repetition_at(ts, i), pre.len() as int),
    decreases ts.len() - i, 2int,
{
    lemma_shift_atom(pre, ts, i);
    match atom_at(ts, i) {
        Some((n0, j0)) => {
            if i < j0 <= ts.len() {
                lemma_shift_repetition_rest(pre, ts, j0, n0);
            }
        },
        None => {},
    }
}

proof fn lemma_shift_concatenation_rest(pre: Seq<Token>, ts: Seq<Token>, j: int, acc: Node)
    requires
        0 <= j,
    ensures
        concatenation_rest(pre + ts, pre.len() + j, acc) == shifted(
            concatenation_rest(ts, j, acc),
            pre.len() as int,
        ),
    decreases ts.len() - j, 5int,
{
    let d = pre.len() as int;
    let ts2 = pre + ts;
    if 0 <= j < ts.len() && ts[j] is Concat {
        assert(ts2[d + j] == ts[j]);
        lemma_shift_repetition(pre, ts, j + 1);
        match repetition_at(ts, j + 1) {
            Some((m, k1)) => {
                if j + 1 < k1 <= ts.len() {
                    lemma_shift_concatenation_rest(
                        pre,
                        ts,
                        k1,
                        Node::Concatenation { left: Box::new(acc), right: Box::new(m) },
                    );
                }
            },
            None => {},
        }
    }
}

proof fn lemma_shift_concatenation(pre: Seq<Token>, ts: Seq<Token>, i: int)
    requires
        0 <= i,
    ensures
        concatenation_at(pre + ts, pre.len() + i) == shifted(
            concatenation_at(ts, i),
            pre.len() as int,
        ),
    decreases ts.len() - i, 4int,
{
    lemma_shift_repetition(pre, ts, i);
    match repetition_at(ts, i) {
        Some((n0, j0)) => {
            if i < j0 <= ts.len() {
                lemma_shift_concatenation_rest(pre, ts, j0, n0);
            }
        },
        None => {},
    }
}

proof fn lemma_shift_alternation_rest(pre: Seq<Token>, ts: Seq<Token>, j: int, acc: Node)
    requires
        0 <= j,
    ensures
        alternation_rest(pre + ts, pre.len() + j, acc) == shifted(
            alternation_rest(ts, j, acc),
            pre.len() as int,
        ),
    decreases ts.len() - j, 7int,
{
    let d = pre.len() as int;
    let ts2 = pre + ts;
    if 0 <= j < ts.len() && ts[j] is Pipe {
        assert(ts2[d + j] == ts[j]);
        lemma_shift_concatenation(pre, ts, j + 1);
        match concatenation_at(ts, j + 1) {
            Some((m, k1)) => {
                if j + 1 < k1 <= ts.len() {
                    lemma_shift_alternation_rest(
                        pre,
                        ts,
                        k1,
                        Node::Alternation { left: Box::new(acc), right: Box::new(m) },
                    );
                }
            },
            None => {},
        }
    }
}

proof fn lemma_shift_alternation(pre: Seq<Token>, ts: Seq<Token>, i: int)
    requires
        0 <= i,
    ensures
        alternation_at(pre + ts, pre.len() + i) == shifted(alternation_at(ts, i), pre.len() as int),
    decreases ts.len() - i, 6int,
{
    lemma_shift_concatenation(pre, ts, i);
    match concatenation_at(ts, i) {
        Some((n0, j0)) => {
            if i < j0 <= ts.len() {
                lemma_shift_alternation_rest(pre, ts, j0, n0);
            }
        },
        None => {},
    }
}

// The balance lemmas: every range of tokens a parser level consumes
// holds as many `(` as `)`, so an input whose parentheses do not pair
// up can never parse.
/// The number of `(` tokens minus the number of `)` tokens.
spec fn net_parens(ts: Seq<Token>) -> int
    decreases ts.len(),
{
    if ts.len() == 0 {
        0
    } else {
        paren_delta(ts[0]) + net_parens(ts.drop_first())
    }
}

spec fn paren_delta(t: Token) -> int {
    if t is LParen {
        1
    } else if t is RParen {
        -1
    } else {
        0
    }
}

proof fn lemma_net_parens_add(a: Seq<Token>, b: Seq<Token>)
    ensures
        net_parens(a + b) == net_parens(a) + net_parens(b),
    decreases a.len(),
{
    if a.len() == 0 {
        assert(a + b =~= b);
    } else {
        assert((a + b).drop_first() =~= a.drop_first() + b);
        lemma_net_parens_add(a.drop_first(), b);
    }
}

proof fn lemma_net_parens_single(t: Token)
    ensures
        net_parens(seq![t]) == paren_delta(t),
{
    reveal_with_fuel(net_parens, 2);
    assert(seq![t].drop_first() =~= Seq::<Token>::empty());
}

proof fn lemma_balance_atom(ts: Seq<Token>, i: int)
    requires
        atom_at(ts, i) is Some,
    ensures
        net_parens(ts.subrange(i, (atom_at(ts, i)->0).1)) == 0,
    decreases ts.len() - i, 0int,
{
    let (n, j) = atom_at(ts, i)->0;
    match ts[i] {
        Token::Literal(_) => {
            assert(ts.subrange(i, j) =~= seq![ts[i]]);
            lemma_net_parens_single(ts[i]);
        },
        Token::LParen => {
            let (m, j0) = alternation_at(ts, i + 1)->0;
            crate::parser::lemma_alternation_at_bounds(ts, i + 1);
            lemma_balance_alternation(ts, i + 1);
            let head = seq![ts[i]];
            let body = ts.subrange(i + 1, j0);
            let tail = seq![ts[j0]];
            assert(ts.subrange(i, j) =~= (head + body) + tail);
            lemma_net_parens_add(head + body, tail);
            lemma_net_parens_add(head, body);
            lemma_net_parens_single(ts[i]);
            lemma_net_parens_single(ts[j0]);
        },
        _ => {},
    }
}

proof fn lemma_balance_repetition_rest(ts: Seq<Token>, j: int, acc: Node)
    requires
        0 <= j <= ts.len(),
        repetition_rest(ts, j, acc) is Some,
    ensures
        net_parens(ts.subrange(j, (repetition_rest(ts, j, acc)->0).1)) == 0,
    decreases ts.len() - j, 1int,
{
    let (n, k) = repetition_rest(ts, j, acc)->0;
    if j < ts.len() && ts[j] is Star {
        let acc2 = Node::Kleene { child: Box::new(acc) };
        lemma_repetition_rest_bounds(ts, j + 1, acc2);
        lemma_balance_repetition_rest(ts, j + 1, acc2);
        assert(ts.subrange(j, k) =~= seq![ts[j]] + ts.subrange(j + 1, k));
        lemma_net_parens_add(seq![ts[j]], ts.subrange(j + 1, k));
        lemma_net_parens_single(ts[j]);
    } else {
        assert(ts.subrange(j, j) =~= Seq::<Token>::empty());
    }
}

proof fn lemma_balance_repetition(ts: Seq<Token>, i: int)
    requires
        repetition_at(ts, i) is Some,
    ensures
        net_parens(ts.subrange(i, (repetition_at(ts, i)->0).1)) == 0,
    decreases ts.len() - i, 2int,
{
    let (n, k) = repetition_at(ts, i)->0;
    let (n0, j0) = atom_at(ts, i)->0;
    lemma_balance_atom(ts, i);
    lemma_repetition_rest_bounds(ts, j0, n0);
    lemma_balance_repetition_rest(ts, j0, n0);
    assert(ts.subrange(i, k) =~= ts.subrange(i, j0) + ts.subrange(j0, k));
    lemma_net_parens_add(ts.subrange(i, j0), ts.subrange(j0, k));
}

proof fn lemma_balance_concatenation_rest(ts: Seq<Token>, j: int, acc: Node)
    requires
        0 <= j <= ts.len(),
        concatenation_rest(ts, j, acc) is Some,
    ensures
        net_parens(ts.subrange(j, (concatenation_rest(ts, j, acc)->0).1)) == 0,
    decreases ts.len() - j, 5int,
{
    let (n, k) = concatenation_rest(ts, j, acc)->0;
    if j < ts.len() && ts[j] is Concat {
        let (m, k1) = repetition_at(ts, j + 1)->0;
        assert(j + 1 < k1 <= ts.len());
        let acc2 = Node::Concatenation { left: Box::new(acc), right: Box::new(m) };
        lemma_balance_repetition(ts, j + 1);
        lemma_concatenation_rest_bounds(ts, k1, acc2);
        lemma_balance_concatenation_rest(ts, k1, acc2);
        assert(ts.subrange(j, k) =~= (seq![ts[j]] + ts.subrange(j + 1, k1)) + ts.subrange(k1, k));
        lemma_net_parens_add(seq![ts[j]] + ts.subrange(j + 1, k1), ts.subrange(k1, k));
        lemma_net_parens_add(seq![ts[j]], ts.subrange(j + 1, k1));
        lemma_net_parens_single(ts[j]);
    } else {
        assert(ts.subrange(j, j) =~= Seq::<Token>::empty());
    }
}

proof fn lemma_balance_concatenation(ts: Seq<Token>, i: int)
    requires
        concatenation_at(ts, i) is Some,
    ensures
        net_parens(ts.subrange(i, (concatenation_at(ts, i)->0).1)) == 0,
    decreases ts.len() - i, 4int,
{
    let (n, k) = concatenation_at(ts, i)->0;
    let (n0, j0) = repetition_at(ts, i)->0;
    lemma_balance_repetition(ts, i);
    lemma_concatenation_rest_bounds(ts, j0, n0);
    lemma_balance_concatenation_rest(ts, j0, n0);
    assert(ts.subrange(i, k) =~= ts.subrange(i, j0) + ts.subrange(j0, k));
    lemma_net_parens_add(ts.subrange(i, j0), ts.subrange(j0, k));
}

proof fn lemma_balance_alternation_rest(ts: Seq<Token>, j: int, acc: Node)
    requires
        0 <= j <= ts.len(),
        alternation_rest(ts, j, acc) is Some,
    ensures
        net_parens(ts.subrange(j, (alternation_rest(ts, j, acc)->0).1)) == 0,
    decreases ts.len() - j, 7int,
{
    let (n, k) = alternation_rest(ts, j, acc)->0;
    if j < ts.len() && ts[j] is Pipe {
        let (m, k1) = concatenation_at(ts, j + 1)->0;
        assert(j + 1 < k1 <= ts.len());
        let acc2 = Node::Alternation { left: Box::new(acc), right: Box::new(m) };
        lemma_balance_concatenation(ts, j + 1);
        lemma_alternation_rest_bounds(ts, k1, acc2);
        lemma_balance_alternation_rest(ts, k1, acc2);
        assert(ts.subrange(j, k) =~= (seq![ts[j]] + ts.subrange(j + 1, k1)) + ts.subrange(k1, k));
        lemma_net_parens_add(seq![ts[j]] + ts.subrange(j + 1, k1), ts.subrange(k1, k));
        lemma_net_parens_add(seq![ts[j]], ts.subrange(j + 1, k1));
        lemma_net_parens_single(ts[j]);
    } else {
        assert(ts.subrange(j, j) =~= Seq::<Token>::empty());
    }
}

proof fn lemma_balance_alternation(ts: Seq<Token>, i: int)
    requires
        alternation_at(ts, i) is Some,
    ensures
        net_parens(ts.subrange(i, (alternation_at(ts, i)->0).1)) == 0,
    decreases ts.len() - i, 6int,
{
    let (n, k) = alternation_at(ts, i)->0;
    let (n0, j0) = concatenation_at(ts, i)->0;
    lemma_balance_concatenation(ts, i);
    lemma_alternation_rest_bounds(ts, j0, n0);
    lemma_balance_alternation_rest(ts, j0, n0);
    assert(ts.subrange(i, k) =~= ts.subrange(i, j0) + ts.subrange(j0, k));
    lemma_net_parens_add(ts.subrange(i, j0), ts.subrange(j0, k));
}

/// The number of `(` characters minus the number of `)` characters.
pub open spec fn net_parens_chars(s: Seq<char>) -> int
    decreases s.len(),
{
    if s.len() == 0 {
        0
    } else {
        char_paren_delta(s[0]) + net_parens_chars(s.drop_first())
    }
}

/// The contribution of one character to the parenthesis count.
pub open spec fn char_paren_delta(c: char) -> int {
    if c == '(' {
        1
    } else if c == ')' {
        -1
    } else {
        0
    }
}

proof fn lemma_scan_net(s: Seq<char>)
    requires
        spec_scan(s) is Some,
    ensures
        net_parens(spec_scan(s)->0) == net_parens_chars(s),
    decreases s.len(),
{
    let raw = spec_scan(s)->0;
    if s.len() == 0 {
        assert(raw =~= Seq::<Token>::empty());
    } else {
        let rest = s.drop_first();
        assert forall|i: int| 0 <= i < rest.len() implies (#[trigger] token_of_char(
            rest[i],
        )) is Some by {
            assert(rest[i] == s[i + 1]);
        }
        lemma_scan_net(rest);
        assert(raw.drop_first() =~= spec_scan(rest)->0);
        assert(paren_delta(raw[0]) == char_paren_delta(s[0]));
    }
}

proof fn lemma_with_concat_net(ts: Seq<Token>)
    ensures
        net_parens(spec_with_concat(ts)) == net_parens(ts),
    decreases ts.len(),
{
    if ts.len() <= 1 {
    } else {
        lemma_with_concat_net(ts.drop_first());
        let rest = spec_with_concat(ts.drop_first());
        if crate::token::ends_atom(ts[0]) && starts_atom(ts[1]) {
            lemma_net_parens_add(seq![ts[0], Token::Concat], rest);
            assert(net_parens(seq![ts[0], Token::Concat]) == paren_delta(ts[0])) by {
                assert(seq![ts[0], Token::Concat].drop_first() =~= seq![Token::Concat]);
                lemma_net_parens_single(Token::Concat);
            }
        } else {
            lemma_net_parens_add(seq![ts[0]], rest);
            lemma_net_parens_single(ts[0]);
        }
    }
}

// The star-context lemmas: inside any range a parser level accepts,
// the first token can start an atom, the last can end one, and every
// `*` stands right after a token that can end an atom.  An input that
// puts a `*` first, or right after `(` or `|`, therefore never parses.
proof fn lemma_star_ctx_atom(ts: Seq<Token>, i: int)
    requires
        atom_at(ts, i) is Some,
    ensures
        ({
            let (n, j) = atom_at(ts, i)->0;
            starts_atom(ts[i]) && ends_atom(ts[j - 1]) && (forall|p: int|
                i < p < j && (#[trigger] ts[p]) is Star ==> ends_atom(ts[p - 1]))
        }),
    decreases ts.len() - i, 0int,
{
    let (n, j) = atom_at(ts, i)->0;
    match ts[i] {
        Token::LParen => {
            let (m, j0) = alternation_at(ts, i + 1)->0;
            assert(0 <= j0 < ts.len() && ts[j0] is RParen);
            lemma_star_ctx_alternation(ts, i + 1);
            crate::parser::lemma_alternation_at_bounds(ts, i + 1);
            assert forall|p: int| i < p < j && (#[trigger] ts[p]) is Star implies ends_atom(
                ts[p - 1],
            ) by {
                if p == i + 1 {
                    assert(starts_atom(ts[i + 1]));
                }
            }
        },
        _ => {},
    }
}

proof fn lemma_star_ctx_repetition_rest(ts: Seq<Token>, j: int, acc: Node)
    requires
        repetition_rest(ts, j, acc) is Some,
    ensures
        ({
            let (n, k) = repetition_rest(ts, j, acc)->0;
            forall|p: int| j <= p < k ==> (#[trigger] ts[p]) is Star
        }),
    decreases ts.len() - j, 1int,
{
    if 0 <= j < ts.len() && ts[j] is Star {
        lemma_star_ctx_repetition_rest(ts, j + 1, Node::Kleene { child: Box::new(acc) });
    }
}

proof fn lemma_star_ctx_repetition(ts: Seq<Token>, i: int)
    requires
        repetition_at(ts, i) is Some,
    ensures
        ({
            let (n, k) = repetition_at(ts, i)->0;
            starts_atom(ts[i]) && ends_atom(ts[k - 1]) && (forall|p: int|
                i < p < k && (#[trigger] ts[p]) is Star ==> ends_atom(ts[p - 1]))
        }),
    decreases ts.len() - i, 2int,
{
    let (n, k) = repetition_at(ts, i)->0;
    let (n0, j0) = atom_at(ts, i)->0;
    lemma_star_ctx_atom(ts, i);
    lemma_star_ctx_repetition_rest(ts, j0, n0);
    lemma_repetition_rest_bounds(ts, j0, n0);
    assert forall|p: int| i < p < k && (#[trigger] ts[p]) is Star implies ends_atom(ts[p - 1]) by {
        if j0 < p {
            assert(ts[p - 1] is Star);
        }
    }
    if k > j0 {
        assert(ts[k - 1] is Star);
    }
}

proof fn lemma_star_ctx_concatenation_rest(ts: Seq<Token>, j: int, acc: Node)
    requires
        concatenation_rest(ts, j, acc) is Some,
    ensures
        ({
            let (n, k) = concatenation_rest(ts, j, acc)->0;
            (k == j || ends_atom(ts[k - 1])) && (k != j ==> ts[j] is Concat) && (forall|p: int|
                j < p < k && (#[trigger] ts[p]) is Star ==> ends_atom(ts[p - 1]))
        }),
    decreases ts.len() - j, 5int,
{
    let (n, k) = concatenation_rest(ts, j, acc)->0;
    if 0 <= j < ts.len() && ts[j] is Concat {
        let (m, k1) = repetition_at(ts, j + 1)->0;
        assert(j + 1 < k1 <= ts.len());
        let acc2 = Node::Concatenation { left: Box::new(acc), right: Box::new(m) };
        lemma_star_ctx_repetition(ts, j + 1);
        lemma_star_ctx_concatenation_rest(ts, k1, acc2);
        lemma_concatenation_rest_bounds(ts, k1, acc2);
        assert forall|p: int| j < p < k && (#[trigger] ts[p]) is Star implies ends_atom(
            ts[p - 1],
        ) by {
            if p == j + 1 {
                assert(starts_atom(ts[j + 1]));
            } else if p == k1 {
                assert(ts[k1] is Concat);
            }
        }
    }
}

proof fn lemma_star_ctx_concatenation(ts: Seq<Token>, i: int)
    requires
        concatenation_at(ts, i) is Some,
    ensures
        ({
            let (n, k) = concatenation_at(ts, i)->0;
            starts_atom(ts[i]) && ends_atom(ts[k - 1]) && (forall|p: int|
                i < p < k && (#[trigger] ts[p]) is Star ==> ends_atom(ts[p - 1]))
        }),
    decreases ts.len() - i, 4int,
{
    let (n, k) = concatenation_at(ts, i)->0;
    let (n0, j0) = repetition_at(ts, i)->0;
    lemma_star_ctx_repetition(ts, i);
    lemma_star_ctx_concatenation_rest(ts, j0, n0);
    lemma_concatenation_rest_bounds(ts, j0, n0);
    assert forall|p: int| i < p < k && (#[trigger] ts[p]) is Star implies ends_atom(ts[p - 1]) by {
        if p == j0 {
            assert(ts[j0] is Concat);
        }
    }
}

proof fn lemma_star_ctx_alternation_rest(ts: Seq<Token>, j: int, acc: Node)
    requires
        alternation_rest(ts, j, acc) is Some,
    ensures
        ({
            let (n, k) = alternation_rest(ts, j, acc)->0;
            (k == j || ends_atom(ts[k - 1])) && (k != j ==> ts[j] is Pipe) && (forall|p: int|
                j < p < k && (#[trigger] ts[p]) is Star ==> ends_atom(ts[p - 1]))
        }),
    decreases ts.len() - j, 7int,
{
    let (n, k) = alternation_rest(ts, j, acc)->0;
    if 0 <= j < ts.len() && ts[j] is Pipe {
        let (m, k1) = concatenation_at(ts, j + 1)->0;
        assert(j + 1 < k1 <= ts.len());
        let acc2 = Node::Alternation { left: Box::new(acc), right: Box::new(m) };
        lemma_star_ctx_concatenation(ts, j + 1);
        lemma_star_ctx_alternation_rest(ts, k1, acc2);
        lemma_alternation_rest_bounds(ts, k1, acc2);
        assert forall|p: int| j < p < k && (#[trigger] ts[p]) is Star implies ends_atom(
            ts[p - 1],
        ) by {
            if p == j + 1 {
                assert(starts_atom(ts[j + 1]));
            } else if p == k1 {
                assert(ts[k1] is Pipe);
            }
        }
    }
}

proof fn lemma_star_ctx_alternation(ts: Seq<Token>, i: int)
    requires
        alternation_at(ts, i) is Some,
    ensures
        ({
            let (n, k) = alternation_at(ts, i)->0;
            starts_atom(ts[i]) && ends_atom(ts[k - 1]) && (forall|p: int|
                i < p < k && (#[trigger] ts[p]) is Star ==> ends_atom(ts[p - 1]))
        }),
    decreases ts.len() - i, 6int,
{
    let (n, k) = alternation_at(ts, i)->0;
    let (n0, j0) = concatenation_at(ts, i)->0;
    lemma_star_ctx_concatenation(ts, i);
    lemma_star_ctx_alternation_rest(ts, j0, n0);
    lemma_alternation_rest_bounds(ts, j0, n0);
    assert forall|p: int| i < p < k && (#[trigger] ts[p]) is Star implies ends_atom(ts[p - 1]) by {
        if p == j0 {
            assert(ts[j0] is Pipe);
        }
    }
}

/// The inserter keeps a misplaced `*` misplaced: a `Star` that stands
/// first, or right after a token that cannot end an atom, stands so in
/// the inserter's output too, since no `Concat` is ever placed before a
/// `Star`.
proof fn lemma_with_concat_bad_star(ts: Seq<Token>, p: int)
    requires
        0 <= p < ts.len(),
        ts[p] is Star,
        p == 0 || !ends_atom(ts[p - 1]),
    ensures
        p == 0 ==> spec_with_concat(ts).len() > 0 && spec_with_concat(ts)[0] is Star,
        p > 0 ==> exists|q: int|
            1 <= q < spec_with_concat(ts).len() && (#[trigger] spec_with_concat(ts)[q]) is Star
                && !ends_atom(spec_with_concat(ts)[q - 1]),
    decreases ts.len(),
{
    let w = spec_with_concat(ts);
    if p == 0 {
        lemma_with_concat_head(ts);
    } else if p == 1 {
        lemma_with_concat_head(ts.drop_first());
        assert(ts.drop_first()[0] == ts[1]);
        assert(w == seq![ts[0]] + spec_with_concat(ts.drop_first()));
        assert(w[1] is Star && !ends_atom(w[0]));
        assert(1 <= 1 < w.len());
    } else {
        assert(ts.drop_first()[p - 1] == ts[p]);
        assert(ts.drop_first()[p - 2] == ts[p - 1]);
        lemma_with_concat_bad_star(ts.drop_first(), p - 1);
        let wd = spec_with_concat(ts.drop_first());
        let q0 = choose|q: int|
            1 <= q < wd.len() && (#[trigger] wd[q]) is Star && !ends_atom(wd[q - 1]);
        if ends_atom(ts[0]) && starts_atom(ts[1]) {
            assert(w == seq![ts[0], Token::Concat] + wd);
            assert(w[q0 + 2] is Star && !ends_atom(w[q0 + 1]));
            assert(1 <= q0 + 2 < w.len());
        } else {
            assert(w == seq![ts[0]] + wd);
            assert(w[q0 + 1] is Star && !ends_atom(w[q0]));
            assert(1 <= q0 + 1 < w.len());
        }
    }
}

/// The empty input has no parse: the start symbol needs at least one
/// atom.
pub proof fn lemma_empty_input_fails(s: Seq<char>)
    requires
        s.len() == 0,
    ensures
        spec_parse(s) is None,
{
    assert(spec_scan(s) == Some(Seq::<Token>::empty())) by {
        assert(s =~= Seq::<char>::empty());
        assert(Seq::new(s.len(), |i: int| token_of_char(s[i])->0) =~= Seq::<Token>::empty());
    }
}

/// A character outside the accepted alphabet makes the whole input fail,
/// wherever it stands.
pub proof fn lemma_foreign_char_fails(s: Seq<char>, i: int)
    requires
        0 <= i < s.len(),
        token_of_char(s[i]) is None,
    ensures
        spec_parse(s) is None,
{
    assert(spec_scan(s) is None);
}

/// A `*` with no preceding atom makes the whole input fail: one that
/// stands first, or right after `(` or `|`, has nothing to repeat.
pub proof fn lemma_star_without_operand_fails(s: Seq<char>, p: int)
    requires
        0 <= p < s.len(),
        s[p] == '*',
        p == 0 || s[p - 1] == '(' || s[p - 1] == '|',
    ensures
        spec_parse(s) is None,
{
    if spec_scan(s) is Some {
        let raw = spec_scan(s)->0;
        let ts = spec_with_concat(raw);
        assert(raw[p] == token_of_char(s[p])->0);
        assert(raw[p] is Star);
        if p > 0 {
            assert(raw[p - 1] == token_of_char(s[p - 1])->0);
            assert(!ends_atom(raw[p - 1]));
        }
        lemma_with_concat_bad_star(raw, p);
        match alternation_at(ts, 0) {
            Some((root, end)) => {
                if end == ts.len() {
                    lemma_star_ctx_alternation(ts, 0);
                    if p == 0 {
                        assert(starts_atom(ts[0]));
                        assert(false);
                    } else {
                        let q = choose|q: int|
                            1 <= q < ts.len() && (#[trigger] ts[q]) is Star && !ends_atom(
                                ts[q - 1],
                            );
                        assert(ends_atom(ts[q - 1]));
                        assert(false);
                    }
                }
            },
            None => {},
        }
    }
}

/// An input whose first character scans to a token that cannot start an
/// atom — a leading `|`, a leading `*`, or a leading `)` — has no parse,
/// whatever follows it.
pub proof fn lemma_leading_non_atom_fails(s: Seq<char>)
    requires
        s.len() > 0,
        token_of_char(s[0]) matches Some(t) && !starts_atom(t),
    ensures
        spec_parse(s) is None,
{
    if spec_scan(s) is Some {
        let raw = spec_scan(s)->0;
        assert(raw[0] == token_of_char(s[0])->0);
        lemma_with_concat_head(raw);
        let ts = spec_with_concat(raw);
        assert(atom_at(ts, 0) is None);
        assert(repetition_at(ts, 0) is None);
        assert(concatenation_at(ts, 0) is None);
        assert(alternation_at(ts, 0) is None);
    }
}

/// When a parse of the alternation tail consumed the whole stream, the
/// same tail on the stream with a `|` appended consumes that `|` as one
/// more operator and then fails for want of a right operand.
proof fn lemma_alternation_rest_trailing_pipe(ts: Seq<Token>, j: int, acc: Node)
    requires
        0 <= j <= ts.len(),
        alternation_rest(ts, j, acc) matches Some(p) && p.1 == ts.len(),
    ensures
        alternation_rest(ts + seq![Token::Pipe], j, acc) is None,
    decreases ts.len() - j,
{
    let sfx = seq![Token::Pipe];
    let ts2 = ts + sfx;
    if j < ts.len() && ts[j] is Pipe {
        assert(ts2[j] == ts[j]);
        let (m, k1) = concatenation_at(ts, j + 1)->0;
        assert(j + 1 < k1 <= ts.len());
        let acc2 = Node::Alternation { left: Box::new(acc), right: Box::new(m) };
        lemma_alternation_rest_bounds(ts, k1, acc2);
        lemma_extend_concatenation(ts, sfx, j + 1);
        lemma_alternation_rest_trailing_pipe(ts, k1, acc2);
    } else {
        assert(j == ts.len());
        assert(ts2[j] == Token::Pipe);
        assert(atom_at(ts2, j + 1) is None);
        assert(repetition_at(ts2, j + 1) is None);
        assert(concatenation_at(ts2, j + 1) is None);
    }
}

/// Appending `|` to any input that parses makes it fail: the trailing
/// operator has no right operand.
pub proof fn lemma_trailing_pipe_fails(s: Seq<char>)
    requires
        spec_parse(s) is Some,
    ensures
        spec_parse(s.push('|')) is None,
{
    let s2 = s.push('|');
    let raw = spec_scan(s)->0;
    let ts = spec_with_concat(raw);
    let (root, end) = alternation_at(ts, 0)->0;
    assert(end == ts.len());

    assert(spec_scan(seq!['|']) == Some(seq![Token::Pipe])) by {
        let one = seq!['|'];
        assert(token_of_char(one[0]) is Some);
        assert(Seq::new(one.len(), |i: int| token_of_char(one[i])->0) =~= seq![Token::Pipe]);
    }
    lemma_scan_concat(s, seq!['|']);
    assert(s2 =~= s + seq!['|']);
    let raw2 = spec_scan(s2)->0;
    assert(raw2 =~= raw.push(Token::Pipe));

    lemma_with_concat_push_non_start(raw, Token::Pipe);
    let ts2 = spec_with_concat(raw2);
    assert(ts2 =~= ts + seq![Token::Pipe]);

    let (n0, j0) = concatenation_at(ts, 0)->0;
    assert(0 < j0 <= ts.len());
    lemma_alternation_rest_bounds(ts, j0, n0);
    lemma_extend_concatenation(ts, seq![Token::Pipe], 0);
    lemma_alternation_rest_trailing_pipe(ts, j0, n0);
    assert(concatenation_at(ts2, 0) == Some((n0, j0)));
    assert(alternation_at(ts2, 0) is None);
}

/// A complete top-level parse, wrapped between one `LParen` and one
/// `RParen`, is an atom that parses to the same node and consumes the
/// wrapped stream whole.
proof fn lemma_paren_tokens(ts: Seq<Token>, root: Node)
    requires
        alternation_at(ts, 0) matches Some(p) && p == (root, ts.len() as int),
    ensures
        alternation_at(seq![Token::LParen] + (ts + seq![Token::RParen]), 0) == Some(
            (root, ts.len() + 2int),
        ),
{
    let end = ts.len() as int;
    let tsr = ts + seq![Token::RParen];
    let ts2 = seq![Token::LParen] + tsr;
    lemma_extend_alternation(ts, seq![Token::RParen], 0);
    assert(alternation_at(tsr, 0) == Some((root, end)));
    lemma_shift_alternation(seq![Token::LParen], tsr, 0);
    assert(alternation_at(ts2, 1) == Some((root, end + 1)));

    assert(ts2.len() == end + 2);
    assert(ts2[0] == Token::LParen);
    assert(ts2[end + 1] == Token::RParen);
    assert(atom_at(ts2, 0) == Some((root, end + 2)));
    assert(repetition_rest(ts2, end + 2, root) == Some((root, end + 2)));
    assert(repetition_at(ts2, 0) == Some((root, end + 2)));
    assert(concatenation_rest(ts2, end + 2, root) == Some((root, end + 2)));
    assert(concatenation_at(ts2, 0) == Some((root, end + 2)));
    assert(alternation_rest(ts2, end + 2, root) == Some((root, end + 2)));
    assert(alternation_at(ts2, 0) == Some((root, end + 2)));
}

/// Parentheses around a complete pattern are transparent: wrapping any
/// input that parses in `(` and `)` parses to the very same tree.
pub proof fn lemma_paren_transparent(s: Seq<char>)
    requires
        spec_parse(s) is Some,
    ensures
        spec_parse(seq!['('] + s + seq![')']) == spec_parse(s),
{
    let s2 = seq!['('] + s + seq![')'];
    let raw = spec_scan(s)->0;
    let ts = spec_with_concat(raw);
    let (root, end) = alternation_at(ts, 0)->0;
    assert(end == ts.len());
    if s.len() == 0 {
        lemma_empty_input_fails(s);
    }
    assert(raw.len() == s.len() > 0);

    assert(spec_scan(seq!['(']) == Some(seq![Token::LParen])) by {
        let one = seq!['('];
        assert(token_of_char(one[0]) is Some);
        assert(Seq::new(one.len(), |i: int| token_of_char(one[i])->0) =~= seq![Token::LParen]);
    }
    assert(spec_scan(seq![')']) == Some(seq![Token::RParen])) by {
        let one = seq![')'];
        assert(token_of_char(one[0]) is Some);
        assert(Seq::new(one.len(), |i: int| token_of_char(one[i])->0) =~= seq![Token::RParen]);
    }
    lemma_scan_concat(s, seq![')']);
    lemma_scan_concat(seq!['('], s + seq![')']);
    assert(s2 =~= seq!['('] + (s + seq![')']));
    let raw2 = spec_scan(s2)->0;
    assert(raw2 =~= seq![Token::LParen] + (raw.push(Token::RParen)));

    lemma_with_concat_push_non_start(raw, Token::RParen);
    let mid = raw.push(Token::RParen);
    let ts2 = spec_with_concat(raw2);
    assert(raw2.len() >= 2);
    assert(raw2[0] == Token::LParen);
    assert(raw2.drop_first() =~= mid);
    assert(ts2 == seq![raw2[0]] + spec_with_concat(raw2.drop_first()));
    assert(ts2 =~= seq![Token::LParen] + (ts + seq![Token::RParen]));

    lemma_paren_tokens(ts, root);
    assert(alternation_at(ts2, 0) == Some((root, ts.len() + 2int)));
    assert(spec_parse(s2) == Some(root));
}

/// An input with more `(` than `)`, or more `)` than `(`, has no parse:
/// every token range a parser level accepts pairs its parentheses.
pub proof fn lemma_unbalanced_parens_fail(s: Seq<char>)
    requires
        net_parens_chars(s) != 0,
    ensures
        spec_parse(s) is None,
{
    if spec_scan(s) is Some {
        let raw = spec_scan(s)->0;
        let ts = spec_with_concat(raw);
        lemma_scan_net(s);
        lemma_with_concat_net(raw);
        match alternation_at(ts, 0) {
            Some((root, end)) => {
                if end == ts.len() {
                    lemma_balance_alternation(ts, 0);
                    assert(ts.subrange(0, end) =~= ts);
                }
            },
            None => {},
        }
    }
}

} // verus!
