use vstd::prelude::*;

pub mod ast;
pub mod parser;
pub mod props;
pub mod scanner;
pub mod token;

use crate::ast::{Node, Tree};
use crate::parser::{alternation_at, parse_alternation};
use crate::scanner::{scan, spec_scan, spec_with_concat, with_concat};

verus! {

/// The single opaque error value: the input is not a well-formed pattern.
#[derive(Debug)]
pub struct Error;

/// What `parse` returns for an input: the root node of the unique tree
/// the grammar gives the text, or `None` where the text has none —
/// because a character is outside the accepted alphabet, or because the
/// start symbol has no parse, or because tokens remain after a complete
/// top-level parse.
pub open spec fn spec_parse(s: Seq<char>) -> Option<Node> {
    match spec_scan(s) {
        Some(raw) => {
            let ts = spec_with_concat(raw);
            match alternation_at(ts, 0) {
                Some((root, end)) => if end == ts.len() {
                    Some(root)
                } else {
                    None
                },
                None => None,
            }
        },
        None => None,
    }
}

/// The sole entry point: scan the text, insert the implicit
/// concatenation tokens, parse the result, and require the whole stream
/// to be consumed.  Succeeds exactly on the inputs `spec_parse` accepts,
/// and then returns exactly the tree it names; all-or-nothing otherwise.
pub fn parse(text: &str) -> (r: Result<Tree, Error>)
    ensures
        match r {
            Ok(tree) => spec_parse(text@) == Some(tree.root),
            Err(_) => spec_parse(text@) is None,
        },
{
    match scan(text) {
        Some(raw) => {
            let tokens = with_concat(&raw);
            match parse_alternation(&tokens, 0) {
                Some((root, end)) => {
                    if end == tokens.len() {
                        Ok(Tree { root })
                    } else {
                        Err(Error)
                    }
                },
                None => Err(Error),
            }
        },
        None => Err(Error),
    }
}

} // verus!
