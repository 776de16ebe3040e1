use vstd::prelude::*;

verus! {

/// A node of the abstract syntax tree: a strict tree in which every
/// non-leaf node exclusively owns its children.  Chains of the binary
/// operators are left-leaning: `a|b|c` parses to
/// `Alternation(Alternation(a, b), c)`.
#[derive(Debug)]
pub enum Node {
    Literal { character: char },
    Kleene { child: Box<Node> },
    Concatenation { left: Box<Node>, right: Box<Node> },
    Alternation { left: Box<Node>, right: Box<Node> },
}

/// The output of a successful parse: a wrapper owning the root node.
#[derive(Debug)]
pub struct Tree {
    pub root: Node,
}

/// The canonical postfix (reverse-Polish) serialization of a node: a
/// post-order walk that emits each leaf's character as itself, `*` after
/// a Kleene child, `.` after a concatenation's two children, and `|`
/// after an alternation's two children.
pub open spec fn spec_postfix(n: Node) -> Seq<char>
    decreases n,
{
    match n {
        Node::Literal { character } => seq![character],
        Node::Kleene { child } => spec_postfix(*child).push('*'),
        Node::Concatenation { left, right } => spec_postfix(*left) + spec_postfix(*right) + seq![
            '.',
        ],
        Node::Alternation { left, right } => spec_postfix(*left) + spec_postfix(*right) + seq![
            '|',
        ],
    }
}

fn write_postfix(n: &Node, out: &mut Vec<char>)
    ensures
        final(out)@ == old(out)@ + spec_postfix(*n),
    decreases n,
{
    match n {
        Node::Literal { character } => {
            out.push(*character);
            proof {
                assert(out@ =~= old(out)@ + spec_postfix(*n));
            }
        },
        Node::Kleene { child } => {
            write_postfix(child, out);
            out.push('*');
            proof {
                assert(out@ =~= old(out)@ + spec_postfix(*n));
            }
        },
        Node::Concatenation { left, right } => {
            write_postfix(left, out);
            write_postfix(right, out);
            out.push('.');
            proof {
                assert(out@ =~= old(out)@ + spec_postfix(*n));
            }
        },
        Node::Alternation { left, right } => {
            write_postfix(left, out);
            write_postfix(right, out);
            out.push('|');
            proof {
                assert(out@ =~= old(out)@ + spec_postfix(*n));
            }
        },
    }
}

impl Tree {
    /// The canonical postfix serialization of the whole tree, one
    /// character per visited node.
    pub fn postfix(&self) -> (r: Vec<char>)
        ensures
            r@ == spec_postfix(self.root),
    {
        let mut out: Vec<char> = Vec::new();
        write_postfix(&self.root, &mut out);
        proof {
            assert(out@ =~= spec_postfix(self.root));
        }
        out
    }
}

} // verus!
