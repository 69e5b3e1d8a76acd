//! The syntax tree.

use vstd::prelude::*;
use crate::diag::Loc;
use crate::token::RedirType;

verus! {

/// A node of the syntax tree, with the range of input it covers.
#[derive(Debug)]
pub enum AstNode {
    /// One literal word.
    Cmd(String, Loc),
    /// `$name`: the name, and the range from the sigil through the name.
    Variable(String, Loc),
    /// `$(...)`: the substituted command, and the range from `$(` through `)`.
    Expansion(Box<AstNode>, Loc),
    /// A command: its words, variables and expansions, in order.
    JustCmd(Vec<AstNode>, Loc),
    /// `left | right`: the operator's range, then the whole range.
    Pipe(Box<AstNode>, Loc, Box<AstNode>, Loc),
    /// `source > target`: the stream, the operator's range, then the whole
    /// range.
    Redirect(Box<AstNode>, RedirType, Loc, Box<AstNode>, Loc),
}

impl AstNode {
    pub open spec fn loc(&self) -> Loc {
        match self {
            AstNode::Cmd(_, l) => *l,
            AstNode::Variable(_, l) => *l,
            AstNode::Expansion(_, l) => *l,
            AstNode::JustCmd(_, l) => *l,
            AstNode::Pipe(_, _, _, l) => *l,
            AstNode::Redirect(_, _, _, _, l) => *l,
        }
    }

    /// Ranges follow the tree: a leaf has the range of its token; a command
    /// spans from its first word to its last; a pipe or a redirect spans
    /// from its left side to its right side; and so on down the tree.
    pub open spec fn wf(&self) -> bool
        decreases self,
    {
        match self {
            AstNode::Cmd(_, l) => l.start <= l.end,
            AstNode::Variable(_, l) => l.start <= l.end,
            AstNode::Expansion(b, _) => b.wf(),
            AstNode::JustCmd(v, l) => {
                &&& v@.len() > 0
                &&& l.start == v@[0].loc().start
                &&& l.end == v@[v@.len() - 1].loc().end
                &&& forall|i: int| 0 <= i < v@.len() ==> (#[trigger] v@[i]).wf()
            },
            AstNode::Pipe(a, _, b, l) => l.start == a.loc().start && l.end == b.loc().end && a.wf()
                && b.wf(),
            AstNode::Redirect(a, _, _, b, l) => l.start == a.loc().start && l.end == b.loc().end
                && a.wf() && b.wf(),
        }
    }

    /// The range of input the node covers.
    pub fn get_loc(&self) -> (r: Loc)
        ensures
            r == self.loc(),
    {
        match self {
            AstNode::Cmd(_, l) => *l,
            AstNode::Variable(_, l) => *l,
            AstNode::Expansion(_, l) => *l,
            AstNode::JustCmd(_, l) => *l,
            AstNode::Pipe(_, _, _, l) => *l,
            AstNode::Redirect(_, _, _, _, l) => *l,
        }
    }
}

} // verus!
