//! What the parser computes, stated as spec functions over the token
//! sequence: `s_expr` for a command line, `s_climb` and `s_fold` for
//! operators by precedence, `s_atom` for one command, `s_tok` for one token
//! of a command, `s_group` for the tokens of a quoted group, and `s_parse`
//! for the whole sequence. Each returns its result with the position where
//! parsing stopped. The range tests before each recursive call (a position
//! that does not move back and stays within the sequence) always hold of
//! what the parser does; they make termination evident.

use vstd::prelude::*;
use crate::ast::AstNode;
use crate::diag::{ErrRange, Error, ErrorType, Loc};
use crate::parser::Ctx;
use crate::token::{CommandBit, OpenOrClose, OperatorPrecedence, RedirType, op_precedence};

verus! {

broadcast use vstd::seq::group_seq_axioms, vstd::std_specs::vec::group_vec_axioms;

/// A syntax tree as a mathematical value.
pub enum Tree {
    Word(Seq<char>, Loc),
    Var(Seq<char>, Loc),
    Expansion(Box<Tree>, Loc),
    Command(Seq<Tree>, Loc),
    Pipe(Box<Tree>, Loc, Box<Tree>, Loc),
    Redirect(Box<Tree>, RedirType, Loc, Box<Tree>, Loc),
}

impl Tree {
    pub open spec fn loc(self) -> Loc {
        match self {
            Tree::Word(_, l) => l,
            Tree::Var(_, l) => l,
            Tree::Expansion(_, l) => l,
            Tree::Command(_, l) => l,
            Tree::Pipe(_, _, _, l) => l,
            Tree::Redirect(_, _, _, _, l) => l,
        }
    }
}

/// What parsing a command line or a command yields.
pub enum SOut {
    Node(Tree),
    Closed(Tree, Loc),
    Failed(Error),
}

/// What handling one token of a command yields.
pub enum SHandled {
    Added,
    Closed(Loc, Loc),
    Failed(Error),
}

/// `n` is the tree `t`.
pub open spec fn matches_tree(n: AstNode, t: Tree) -> bool
    decreases n,
{
    match n {
        AstNode::Cmd(s, l) => t == Tree::Word(s@, l),
        AstNode::Variable(s, l) => t == Tree::Var(s@, l),
        AstNode::Expansion(b, l) => t matches Tree::Expansion(tb, tl) && tl == l && matches_tree(*b, *tb),
        AstNode::JustCmd(v, l) => t matches Tree::Command(ts, tl) && tl == l && ts.len() == v@.len()
            && forall|i: int| 0 <= i < v@.len() ==> matches_tree(#[trigger] v@[i], ts[i]),
        AstNode::Pipe(a, o, b, l) => t matches Tree::Pipe(ta, to, tb, tl) && to == o && tl == l
            && matches_tree(*a, *ta) && matches_tree(*b, *tb),
        AstNode::Redirect(a, k, o, b, l) => t matches Tree::Redirect(ta, tk, to, tb, tl) && tk == k
            && to == o && tl == l && matches_tree(*a, *ta) && matches_tree(*b, *tb),
    }
}

/// Each node of `v` is the tree at the same place in `ts`.
pub open spec fn kids_match(v: Seq<AstNode>, ts: Seq<Tree>) -> bool {
    v.len() == ts.len() && forall|i: int| 0 <= i < v.len() ==> matches_tree(#[trigger] v[i], ts[i])
}

pub open spec fn span_of(a: Loc, b: Loc) -> Loc {
    Loc { start: a.start, end: b.end }
}

pub open spec fn hull_t(ts: Seq<Tree>) -> Loc {
    span_of(ts[0].loc(), ts[ts.len() - 1].loc())
}

/// `lhs op rhs`.
pub open spec fn combine_t(lhs: Tree, op: CommandBit, rhs: Tree) -> Tree {
    let whole = span_of(lhs.loc(), rhs.loc());
    match op {
        CommandBit::Redir(k, l) => Tree::Redirect(Box::new(lhs), k, l, Box::new(rhs), whole),
        _ => Tree::Pipe(Box::new(lhs), op.spec_loc(), Box::new(rhs), whole),
    }
}

pub open spec fn fail(kind: ErrorType, start: Option<usize>, end: Option<usize>) -> Error {
    Error { kind, range: ErrRange { start, end } }
}

pub open spec fn level(quoted: bool) -> int {
    if quoted {
        0
    } else {
        1
    }
}

pub open spec fn max_of(op: CommandBit) -> u32 {
    if op is Redir {
        1
    } else {
        0
    }
}

/// The next tighter precedence.
pub open spec fn tighter(p: OperatorPrecedence) -> OperatorPrecedence {
    match p {
        OperatorPrecedence::Pipe => OperatorPrecedence::Redirect,
        _ => OperatorPrecedence::Command,
    }
}

/// A command line from `pos`: a command, then the operators after it.
pub open spec fn s_expr(toks: Seq<CommandBit>, pos: int, ctx: Ctx, q: bool) -> (SOut, int)
    decreases toks, toks.len() - pos, 8int,
{
    let (r, next_pos) = s_atom(toks, pos, 0, ctx, q);
    match r {
        SOut::Node(a) => if 0 <= pos <= next_pos <= toks.len() {
            s_climb(a, OperatorPrecedence::Pipe, toks, next_pos, ctx, q)
        } else {
            (r, next_pos)
        },
        _ => (r, next_pos),
    }
}

/// Folds the operators from `pos` that bind at least as tightly as `prec`
/// onto `lhs`.
pub open spec fn s_climb(
    lhs: Tree,
    prec: OperatorPrecedence,
    toks: Seq<CommandBit>,
    pos: int,
    ctx: Ctx,
    q: bool,
) -> (SOut, int)
    decreases toks, toks.len() - pos, 2 * (3 - prec.rank()) + 1,
{
    if 0 <= pos < toks.len() && toks[pos]@.is_op() && !(prec.rank() > op_precedence(toks[pos]@).rank()) {
        let op = toks[pos];
        let (ra, next_pos) = s_atom(toks, pos + 1, max_of(op), ctx, q);
        match ra {
            SOut::Node(rhs) => if pos + 1 <= next_pos <= toks.len() {
                let (rf, later_pos) = s_fold(lhs, op, rhs, toks, next_pos, ctx, q);
                match rf {
                    SOut::Node(l2) => if next_pos <= later_pos <= toks.len() {
                        s_climb(l2, prec, toks, later_pos, ctx, q)
                    } else {
                        (rf, later_pos)
                    },
                    _ => (rf, later_pos),
                }
            } else {
                (ra, next_pos)
            },
            SOut::Closed(n, l) => (SOut::Closed(combine_t(lhs, op, n), l), next_pos),
            SOut::Failed(e) => (SOut::Failed(e), next_pos),
        }
    } else {
        (SOut::Node(lhs), pos)
    }
}

/// Folds the operators from `pos` that bind tighter than `op` into `rhs`,
/// then combines `lhs op rhs`.
pub open spec fn s_fold(
    lhs: Tree,
    op: CommandBit,
    rhs: Tree,
    toks: Seq<CommandBit>,
    pos: int,
    ctx: Ctx,
    q: bool,
) -> (SOut, int)
    decreases toks, toks.len() - pos, 2 * (3 - op_precedence(op@).rank()),
{
    let opp = op_precedence(op@);
    if 0 <= pos < toks.len() && toks[pos]@.is_op() && op_precedence(toks[pos]@).rank() > opp.rank()
        && !(op is Redir) && opp.rank() < 2 {
        let (r, next_pos) = s_climb(rhs, tighter(opp), toks, pos, ctx, q);
        match r {
            SOut::Node(n) => if pos < next_pos <= toks.len() {
                s_fold(lhs, op, n, toks, next_pos, ctx, q)
            } else {
                (SOut::Node(combine_t(lhs, op, n)), next_pos)
            },
            SOut::Closed(n, l) => (SOut::Closed(combine_t(lhs, op, n), l), next_pos),
            SOut::Failed(e) => (SOut::Failed(e), next_pos),
        }
    } else {
        (SOut::Node(combine_t(lhs, op, rhs)), pos)
    }
}

/// One command from `pos`. When `max` is not 0, no further token is taken
/// once `max` word-level nodes are gathered (a quoted group, taken as one
/// token, may add several).
pub open spec fn s_atom(toks: Seq<CommandBit>, pos: int, max: u32, ctx: Ctx, q: bool) -> (SOut, int)
    decreases toks, toks.len() - pos, 2int,
{
    s_atom_loop(Seq::empty(), toks, pos, max, ctx, q)
}

/// Gathering a command whose words so far are `kids`.
pub open spec fn s_atom_loop(
    kids: Seq<Tree>,
    toks: Seq<CommandBit>,
    pos: int,
    max: u32,
    ctx: Ctx,
    q: bool,
) -> (SOut, int)
    decreases toks, toks.len() - pos, 1int,
{
    if 0 <= pos < toks.len() && !toks[pos]@.is_op() && !(max != 0 && kids.len() >= max) {
        let (h, next_pos, k2) = s_tok(toks, pos + 1, ctx, q, kids);
        match h {
            SHandled::Added => if pos + 1 <= next_pos <= toks.len() {
                s_atom_loop(k2, toks, next_pos, max, ctx, q)
            } else {
                (SOut::Failed(fail(ErrorType::ExpectedCommand, None, None)), next_pos)
            },
            SHandled::Closed(range, l) => (SOut::Closed(Tree::Command(k2, range), l), next_pos),
            SHandled::Failed(e) => (SOut::Failed(e), next_pos),
        }
    } else if ctx == Ctx::Substitution && pos >= toks.len() {
        (SOut::Failed(fail(ErrorType::UnmatchedSubstitution, None, None)), pos)
    } else if kids.len() == 0 {
        (SOut::Failed(fail(ErrorType::ExpectedCommand, None, None)), pos)
    } else {
        (SOut::Node(Tree::Command(kids, hull_t(kids))), pos)
    }
}

/// Handling the token just before `pos` in a command whose words so far
/// are `kids`.
pub open spec fn s_tok(toks: Seq<CommandBit>, pos: int, ctx: Ctx, q: bool, kids: Seq<Tree>) -> (
    SHandled,
    int,
    Seq<Tree>,
)
    decreases toks, toks.len() - pos + 1, 0int,
{
    if !(1 <= pos <= toks.len()) {
        (SHandled::Added, pos, kids)
    } else {
        match toks[pos - 1] {
        CommandBit::Str(s, l) => (SHandled::Added, pos, kids.push(Tree::Word(s@, l))),
        CommandBit::Dollar(l) => if 0 <= pos < toks.len() && toks[pos] is Str {
            (
                SHandled::Added,
                pos + 1,
                kids.push(Tree::Var(toks[pos]->Str_0@, span_of(l, toks[pos]->Str_1))),
            )
        } else {
            (SHandled::Failed(fail(ErrorType::MissingIdentifier, Some(l.end), None)), pos, kids)
        },
        CommandBit::Control(OpenOrClose::Close, l) => if ctx == Ctx::Top {
            (SHandled::Failed(fail(ErrorType::UnexpectedClose, Some(l.start), Some(l.end))), pos, kids)
        } else if kids.len() == 0 {
            (SHandled::Failed(fail(ErrorType::ExpectedCommand, Some(l.start), Some(l.end))), pos, kids)
        } else {
            (SHandled::Closed(hull_t(kids), l), pos, kids)
        },
        CommandBit::Control(OpenOrClose::OpenExpand, l) => if 0 <= pos <= toks.len() {
            let (r, next_pos) = s_expr(toks, pos, Ctx::Substitution, q);
            match r {
                SOut::Closed(n, close) => (
                    SHandled::Added,
                    next_pos,
                    kids.push(Tree::Expansion(Box::new(n), span_of(l, close))),
                ),
                SOut::Node(n) => if 0 <= next_pos < toks.len() {
                    if toks[next_pos] is Control && toks[next_pos]->Control_0 == OpenOrClose::Close {
                        (
                            SHandled::Added,
                            next_pos + 1,
                            kids.push(Tree::Expansion(Box::new(n), span_of(l, toks[next_pos]->Control_1))),
                        )
                    } else {
                        let tl = toks[next_pos].spec_loc();
                        (SHandled::Failed(fail(ErrorType::TrailingInput, Some(tl.start), Some(tl.end))), next_pos, kids)
                    }
                } else {
                    (SHandled::Failed(fail(ErrorType::UnmatchedSubstitution, None, None)), next_pos, kids)
                },
                SOut::Failed(e) => (SHandled::Failed(e), next_pos, kids),
            }
        } else {
            (SHandled::Failed(fail(ErrorType::UnmatchedSubstitution, None, None)), pos, kids)
        },
        CommandBit::Quotes(group, _) => {
            let (h, k2) = s_group(group@, 0, ctx, kids);
            (h, pos, k2)
        },
        _ => {
            let tl = toks[pos - 1].spec_loc();
            (SHandled::Failed(fail(ErrorType::TrailingInput, Some(tl.start), Some(tl.end))), pos, kids)
        },
        }
    }
}

/// Handling the tokens of a quoted group from `k` on, each as if it stood
/// unquoted: a `)` among them can end the enclosing substitution, and an
/// operator among them is left over.
pub open spec fn s_group(group: Seq<CommandBit>, k: int, ctx: Ctx, kids: Seq<Tree>) -> (SHandled, Seq<Tree>)
    decreases group, group.len() - k + 1, 1int,
{
    if 0 <= k < group.len() {
        let t = group[k];
        if t@.is_op() {
            let tl = t.spec_loc();
            (SHandled::Failed(fail(ErrorType::TrailingInput, Some(tl.start), Some(tl.end))), kids)
        } else {
            let (h, k1, k2) = s_tok(group, k + 1, ctx, true, kids);
            match h {
                SHandled::Added => if k + 1 <= k1 <= group.len() {
                    s_group(group, k1, ctx, k2)
                } else {
                    (SHandled::Added, k2)
                },
                SHandled::Closed(range, l) => (SHandled::Closed(range, l), k2),
                SHandled::Failed(e) => (SHandled::Failed(e), k2),
            }
        }
    } else {
        (SHandled::Added, kids)
    }
}

} // verus!

verus! {

/// What parsing the whole token sequence yields.
pub open spec fn s_parse(toks: Seq<CommandBit>) -> Result<Tree, Error> {
    let (r, p) = s_expr(toks, 0, Ctx::Top, false);
    match r {
        SOut::Node(t) => if 0 <= p < toks.len() {
            let tl = toks[p].spec_loc();
            Err(fail(ErrorType::TrailingInput, Some(tl.start), Some(tl.end)))
        } else {
            Ok(t)
        },
        SOut::Closed(_, l) => Err(fail(ErrorType::UnexpectedClose, Some(l.start), Some(l.end))),
        SOut::Failed(e) => Err(e),
    }
}

pub open spec fn out_matches(r: crate::parser::Outcome, t: SOut) -> bool {
    match r {
        crate::parser::Outcome::Node(n) => t matches SOut::Node(tn) && matches_tree(n, tn),
        crate::parser::Outcome::Closed(n, l) => t matches SOut::Closed(tn, tl) && tl == l && matches_tree(n, tn),
        crate::parser::Outcome::Failed(e) => t == SOut::Failed(e),
    }
}

pub open spec fn handled_matches(h: crate::parser::Handled, t: SHandled) -> bool {
    match h {
        crate::parser::Handled::Added => t is Added,
        crate::parser::Handled::Closed(a, b) => t == SHandled::Closed(a, b),
        crate::parser::Handled::Failed(e) => t == SHandled::Failed(e),
    }
}

pub proof fn lemma_matches_loc(n: AstNode, t: Tree)
    requires
        matches_tree(n, t),
    ensures
        n.loc() == t.loc(),
{
}

pub proof fn lemma_kids_push(v: Seq<AstNode>, ts: Seq<Tree>, n: AstNode, t: Tree)
    requires
        kids_match(v, ts),
        matches_tree(n, t),
    ensures
        kids_match(v.push(n), ts.push(t)),
{
    assert forall|i: int| 0 <= i < v.push(n).len() implies matches_tree(#[trigger] v.push(n)[i], ts.push(t)[i]) by {
        if i < v.len() {
            assert(v.push(n)[i] == v[i]);
            assert(ts.push(t)[i] == ts[i]);
        }
    }
}

pub proof fn lemma_kids_hull(v: Seq<AstNode>, ts: Seq<Tree>)
    requires
        kids_match(v, ts),
        v.len() > 0,
    ensures
        v[0].loc() == ts[0].loc(),
        v[v.len() - 1].loc() == ts[ts.len() - 1].loc(),
{
    lemma_matches_loc(v[0], ts[0]);
    lemma_matches_loc(v[v.len() - 1], ts[ts.len() - 1]);
}

} // verus!
