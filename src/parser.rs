//! The parser: words gathered into commands, then operators folded by
//! precedence, with `$(...)` parsed by the same functions in a context of
//! its own.

use vstd::prelude::*;
use crate::ast::AstNode;
use crate::diag::{ErrRange, Error, ErrorType, Loc};
use crate::lexer::{lemma_group_piece_from_source, lemma_words_match_source, lex, piece_from_source, tok_from_source};
use crate::syntax::{
    Tree, combine_t, level, handled_matches, kids_match, lemma_kids_hull, lemma_kids_push, lemma_matches_loc,
    matches_tree, max_of, out_matches, s_atom, s_atom_loop, s_climb, s_expr, s_fold, s_group, s_parse,
    s_tok, span_of, tighter,
};
use crate::token::{CommandBit, OpenOrClose, OperatorPrecedence, Piece, Tok, op_precedence, pieces, toks};

verus! {

broadcast use vstd::seq::group_seq_axioms, vstd::std_specs::vec::group_vec_axioms;

/// Where the parser stands: at the top level, or inside a `$(...)`.
#[derive(Clone, Copy, Debug, PartialEq, Eq, Structural)]
pub enum Ctx {
    Top,
    Substitution,
}

/// What a parsing function produced.
pub enum Outcome {
    /// A complete node; the cursor stands after it.
    Node(AstNode),
    /// The `)` that ends the enclosing substitution was reached: the node
    /// parsed so far, and the range of the `)`.
    Closed(AstNode, Loc),
    Failed(Error),
}

/// What handling one token of a command produced.
pub enum Handled {
    /// Its words were added; gathering goes on.
    Added,
    /// The `)` that ends the enclosing substitution: the range of the words
    /// gathered so far, and the range of the `)`.
    Closed(Loc, Loc),
    Failed(Error),
}

/// Each token's range is well formed and ends before the next one starts.
pub open spec fn in_order(v: Seq<CommandBit>) -> bool {
    &&& forall|i: int| 0 <= i < v.len() ==> (#[trigger] v[i].spec_loc()).start <= v[i].spec_loc().end
    &&& forall|i: int|
        0 <= i < v.len() - 1 ==> (#[trigger] v[i].spec_loc()).end <= v[i + 1].spec_loc().start
}

/// No token is a quoted group.
pub open spec fn plain(v: Seq<CommandBit>) -> bool {
    forall|i: int| 0 <= i < v.len() ==> !(#[trigger] v[i] is Quotes)
}

/// Each quoted group holds no quoted group.
pub open spec fn groups_plain(v: Seq<CommandBit>) -> bool {
    forall|i: int| 0 <= i < v.len() ==> (#[trigger] v[i] matches CommandBit::Quotes(w, _) ==> plain(w@))
}

/// The tokens are in order, and so are those of each quoted group, which
/// holds no quoted group: the shape that lexing gives.
pub open spec fn well_ordered(v: Seq<CommandBit>) -> bool {
    &&& in_order(v)
    &&& forall|i: int| 0 <= i < v.len() ==> (#[trigger] v[i] matches CommandBit::Quotes(w, _) ==> in_order(w@))
    &&& groups_plain(v)
}

/// What a stream must satisfy for the trees built from it to be well formed.
pub open spec fn ordered_for(v: Seq<CommandBit>, quoted: bool) -> bool {
    if quoted {
        in_order(v) && plain(v)
    } else {
        well_ordered(v)
    }
}

pub open spec fn all_wf(v: Seq<AstNode>) -> bool {
    forall|i: int| 0 <= i < v.len() ==> (#[trigger] v[i]).wf()
}

/// The range from the first node to the last.
pub open spec fn hull(v: Seq<AstNode>) -> Loc {
    Loc { start: v[0].loc().start, end: v[v.len() - 1].loc().end }
}

pub open spec fn outcome_wf(r: Outcome) -> bool {
    match r {
        Outcome::Node(n) => n.wf(),
        Outcome::Closed(n, _) => n.wf(),
        Outcome::Failed(_) => true,
    }
}

/// The `j`-th token of a quoted group.
pub open spec fn group_piece(b: CommandBit, j: int) -> Piece {
    match b {
        CommandBit::Quotes(w, _) => w@[j].piece(),
        _ => b.piece(),
    }
}

pub open spec fn group_len(b: CommandBit) -> int {
    match b {
        CommandBit::Quotes(w, _) => w@.len() as int,
        _ => 0,
    }
}

/// `p` is a token of `top`, or a token of one of its quoted groups.
pub open spec fn piece_in(top: Seq<CommandBit>, p: Piece) -> bool {
    ||| exists|i: int| 0 <= i < top.len() && #[trigger] top[i].piece() == p
    ||| exists|i: int, j: int|
        0 <= i < top.len() && 0 <= j < group_len(top[i]) && #[trigger] group_piece(top[i], j) == p
}

/// Every token of `toks` (and, outside quotes, of its quoted groups) is one
/// of `top`.
pub open spec fn within(toks: Seq<CommandBit>, top: Seq<CommandBit>, quoted: bool) -> bool {
    &&& forall|i: int|
        0 <= i < toks.len() ==> {
            &&& piece_in(top, #[trigger] toks[i].piece())
            &&& !quoted ==> forall|j: int|
                0 <= j < group_len(toks[i]) ==> piece_in(top, #[trigger] group_piece(toks[i], j))
        }
    &&& if quoted {
        plain(toks)
    } else {
        groups_plain(toks)
    }
}

/// Each node of the tree rests on tokens of `top`: a word is a word token
/// with the same text and range; a variable starts at a `$` token and ends
/// where a word token with its name ends; an expansion starts at a `$(`
/// token and ends where a `)` token ends; the operator range of a pipe or a
/// redirect is that of a pipe or redirection token.
pub open spec fn leaves_from(n: AstNode, top: Seq<CommandBit>) -> bool
    decreases n,
{
    match n {
        AstNode::Cmd(s, l) => piece_in(top, Piece::Word(s@, l)),
        AstNode::Variable(s, l) => exists|sg: Loc, nl: Loc|
            sg.start == l.start && nl.end == l.end && #[trigger] piece_in(top, Piece::Sigil(sg))
                && #[trigger] piece_in(top, Piece::Word(s@, nl)),
        AstNode::Expansion(b, l) => leaves_from(*b, top) && exists|lo: Loc, lc: Loc|
            lo.start == l.start && lc.end == l.end && #[trigger] piece_in(
                top,
                Piece::Control(OpenOrClose::OpenExpand, lo),
            ) && #[trigger] piece_in(top, Piece::Control(OpenOrClose::Close, lc)),
        AstNode::JustCmd(v, _) => forall|i: int| 0 <= i < v@.len() ==> leaves_from(#[trigger] v@[i], top),
        AstNode::Pipe(a, o, b, _) => piece_in(top, Piece::Pipe(o)) && leaves_from(*a, top) && leaves_from(
            *b,
            top,
        ),
        AstNode::Redirect(a, k, o, b, _) => piece_in(top, Piece::Redir(k, o)) && leaves_from(*a, top)
            && leaves_from(*b, top),
    }
}

pub open spec fn all_from(v: Seq<AstNode>, top: Seq<CommandBit>) -> bool {
    forall|i: int| 0 <= i < v.len() ==> leaves_from(#[trigger] v[i], top)
}

pub open spec fn outcome_from(r: Outcome, top: Seq<CommandBit>) -> bool {
    match r {
        Outcome::Node(n) => leaves_from(n, top),
        Outcome::Closed(n, l) => leaves_from(n, top) && piece_in(top, Piece::Control(OpenOrClose::Close, l)),
        Outcome::Failed(_) => true,
    }
}

/// A word, a variable or an expansion: what a command is made of.
pub open spec fn is_word_level(n: AstNode) -> bool {
    n is Cmd || n is Variable || n is Expansion
}

/// The shape that precedence gives the tree: a command holds word-level
/// nodes only; pipes associate to the left, so the right side of a pipe is
/// never a pipe; redirection binds tighter than a pipe, so the source of a
/// redirect is never a pipe; the target of a redirect is a command; an
/// expansion holds a whole command line.
pub open spec fn shaped(n: AstNode) -> bool
    decreases n,
{
    match n {
        AstNode::Cmd(..) => true,
        AstNode::Variable(..) => true,
        AstNode::Expansion(b, _) => !is_word_level(*b) && shaped(*b),
        AstNode::JustCmd(v, _) => forall|i: int|
            0 <= i < v@.len() ==> is_word_level(#[trigger] v@[i]) && shaped(v@[i]),
        AstNode::Pipe(a, _, b, _) => {
            &&& !is_word_level(*a)
            &&& !is_word_level(*b)
            &&& !(*b is Pipe)
            &&& shaped(*a)
            &&& shaped(*b)
        },
        AstNode::Redirect(a, _, _, b, _) => {
            &&& !is_word_level(*a)
            &&& !(*a is Pipe)
            &&& *b is JustCmd
            &&& shaped(*a)
            &&& shaped(*b)
        },
    }
}

/// A node that can stand first in a command line: a shaped node that is
/// not word-level and not a pipe.
pub open spec fn good_head(n: AstNode) -> bool {
    shaped(n) && !is_word_level(n) && !(n is Pipe)
}

pub open spec fn words_shaped(v: Seq<AstNode>) -> bool {
    forall|i: int| 0 <= i < v.len() ==> is_word_level(#[trigger] v[i]) && shaped(v[i])
}

pub open spec fn outcome_node(r: Outcome) -> Option<AstNode> {
    match r {
        Outcome::Node(n) => Some(n),
        Outcome::Closed(n, _) => Some(n),
        Outcome::Failed(_) => None,
    }
}

pub open spec fn outcome_shaped(r: Outcome) -> bool {
    outcome_node(r) matches Some(n) ==> shaped(n) && !is_word_level(n)
}

proof fn lemma_push_shaped(v: Seq<AstNode>, x: AstNode)
    requires
        words_shaped(v),
        is_word_level(x) && shaped(x),
    ensures
        words_shaped(v.push(x)),
{
    assert forall|i: int| 0 <= i < v.push(x).len() implies is_word_level(#[trigger] v.push(x)[i]) && shaped(
        v.push(x)[i],
    ) by {
        if i < v.len() {
            assert(v.push(x)[i] == v[i]);
        }
    }
}

/// The diagnostic for a `)` at `l` outside any substitution.
pub open spec fn stray_close(l: Loc) -> Error {
    Error { kind: ErrorType::UnexpectedClose, range: ErrRange { start: Some(l.start), end: Some(l.end) } }
}

/// Every token is a literal word.
pub open spec fn all_words(v: Seq<CommandBit>) -> bool {
    forall|i: int| 0 <= i < v.len() ==> #[trigger] v[i] is Str
}

/// `c` holds one word node for each word token of `v`, with its text and
/// range.
pub open spec fn cmds_match(v: Seq<CommandBit>, c: Seq<AstNode>) -> bool {
    &&& c.len() == v.len()
    &&& forall|i: int|
        0 <= i < v.len() ==> v[i] is Str && #[trigger] c[i] == AstNode::Cmd(v[i]->Str_0, v[i]->Str_1)
}

proof fn lemma_push_from(v: Seq<AstNode>, x: AstNode, top: Seq<CommandBit>)
    requires
        all_from(v, top),
        leaves_from(x, top),
    ensures
        all_from(v.push(x), top),
{
    assert forall|i: int| 0 <= i < v.push(x).len() implies leaves_from(#[trigger] v.push(x)[i], top) by {
        if i < v.len() {
            assert(v.push(x)[i] == v[i]);
        }
    }
}

proof fn lemma_push_wf(v: Seq<AstNode>, x: AstNode)
    requires
        all_wf(v),
        x.wf(),
    ensures
        all_wf(v.push(x)),
{
    assert forall|i: int| 0 <= i < v.push(x).len() implies (#[trigger] v.push(x)[i]).wf() by {
        if i < v.len() {
            assert(v.push(x)[i] == v[i]);
        }
    }
}

/// Adds a node to the words of a command.
fn push_node(children: &mut Vec<AstNode>, node: AstNode, Ghost(top): Ghost<Seq<CommandBit>>)
    ensures
        final(children)@ == old(children)@.push(node),
        all_wf(old(children)@) && node.wf() ==> all_wf(final(children)@),
        all_from(old(children)@, top) && leaves_from(node, top) ==> all_from(final(children)@, top),
        words_shaped(old(children)@) && is_word_level(node) && shaped(node) ==> words_shaped(
            final(children)@,
        ),
{
    proof {
        if words_shaped(old(children)@) && is_word_level(node) && shaped(node) {
            lemma_push_shaped(old(children)@, node);
        }
        if all_from(old(children)@, top) && leaves_from(node, top) {
            lemma_push_from(old(children)@, node, top);
        }
        if all_wf(old(children)@) && node.wf() {
            lemma_push_wf(old(children)@, node);
        }
    }
    children.push(node);
}

fn join(a: Loc, b: Loc) -> (r: Loc)
    ensures
        r.start == a.start,
        r.end == b.end,
{
    Loc { start: a.start, end: b.end }
}

/// Combines two nodes with the operator `op`.
fn combine(lhs: AstNode, op: &CommandBit, rhs: AstNode) -> (r: AstNode)
    requires
        op is Pipe || op is Redir,
    ensures
        lhs.wf() && rhs.wf() ==> r.wf(),
        forall|top: Seq<CommandBit>|
            leaves_from(lhs, top) && leaves_from(rhs, top) && piece_in(top, op.piece()) ==> #[trigger] leaves_from(
                r,
                top,
            ),
        op is Pipe ==> r is Pipe,
        op is Redir ==> r is Redirect,
        op is Pipe && shaped(lhs) && shaped(rhs) && !is_word_level(lhs) && !is_word_level(rhs) && !(
        rhs is Pipe) ==> shaped(r),
        op is Redir && good_head(lhs) && shaped(rhs) && rhs is JustCmd ==> shaped(r),
        r.loc().start == lhs.loc().start,
        r.loc().end == rhs.loc().end,
        forall|tl: Tree, tr: Tree|
            matches_tree(lhs, tl) && matches_tree(rhs, tr) ==> #[trigger] matches_tree(r, combine_t(tl, *op, tr)),
{
    let whole = join(lhs.get_loc(), rhs.get_loc());
    let r = match op {
        CommandBit::Redir(t, l) => AstNode::Redirect(Box::new(lhs), *t, *l, Box::new(rhs), whole),
        _ => AstNode::Pipe(Box::new(lhs), op.loc(), Box::new(rhs), whole),
    };
    assert forall|tl: Tree, tr: Tree|
        matches_tree(lhs, tl) && matches_tree(rhs, tr) implies #[trigger] matches_tree(r, combine_t(tl, *op, tr)) by {
        lemma_matches_loc(lhs, tl);
        lemma_matches_loc(rhs, tr);
    }
    r
}

/// Parses the whole token sequence into one node.
pub fn parse(tokens: &Vec<CommandBit>) -> (r: Result<AstNode, Error>)
    ensures
        match r {
            Ok(n) => s_parse(tokens@) matches Ok(t) && matches_tree(n, t),
            Err(e) => s_parse(tokens@) == Err::<Tree, Error>(e),
        },
        tokens@.len() == 0 ==> r == Err::<AstNode, Error>(
            Error { kind: ErrorType::ExpectedCommand, range: ErrRange { start: None, end: None } },
        ),
        well_ordered(tokens@) ==> (r matches Ok(n) ==> n.wf()),
        well_ordered(tokens@) ==> (r matches Ok(n) ==> leaves_from(n, tokens@)),
        r matches Ok(n) ==> shaped(n) && !is_word_level(n),
        tokens@.len() > 0 && all_words(tokens@) ==> (r matches Ok(AstNode::JustCmd(c, _)) && cmds_match(
            tokens@,
            c@,
        )),
        tokens@.len() > 0 && tokens@[0] is Control && tokens@[0]->Control_0 == OpenOrClose::Close ==> r
            == Err::<AstNode, Error>(stray_close(tokens@[0]->Control_1)),
        tokens@.len() > 0 && tokens@[0]@.is_op() ==> r == Err::<AstNode, Error>(
            Error { kind: ErrorType::ExpectedCommand, range: ErrRange { start: None, end: None } },
        ),
{
    proof {
        let top = tokens@;
        assert forall|i: int| 0 <= i < top.len() implies {
            &&& piece_in(top, #[trigger] top[i].piece())
            &&& forall|j: int|
                0 <= j < group_len(top[i]) ==> piece_in(top, #[trigger] group_piece(top[i], j))
        } by {
            assert(top[i].piece() == top[i].piece());
            assert forall|j: int| 0 <= j < group_len(top[i]) implies piece_in(
                top,
                #[trigger] group_piece(top[i], j),
            ) by {
                assert(group_piece(top[i], j) == group_piece(top[i], j));
            }
        }
        if well_ordered(top) {
            assert(within(top, top, false));
        }
    }
    let mut pos: usize = 0;
    assert(tokens@.subrange(0, tokens@.len() as int) =~= tokens@);
    match parse_expr(tokens, &mut pos, Ctx::Top, false, Ghost(tokens@)) {
        Outcome::Node(n) => {
            if pos < tokens.len() {
                Err(Error::new(ErrorType::TrailingInput, ErrRange::span(tokens[pos].loc())))
            } else {
                Ok(n)
            }
        },
        Outcome::Closed(_, l) => Err(Error::new(ErrorType::UnexpectedClose, ErrRange::span(l))),
        Outcome::Failed(e) => Err(e),
    }
}

/// A command followed by any operators: the same entry at the top level and
/// inside a substitution.
fn parse_expr(
    toks: &Vec<CommandBit>,
    pos: &mut usize,
    ctx: Ctx,
    quoted: bool,
    Ghost(top): Ghost<Seq<CommandBit>>,
) -> (r: Outcome)
    requires
        *old(pos) <= toks@.len(),
    ensures
        *old(pos) <= *final(pos) <= toks@.len(),
        toks@.len() == 0 && ctx == Ctx::Top ==> r == Outcome::Failed(
            Error { kind: ErrorType::ExpectedCommand, range: ErrRange { start: None, end: None } },
        ),
        ordered_for(toks@, quoted) ==> outcome_wf(r),
        within(toks@, top, quoted) ==> outcome_from(r, top),
        outcome_shaped(r),
        *old(pos) < toks@.len() && toks@[*old(pos) as int]@.is_op() ==> r == Outcome::Failed(
            Error { kind: ErrorType::ExpectedCommand, range: ErrRange { start: None, end: None } },
        ),
        ctx == Ctx::Top && *old(pos) < toks@.len() && toks@[*old(pos) as int] is Control
            && toks@[*old(pos) as int]->Control_0 == OpenOrClose::Close ==> r == Outcome::Failed(
            stray_close(toks@[*old(pos) as int]->Control_1),
        ),
        ctx == Ctx::Top && *old(pos) < toks@.len() && all_words(
            toks@.subrange(*old(pos) as int, toks@.len() as int),
        ) ==> *final(pos) == toks@.len() && (r matches Outcome::Node(AstNode::JustCmd(c, _)) && cmds_match(
            toks@.subrange(*old(pos) as int, toks@.len() as int),
            c@,
        )),
        ctx == Ctx::Top ==> !(r is Closed),
        out_matches(r, s_expr(toks@, *old(pos) as int, ctx, quoted).0),
        *final(pos) == s_expr(toks@, *old(pos) as int, ctx, quoted).1,
    decreases toks@, toks@.len() - *old(pos), 5int,
{
    let ghost sa = s_atom(toks@, *old(pos) as int, 0, ctx, quoted);
    match parse_atom(toks, pos, 0, ctx, quoted, Ghost(top)) {
        Outcome::Node(a) => parse_1(a, OperatorPrecedence::Pipe, toks, pos, ctx, quoted, Ghost(top), Ghost(sa.0->Node_0)),
        other => other,
    }
}

/// Folds the operators that follow `lhs`, as long as they bind at least as
/// tightly as `prec`; tighter operators are folded into the right-hand side
/// first, so pipes associate to the left and bind looser than redirection.
fn parse_1(
    first: AstNode,
    prec: OperatorPrecedence,
    toks: &Vec<CommandBit>,
    pos: &mut usize,
    ctx: Ctx,
    quoted: bool,
    Ghost(top): Ghost<Seq<CommandBit>>,
    Ghost(tf): Ghost<Tree>,
) -> (r: Outcome)
    requires
        *old(pos) <= toks@.len(),
        matches_tree(first, tf),
    ensures
        *old(pos) <= *final(pos) <= toks@.len(),
        out_matches(r, s_climb(tf, prec, toks@, *old(pos) as int, ctx, quoted).0),
        *final(pos) == s_climb(tf, prec, toks@, *old(pos) as int, ctx, quoted).1,
        ordered_for(toks@, quoted) && first.wf() ==> outcome_wf(r),
        within(toks@, top, quoted) && leaves_from(first, top) ==> outcome_from(r, top),
        good_head(first) ==> outcome_shaped(r),
        *old(pos) == toks@.len() ==> r == Outcome::Node(first),
        good_head(first) && prec.rank() >= 1 ==> (outcome_node(r) matches Some(n) ==> !(n is Pipe)),
        r is Node && *old(pos) < toks@.len() && toks@[*old(pos) as int]@.is_op() && !(prec.rank()
            > op_precedence(toks@[*old(pos) as int]@).rank()) ==> *old(pos) < *final(pos),
        ctx == Ctx::Top ==> !(r is Closed),
    decreases toks@, toks@.len() - *old(pos), 4 - prec.rank(),
{
    let ghost oks = good_head(first);
    let ghost entered = *old(pos) < toks@.len() && toks@[*old(pos) as int]@.is_op() && !(prec.rank()
        > op_precedence(toks@[*old(pos) as int]@).rank());
    let ghost ok = ordered_for(toks@, quoted) && first.wf();
    let ghost okf = within(toks@, top, quoted) && leaves_from(first, top);
    let mut lhs = first;
    let ghost mut tl = tf;
    while *pos < toks.len() && toks[*pos].is_op() && !prec.tighter_than(&toks[*pos].precedence())
        invariant
            *old(pos) <= *pos <= toks@.len(),
            ok == (ordered_for(toks@, quoted) && first.wf()),
            ok ==> lhs.wf(),
            okf == (within(toks@, top, quoted) && leaves_from(first, top)),
            okf ==> leaves_from(lhs, top),
            oks == good_head(first),
            oks ==> shaped(lhs) && !is_word_level(lhs),
            oks && lhs is Pipe ==> (*pos < toks@.len() && toks@[*pos as int]@.is_op() ==> toks@[*pos as int] is Pipe),
            oks && prec.rank() >= 1 ==> !(lhs is Pipe),
            entered == (*old(pos) < toks@.len() && toks@[*old(pos) as int]@.is_op() && !(prec.rank()
                > op_precedence(toks@[*old(pos) as int]@).rank())),
            *pos == *old(pos) ==> lhs == first,
            matches_tree(lhs, tl),
            s_climb(tl, prec, toks@, *pos as int, ctx, quoted) == s_climb(tf, prec, toks@, *old(pos) as int, ctx, quoted),
        decreases toks@.len() - *pos,
    {
        let ghost start = *pos;
        let op = &toks[*pos];
        *pos = *pos + 1;
        let op_prec = op.precedence();
        let ghost sa = s_atom(toks@, start + 1, max_of(*op), ctx, quoted);
        let max: u32 = match op.max_atom_length() {
            Some(m) => m,
            None => 0,
        };
        let mut rhs = match parse_atom(toks, pos, max, ctx, quoted, Ghost(top)) {
            Outcome::Node(n) => n,
            Outcome::Closed(n, l) => {
                return Outcome::Closed(combine(lhs, op, n), l);
            },
            Outcome::Failed(e) => {
                return Outcome::Failed(e);
            },
        };
        let ghost next_pos = *pos;
        let ghost trhs0 = sa.0->Node_0;
        let ghost mut trhs = trhs0;
        let ghost whole = s_climb(tl, prec, toks@, start as int, ctx, quoted);
        assert(!(s_fold(tl, *op, trhs0, toks@, next_pos as int, ctx, quoted).0 is Node) ==> whole == s_fold(
            tl,
            *op,
            trhs0,
            toks@,
            next_pos as int,
            ctx,
            quoted,
        ));
        while *pos < toks.len() && toks[*pos].is_op() && toks[*pos].precedence().tighter_than(
            &op_prec,
        ) && !op.expects_atom_after()
            invariant
                *old(pos) <= start < *pos <= toks@.len(),
                op is Pipe || op is Redir,
                op_prec == op_precedence(op@),
                ok == (ordered_for(toks@, quoted) && first.wf()),
                ok ==> lhs.wf() && rhs.wf(),
                okf == (within(toks@, top, quoted) && leaves_from(first, top)),
                okf ==> leaves_from(lhs, top) && leaves_from(rhs, top),
                oks == good_head(first),
                oks ==> shaped(lhs) && !is_word_level(lhs) && good_head(rhs),
                oks && op is Redir ==> !(lhs is Pipe) && rhs is JustCmd,
                oks && prec.rank() >= 1 ==> !(lhs is Pipe) && op is Redir,
                start + 1 <= next_pos <= *pos,
                *op == toks@[start as int],
                matches_tree(lhs, tl),
                matches_tree(rhs, trhs),
                s_fold(tl, *op, trhs, toks@, *pos as int, ctx, quoted) == s_fold(tl, *op, trhs0, toks@, next_pos as int, ctx, quoted),
                whole == s_climb(tf, prec, toks@, *old(pos) as int, ctx, quoted),
                !(s_fold(tl, *op, trhs0, toks@, next_pos as int, ctx, quoted).0 is Node) ==> whole == s_fold(
                    tl,
                    *op,
                    trhs0,
                    toks@,
                    next_pos as int,
                    ctx,
                    quoted,
                ),
            decreases toks@.len() - *pos,
        {
            let ghost pp = *pos;
            let ghost sc = s_climb(trhs, tighter(op_prec), toks@, pp as int, ctx, quoted);
            let nxt = op_prec.next();
            assert(nxt == tighter(op_prec));
            rhs = match parse_1(rhs, nxt, toks, pos, ctx, quoted, Ghost(top), Ghost(trhs)) {
                Outcome::Node(n) => {
                    proof {
                        trhs = sc.0->Node_0;
                    }
                    n
                },
                Outcome::Closed(n, l) => {
                    return Outcome::Closed(combine(lhs, op, n), l);
                },
                Outcome::Failed(e) => {
                    return Outcome::Failed(e);
                },
            };
        }
        lhs = combine(lhs, op, rhs);
        proof {
            tl = combine_t(tl, *op, trhs);
        }
    }
    Outcome::Node(lhs)
}

/// Gathers one command: a run of words, variables, quoted groups and
/// substitutions. When `max` is not 0, no further token is taken once `max`
/// word-level nodes are gathered (a quoted group, taken as one token, may
/// add several).
fn parse_atom(
    toks: &Vec<CommandBit>,
    pos: &mut usize,
    max: u32,
    ctx: Ctx,
    quoted: bool,
    Ghost(top): Ghost<Seq<CommandBit>>,
) -> (r: Outcome)
    requires
        *old(pos) <= toks@.len(),
    ensures
        *old(pos) <= *final(pos) <= toks@.len(),
        toks@.len() == 0 && ctx == Ctx::Top ==> r == Outcome::Failed(
            Error { kind: ErrorType::ExpectedCommand, range: ErrRange { start: None, end: None } },
        ),
        ordered_for(toks@, quoted) ==> outcome_wf(r),
        within(toks@, top, quoted) ==> outcome_from(r, top),
        outcome_node(r) matches Some(n) ==> n is JustCmd && shaped(n),
        *old(pos) < toks@.len() && toks@[*old(pos) as int]@.is_op() ==> r == Outcome::Failed(
            Error { kind: ErrorType::ExpectedCommand, range: ErrRange { start: None, end: None } },
        ),
        ctx == Ctx::Top && *old(pos) < toks@.len() && toks@[*old(pos) as int] is Control
            && toks@[*old(pos) as int]->Control_0 == OpenOrClose::Close ==> r == Outcome::Failed(
            stray_close(toks@[*old(pos) as int]->Control_1),
        ),
        max == 0 && ctx == Ctx::Top && *old(pos) < toks@.len() && all_words(
            toks@.subrange(*old(pos) as int, toks@.len() as int),
        ) ==> *final(pos) == toks@.len() && (r matches Outcome::Node(AstNode::JustCmd(c, _)) && cmds_match(
            toks@.subrange(*old(pos) as int, toks@.len() as int),
            c@,
        )),
        ctx == Ctx::Top ==> !(r is Closed),
        out_matches(r, s_atom(toks@, *old(pos) as int, max, ctx, quoted).0),
        *final(pos) == s_atom(toks@, *old(pos) as int, max, ctx, quoted).1,
    decreases toks@, toks@.len() - *old(pos), 1int,
{
    let ghost words = max == 0 && ctx == Ctx::Top && *old(pos) < toks@.len() && all_words(
        toks@.subrange(*old(pos) as int, toks@.len() as int),
    );
    let mut children: Vec<AstNode> = Vec::new();
    let ghost mut kids: Seq<Tree> = Seq::empty();
    proof {
        if words {
            assert(toks@.subrange(*old(pos) as int, *pos as int) =~= Seq::<CommandBit>::empty());
            assert(toks@.subrange(*old(pos) as int, toks@.len() as int)[0] == toks@[*pos as int]);
        }
    }
    while *pos < toks.len() && !toks[*pos].is_op()
        invariant
            *old(pos) <= *pos <= toks@.len(),
            toks@.len() == 0 ==> children@.len() == 0,
            ordered_for(toks@, quoted) ==> all_wf(children@),
            within(toks@, top, quoted) ==> all_from(children@, top),
            words_shaped(children@),
            *pos == *old(pos) ==> children@.len() == 0,
            *pos > *old(pos) ==> !toks@[*old(pos) as int]@.is_op(),
            words == (max == 0 && ctx == Ctx::Top && *old(pos) < toks@.len() && all_words(
                toks@.subrange(*old(pos) as int, toks@.len() as int),
            )),
            words ==> cmds_match(toks@.subrange(*old(pos) as int, *pos as int), children@),
            words && *pos < toks@.len() ==> toks@[*pos as int] is Str,
            *pos > *old(pos) ==> !(ctx == Ctx::Top && toks@[*old(pos) as int] is Control
                && toks@[*old(pos) as int]->Control_0 == OpenOrClose::Close),
            kids_match(children@, kids),
            s_atom_loop(kids, toks@, *pos as int, max, ctx, quoted) == s_atom(toks@, *old(pos) as int, max, ctx, quoted),
        ensures
            !(*pos < toks@.len() && !toks@[*pos as int]@.is_op() && !(max != 0 && children@.len() >= max)),
            words ==> *pos == toks@.len(),
            *old(pos) < toks@.len() && !toks@[*old(pos) as int]@.is_op() ==> *pos > *old(pos),
        decreases toks@.len() - *pos,
    {
        if max != 0 && children.len() >= max as usize {
            break ;
        }
        let tok = &toks[*pos];
        proof {
            if words {
                assert(toks@.subrange(*old(pos) as int, toks@.len() as int)[*pos - *old(pos)] == *tok);
            }
        }
        *pos = *pos + 1;
        let ghost before = children@;
        let ghost p0 = *pos;
        let ghost prev = kids;
        let h = parseatom_inner(tok, toks, pos, ctx, quoted, &mut children, Ghost(top), Ghost(kids));
        proof {
            kids = s_tok(toks@, p0 as int, ctx, quoted, prev).2;
        }
        match h {
            Handled::Added => {
                proof {
                    if words {
                        if *pos < toks@.len() {
                            assert(toks@.subrange(*old(pos) as int, toks@.len() as int)[*pos - *old(pos)]
                                == toks@[*pos as int]);
                        }
                        let a = toks@.subrange(*old(pos) as int, *pos - 1);
                        let b = toks@.subrange(*old(pos) as int, *pos as int);
                        assert(b =~= a.push(*tok));
                        assert forall|i: int| 0 <= i < b.len() implies b[i] is Str && #[trigger] children@[i]
                            == AstNode::Cmd(b[i]->Str_0, b[i]->Str_1) by {
                            if i < a.len() {
                                assert(b[i] == a[i]);
                                assert(children@[i] == before[i]);
                            }
                        }
                    }
                }
            },
            Handled::Closed(range, l) => {
                return Outcome::Closed(AstNode::JustCmd(children, range), l);
            },
            Handled::Failed(e) => {
                return Outcome::Failed(e);
            },
        }
    }
    proof {
        if words {
            assert(children@.len() == *pos - *old(pos));
        }
    }
    if ctx == Ctx::Substitution && *pos >= toks.len() {
        return Outcome::Failed(Error::new(ErrorType::UnmatchedSubstitution, ErrRange::none()));
    }
    if children.len() == 0 {
        return Outcome::Failed(Error::new(ErrorType::ExpectedCommand, ErrRange::none()));
    }
    proof {
        lemma_kids_hull(children@, kids);
    }
    let range = join(children[0].get_loc(), children[children.len() - 1].get_loc());
    Outcome::Node(AstNode::JustCmd(children, range))
}

/// Handles one token `tok` of a command, just taken from `toks`, adding its
/// nodes to `children`.
fn parseatom_inner(
    tok: &CommandBit,
    toks: &Vec<CommandBit>,
    pos: &mut usize,
    ctx: Ctx,
    quoted: bool,
    children: &mut Vec<AstNode>,
    Ghost(top): Ghost<Seq<CommandBit>>,
    Ghost(kids): Ghost<Seq<Tree>>,
) -> (r: Handled)
    requires
        0 < *old(pos) <= toks@.len(),
        *tok == toks@[*old(pos) - 1],
        kids_match(old(children)@, kids),
    ensures
        *old(pos) <= *final(pos) <= toks@.len(),
        handled_matches(r, s_tok(toks@, *old(pos) as int, ctx, quoted, kids).0),
        *final(pos) == s_tok(toks@, *old(pos) as int, ctx, quoted, kids).1,
        kids_match(final(children)@, s_tok(toks@, *old(pos) as int, ctx, quoted, kids).2),
        ordered_for(toks@, quoted) && all_wf(old(children)@) ==> all_wf(final(children)@),
        within(toks@, top, quoted) && all_from(old(children)@, top) ==> all_from(
            final(children)@,
            top,
        ),
        words_shaped(old(children)@) ==> words_shaped(final(children)@),
        within(toks@, top, quoted) ==> (r matches Handled::Closed(_, l) ==> piece_in(
            top,
            Piece::Control(OpenOrClose::Close, l),
        )),
        ctx == Ctx::Top && tok is Control && tok->Control_0 == OpenOrClose::Close ==> r
            == Handled::Failed(stray_close(tok->Control_1)),
        tok is Str ==> r is Added && *final(pos) == *old(pos) && final(children)@ == old(children)@.push(
            AstNode::Cmd(tok->Str_0, tok->Str_1),
        ),
        r matches Handled::Closed(range, _) ==> final(children)@.len() > 0 && range == hull(
            final(children)@,
        ),
        ctx == Ctx::Top ==> !(r is Closed),
    decreases toks@, toks@.len() - *old(pos) + 1, 0int,
{
    match tok {
        CommandBit::Str(s, l) => {
            proof {
                if ordered_for(toks@, quoted) {
                    assert(toks@[*old(pos) - 1].spec_loc() == *l);
                }
                if within(toks@, top, quoted) {
                    assert(toks@[*old(pos) - 1].piece() == Piece::Word(s@, *l));
                }
            }
            let node = AstNode::Cmd(s.clone(), *l);
            proof {
                lemma_kids_push(children@, kids, node, Tree::Word(s@, *l));
            }
            push_node(children, node, Ghost(top));
            Handled::Added
        },
        CommandBit::Dollar(l) => {
            if *pos < toks.len() {
                match &toks[*pos] {
                    CommandBit::Str(name, nl) => {
                        proof {
                            if ordered_for(toks@, quoted) {
                                let i = *old(pos) - 1;
                                assert(toks@[i].spec_loc() == *l);
                                assert(toks@[i + 1].spec_loc() == *nl);
                            }
                            if within(toks@, top, quoted) {
                                let i = *old(pos) as int;
                                assert(toks@[i].piece() == Piece::Word(name@, *nl));
                                assert(piece_in(top, Piece::Word(name@, *nl)));
                            }
                        }
                        *pos = *pos + 1;
                        let var = AstNode::Variable(name.clone(), join(*l, *nl));
                        proof {
                            if within(toks@, top, quoted) {
                                let w = Piece::Word(name@, *nl);
                                assert(piece_in(top, w));
                                let vs = var->Variable_0;
                                let vl = var->Variable_1;
                                assert(vs@ == name@);
                                assert(vl.end == nl.end);
                                assert(piece_in(top, Piece::Word(vs@, *nl)));
                                assert(toks@[*old(pos) - 1].piece() == Piece::Sigil(*l));
                                assert(piece_in(top, Piece::Sigil(*l)));
                                assert(vl.start == l.start);
                                assert(leaves_from(var, top));
                            }
                        }
                        proof {
                            lemma_kids_push(children@, kids, var, Tree::Var(name@, span_of(*l, *nl)));
                        }
                        push_node(children, var, Ghost(top));
                        return Handled::Added;
                    },
                    _ => {},
                }
            }
            Handled::Failed(Error::new(ErrorType::MissingIdentifier, ErrRange::at(l.end)))
        },
        CommandBit::Control(OpenOrClose::Close, l) => {
            if ctx == Ctx::Top {
                Handled::Failed(Error::new(ErrorType::UnexpectedClose, ErrRange::span(*l)))
            } else if children.len() == 0 {
                Handled::Failed(Error::new(ErrorType::ExpectedCommand, ErrRange::span(*l)))
            } else {
                proof {
                    lemma_kids_hull(children@, kids);
                    if within(toks@, top, quoted) {
                        assert(toks@[*old(pos) - 1].piece() == Piece::Control(OpenOrClose::Close, *l));
                    }
                }
                Handled::Closed(join(children[0].get_loc(), children[children.len() - 1].get_loc()), *l)
            }
        },
        CommandBit::Control(OpenOrClose::OpenExpand, l) => {
            match parse_expr(toks, pos, Ctx::Substitution, quoted, Ghost(top)) {
                Outcome::Closed(n, close) => {
                    let ghost tn = s_expr(toks@, *old(pos) as int, Ctx::Substitution, quoted).0->Closed_0;
                    let node = AstNode::Expansion(Box::new(n), join(*l, close));
                    proof {
                        if within(toks@, top, quoted) {
                            assert(toks@[*old(pos) - 1].piece() == Piece::Control(OpenOrClose::OpenExpand, *l));
                            assert(piece_in(top, Piece::Control(OpenOrClose::OpenExpand, *l)));
                            assert(piece_in(top, Piece::Control(OpenOrClose::Close, close)));
                            assert(leaves_from(node, top));
                        }
                        lemma_kids_push(children@, kids, node, Tree::Expansion(Box::new(tn), span_of(*l, close)));
                    }
                    push_node(children, node, Ghost(top));
                    Handled::Added
                },
                Outcome::Node(n) => {
                    if *pos < toks.len() {
                        match &toks[*pos] {
                            CommandBit::Control(OpenOrClose::Close, close) => {
                                let ghost tn = s_expr(toks@, *old(pos) as int, Ctx::Substitution, quoted).0->Node_0;
                                *pos = *pos + 1;
                                let node = AstNode::Expansion(Box::new(n), join(*l, *close));
                                proof {
                                    if within(toks@, top, quoted) {
                                        assert(toks@[*old(pos) - 1].piece() == Piece::Control(
                                            OpenOrClose::OpenExpand,
                                            *l,
                                        ));
                                        assert(piece_in(top, Piece::Control(OpenOrClose::OpenExpand, *l)));
                                        assert(toks@[*pos - 1].piece() == Piece::Control(OpenOrClose::Close, *close));
                                        assert(piece_in(top, Piece::Control(OpenOrClose::Close, *close)));
                                        assert(leaves_from(node, top));
                                    }
                                    lemma_kids_push(
                                        children@,
                                        kids,
                                        node,
                                        Tree::Expansion(Box::new(tn), span_of(*l, *close)),
                                    );
                                }
                                push_node(children, node, Ghost(top));
                                Handled::Added
                            },
                            other => Handled::Failed(
                                Error::new(ErrorType::TrailingInput, ErrRange::span(other.loc())),
                            ),
                        }
                    } else {
                        Handled::Failed(Error::new(ErrorType::UnmatchedSubstitution, ErrRange::none()))
                    }
                },
                Outcome::Failed(e) => Handled::Failed(e),
            }
        },
        CommandBit::Quotes(group, _) => {
            proof {
                let i = *old(pos) - 1;
                assert(decreases_to!(toks@ => toks@[i]));
                assert(decreases_to!(toks@ => group@));
                if quoted {
                    assert(toks@[i] is Quotes);
                    assert(!ordered_for(toks@, quoted));
                    assert(!within(toks@, top, quoted));
                }
                if ordered_for(toks@, quoted) {
                    assert(toks@[i] matches CommandBit::Quotes(w, _) ==> in_order(w@) && plain(w@));
                    assert(ordered_for(group@, true));
                }
                if within(toks@, top, quoted) {
                    let i = *old(pos) - 1;
                    assert forall|j: int| 0 <= j < group@.len() implies piece_in(top, #[trigger] group@[j].piece()) by {
                        assert(group_piece(toks@[i], j) == group@[j].piece());
                    }
                    assert(toks@[i] matches CommandBit::Quotes(w, _) ==> plain(w@));
                    assert(within(group@, top, true));
                }
            }
            assert(s_tok(toks@, *old(pos) as int, ctx, quoted, kids) == (
                s_group(group@, 0, ctx, kids).0,
                *old(pos) as int,
                s_group(group@, 0, ctx, kids).1,
            ));
            let mut k: usize = 0;
            let ghost mut gk = kids;
            while k < group.len()
                invariant
                    kids_match(children@, gk),
                    s_group(group@, k as int, ctx, gk) == s_group(group@, 0, ctx, kids),
                    s_tok(toks@, *old(pos) as int, ctx, quoted, kids) == (
                        s_group(group@, 0, ctx, kids).0,
                        *old(pos) as int,
                        s_group(group@, 0, ctx, kids).1,
                    ),
                    *pos == *old(pos),
                    decreases_to!(toks@ => group@),
                    within(toks@, top, quoted) ==> within(group@, top, true),
                    k <= group@.len(),
                    *old(pos) <= *pos <= toks@.len(),
                    *tok == toks@[*old(pos) - 1],
                    tok matches CommandBit::Quotes(g, _) && g == group,
                    ordered_for(toks@, quoted) && all_wf(old(children)@) ==> all_wf(children@)
                        && ordered_for(group@, true),
                    within(toks@, top, quoted) && all_from(old(children)@, top) ==> all_from(
                        children@,
                        top,
                    ) && within(group@, top, true),
                    words_shaped(old(children)@) ==> words_shaped(children@),
                decreases group@.len() - k,
            {
                let t = &group[k];
                let ghost kb = k;
                k = k + 1;
                if t.is_op() {
                    return Handled::Failed(Error::new(ErrorType::TrailingInput, ErrRange::span(t.loc())));
                }
                let ghost k0 = k;
                let ghost prev = gk;
                let h = parseatom_inner(t, group, &mut k, ctx, true, children, Ghost(top), Ghost(gk));
                proof {
                    gk = s_tok(group@, k0 as int, ctx, true, prev).2;
                }
                match h {
                    Handled::Added => {},
                    Handled::Closed(range, l) => {
                        return Handled::Closed(range, l);
                    },
                    Handled::Failed(e) => {
                        return Handled::Failed(e);
                    },
                }
            }
            Handled::Added
        },
        _ => Handled::Failed(Error::new(ErrorType::TrailingInput, ErrRange::span(tok.loc()))),
    }
}

} // verus!

verus! {

/// Each node of the tree matches the bytes of `s` it covers: a word's range
/// holds its text with escapes resolved; a variable starts at a `$` and
/// ends with bytes that hold its name; an expansion starts at `$(` and ends
/// with `)`; the operator range of a pipe holds `|`, and that of a redirect
/// `>` or `2>`.
pub open spec fn leaves_match(n: AstNode, s: Seq<char>) -> bool
    decreases n,
{
    match n {
        AstNode::Cmd(t, l) => piece_from_source(s, Piece::Word(t@, l)),
        AstNode::Variable(t, l) => exists|sg: Loc, nl: Loc|
            sg.start == l.start && nl.end == l.end && #[trigger] piece_from_source(s, Piece::Sigil(sg))
                && #[trigger] piece_from_source(s, Piece::Word(t@, nl)),
        AstNode::Expansion(b, l) => leaves_match(*b, s) && exists|lo: Loc, lc: Loc|
            lo.start == l.start && lc.end == l.end && #[trigger] piece_from_source(
                s,
                Piece::Control(OpenOrClose::OpenExpand, lo),
            ) && #[trigger] piece_from_source(s, Piece::Control(OpenOrClose::Close, lc)),
        AstNode::JustCmd(v, _) => forall|i: int| 0 <= i < v@.len() ==> leaves_match(#[trigger] v@[i], s),
        AstNode::Pipe(a, o, b, _) => piece_from_source(s, Piece::Pipe(o)) && leaves_match(*a, s)
            && leaves_match(*b, s),
        AstNode::Redirect(a, k, o, b, _) => piece_from_source(s, Piece::Redir(k, o)) && leaves_match(*a, s)
            && leaves_match(*b, s),
    }
}

proof fn lemma_piece_in_source(s: Seq<char>, v: Seq<CommandBit>, p: Piece)
    requires
        s.len() <= usize::MAX,
        lex(s) == Ok::<Seq<Tok>, Error>(toks(v)),
        piece_in(v, p),
    ensures
        piece_from_source(s, p),
{
    lemma_words_match_source(s);
    let ts = toks(v);
    assert(ts.len() == v.len());
    assert(lex(s) is Ok);
    assert(lex(s)->Ok_0 == ts);
    if exists|i: int| 0 <= i < v.len() && #[trigger] v[i].piece() == p {
        let i = choose|i: int| 0 <= i < v.len() && #[trigger] v[i].piece() == p;
        assert(tok_from_source(s, ts[i]));
        if !(v[i] is Quotes) {
            assert(ts[i] == Tok::One(v[i].piece()));
        } else {
            assert(!(p is Word));
        }
        assert(piece_from_source(s, p));
    } else {
        let (i, j) = choose|i: int, j: int|
            0 <= i < v.len() && 0 <= j < group_len(v[i]) && #[trigger] group_piece(v[i], j) == p;
        assert(tok_from_source(s, ts[i]));
        match v[i] {
            CommandBit::Quotes(w, l) => {
                assert(ts[i] == Tok::Group(pieces(w@), l));
                assert(pieces(w@)[j] == w@[j].piece());
                assert(pieces(w@).len() == w@.len());
                assert(0 <= j < w@.len());
                let ps = pieces(w@);
                assert(tok_from_source(s, Tok::Group(ps, l)));
                lemma_group_piece_from_source(s, ps, l, j);
                assert(group_piece(v[i], j) == w@[j].piece());
                assert(piece_from_source(s, pieces(w@)[j]));
            },
            _ => {},
        }
        assert(piece_from_source(s, p));
    }
}

/// Round trip of ranges: for a tree that rests on the tokens lexing gave for
/// `s` (as `parse` ensures of its result), slicing `s` by each node's range
/// gives back that node's source: a word's text with escapes resolved, `$`
/// and the name of a variable, `$(` ... `)` around an expansion, the
/// operator of a pipe or redirect. With `split`'s tokens in order, `parse`
/// also ensures that ranges nest along the tree (`AstNode::wf`).
pub proof fn lemma_tree_matches_source(s: Seq<char>, v: Seq<CommandBit>, n: AstNode)
    requires
        s.len() <= usize::MAX,
        lex(s) == Ok::<Seq<Tok>, Error>(toks(v)),
        leaves_from(n, v),
    ensures
        leaves_match(n, s),
    decreases n,
{
    match n {
        AstNode::Cmd(t, l) => {
            lemma_piece_in_source(s, v, Piece::Word(t@, l));
        },
        AstNode::Variable(t, l) => {
            let (sg, nl) = choose|sg: Loc, nl: Loc|
                sg.start == l.start && nl.end == l.end && #[trigger] piece_in(v, Piece::Sigil(sg))
                    && #[trigger] piece_in(v, Piece::Word(t@, nl));
            lemma_piece_in_source(s, v, Piece::Sigil(sg));
            lemma_piece_in_source(s, v, Piece::Word(t@, nl));
        },
        AstNode::Expansion(b, l) => {
            lemma_tree_matches_source(s, v, *b);
            let (lo, lc) = choose|lo: Loc, lc: Loc|
                lo.start == l.start && lc.end == l.end && #[trigger] piece_in(
                    v,
                    Piece::Control(OpenOrClose::OpenExpand, lo),
                ) && #[trigger] piece_in(v, Piece::Control(OpenOrClose::Close, lc));
            lemma_piece_in_source(s, v, Piece::Control(OpenOrClose::OpenExpand, lo));
            lemma_piece_in_source(s, v, Piece::Control(OpenOrClose::Close, lc));
        },
        AstNode::JustCmd(c, _) => {
            assert forall|i: int| 0 <= i < c@.len() implies leaves_match(#[trigger] c@[i], s) by {
                lemma_tree_matches_source(s, v, c@[i]);
            }
        },
        AstNode::Pipe(a, o, b, _) => {
            lemma_piece_in_source(s, v, Piece::Pipe(o));
            lemma_tree_matches_source(s, v, *a);
            lemma_tree_matches_source(s, v, *b);
        },
        AstNode::Redirect(a, k, o, b, _) => {
            lemma_piece_in_source(s, v, Piece::Redir(k, o));
            lemma_tree_matches_source(s, v, *a);
            lemma_tree_matches_source(s, v, *b);
        },
    }
}


} // verus!

verus! {

/// Input made only of whitespace lexes to no tokens, and parsing those
/// tokens fails with "expected a command", pointing at the end of the input.
pub proof fn lemma_blank_input_expects_a_command(s: Seq<char>)
    requires
        crate::lexer::all_blank(s),
    ensures
        lex(s) == Ok::<Seq<Tok>, Error>(Seq::empty()),
        s_parse(Seq::empty()) == Err::<Tree, Error>(
            Error { kind: ErrorType::ExpectedCommand, range: ErrRange { start: None, end: None } },
        ),
{
    crate::lexer::lemma_blank_input_has_no_tokens(s);
    assert(Seq::<Tok>::empty().map_values(|t: Tok| crate::lexer::rebase_tok(s, t)) =~= Seq::<Tok>::empty());
    let e: Seq<CommandBit> = Seq::empty();
    assert(s_atom_loop(Seq::empty(), e, 0, 0, Ctx::Top, false).0 == crate::syntax::SOut::Failed(
        Error { kind: ErrorType::ExpectedCommand, range: ErrRange { start: None, end: None } },
    ));
}

} // verus!
