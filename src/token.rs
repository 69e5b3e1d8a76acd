//! Tokens ("command bits") and the precedence of operators.

use vstd::prelude::*;
use crate::diag::Loc;

verus! {

/// The stream that a redirection applies to.
#[derive(Clone, Copy, Debug, PartialEq, Eq, Structural)]
pub enum RedirType {
    Stdout,
    Stderr,
}

/// The two substitution control markers: `$(` and `)`.
#[derive(Clone, Copy, Debug, PartialEq, Eq, Structural)]
pub enum OpenOrClose {
    OpenExpand,
    Close,
}

/// One lexical unit, with its range in the input.
#[derive(Debug)]
pub enum CommandBit {
    /// A literal word fragment, escapes already resolved.
    Str(String, Loc),
    /// The tokens between a pair of matching quotes; the range covers the
    /// quotes.
    Quotes(Vec<CommandBit>, Loc),
    Pipe(Loc),
    Redir(RedirType, Loc),
    /// A `$` not followed by `(`.
    Dollar(Loc),
    Control(OpenOrClose, Loc),
}

/// What a token holds, for a token that is not a quoted group.
pub enum Piece {
    Word(Seq<char>, Loc),
    Pipe(Loc),
    Redir(RedirType, Loc),
    Sigil(Loc),
    Control(OpenOrClose, Loc),
    /// A quoted group inside a quoted group, which lexing never produces.
    Nested(Loc),
}

/// What a token holds.
pub enum Tok {
    One(Piece),
    Group(Seq<Piece>, Loc),
}

impl Piece {
    pub open spec fn loc(self) -> Loc {
        match self {
            Piece::Word(_, l) => l,
            Piece::Pipe(l) => l,
            Piece::Redir(_, l) => l,
            Piece::Sigil(l) => l,
            Piece::Control(_, l) => l,
            Piece::Nested(l) => l,
        }
    }
}

impl Tok {
    pub open spec fn loc(self) -> Loc {
        match self {
            Tok::One(p) => p.loc(),
            Tok::Group(_, l) => l,
        }
    }

    /// Pipe and redirection are the operators.
    pub open spec fn is_op(self) -> bool {
        self matches Tok::One(p) && (p is Pipe || p is Redir)
    }
}

impl CommandBit {
    /// The token seen as a piece of a quoted group.
    pub open spec fn piece(&self) -> Piece {
        match self {
            CommandBit::Str(s, l) => Piece::Word(s@, *l),
            CommandBit::Quotes(_, l) => Piece::Nested(*l),
            CommandBit::Pipe(l) => Piece::Pipe(*l),
            CommandBit::Redir(t, l) => Piece::Redir(*t, *l),
            CommandBit::Dollar(l) => Piece::Sigil(*l),
            CommandBit::Control(c, l) => Piece::Control(*c, *l),
        }
    }

    pub open spec fn view(&self) -> Tok {
        match self {
            CommandBit::Quotes(v, l) => Tok::Group(pieces(v@), *l),
            _ => Tok::One(self.piece()),
        }
    }

    pub open spec fn spec_loc(&self) -> Loc {
        match self {
            CommandBit::Str(_, l) => *l,
            CommandBit::Quotes(_, l) => *l,
            CommandBit::Pipe(l) => *l,
            CommandBit::Redir(_, l) => *l,
            CommandBit::Dollar(l) => *l,
            CommandBit::Control(_, l) => *l,
        }
    }

    /// Whether the token is an operator (a pipe or a redirection).
    pub fn is_op(&self) -> (r: bool)
        ensures
            r == self@.is_op(),
            r == (self is Pipe || self is Redir),
    {
        match self {
            CommandBit::Pipe(..) | CommandBit::Redir(..) => true,
            _ => false,
        }
    }

    /// The precedence of an operator, or of a word: a pipe binds loosest,
    /// a redirection tighter, and a bare word tightest.
    pub fn precedence(&self) -> (r: OperatorPrecedence)
        requires
            self is Pipe || self is Redir || self is Str,
        ensures
            r == op_precedence(self@),
            self is Pipe ==> r == OperatorPrecedence::Pipe,
            self is Redir ==> r == OperatorPrecedence::Redirect,
            self is Str ==> r == OperatorPrecedence::Command,
    {
        match self {
            CommandBit::Pipe(..) => OperatorPrecedence::Pipe,
            CommandBit::Redir(..) => OperatorPrecedence::Redirect,
            _ => OperatorPrecedence::Command,
        }
    }

    /// Whether an operator takes exactly one atom after it.
    pub fn expects_atom_after(&self) -> (r: bool)
        requires
            self is Pipe || self is Redir,
        ensures
            r == (self is Redir),
    {
        match self {
            CommandBit::Pipe(..) => false,
            _ => true,
        }
    }

    /// The most words the atom after an operator may hold, if bounded.
    pub fn max_atom_length(&self) -> (r: Option<u32>)
        requires
            self is Pipe || self is Redir,
        ensures
            r == (if self is Redir { Some(1u32) } else { None::<u32> }),
    {
        match self {
            CommandBit::Pipe(..) => None,
            _ => Some(1),
        }
    }

    /// The token's range.
    pub fn loc(&self) -> (r: Loc)
        ensures
            r == self.spec_loc(),
            r == self@.loc(),
    {
        match self {
            CommandBit::Str(_, l) => *l,
            CommandBit::Quotes(_, l) => *l,
            CommandBit::Pipe(l) => *l,
            CommandBit::Redir(_, l) => *l,
            CommandBit::Dollar(l) => *l,
            CommandBit::Control(_, l) => *l,
        }
    }
}

/// What a bare word stands for: the operator that it spells, or else a
/// literal word.
pub open spec fn bit_of(text: String, loc: Loc) -> CommandBit {
    if text@ == "|"@ {
        CommandBit::Pipe(loc)
    } else if text@ == ">"@ {
        CommandBit::Redir(RedirType::Stdout, loc)
    } else if text@ == "2>"@ {
        CommandBit::Redir(RedirType::Stderr, loc)
    } else {
        CommandBit::Str(text, loc)
    }
}

impl From<(String, Loc)> for CommandBit {
    fn from(value: (String, Loc)) -> (r: CommandBit) {
        let (text, loc) = value;
        if text == String::from_str("|") {
            CommandBit::Pipe(loc)
        } else if text == String::from_str(">") {
            CommandBit::Redir(RedirType::Stdout, loc)
        } else if text == String::from_str("2>") {
            CommandBit::Redir(RedirType::Stderr, loc)
        } else {
            CommandBit::Str(text, loc)
        }
    }
}

impl vstd::std_specs::convert::FromSpecImpl<(String, Loc)> for CommandBit {
    open spec fn obeys_from_spec() -> bool {
        true
    }

    open spec fn from_spec(v: (String, Loc)) -> CommandBit {
        bit_of(v.0, v.1)
    }
}

/// The pieces of the tokens of a quoted group.
pub open spec fn pieces(v: Seq<CommandBit>) -> Seq<Piece> {
    v.map_values(|b: CommandBit| b.piece())
}

/// The views of a sequence of tokens.
pub open spec fn toks(v: Seq<CommandBit>) -> Seq<Tok> {
    v.map_values(|b: CommandBit| b@)
}

/// How tightly an operator binds: pipe loosest, bare command words tightest.
#[derive(Clone, Copy, Debug, PartialEq, Eq, Structural)]
pub enum OperatorPrecedence {
    Pipe,
    Redirect,
    Command,
}

impl OperatorPrecedence {
    pub open spec fn rank(self) -> nat {
        match self {
            OperatorPrecedence::Pipe => 0,
            OperatorPrecedence::Redirect => 1,
            OperatorPrecedence::Command => 2,
        }
    }

    /// The next tighter level.
    pub fn next(&self) -> (r: OperatorPrecedence)
        requires
            !(*self is Command),
        ensures
            r.rank() == self.rank() + 1,
    {
        match self {
            OperatorPrecedence::Pipe => OperatorPrecedence::Redirect,
            _ => OperatorPrecedence::Command,
        }
    }

    /// Whether `self` binds strictly tighter than `o`.
    pub fn tighter_than(&self, o: &OperatorPrecedence) -> (r: bool)
        ensures
            r == (self.rank() > o.rank()),
    {
        self.as_rank() > o.as_rank()
    }

    fn as_rank(&self) -> (r: u8)
        ensures
            r as nat == self.rank(),
    {
        match self {
            OperatorPrecedence::Pipe => 0,
            OperatorPrecedence::Redirect => 1,
            OperatorPrecedence::Command => 2,
        }
    }
}

/// The precedence of an operator token.
pub open spec fn op_precedence(t: Tok) -> OperatorPrecedence {
    match t {
        Tok::One(Piece::Pipe(_)) => OperatorPrecedence::Pipe,
        Tok::One(Piece::Redir(_, _)) => OperatorPrecedence::Redirect,
        _ => OperatorPrecedence::Command,
    }
}

} // verus!
