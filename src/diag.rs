//! Source positions and positioned diagnostics.

use vstd::prelude::*;

verus! {

/// A half-open range `[start, end)` of byte offsets into the input (its
/// UTF-8 encoding).
#[derive(Clone, Copy, Debug, PartialEq, Eq, Structural)]
pub struct Loc {
    pub start: usize,
    pub end: usize,
}

impl Loc {
    pub open spec fn wf(self) -> bool {
        self.start <= self.end
    }
}

/// Where a diagnostic points. An absent `start` means the end of the input;
/// an absent `end` means a single position.
#[derive(Clone, Copy, Debug, PartialEq, Eq, Structural)]
pub struct ErrRange {
    pub start: Option<usize>,
    pub end: Option<usize>,
}

impl ErrRange {
    /// Points at the end of the input.
    pub fn none() -> (r: ErrRange)
        ensures
            r.start is None,
            r.end is None,
    {
        ErrRange { start: None, end: None }
    }

    /// Points at a single position.
    pub fn at(pos: usize) -> (r: ErrRange)
        ensures
            r.start == Some(pos),
            r.end is None,
    {
        ErrRange { start: Some(pos), end: None }
    }

    /// Covers a range.
    pub fn span(loc: Loc) -> (r: ErrRange)
        ensures
            r.start == Some(loc.start),
            r.end == Some(loc.end),
    {
        ErrRange { start: Some(loc.start), end: Some(loc.end) }
    }
}

/// The kinds of diagnostic that lexing and parsing produce.
#[derive(Clone, Copy, Debug, PartialEq, Eq, Structural)]
pub enum ErrorType {
    /// A `\` is the last character of the input.
    ExpectedEscapedChar,
    /// A quote is still open at the end of the input.
    UnterminatedQuote,
    /// A `$` is not followed by a word naming the variable.
    MissingIdentifier,
    /// A command was expected and no word was found.
    ExpectedCommand,
    /// The input ended inside a `$(...)`.
    UnmatchedSubstitution,
    /// A `)` outside any substitution.
    UnexpectedClose,
    /// Tokens are left over after a complete parse.
    TrailingInput,
}

/// The text of each kind of diagnostic.
pub open spec fn message_of(kind: ErrorType) -> Seq<char> {
    match kind {
        ErrorType::ExpectedEscapedChar => "expected a character after escape"@,
        ErrorType::UnterminatedQuote => "unterminated quote"@,
        ErrorType::MissingIdentifier => "missing identifier after variable sigil"@,
        ErrorType::ExpectedCommand => "expected a command"@,
        ErrorType::UnmatchedSubstitution => "unmatched substitution"@,
        ErrorType::UnexpectedClose => "unexpected closing token"@,
        ErrorType::TrailingInput => "unexpected trailing input"@,
    }
}

impl ErrorType {
    pub fn message(&self) -> (r: &'static str)
        ensures
            r@ == message_of(*self),
    {
        match self {
            ErrorType::ExpectedEscapedChar => "expected a character after escape",
            ErrorType::UnterminatedQuote => "unterminated quote",
            ErrorType::MissingIdentifier => "missing identifier after variable sigil",
            ErrorType::ExpectedCommand => "expected a command",
            ErrorType::UnmatchedSubstitution => "unmatched substitution",
            ErrorType::UnexpectedClose => "unexpected closing token",
            ErrorType::TrailingInput => "unexpected trailing input",
        }
    }
}

/// A positioned diagnostic.
#[derive(Clone, Copy, Debug, PartialEq, Eq, Structural)]
pub struct Error {
    pub kind: ErrorType,
    pub range: ErrRange,
}

/// `n` copies of `c`.
pub open spec fn repeat(c: char, n: nat) -> Seq<char> {
    Seq::new(n, |_i: int| c)
}

/// The column where the caret line starts.
pub open spec fn caret_start(range: ErrRange, len: nat) -> nat {
    match range.start {
        Some(s) => s as nat,
        None => len,
    }
}

/// How many columns the underline spans; no more than the rest of the input
/// when the range ends before it starts.
pub open spec fn caret_len(range: ErrRange, len: nat) -> nat {
    let start = caret_start(range, len);
    match range.end {
        None => 0,
        Some(e) => if e < start {
            if start <= len {
                (len - start) as nat
            } else {
                0
            }
        } else {
            (e - start) as nat
        },
    }
}

/// The underline: a caret, dashes, and a closing caret when the range has a
/// length.
pub open spec fn underline(rlen: nat) -> Seq<char> {
    seq!['^'] + repeat('-', if rlen > 2 { (rlen - 2) as nat } else { 0 }) + if rlen > 0 {
        seq!['^']
    } else {
        Seq::<char>::empty()
    }
}

/// The rendering of `e` against `input`, whose length is `nbytes` bytes:
/// the input, a line that marks the range (columns count bytes; an absent
/// start is the end of the input), and the message under the start of the
/// range.
pub open spec fn rendered(e: Error, input: Seq<char>, nbytes: nat) -> Seq<char> {
    let start = caret_start(e.range, nbytes);
    let rlen = caret_len(e.range, nbytes);
    input + seq!['\n'] + repeat(' ', start) + underline(rlen) + seq!['\n'] + repeat(' ', start)
        + message_of(e.kind) + " :3"@
}

/// Relies on `String::push`: appends one character.
pub assume_specification[ String::push ](s: &mut String, ch: char)
    ensures
        final(s)@ == old(s)@.push(ch),
;

/// Appends `n` copies of `c` to `st`.
fn push_repeat(st: &mut String, c: char, n: usize)
    ensures
        final(st)@ == old(st)@ + repeat(c, n as nat),
{
    let mut k: usize = 0;
    while k < n
        invariant
            k <= n,
            st@ == old(st)@ + repeat(c, k as nat),
        decreases n - k,
    {
        st.push(c);
        k = k + 1;
        assert(st@ =~= old(st)@ + repeat(c, k as nat));
    }
    assert(st@ =~= old(st)@ + repeat(c, n as nat));
}

/// The underline for a range of `rlen` columns, then the message under
/// column `start`.
fn marker_lines(start: usize, rlen: usize, kind: ErrorType) -> (r: String)
    ensures
        r@ == underline(rlen as nat) + seq!['\n'] + repeat(' ', start as nat) + message_of(kind)
            + " :3"@,
{
    let dashes: usize = if rlen > 2 {
        rlen - 2
    } else {
        0
    };
    let mut line = String::new();
    line.push('^');
    push_repeat(&mut line, '-', dashes);
    if rlen > 0 {
        line.push('^');
    }
    assert(line@ =~= underline(rlen as nat));
    let ghost ul = line@;
    line.push('\n');
    push_repeat(&mut line, ' ', start);
    let msg = kind.message();
    line.append(msg);
    line.append(" :3");
    assert(line@ =~= ul + seq!['\n'] + repeat(' ', start as nat) + msg@ + " :3"@);
    line
}

impl Error {
    pub fn new(kind: ErrorType, range: ErrRange) -> (r: Error)
        ensures
            r.kind == kind,
            r.range == range,
    {
        Error { kind, range }
    }

    /// Renders the diagnostic against the input it was found in.
    pub fn display(&self, input: &str) -> (r: String)
        ensures
            r@ == rendered(*self, input@, input.len() as nat),
    {
        let len = input.len();
        let start: usize = match self.range.start {
            Some(s) => s,
            None => len,
        };
        let rlen: usize = match self.range.end {
            None => 0,
            Some(e) => if e < start {
                if start <= len {
                    len - start
                } else {
                    0
                }
            } else {
                e - start
            },
        };
        let mut st = String::from_str(input);
        st.push('\n');
        push_repeat(&mut st, ' ', start);
        let ghost head = st@;
        assert(head == input@ + seq!['\n'] + repeat(' ', start as nat));
        let line = marker_lines(start, rlen, self.kind);
        st.append(line.as_str());
        assert(st@ =~= rendered(*self, input@, input.len() as nat));
        st
    }
}

} // verus!
