//! The lexer: one left-to-right pass over the characters of the input.
//!
//! What the lexer does is stated as a state machine over the characters of
//! the input (`lex_from`, one character or two at a time), which counts
//! positions in characters (`lex_chars`); `lex` is its result with every
//! range and position turned into a byte offset of the UTF-8 encoding
//! (`byte_pos`). `split` is proved to produce exactly `lex`.

use vstd::prelude::*;
use crate::diag::{ErrRange, Error, ErrorType, Loc};
use crate::parser::{in_order, plain, well_ordered};
use crate::token::{CommandBit, OpenOrClose, Piece, RedirType, Tok, pieces, toks};
use vstd::std_specs::iter::IteratorSpec;

verus! {

/// Unicode's `White_Space` property.
pub open spec fn is_white_space(c: char) -> bool {
    let u = c as u32;
    ||| 0x9 <= u <= 0xD
    ||| u == 0x20
    ||| u == 0x85
    ||| u == 0xA0
    ||| u == 0x1680
    ||| 0x2000 <= u <= 0x200A
    ||| u == 0x2028
    ||| u == 0x2029
    ||| u == 0x202F
    ||| u == 0x205F
    ||| u == 0x3000
}

/// Relies on `char::is_whitespace`: true exactly for the characters with
/// Unicode's `White_Space` property.
pub assume_specification[ char::is_whitespace ](c: char) -> (r: bool)
    ensures
        r == is_white_space(c),
;

pub open spec fn all_blank(b: Seq<char>) -> bool {
    forall|k: int| 0 <= k < b.len() ==> is_white_space(#[trigger] b[k])
}

/// The range `[a, b)`.
pub open spec fn span(a: int, b: int) -> Loc {
    Loc { start: a as usize, end: b as usize }
}

/// The state of the scan between two steps.
pub struct LexState {
    /// The tokens emitted so far outside quotes.
    pub out: Seq<Tok>,
    /// The tokens emitted so far inside the open quote.
    pub inner: Seq<Piece>,
    /// The literal run being accumulated, escapes resolved.
    pub buf: Seq<char>,
    /// Where the literal run started.
    pub run: int,
    /// The open quote character, if any.
    pub quote: Option<char>,
    /// Where the open quote mark stands.
    pub qstart: int,
    /// How many substitutions opened inside the open quote are not closed.
    pub depth: nat,
}

pub open spec fn initial() -> LexState {
    LexState {
        out: Seq::empty(),
        inner: Seq::empty(),
        buf: Seq::empty(),
        run: 0,
        quote: None,
        qstart: 0,
        depth: 0,
    }
}

/// Emits a piece into the current collection: the quoted group if a quote
/// is open, else the output.
pub open spec fn emit(st: LexState, p: Piece) -> LexState {
    if st.quote is Some {
        LexState { inner: st.inner.push(p), ..st }
    } else {
        LexState { out: st.out.push(Tok::One(p)), ..st }
    }
}

/// Ends the literal run at `i`: it is emitted if it covers any input,
/// except that outside quotes a purely blank run is dropped.
pub open spec fn flush(st: LexState, i: int) -> LexState {
    if st.run == i {
        st
    } else {
        let st2 = if st.quote is Some || !all_blank(st.buf) {
            emit(st, Piece::Word(st.buf, span(st.run, i)))
        } else {
            st
        };
        LexState { buf: Seq::empty(), ..st2 }
    }
}

/// The literal run starts afresh at `j`.
pub open spec fn restart(st: LexState, j: int) -> LexState {
    LexState { run: j, ..st }
}

/// Flushes at `i`, emits `p`, and starts a new run at `j`.
pub open spec fn emit_at(st: LexState, i: int, j: int, p: Piece) -> LexState {
    restart(emit(flush(st, i), p), j)
}

pub open spec fn append(st: LexState, c: char) -> LexState {
    LexState { buf: st.buf.push(c), ..st }
}

/// One step at position `i < s.len()`: where the scan goes on, and the new
/// state, or a diagnostic.
pub open spec fn step(s: Seq<char>, i: int, st: LexState) -> Result<(int, LexState), Error> {
    let c = s[i];
    let has_next = i + 1 < s.len();
    let quoted = st.quote is Some;
    if c == '$' && has_next && s[i + 1] == '(' {
        let e = emit_at(st, i, i + 2, Piece::Control(OpenOrClose::OpenExpand, span(i, i + 2)));
        Ok((i + 2, LexState { depth: if quoted { e.depth + 1 } else { e.depth }, ..e }))
    } else if c == '$' {
        Ok((i + 1, emit_at(st, i, i + 1, Piece::Sigil(span(i, i + 1)))))
    } else if c == '|' && !quoted {
        Ok((i + 1, emit_at(st, i, i + 1, Piece::Pipe(span(i, i + 1)))))
    } else if c == ')' && (!quoted || st.depth > 0) {
        let e = emit_at(st, i, i + 1, Piece::Control(OpenOrClose::Close, span(i, i + 1)));
        Ok((i + 1, LexState { depth: if quoted { (e.depth - 1) as nat } else { e.depth }, ..e }))
    } else if c == '\\' {
        if has_next {
            Ok((i + 2, if s[i + 1] == '\n' { st } else { append(st, s[i + 1]) }))
        } else {
            Err(Error { kind: ErrorType::ExpectedEscapedChar, range: ErrRange { start: Some(i as usize), end: None } })
        }
    } else if c == '2' && has_next && s[i + 1] == '>' && !quoted {
        Ok((i + 2, emit_at(st, i, i + 2, Piece::Redir(RedirType::Stderr, span(i, i + 2)))))
    } else if c == '>' && !quoted {
        Ok((i + 1, emit_at(st, i, i + 1, Piece::Redir(RedirType::Stdout, span(i, i + 1)))))
    } else if c == '"' || c == '\'' {
        match st.quote {
            None => {
                let f = flush(st, i);
                Ok((i + 1, LexState {
                    inner: Seq::empty(),
                    run: i + 1,
                    quote: Some(c),
                    qstart: i,
                    depth: 0,
                    ..f
                }))
            },
            Some(q) => if q == c {
                let f = flush(st, i);
                Ok((i + 1, LexState {
                    out: f.out.push(Tok::Group(f.inner, span(st.qstart, i + 1))),
                    inner: Seq::empty(),
                    run: i + 1,
                    quote: None,
                    ..f
                }))
            } else {
                Ok((i + 1, append(st, c)))
            },
        }
    } else if is_white_space(c) && !quoted {
        Ok((i + 1, restart(flush(st, i), i + 1)))
    } else {
        Ok((i + 1, append(st, c)))
    }
}

/// The end of the input: the last run is flushed; a quote still open is a
/// diagnostic.
pub open spec fn finish(s: Seq<char>, st: LexState) -> Result<Seq<Tok>, Error> {
    match st.quote {
        Some(_) => Err(Error { kind: ErrorType::UnterminatedQuote, range: ErrRange { start: Some(st.qstart as usize), end: None } }),
        None => Ok(flush(st, s.len() as int).out),
    }
}

/// The scan from position `i` in state `st` to the end.
pub open spec fn lex_from(s: Seq<char>, i: int, st: LexState) -> Result<Seq<Tok>, Error>
    decreases s.len() - i,
{
    if i < 0 || i >= s.len() {
        finish(s, st)
    } else {
        match step(s, i, st) {
            Ok((j, st2)) => if i < j {
                lex_from(s, j, st2)
            } else {
                finish(s, st2)
            },
            Err(e) => Err(e),
        }
    }
}

/// The tokens of the input `s`, or the first diagnostic.
pub open spec fn lex_chars(s: Seq<char>) -> Result<Seq<Tok>, Error> {
    lex_from(s, 0, initial())
}

/// Every token of `v` ends by `p`.
spec fn fits_after(v: Seq<CommandBit>, p: int) -> bool {
    v.len() > 0 ==> v[v.len() - 1].spec_loc().end <= p
}

proof fn lemma_push_in_order(v: Seq<CommandBit>, b: CommandBit)
    requires
        in_order(v),
        b.spec_loc().start <= b.spec_loc().end,
        fits_after(v, b.spec_loc().start as int),
    ensures
        in_order(v.push(b)),
        fits_after(v.push(b), b.spec_loc().end as int),
{
    let w = v.push(b);
    assert forall|i: int| 0 <= i < w.len() implies (#[trigger] w[i].spec_loc()).start <= w[i].spec_loc().end by {
        if i < v.len() {
            assert(w[i] == v[i]);
        }
    }
    assert forall|i: int| 0 <= i < w.len() - 1 implies (#[trigger] w[i].spec_loc()).end <= w[i
        + 1].spec_loc().start by {
        if i < v.len() - 1 {
            assert(w[i] == v[i]);
            assert(w[i + 1] == v[i + 1]);
            assert(v[i].spec_loc().end <= v[i + 1].spec_loc().start);
        }
    }
}

/// The scan's state, held by `split`.
struct Lexer {
    out: Vec<CommandBit>,
    inner: Vec<CommandBit>,
    buf: String,
    blank: bool,
    run: usize,
    quote: Option<char>,
    qstart: usize,
    depth: usize,
}

impl Lexer {
    spec fn view(&self) -> LexState {
        LexState {
            out: toks(self.out@),
            inner: pieces(self.inner@),
            buf: self.buf@,
            run: self.run as int,
            quote: self.quote,
            qstart: self.qstart as int,
            depth: self.depth as nat,
        }
    }

    /// The collection that tokens go to.
    spec fn target(&self) -> Seq<CommandBit> {
        if self.quote is Some {
            self.inner@
        } else {
            self.out@
        }
    }

    spec fn base(&self) -> bool {
        &&& self.blank == all_blank(self.buf@)
        &&& self.quote is None ==> self.inner@.len() == 0
        &&& in_order(self.out@)
        &&& in_order(self.inner@)
        &&& forall|k: int| 0 <= k < self.inner@.len() ==> !(#[trigger] self.inner@[k] is Quotes)
        &&& forall|k: int|
            0 <= k < self.out@.len() ==> (#[trigger] self.out@[k] matches CommandBit::Quotes(w, _)
                ==> in_order(w@) && plain(w@))
        &&& self.quote is Some ==> fits_after(self.out@, self.qstart as int)
    }

    spec fn inv(&self) -> bool {
        &&& self.base()
        &&& fits_after(self.target(), self.run as int)
        &&& self.quote is Some ==> self.qstart < self.run
    }

    fn emit(&mut self, b: CommandBit)
        requires
            !(b is Quotes),
            old(self).base(),
            b.spec_loc().start <= b.spec_loc().end,
            fits_after(old(self).target(), b.spec_loc().start as int),
        ensures
            final(self)@ == emit(old(self)@, b.piece()),
            final(self).base(),
            fits_after(final(self).target(), b.spec_loc().end as int),
            final(self).run == old(self).run,
            final(self).qstart == old(self).qstart,
            final(self).quote == old(self).quote,
    {
        proof {
            lemma_push_in_order(self.target(), b);
        }
        proof {
            assert(b@ == Tok::One(b.piece()));
        }
        if self.quote.is_some() {
            self.inner.push(b);
            assert(pieces(self.inner@) =~= pieces(old(self).inner@).push(b.piece()));
            assert forall|k: int| 0 <= k < self.inner@.len() implies !(#[trigger] self.inner@[k] is Quotes) by {
                if k < old(self).inner@.len() {
                    assert(self.inner@[k] == old(self).inner@[k]);
                }
            }
        } else {
            self.out.push(b);
            assert(toks(self.out@) =~= toks(old(self).out@).push(b@));
            assert forall|k: int| 0 <= k < self.out@.len() implies (#[trigger] self.out@[k] matches CommandBit::Quotes(w, _)
                ==> in_order(w@) && plain(w@)) by {
                if k < old(self).out@.len() {
                    assert(self.out@[k] == old(self).out@[k]);
                }
            }
        }
    }

    fn flush(&mut self, i: usize)
        requires
            old(self).inv(),
            old(self).run <= i,
        ensures
            final(self).base(),
            fits_after(final(self).target(), i as int),
            final(self)@ == flush(old(self)@, i as int),
            final(self).quote == old(self).quote,
            final(self).qstart == old(self).qstart,
            final(self).run == old(self).run,
    {
        if self.run != i {
            let keep = self.quote.is_some() || !self.blank;
            let mut text = String::new();
            core::mem::swap(&mut text, &mut self.buf);
            self.blank = true;
            assert(self.buf@ =~= Seq::<char>::empty());
            if keep {
                self.emit(CommandBit::Str(text, Loc { start: self.run, end: i }));
            }
            assert(self@ =~= flush(old(self)@, i as int));
        }
    }

    fn append(&mut self, c: char)
        requires
            old(self).inv(),
        ensures
            final(self).inv(),
            final(self)@ == append(old(self)@, c),
            final(self).run == old(self).run,
    {
        self.buf.push(c);
        self.blank = self.blank && c.is_whitespace();
        assert(all_blank(self.buf@) == (all_blank(old(self).buf@) && is_white_space(c))) by {
            if all_blank(self.buf@) {
                assert forall|k: int| 0 <= k < old(self).buf@.len() implies is_white_space(
                    #[trigger] old(self).buf@[k],
                ) by {
                    assert(self.buf@[k] == old(self).buf@[k]);
                }
                assert(self.buf@[self.buf@.len() - 1] == c);
            }
        }
    }

    /// Flushes at `i`, emits `b`, and starts a new run at `j`.
    fn emit_at(&mut self, i: usize, j: usize, b: CommandBit)
        requires
            old(self).inv(),
            !(b is Quotes),
            old(self).run <= i <= j,
            b.spec_loc() == (Loc { start: i, end: j }),
        ensures
            final(self).inv(),
            final(self)@ == emit_at(old(self)@, i as int, j as int, b.piece()),
            final(self).quote == old(self).quote,
    {
        self.flush(i);
        self.emit(b);
        self.run = j;
    }
}

/// The characters of the input, in order.
fn chars_of(t: &str) -> (v: Vec<char>)
    ensures
        v@ == t@,
{
    broadcast use vstd::string::axiom_spec_iter, vstd::string::next_postcondition;

    let mut it = t.chars();
    let mut v: Vec<char> = Vec::new();
    loop
        invariant
            v@ + it.remaining() == t@,
            it.obeys_prophetic_iter_laws(),
            it.decrease() is Some,
        ensures
            v@ == t@,
        decreases it.decrease()->0,
    {
        match it.next() {
            Some(c) => {
                v.push(c);
            },
            None => {
                assert(it.remaining().len() == 0);
                assert(v@ =~= t@);
                break ;
            },
        }
    }
    v
}

/// Lexes the characters of the input, with ranges counted in characters.
fn split_chars(chars: &Vec<char>) -> (r: Result<Vec<CommandBit>, Error>)
    ensures
        match r {
            Ok(v) => lex_chars(chars@) == Ok::<Seq<Tok>, Error>(toks(v@)),
            Err(e) => lex_chars(chars@) == Err::<Seq<Tok>, Error>(e),
        },
        r matches Ok(v) ==> well_ordered(v@),
{
    let ghost s = chars@;
    let n = chars.len();
    let mut lx = Lexer {
        out: Vec::new(),
        inner: Vec::new(),
        buf: String::new(),
        blank: true,
        run: 0,
        quote: None,
        qstart: 0,
        depth: 0,
    };
    assert(toks(lx.out@) =~= Seq::<Tok>::empty());
    assert(pieces(lx.inner@) =~= Seq::<Piece>::empty());
    assert(lx@ =~= initial());
    let mut i: usize = 0;
    while i < n
        invariant
            lx.inv(),
            i <= n,
            n == s.len(),
            chars@ == s,
            lx.depth <= i,
            lx.run <= i,
            lex_chars(s) == lex_from(s, i as int, lx@),
        decreases n - i,
    {
        let c = chars[i];
        let has_next = i + 1 < n;
        let quoted = lx.quote.is_some();
        let ghost before = lx@;
        let j: usize;
        if c == '$' && has_next && chars[i + 1] == '(' {
            lx.emit_at(i, i + 2, CommandBit::Control(OpenOrClose::OpenExpand, Loc { start: i, end: i + 2 }));
            if quoted {
                lx.depth = lx.depth + 1;
            }
            j = i + 2;
            assert(step(s, i as int, before) == Ok::<(int, LexState), Error>((j as int, lx@)));
        } else if c == '$' {
            lx.emit_at(i, i + 1, CommandBit::Dollar(Loc { start: i, end: i + 1 }));
            j = i + 1;
            assert(step(s, i as int, before) == Ok::<(int, LexState), Error>((j as int, lx@)));
        } else if c == '|' && !quoted {
            lx.emit_at(i, i + 1, CommandBit::Pipe(Loc { start: i, end: i + 1 }));
            j = i + 1;
            assert(step(s, i as int, before) == Ok::<(int, LexState), Error>((j as int, lx@)));
        } else if c == ')' && (!quoted || lx.depth > 0) {
            lx.emit_at(i, i + 1, CommandBit::Control(OpenOrClose::Close, Loc { start: i, end: i + 1 }));
            if quoted {
                lx.depth = lx.depth - 1;
            }
            j = i + 1;
            assert(step(s, i as int, before) == Ok::<(int, LexState), Error>((j as int, lx@)));
        } else if c == '\\' {
            if has_next {
                let d = chars[i + 1];
                if d != '\n' {
                    lx.append(d);
                }
                j = i + 2;
                assert(step(s, i as int, before) == Ok::<(int, LexState), Error>((j as int, lx@)));
            } else {
                return Err(Error::new(ErrorType::ExpectedEscapedChar, ErrRange::at(i)));
            }
        } else if c == '2' && has_next && chars[i + 1] == '>' && !quoted {
            lx.emit_at(i, i + 2, CommandBit::Redir(RedirType::Stderr, Loc { start: i, end: i + 2 }));
            j = i + 2;
            assert(step(s, i as int, before) == Ok::<(int, LexState), Error>((j as int, lx@)));
        } else if c == '>' && !quoted {
            lx.emit_at(i, i + 1, CommandBit::Redir(RedirType::Stdout, Loc { start: i, end: i + 1 }));
            j = i + 1;
            assert(step(s, i as int, before) == Ok::<(int, LexState), Error>((j as int, lx@)));
        } else if c == '"' || c == '\'' {
            match lx.quote {
                None => {
                    lx.flush(i);
                    lx.inner = Vec::new();
                    lx.run = i + 1;
                    lx.quote = Some(c);
                    lx.qstart = i;
                    lx.depth = 0;
                    assert(pieces(lx.inner@) =~= Seq::<Piece>::empty());
                },
                Some(q) => {
                    if q == c {
                        lx.flush(i);
                        let mut group: Vec<CommandBit> = Vec::new();
                        core::mem::swap(&mut group, &mut lx.inner);
                        lx.out.push(CommandBit::Quotes(group, Loc { start: lx.qstart, end: i + 1 }));
                        lx.run = i + 1;
                        lx.quote = None;
                        assert(toks(lx.out@) =~= flush(before, i as int).out.push(
                            Tok::Group(flush(before, i as int).inner, span(before.qstart, i + 1)),
                        ));
                        assert(pieces(lx.inner@) =~= Seq::<Piece>::empty());
                    } else {
                        lx.append(c);
                    }
                },
            }
            j = i + 1;
            assert(step(s, i as int, before) == Ok::<(int, LexState), Error>((j as int, lx@)));
        } else if c.is_whitespace() && !quoted {
            lx.flush(i);
            lx.run = i + 1;
            j = i + 1;
            assert(step(s, i as int, before) == Ok::<(int, LexState), Error>((j as int, lx@)));
        } else {
            lx.append(c);
            j = i + 1;
        }
        assert(step(s, i as int, before) == Ok::<(int, LexState), Error>((j as int, lx@)));
        i = j;
    }
    if lx.quote.is_some() {
        return Err(Error::new(ErrorType::UnterminatedQuote, ErrRange::at(lx.qstart)));
    }
    lx.flush(n);
    Ok(lx.out)
}

} // verus!

verus! {

/// The state of a scan over blank input that has reached `i`.
spec fn blank_state(i: int) -> LexState {
    LexState { run: i, ..initial() }
}

proof fn lemma_blank_from(s: Seq<char>, i: int)
    requires
        all_blank(s),
        0 <= i <= s.len(),
    ensures
        lex_from(s, i, blank_state(i)) == Ok::<Seq<Tok>, Error>(Seq::empty()),
    decreases s.len() - i,
{
    if i < s.len() {
        let c = s[i];
        assert(is_white_space(c));
        assert(step(s, i, blank_state(i)) == Ok::<(int, LexState), Error>((i + 1, blank_state(i + 1))));
        lemma_blank_from(s, i + 1);
    }
}

/// Input made only of whitespace lexes to no tokens at all.
pub proof fn lemma_blank_input_has_no_tokens(s: Seq<char>)
    requires
        all_blank(s),
    ensures
        lex_chars(s) == Ok::<Seq<Tok>, Error>(Seq::empty()),
{
    lemma_blank_from(s, 0);
    assert(blank_state(0) == initial());
}

} // verus!

verus! {

/// The text that `t` stands for: each `\` takes the character after it
/// literally, and a `\` before a newline stands for nothing.
pub open spec fn unescape(t: Seq<char>) -> Seq<char>
    decreases t.len(),
{
    if t.len() == 0 {
        t
    } else if t[0] == '\\' && t.len() >= 2 {
        (if t[1] == '\n' {
            Seq::<char>::empty()
        } else {
            seq![t[1]]
        }) + unescape(t.subrange(2, t.len() as int))
    } else {
        seq![t[0]] + unescape(t.subrange(1, t.len() as int))
    }
}

/// `t` does not end in the middle of an escape.
pub open spec fn aligned(t: Seq<char>) -> bool
    decreases t.len(),
{
    if t.len() == 0 {
        true
    } else if t[0] == '\\' {
        t.len() >= 2 && aligned(t.subrange(2, t.len() as int))
    } else {
        aligned(t.subrange(1, t.len() as int))
    }
}

proof fn lemma_unescape_concat(a: Seq<char>, b: Seq<char>)
    requires
        aligned(a),
    ensures
        unescape(a + b) == unescape(a) + unescape(b),
        aligned(b) ==> aligned(a + b),
    decreases a.len(),
{
    let ab = a + b;
    if a.len() == 0 {
        assert(ab =~= b);
        assert(unescape(a) + unescape(b) =~= unescape(b));
    } else if a[0] == '\\' {
        assert(ab[0] == '\\' && ab[1] == a[1]);
        let rest = a.subrange(2, a.len() as int);
        assert(ab.subrange(2, ab.len() as int) =~= rest + b);
        lemma_unescape_concat(rest, b);
        let head = if a[1] == '\n' {
            Seq::<char>::empty()
        } else {
            seq![a[1]]
        };
        assert(unescape(ab) == head + unescape(rest + b));
        assert(unescape(a) == head + unescape(rest));
        assert(head + (unescape(rest) + unescape(b)) =~= (head + unescape(rest)) + unescape(b));
    } else {
        assert(ab[0] == a[0]);
        let rest = a.subrange(1, a.len() as int);
        assert(ab.subrange(1, ab.len() as int) =~= rest + b);
        lemma_unescape_concat(rest, b);
        assert(seq![a[0]] + (unescape(rest) + unescape(b)) =~= (seq![a[0]] + unescape(rest))
            + unescape(b));
    }
}

/// A word piece whose text is its source with escapes resolved.
pub open spec fn piece_from_chars(s: Seq<char>, p: Piece) -> bool {
    match p {
        Piece::Word(t, l) => {
            &&& l.start <= l.end <= s.len()
            &&& t == unescape(s.subrange(l.start as int, l.end as int))
        },
        Piece::Nested(_) => true,
        _ => {
            let l = p.loc();
            l.start <= l.end <= s.len() && s.subrange(l.start as int, l.end as int) == op_text(p)
        },
    }
}

/// The source text of an operator, a sigil or a substitution marker.
pub open spec fn op_text(p: Piece) -> Seq<char> {
    match p {
        Piece::Pipe(_) => seq!['|'],
        Piece::Redir(RedirType::Stdout, _) => seq!['>'],
        Piece::Redir(RedirType::Stderr, _) => seq!['2', '>'],
        Piece::Sigil(_) => seq!['$'],
        Piece::Control(OpenOrClose::OpenExpand, _) => seq!['$', '('],
        Piece::Control(OpenOrClose::Close, _) => seq![')'],
        _ => Seq::empty(),
    }
}

pub open spec fn pieces_from_chars(s: Seq<char>, ps: Seq<Piece>) -> bool {
    forall|k: int| 0 <= k < ps.len() ==> piece_from_chars(s, #[trigger] ps[k])
}

pub open spec fn tok_from_chars(s: Seq<char>, t: Tok) -> bool {
    match t {
        Tok::One(p) => piece_from_chars(s, p),
        Tok::Group(ps, _) => pieces_from_chars(s, ps),
    }
}

/// What holds of the scan's state at position `i`.
spec fn state_from_source(s: Seq<char>, i: int, st: LexState) -> bool {
    &&& 0 <= st.run <= i <= s.len()
    &&& s.len() <= usize::MAX
    &&& st.buf == unescape(s.subrange(st.run, i))
    &&& aligned(s.subrange(st.run, i))
    &&& forall|k: int| 0 <= k < st.out.len() ==> tok_from_chars(s, #[trigger] st.out[k])
    &&& forall|k: int| 0 <= k < st.inner.len() ==> piece_from_chars(s, #[trigger] st.inner[k])
}

/// The collections after `emit` still hold only words from their source.
proof fn lemma_emit_from_source(s: Seq<char>, i: int, st: LexState, p: Piece)
    requires
        state_from_source(s, i, st),
        piece_from_chars(s, p),
    ensures
        forall|k: int| 0 <= k < emit(st, p).out.len() ==> tok_from_chars(s, #[trigger] emit(st, p).out[k]),
        forall|k: int| 0 <= k < emit(st, p).inner.len() ==> piece_from_chars(s, #[trigger] emit(st, p).inner[k]),
{
    let e = emit(st, p);
    assert forall|k: int| 0 <= k < e.out.len() implies tok_from_chars(s, #[trigger] e.out[k]) by {
        if k < st.out.len() {
            assert(e.out[k] == st.out[k]);
        }
    }
    assert forall|k: int| 0 <= k < e.inner.len() implies piece_from_chars(s, #[trigger] e.inner[k]) by {
        if k < st.inner.len() {
            assert(e.inner[k] == st.inner[k]);
        }
    }
}

/// After a flush at `i`, the collections hold only words from their source.
proof fn lemma_flush_from_source(s: Seq<char>, i: int, st: LexState)
    requires
        state_from_source(s, i, st),
    ensures
        forall|k: int| 0 <= k < flush(st, i).out.len() ==> tok_from_chars(s, #[trigger] flush(st, i).out[k]),
        forall|k: int| 0 <= k < flush(st, i).inner.len() ==> piece_from_chars(s, #[trigger] flush(st, i).inner[k]),
{
    if st.run != i {
        let p = Piece::Word(st.buf, span(st.run, i));
        assert(piece_from_chars(s, p));
        lemma_emit_from_source(s, i, st, p);
    }
}

/// Starting afresh at `j` after a flush at `i`.
proof fn lemma_restart_from_source(s: Seq<char>, i: int, j: int, st: LexState, p: Piece)
    requires
        state_from_source(s, i, st),
        piece_from_chars(s, p),
        i <= j <= s.len(),
    ensures
        state_from_source(s, j, restart(emit(flush(st, i), p), j)),
{
    lemma_flush_from_source(s, i, st);
    let f = flush(st, i);
    let f2 = LexState { run: i, buf: Seq::empty(), ..f };
    assert(s.subrange(i, i) =~= Seq::<char>::empty());
    assert(state_from_source(s, i, f2));
    lemma_emit_from_source(s, i, f2, p);
    let r = restart(emit(flush(st, i), p), j);
    assert(s.subrange(j, j) =~= Seq::<char>::empty());
    assert(r.buf == Seq::<char>::empty());
    assert(r.out == emit(f2, p).out);
    assert(r.inner == emit(f2, p).inner);
}

/// Starting afresh at `j` after a flush at `i`, with nothing emitted.
proof fn lemma_skip_from_source(s: Seq<char>, i: int, j: int, st: LexState)
    requires
        state_from_source(s, i, st),
        i <= j <= s.len(),
    ensures
        state_from_source(s, j, restart(flush(st, i), j)),
{
    lemma_flush_from_source(s, i, st);
    assert(s.subrange(j, j) =~= Seq::<char>::empty());
    assert(flush(st, i).buf == Seq::<char>::empty() || st.run == i);
    if st.run == i {
        assert(s.subrange(i, i) =~= Seq::<char>::empty());
    }
}

/// Appending the literal character at `i`.
proof fn lemma_append_from_source(s: Seq<char>, i: int, st: LexState)
    requires
        state_from_source(s, i, st),
        i < s.len(),
        s[i] != '\\',
    ensures
        state_from_source(s, i + 1, append(st, s[i])),
{
    let a = s.subrange(st.run, i);
    let b = s.subrange(i, i + 1);
    assert(b[0] == s[i]);
    assert(b.subrange(1, 1) =~= Seq::<char>::empty());
    assert(b.len() == 1);
    assert(unescape(b.subrange(1, 1)) =~= Seq::<char>::empty());
    assert(unescape(b) =~= seq![s[i]]);
    assert(aligned(b.subrange(1, 1)));
    assert(aligned(b));
    lemma_unescape_concat(a, b);
    assert(s.subrange(st.run, i + 1) =~= a + b);
    assert(append(st, s[i]).buf =~= unescape(a) + unescape(b));
    assert(aligned(a + b));
}

/// Taking the escape at `i` and the character after it.
proof fn lemma_escape_from_source(s: Seq<char>, i: int, st: LexState)
    requires
        state_from_source(s, i, st),
        i + 1 < s.len(),
        s[i] == '\\',
    ensures
        state_from_source(s, i + 2, if s[i + 1] == '\n' { st } else { append(st, s[i + 1]) }),
{
    let a = s.subrange(st.run, i);
    let b = s.subrange(i, i + 2);
    assert(b[0] == '\\' && b[1] == s[i + 1]);
    assert(b.subrange(2, 2) =~= Seq::<char>::empty());
    assert(b.len() == 2);
    assert(unescape(b.subrange(2, 2)) =~= Seq::<char>::empty());
    assert(aligned(b.subrange(2, 2)));
    assert(aligned(b));
    if s[i + 1] == '\n' {
        assert(unescape(b) =~= Seq::<char>::empty());
    } else {
        assert(unescape(b) =~= seq![s[i + 1]]);
    }
    lemma_unescape_concat(a, b);
    assert(s.subrange(st.run, i + 2) =~= a + b);
    assert(aligned(a + b));
    if s[i + 1] == '\n' {
        assert(st.buf =~= unescape(a) + unescape(b));
    } else {
        assert(append(st, s[i + 1]).buf =~= unescape(a) + unescape(b));
    }
}

/// One step keeps the words tied to their source.
proof fn lemma_step_from_source(s: Seq<char>, i: int, st: LexState)
    requires
        state_from_source(s, i, st),
        i < s.len(),
    ensures
        step(s, i, st) matches Ok((j, st2)) ==> state_from_source(s, j, st2),
{
    let c = s[i];
    let has_next = i + 1 < s.len();
    let quoted = st.quote is Some;
    if c == '$' && has_next && s[i + 1] == '(' {
        assert(s.subrange(i, i + 2) =~= seq!['$', '(']);
        lemma_restart_from_source(s, i, i + 2, st, Piece::Control(OpenOrClose::OpenExpand, span(i, i + 2)));
    } else if c == '$' {
        assert(s.subrange(i, i + 1) =~= seq!['$']);
        lemma_restart_from_source(s, i, i + 1, st, Piece::Sigil(span(i, i + 1)));
    } else if c == '|' && !quoted {
        assert(s.subrange(i, i + 1) =~= seq!['|']);
        lemma_restart_from_source(s, i, i + 1, st, Piece::Pipe(span(i, i + 1)));
    } else if c == ')' && (!quoted || st.depth > 0) {
        assert(s.subrange(i, i + 1) =~= seq![')']);
        lemma_restart_from_source(s, i, i + 1, st, Piece::Control(OpenOrClose::Close, span(i, i + 1)));
    } else if c == '\\' {
        if has_next {
            lemma_escape_from_source(s, i, st);
        }
    } else if c == '2' && has_next && s[i + 1] == '>' && !quoted {
        assert(s.subrange(i, i + 2) =~= seq!['2', '>']);
        lemma_restart_from_source(s, i, i + 2, st, Piece::Redir(RedirType::Stderr, span(i, i + 2)));
    } else if c == '>' && !quoted {
        assert(s.subrange(i, i + 1) =~= seq!['>']);
        lemma_restart_from_source(s, i, i + 1, st, Piece::Redir(RedirType::Stdout, span(i, i + 1)));
    } else if c == '"' || c == '\'' {
        lemma_skip_from_source(s, i, i + 1, st);
        let f = flush(st, i);
        match st.quote {
            None => {
                assert(restart(f, i + 1).buf == f.buf);
            },
            Some(q) => if q == c {
                let g = Tok::Group(f.inner, span(st.qstart, i + 1));
                assert(tok_from_chars(s, g));
                let o = f.out.push(g);
                assert forall|k: int| 0 <= k < o.len() implies tok_from_chars(s, #[trigger] o[k]) by {
                    if k < f.out.len() {
                        assert(o[k] == f.out[k]);
                    }
                }
            } else {
                lemma_append_from_source(s, i, st);
            },
        }
    } else if is_white_space(c) && !quoted {
        lemma_skip_from_source(s, i, i + 1, st);
    } else {
        lemma_append_from_source(s, i, st);
    }
}

proof fn lemma_lex_from_source(s: Seq<char>, i: int, st: LexState)
    requires
        state_from_source(s, i, st),
    ensures
        lex_from(s, i, st) matches Ok(ts) ==> forall|k: int|
            0 <= k < ts.len() ==> tok_from_chars(s, #[trigger] ts[k]),
    decreases s.len() - i,
{
    if i >= s.len() {
        lemma_flush_from_source(s, i, st);
    } else {
        lemma_step_from_source(s, i, st);
        match step(s, i, st) {
            Ok((j, st2)) => {
                if i < j {
                    lemma_lex_from_source(s, j, st2);
                } else {
                    lemma_flush_from_source(s, s.len() as int, st2);
                }
            },
            Err(_) => {},
        }
    }
}

/// Every word that lexing yields, inside a quoted group or not, lies
/// within the input, and its text is what the input holds over its range
/// with escapes resolved: slicing the input by a word's range gives back
/// the source of that word.
pub proof fn lemma_words_match_chars(s: Seq<char>)
    requires
        s.len() <= usize::MAX,
    ensures
        lex_chars(s) is Ok ==> forall|k: int|
            0 <= k < lex_chars(s)->Ok_0.len() ==> tok_from_chars(s, #[trigger] lex_chars(s)->Ok_0[k]),
{
    assert(s.subrange(0, 0) =~= Seq::<char>::empty());
    lemma_lex_from_source(s, 0, initial());
}

} // verus!

verus! {

/// A piece of a quoted group that came from its source.
pub proof fn lemma_group_piece_from_chars(s: Seq<char>, ps: Seq<Piece>, l: Loc, k: int)
    requires
        tok_from_chars(s, Tok::Group(ps, l)),
        0 <= k < ps.len(),
    ensures
        piece_from_chars(s, ps[k]),
{
    assert(pieces_from_chars(s, ps));
}

} // verus!

verus! {

/// How many bytes UTF-8 takes for `c`.
pub open spec fn utf8_width(c: char) -> int {
    let u = c as u32;
    if u < 0x80 {
        1
    } else if u < 0x800 {
        2
    } else if u < 0x10000 {
        3
    } else {
        4
    }
}

fn char_width(c: char) -> (r: usize)
    ensures
        r == utf8_width(c),
{
    let u = c as u32;
    if u < 0x80 {
        1
    } else if u < 0x800 {
        2
    } else if u < 0x10000 {
        3
    } else {
        4
    }
}

/// The byte offset, in the UTF-8 encoding of `s`, of the character at index
/// `i`; an index past the end stands for the end.
pub open spec fn byte_pos(s: Seq<char>, i: int) -> int
    decreases i,
{
    if i <= 0 {
        0
    } else if i > s.len() {
        byte_pos(s, s.len() as int)
    } else {
        byte_pos(s, i - 1) + utf8_width(s[i - 1])
    }
}

/// The length of `s` in bytes.
pub open spec fn byte_len(s: Seq<char>) -> int {
    byte_pos(s, s.len() as int)
}

pub proof fn lemma_byte_pos_mono(s: Seq<char>, a: int, b: int)
    requires
        a <= b,
    ensures
        0 <= byte_pos(s, a) <= byte_pos(s, b),
    decreases b,
{
    if b > 0 && a < b {
        if b > s.len() {
            if a <= s.len() {
                lemma_byte_pos_mono(s, a, s.len() as int);
            } else {
                assert(byte_pos(s, a) == byte_pos(s, s.len() as int));
                lemma_byte_pos_mono(s, 0, s.len() as int);
            }
        } else {
            lemma_byte_pos_mono(s, a, b - 1);
        }
    } else if b > 0 {
        lemma_byte_pos_mono(s, 0, b - 1);
        if b > s.len() {
            lemma_byte_pos_mono(s, 0, s.len() as int);
        }
    }
}

/// A range in characters, as a range in bytes.
pub open spec fn bloc(s: Seq<char>, l: Loc) -> Loc {
    Loc { start: byte_pos(s, l.start as int) as usize, end: byte_pos(s, l.end as int) as usize }
}

pub open spec fn rebase_piece(s: Seq<char>, p: Piece) -> Piece {
    match p {
        Piece::Word(t, l) => Piece::Word(t, bloc(s, l)),
        Piece::Pipe(l) => Piece::Pipe(bloc(s, l)),
        Piece::Redir(k, l) => Piece::Redir(k, bloc(s, l)),
        Piece::Sigil(l) => Piece::Sigil(bloc(s, l)),
        Piece::Control(c, l) => Piece::Control(c, bloc(s, l)),
        Piece::Nested(l) => Piece::Nested(bloc(s, l)),
    }
}

pub open spec fn rebase_tok(s: Seq<char>, t: Tok) -> Tok {
    match t {
        Tok::One(p) => Tok::One(rebase_piece(s, p)),
        Tok::Group(ps, l) => Tok::Group(ps.map_values(|p: Piece| rebase_piece(s, p)), bloc(s, l)),
    }
}

pub open spec fn rebase_pos(s: Seq<char>, p: Option<usize>) -> Option<usize> {
    match p {
        Some(i) => Some(byte_pos(s, i as int) as usize),
        None => None,
    }
}

pub open spec fn rebase_err(s: Seq<char>, e: Error) -> Error {
    Error { kind: e.kind, range: ErrRange { start: rebase_pos(s, e.range.start), end: rebase_pos(s, e.range.end) } }
}

/// The tokens of the input `s`, or the first diagnostic, with every range
/// and position in bytes of the UTF-8 encoding of `s`.
pub open spec fn lex(s: Seq<char>) -> Result<Seq<Tok>, Error> {
    match lex_chars(s) {
        Ok(ts) => Ok(ts.map_values(|t: Tok| rebase_tok(s, t))),
        Err(e) => Err(rebase_err(s, e)),
    }
}

} // verus!

verus! {

/// The byte range of the characters from index `a` to index `b`.
pub open spec fn bspan(s: Seq<char>, a: int, b: int) -> Loc {
    Loc { start: byte_pos(s, a) as usize, end: byte_pos(s, b) as usize }
}

/// A word piece whose text is its source with escapes resolved: its range
/// is the bytes of some characters of `s`, and its text is those characters
/// with escapes resolved.
pub open spec fn piece_from_source(s: Seq<char>, p: Piece) -> bool {
    match p {
        Piece::Word(t, l) => exists|a: int, b: int|
            0 <= a <= b <= s.len() && #[trigger] bspan(s, a, b) == l && t == unescape(s.subrange(a, b)),
        Piece::Nested(_) => true,
        _ => exists|a: int, b: int|
            0 <= a <= b <= s.len() && #[trigger] bspan(s, a, b) == p.loc() && s.subrange(a, b) == op_text(p),
    }
}

pub open spec fn pieces_from_source(s: Seq<char>, ps: Seq<Piece>) -> bool {
    forall|k: int| 0 <= k < ps.len() ==> piece_from_source(s, #[trigger] ps[k])
}

pub open spec fn tok_from_source(s: Seq<char>, t: Tok) -> bool {
    match t {
        Tok::One(p) => piece_from_source(s, p),
        Tok::Group(ps, _) => pieces_from_source(s, ps),
    }
}

proof fn lemma_piece_rebase(s: Seq<char>, p: Piece)
    requires
        piece_from_chars(s, p),
    ensures
        piece_from_source(s, rebase_piece(s, p)),
{
    let l = p.loc();
    assert(bspan(s, l.start as int, l.end as int) == bloc(s, l));
    assert(rebase_piece(s, p).loc() == bloc(s, l));
    assert(op_text(rebase_piece(s, p)) == op_text(p));
}

/// Every token that lexing yields, inside a quoted group or not, covers the
/// bytes of some characters of the input: a word's text is those characters
/// with escapes resolved, and an operator, `$`, `$(` or `)` is exactly its
/// own text. Slicing the input by a token's range gives back its source.
pub proof fn lemma_words_match_source(s: Seq<char>)
    requires
        s.len() <= usize::MAX,
    ensures
        lex(s) is Ok ==> forall|k: int|
            0 <= k < lex(s)->Ok_0.len() ==> tok_from_source(s, #[trigger] lex(s)->Ok_0[k]),
{
    lemma_words_match_chars(s);
    if lex_chars(s) is Ok {
        let ts = lex_chars(s)->Ok_0;
        assert forall|k: int| 0 <= k < lex(s)->Ok_0.len() implies tok_from_source(s, #[trigger] lex(s)->Ok_0[k]) by {
            assert(tok_from_chars(s, ts[k]));
            assert(lex(s)->Ok_0[k] == rebase_tok(s, ts[k]));
            match ts[k] {
                Tok::One(p) => {
                    lemma_piece_rebase(s, p);
                },
                Tok::Group(ps, l) => {
                    let qs = ps.map_values(|p: Piece| rebase_piece(s, p));
                    assert forall|j: int| 0 <= j < qs.len() implies piece_from_source(s, #[trigger] qs[j]) by {
                        lemma_group_piece_from_chars(s, ps, l, j);
                        lemma_piece_rebase(s, ps[j]);
                    }
                },
            }
        }
    }
}

/// A piece of a quoted group that came from its source.
pub proof fn lemma_group_piece_from_source(s: Seq<char>, ps: Seq<Piece>, l: Loc, k: int)
    requires
        tok_from_source(s, Tok::Group(ps, l)),
        0 <= k < ps.len(),
    ensures
        piece_from_source(s, ps[k]),
{
    assert(pieces_from_source(s, ps));
}

/// The byte offsets of the characters: `offs[k]` for index `k`, and the
/// byte length at the end.
fn byte_offsets(chars: &Vec<char>) -> (offs: Vec<usize>)
    requires
        byte_len(chars@) <= usize::MAX,
    ensures
        offs@.len() == chars@.len() + 1,
        forall|k: int| 0 <= k <= chars@.len() ==> offs@[k] == byte_pos(chars@, k),
{
    let mut offs: Vec<usize> = Vec::new();
    offs.push(0);
    let mut k: usize = 0;
    while k < chars.len()
        invariant
            k <= chars@.len(),
            offs@.len() == k + 1,
            byte_len(chars@) <= usize::MAX,
            forall|m: int| 0 <= m <= k ==> offs@[m] == byte_pos(chars@, m),
        decreases chars@.len() - k,
    {
        proof {
            lemma_byte_pos_mono(chars@, k + 1, chars@.len() as int);
        }
        let w = char_width(chars[k]);
        let next = offs[k] + w;
        offs.push(next);
        k = k + 1;
    }
    offs
}

/// The byte offset of character index `k`.
fn byte_at(offs: &Vec<usize>, k: usize, Ghost(s): Ghost<Seq<char>>) -> (r: usize)
    requires
        offs@.len() == s.len() + 1,
        forall|m: int| 0 <= m <= s.len() ==> offs@[m] == byte_pos(s, m),
    ensures
        r == byte_pos(s, k as int) as usize,
{
    if k < offs.len() {
        offs[k]
    } else {
        assert(byte_pos(s, k as int) == byte_pos(s, s.len() as int));
        offs[offs.len() - 1]
    }
}

fn rebase_loc(l: Loc, offs: &Vec<usize>, Ghost(s): Ghost<Seq<char>>) -> (r: Loc)
    requires
        offs@.len() == s.len() + 1,
        forall|m: int| 0 <= m <= s.len() ==> offs@[m] == byte_pos(s, m),
    ensures
        r == bloc(s, l),
{
    Loc { start: byte_at(offs, l.start, Ghost(s)), end: byte_at(offs, l.end, Ghost(s)) }
}

/// The token with its range in bytes; a quoted group comes back empty.
fn rebase_flat(b: &CommandBit, offs: &Vec<usize>, Ghost(s): Ghost<Seq<char>>) -> (r: CommandBit)
    requires
        offs@.len() == s.len() + 1,
        forall|m: int| 0 <= m <= s.len() ==> offs@[m] == byte_pos(s, m),
    ensures
        r.piece() == rebase_piece(s, b.piece()),
        r.spec_loc() == bloc(s, b.spec_loc()),
        (r is Quotes) == (b is Quotes),
{
    match b {
        CommandBit::Str(t, l) => CommandBit::Str(t.clone(), rebase_loc(*l, offs, Ghost(s))),
        CommandBit::Quotes(_, l) => CommandBit::Quotes(Vec::new(), rebase_loc(*l, offs, Ghost(s))),
        CommandBit::Pipe(l) => CommandBit::Pipe(rebase_loc(*l, offs, Ghost(s))),
        CommandBit::Redir(k, l) => CommandBit::Redir(*k, rebase_loc(*l, offs, Ghost(s))),
        CommandBit::Dollar(l) => CommandBit::Dollar(rebase_loc(*l, offs, Ghost(s))),
        CommandBit::Control(c, l) => CommandBit::Control(*c, rebase_loc(*l, offs, Ghost(s))),
    }
}

/// Every byte position lies between 0 and the byte length.
pub proof fn lemma_byte_pos_fits(s: Seq<char>, a: int)
    ensures
        0 <= byte_pos(s, a) <= byte_len(s),
{
    if a <= s.len() {
        lemma_byte_pos_mono(s, a, s.len() as int);
    } else {
        assert(byte_pos(s, a) == byte_pos(s, s.len() as int));
        lemma_byte_pos_mono(s, 0, s.len() as int);
    }
}

proof fn lemma_in_order_rebase(s: Seq<char>, v: Seq<CommandBit>, w: Seq<CommandBit>)
    requires
        byte_len(s) <= usize::MAX,
        in_order(v),
        w.len() == v.len(),
        forall|i: int| 0 <= i < v.len() ==> #[trigger] w[i].spec_loc() == bloc(s, v[i].spec_loc()),
    ensures
        in_order(w),
{
    assert forall|i: int| 0 <= i < w.len() implies (#[trigger] w[i].spec_loc()).start <= w[i].spec_loc().end by {
        assert(w[i].spec_loc() == bloc(s, v[i].spec_loc()));
        lemma_byte_pos_mono(s, v[i].spec_loc().start as int, v[i].spec_loc().end as int);
        lemma_byte_pos_fits(s, v[i].spec_loc().start as int);
        lemma_byte_pos_fits(s, v[i].spec_loc().end as int);
    }
    assert forall|i: int| 0 <= i < w.len() - 1 implies (#[trigger] w[i].spec_loc()).end <= w[i
        + 1].spec_loc().start by {
        assert(w[i].spec_loc() == bloc(s, v[i].spec_loc()));
        assert(w[i + 1].spec_loc() == bloc(s, v[i + 1].spec_loc()));
        assert(v[i].spec_loc().end <= v[i + 1].spec_loc().start);
        lemma_byte_pos_mono(s, v[i].spec_loc().end as int, v[i + 1].spec_loc().start as int);
        lemma_byte_pos_fits(s, v[i].spec_loc().end as int);
        lemma_byte_pos_fits(s, v[i + 1].spec_loc().start as int);
    }
}

/// The token with every range in bytes.
fn rebase_bit(b: &CommandBit, offs: &Vec<usize>, Ghost(s): Ghost<Seq<char>>) -> (r: CommandBit)
    requires
        byte_len(s) <= usize::MAX,
        offs@.len() == s.len() + 1,
        forall|m: int| 0 <= m <= s.len() ==> offs@[m] == byte_pos(s, m),
    ensures
        r@ == rebase_tok(s, b@),
        r.spec_loc() == bloc(s, b.spec_loc()),
        b matches CommandBit::Quotes(w, _) && in_order(w@) && plain(w@) ==> (r matches CommandBit::Quotes(w2, _)
            && in_order(w2@) && plain(w2@)),
{
    match b {
        CommandBit::Quotes(w, l) => {
            let mut w2: Vec<CommandBit> = Vec::new();
            let mut k: usize = 0;
            while k < w.len()
                invariant
                    k <= w@.len(),
                    w2@.len() == k,
                    offs@.len() == s.len() + 1,
                    forall|m: int| 0 <= m <= s.len() ==> offs@[m] == byte_pos(s, m),
                    forall|j: int| 0 <= j < k ==> #[trigger] w2@[j].piece() == rebase_piece(s, w@[j].piece()),
                    forall|j: int| 0 <= j < k ==> #[trigger] w2@[j].spec_loc() == bloc(s, w@[j].spec_loc()),
                    forall|j: int| 0 <= j < k ==> (#[trigger] w2@[j] is Quotes) == (w@[j] is Quotes),
                decreases w@.len() - k,
            {
                let x = rebase_flat(&w[k], offs, Ghost(s));
                w2.push(x);
                k = k + 1;
            }
            let r = CommandBit::Quotes(w2, rebase_loc(*l, offs, Ghost(s)));
            assert(pieces(w2@) =~= pieces(w@).map_values(|p: Piece| rebase_piece(s, p)));
            proof {
                if in_order(w@) {
                    lemma_in_order_rebase(s, w@, w2@);
                }
            }
            r
        },
        _ => rebase_flat(b, offs, Ghost(s)),
    }
}

/// Splits the input into tokens, or fails with the first diagnostic: a `\`
/// at the very end, or a quote left open. Ranges and positions are byte
/// offsets into the input.
pub fn split(t: &str) -> (r: Result<Vec<CommandBit>, Error>)
    requires
        byte_len(t@) <= usize::MAX,
    ensures
        match r {
            Ok(v) => lex(t@) == Ok::<Seq<Tok>, Error>(toks(v@)),
            Err(e) => lex(t@) == Err::<Seq<Tok>, Error>(e),
        },
        r matches Ok(v) ==> well_ordered(v@),
{
    let chars = chars_of(t);
    let ghost s = chars@;
    let offs = byte_offsets(&chars);
    match split_chars(&chars) {
        Ok(v) => {
            let mut out: Vec<CommandBit> = Vec::new();
            let mut k: usize = 0;
            while k < v.len()
                invariant
                    k <= v@.len(),
                    out@.len() == k,
                    offs@.len() == s.len() + 1,
                    forall|m: int| 0 <= m <= s.len() ==> offs@[m] == byte_pos(s, m),
                    well_ordered(v@),
                    byte_len(s) <= usize::MAX,
                    s == t@,
                    forall|j: int| 0 <= j < k ==> #[trigger] out@[j]@ == rebase_tok(s, v@[j]@),
                    forall|j: int| 0 <= j < k ==> #[trigger] out@[j].spec_loc() == bloc(s, v@[j].spec_loc()),
                    forall|j: int| 0 <= j < k ==> (#[trigger] out@[j] matches CommandBit::Quotes(w2, _) ==> in_order(w2@)
                        && plain(w2@)),
                decreases v@.len() - k,
            {
                assert(v@[k as int] matches CommandBit::Quotes(w, _) ==> in_order(w@) && plain(w@));
                let x = rebase_bit(&v[k], &offs, Ghost(s));
                out.push(x);
                k = k + 1;
            }
            assert(toks(out@) =~= toks(v@).map_values(|t: Tok| rebase_tok(s, t)));
            proof {
                lemma_in_order_rebase(s, v@, out@);
            }
            Ok(out)
        },
        Err(e) => {
            let start = match e.range.start {
                Some(p) => Some(byte_at(&offs, p, Ghost(s))),
                None => None,
            };
            let end = match e.range.end {
                Some(p) => Some(byte_at(&offs, p, Ghost(s))),
                None => None,
            };
            Err(Error::new(e.kind, ErrRange { start, end }))
        },
    }
}

} // verus!
