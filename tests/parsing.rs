use autoshell::{parse, split, AstNode, CommandBit, ErrorType, Error, ErrRange, Loc, RedirType};

fn loc(start: usize, end: usize) -> Loc {
    Loc { start, end }
}

fn parse_str(input: &str) -> Result<AstNode, Error> {
    let tokens = split(input).unwrap();
    parse(&tokens)
}

fn is_word(n: &AstNode, text: &str, start: usize, end: usize) -> bool {
    match n {
        AstNode::Cmd(s, l) => s.as_str() == text && *l == loc(start, end),
        _ => false,
    }
}

/// A command whose words are all plain words with these texts.
fn is_words(n: &AstNode, texts: &[&str]) -> bool {
    match n {
        AstNode::JustCmd(v, _) => {
            v.len() == texts.len()
                && v.iter().zip(texts.iter()).all(|(w, t)| matches!(w, AstNode::Cmd(s, _) if s.as_str() == *t))
        }
        _ => false,
    }
}

#[test]
fn blank_input_expects_a_command() {
    for input in ["", "   ", " \t \n"] {
        let tokens = split(input).unwrap();
        assert!(tokens.is_empty());
        let e = parse(&tokens).unwrap_err();
        assert_eq!(e.kind, ErrorType::ExpectedCommand);
    }
}

#[test]
fn single_command() {
    let n = parse_str("ls -la").unwrap();
    match &n {
        AstNode::JustCmd(v, l) => {
            assert_eq!(*l, loc(0, 6));
            assert_eq!(v.len(), 2);
            assert!(is_word(&v[0], "ls", 0, 2));
            assert!(is_word(&v[1], "-la", 3, 6));
        }
        _ => panic!("expected a command"),
    }
}

#[test]
fn redirect_binds_tighter_than_pipe() {
    let n = parse_str("a > b | c").unwrap();
    match &n {
        AstNode::Pipe(left, op, right, whole) => {
            assert_eq!(*op, loc(6, 7));
            assert_eq!(*whole, loc(0, 9));
            match &**left {
                AstNode::Redirect(src, RedirType::Stdout, rop, dst, rl) => {
                    assert_eq!(*rop, loc(2, 3));
                    assert_eq!(*rl, loc(0, 5));
                    assert!(is_words(src, &["a"]));
                    assert!(is_words(dst, &["b"]));
                }
                _ => panic!("expected a redirect"),
            }
            assert!(is_words(right, &["c"]));
        }
        _ => panic!("expected a pipe"),
    }
}

#[test]
fn redirect_on_the_right_of_a_pipe() {
    let n = parse_str("a | b 2> c").unwrap();
    match &n {
        AstNode::Pipe(left, _, right, _) => {
            assert!(is_words(left, &["a"]));
            match &**right {
                AstNode::Redirect(src, RedirType::Stderr, _, dst, _) => {
                    assert!(is_words(src, &["b"]));
                    assert!(is_words(dst, &["c"]));
                }
                _ => panic!("expected a redirect"),
            }
        }
        _ => panic!("expected a pipe"),
    }
}

#[test]
fn pipes_associate_to_the_left() {
    let n = parse_str("a | b | c").unwrap();
    match &n {
        AstNode::Pipe(left, _, right, whole) => {
            assert_eq!(*whole, loc(0, 9));
            assert!(is_words(right, &["c"]));
            match &**left {
                AstNode::Pipe(l2, _, r2, w2) => {
                    assert_eq!(*w2, loc(0, 5));
                    assert!(is_words(l2, &["a"]));
                    assert!(is_words(r2, &["b"]));
                }
                _ => panic!("expected a pipe"),
            }
        }
        _ => panic!("expected a pipe"),
    }
}

#[test]
fn redirect_takes_one_word() {
    let e = parse_str("a > b c").unwrap_err();
    assert_eq!(e.kind, ErrorType::TrailingInput);
    assert_eq!(e.range, ErrRange { start: Some(6), end: Some(7) });
}

#[test]
fn unmatched_substitution() {
    let e = parse_str("$(echo").unwrap_err();
    assert_eq!(e.kind, ErrorType::UnmatchedSubstitution);
    assert_eq!(e.range.start, None);
}

#[test]
fn example_pipeline_with_substitution() {
    let n = parse_str("ls -la | grep txt > $(echo OUTFILE) | echo $?").unwrap();
    match &n {
        AstNode::Pipe(left, _, right, whole) => {
            assert_eq!(*whole, loc(0, 45));
            match &**right {
                AstNode::JustCmd(v, _) => {
                    assert_eq!(v.len(), 2);
                    assert!(is_word(&v[0], "echo", 38, 42));
                    assert!(matches!(&v[1], AstNode::Variable(s, l) if s.as_str() == "?" && *l == loc(43, 45)));
                }
                _ => panic!("expected a command"),
            }
            match &**left {
                AstNode::Pipe(l2, _, r2, _) => {
                    assert!(is_words(l2, &["ls", "-la"]));
                    match &**r2 {
                        AstNode::Redirect(src, RedirType::Stdout, _, dst, _) => {
                            assert!(is_words(src, &["grep", "txt"]));
                            match &**dst {
                                AstNode::JustCmd(v, _) => {
                                    assert_eq!(v.len(), 1);
                                    match &v[0] {
                                        AstNode::Expansion(inner, l) => {
                                            assert_eq!(*l, loc(20, 35));
                                            assert!(is_words(inner, &["echo", "OUTFILE"]));
                                        }
                                        _ => panic!("expected an expansion"),
                                    }
                                }
                                _ => panic!("expected a command"),
                            }
                        }
                        _ => panic!("expected a redirect"),
                    }
                }
                _ => panic!("expected a pipe"),
            }
        }
        _ => panic!("expected a pipe"),
    }
}

#[test]
fn example_quoted_word() {
    let n = parse_str("echo \"hi there\" | cat").unwrap();
    match &n {
        AstNode::Pipe(left, _, right, _) => {
            assert!(is_words(left, &["echo", "hi there"]));
            assert!(is_words(right, &["cat"]));
        }
        _ => panic!("expected a pipe"),
    }
}

#[test]
fn quoted_and_unquoted_substitutions_agree() {
    let q = parse_str("\"$(echo x)\"").unwrap();
    let u = parse_str("$(echo x)").unwrap();
    match (&q, &u) {
        (AstNode::JustCmd(qv, _), AstNode::JustCmd(uv, _)) => {
            assert_eq!(qv.len(), 1);
            assert_eq!(uv.len(), 1);
            match (&qv[0], &uv[0]) {
                (AstNode::Expansion(qi, ql), AstNode::Expansion(ui, ul)) => {
                    assert_eq!(*ql, loc(1, 10));
                    assert_eq!(*ul, loc(0, 9));
                    assert!(is_words(qi, &["echo x"]));
                    assert!(is_words(ui, &["echo", "x"]));
                }
                _ => panic!("expected expansions"),
            }
        }
        _ => panic!("expected commands"),
    }
}

#[test]
fn substitution_holding_a_pipe() {
    let n = parse_str("echo $(a | b)").unwrap();
    match &n {
        AstNode::JustCmd(v, _) => {
            assert_eq!(v.len(), 2);
            match &v[1] {
                AstNode::Expansion(inner, l) => {
                    assert_eq!(*l, loc(5, 13));
                    assert!(matches!(&**inner, AstNode::Pipe(..)));
                }
                _ => panic!("expected an expansion"),
            }
        }
        _ => panic!("expected a command"),
    }
}

#[test]
fn substitution_ending_after_a_redirect() {
    let n = parse_str("$(a > b)").unwrap();
    match &n {
        AstNode::JustCmd(v, _) => {
            assert!(matches!(&v[0], AstNode::Expansion(inner, l) if *l == loc(0, 8) && matches!(&**inner, AstNode::Redirect(..))));
        }
        _ => panic!("expected a command"),
    }
}

#[test]
fn nested_substitutions() {
    let n = parse_str("a $(b $(c))").unwrap();
    match &n {
        AstNode::JustCmd(v, l) => {
            assert_eq!(*l, loc(0, 11));
            match &v[1] {
                AstNode::Expansion(inner, l1) => {
                    assert_eq!(*l1, loc(2, 11));
                    match &**inner {
                        AstNode::JustCmd(w, _) => {
                            assert!(matches!(&w[1], AstNode::Expansion(_, l2) if *l2 == loc(6, 10)));
                        }
                        _ => panic!("expected a command"),
                    }
                }
                _ => panic!("expected an expansion"),
            }
        }
        _ => panic!("expected a command"),
    }
}

#[test]
fn variable_inside_quotes() {
    let n = parse_str("echo \"$HOME\"").unwrap();
    match &n {
        AstNode::JustCmd(v, _) => {
            assert_eq!(v.len(), 2);
            assert!(matches!(&v[1], AstNode::Variable(s, l) if s.as_str() == "HOME" && *l == loc(6, 11)));
        }
        _ => panic!("expected a command"),
    }
}

#[test]
fn missing_identifier() {
    let e = parse_str("echo $").unwrap_err();
    assert_eq!(e.kind, ErrorType::MissingIdentifier);
    assert_eq!(e.range, ErrRange { start: Some(6), end: None });
}

#[test]
fn leading_pipe_expects_a_command() {
    let e = parse_str("| a").unwrap_err();
    assert_eq!(e.kind, ErrorType::ExpectedCommand);
}

#[test]
fn empty_substitution_expects_a_command() {
    let e = parse_str("$()").unwrap_err();
    assert_eq!(e.kind, ErrorType::ExpectedCommand);
    assert_eq!(e.range, ErrRange { start: Some(2), end: Some(3) });
}

#[test]
fn close_at_top_level() {
    let e = parse_str("a )").unwrap_err();
    assert_eq!(e.kind, ErrorType::UnexpectedClose);
    assert_eq!(e.range, ErrRange { start: Some(2), end: Some(3) });
}

#[test]
fn operator_inside_a_quoted_group() {
    let tokens = vec![CommandBit::Quotes(vec![CommandBit::Pipe(loc(1, 2))], loc(0, 3))];
    let e = parse(&tokens).unwrap_err();
    assert_eq!(e.kind, ErrorType::TrailingInput);
    assert_eq!(e.range, ErrRange { start: Some(1), end: Some(2) });
}

#[test]
fn display_points_at_the_range() {
    let e = Error::new(ErrorType::UnexpectedClose, ErrRange::span(loc(1, 4)));
    assert_eq!(e.display("abcdef"), "abcdef\n ^-^\n unexpected closing token :3");
}

#[test]
fn display_points_at_the_end() {
    let e = Error::new(ErrorType::ExpectedCommand, ErrRange::none());
    assert_eq!(e.display("ab"), "ab\n  ^\n  expected a command :3");
}

#[test]
fn display_points_at_a_position() {
    let e = Error::new(ErrorType::MissingIdentifier, ErrRange::at(0));
    assert_eq!(e.display("$"), "$\n^\nmissing identifier after variable sigil :3");
}

/// Resolves escapes the way the lexer does: `\` takes the next character,
/// and `\` before a newline stands for nothing.
fn unescape(t: &str) -> String {
    let mut out = String::new();
    let mut it = t.chars();
    while let Some(c) = it.next() {
        if c == '\\' {
            match it.next() {
                Some('\n') => {}
                Some(d) => out.push(d),
                None => out.push(c),
            }
        } else {
            out.push(c);
        }
    }
    out
}

fn slice(input: &str, l: Loc) -> String {
    input.chars().skip(l.start).take(l.end - l.start).collect()
}

#[test]
fn leaves_slice_back_to_their_source() {
    let input = "echo a\\ b \"c d\" $HOME | wc\\\n-l";
    let n = parse_str(input).unwrap();
    let mut seen = 0;
    let mut stack = vec![&n];
    while let Some(node) = stack.pop() {
        match node {
            AstNode::Cmd(s, l) => {
                assert_eq!(unescape(&slice(input, *l)), *s);
                seen += 1;
            }
            AstNode::Variable(s, l) => {
                assert_eq!(slice(input, *l), format!("${}", s));
                seen += 1;
            }
            AstNode::Expansion(b, _) => stack.push(b),
            AstNode::JustCmd(v, l) => {
                assert_eq!(l.start, v[0].get_loc().start);
                assert_eq!(l.end, v[v.len() - 1].get_loc().end);
                stack.extend(v.iter());
            }
            AstNode::Pipe(a, _, b, l) | AstNode::Redirect(a, _, _, b, l) => {
                assert_eq!(l.start, a.get_loc().start);
                assert_eq!(l.end, b.get_loc().end);
                stack.push(a);
                stack.push(b);
            }
        }
    }
    assert_eq!(seen, 5);
    match &n {
        AstNode::Pipe(left, _, right, _) => {
            match &**left {
                AstNode::JustCmd(v, _) => {
                    assert_eq!(v.len(), 4);
                    assert!(is_word(&v[1], "a b", 5, 9));
                    assert!(is_word(&v[2], "c d", 11, 14));
                }
                _ => panic!("expected a command"),
            }
            assert!(is_words(right, &["wc-l"]));
        }
        _ => panic!("expected a pipe"),
    }
}

#[test]
fn plain_words_make_one_command() {
    let tokens = split("a b c").unwrap();
    let n = parse(&tokens).unwrap();
    assert!(is_words(&n, &["a", "b", "c"]));
    assert_eq!(n.get_loc(), loc(0, 5));
}

#[test]
fn redirect_chain_associates_to_the_left() {
    let n = parse_str("a > b 2> c").unwrap();
    match &n {
        AstNode::Redirect(src, RedirType::Stderr, _, dst, whole) => {
            assert_eq!(*whole, loc(0, 10));
            assert!(is_words(dst, &["c"]));
            assert!(matches!(&**src, AstNode::Redirect(_, RedirType::Stdout, _, _, l) if *l == loc(0, 5)));
        }
        _ => panic!("expected a redirect"),
    }
}

#[test]
fn words_spelling_operators_become_operators() {
    assert!(matches!(CommandBit::from((String::from("|"), loc(0, 1))), CommandBit::Pipe(l) if l == loc(0, 1)));
    assert!(matches!(
        CommandBit::from((String::from(">"), loc(2, 3))),
        CommandBit::Redir(RedirType::Stdout, l) if l == loc(2, 3)
    ));
    assert!(matches!(
        CommandBit::from((String::from("2>"), loc(4, 6))),
        CommandBit::Redir(RedirType::Stderr, l) if l == loc(4, 6)
    ));
    match CommandBit::from((String::from("ls"), loc(0, 2))) {
        CommandBit::Str(s, l) => {
            assert_eq!(s, "ls");
            assert_eq!(l, loc(0, 2));
        }
        _ => panic!("expected a word"),
    }
}

#[test]
fn display_end_of_input_is_the_byte_length() {
    let e = Error::new(ErrorType::ExpectedCommand, ErrRange::none());
    assert_eq!(e.display("é"), "é\n  ^\n  expected a command :3");
}

#[test]
fn expansion_and_operator_ranges_slice_to_their_source() {
    let input = "é $(a | b) > ö";
    let n = parse_str(input).unwrap();
    let bytes = |l: Loc| input[l.start..l.end].to_string();
    match &n {
        AstNode::Redirect(src, RedirType::Stdout, op, dst, whole) => {
            assert_eq!(bytes(*op), ">");
            assert_eq!(bytes(*whole), input);
            assert!(is_words(dst, &["ö"]));
            match &**src {
                AstNode::JustCmd(v, _) => match &v[1] {
                    AstNode::Expansion(inner, l) => {
                        assert_eq!(bytes(*l), "$(a | b)");
                        match &**inner {
                            AstNode::Pipe(_, pop, _, pl) => {
                                assert_eq!(bytes(*pop), "|");
                                assert_eq!(bytes(*pl), "a | b");
                            }
                            _ => panic!("expected a pipe"),
                        }
                    }
                    _ => panic!("expected an expansion"),
                },
                _ => panic!("expected a command"),
            }
        }
        _ => panic!("expected a redirect"),
    }
}

fn word(text: &str, start: usize, end: usize) -> CommandBit {
    CommandBit::Str(String::from(text), loc(start, end))
}

#[test]
fn nested_quoted_group_adds_its_words() {
    let inner = CommandBit::Quotes(vec![word("b", 3, 4), CommandBit::Dollar(loc(4, 5)), word("c", 5, 6)], loc(2, 7));
    let tokens = vec![word("a", 0, 1), CommandBit::Quotes(vec![inner], loc(1, 8))];
    let n = parse(&tokens).unwrap();
    match &n {
        AstNode::JustCmd(v, l) => {
            assert_eq!(*l, loc(0, 6));
            assert_eq!(v.len(), 3);
            assert!(is_word(&v[0], "a", 0, 1));
            assert!(is_word(&v[1], "b", 3, 4));
            assert!(matches!(&v[2], AstNode::Variable(s, l) if s.as_str() == "c" && *l == loc(4, 6)));
        }
        _ => panic!("expected a command"),
    }
}

#[test]
fn close_inside_a_group_ends_the_substitution() {
    let group = CommandBit::Quotes(vec![word("b", 3, 4), CommandBit::Control(autoshell::OpenOrClose::Close, loc(4, 5))], loc(2, 6));
    let tokens = vec![CommandBit::Control(autoshell::OpenOrClose::OpenExpand, loc(0, 2)), group];
    let n = parse(&tokens).unwrap();
    match &n {
        AstNode::JustCmd(v, _) => {
            assert_eq!(v.len(), 1);
            match &v[0] {
                AstNode::Expansion(inner, l) => {
                    assert_eq!(*l, loc(0, 5));
                    assert!(is_words(inner, &["b"]));
                }
                _ => panic!("expected an expansion"),
            }
        }
        _ => panic!("expected a command"),
    }
}

#[test]
fn close_inside_a_group_at_top_level_is_unexpected() {
    let group = CommandBit::Quotes(vec![CommandBit::Control(autoshell::OpenOrClose::Close, loc(1, 2))], loc(0, 3));
    let e = parse(&vec![word("a", 0, 1), group]).unwrap_err();
    assert_eq!(e.kind, ErrorType::UnexpectedClose);
    assert_eq!(e.range, ErrRange { start: Some(1), end: Some(2) });
}
