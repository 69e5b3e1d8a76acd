use autoshell::{split, CommandBit, ErrorType, Loc, OpenOrClose, OperatorPrecedence, RedirType};

fn loc(start: usize, end: usize) -> Loc {
    Loc { start, end }
}

fn is_str(b: &CommandBit, text: &str, start: usize, end: usize) -> bool {
    match b {
        CommandBit::Str(s, l) => s.as_str() == text && *l == loc(start, end),
        _ => false,
    }
}

#[test]
fn blank_input_lexes_to_nothing() {
    assert!(split("").unwrap().is_empty());
    assert!(split("   \t  ").unwrap().is_empty());
    assert!(split("\u{3000}\n ").unwrap().is_empty());
}

#[test]
fn words_split_on_whitespace() {
    let v = split("ls  -la").unwrap();
    assert_eq!(v.len(), 2);
    assert!(is_str(&v[0], "ls", 0, 2));
    assert!(is_str(&v[1], "-la", 4, 7));
}

#[test]
fn escaped_newline_is_elided() {
    let v = split("a\\\nb").unwrap();
    assert_eq!(v.len(), 1);
    assert!(is_str(&v[0], "ab", 0, 4));
}

#[test]
fn escape_keeps_the_next_character() {
    let v = split("a\\ b\\|c").unwrap();
    assert_eq!(v.len(), 1);
    assert!(is_str(&v[0], "a b|c", 0, 7));
}

#[test]
fn escaped_blank_alone_is_dropped() {
    let v = split("a \\  b").unwrap();
    assert_eq!(v.len(), 2);
    assert!(is_str(&v[0], "a", 0, 1));
    assert!(is_str(&v[1], "b", 5, 6));
}

#[test]
fn operators_and_markers() {
    let v = split("a|b>c 2>d $x $(e)").unwrap();
    assert_eq!(v.len(), 12);
    assert!(is_str(&v[0], "a", 0, 1));
    assert!(matches!(v[1], CommandBit::Pipe(l) if l == loc(1, 2)));
    assert!(is_str(&v[2], "b", 2, 3));
    assert!(matches!(v[3], CommandBit::Redir(RedirType::Stdout, l) if l == loc(3, 4)));
    assert!(is_str(&v[4], "c", 4, 5));
    assert!(matches!(v[5], CommandBit::Redir(RedirType::Stderr, l) if l == loc(6, 8)));
    assert!(is_str(&v[6], "d", 8, 9));
    assert!(matches!(v[7], CommandBit::Dollar(l) if l == loc(10, 11)));
    assert!(is_str(&v[8], "x", 11, 12));
    assert!(matches!(v[9], CommandBit::Control(OpenOrClose::OpenExpand, l) if l == loc(13, 15)));
    assert!(is_str(&v[10], "e", 15, 16));
    assert!(matches!(v[11], CommandBit::Control(OpenOrClose::Close, l) if l == loc(16, 17)));
}

#[test]
fn quoted_group_keeps_whitespace() {
    let v = split("echo \"hi there\"").unwrap();
    assert_eq!(v.len(), 2);
    assert!(is_str(&v[0], "echo", 0, 4));
    match &v[1] {
        CommandBit::Quotes(inner, l) => {
            assert_eq!(*l, loc(5, 15));
            assert_eq!(inner.len(), 1);
            assert!(is_str(&inner[0], "hi there", 6, 14));
        }
        _ => panic!("expected a quoted group"),
    }
}

#[test]
fn other_quote_mark_is_literal_inside_quotes() {
    let v = split("'a\"b|c'").unwrap();
    assert_eq!(v.len(), 1);
    match &v[0] {
        CommandBit::Quotes(inner, l) => {
            assert_eq!(*l, loc(0, 7));
            assert_eq!(inner.len(), 1);
            assert!(is_str(&inner[0], "a\"b|c", 1, 6));
        }
        _ => panic!("expected a quoted group"),
    }
}

#[test]
fn empty_quotes_give_an_empty_group() {
    let v = split("''").unwrap();
    assert_eq!(v.len(), 1);
    assert!(matches!(&v[0], CommandBit::Quotes(inner, l) if inner.is_empty() && *l == loc(0, 2)));
}

#[test]
fn substitution_inside_quotes() {
    let v = split("\"$(echo x)\"").unwrap();
    assert_eq!(v.len(), 1);
    match &v[0] {
        CommandBit::Quotes(inner, l) => {
            assert_eq!(*l, loc(0, 11));
            assert_eq!(inner.len(), 3);
            assert!(matches!(inner[0], CommandBit::Control(OpenOrClose::OpenExpand, l) if l == loc(1, 3)));
            assert!(is_str(&inner[1], "echo x", 3, 9));
            assert!(matches!(inner[2], CommandBit::Control(OpenOrClose::Close, l) if l == loc(9, 10)));
        }
        _ => panic!("expected a quoted group"),
    }
}

#[test]
fn unquoted_substitution_splits_words() {
    let v = split("$(echo x)").unwrap();
    assert_eq!(v.len(), 4);
    assert!(matches!(v[0], CommandBit::Control(OpenOrClose::OpenExpand, l) if l == loc(0, 2)));
    assert!(is_str(&v[1], "echo", 2, 6));
    assert!(is_str(&v[2], "x", 7, 8));
    assert!(matches!(v[3], CommandBit::Control(OpenOrClose::Close, l) if l == loc(8, 9)));
}

#[test]
fn close_paren_inside_quotes_without_substitution_is_literal() {
    let v = split("\"a)\"").unwrap();
    assert_eq!(v.len(), 1);
    match &v[0] {
        CommandBit::Quotes(inner, _) => {
            assert_eq!(inner.len(), 1);
            assert!(is_str(&inner[0], "a)", 1, 3));
        }
        _ => panic!("expected a quoted group"),
    }
}

#[test]
fn trailing_backslash_is_an_error() {
    let e = split("echo \\").unwrap_err();
    assert_eq!(e.kind, ErrorType::ExpectedEscapedChar);
    assert_eq!(e.range.start, Some(5));
    assert_eq!(e.range.end, None);
}

#[test]
fn open_quote_is_an_error() {
    let e = split("echo \"abc").unwrap_err();
    assert_eq!(e.kind, ErrorType::UnterminatedQuote);
    assert_eq!(e.range.start, Some(5));
    assert_eq!(e.range.end, None);
}

#[test]
fn two_not_followed_by_redirect_is_a_word() {
    let v = split("a2 2").unwrap();
    assert_eq!(v.len(), 2);
    assert!(is_str(&v[0], "a2", 0, 2));
    assert!(is_str(&v[1], "2", 3, 4));
}

#[test]
fn ranges_count_bytes() {
    let v = split("é").unwrap();
    assert_eq!(v.len(), 1);
    assert!(is_str(&v[0], "é", 0, 2));
    let v = split("é|a \"ü b\"").unwrap();
    assert_eq!(v.len(), 4);
    assert!(is_str(&v[0], "é", 0, 2));
    assert!(matches!(v[1], CommandBit::Pipe(l) if l == loc(2, 3)));
    assert!(is_str(&v[2], "a", 3, 4));
    match &v[3] {
        CommandBit::Quotes(inner, l) => {
            assert_eq!(*l, loc(5, 11));
            assert_eq!(inner.len(), 1);
            assert!(is_str(&inner[0], "ü b", 6, 10));
        }
        _ => panic!("expected a quoted group"),
    }
}

#[test]
fn error_positions_count_bytes() {
    let e = split("ü \\").unwrap_err();
    assert_eq!(e.kind, ErrorType::ExpectedEscapedChar);
    assert_eq!(e.range.start, Some(3));
    let e = split("ü 'x").unwrap_err();
    assert_eq!(e.kind, ErrorType::UnterminatedQuote);
    assert_eq!(e.range.start, Some(3));
}

#[test]
fn precedence_of_words_and_operators() {
    let v = split("a | b > c").unwrap();
    assert_eq!(v[0].precedence(), OperatorPrecedence::Command);
    assert_eq!(v[1].precedence(), OperatorPrecedence::Pipe);
    assert_eq!(v[3].precedence(), OperatorPrecedence::Redirect);
    assert_eq!(v[1].max_atom_length(), None);
    assert_eq!(v[3].max_atom_length(), Some(1));
    assert!(v[1].is_op() && v[3].is_op() && !v[0].is_op());
    assert!(!v[1].expects_atom_after() && v[3].expects_atom_after());
}
