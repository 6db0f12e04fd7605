use my_lang::input::{FileId, Source};
use my_lang::parse::{BasicLexer, LexError, Lexer, Loc, ParseError, Token};

#[test]
fn test_lexer() {
    let src = Source::File(FileId(0));
    let text = "hi there \" hi there \\\" \" //blablabla\n ; => weee 1_32_2 ";

    let mut lex = BasicLexer::new(text, src);

    let mut toks = Vec::new();
    while let Some(t) = lex.next().unwrap() {
        toks.push(t);
    }

    assert_eq!(toks.last().unwrap().value, Token::Num(1322));
    assert_eq!(toks.len(), 7);
}

#[test]
fn test_lexer_qmark() {
    let src = Source::File(FileId(0));
    let text = r#""a"?"#;

    let mut lex = BasicLexer::new(text, src);

    let mut toks = Vec::new();
    while let Some(t) = lex.next().unwrap() {
        toks.push(t);
    }

    assert_eq!(toks.len(), 2);
    assert_eq!(toks.last().unwrap().value, Token::Name("?"));
}

fn all_tokens(text: &str) -> Vec<(Token<'_>, usize, usize)> {
    let mut lex = BasicLexer::new(text, Source::File(FileId(3)));
    let mut out = Vec::new();
    while let Some(t) = lex.next().unwrap() {
        assert_eq!(t.loc.src, Source::File(FileId(3)));
        out.push((t.value, t.loc.start, t.loc.end));
    }
    out
}

#[test]
fn lexer_token_kinds_and_spans() {
    let toks = all_tokens("foo 12 \"s\\n\" && ;");
    assert_eq!(
        toks,
        vec![
            (Token::Name("foo"), 0, 3),
            (Token::Num(12), 4, 6),
            (Token::Str("s\n".to_string()), 7, 12),
            (Token::Name("&&"), 13, 15),
            (Token::Name(";"), 16, 17),
        ]
    );
}

#[test]
fn lexer_string_escapes() {
    let toks = all_tokens(r#""a\"b\\c""#);
    assert_eq!(toks, vec![(Token::Str("a\"b\\c".to_string()), 0, 9)]);
}

#[test]
fn lexer_unicode_names_and_whitespace() {
    // an em space is whitespace; Greek letters make up one name
    let toks = all_tokens("αβγ\u{2003}x1");
    assert_eq!(toks, vec![(Token::Name("αβγ"), 0, 6), (Token::Name("x1"), 9, 11)]);
}

#[test]
fn lexer_comments_are_skipped() {
    let toks = all_tokens("// all of it\n7 // more\n");
    assert_eq!(toks, vec![(Token::Num(7), 13, 14)]);
}

#[test]
fn lexer_weird_number_end() {
    let mut lex = BasicLexer::new(" 123x", Source::File(FileId(0)));
    let e = lex.next().unwrap_err();
    assert_eq!(e.value, LexError::WeirdNumberEnd('x'));
    assert_eq!(e.value.message(), "invalid number ending with 'x'");
}

#[test]
fn lexer_missing_string_close() {
    let mut lex = BasicLexer::new("\"abc", Source::File(FileId(0)));
    let e = lex.next().unwrap_err();
    assert_eq!(e.value, LexError::MissingStringClose);
    assert_eq!(e.value.message(), "missing closing quote in string");
    assert_eq!(e.loc.start, 0);
}

#[test]
fn lexer_new_at_offsets_locations() {
    let mut lex = BasicLexer::new_at("ab", Source::File(FileId(1)), 10);
    let t = lex.next().unwrap().unwrap();
    assert_eq!(t.loc, Loc { src: Source::File(FileId(1)), start: 10, end: 12 });
    assert!(lex.next().unwrap().is_none());
}

#[test]
fn stacked_lexer_reads_pushed_text_first() {
    let mut lex = Lexer::new("a b", Source::File(FileId(0)));
    assert_eq!(lex.next().unwrap().unwrap().value, Token::Name("a"));
    lex.push("x", Source::File(FileId(1)));
    let peeked = lex.peek().unwrap().unwrap().value == Token::Name("x");
    assert!(peeked);
    let x = lex.next().unwrap().unwrap();
    assert_eq!(x.value, Token::Name("x"));
    assert_eq!(x.loc.src, Source::File(FileId(1)));
    assert_eq!(lex.next().unwrap().unwrap().value, Token::Name("b"));
    assert!(lex.next().unwrap().is_none());
    assert!(lex.next().unwrap().is_none());
}

#[test]
fn stacked_lexer_reports_lex_errors() {
    let mut lex = Lexer::new("5q", Source::File(FileId(0)));
    match lex.next() {
        Err(e) => assert!(matches!(e.value, ParseError::Lex(LexError::WeirdNumberEnd('q')))),
        Ok(_) => panic!("expected an error"),
    }
}

#[test]
fn lexer_new_at_shifts_every_location() {
    let text = "ab + \"c\" 12x";
    let mut a = BasicLexer::new_at(text, Source::File(FileId(1)), 100);
    let mut b = BasicLexer::new(text, Source::File(FileId(1)));
    loop {
        match (a.next(), b.next()) {
            (Ok(Some(x)), Ok(Some(y))) => {
                assert_eq!(x.value, y.value);
                assert_eq!((x.loc.start, x.loc.end), (y.loc.start + 100, y.loc.end + 100));
            }
            (Err(x), Err(y)) => {
                assert_eq!(x.value, y.value);
                assert_eq!((x.loc.start, x.loc.end), (y.loc.start + 100, y.loc.end + 100));
            }
            (Ok(None), Ok(None)) => break,
            _ => panic!("the two lexers disagree"),
        }
    }
}

#[test]
fn successive_tokens_are_ordered_and_names_are_their_text() {
    let text = "foo  <<bar // c\n ?\"s\" 3";
    let mut lex = BasicLexer::new(text, Source::File(FileId(0)));
    let mut last_end = 0;
    let mut count = 0;
    while let Some(t) = lex.next().unwrap() {
        assert!(last_end <= t.loc.start && t.loc.start < t.loc.end && t.loc.end <= text.len());
        if let Token::Name(n) = t.value {
            assert_eq!(n, &text[t.loc.start..t.loc.end]);
        }
        last_end = t.loc.end;
        count += 1;
    }
    assert_eq!(count, 6);
    assert!(lex.next().unwrap().is_none());
}

#[test]
fn pushed_text_comes_first_and_an_exhausted_stack_is_empty() {
    let mut l = Lexer::new("a", Source::File(FileId(1)));
    l.push("b", Source::File(FileId(2)));
    let b = l.next().unwrap().unwrap();
    assert_eq!((b.value, b.loc), (Token::Name("b"), Loc { src: Source::File(FileId(2)), start: 0, end: 1 }));
    let a = l.next().unwrap().unwrap();
    assert_eq!((a.value, a.loc), (Token::Name("a"), Loc { src: Source::File(FileId(1)), start: 0, end: 1 }));
    assert!(l.next().unwrap().is_none());
    assert!(l.stack.is_empty());
    assert!(l.next().unwrap().is_none());
}

#[test]
fn a_failing_lexer_stays_on_top() {
    let mut l = Lexer::new("x", Source::File(FileId(1)));
    l.push("7q y", Source::File(FileId(2)));
    assert!(l.next().is_err());
    assert_eq!(l.stack.len(), 2);
    assert_eq!(l.next().unwrap().unwrap().value, Token::Name("y"));
    assert_eq!(l.next().unwrap().unwrap().value, Token::Name("x"));
}
