use my_lang::cffi::{SliceRC, StrRC, RC};
use my_lang::input::{FileId, MacroId, Source, SourceContext};
use my_lang::parse::{
    check_paren_closer_error, Ast, BasicInfix, InfixOp, LexError, Lexer, Loc, Located, OpID, ParseError, Parser,
    Scope, Token,
};
use my_lang::types::{IntSign, IntSize, IntType, Interned, InternedSlice, ThinSlice, Type};
use my_lang::{SourceType, Loc as SpanLoc};
use std::rc::Rc;

fn file_loc(start: usize, end: usize) -> Loc {
    Loc { src: Source::File(FileId(0)), start, end }
}

/// Parses `text` with the default operators; the error is reported as its
/// debug text and location.
fn parse_text(text: &str) -> Result<Option<Ast>, (String, usize, usize)> {
    let mut ctx = SourceContext::new();
    let id = ctx.get_for_path("t".to_string()).id;
    ctx.set_file_text(id, Ok(text.to_string())).unwrap();
    let mut parser = Parser::new_default(Lexer::new(text, Source::File(id)), &ctx);
    match parser.parse_exp() {
        Ok(x) => Ok(x.map(|a| a.value)),
        Err(e) => Err((format!("{:?}", e.value), e.loc.start, e.loc.end)),
    }
}

fn err_of(text: &str) -> (String, usize, usize) {
    parse_text(text).unwrap_err()
}

#[test]
fn parse_errors_name_their_cause() {
    assert_eq!(err_of("abc"), ("UnknownName(\"abc\")".to_string(), 0, 3));
    assert_eq!(err_of("+ 1"), ("MissingPrefix(\"+\")".to_string(), 0, 1));
    assert_eq!(err_of("1 +"), ("ExpectedValue".to_string(), 2, 3));
    assert_eq!(err_of("-"), ("ExpectedValue".to_string(), 0, 1));
    assert_eq!(err_of("(1 ;"), ("ExpectedParenClose(\";\")".to_string(), 3, 4));
    assert_eq!(err_of("(1 \"s\""), ("ExpectedParenCloseString".to_string(), 3, 6));
    assert_eq!(err_of("(1 2"), ("ExpectedParenCloseNum".to_string(), 3, 4));
    assert_eq!(err_of("(1"), ("ExpectedParenCloseEOF".to_string(), 0, 1));
    assert_eq!(err_of("\"open"), ("Lex(MissingStringClose)".to_string(), 0, 5));
    assert_eq!(err_of("\"f\"(1"), ("ExpectedParenCloseEOF".to_string(), 3, 4));
    assert_eq!(err_of("\"f\"(,"), ("UnknownName(\",\")".to_string(), 4, 5));
}

#[test]
fn empty_input_parses_to_nothing() {
    assert_eq!(parse_text("").unwrap(), None);
    assert_eq!(parse_text("  // only a comment").unwrap(), None);
}

#[test]
fn parse_stops_at_an_unknown_operator() {
    // the loop ends at a name with no infix rule and leaves it unread
    assert_eq!(parse_text("1 ; 2").unwrap(), Some(Ast::IntLit(1)));
}

#[test]
fn parse_locations_cover_the_expression() {
    let mut ctx = SourceContext::new();
    let id = ctx.get_for_path("t".to_string()).id;
    let text = "\"a\" + (\"b\" * 3)";
    ctx.set_file_text(id, Ok(text.to_string())).unwrap();
    let mut parser = Parser::new_default(Lexer::new(text, Source::File(id)), &ctx);
    let ast = parser.parse_exp().unwrap().unwrap();
    assert_eq!(ast.loc, Loc { src: Source::File(id), start: 0, end: 15 });
    match &ast.value {
        Ast::Op(call) => {
            assert_eq!(call.rator.loc, Loc { src: Source::File(id), start: 4, end: 5 });
            assert_eq!(call.rands[1].loc, Loc { src: Source::File(id), start: 6, end: 15 });
        }
        other => panic!("expected +, got {:?}", other),
    }
}

#[test]
fn parse_through_a_macro_maps_back_to_the_file() {
    let mut ctx = SourceContext::new();
    let id = ctx.get_for_path("t".to_string()).id;
    let text = "1 + m!()";
    ctx.set_file_text(id, Ok(text.to_string())).unwrap();
    let m = ctx.add_macro(Loc { src: Source::File(id), start: 4, end: 8 }, "2".to_string());
    let mut stacked = Lexer::new("", Source::File(id));
    stacked.push("* 3", Source::File(id));
    stacked.push("2", Source::Macro(m));
    let mut parser = Parser::new_default(stacked, &ctx);
    let ast = parser.parse_exp().unwrap().unwrap();
    // "2" comes from the macro called at 4..8, "* 3" from the file: the product
    // lies in the file, from the "3" to the end of the call
    assert_eq!(ast.loc, Loc { src: Source::File(id), start: 2, end: 8 });
}

#[test]
fn scopes_fall_back_to_their_parent() {
    let parent: Scope<'_, &str, u32> = Scope { owned: vec![("a", 1), ("b", 2)], parent: None };
    let child = Scope { owned: vec![("b", 20), ("c", 30)], parent: Some(&parent) };
    assert_eq!(child.get("a"), Some(&1));
    assert_eq!(child.get("b"), Some(&20));
    assert_eq!(child.get("c"), Some(&30));
    assert_eq!(child.get("d"), None);
    assert_eq!(child.get_ref(&"a"), Some(&1));
    assert_eq!(parent.get("c"), None);
}

#[test]
fn paren_closer_check() {
    let ok = Located { value: Token::Name(")"), loc: file_loc(0, 1) };
    assert!(check_paren_closer_error(&ok).is_ok());
    let bad = Located { value: Token::Name("]"), loc: file_loc(2, 3) };
    let e = check_paren_closer_error(&bad).unwrap_err();
    assert!(matches!(e.value, ParseError::ExpectedParenClose("]")));
    assert_eq!(e.loc, file_loc(2, 3));
    let num = Located { value: Token::Num(4), loc: file_loc(0, 1) };
    assert!(matches!(check_paren_closer_error(&num).unwrap_err().value, ParseError::ExpectedParenCloseNum));
    let s = Located { value: Token::Str("x".to_string()), loc: file_loc(0, 3) };
    assert!(matches!(check_paren_closer_error(&s).unwrap_err().value, ParseError::ExpectedParenCloseString));
}

#[test]
fn infix_combine_builds_an_operator_node() {
    let op = BasicInfix { id: OpID::SHL(), bps: (55, 56) };
    assert_eq!(op.bp(), (55, 56));
    let lhs = Located { value: Ast::IntLit(1), loc: file_loc(0, 1) };
    let rhs = Located { value: Ast::IntLit(2), loc: file_loc(5, 6) };
    match op.combine(file_loc(2, 4), lhs, rhs).unwrap() {
        Ast::Op(call) => {
            assert_eq!(call.rator, Located { value: OpID(23), loc: file_loc(2, 4) });
            assert_eq!(call.rands.len(), 2);
            assert_eq!(call.rands[1].value, Ast::IntLit(2));
        }
        other => panic!("expected an operator, got {:?}", other),
    }
}

#[test]
fn operator_ids() {
    let ids = [
        OpID::ADD_BIN(),
        OpID::SUB_BIN(),
        OpID::MUL_BIN(),
        OpID::DIV_BIN(),
        OpID::NEG_PRE(),
        OpID::DEREF_PRE(),
        OpID::ADDR_PRE(),
        OpID::NOT_PRE(),
        OpID::BIT_AND(),
        OpID::BIT_OR(),
        OpID::BIT_XOR(),
        OpID::SHL(),
        OpID::SHR(),
        OpID::LOG_AND(),
        OpID::LOG_OR(),
        OpID::ASSIGN(),
        OpID::TUPLE(),
        OpID::DOT(),
        OpID::QMARK_POST(),
    ];
    let nums: Vec<u32> = ids.iter().map(|o| o.0).collect();
    assert_eq!(nums, vec![1, 2, 3, 4, 10, 11, 12, 13, 20, 21, 22, 23, 24, 30, 31, 40, 41, 42, 43]);
}

#[test]
fn locations_combine_within_one_source() {
    let a = file_loc(3, 5);
    let b = file_loc(1, 4);
    assert_eq!(a.simple_combine(&b), Some(file_loc(1, 5)));
    let c = Loc { src: Source::Macro(MacroId(0)), start: 0, end: 1 };
    assert_eq!(a.simple_combine(&c), None);
}

#[test]
fn located_values_keep_their_location() {
    let l = Located::new(5u32, file_loc(1, 2));
    let m = l.map_owned(|x| x * 2);
    assert_eq!(m, Located { value: 10u32, loc: file_loc(1, 2) });
    assert_eq!(m.with("s"), Located { value: "s", loc: file_loc(1, 2) });
    assert_eq!(file_loc(0, 1).with(1u8).into_inner(), 1u8);
    let e: Located<ParseError<'static>> = Located::new(LexError::MissingStringClose, file_loc(4, 5)).fixtype();
    assert!(matches!(e.value, ParseError::Lex(LexError::MissingStringClose)));
    assert_eq!(e.loc, file_loc(4, 5));
}

#[test]
fn shared_handles_share_their_data() {
    let s = SliceRC::new(Rc::from(vec![1, 2, 3]));
    let t = s.clone();
    assert_eq!(t.as_slice(), &[1, 2, 3]);
    assert_eq!(&*s.into_rc(), &[1, 2, 3]);
    let v = RC::new(Rc::new("x".to_string()));
    assert_eq!(v.clone().get(), "x");
    let a = StrRC::from_string("héllo".to_string());
    let b = StrRC::new(Rc::from("héllo"));
    assert!(a == b);
    assert!(a != StrRC::from(Rc::from("hello")));
    assert_eq!(a.clone().as_str(), "héllo");
}

#[test]
fn interned_handles_compare_by_place() {
    let x = Type::Void;
    let y = Type::Void;
    let ix = Interned::new_unchecked(&x);
    let iy = Interned::new_unchecked(&y);
    assert!(ix == ix.clone());
    assert!(ix != iy);
    assert_eq!(*ix.get(), Type::Void);
    let items = [Type::String, Type::Int(IntType { sign: IntSign::Signed, size: IntSize::I32 })];
    let s = InternedSlice::new_unchecked(&items);
    assert_eq!(s.as_slice().len(), 2);
    assert!(s == s);
    let thin = ThinSlice::new_unchecked(&s);
    assert_eq!(thin.as_slice()[0], Type::String);
    assert!(Type::Pointer(ix) == Type::Pointer(ix));
    assert!(Type::Tuple(s) != Type::Tuple(InternedSlice::new_unchecked(&items[..1])));
}

#[test]
fn top_level_locations() {
    let l = SpanLoc { src: 2, start: 0, end: 4 };
    let t = SourceType::Macro(SpanLoc { src: 2, start: 0, end: 4 });
    assert_eq!(t, SourceType::Macro(l));
    assert_ne!(SourceType::File("a".to_string()), SourceType::Repl);
}

#[test]
fn parse_error_messages() {
    assert_eq!(ParseError::UnknownName("foo").message(), "unknown name: \"foo\"");
    assert_eq!(ParseError::MissingPrefix("+").message(), "\"+\" is not a value or prefix operator");
    assert_eq!(ParseError::ExpectedValue.message(), "expected a value after this found end of expression");
    assert_eq!(ParseError::ExpectedParenClose(";").message(), "expected \")\" found \";\"");
    assert_eq!(ParseError::ExpectedParenCloseString.message(), "expected \")\" found string");
    assert_eq!(ParseError::ExpectedParenCloseNum.message(), "expected \")\" found number");
    assert_eq!(ParseError::ExpectedParenCloseEOF.message(), "expected \")\" found EOF");
    assert_eq!(
        ParseError::Lex(LexError::WeirdNumberEnd('z')).message(),
        "invalid number ending with 'z'"
    );
}

#[test]
fn a_name_bound_again_takes_the_later_binding() {
    let parent: Scope<'_, &str, u32> = Scope { owned: vec![("a", 1), ("a", 2)], parent: None };
    assert_eq!(parent.get("a"), Some(&2));
    let child = Scope { owned: vec![("b", 3), ("a", 4), ("b", 5)], parent: Some(&parent) };
    assert_eq!(child.get("a"), Some(&4));
    assert_eq!(child.get("b"), Some(&5));
    assert_eq!(child.get_ref(&"b"), Some(&5));
}
