//! Locations, tokens, errors and the syntax tree of the expression language.
//! The lexer and the parser themselves live in `lexer` and `parser`; their
//! public items are re-exported here.
use vstd::prelude::*;
use crate::input::Source;
use crate::types::{GVarID, VarID};
use crate::text::string_push;
use vstd::string::StringExecFns;
use std::ops::Deref;
pub use crate::lexer::{BasicLexer, Lexer};
pub use crate::parser::{
    check_paren_closer_error, parse_arg_list, BasicInfix, BasicPostfix, BasicPrefix, CallPostfix, InfixOp,
    ParenPrefix, ParseOptions, Parser, PostParse, PostfixRule, PrefixRule, Scope,
};

verus! {

#[derive(Debug, Copy, Clone, PartialEq, Eq, Hash, Structural)]
pub struct OpID(pub u32);

#[derive(Clone, Copy, PartialEq, Eq, Debug, Hash, Structural)]
pub struct Loc {
    pub src: Source,
    pub start: usize,
    pub end: usize,  //exclusive
}

/// The smallest span covering both `a` and `b` (their sources must agree).
pub open spec fn span_hull(a: Loc, b: Loc) -> Loc {
    Loc {
        src: a.src,
        start: if a.start <= b.start { a.start } else { b.start },
        end: if a.end >= b.end { a.end } else { b.end },
    }
}

impl Loc {
    pub fn simple_combine(self, other: &Loc) -> (r: Option<Loc>)
        ensures
            r == (if self.src == other.src { Some(span_hull(self, *other)) } else { None }),
    {
        if self.src != other.src {
            return None;
        }
        Some(
            Loc {
                src: self.src,
                start: if self.start <= other.start { self.start } else { other.start },
                end: if self.end >= other.end { self.end } else { other.end },
            },
        )
    }

    pub fn with<T>(self, value: T) -> (r: Located<T>)
        ensures
            r.value == value,
            r.loc == self,
    {
        Located { value, loc: self }
    }
}

#[derive(Clone, Copy, Debug, PartialEq)]
pub struct Located<T> {
    pub value: T,
    pub loc: Loc,
}

impl<T> Located<T> {
    pub fn new(value: T, loc: Loc) -> (r: Self)
        ensures
            r.value == value,
            r.loc == loc,
    {
        Self { value, loc }
    }

    pub fn into_inner(self) -> (r: T)
        ensures
            r == self.value,
    {
        self.value
    }

    pub fn map_owned<U>(self, f: impl Fn(T) -> U) -> (r: Located<U>)
        requires
            call_requires(f, (self.value,)),
        ensures
            call_ensures(f, (self.value,), r.value),
            r.loc == self.loc,
    {
        Located { value: f(self.value), loc: self.loc }
    }

    pub fn with<U>(&self, value: U) -> (r: Located<U>)
        ensures
            r.value == value,
            r.loc == self.loc,
    {
        Located { value, loc: self.loc }
    }

    pub fn fixtype<U: From<T>>(self) -> (r: Located<U>)
        ensures
            call_ensures(U::from, (self.value,), r.value),
            r.loc == self.loc,
    {
        Located { value: U::from(self.value), loc: self.loc }
    }
}

impl<T> Deref for Located<T> {
    type Target = T;

    fn deref(&self) -> (r: &T)
        ensures
            *r == self.value,
    {
        &self.value
    }
}

#[derive(Debug, Clone, Copy, PartialEq, Eq, Structural)]
pub enum LexError {
    WeirdNumberEnd(char),
    // UnKnowenEscape(char),
    MissingStringClose,
}

impl LexError {
    /// The message of the error, as it is displayed.
    pub fn message(&self) -> (r: String)
        ensures
            r@ == lex_error_message(*self),
    {
        match self {
            LexError::WeirdNumberEnd(c) => {
                let mut s = String::from_str("invalid number ending with '");
                string_push(&mut s, *c);
                s.append("'");
                s
            },
            LexError::MissingStringClose => String::from_str("missing closing quote in string"),
        }
    }
}

pub open spec fn lex_error_message(e: LexError) -> Seq<char> {
    match e {
        LexError::WeirdNumberEnd(c) => "invalid number ending with '"@.push(c) + "'"@,
        LexError::MissingStringClose => "missing closing quote in string"@,
    }
}

pub type LexRes<T> = Result<T, Located<LexError>>;

#[derive(Debug, PartialEq, Hash)]
pub enum Token<'a> {
    Name(&'a str),
    Num(u64),
    Str(String),
}

/// The content of a token, with strings as character sequences.
pub enum TokenView {
    Name(Seq<char>),
    Num(u64),
    Str(Seq<char>),
}

impl<'a> View for Token<'a> {
    type V = TokenView;

    open spec fn view(&self) -> TokenView {
        match self {
            Token::Name(n) => TokenView::Name(n@),
            Token::Num(x) => TokenView::Num(*x),
            Token::Str(s) => TokenView::Str(s@),
        }
    }
}

pub type Bp = i32;

#[derive(Debug, Clone)]
pub enum ParseError<'a> {
    Lex(LexError),
    UnknownName(&'a str),
    MissingPrefix(&'a str),
    ExpectedValue,
    ExpectedParenClose(&'a str),
    ExpectedParenCloseString,
    ExpectedParenCloseNum,
    ExpectedParenCloseEOF,
}

/// The content of a parse error, with names as character sequences.
pub enum ParseErrorView {
    Lex(LexError),
    UnknownName(Seq<char>),
    MissingPrefix(Seq<char>),
    ExpectedValue,
    ExpectedParenClose(Seq<char>),
    ExpectedParenCloseString,
    ExpectedParenCloseNum,
    ExpectedParenCloseEOF,
}

impl<'a> View for ParseError<'a> {
    type V = ParseErrorView;

    open spec fn view(&self) -> ParseErrorView {
        match self {
            ParseError::Lex(e) => ParseErrorView::Lex(*e),
            ParseError::UnknownName(n) => ParseErrorView::UnknownName(n@),
            ParseError::MissingPrefix(n) => ParseErrorView::MissingPrefix(n@),
            ParseError::ExpectedValue => ParseErrorView::ExpectedValue,
            ParseError::ExpectedParenClose(n) => ParseErrorView::ExpectedParenClose(n@),
            ParseError::ExpectedParenCloseString => ParseErrorView::ExpectedParenCloseString,
            ParseError::ExpectedParenCloseNum => ParseErrorView::ExpectedParenCloseNum,
            ParseError::ExpectedParenCloseEOF => ParseErrorView::ExpectedParenCloseEOF,
        }
    }
}

/// The message of a parse error, as it is displayed.
pub open spec fn parse_error_message(e: ParseErrorView) -> Seq<char> {
    match e {
        ParseErrorView::Lex(l) => lex_error_message(l),
        ParseErrorView::UnknownName(n) => "unknown name: \""@ + n + "\""@,
        ParseErrorView::MissingPrefix(n) => "\""@ + n + "\" is not a value or prefix operator"@,
        ParseErrorView::ExpectedValue => "expected a value after this found end of expression"@,
        ParseErrorView::ExpectedParenClose(n) => "expected \")\" found \""@ + n + "\""@,
        ParseErrorView::ExpectedParenCloseString => "expected \")\" found string"@,
        ParseErrorView::ExpectedParenCloseNum => "expected \")\" found number"@,
        ParseErrorView::ExpectedParenCloseEOF => "expected \")\" found EOF"@,
    }
}

impl<'a> ParseError<'a> {
    /// The message of the error, as it is displayed.
    pub fn message(&self) -> (r: String)
        ensures
            r@ == parse_error_message(self@),
    {
        match self {
            ParseError::Lex(l) => l.message(),
            ParseError::UnknownName(n) => {
                let mut s = String::from_str("unknown name: \"");
                s.append(n);
                s.append("\"");
                s
            },
            ParseError::MissingPrefix(n) => {
                let mut s = String::from_str("\"");
                s.append(n);
                s.append("\" is not a value or prefix operator");
                s
            },
            ParseError::ExpectedValue => String::from_str("expected a value after this found end of expression"),
            ParseError::ExpectedParenClose(n) => {
                let mut s = String::from_str("expected \")\" found \"");
                s.append(n);
                s.append("\"");
                s
            },
            ParseError::ExpectedParenCloseString => String::from_str("expected \")\" found string"),
            ParseError::ExpectedParenCloseNum => String::from_str("expected \")\" found number"),
            ParseError::ExpectedParenCloseEOF => String::from_str("expected \")\" found EOF"),
        }
    }
}

pub type ParseRes<'a, T = LocAst> = Result<T, Located<ParseError<'a>>>;

pub type ParseOpRes<'a, T = LocAst> = ParseRes<'a, Option<T>>;

impl<'a> From<LexError> for ParseError<'a> {
    fn from(e: LexError) -> (r: Self) {
        Self::Lex(e)
    }
}

impl<'a> vstd::std_specs::convert::FromSpecImpl<LexError> for ParseError<'a> {
    open spec fn obeys_from_spec() -> bool {
        true
    }

    open spec fn from_spec(e: LexError) -> Self {
        ParseError::Lex(e)
    }
}

#[derive(Debug, PartialEq)]
pub struct OpCall {
    pub rator: Located<OpID>,
    pub rands: Vec<LocAst>,
}

#[derive(Debug, PartialEq)]
pub enum Ast {
    /// op is distinguished from function style call
    /// this allows for piping and similar ideas
    Op(OpCall),
    /// this is used for functions
    Call(Box<LocAst>, Vec<LocAst>),
    // basics:
    StringLit(String),
    Void,
    IntLit(u64),
    SignedInt(i64),
    Var(VarID),
    GlobalVar(GVarID),  //can't be function
}

pub type LocAst = Located<Ast>;

/// A syntax tree with strings as character sequences.
pub enum AstView {
    Op(Located<OpID>, Seq<(AstView, Loc)>),
    Call(Box<(AstView, Loc)>, Seq<(AstView, Loc)>),
    StringLit(Seq<char>),
    Void,
    IntLit(u64),
    SignedInt(i64),
    Var(VarID),
    GlobalVar(GVarID),
}

pub open spec fn ast_view(a: Ast) -> AstView
    decreases a,
{
    match a {
        Ast::Op(c) => AstView::Op(c.rator, loc_asts_view(c.rands@)),
        Ast::Call(f, args) => AstView::Call(
            Box::new((ast_view(f.value), f.loc)),
            loc_asts_view(args@),
        ),
        Ast::StringLit(s) => AstView::StringLit(s@),
        Ast::Void => AstView::Void,
        Ast::IntLit(x) => AstView::IntLit(x),
        Ast::SignedInt(x) => AstView::SignedInt(x),
        Ast::Var(v) => AstView::Var(v),
        Ast::GlobalVar(v) => AstView::GlobalVar(v),
    }
}

pub open spec fn loc_asts_view(v: Seq<LocAst>) -> Seq<(AstView, Loc)>
    decreases v,
{
    if v.len() == 0 {
        seq![]
    } else {
        seq![(ast_view(v[0].value), v[0].loc)] + loc_asts_view(v.drop_first())
    }
}

pub open spec fn loc_ast_view(a: LocAst) -> (AstView, Loc) {
    (ast_view(a.value), a.loc)
}

impl OpID {
    // ----- Arithmetic (binary) -----
    #[verifier::allow_in_spec]
    #[allow(non_snake_case)]
    pub fn ADD_BIN() -> OpID
        returns
            OpID(1),
    {
        OpID(1)
    }    // +
    #[verifier::allow_in_spec]
    #[allow(non_snake_case)]
    pub fn SUB_BIN() -> OpID
        returns
            OpID(2),
    {
        OpID(2)
    }    // -
    #[verifier::allow_in_spec]
    #[allow(non_snake_case)]
    pub fn MUL_BIN() -> OpID
        returns
            OpID(3),
    {
        OpID(3)
    }    // *
    #[verifier::allow_in_spec]
    #[allow(non_snake_case)]
    pub fn DIV_BIN() -> OpID
        returns
            OpID(4),
    {
        OpID(4)
    }    // /
    // ----- Unary prefix -----
    #[verifier::allow_in_spec]
    #[allow(non_snake_case)]
    pub fn NEG_PRE() -> OpID
        returns
            OpID(10),
    {
        OpID(10)
    }    // -x
    #[verifier::allow_in_spec]
    #[allow(non_snake_case)]
    pub fn DEREF_PRE() -> OpID
        returns
            OpID(11),
    {
        OpID(11)
    }    // *x
    #[verifier::allow_in_spec]
    #[allow(non_snake_case)]
    pub fn ADDR_PRE() -> OpID
        returns
            OpID(12),
    {
        OpID(12)
    }    // &x
    #[verifier::allow_in_spec]
    #[allow(non_snake_case)]
    pub fn NOT_PRE() -> OpID
        returns
            OpID(13),
    {
        OpID(13)
    }    // !x
    // ----- Bitwise (binary) -----
    #[verifier::allow_in_spec]
    #[allow(non_snake_case)]
    pub fn BIT_AND() -> OpID
        returns
            OpID(20),
    {
        OpID(20)
    }    // &
    #[verifier::allow_in_spec]
    #[allow(non_snake_case)]
    pub fn BIT_OR() -> OpID
        returns
            OpID(21),
    {
        OpID(21)
    }    // |
    #[verifier::allow_in_spec]
    #[allow(non_snake_case)]
    pub fn BIT_XOR() -> OpID
        returns
            OpID(22),
    {
        OpID(22)
    }    // ^
    #[verifier::allow_in_spec]
    #[allow(non_snake_case)]
    pub fn SHL() -> OpID
        returns
            OpID(23),
    {
        OpID(23)
    }    // <<
    #[verifier::allow_in_spec]
    #[allow(non_snake_case)]
    pub fn SHR() -> OpID
        returns
            OpID(24),
    {
        OpID(24)
    }    // >>
    // ----- Logical (binary) -----
    #[verifier::allow_in_spec]
    #[allow(non_snake_case)]
    pub fn LOG_AND() -> OpID
        returns
            OpID(30),
    {
        OpID(30)
    }    // &&
    #[verifier::allow_in_spec]
    #[allow(non_snake_case)]
    pub fn LOG_OR() -> OpID
        returns
            OpID(31),
    {
        OpID(31)
    }    // ||
    // ----- Assignment -----
    #[verifier::allow_in_spec]
    #[allow(non_snake_case)]
    pub fn ASSIGN() -> OpID
        returns
            OpID(40),
    {
        OpID(40)
    }    // =
    #[verifier::allow_in_spec]
    #[allow(non_snake_case)]
    pub fn TUPLE() -> OpID
        returns
            OpID(41),
    {
        OpID(41)
    }    // (x,y,..)
    // ----- Access -----
    #[verifier::allow_in_spec]
    #[allow(non_snake_case)]
    pub fn DOT() -> OpID
        returns
            OpID(42),
    {
        OpID(42)
    }    // .
    // ----- Postfix -----
    #[verifier::allow_in_spec]
    #[allow(non_snake_case)]
    pub fn QMARK_POST() -> OpID
        returns
            OpID(43),
    {
        OpID(43)
    }    // ?
}

} // verus!
