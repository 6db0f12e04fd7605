//! The Pratt parser: a table of operator names gives each name an optional
//! prefix rule and an optional infix or postfix rule with binding powers.
use vstd::prelude::*;
use crate::input::{combine_spec, root_file, FileId, MacroCall, Source, SourceContext};
use crate::lexer::{item_loc, lex_all, LexItem, Lexer};
use crate::parse::{
    ast_view, loc_ast_view, loc_asts_view, Ast, AstView, Bp, Loc, LocAst, Located, OpCall, OpID, ParseError,
    ParseErrorView, ParseOpRes, ParseRes, Token, TokenView,
};
use crate::text::str_eq;

verus! {

#[derive(Clone, Copy, Debug, PartialEq, Eq, Structural)]
pub struct BasicPrefix {
    pub id: OpID,
    pub bp: Bp,
}

#[derive(Clone, Copy, Debug, PartialEq, Eq, Structural)]
pub struct ParenPrefix;

#[derive(Clone, Copy, Debug, PartialEq, Eq)]
pub struct BasicInfix {
    pub id: OpID,
    pub bps: (Bp, Bp),
}

#[derive(Clone, Copy, Debug, PartialEq, Eq, Structural)]
pub struct BasicPostfix {
    pub id: OpID,
    pub bp: Bp,
}

#[derive(Clone, Copy, Debug, PartialEq, Eq, Structural)]
pub struct CallPostfix;

/// What a name does at the start of an expression.
#[derive(Clone, Copy, Debug)]
pub enum PrefixRule {
    Basic(BasicPrefix),
    Paren(ParenPrefix),
}

/// What a name does after a complete operand, as a postfix operator.
#[derive(Clone, Copy, Debug)]
pub enum PostfixRule {
    Basic(BasicPostfix),
    Call(CallPostfix),
}

#[derive(Clone, Copy, Debug)]
pub enum PostParse {
    Infix(BasicInfix),
    Postfix(PostfixRule),
}

#[derive(Clone, Copy, Debug)]
pub struct ParseOptions {
    pub pre: Option<PrefixRule>,
    pub post: Option<PostParse>,
}

pub trait InfixOp {
    fn combine(&self, my_loc: Loc, lhs: LocAst, rhs: LocAst) -> ParseRes<'static, Ast>;

    fn bp(&self) -> (Bp, Bp);
}

impl InfixOp for BasicInfix {
    fn combine(&self, my_loc: Loc, lhs: LocAst, rhs: LocAst) -> (r: ParseRes<'static, Ast>)
        ensures
            r matches Ok(a) && ast_view(a) == AstView::Op(
                Located { value: self.id, loc: my_loc },
                seq![loc_ast_view(lhs), loc_ast_view(rhs)],
            ),
    {
        let mut rands = Vec::new();
        rands.push(lhs);
        rands.push(rhs);
        proof {
            lemma_loc_asts_view_two(rands@);
        }
        Ok(Ast::Op(OpCall { rator: my_loc.with(self.id), rands }))
    }

    fn bp(&self) -> (r: (Bp, Bp))
        ensures
            r == self.bps,
    {
        self.bps
    }
}

pub proof fn lemma_loc_asts_view_two(v: Seq<LocAst>)
    requires
        v.len() == 2,
    ensures
        loc_asts_view(v) == seq![loc_ast_view(v[0]), loc_ast_view(v[1])],
{
    reveal_with_fuel(loc_asts_view, 3);
    assert(v.drop_first().drop_first() =~= Seq::<LocAst>::empty());
    assert(loc_asts_view(v) =~= seq![loc_ast_view(v[0]), loc_ast_view(v[1])]);
}

/// Names and what they are bound to, falling back to an enclosing scope.
pub struct Scope<'b, K, V> {
    pub owned: Vec<(K, V)>,
    pub parent: Option<&'b Scope<'b, K, V>>,
}

/// Index of the last entry of `v` whose name is `key`: a name bound again
/// replaces what it was bound to before.
pub open spec fn find_key<'k, V>(v: Seq<(&'k str, V)>, key: Seq<char>) -> Option<int>
    decreases v.len(),
{
    if v.len() == 0 {
        None
    } else if v.last().0@ == key {
        Some(v.len() - 1)
    } else {
        find_key(v.drop_last(), key)
    }
}

/// When no entry from `i` on has the name `key`, the entry found is the one
/// just before `i`, if it has that name, and there is none when `i` is 0.
pub proof fn lemma_find_key<'k, V>(v: Seq<(&'k str, V)>, key: Seq<char>, i: int)
    requires
        0 <= i <= v.len(),
        forall|j: int| i <= j < v.len() ==> (#[trigger] v[j]).0@ != key,
    ensures
        i > 0 && v[i - 1].0@ == key ==> find_key(v, key) == Some(i - 1),
        i == 0 ==> find_key(v, key) is None,
    decreases v.len(),
{
    if v.len() > 0 && i < v.len() {
        let w = v.drop_last();
        assert(v[v.len() - 1] == v.last());
        assert forall|j: int| i <= j < w.len() implies (#[trigger] w[j]).0@ != key by {
            assert(w[j] == v[j]);
        }
        lemma_find_key(w, key, i);
        if i > 0 {
            assert(w[i - 1] == v[i - 1]);
        }
    }
}

impl<'b, 'k, V> Scope<'b, &'k str, V> {
    /// What `key` is bound to here or in an enclosing scope.
    pub open spec fn lookup(self, key: Seq<char>) -> Option<V>
        decreases self,
    {
        match find_key(self.owned@, key) {
            Some(i) => Some(self.owned@[i].1),
            None => match self.parent {
                Some(p) => p.lookup(key),
                None => None,
            },
        }
    }

    /// No name is bound twice in this scope itself (an enclosing scope may bind
    /// it again, and is then shadowed).
    pub open spec fn names_unique(self) -> bool {
        forall|i: int, j: int|
            0 <= i < j < self.owned@.len() ==> (#[trigger] self.owned@[i]).0@ != (#[trigger] self.owned@[j]).0@
    }

    /// In a scope that binds each name once, a name bound here is looked up to
    /// what it is bound to.
    pub proof fn lemma_unique_lookup(self, i: int)
        requires
            self.names_unique(),
            0 <= i < self.owned@.len(),
        ensures
            self.lookup(self.owned@[i].0@) == Some(self.owned@[i].1),
    {
        let key = self.owned@[i].0@;
        assert forall|j: int| i + 1 <= j < self.owned@.len() implies (#[trigger] self.owned@[j]).0@ != key by {
            assert(self.owned@[i].0@ != self.owned@[j].0@);
        }
        lemma_find_key(self.owned@, key, i + 1);
    }

    fn find_owned(&self, key: &str) -> (r: Option<usize>)
        ensures
            r matches Some(i) ==> find_key(self.owned@, key@) == Some(i as int) && i < self.owned@.len(),
            r is None ==> find_key(self.owned@, key@) is None,
    {
        let mut i: usize = self.owned.len();
        while i > 0
            invariant
                0 <= i <= self.owned@.len(),
                forall|j: int| i <= j < self.owned@.len() ==> (#[trigger] self.owned@[j]).0@ != key@,
            decreases i,
        {
            if str_eq(self.owned[i - 1].0, key) {
                proof {
                    lemma_find_key(self.owned@, key@, i as int);
                }
                return Some(i - 1);
            }
            i = i - 1;
        }
        proof {
            lemma_find_key(self.owned@, key@, 0);
        }
        None
    }

    pub fn get(&self, key: &'k str) -> (r: Option<&V>)
        ensures
            r == (match self.lookup(key@) {
                Some(v) => Some(&v),
                None => None,
            }),
        decreases self,
    {
        match self.find_owned(key) {
            Some(i) => Some(&self.owned[i].1),
            None => match self.parent {
                Some(p) => p.get(key),
                None => None,
            },
        }
    }

    pub fn get_ref(&self, key: &&'k str) -> (r: Option<&V>)
        ensures
            r == (match self.lookup((*key)@) {
                Some(v) => Some(&v),
                None => None,
            }),
        decreases self,
    {
        match self.find_owned(*key) {
            Some(i) => Some(&self.owned[i].1),
            None => match self.parent {
                Some(p) => p.get_ref(key),
                None => None,
            },
        }
    }
}

/// What the parser reads names through: the options each name has.
pub type Table = spec_fn(Seq<char>) -> Option<ParseOptions>;

/// A parse error with its location.
pub type ErrView = (ParseErrorView, Loc);

/// A parsed expression with its location.
pub type ExprView = (AstView, Loc);

pub open spec fn lex_err(e: crate::parse::LexError, l: Loc) -> ErrView {
    (ParseErrorView::Lex(e), l)
}

/// The location two spans are joined at (when they can be).
pub open spec fn join(m: Seq<MacroCall>, a: Loc, b: Loc) -> Loc {
    combine_spec(m, a, b).unwrap()
}

/// Takes the next token.
pub open spec fn s_next(s: Seq<LexItem>) -> (Result<Option<(TokenView, Loc)>, ErrView>, Seq<LexItem>) {
    if s.len() == 0 {
        (Ok(None), s)
    } else {
        match s[0] {
            LexItem::Tok(t, l) => (Ok(Some((t, l))), s.drop_first()),
            LexItem::Fail(e, l) => (Err(lex_err(e, l)), s.drop_first()),
        }
    }
}

/// Looks at the next token: the location of the name `need` when it is next.
pub open spec fn s_check_name(s: Seq<LexItem>, need: Seq<char>) -> (Result<Option<Loc>, ErrView>, Seq<LexItem>) {
    if s.len() == 0 {
        (Ok(None), s)
    } else {
        match s[0] {
            LexItem::Tok(TokenView::Name(n), l) => (Ok(if n == need { Some(l) } else { None }), s),
            LexItem::Tok(_, _) => (Ok(None), s),
            LexItem::Fail(e, l) => (Err(lex_err(e, l)), s.drop_first()),
        }
    }
}

/// Takes the name `need` when it is next.
pub open spec fn s_try_name(s: Seq<LexItem>, need: Seq<char>) -> (Result<Option<Loc>, ErrView>, Seq<LexItem>) {
    match s_check_name(s, need) {
        (Ok(Some(l)), r) => (Ok(Some(l)), r.drop_first()),
        other => other,
    }
}

/// A closing parenthesis is `)`; anything else is reported.
pub open spec fn s_closer(t: TokenView, l: Loc) -> Result<(), ErrView> {
    match t {
        TokenView::Name(n) => if n == seq![')'] {
            Ok(())
        } else {
            Err((ParseErrorView::ExpectedParenClose(n), l))
        },
        TokenView::Str(_) => Err((ParseErrorView::ExpectedParenCloseString, l)),
        TokenView::Num(_) => Err((ParseErrorView::ExpectedParenCloseNum, l)),
    }
}

/// The left binding power of a postfix or infix rule.
pub open spec fn post_lbp(p: PostParse) -> Bp {
    match p {
        PostParse::Infix(op) => op.bps.0,
        PostParse::Postfix(PostfixRule::Basic(b)) => b.bp,
        PostParse::Postfix(PostfixRule::Call(_)) => 80,
    }
}

/// An expression whose operators bind at least as tightly as `min_bp`, read
/// from the front of `s`; `None` at the end of the input.
pub open spec fn s_expr(t: Table, m: Seq<MacroCall>, s: Seq<LexItem>, min_bp: Bp) -> (Result<Option<ExprView>, ErrView>, Seq<LexItem>)
    decreases s.len(), 0nat,
{
    if s.len() == 0 {
        (Ok(None), s)
    } else {
        match s[0] {
            LexItem::Fail(e, l) => (Err(lex_err(e, l)), s.drop_first()),
            LexItem::Tok(tok, l) => {
                let s1 = s.drop_first();
                let (lhs, s2) = match tok {
                    TokenView::Str(x) => (Ok((AstView::StringLit(x), l)), s1),
                    TokenView::Num(i) => (Ok((AstView::IntLit(i), l)), s1),
                    TokenView::Name(n) => match t(n) {
                        None => (Err((ParseErrorView::UnknownName(n), l)), s1),
                        Some(o) => match o.pre {
                            None => (Err((ParseErrorView::MissingPrefix(n), l)), s1),
                            Some(p) => s_prefix(t, m, s1, p, l),
                        },
                    },
                };
                match lhs {
                    Err(e) => (Err(e), s2),
                    Ok(lhs) => if s2.len() < s.len() {
                        match s_loop(t, m, s2, lhs, min_bp) {
                            (Ok(x), r) => (Ok(Some(x)), r),
                            (Err(e), r) => (Err(e), r),
                        }
                    } else {
                        (Ok(Some(lhs)), s2)
                    },
                }
            },
        }
    }
}

/// The postfix and infix operators that follow the operand `lhs`.
pub open spec fn s_loop(t: Table, m: Seq<MacroCall>, s: Seq<LexItem>, lhs: ExprView, min_bp: Bp) -> (Result<ExprView, ErrView>, Seq<LexItem>)
    decreases s.len(), 1nat,
{
    if s.len() == 0 {
        (Ok(lhs), s)
    } else {
        match s[0] {
            LexItem::Fail(e, l) => (Err(lex_err(e, l)), s.drop_first()),
            LexItem::Tok(TokenView::Name(n), l) => match t(n) {
                None => (Ok(lhs), s),
                Some(o) => match o.post {
                    None => (Ok(lhs), s),
                    Some(post) => if post_lbp(post) < min_bp {
                        (Ok(lhs), s)
                    } else {
                        let s1 = s.drop_first();
                        match post {
                            PostParse::Postfix(p) => match s_postfix(t, m, s1, p, l, lhs) {
                                (Err(e), s2) => (Err(e), s2),
                                (Ok(nl), s2) => if s2.len() < s.len() {
                                    s_loop(t, m, s2, nl, min_bp)
                                } else {
                                    (Ok(nl), s2)
                                },
                            },
                            PostParse::Infix(op) => match s_expr(t, m, s1, op.bps.1) {
                                (Err(e), s2) => (Err(e), s2),
                                (Ok(None), s2) => (Err((ParseErrorView::ExpectedValue, l)), s2),
                                (Ok(Some(rhs)), s2) => {
                                    let nl = (
                                        AstView::Op(Located { value: op.id, loc: l }, seq![lhs, rhs]),
                                        join(m, lhs.1, rhs.1),
                                    );
                                    if s2.len() < s.len() {
                                        s_loop(t, m, s2, nl, min_bp)
                                    } else {
                                        (Ok(nl), s2)
                                    }
                                },
                            },
                        }
                    },
                },
            },
            LexItem::Tok(_, _) => (Ok(lhs), s),
        }
    }
}

/// A prefix rule applied after its name (at `my_loc`).
pub open spec fn s_prefix(t: Table, m: Seq<MacroCall>, s: Seq<LexItem>, p: PrefixRule, my_loc: Loc) -> (Result<ExprView, ErrView>, Seq<LexItem>)
    decreases s.len(), 2nat,
{
    match p {
        PrefixRule::Basic(b) => match s_expr(t, m, s, b.bp) {
            (Err(e), s1) => (Err(e), s1),
            (Ok(None), s1) => (Err((ParseErrorView::ExpectedValue, my_loc)), s1),
            (Ok(Some(lhs)), s1) => (
                Ok(
                    (
                        AstView::Op(Located { value: b.id, loc: my_loc }, seq![lhs]),
                        join(m, lhs.1, my_loc),
                    ),
                ),
                s1,
            ),
        },
        PrefixRule::Paren(_) => s_paren(t, m, s, my_loc),
    }
}

/// The rest of a closing parenthesis: a `)` is next.
pub open spec fn s_close(m: Seq<MacroCall>, s: Seq<LexItem>, my_loc: Loc) -> (Result<Loc, ErrView>, Seq<LexItem>) {
    match s_next(s) {
        (Err(e), s1) => (Err(e), s1),
        (Ok(None), s1) => (Err((ParseErrorView::ExpectedParenCloseEOF, my_loc)), s1),
        (Ok(Some((ct, cl))), s1) => match s_closer(ct, cl) {
            Err(e) => (Err(e), s1),
            Ok(_) => (Ok(cl), s1),
        },
    }
}

/// A tuple with the elements `parts`, closed at `cl`.
pub open spec fn tuple_view(m: Seq<MacroCall>, parts: Seq<ExprView>, cl: Loc, my_loc: Loc) -> ExprView {
    let l = join(m, cl, my_loc);
    (AstView::Op(Located { value: OpID(41), loc: l }, parts), l)
}

/// The closing parenthesis of a tuple with the elements `parts`.
pub open spec fn s_tuple_close(m: Seq<MacroCall>, s: Seq<LexItem>, parts: Seq<ExprView>, my_loc: Loc) -> (Result<ExprView, ErrView>, Seq<LexItem>) {
    match s_close(m, s, my_loc) {
        (Err(e), s1) => (Err(e), s1),
        (Ok(cl), s1) => (Ok(tuple_view(m, parts, cl, my_loc)), s1),
    }
}

/// The closing parenthesis of a call with the arguments `args`.
pub open spec fn s_args_close(m: Seq<MacroCall>, s: Seq<LexItem>, args: Seq<ExprView>, open_loc: Loc) -> (Result<Seq<ExprView>, ErrView>, Seq<LexItem>) {
    match s_close(m, s, open_loc) {
        (Err(e), s1) => (Err(e), s1),
        (Ok(_), s1) => (Ok(args), s1),
    }
}

/// What follows an opening parenthesis at `my_loc`: `()`, `(,)`, a grouped
/// expression, or a tuple.
pub open spec fn s_paren(t: Table, m: Seq<MacroCall>, s: Seq<LexItem>, my_loc: Loc) -> (Result<ExprView, ErrView>, Seq<LexItem>)
    decreases s.len(), 1nat,
{
    match s_try_name(s, seq![')']) {
        (Err(e), s1) => (Err(e), s1),
        (Ok(Some(l)), s1) => (Ok((AstView::Void, join(m, l, my_loc))), s1),
        (Ok(None), s1) => match s_try_name(s1, seq![',']) {
            (Err(e), s2) => (Err(e), s2),
            (Ok(Some(_)), s2) => s_tuple_close(m, s2, seq![], my_loc),
            (Ok(None), s2) => if s2.len() <= s.len() {
                match s_expr(t, m, s2, i32::MIN) {
                    (Err(e), s4) => (Err(e), s4),
                    (Ok(None), s4) => (Err((ParseErrorView::ExpectedValue, my_loc)), s4),
                    (Ok(Some(lhs)), s4) => match s_next(s4) {
                        (Err(e), s5) => (Err(e), s5),
                        (Ok(None), s5) => (Err((ParseErrorView::ExpectedParenCloseEOF, my_loc)), s5),
                        (Ok(Some((ct, cl))), s5) => if ct == TokenView::Name(seq![')']) {
                            (Ok((lhs.0, join(m, cl, my_loc))), s5)
                        } else if ct == TokenView::Name(seq![',']) {
                            if s5.len() < s.len() {
                                s_tuple(t, m, s5, seq![lhs], my_loc)
                            } else {
                                (Ok(lhs), s5)
                            }
                        } else {
                            match s_closer(ct, cl) {
                                Err(e) => (Err(e), s5),
                                Ok(_) => (Ok(lhs), s5),
                            }
                        },
                    },
                }
            } else {
                (Ok((AstView::Void, my_loc)), s2)
            },
        },
    }
}

/// The elements of a tuple after its first comma; `parts` holds those read.
pub open spec fn s_tuple(t: Table, m: Seq<MacroCall>, s: Seq<LexItem>, parts: Seq<ExprView>, my_loc: Loc) -> (Result<ExprView, ErrView>, Seq<LexItem>)
    decreases s.len(), 1nat,
{
    match s_check_name(s, seq![')']) {
        (Err(e), s1) => (Err(e), s1),
        (Ok(Some(_)), s1) => s_tuple_close(m, s1, parts, my_loc),
        (Ok(None), s1) => if s1.len() <= s.len() {
            match s_expr(t, m, s1, i32::MIN) {
                (Err(e), s2) => (Err(e), s2),
                (Ok(None), s2) => s_tuple_close(m, s2, parts, my_loc),
                (Ok(Some(x)), s2) => match s_try_name(s2, seq![',']) {
                    (Err(e), s3) => (Err(e), s3),
                    (Ok(None), s3) => s_tuple_close(m, s3, parts.push(x), my_loc),
                    (Ok(Some(_)), s3) => if s3.len() < s.len() {
                        s_tuple(t, m, s3, parts.push(x), my_loc)
                    } else {
                        (Ok(x), s3)
                    },
                },
            }
        } else {
            (Ok((AstView::Void, my_loc)), s1)
        },
    }
}

/// A postfix rule applied to `lhs` after its name (at `my_loc`).
pub open spec fn s_postfix(t: Table, m: Seq<MacroCall>, s: Seq<LexItem>, p: PostfixRule, my_loc: Loc, lhs: ExprView) -> (Result<ExprView, ErrView>, Seq<LexItem>)
    decreases s.len(), 3nat,
{
    match p {
        PostfixRule::Basic(b) => (
            Ok(
                (
                    AstView::Op(Located { value: b.id, loc: my_loc }, seq![lhs]),
                    join(m, lhs.1, my_loc),
                ),
            ),
            s,
        ),
        PostfixRule::Call(_) => match s_arg_list(t, m, s, my_loc) {
            (Err(e), s1) => (Err(e), s1),
            (Ok(args), s1) => (Ok((AstView::Call(Box::new(lhs), args), join(m, lhs.1, my_loc))), s1),
        },
    }
}

/// A call's arguments after its opening parenthesis (at `open_loc`).
pub open spec fn s_arg_list(t: Table, m: Seq<MacroCall>, s: Seq<LexItem>, open_loc: Loc) -> (Result<Seq<ExprView>, ErrView>, Seq<LexItem>)
    decreases s.len(), 2nat,
{
    match s_try_name(s, seq![')']) {
        (Err(e), s1) => (Err(e), s1),
        (Ok(Some(_)), s1) => (Ok(seq![]), s1),
        (Ok(None), s1) => if s1.len() <= s.len() {
            s_args(t, m, s1, seq![], open_loc)
        } else {
            (Ok(seq![]), s1)
        },
    }
}

/// Arguments after those in `args`, each followed by a comma or the closing
/// parenthesis.
pub open spec fn s_args(t: Table, m: Seq<MacroCall>, s: Seq<LexItem>, args: Seq<ExprView>, open_loc: Loc) -> (Result<Seq<ExprView>, ErrView>, Seq<LexItem>)
    decreases s.len(), 1nat,
{
    match s_expr(t, m, s, i32::MIN) {
        (Err(e), s1) => (Err(e), s1),
        (Ok(None), s1) => (Err((ParseErrorView::ExpectedValue, open_loc)), s1),
        (Ok(Some(x)), s1) => match s_try_name(s1, seq![',']) {
            (Err(e), s2) => (Err(e), s2),
            (Ok(Some(_)), s2) => if s2.len() < s.len() {
                s_args(t, m, s2, args.push(x), open_loc)
            } else {
                (Ok(args), s2)
            },
            (Ok(None), s2) => s_args_close(m, s2, args.push(x), open_loc),
        },
    }
}

/// Every item of `s` lies in text expanded from the file `f`.
pub open spec fn rooted(m: Seq<MacroCall>, s: Seq<LexItem>, f: FileId) -> bool {
    forall|i: int| 0 <= i < s.len() ==> root_file(m, (#[trigger] item_loc(s[i])).src) == Some(f)
}

/// `a` is what remains of `b` after some of its front is read.
pub open spec fn is_suffix(a: Seq<LexItem>, b: Seq<LexItem>) -> bool {
    a.len() <= b.len() && a == b.skip(b.len() - a.len())
}

pub proof fn lemma_suffix_trans(a: Seq<LexItem>, b: Seq<LexItem>, c: Seq<LexItem>)
    requires
        is_suffix(a, b),
        is_suffix(b, c),
    ensures
        is_suffix(a, c),
{
    assert(a =~= c.skip(c.len() - a.len()));
}

pub proof fn lemma_suffix_rooted(m: Seq<MacroCall>, a: Seq<LexItem>, b: Seq<LexItem>)
    requires
        is_suffix(a, b),
    ensures
        forall|f: FileId| rooted(m, b, f) ==> rooted(m, a, f),
{
    assert forall|f: FileId| rooted(m, b, f) implies rooted(m, a, f) by {
        assert forall|i: int| 0 <= i < a.len() implies root_file(m, (#[trigger] item_loc(a[i])).src) == Some(f) by {
            assert(a[i] == b[b.len() - a.len() + i]);
        }
    }
}

pub proof fn lemma_suffix_drop_first(s: Seq<LexItem>)
    requires
        s.len() > 0,
    ensures
        is_suffix(s.drop_first(), s),
{
    assert(s.drop_first() =~= s.skip(1));
}

pub proof fn lemma_suffix_refl(s: Seq<LexItem>)
    ensures
        is_suffix(s, s),
{
    assert(s =~= s.skip(0));
}

pub proof fn lemma_loc_asts_view_push(v: Seq<LocAst>, x: LocAst)
    ensures
        loc_asts_view(v.push(x)) == loc_asts_view(v).push(loc_ast_view(x)),
    decreases v.len(),
{
    if v.len() == 0 {
        reveal_with_fuel(loc_asts_view, 2);
        assert(v.push(x).drop_first() =~= Seq::<LocAst>::empty());
        assert(loc_asts_view(v.push(x)) =~= seq![loc_ast_view(x)]);
    } else {
        lemma_loc_asts_view_push(v.drop_first(), x);
        assert(v.push(x).drop_first() =~= v.drop_first().push(x));
        assert(loc_asts_view(v.push(x)) =~= loc_asts_view(v).push(loc_ast_view(x)));
    }
}

pub proof fn lemma_loc_asts_view_one(v: Seq<LocAst>)
    requires
        v.len() == 1,
    ensures
        loc_asts_view(v) == seq![loc_ast_view(v[0])],
{
    reveal_with_fuel(loc_asts_view, 2);
    assert(v.drop_first() =~= Seq::<LocAst>::empty());
    assert(loc_asts_view(v) =~= seq![loc_ast_view(v[0])]);
}

pub open spec fn err_view<'a>(e: Located<ParseError<'a>>) -> ErrView {
    (e.value@, e.loc)
}

pub open spec fn opt_res_view<'a>(r: ParseOpRes<'a>) -> Result<Option<ExprView>, ErrView> {
    match r {
        Ok(Some(x)) => Ok(Some(loc_ast_view(x))),
        Ok(None) => Ok(None),
        Err(e) => Err(err_view(e)),
    }
}

pub open spec fn res_view<'a>(r: ParseRes<'a>) -> Result<ExprView, ErrView> {
    match r {
        Ok(x) => Ok(loc_ast_view(x)),
        Err(e) => Err(err_view(e)),
    }
}

pub open spec fn loc_res_view<'a>(r: ParseOpRes<'a, Loc>) -> Result<Option<Loc>, ErrView> {
    match r {
        Ok(x) => Ok(x),
        Err(e) => Err(err_view(e)),
    }
}

pub open spec fn args_res_view<'a>(r: ParseRes<'a, Vec<LocAst>>) -> Result<Seq<ExprView>, ErrView> {
    match r {
        Ok(v) => Ok(loc_asts_view(v@)),
        Err(e) => Err(err_view(e)),
    }
}

/// The result's location lies in the file every input token lies in.
pub open spec fn res_rooted<'a>(m: Seq<MacroCall>, s: Seq<LexItem>, extra: Loc, r: ParseRes<'a>) -> bool {
    forall|f: FileId|
        rooted(m, s, f) && root_file(m, extra.src) == Some(f) ==> (r matches Ok(x) ==> root_file(
            m,
            x.loc.src,
        ) == Some(f))
}

/// The options a scope gives each name.
pub open spec fn names_table<'me, 'a>(names: Scope<'me, &'a str, ParseOptions>) -> Table {
    |n: Seq<char>| names.lookup(n)
}

pub struct Parser<'me, 'a> {
    pub lexer: Lexer<'a>,
    pub names: Scope<'me, &'a str, ParseOptions>,
    pub ctx: &'a SourceContext,
}

impl<'me, 'a> Parser<'me, 'a> {
    /// The options the parser finds for each name.
    pub open spec fn table(self) -> Table {
        names_table(self.names)
    }

    pub open spec fn macros(self) -> Seq<MacroCall> {
        self.ctx.macros@
    }

    pub open spec fn stream(self) -> Seq<LexItem> {
        self.lexer.stream()
    }

    /// The context is well formed, the lexer is, and all the input comes from one
    /// file.
    pub open spec fn inv(self) -> bool {
        &&& self.ctx.wf()
        &&& self.lexer.wf()
        &&& exists|f: FileId| rooted(self.macros(), self.stream(), f)
    }

    /// A parsing step from `old`: only the lexer moved, along its input.
    pub open spec fn stepped(self, old: Self) -> bool {
        &&& self.ctx == old.ctx
        &&& self.names == old.names
        &&& self.lexer.wf()
        &&& is_suffix(self.stream(), old.stream())
    }

    pub proof fn lemma_stepped_inv(self, old: Self)
        requires
            old.inv(),
            self.stepped(old),
        ensures
            self.inv(),
            forall|f: FileId| rooted(old.macros(), old.stream(), f) ==> rooted(self.macros(), self.stream(), f),
    {
        lemma_suffix_rooted(self.macros(), self.stream(), old.stream());
        let f = choose|f: FileId| rooted(old.macros(), old.stream(), f);
        assert(rooted(self.macros(), self.stream(), f));
    }

    /// The invariant, given a file that all of the input lies in.
    pub proof fn lemma_inv_with(self, f: FileId)
        requires
            self.ctx.wf(),
            self.lexer.wf(),
            rooted(self.macros(), self.stream(), f),
        ensures
            self.inv(),
            forall|l: Loc| root_file(self.macros(), l.src) == Some(f) ==> #[trigger] self.inv_at(l),
            forall|l: Loc, k: Loc|
                root_file(self.macros(), l.src) == Some(f) && root_file(self.macros(), k.src) == Some(f)
                    ==> #[trigger] self.inv_at2(l, k),
    {
    }

    pub fn check_name(&mut self, need: &str) -> (r: ParseOpRes<'a, Loc>)
        requires
            old(self).inv(),
        ensures
            final(self).stepped(*old(self)),
            (loc_res_view(r), final(self).stream()) == s_check_name(old(self).stream(), need@),
    {
        let ghost s = self.stream();
        let (name, loc) = match self.lexer.peek()? {
            Some(x) => match &x.value {
                Token::Name(n) => (*n, x.loc),
                _ => {
                    proof {
                        lemma_suffix_refl(s);
                    }
                    return Ok(None);
                },
            },
            None => {
                proof {
                    lemma_suffix_refl(s);
                }
                return Ok(None);
            },
        };
        proof {
            lemma_suffix_refl(s);
        }
        if str_eq(name, need) {
            Ok(Some(loc))
        } else {
            Ok(None)
        }
    }

    pub fn try_name(&mut self, need: &str) -> (r: ParseOpRes<'a, Loc>)
        requires
            old(self).inv(),
        ensures
            final(self).stepped(*old(self)),
            (loc_res_view(r), final(self).stream()) == s_try_name(old(self).stream(), need@),
    {
        let ghost s = self.stream();
        match self.check_name(need)? {
            Some(loc) => {
                let _ = self.lexer.next();
                proof {
                    lemma_suffix_drop_first(s);
                }
                Ok(Some(loc))
            },
            None => Ok(None),
        }
    }
}

pub open spec fn lift_some(r: (Result<ExprView, ErrView>, Seq<LexItem>)) -> (Result<Option<ExprView>, ErrView>, Seq<LexItem>) {
    match r {
        (Ok(x), s) => (Ok(Some(x)), s),
        (Err(e), s) => (Err(e), s),
    }
}

/// Joins two locations that lie in text expanded from the same file.
fn join_locs(ctx: &SourceContext, a: Loc, b: Loc) -> (r: Loc)
    requires
        ctx.wf(),
        exists|f: FileId| root_file(ctx.macros@, a.src) == Some(f) && root_file(ctx.macros@, b.src) == Some(f),
    ensures
        r == join(ctx.macros@, a, b),
        forall|f: FileId|
            root_file(ctx.macros@, a.src) == Some(f) && root_file(ctx.macros@, b.src) == Some(f)
                ==> root_file(ctx.macros@, r.src) == Some(f),
{
    let ghost f = choose|f: FileId| root_file(ctx.macros@, a.src) == Some(f) && root_file(ctx.macros@, b.src) == Some(f);
    proof {
        ctx.lemma_same_root_joins(a, b, f);
    }
    match ctx.combine_locs(a, b) {
        Some(l) => l,
        None => vstd::pervasive::unreached(),
    }
}

pub fn check_paren_closer_error<'a>(closer: &Located<Token<'a>>) -> (r: ParseRes<'a, ()>)
    ensures
        match s_closer(closer.value@, closer.loc) {
            Ok(_) => r is Ok,
            Err(e) => r matches Err(x) && err_view(x) == e,
        },
{
    proof {
        reveal_strlit(")");
        assert(")"@ =~= seq![')']);
    }
    match &closer.value {
        Token::Name(t) => {
            if str_eq(t, ")") {
                Ok(())
            } else {
                Err(closer.loc.with(ParseError::ExpectedParenClose(t)))
            }
        },
        Token::Str(_) => Err(closer.loc.with(ParseError::ExpectedParenCloseString)),
        Token::Num(_) => Err(closer.loc.with(ParseError::ExpectedParenCloseNum)),
    }
}

impl<'me, 'a> Parser<'me, 'a> {
    /// The parser's invariant, with the location `l` in the same file as its input.
    pub open spec fn inv_at(self, l: Loc) -> bool {
        &&& self.ctx.wf()
        &&& self.lexer.wf()
        &&& exists|f: FileId| rooted(self.macros(), self.stream(), f) && root_file(self.macros(), l.src) == Some(f)
    }

    pub open spec fn inv_at2(self, l: Loc, k: Loc) -> bool {
        &&& self.ctx.wf()
        &&& self.lexer.wf()
        &&& exists|f: FileId|
            rooted(self.macros(), self.stream(), f) && root_file(self.macros(), l.src) == Some(f)
                && root_file(self.macros(), k.src) == Some(f)
    }

    #[inline(always)]
    pub fn parse_exp(&mut self) -> (r: ParseOpRes<'a>)
        requires
            old(self).inv(),
        ensures
            final(self).stepped(*old(self)),
            (opt_res_view(r), final(self).stream()) == s_expr(
                old(self).table(),
                old(self).macros(),
                old(self).stream(),
                i32::MIN,
            ),
            forall|f: FileId|
                rooted(old(self).macros(), old(self).stream(), f) ==> (r matches Ok(Some(x))
                    ==> root_file(old(self).macros(), x.loc.src) == Some(f)),
    {
        self.expr_bp(i32::MIN)
    }

    pub fn expr_bp(&mut self, min_bp: Bp) -> (r: ParseOpRes<'a>)
        requires
            old(self).inv(),
        ensures
            final(self).stepped(*old(self)),
            (opt_res_view(r), final(self).stream()) == s_expr(
                old(self).table(),
                old(self).macros(),
                old(self).stream(),
                min_bp,
            ),
            forall|f: FileId|
                rooted(old(self).macros(), old(self).stream(), f) ==> (r matches Ok(Some(x))
                    ==> root_file(old(self).macros(), x.loc.src) == Some(f)),
            r matches Ok(Some(_)) ==> final(self).stream().len() < old(self).stream().len(),
        decreases old(self).stream().len(), 0nat,
    {
        let ghost t = self.table();
        let ghost m = self.macros();
        let ghost s = self.stream();
        let ghost f0 = choose|f: FileId| rooted(m, s, f);
        let tok = match self.lexer.next()? {
            Some(t) => t,
            None => {
                proof {
                    lemma_suffix_refl(s);
                }
                return Ok(None);
            },
        };
        proof {
            lemma_suffix_drop_first(s);
            assert(item_loc(s[0]) == tok.loc);
            self.lemma_stepped_inv(*old(self));
        }
        let ghost s1 = self.stream();
        proof {
            lemma_suffix_refl(s1);
        }
        let mut lhs: LocAst = match tok.value {
            Token::Str(x) => tok.loc.with(Ast::StringLit(x)),
            Token::Num(i) => tok.loc.with(Ast::IntLit(i)),
            Token::Name(n) => {
                let opts = match self.names.get(n) {
                    Some(o) => *o,
                    None => {
                        return Err(tok.loc.with(ParseError::UnknownName(n)));
                    },
                };
                match opts.pre {
                    Some(PrefixRule::Basic(b)) => {
                        let r = b.parse(tok.loc, self);
                        proof {
                            lemma_suffix_trans(self.stream(), s1, s);
                        }
                        r?
                    },
                    Some(PrefixRule::Paren(p)) => {
                        let r = p.parse(tok.loc, self);
                        proof {
                            lemma_suffix_trans(self.stream(), s1, s);
                        }
                        r?
                    },
                    None => {
                        return Err(tok.loc.with(ParseError::MissingPrefix(n)));
                    },
                }
            },
        };
        proof {
            lemma_suffix_trans(self.stream(), s1, s);
            self.lemma_stepped_inv(*old(self));
        }
        loop
            invariant
                self.stepped(*old(self)),
                self.ctx.wf(),
                self.stream().len() < s.len(),
                t == self.table(),
                m == self.macros(),
                s == old(self).stream(),
                rooted(m, s, f0),
                rooted(m, self.stream(), f0),
                root_file(m, lhs.loc.src) == Some(f0),
                forall|f: FileId| rooted(m, s, f) ==> root_file(m, lhs.loc.src) == Some(f),
                s_expr(t, m, s, min_bp) == lift_some(
                    s_loop(t, m, self.stream(), loc_ast_view(lhs), min_bp),
                ),
            ensures
                s_expr(t, m, s, min_bp) == (Ok::<Option<ExprView>, ErrView>(Some(loc_ast_view(lhs))), self.stream()),
            decreases self.stream().len(),
        {
            let ghost cur = self.stream();
            let ghost before = *self;
            let peeked: ParseRes<'a, Option<&'a str>> = match self.lexer.peek() {
                Err(e) => Err(e),
                Ok(None) => Ok(None),
                Ok(Some(pt)) => Ok(
                    match &pt.value {
                        Token::Name(n) => Some(*n),
                        _ => None,
                    },
                ),
            };
            proof {
                if peeked is Err {
                    lemma_suffix_drop_first(cur);
                    lemma_suffix_trans(self.stream(), cur, s);
                } else {
                    lemma_suffix_refl(cur);
                }
            }
            let name: &'a str = match peeked? {
                None => {
                    break;
                },
                Some(n) => n,
            };
            let opts = match self.names.get(name) {
                None => {
                    break;
                },
                Some(o) => *o,
            };
            let post = match opts.post {
                None => {
                    break;
                },
                Some(p) => p,
            };
            let (l_bp, r_bp) = match post {
                PostParse::Postfix(PostfixRule::Basic(b)) => (b.bp(), 0),
                PostParse::Postfix(PostfixRule::Call(c)) => (c.bp(), 0),
                PostParse::Infix(op) => op.bp(),
            };
            if l_bp < min_bp {
                break;
            }
            let op_tok = match self.lexer.next()? {
                Some(x) => x,
                None => vstd::pervasive::unreached(),
            };
            proof {
                lemma_suffix_drop_first(cur);
                lemma_suffix_trans(self.stream(), cur, s);
                lemma_suffix_rooted(m, self.stream(), s);
                assert(item_loc(cur[0]) == op_tok.loc);
                self.lemma_inv_with(f0);
            }
            let ghost c1 = self.stream();
            lhs = match post {
                PostParse::Postfix(PostfixRule::Basic(b)) => {
                    let r = b.parse(op_tok.loc, lhs, self);
                    r?
                },
                PostParse::Postfix(PostfixRule::Call(c)) => {
                    let r = c.parse(op_tok.loc, lhs, self);
                    proof {
                        lemma_suffix_trans(self.stream(), c1, s);
                    }
                    r?
                },
                PostParse::Infix(op) => {
                    let rhs = self.expr_bp(r_bp);
                    proof {
                        lemma_suffix_trans(self.stream(), c1, s);
                    }
                    let rhs = match rhs? {
                        Some(x) => x,
                        None => {
                            return Err(op_tok.with(ParseError::ExpectedValue));
                        },
                    };
                    let loc = join_locs(self.ctx, lhs.loc, rhs.loc);
                    let ghost lv = loc_ast_view(lhs);
                    let ghost rv = loc_ast_view(rhs);
                    let val = op.combine(op_tok.loc, lhs, rhs);
                    let val = match val {
                        Ok(v) => v,
                        Err(e) => vstd::pervasive::unreached(),
                    };
                    loc.with(val)
                },
            };
            proof {
                lemma_suffix_trans(self.stream(), c1, s);
                lemma_suffix_rooted(m, self.stream(), s);
                self.lemma_inv_with(f0);
            }
        }
        Ok(Some(lhs))
    }
}

impl BasicPrefix {
    pub fn parse<'me, 'a>(&self, my_loc: Loc, parser: &mut Parser<'me, 'a>) -> (r: ParseRes<'a>)
        requires
            old(parser).inv_at(my_loc),
        ensures
            final(parser).stepped(*old(parser)),
            (res_view(r), final(parser).stream()) == s_prefix(
                old(parser).table(),
                old(parser).macros(),
                old(parser).stream(),
                PrefixRule::Basic(*self),
                my_loc,
            ),
            res_rooted(old(parser).macros(), old(parser).stream(), my_loc, r),
        decreases old(parser).stream().len(), 2nat,
    {
        let ghost m = parser.macros();
        let ghost s = parser.stream();
        let lhs = match parser.expr_bp(self.bp)? {
            Some(x) => x,
            None => {
                return Err(my_loc.with(ParseError::ExpectedValue));
            },
        };
        let loc = join_locs(parser.ctx, lhs.loc, my_loc);
        let ghost lv = loc_ast_view(lhs);
        let mut rands = Vec::new();
        rands.push(lhs);
        proof {
            lemma_loc_asts_view_one(rands@);
        }
        Ok(loc.with(Ast::Op(OpCall { rator: my_loc.with(self.id), rands })))
    }
}

impl BasicPostfix {
    pub fn bp(&self) -> (r: Bp)
        ensures
            r == self.bp,
    {
        self.bp
    }

    pub fn parse<'me, 'a>(&self, my_loc: Loc, lhs: LocAst, parser: &mut Parser<'me, 'a>) -> (r: ParseRes<'a>)
        requires
            old(parser).inv_at2(my_loc, lhs.loc),
        ensures
            final(parser).stepped(*old(parser)),
            (res_view(r), final(parser).stream()) == s_postfix(
                old(parser).table(),
                old(parser).macros(),
                old(parser).stream(),
                PostfixRule::Basic(*self),
                my_loc,
                loc_ast_view(lhs),
            ),
            forall|f: FileId|
                rooted(old(parser).macros(), old(parser).stream(), f) && root_file(old(parser).macros(), my_loc.src) == Some(f)
                    && root_file(old(parser).macros(), lhs.loc.src) == Some(f) ==> (r matches Ok(x) ==> root_file(
                    old(parser).macros(),
                    x.loc.src,
                ) == Some(f)),
    {
        proof {
            lemma_suffix_refl(parser.stream());
        }
        let loc = join_locs(parser.ctx, lhs.loc, my_loc);
        let ghost lv = loc_ast_view(lhs);
        let mut rands = Vec::new();
        rands.push(lhs);
        proof {
            lemma_loc_asts_view_one(rands@);
        }
        Ok(loc.with(Ast::Op(OpCall { rator: my_loc.with(self.id), rands })))
    }
}

impl CallPostfix {
    pub fn bp(&self) -> (r: Bp)
        ensures
            r == 80,
    {
        80
    }  // same as dot
}


impl<'me, 'a> Parser<'me, 'a> {
    pub proof fn lemma_stepped_trans(self, mid: Self, old: Self)
        requires
            self.stepped(mid),
            mid.stepped(old),
        ensures
            self.stepped(old),
    {
        lemma_suffix_trans(self.stream(), mid.stream(), old.stream());
    }

    pub proof fn lemma_stepped_at(self, old: Self, l: Loc)
        requires
            old.inv_at(l),
            self.stepped(old),
        ensures
            self.inv_at(l),
            self.inv(),
            forall|f: FileId| rooted(old.macros(), old.stream(), f) ==> rooted(self.macros(), self.stream(), f),
    {
        lemma_suffix_rooted(self.macros(), self.stream(), old.stream());
        let f = choose|f: FileId| rooted(old.macros(), old.stream(), f) && root_file(old.macros(), l.src) == Some(f);
        assert(rooted(self.macros(), self.stream(), f));
    }
}

/// Reads the closing parenthesis of a tuple whose elements are `parts`.
fn close_tuple<'me, 'a>(parser: &mut Parser<'me, 'a>, parts: Vec<LocAst>, my_loc: Loc) -> (r: ParseRes<'a>)
    requires
        old(parser).inv_at(my_loc),
    ensures
        final(parser).stepped(*old(parser)),
        (res_view(r), final(parser).stream()) == s_tuple_close(
            old(parser).macros(),
            old(parser).stream(),
            loc_asts_view(parts@),
            my_loc,
        ),
        res_rooted(old(parser).macros(), old(parser).stream(), my_loc, r),
{
    let ghost m = parser.macros();
    let ghost s = parser.stream();
    let ghost f0 = choose|f: FileId| rooted(m, s, f) && root_file(m, my_loc.src) == Some(f);
    let nx = parser.lexer.next();
    proof {
        if s.len() > 0 {
            lemma_suffix_drop_first(s);
        } else {
            lemma_suffix_refl(s);
        }
    }
    let closer = match nx? {
        Some(c) => c,
        None => {
            return Err(my_loc.with(ParseError::ExpectedParenCloseEOF));
        },
    };
    proof {
        assert(item_loc(s[0]) == closer.loc);
    }
    check_paren_closer_error(&closer)?;
    let loc = join_locs(parser.ctx, closer.loc, my_loc);
    Ok(loc.with(Ast::Op(OpCall { rator: loc.with(OpID::TUPLE()), rands: parts })))
}

impl ParenPrefix {
    pub fn parse<'me, 'a>(&self, my_loc: Loc, parser: &mut Parser<'me, 'a>) -> (r: ParseRes<'a>)
        requires
            old(parser).inv_at(my_loc),
        ensures
            final(parser).stepped(*old(parser)),
            (res_view(r), final(parser).stream()) == s_prefix(
                old(parser).table(),
                old(parser).macros(),
                old(parser).stream(),
                PrefixRule::Paren(*self),
                my_loc,
            ),
            res_rooted(old(parser).macros(), old(parser).stream(), my_loc, r),
        decreases old(parser).stream().len(), 1nat,
    {
        let ghost t = parser.table();
        let ghost m = parser.macros();
        let ghost s = parser.stream();
        let ghost f0 = choose|f: FileId| rooted(m, s, f) && root_file(m, my_loc.src) == Some(f);
        proof {
            reveal_strlit(")");
            assert(")"@ =~= seq![')']);
            reveal_strlit(",");
            assert(","@ =~= seq![',']);
        }
        // `()`
        if let Some(cl) = parser.try_name(")")? {
            proof {
                assert(item_loc(s[0]) == cl);
            }
            let loc = join_locs(parser.ctx, cl, my_loc);
            return Ok(loc.with(Ast::Void));
        }
        let ghost s1 = parser.stream();
        proof {
            parser.lemma_stepped_at(*old(parser), my_loc);
        }
        // `(,)`
        if let Some(_) = parser.try_name(",")? {
            let ghost mid = *parser;
            proof {
                parser.lemma_stepped_at(*old(parser), my_loc);
            }
            let r = close_tuple(parser, Vec::new(), my_loc);
            proof {
                parser.lemma_stepped_trans(mid, *old(parser));
                lemma_suffix_rooted(m, mid.stream(), s);
                assert(loc_asts_view(Seq::<LocAst>::empty()) =~= Seq::<ExprView>::empty());
            }
            return r;
        }
        let ghost s2 = parser.stream();
        proof {
            parser.lemma_stepped_at(*old(parser), my_loc);
        }
        let lhs_r = parser.expr_bp(i32::MIN);
        proof {
            lemma_suffix_trans(parser.stream(), s2, s);
        }
        let lhs = match lhs_r? {
            Some(x) => x,
            None => {
                return Err(my_loc.with(ParseError::ExpectedValue));
            },
        };
        let ghost s4 = parser.stream();
        proof {
            lemma_suffix_rooted(m, s4, s);
        }
        let nx = parser.lexer.next();
        proof {
            if s4.len() > 0 {
                lemma_suffix_drop_first(s4);
            } else {
                lemma_suffix_refl(s4);
            }
            lemma_suffix_trans(parser.stream(), s4, s);
        }
        let closer = match nx? {
            Some(c) => c,
            None => {
                return Err(my_loc.with(ParseError::ExpectedParenCloseEOF));
            },
        };
        proof {
            assert(item_loc(s4[0]) == closer.loc);
            lemma_suffix_rooted(m, parser.stream(), s);
        }
        let is_close = match &closer.value {
            Token::Name(n) => str_eq(n, ")"),
            _ => false,
        };
        if is_close {
            let loc = join_locs(parser.ctx, closer.loc, my_loc);
            return Ok(loc.with(lhs.value));
        }
        let is_comma = match &closer.value {
            Token::Name(n) => str_eq(n, ","),
            _ => false,
        };
        if !is_comma {
            check_paren_closer_error(&closer)?;
            vstd::pervasive::unreached()
        } else {
            let mut parts: Vec<LocAst> = Vec::new();
            parts.push(lhs);
            proof {
                lemma_loc_asts_view_one(parts@);
            }
            loop
                invariant_except_break
                    s_paren(t, m, s, my_loc) == s_tuple(t, m, parser.stream(), loc_asts_view(parts@), my_loc),
                invariant
                    parser.stepped(*old(parser)),
                    parser.ctx.wf(),
                    rooted(m, parser.stream(), f0),
                    rooted(m, s, f0),
                    root_file(m, my_loc.src) == Some(f0),
                    t == parser.table(),
                    m == parser.macros(),
                    s == old(parser).stream(),
                    parser.stream().len() < s.len(),
                ensures
                    s_paren(t, m, s, my_loc) == s_tuple_close(m, parser.stream(), loc_asts_view(parts@), my_loc),
                decreases parser.stream().len(),
            {
                let ghost cur = parser.stream();
                proof {
                    reveal_strlit(")");
                    assert(")"@ =~= seq![')']);
                    reveal_strlit(",");
                    assert(","@ =~= seq![',']);
                    parser.lemma_inv_with(f0);
                }
                let c = parser.check_name(")");
                proof {
                    lemma_suffix_trans(parser.stream(), cur, s);
                    lemma_suffix_rooted(m, parser.stream(), s);
                    parser.lemma_inv_with(f0);
                }
                if c?.is_some() {
                    break;
                }
                let e = parser.expr_bp(i32::MIN);
                proof {
                    lemma_suffix_trans(parser.stream(), cur, s);
                    lemma_suffix_rooted(m, parser.stream(), s);
                    parser.lemma_inv_with(f0);
                }
                let exp = match e? {
                    Some(x) => x,
                    None => {
                        break;
                    },
                };
                let ghost c2 = parser.stream();
                let ghost pv = parts@;
                parts.push(exp);
                proof {
                    lemma_loc_asts_view_push(pv, exp);
                }
                let tn = parser.try_name(",");
                proof {
                    lemma_suffix_trans(parser.stream(), c2, s);
                    lemma_suffix_rooted(m, parser.stream(), s);
                    parser.lemma_inv_with(f0);
                }
                if tn?.is_none() {
                    break;
                }
            }
            let ghost mid = *parser;
            proof {
                parser.lemma_stepped_at(*old(parser), my_loc);
            }
            let r = close_tuple(parser, parts, my_loc);
            proof {
                parser.lemma_stepped_trans(mid, *old(parser));
                lemma_suffix_rooted(m, mid.stream(), s);
            }
            r
        }
    }
}

/// A call's arguments after its opening parenthesis (at `open_loc`), up to and
/// including the closing one.
pub fn parse_arg_list<'me, 'a>(parser: &mut Parser<'me, 'a>, open_loc: Loc) -> (r: ParseRes<'a, Vec<LocAst>>)
    requires
        old(parser).inv(),
    ensures
        final(parser).stepped(*old(parser)),
        (args_res_view(r), final(parser).stream()) == s_arg_list(
            old(parser).table(),
            old(parser).macros(),
            old(parser).stream(),
            open_loc,
        ),
    decreases old(parser).stream().len(), 2nat,
{
    let ghost t = parser.table();
    let ghost m = parser.macros();
    let ghost s = parser.stream();
    let ghost f0 = choose|f: FileId| rooted(m, s, f);
    proof {
        reveal_strlit(")");
        assert(")"@ =~= seq![')']);
        reveal_strlit(",");
        assert(","@ =~= seq![',']);
    }
    let mut args: Vec<LocAst> = Vec::new();
    if parser.try_name(")")?.is_some() {
        proof {
            assert(loc_asts_view(args@) =~= Seq::<ExprView>::empty());
        }
        return Ok(args);
    }
    proof {
        assert(loc_asts_view(args@) =~= Seq::<ExprView>::empty());
        parser.lemma_stepped_inv(*old(parser));
        let s1 = parser.stream();
        assert(s_try_name(s, seq![')']).1 == s1);
        assert(s_try_name(s, seq![')']).0 == Ok::<Option<Loc>, ErrView>(None));
        assert(s1.len() <= s.len());
        assert(s_arg_list(t, m, s, open_loc) == s_args(t, m, s1, seq![], open_loc));
        assert(rooted(m, s1, f0));
    }
    loop
        invariant_except_break
            s_arg_list(t, m, s, open_loc) == s_args(t, m, parser.stream(), loc_asts_view(args@), open_loc),
        invariant
            parser.stepped(*old(parser)),
            parser.ctx.wf(),
            rooted(m, parser.stream(), f0),
            rooted(m, s, f0),
            t == parser.table(),
            m == parser.macros(),
            s == old(parser).stream(),
            parser.stream().len() <= s.len(),
        ensures
            s_arg_list(t, m, s, open_loc) == s_args_close(m, parser.stream(), loc_asts_view(args@), open_loc),
        decreases parser.stream().len(),
    {
        let ghost cur = parser.stream();
        proof {
            reveal_strlit(")");
            assert(")"@ =~= seq![')']);
            reveal_strlit(",");
            assert(","@ =~= seq![',']);
            parser.lemma_inv_with(f0);
        }
        let e = parser.expr_bp(i32::MIN);
        proof {
            lemma_suffix_trans(parser.stream(), cur, s);
            lemma_suffix_rooted(m, parser.stream(), s);
            parser.lemma_inv_with(f0);
        }
        let arg = match e? {
            Some(x) => x,
            None => {
                return Err(open_loc.with(ParseError::ExpectedValue));
            },
        };
        let ghost c2 = parser.stream();
        let ghost av = args@;
        args.push(arg);
        proof {
            lemma_loc_asts_view_push(av, arg);
        }
        let tn = parser.try_name(",");
        proof {
            lemma_suffix_trans(parser.stream(), c2, s);
            lemma_suffix_rooted(m, parser.stream(), s);
        }
        if tn?.is_none() {
            break;
        }
    }
    let ghost s3 = parser.stream();
    let nx = parser.lexer.next();
    proof {
        if s3.len() > 0 {
            lemma_suffix_drop_first(s3);
        } else {
            lemma_suffix_refl(s3);
        }
        lemma_suffix_trans(parser.stream(), s3, s);
    }
    let close = match nx? {
        Some(c) => c,
        None => {
            return Err(open_loc.with(ParseError::ExpectedParenCloseEOF));
        },
    };
    check_paren_closer_error(&close)?;
    Ok(args)
}

impl CallPostfix {
    pub fn parse<'me, 'a>(&self, my_loc: Loc, lhs: LocAst, parser: &mut Parser<'me, 'a>) -> (r: ParseRes<'a>)
        requires
            old(parser).inv_at2(my_loc, lhs.loc),
        ensures
            final(parser).stepped(*old(parser)),
            (res_view(r), final(parser).stream()) == s_postfix(
                old(parser).table(),
                old(parser).macros(),
                old(parser).stream(),
                PostfixRule::Call(*self),
                my_loc,
                loc_ast_view(lhs),
            ),
            forall|f: FileId|
                rooted(old(parser).macros(), old(parser).stream(), f) && root_file(old(parser).macros(), my_loc.src) == Some(f)
                    && root_file(old(parser).macros(), lhs.loc.src) == Some(f) ==> (r matches Ok(x) ==> root_file(
                    old(parser).macros(),
                    x.loc.src,
                ) == Some(f)),
        decreases old(parser).stream().len(), 3nat,
    {
        let ghost m = parser.macros();
        let ghost s = parser.stream();
        let ghost lv = loc_ast_view(lhs);
        let args = parse_arg_list(parser, my_loc)?;
        let loc = join_locs(parser.ctx, lhs.loc, my_loc);
        Ok(loc.with(Ast::Call(Box::new(lhs), args)))
    }
}


/// Options of a name that is only a prefix operator.
pub open spec fn prefix_options(id: OpID, bp: Bp) -> ParseOptions {
    ParseOptions { pre: Some(PrefixRule::Basic(BasicPrefix { id, bp })), post: None }
}

/// Options of a left-associative infix operator: it binds `(bp, bp + 1)`.
pub open spec fn infix_left_options(id: OpID, bp: Bp) -> ParseOptions {
    ParseOptions { pre: None, post: Some(PostParse::Infix(BasicInfix { id, bps: (bp, (bp + 1) as Bp) })) }
}

/// Options of a right-associative infix operator: it binds `(bp, bp)`.
pub open spec fn infix_right_options(id: OpID, bp: Bp) -> ParseOptions {
    ParseOptions { pre: None, post: Some(PostParse::Infix(BasicInfix { id, bps: (bp, bp) })) }
}

/// Options of a name that is a prefix operator and a left-associative infix one.
pub open spec fn both_options(pre_id: OpID, pre_bp: Bp, in_id: OpID, in_bp: Bp) -> ParseOptions {
    ParseOptions {
        pre: Some(PrefixRule::Basic(BasicPrefix { id: pre_id, bp: pre_bp })),
        post: Some(PostParse::Infix(BasicInfix { id: in_id, bps: (in_bp, (in_bp + 1) as Bp) })),
    }
}

/// Options of a name that is only a postfix operator.
pub open spec fn postfix_options(id: OpID, bp: Bp) -> ParseOptions {
    ParseOptions { pre: None, post: Some(PostParse::Postfix(PostfixRule::Basic(BasicPostfix { id, bp }))) }
}

/// Options of the opening parenthesis: grouping and tuples before an operand,
/// a call after one.
pub open spec fn paren_options() -> ParseOptions {
    ParseOptions {
        pre: Some(PrefixRule::Paren(ParenPrefix)),
        post: Some(PostParse::Postfix(PostfixRule::Call(CallPostfix))),
    }
}

/// The names the default parser knows, with their options.  Binding powers,
/// higher binding tighter: `.` 80, postfix `?` 75, prefix operators 70,
/// `* /` 60, `<< >>` 55, `+ -` 50, `&` 45, `^` 42, `|` 40, `&&` 30, `||` 25,
/// `=` 20 (right-associative).
pub open spec fn default_entries() -> Seq<(Seq<char>, ParseOptions)> {
    seq![
        (seq!['('], paren_options()),
        (seq!['+'], infix_left_options(OpID(1), 50)),
        (seq!['-'], both_options(OpID(10), 70, OpID(2), 50)),
        (seq!['*'], both_options(OpID(11), 70, OpID(3), 60)),
        (seq!['/'], infix_left_options(OpID(4), 60)),
        (seq!['&'], both_options(OpID(12), 70, OpID(20), 45)),
        (seq!['^'], infix_left_options(OpID(22), 42)),
        (seq!['|'], infix_left_options(OpID(21), 40)),
        (seq!['<', '<'], infix_left_options(OpID(23), 55)),
        (seq!['>', '>'], infix_left_options(OpID(24), 55)),
        (seq!['!'], prefix_options(OpID(13), 70)),
        (seq!['&', '&'], infix_left_options(OpID(30), 30)),
        (seq!['|', '|'], infix_left_options(OpID(31), 25)),
        (seq!['='], infix_right_options(OpID(40), 20)),
        (seq!['.'], infix_left_options(OpID(42), 80)),
        (seq!['?'], postfix_options(OpID(43), 75)),
    ]
}

/// The owned names of a scope are exactly `entries`, in order.
pub open spec fn holds_entries<'a>(owned: Seq<(&'a str, ParseOptions)>, entries: Seq<(Seq<char>, ParseOptions)>) -> bool {
    &&& owned.len() == entries.len()
    &&& forall|i: int| 0 <= i < owned.len() ==> (#[trigger] owned[i]).0@ == entries[i].0 && owned[i].1 == entries[i].1
}

/// The options of the last entry named `key`.
pub open spec fn entries_lookup(e: Seq<(Seq<char>, ParseOptions)>, key: Seq<char>) -> Option<ParseOptions>
    decreases e.len(),
{
    if e.len() == 0 {
        None
    } else if e.last().0 == key {
        Some(e.last().1)
    } else {
        entries_lookup(e.drop_last(), key)
    }
}

/// A scope holding `entries` (and no parent) gives each name the options of its
/// last entry.
pub proof fn lemma_holds_entries_lookup<'b, 'a>(
    names: Scope<'b, &'a str, ParseOptions>,
    entries: Seq<(Seq<char>, ParseOptions)>,
    key: Seq<char>,
)
    requires
        names.parent is None,
        holds_entries(names.owned@, entries),
    ensures
        names.lookup(key) == entries_lookup(entries, key),
{
    lemma_find_entries(names.owned@, entries, key);
}

proof fn lemma_find_entries<'a>(owned: Seq<(&'a str, ParseOptions)>, entries: Seq<(Seq<char>, ParseOptions)>, key: Seq<char>)
    requires
        holds_entries(owned, entries),
    ensures
        match find_key(owned, key) {
            Some(i) => 0 <= i < owned.len() && entries_lookup(entries, key) == Some(owned[i].1),
            None => entries_lookup(entries, key) is None,
        },
    decreases owned.len(),
{
    if owned.len() > 0 {
        let n = owned.len() - 1;
        assert(owned[n].0@ == entries[n].0);
        let (o2, e2) = (owned.drop_last(), entries.drop_last());
        assert forall|i: int| 0 <= i < o2.len() implies (#[trigger] o2[i]).0@ == e2[i].0 && o2[i].1 == e2[i].1 by {
            assert(o2[i] == owned[i]);
        }
        lemma_find_entries(o2, e2, key);
    }
}

/// No two of `entries` have the same name.
pub open spec fn unique_keys(entries: Seq<(Seq<char>, ParseOptions)>) -> bool {
    forall|i: int, j: int| 0 <= i < j < entries.len() ==> (#[trigger] entries[i]).0 != (#[trigger] entries[j]).0
}

/// A name's length and first character; the default names differ in these.
pub open spec fn key_code(n: Seq<char>) -> (nat, char) {
    (n.len(), n[0])
}

fn push_entry<'a>(
    owned: &mut Vec<(&'a str, ParseOptions)>,
    name: &'a str,
    opts: ParseOptions,
    Ghost(entries): Ghost<Seq<(Seq<char>, ParseOptions)>>,
    Ghost(keys): Ghost<Set<(nat, char)>>,
)
    requires
        holds_entries(old(owned)@, entries),
        unique_keys(entries),
        forall|k: int| 0 <= k < entries.len() ==> keys.contains(key_code(#[trigger] entries[k].0)),
        !keys.contains(key_code(name@)),
    ensures
        holds_entries(final(owned)@, entries.push((name@, opts))),
        unique_keys(entries.push((name@, opts))),
        forall|k: int|
            0 <= k < entries.len() + 1 ==> keys.insert(key_code(name@)).contains(
                key_code(#[trigger] entries.push((name@, opts))[k].0),
            ),
{
    owned.push((name, opts));
    proof {
        let e2 = entries.push((name@, opts));
        assert forall|i: int, j: int| 0 <= i < j < e2.len() implies (#[trigger] e2[i]).0 != (#[trigger] e2[j]).0 by {
            if j == entries.len() {
                assert(keys.contains(key_code(entries[i].0)));
            } else {
                assert(e2[i] == entries[i] && e2[j] == entries[j]);
            }
        }
        assert forall|k: int| 0 <= k < e2.len() implies keys.insert(key_code(name@)).contains(
            key_code(#[trigger] e2[k].0),
        ) by {
            if k < entries.len() {
                assert(e2[k] == entries[k]);
                assert(keys.contains(key_code(entries[k].0)));
            }
        }
    }
}

impl<'me, 'a> Parser<'me, 'a> {
    /// A parser over `lexer` that knows the default operators (see
    /// `default_entries`) and no other names.
    pub fn new_default(lexer: Lexer<'a>, ctx: &'a SourceContext) -> (r: Self)
        ensures
            r.lexer == lexer,
            r.ctx == ctx,
            r.names.parent is None,
            holds_entries(r.names.owned@, default_entries()),
            r.names.names_unique(),
            forall|n: Seq<char>| #[trigger] r.names.lookup(n) == entries_lookup(default_entries(), n),
            // the default operators, with their binding powers (higher binds
            // tighter): `.` 80, postfix `?` 75, prefix `- * & !` 70, `* /` 60,
            // `<< >>` 55, `+ -` 50, `&` 45, `^` 42, `|` 40, `&&` 30, `||` 25 and
            // the right-associative `=` 20
            r.names.lookup(seq![')']) is None,
            r.names.lookup(seq![',']) is None,
            r.names.lookup(seq!['(']) == Some(ParseOptions { pre: Some(PrefixRule::Paren(ParenPrefix)), post: Some(PostParse::Postfix(PostfixRule::Call(CallPostfix))) }),
            r.names.lookup(seq!['+']) == Some(ParseOptions { pre: None, post: Some(PostParse::Infix(BasicInfix { id: OpID(1), bps: (50, 51) })) }),
            r.names.lookup(seq!['-']) == Some(ParseOptions { pre: Some(PrefixRule::Basic(BasicPrefix { id: OpID(10), bp: 70 })), post: Some(PostParse::Infix(BasicInfix { id: OpID(2), bps: (50, 51) })) }),
            r.names.lookup(seq!['*']) == Some(ParseOptions { pre: Some(PrefixRule::Basic(BasicPrefix { id: OpID(11), bp: 70 })), post: Some(PostParse::Infix(BasicInfix { id: OpID(3), bps: (60, 61) })) }),
            r.names.lookup(seq!['/']) == Some(ParseOptions { pre: None, post: Some(PostParse::Infix(BasicInfix { id: OpID(4), bps: (60, 61) })) }),
            r.names.lookup(seq!['&']) == Some(ParseOptions { pre: Some(PrefixRule::Basic(BasicPrefix { id: OpID(12), bp: 70 })), post: Some(PostParse::Infix(BasicInfix { id: OpID(20), bps: (45, 46) })) }),
            r.names.lookup(seq!['^']) == Some(ParseOptions { pre: None, post: Some(PostParse::Infix(BasicInfix { id: OpID(22), bps: (42, 43) })) }),
            r.names.lookup(seq!['|']) == Some(ParseOptions { pre: None, post: Some(PostParse::Infix(BasicInfix { id: OpID(21), bps: (40, 41) })) }),
            r.names.lookup(seq!['<', '<']) == Some(ParseOptions { pre: None, post: Some(PostParse::Infix(BasicInfix { id: OpID(23), bps: (55, 56) })) }),
            r.names.lookup(seq!['>', '>']) == Some(ParseOptions { pre: None, post: Some(PostParse::Infix(BasicInfix { id: OpID(24), bps: (55, 56) })) }),
            r.names.lookup(seq!['!']) == Some(ParseOptions { pre: Some(PrefixRule::Basic(BasicPrefix { id: OpID(13), bp: 70 })), post: None }),
            r.names.lookup(seq!['&', '&']) == Some(ParseOptions { pre: None, post: Some(PostParse::Infix(BasicInfix { id: OpID(30), bps: (30, 31) })) }),
            r.names.lookup(seq!['|', '|']) == Some(ParseOptions { pre: None, post: Some(PostParse::Infix(BasicInfix { id: OpID(31), bps: (25, 26) })) }),
            r.names.lookup(seq!['=']) == Some(ParseOptions { pre: None, post: Some(PostParse::Infix(BasicInfix { id: OpID(40), bps: (20, 20) })) }),
            r.names.lookup(seq!['.']) == Some(ParseOptions { pre: None, post: Some(PostParse::Infix(BasicInfix { id: OpID(42), bps: (80, 81) })) }),
            r.names.lookup(seq!['?']) == Some(ParseOptions { pre: None, post: Some(PostParse::Postfix(PostfixRule::Basic(BasicPostfix { id: OpID(43), bp: 75 }))) }),
    {
        let mut owned: Vec<(&'a str, ParseOptions)> = Vec::new();
        let ghost e: Seq<(Seq<char>, ParseOptions)> = seq![];
        let ghost ks: Set<(nat, char)> = Set::empty();
        proof {
            reveal_strlit("(");
            assert("("@ =~= seq!['(']);
            reveal_strlit("+");
            assert("+"@ =~= seq!['+']);
            reveal_strlit("-");
            assert("-"@ =~= seq!['-']);
            reveal_strlit("*");
            assert("*"@ =~= seq!['*']);
            reveal_strlit("/");
            assert("/"@ =~= seq!['/']);
            reveal_strlit("&");
            assert("&"@ =~= seq!['&']);
            reveal_strlit("^");
            assert("^"@ =~= seq!['^']);
            reveal_strlit("|");
            assert("|"@ =~= seq!['|']);
            reveal_strlit("<<");
            assert("<<"@ =~= seq!['<', '<']);
            reveal_strlit(">>");
            assert(">>"@ =~= seq!['>', '>']);
            reveal_strlit("!");
            assert("!"@ =~= seq!['!']);
            reveal_strlit("&&");
            assert("&&"@ =~= seq!['&', '&']);
            reveal_strlit("||");
            assert("||"@ =~= seq!['|', '|']);
            reveal_strlit("=");
            assert("="@ =~= seq!['=']);
            reveal_strlit(".");
            assert("."@ =~= seq!['.']);
            reveal_strlit("?");
            assert("?"@ =~= seq!['?']);
        }
        let paren = ParseOptions {
            pre: Some(PrefixRule::Paren(ParenPrefix)),
            post: Some(PostParse::Postfix(PostfixRule::Call(CallPostfix))),
        };
        push_entry(&mut owned, "(", paren, Ghost(e), Ghost(ks));
        let ghost e = e.push(("("@, paren));
        let ghost ks = ks.insert(key_code("("@));
        let o = infix_left(OpID::ADD_BIN(), 50);
        push_entry(&mut owned, "+", o, Ghost(e), Ghost(ks));
        let ghost e = e.push(("+"@, o));
        let ghost ks = ks.insert(key_code("+"@));
        let o = both_ids(OpID::NEG_PRE(), 70, OpID::SUB_BIN(), 50);
        push_entry(&mut owned, "-", o, Ghost(e), Ghost(ks));
        let ghost e = e.push(("-"@, o));
        let ghost ks = ks.insert(key_code("-"@));
        let o = both_ids(OpID::DEREF_PRE(), 70, OpID::MUL_BIN(), 60);
        push_entry(&mut owned, "*", o, Ghost(e), Ghost(ks));
        let ghost e = e.push(("*"@, o));
        let ghost ks = ks.insert(key_code("*"@));
        let o = infix_left(OpID::DIV_BIN(), 60);
        push_entry(&mut owned, "/", o, Ghost(e), Ghost(ks));
        let ghost e = e.push(("/"@, o));
        let ghost ks = ks.insert(key_code("/"@));
        let o = both_ids(OpID::ADDR_PRE(), 70, OpID::BIT_AND(), 45);
        push_entry(&mut owned, "&", o, Ghost(e), Ghost(ks));
        let ghost e = e.push(("&"@, o));
        let ghost ks = ks.insert(key_code("&"@));
        let o = infix_left(OpID::BIT_XOR(), 42);
        push_entry(&mut owned, "^", o, Ghost(e), Ghost(ks));
        let ghost e = e.push(("^"@, o));
        let ghost ks = ks.insert(key_code("^"@));
        let o = infix_left(OpID::BIT_OR(), 40);
        push_entry(&mut owned, "|", o, Ghost(e), Ghost(ks));
        let ghost e = e.push(("|"@, o));
        let ghost ks = ks.insert(key_code("|"@));
        let o = infix_left(OpID::SHL(), 55);
        push_entry(&mut owned, "<<", o, Ghost(e), Ghost(ks));
        let ghost e = e.push(("<<"@, o));
        let ghost ks = ks.insert(key_code("<<"@));
        let o = infix_left(OpID::SHR(), 55);
        push_entry(&mut owned, ">>", o, Ghost(e), Ghost(ks));
        let ghost e = e.push((">>"@, o));
        let ghost ks = ks.insert(key_code(">>"@));
        let o = ParseOptions { pre: Some(PrefixRule::Basic(BasicPrefix { id: OpID::NOT_PRE(), bp: 70 })), post: None };
        push_entry(&mut owned, "!", o, Ghost(e), Ghost(ks));
        let ghost e = e.push(("!"@, o));
        let ghost ks = ks.insert(key_code("!"@));
        let o = infix_left(OpID::LOG_AND(), 30);
        push_entry(&mut owned, "&&", o, Ghost(e), Ghost(ks));
        let ghost e = e.push(("&&"@, o));
        let ghost ks = ks.insert(key_code("&&"@));
        let o = infix_left(OpID::LOG_OR(), 25);
        push_entry(&mut owned, "||", o, Ghost(e), Ghost(ks));
        let ghost e = e.push(("||"@, o));
        let ghost ks = ks.insert(key_code("||"@));
        let o = ParseOptions {
            pre: None,
            post: Some(PostParse::Infix(BasicInfix { id: OpID::ASSIGN(), bps: (20, 20) })),
        };
        push_entry(&mut owned, "=", o, Ghost(e), Ghost(ks));
        let ghost e = e.push(("="@, o));
        let ghost ks = ks.insert(key_code("="@));
        let o = infix_left(OpID::DOT(), 80);
        push_entry(&mut owned, ".", o, Ghost(e), Ghost(ks));
        let ghost e = e.push(("."@, o));
        let ghost ks = ks.insert(key_code("."@));
        let o = ParseOptions {
            pre: None,
            post: Some(PostParse::Postfix(PostfixRule::Basic(BasicPostfix { id: OpID::QMARK_POST(), bp: 75 }))),
        };
        push_entry(&mut owned, "?", o, Ghost(e), Ghost(ks));
        let ghost e = e.push(("?"@, o));
        let ghost ks = ks.insert(key_code("?"@));
        proof {
            assert(e =~= default_entries());
            assert forall|i: int, j: int| 0 <= i < j < owned@.len() implies (#[trigger] owned@[i]).0@
                != (#[trigger] owned@[j]).0@ by {
                assert(e[i].0 != e[j].0);
            }
            // `)` and `,` are bound to nothing
            assert(!ks.contains(key_code(seq![')'])));
            assert(!ks.contains(key_code(seq![','])));
            assert forall|j: int| 0 <= j < owned@.len() implies (#[trigger] owned@[j]).0@ != seq![')'] && owned@[j].0@
                != seq![','] by {
                assert(ks.contains(key_code(e[j].0)));
            }
            lemma_find_key(owned@, seq![')'], 0);
            lemma_find_key(owned@, seq![','], 0);
        }
        let names = Scope { owned, parent: None };
        proof {
            assert forall|n: Seq<char>| #[trigger] names.lookup(n) == entries_lookup(default_entries(), n) by {
                lemma_holds_entries_lookup(names, default_entries(), n);
            }
            names.lemma_unique_lookup(0);
            names.lemma_unique_lookup(1);
            names.lemma_unique_lookup(2);
            names.lemma_unique_lookup(3);
            names.lemma_unique_lookup(4);
            names.lemma_unique_lookup(5);
            names.lemma_unique_lookup(6);
            names.lemma_unique_lookup(7);
            names.lemma_unique_lookup(8);
            names.lemma_unique_lookup(9);
            names.lemma_unique_lookup(10);
            names.lemma_unique_lookup(11);
            names.lemma_unique_lookup(12);
            names.lemma_unique_lookup(13);
            names.lemma_unique_lookup(14);
            names.lemma_unique_lookup(15);
        }
        Parser { lexer, names, ctx }
    }
}

/// A left-associative infix operator binding `(bp, bp + 1)`.
fn infix_left(id: OpID, bp: Bp) -> (r: ParseOptions)
    requires
        bp < i32::MAX,
    ensures
        r == infix_left_options(id, bp),
{
    ParseOptions { pre: None, post: Some(PostParse::Infix(BasicInfix { id, bps: (bp, bp + 1) })) }
}

/// A prefix operator and a left-associative infix operator under one name.
fn both_ids(pre_id: OpID, pre_bp: Bp, in_id: OpID, in_bp: Bp) -> (r: ParseOptions)
    requires
        in_bp < i32::MAX,
    ensures
        r == both_options(pre_id, pre_bp, in_id, in_bp),
{
    ParseOptions {
        pre: Some(PrefixRule::Basic(BasicPrefix { id: pre_id, bp: pre_bp })),
        post: Some(PostParse::Infix(BasicInfix { id: in_id, bps: (in_bp, in_bp + 1) })),
    }
}


/// A token that is a value by itself: a string or a number.
pub open spec fn is_atom(t: TokenView) -> bool {
    t is Str || t is Num
}

/// The expression an atom parses to.
pub open spec fn atom_view(t: TokenView, l: Loc) -> ExprView {
    match t {
        TokenView::Str(x) => (AstView::StringLit(x), l),
        TokenView::Num(i) => (AstView::IntLit(i), l),
        TokenView::Name(_) => (AstView::Void, l),
    }
}

/// The name `n` is an infix operator `op` and nothing else after an operand.
pub open spec fn infix_of(t: Table, n: Seq<char>, op: BasicInfix) -> bool {
    t(n) matches Some(o) && o.post == Some(PostParse::Infix(op))
}

/// The node of an infix operator applied to two operands.
pub open spec fn infix_node(m: Seq<MacroCall>, op: BasicInfix, l: Loc, a: ExprView, b: ExprView) -> ExprView {
    (AstView::Op(Located { value: op.id, loc: l }, seq![a, b]), join(m, a.1, b.1))
}

/// Binding powers decide how two infix operators between three values group:
/// when the second binds its left side less tightly than the first binds its
/// right side, the first is applied first (`(x o1 y) o2 z`: left associativity
/// when both are the same left-associative operator); otherwise the second is
/// (`x o1 (y o2 z)`: right associativity, or a tighter operator second).  The
/// whole input is read either way.
pub proof fn lemma_two_infix(
    t: Table,
    m: Seq<MacroCall>,
    x: TokenView,
    lx: Loc,
    n1: Seq<char>,
    l1: Loc,
    o1: BasicInfix,
    y: TokenView,
    ly: Loc,
    n2: Seq<char>,
    l2: Loc,
    o2: BasicInfix,
    z: TokenView,
    lz: Loc,
    min_bp: Bp,
)
    requires
        is_atom(x),
        is_atom(y),
        is_atom(z),
        infix_of(t, n1, o1),
        infix_of(t, n2, o2),
        min_bp <= o1.bps.0,
        min_bp <= o2.bps.0,
    ensures
        ({
            let s = seq![
                LexItem::Tok(x, lx),
                LexItem::Tok(TokenView::Name(n1), l1),
                LexItem::Tok(y, ly),
                LexItem::Tok(TokenView::Name(n2), l2),
                LexItem::Tok(z, lz),
            ];
            let (ax, ay, az) = (atom_view(x, lx), atom_view(y, ly), atom_view(z, lz));
            s_expr(t, m, s, min_bp) == (
                Ok::<Option<ExprView>, ErrView>(
                    Some(
                        if o2.bps.0 < o1.bps.1 {
                            infix_node(m, o2, l2, infix_node(m, o1, l1, ax, ay), az)
                        } else {
                            infix_node(m, o1, l1, ax, infix_node(m, o2, l2, ay, az))
                        },
                    ),
                ),
                Seq::<LexItem>::empty(),
            )
        }),
{
    let s = seq![
        LexItem::Tok(x, lx),
        LexItem::Tok(TokenView::Name(n1), l1),
        LexItem::Tok(y, ly),
        LexItem::Tok(TokenView::Name(n2), l2),
        LexItem::Tok(z, lz),
    ];
    let (ax, ay, az) = (atom_view(x, lx), atom_view(y, ly), atom_view(z, lz));
    let s1 = s.drop_first();
    let s2 = s1.drop_first();
    let s3 = s2.drop_first();
    let s4 = s3.drop_first();
    let s5 = s4.drop_first();
    assert(s5 =~= Seq::<LexItem>::empty());
    // the last value, then nothing
    assert(s_loop(t, m, s5, az, o2.bps.1) == (Ok::<ExprView, ErrView>(az), s5));
    assert(s_expr(t, m, s4, o2.bps.1) == (Ok::<Option<ExprView>, ErrView>(Some(az)), s5));
    assert(s_loop(t, m, s5, az, o1.bps.1) == (Ok::<ExprView, ErrView>(az), s5));
    assert(s_expr(t, m, s4, o1.bps.1) == (Ok::<Option<ExprView>, ErrView>(Some(az)), s5));
    let first = infix_node(m, o1, l1, ax, ay);
    let second = infix_node(m, o2, l2, ay, az);
    if o2.bps.0 < o1.bps.1 {
        // `y` stops before the second operator
        assert(s_loop(t, m, s3, ay, o1.bps.1) == (Ok::<ExprView, ErrView>(ay), s3));
        assert(s_expr(t, m, s2, o1.bps.1) == (Ok::<Option<ExprView>, ErrView>(Some(ay)), s3));
        let whole = infix_node(m, o2, l2, first, az);
        assert(s_loop(t, m, s5, whole, min_bp) == (Ok::<ExprView, ErrView>(whole), s5));
        assert(s_loop(t, m, s3, first, min_bp) == (Ok::<ExprView, ErrView>(whole), s5));
        assert(s_loop(t, m, s1, ax, min_bp) == (Ok::<ExprView, ErrView>(whole), s5));
    } else {
        // `y` takes the second operator
        assert(s_loop(t, m, s5, second, o1.bps.1) == (Ok::<ExprView, ErrView>(second), s5));
        assert(s_loop(t, m, s3, ay, o1.bps.1) == (Ok::<ExprView, ErrView>(second), s5));
        assert(s_expr(t, m, s2, o1.bps.1) == (Ok::<Option<ExprView>, ErrView>(Some(second)), s5));
        let whole = infix_node(m, o1, l1, ax, second);
        assert(s_loop(t, m, s5, whole, min_bp) == (Ok::<ExprView, ErrView>(whole), s5));
        assert(s_loop(t, m, s1, ax, min_bp) == (Ok::<ExprView, ErrView>(whole), s5));
    }
}


/// The name `n` is the prefix operator `op` before an operand.
pub open spec fn prefix_of(t: Table, n: Seq<char>, op: BasicPrefix) -> bool {
    t(n) matches Some(o) && o.pre == Some(PrefixRule::Basic(op))
}

/// The node of a prefix operator applied to its operand.
pub open spec fn prefix_node(m: Seq<MacroCall>, op: BasicPrefix, l: Loc, a: ExprView) -> ExprView {
    (AstView::Op(Located { value: op.id, loc: l }, seq![a]), join(m, a.1, l))
}

/// A prefix operator takes as its operand what binds more tightly than its
/// binding power: before an infix operator whose left binding power is below
/// it, just the next value (`(p x) o y`), otherwise the infix expression
/// (`p (x o y)`).  The whole input is read either way.
pub proof fn lemma_prefix_infix(
    t: Table,
    m: Seq<MacroCall>,
    np: Seq<char>,
    lp: Loc,
    p: BasicPrefix,
    x: TokenView,
    lx: Loc,
    n: Seq<char>,
    l: Loc,
    o: BasicInfix,
    y: TokenView,
    ly: Loc,
    min_bp: Bp,
)
    requires
        is_atom(x),
        is_atom(y),
        prefix_of(t, np, p),
        infix_of(t, n, o),
        min_bp <= o.bps.0,
    ensures
        ({
            let s = seq![
                LexItem::Tok(TokenView::Name(np), lp),
                LexItem::Tok(x, lx),
                LexItem::Tok(TokenView::Name(n), l),
                LexItem::Tok(y, ly),
            ];
            let (ax, ay) = (atom_view(x, lx), atom_view(y, ly));
            s_expr(t, m, s, min_bp) == (
                Ok::<Option<ExprView>, ErrView>(
                    Some(
                        if o.bps.0 < p.bp {
                            infix_node(m, o, l, prefix_node(m, p, lp, ax), ay)
                        } else {
                            prefix_node(m, p, lp, infix_node(m, o, l, ax, ay))
                        },
                    ),
                ),
                Seq::<LexItem>::empty(),
            )
        }),
{
    let s = seq![
        LexItem::Tok(TokenView::Name(np), lp),
        LexItem::Tok(x, lx),
        LexItem::Tok(TokenView::Name(n), l),
        LexItem::Tok(y, ly),
    ];
    let (ax, ay) = (atom_view(x, lx), atom_view(y, ly));
    let s1 = s.drop_first();
    let s2 = s1.drop_first();
    let s3 = s2.drop_first();
    let s4 = s3.drop_first();
    assert(s4 =~= Seq::<LexItem>::empty());
    assert(s_loop(t, m, s4, ay, o.bps.1) == (Ok::<ExprView, ErrView>(ay), s4));
    assert(s_expr(t, m, s3, o.bps.1) == (Ok::<Option<ExprView>, ErrView>(Some(ay)), s4));
    if o.bps.0 < p.bp {
        assert(s_loop(t, m, s2, ax, p.bp) == (Ok::<ExprView, ErrView>(ax), s2));
        assert(s_expr(t, m, s1, p.bp) == (Ok::<Option<ExprView>, ErrView>(Some(ax)), s2));
        let pre = prefix_node(m, p, lp, ax);
        assert(s_prefix(t, m, s1, PrefixRule::Basic(p), lp) == (Ok::<ExprView, ErrView>(pre), s2));
        let whole = infix_node(m, o, l, pre, ay);
        assert(s_loop(t, m, s4, whole, min_bp) == (Ok::<ExprView, ErrView>(whole), s4));
        assert(s_loop(t, m, s2, pre, min_bp) == (Ok::<ExprView, ErrView>(whole), s4));
    } else {
        let inner = infix_node(m, o, l, ax, ay);
        assert(s_loop(t, m, s4, inner, p.bp) == (Ok::<ExprView, ErrView>(inner), s4));
        assert(s_loop(t, m, s2, ax, p.bp) == (Ok::<ExprView, ErrView>(inner), s4));
        assert(s_expr(t, m, s1, p.bp) == (Ok::<Option<ExprView>, ErrView>(Some(inner)), s4));
        let whole = prefix_node(m, p, lp, inner);
        assert(s_prefix(t, m, s1, PrefixRule::Basic(p), lp) == (Ok::<ExprView, ErrView>(whole), s4));
        assert(s_loop(t, m, s4, whole, min_bp) == (Ok::<ExprView, ErrView>(whole), s4));
    }
}


/// A text lexed as part of a file lies in that file, so a parser over it starts
/// out with its input rooted there.
pub proof fn lemma_file_text_rooted(m: Seq<MacroCall>, cs: Seq<char>, pos: int, f: FileId)
    ensures
        rooted(m, lex_all(cs, pos, Source::File(f)), f),
{
    crate::lexer::lemma_lex_all_source(cs, pos, Source::File(f));
    let s = lex_all(cs, pos, Source::File(f));
    assert forall|i: int| 0 <= i < s.len() implies root_file(m, (#[trigger] item_loc(s[i])).src) == Some(f) by {
        assert(crate::lexer::item_source(s[i]) == Source::File(f));
    }
}


/// The table knows `(` as grouping and tuples before an operand and as a call
/// after one, and `)` and `,` are no operators.
pub open spec fn parens_of(t: Table) -> bool {
    &&& t(seq!['(']) == Some(
        ParseOptions {
            pre: Some(PrefixRule::Paren(ParenPrefix)),
            post: Some(PostParse::Postfix(PostfixRule::Call(CallPostfix))),
        },
    )
    &&& t(seq![')']) is None
    &&& t(seq![',']) is None
}

/// Every argument of a call is a whole expression: in `f(x1 o1 y1, x2 o2 y2)`
/// each argument takes its infix operator whatever that operator's binding
/// power, and the call is `f` applied to the two operator nodes, located from
/// the callee to the opening parenthesis.  The whole input is read.
pub proof fn lemma_call_infix_args(
    t: Table,
    m: Seq<MacroCall>,
    f: TokenView,
    lf: Loc,
    lo: Loc,
    x1: TokenView,
    lx1: Loc,
    n1: Seq<char>,
    ln1: Loc,
    o1: BasicInfix,
    y1: TokenView,
    ly1: Loc,
    lc: Loc,
    x2: TokenView,
    lx2: Loc,
    n2: Seq<char>,
    ln2: Loc,
    o2: BasicInfix,
    y2: TokenView,
    ly2: Loc,
    lz: Loc,
    min_bp: Bp,
)
    requires
        parens_of(t),
        is_atom(f),
        is_atom(x1),
        is_atom(y1),
        is_atom(x2),
        is_atom(y2),
        infix_of(t, n1, o1),
        infix_of(t, n2, o2),
        min_bp <= 80,
    ensures
        ({
            let s = seq![
                LexItem::Tok(f, lf),
                LexItem::Tok(TokenView::Name(seq!['(']), lo),
                LexItem::Tok(x1, lx1),
                LexItem::Tok(TokenView::Name(n1), ln1),
                LexItem::Tok(y1, ly1),
                LexItem::Tok(TokenView::Name(seq![',']), lc),
                LexItem::Tok(x2, lx2),
                LexItem::Tok(TokenView::Name(n2), ln2),
                LexItem::Tok(y2, ly2),
                LexItem::Tok(TokenView::Name(seq![')']), lz),
            ];
            let node1 = infix_node(m, o1, ln1, atom_view(x1, lx1), atom_view(y1, ly1));
            let node2 = infix_node(m, o2, ln2, atom_view(x2, lx2), atom_view(y2, ly2));
            s_expr(t, m, s, min_bp) == (
                Ok::<Option<ExprView>, ErrView>(
                    Some((AstView::Call(Box::new(atom_view(f, lf)), seq![node1, node2]), join(m, lf, lo))),
                ),
                Seq::<LexItem>::empty(),
            )
        }),
{
    let s = seq![
        LexItem::Tok(f, lf),
        LexItem::Tok(TokenView::Name(seq!['(']), lo),
        LexItem::Tok(x1, lx1),
        LexItem::Tok(TokenView::Name(n1), ln1),
        LexItem::Tok(y1, ly1),
        LexItem::Tok(TokenView::Name(seq![',']), lc),
        LexItem::Tok(x2, lx2),
        LexItem::Tok(TokenView::Name(n2), ln2),
        LexItem::Tok(y2, ly2),
        LexItem::Tok(TokenView::Name(seq![')']), lz),
    ];
    let (af, ax1, ay1, ax2, ay2) = (
        atom_view(f, lf),
        atom_view(x1, lx1),
        atom_view(y1, ly1),
        atom_view(x2, lx2),
        atom_view(y2, ly2),
    );
    let node1 = infix_node(m, o1, ln1, ax1, ay1);
    let node2 = infix_node(m, o2, ln2, ax2, ay2);
    let call = (AstView::Call(Box::new(af), seq![node1, node2]), join(m, lf, lo));
    let s1 = s.drop_first();
    let s2 = s1.drop_first();
    let s3 = s2.drop_first();
    let s4 = s3.drop_first();
    let s5 = s4.drop_first();
    let s6 = s5.drop_first();
    let s7 = s6.drop_first();
    let s8 = s7.drop_first();
    let s9 = s8.drop_first();
    let s10 = s9.drop_first();
    assert(s10 =~= Seq::<LexItem>::empty());
    assert(n1 != seq![','] && n1 != seq![')'] && n2 != seq![','] && n2 != seq![')']);
    assert(seq![','] != seq![')']) by {
        assert(seq![','][0] != seq![')'][0]);
    }
    // the second argument, up to the closing parenthesis
    assert(s_loop(t, m, s9, ay2, o2.bps.1) == (Ok::<ExprView, ErrView>(ay2), s9));
    assert(s_expr(t, m, s8, o2.bps.1) == (Ok::<Option<ExprView>, ErrView>(Some(ay2)), s9));
    assert(s_loop(t, m, s9, node2, i32::MIN) == (Ok::<ExprView, ErrView>(node2), s9));
    assert(s_loop(t, m, s7, ax2, i32::MIN) == (Ok::<ExprView, ErrView>(node2), s9));
    assert(s_expr(t, m, s6, i32::MIN) == (Ok::<Option<ExprView>, ErrView>(Some(node2)), s9));
    assert(s_try_name(s9, seq![',']) == (Ok::<Option<Loc>, ErrView>(None), s9));
    assert(s_close(m, s9, lo) == (Ok::<Loc, ErrView>(lz), s10));
    assert(seq![node1].push(node2) =~= seq![node1, node2]);
    assert(s_args(t, m, s6, seq![node1], lo) == (Ok::<Seq<ExprView>, ErrView>(seq![node1, node2]), s10));
    // the first argument, up to the comma
    assert(s_loop(t, m, s5, ay1, o1.bps.1) == (Ok::<ExprView, ErrView>(ay1), s5));
    assert(s_expr(t, m, s4, o1.bps.1) == (Ok::<Option<ExprView>, ErrView>(Some(ay1)), s5));
    assert(s_loop(t, m, s5, node1, i32::MIN) == (Ok::<ExprView, ErrView>(node1), s5));
    assert(s_loop(t, m, s3, ax1, i32::MIN) == (Ok::<ExprView, ErrView>(node1), s5));
    assert(s_expr(t, m, s2, i32::MIN) == (Ok::<Option<ExprView>, ErrView>(Some(node1)), s5));
    assert(s_try_name(s5, seq![',']) == (Ok::<Option<Loc>, ErrView>(Some(lc)), s6));
    assert(Seq::<ExprView>::empty().push(node1) =~= seq![node1]);
    assert(s_args(t, m, s2, seq![], lo) == (Ok::<Seq<ExprView>, ErrView>(seq![node1, node2]), s10));
    assert(s_try_name(s2, seq![')']) == (Ok::<Option<Loc>, ErrView>(None), s2));
    assert(s_arg_list(t, m, s2, lo) == (Ok::<Seq<ExprView>, ErrView>(seq![node1, node2]), s10));
    assert(s_postfix(t, m, s2, PostfixRule::Call(CallPostfix), lo, af) == (Ok::<ExprView, ErrView>(call), s10));
    assert(s_loop(t, m, s10, call, min_bp) == (Ok::<ExprView, ErrView>(call), s10));
    assert(s_loop(t, m, s1, af, min_bp) == (Ok::<ExprView, ErrView>(call), s10));
}

/// Every element of a tuple is a whole expression: `(x1 o1 y1, x2 o2 y2)` is
/// the tuple of the two operator nodes, whatever their binding powers, located
/// from the closing to the opening parenthesis.  The whole input is read.
pub proof fn lemma_tuple_infix_elements(
    t: Table,
    m: Seq<MacroCall>,
    lo: Loc,
    x1: TokenView,
    lx1: Loc,
    n1: Seq<char>,
    ln1: Loc,
    o1: BasicInfix,
    y1: TokenView,
    ly1: Loc,
    lc: Loc,
    x2: TokenView,
    lx2: Loc,
    n2: Seq<char>,
    ln2: Loc,
    o2: BasicInfix,
    y2: TokenView,
    ly2: Loc,
    lz: Loc,
    min_bp: Bp,
)
    requires
        parens_of(t),
        is_atom(x1),
        is_atom(y1),
        is_atom(x2),
        is_atom(y2),
        infix_of(t, n1, o1),
        infix_of(t, n2, o2),
    ensures
        ({
            let s = seq![
                LexItem::Tok(TokenView::Name(seq!['(']), lo),
                LexItem::Tok(x1, lx1),
                LexItem::Tok(TokenView::Name(n1), ln1),
                LexItem::Tok(y1, ly1),
                LexItem::Tok(TokenView::Name(seq![',']), lc),
                LexItem::Tok(x2, lx2),
                LexItem::Tok(TokenView::Name(n2), ln2),
                LexItem::Tok(y2, ly2),
                LexItem::Tok(TokenView::Name(seq![')']), lz),
            ];
            let node1 = infix_node(m, o1, ln1, atom_view(x1, lx1), atom_view(y1, ly1));
            let node2 = infix_node(m, o2, ln2, atom_view(x2, lx2), atom_view(y2, ly2));
            let l = join(m, lz, lo);
            s_expr(t, m, s, min_bp) == (
                Ok::<Option<ExprView>, ErrView>(
                    Some((AstView::Op(Located { value: OpID(41), loc: l }, seq![node1, node2]), l)),
                ),
                Seq::<LexItem>::empty(),
            )
        }),
{
    let s = seq![
        LexItem::Tok(TokenView::Name(seq!['(']), lo),
        LexItem::Tok(x1, lx1),
        LexItem::Tok(TokenView::Name(n1), ln1),
        LexItem::Tok(y1, ly1),
        LexItem::Tok(TokenView::Name(seq![',']), lc),
        LexItem::Tok(x2, lx2),
        LexItem::Tok(TokenView::Name(n2), ln2),
        LexItem::Tok(y2, ly2),
        LexItem::Tok(TokenView::Name(seq![')']), lz),
    ];
    let (ax1, ay1, ax2, ay2) = (atom_view(x1, lx1), atom_view(y1, ly1), atom_view(x2, lx2), atom_view(y2, ly2));
    let node1 = infix_node(m, o1, ln1, ax1, ay1);
    let node2 = infix_node(m, o2, ln2, ax2, ay2);
    let l = join(m, lz, lo);
    let tup = (AstView::Op(Located { value: OpID(41), loc: l }, seq![node1, node2]), l);
    let s1 = s.drop_first();
    let s2 = s1.drop_first();
    let s3 = s2.drop_first();
    let s4 = s3.drop_first();
    let s5 = s4.drop_first();
    let s6 = s5.drop_first();
    let s7 = s6.drop_first();
    let s8 = s7.drop_first();
    let s9 = s8.drop_first();
    assert(s9 =~= Seq::<LexItem>::empty());
    assert(n1 != seq![','] && n1 != seq![')'] && n2 != seq![','] && n2 != seq![')']);
    assert(seq![','] != seq![')']) by {
        assert(seq![','][0] != seq![')'][0]);
    }
    // the second element, up to the closing parenthesis
    assert(s_loop(t, m, s8, ay2, o2.bps.1) == (Ok::<ExprView, ErrView>(ay2), s8));
    assert(s_expr(t, m, s7, o2.bps.1) == (Ok::<Option<ExprView>, ErrView>(Some(ay2)), s8));
    assert(s_loop(t, m, s8, node2, i32::MIN) == (Ok::<ExprView, ErrView>(node2), s8));
    assert(s_loop(t, m, s6, ax2, i32::MIN) == (Ok::<ExprView, ErrView>(node2), s8));
    assert(s_expr(t, m, s5, i32::MIN) == (Ok::<Option<ExprView>, ErrView>(Some(node2)), s8));
    assert(s_try_name(s8, seq![',']) == (Ok::<Option<Loc>, ErrView>(None), s8));
    assert(s_close(m, s8, lo) == (Ok::<Loc, ErrView>(lz), s9));
    assert(seq![node1].push(node2) =~= seq![node1, node2]);
    assert(s_tuple_close(m, s8, seq![node1, node2], lo) == (Ok::<ExprView, ErrView>(tup), s9));
    assert(s_check_name(s5, seq![')']) == (Ok::<Option<Loc>, ErrView>(None), s5));
    assert(s_tuple(t, m, s5, seq![node1], lo) == (Ok::<ExprView, ErrView>(tup), s9));
    // the first element, up to the comma
    assert(s_loop(t, m, s4, ay1, o1.bps.1) == (Ok::<ExprView, ErrView>(ay1), s4));
    assert(s_expr(t, m, s3, o1.bps.1) == (Ok::<Option<ExprView>, ErrView>(Some(ay1)), s4));
    assert(s_loop(t, m, s4, node1, i32::MIN) == (Ok::<ExprView, ErrView>(node1), s4));
    assert(s_loop(t, m, s2, ax1, i32::MIN) == (Ok::<ExprView, ErrView>(node1), s4));
    assert(s_expr(t, m, s1, i32::MIN) == (Ok::<Option<ExprView>, ErrView>(Some(node1)), s4));
    assert(s_try_name(s1, seq![')']) == (Ok::<Option<Loc>, ErrView>(None), s1));
    assert(s_try_name(s1, seq![',']) == (Ok::<Option<Loc>, ErrView>(None), s1));
    assert(s_next(s4) == (Ok::<Option<(TokenView, Loc)>, ErrView>(Some((TokenView::Name(seq![',']), lc))), s5));
    assert(TokenView::Name(seq![',']) != TokenView::Name(seq![')']));
    assert(s_paren(t, m, s1, lo) == (Ok::<ExprView, ErrView>(tup), s9));
    assert(s_prefix(t, m, s1, PrefixRule::Paren(ParenPrefix), lo) == (Ok::<ExprView, ErrView>(tup), s9));
    assert(s_loop(t, m, s9, tup, min_bp) == (Ok::<ExprView, ErrView>(tup), s9));
}

} // verus!
