//! The lexer: a `BasicLexer` walks one text; a `Lexer` walks a stack of them
//! (the top one first) and can hold one token it has peeked at.
use vstd::prelude::*;
use vstd::utf8::*;
use vstd::std_specs::iter::IteratorSpec;
use vstd::string::StringSliceAdditionalSpecFns;
use crate::input::Source;
use crate::parse::{LexError, LexRes, Loc, Located, ParseError, ParseErrorView, ParseOpRes, Token, TokenView};
use crate::text::{
    byte_len, char_is_alphabetic, char_is_numeric, char_is_whitespace, char_len_utf8,
    class_holds, is_alphabetic_char, is_numeric_char, is_white_space, lemma_char_utf8_len,
    lemma_encode_concat, lemma_run_len_bound, lemma_utf8_len_ge, lemma_utf8_len_split,
    lemma_utf8_len_take_step, run_len, scan_run, split_chars, string_push, utf8_len, CharClass,
};

verus! {

broadcast use vstd::string::group_string_axioms;

/// One result of lexing: a token or an error, each with its location.
pub enum LexItem {
    Tok(TokenView, Loc),
    Fail(LexError, Loc),
}

/// Characters that always form a one character operator.
pub open spec fn is_single_char_op(c: char) -> bool {
    c == '?' || c == '!' || c == '.' || c == ',' || c == '*' || c == ';' || c == '\'' || c == '('
        || c == ')' || c == '[' || c == ']' || c == '{' || c == '}'
}

/// Number of characters skipped before the next token: whitespace and `//` comments
/// (a comment runs up to, not including, the next newline).
pub open spec fn skip_len(cs: Seq<char>) -> nat
    decreases cs.len(),
{
    let w = run_len(cs, CharClass::WhiteSpace);
    proof {
        lemma_run_len_bound(cs, CharClass::WhiteSpace);
    }
    let rest = cs.skip(w as int);
    if rest.len() >= 2 && rest[0] == '/' && rest[1] == '/' {
        let body = rest.skip(2);
        let c = run_len(body, CharClass::NotNewline);
        proof {
            lemma_run_len_bound(body, CharClass::NotNewline);
        }
        let k = w + 2 + c;
        k + skip_len(cs.skip(k as int))
    } else {
        w
    }
}

/// The character an escape sequence `\c` stands for.
pub open spec fn resolve_escape(c: char) -> char {
    if c == 'n' {
        '\n'
    } else if c == 'r' {
        '\r'
    } else if c == 't' {
        '\t'
    } else if c == '\\' {
        '\\'
    } else if c == '"' {
        '"'
    } else if c == '\'' {
        '\''
    } else if c == '0' {
        '\0'
    } else {
        c
    }
}

/// Scans the body of a string literal (after the opening quote).  `escaped` says
/// that the previous character was a backslash, `acc` holds the characters read so
/// far and `n` how many characters were consumed.  The result says whether a
/// closing quote was found, how many characters were consumed in all (the closing
/// quote, or a newline that ends the literal, included), and the string's value.
pub open spec fn scan_str(cs: Seq<char>, escaped: bool, acc: Seq<char>, n: nat) -> (bool, nat, Seq<char>)
    decreases cs.len(),
{
    if cs.len() == 0 {
        (false, n, acc)
    } else {
        let c = cs[0];
        let r = cs.drop_first();
        if c == '\n' {
            (false, n + 1, acc)
        } else if escaped {
            scan_str(r, false, acc.push(resolve_escape(c)), n + 1)
        } else if c == '"' {
            (true, n + 1, acc)
        } else if c == '\\' {
            scan_str(r, true, acc, n + 1)
        } else {
            scan_str(r, false, acc.push(c), n + 1)
        }
    }
}

pub proof fn lemma_scan_str_len(cs: Seq<char>, escaped: bool, acc: Seq<char>, n: nat)
    ensures
        n <= scan_str(cs, escaped, acc, n).1 <= n + cs.len(),
    decreases cs.len(),
{
    if cs.len() > 0 {
        lemma_scan_str_len(cs.drop_first(), false, acc.push(resolve_escape(cs[0])), n + 1);
        lemma_scan_str_len(cs.drop_first(), true, acc, n + 1);
        lemma_scan_str_len(cs.drop_first(), false, acc.push(cs[0]), n + 1);
    }
}

/// The value of a number token from its bytes: decimal digits, `_` ignored,
/// computed in wrapping `u64` arithmetic.
pub open spec fn number_value(bs: Seq<u8>) -> u64
    decreases bs.len(),
{
    if bs.len() == 0 {
        0
    } else {
        let acc = number_value(bs.drop_last());
        let b = bs.last();
        if b == 95u8 {
            acc
        } else {
            vstd::wrapping::u64_specs::wrapping_add(
                vstd::wrapping::u64_specs::wrapping_mul(acc, 10),
                vstd::wrapping::u8_specs::wrapping_sub(b, 48u8) as u64,
            )
        }
    }
}

/// The token at the front of `rest` (which starts with a non-whitespace character):
/// how many characters it takes, and the token or the error.
pub open spec fn token_at(rest: Seq<char>) -> (nat, Result<TokenView, LexError>) {
    let c = rest[0];
    if c == '"' {
        let (closed, n, v) = scan_str(rest.drop_first(), false, seq![], 0);
        if closed {
            (1 + n, Ok(TokenView::Str(v)))
        } else {
            (1 + n, Err(LexError::MissingStringClose))
        }
    } else if is_alphabetic_char(c) || c == '_' {
        let n = run_len(rest, CharClass::NameChar);
        (n, Ok(TokenView::Name(rest.take(n as int))))
    } else if is_numeric_char(c) {
        let n = run_len(rest, CharClass::NumberChar);
        if n < rest.len() && !is_white_space(rest[n as int]) && is_alphabetic_char(rest[n as int]) {
            (n + 1, Err(LexError::WeirdNumberEnd(rest[n as int])))
        } else {
            (n, Ok(TokenView::Num(number_value(encode_utf8(rest.take(n as int))))))
        }
    } else if is_single_char_op(c) {
        (1, Ok(TokenView::Name(rest.take(1))))
    } else {
        let n = run_len(rest, CharClass::OperatorChar);
        (n, Ok(TokenView::Name(rest.take(n as int))))
    }
}

/// One step of the lexer on the text `cs` that starts at byte offset `pos` of
/// `src`: the next token or error (or none at the end), and how many characters
/// the step consumes.
pub open spec fn lex_step(cs: Seq<char>, pos: int, src: Source) -> (Option<LexItem>, nat) {
    let k = skip_len(cs);
    let rest = cs.skip(k as int);
    if rest.len() == 0 {
        (None, k)
    } else {
        let (n, res) = token_at(rest);
        let start = pos + utf8_len(cs.take(k as int));
        let loc = Loc {
            src,
            start: start as usize,
            end: (start + utf8_len(rest.take(n as int))) as usize,
        };
        match res {
            Ok(t) => (Some(LexItem::Tok(t, loc)), k + n),
            Err(e) => (Some(LexItem::Fail(e, loc)), k + n),
        }
    }
}

pub proof fn lemma_skip_len(cs: Seq<char>)
    ensures
        skip_len(cs) <= cs.len(),
        skip_len(cs) < cs.len() ==> !is_white_space(cs[skip_len(cs) as int]),
    decreases cs.len(),
{
    let w = run_len(cs, CharClass::WhiteSpace);
    lemma_run_len_bound(cs, CharClass::WhiteSpace);
    let rest = cs.skip(w as int);
    if rest.len() >= 2 && rest[0] == '/' && rest[1] == '/' {
        let body = rest.skip(2);
        lemma_run_len_bound(body, CharClass::NotNewline);
        let k = w + 2 + run_len(body, CharClass::NotNewline);
        lemma_skip_len(cs.skip(k as int));
        let j = skip_len(cs.skip(k as int));
        if j < cs.skip(k as int).len() {
            assert(cs.skip(k as int)[j as int] == cs[(k + j) as int]);
        }
    } else {
        if w < cs.len() {
            assert(rest[0] == cs[w as int]);
        }
    }
}

/// Every token or error takes at least one character, and no more than remain.
pub proof fn lemma_token_at_len(rest: Seq<char>)
    requires
        rest.len() > 0,
        !is_white_space(rest[0]),
    ensures
        1 <= token_at(rest).0 <= rest.len(),
{
    let c = rest[0];
    if c == '"' {
        lemma_scan_str_len(rest.drop_first(), false, seq![], 0);
    } else if is_alphabetic_char(c) || c == '_' {
        lemma_run_len_bound(rest, CharClass::NameChar);
        assert(class_holds(CharClass::NameChar, rest[0]));
    } else if is_numeric_char(c) {
        lemma_run_len_bound(rest, CharClass::NumberChar);
        assert(class_holds(CharClass::NumberChar, rest[0]));
    } else if is_single_char_op(c) {
    } else {
        lemma_run_len_bound(rest, CharClass::OperatorChar);
        assert(class_holds(CharClass::OperatorChar, rest[0]));
    }
}

pub proof fn lemma_lex_step(cs: Seq<char>, pos: int, src: Source)
    ensures
        lex_step(cs, pos, src).1 <= cs.len(),
        lex_step(cs, pos, src).0 is Some ==> lex_step(cs, pos, src).1 >= 1,
        lex_step(cs, pos, src).0 is None ==> lex_step(cs, pos, src).1 == cs.len(),
{
    lemma_skip_len(cs);
    let k = skip_len(cs);
    let rest = cs.skip(k as int);
    if rest.len() > 0 {
        assert(rest[0] == cs[k as int]);
        lemma_token_at_len(rest);
    }
}

/// Everything the lexer yields from the text `cs` at byte offset `pos` of `src`.
pub open spec fn lex_all(cs: Seq<char>, pos: int, src: Source) -> Seq<LexItem>
    decreases cs.len(),
{
    let (item, k) = lex_step(cs, pos, src);
    proof {
        lemma_lex_step(cs, pos, src);
    }
    match item {
        None => seq![],
        Some(it) => seq![it] + lex_all(cs.skip(k as int), pos + utf8_len(cs.take(k as int)), src),
    }
}

/// Characters that stand for themselves in a string literal: no quote, no
/// backslash, no newline.
pub open spec fn plain_str_chars(u: Seq<char>) -> bool {
    forall|i: int| 0 <= i < u.len() ==> u[i] != '"' && u[i] != '\\' && u[i] != '\n'
}

proof fn lemma_scan_plain(u: Seq<char>, rest: Seq<char>, acc: Seq<char>, n: nat)
    requires
        plain_str_chars(u),
    ensures
        scan_str(u + rest, false, acc, n) == scan_str(rest, false, acc + u, n + u.len()),
    decreases u.len(),
{
    if u.len() > 0 {
        assert((u + rest)[0] == u[0]);
        assert((u + rest).drop_first() =~= u.drop_first() + rest);
        assert(acc.push(u[0]) + u.drop_first() =~= acc + u);
        assert forall|i: int| 0 <= i < u.drop_first().len() implies u.drop_first()[i] != '"' && u.drop_first()[i]
            != '\\' && u.drop_first()[i] != '\n' by {
            assert(u.drop_first()[i] == u[i + 1]);
        }
        lemma_scan_plain(u.drop_first(), rest, acc.push(u[0]), n + 1);
    } else {
        assert(u + rest =~= rest);
        assert(acc + u =~= acc);
    }
}

/// A string literal holding one escape `\c` between plain text `u` and `w`
/// lexes to one string token: `\n` is a newline, `\r` a carriage return, `\t` a
/// tab and `\0` the NUL character; any other character after the backslash
/// (such as `\`, `"` or `'`) stands for itself.  The token spans the whole literal.
pub proof fn lemma_string_escape(u: Seq<char>, c: char, w: Seq<char>, pos: int, src: Source)
    requires
        plain_str_chars(u),
        plain_str_chars(w),
        c != '\n',
    ensures
        ({
            let cs = seq!['"'] + u + seq!['\\', c] + w + seq!['"'];
            lex_step(cs, pos, src).1 == cs.len() && (lex_step(cs, pos, src).0 matches Some(
                LexItem::Tok(TokenView::Str(v), _),
            ) && (c == 'n' ==> v == u + seq!['\n'] + w) && (c == 'r' ==> v == u + seq!['\r'] + w) && (c
                == 't' ==> v == u + seq!['\t'] + w) && (c == '0' ==> v == u + seq!['\0'] + w) && (c != 'n'
                && c != 'r' && c != 't' && c != '0' ==> v == u + seq![c] + w))
        }),
{
    let cs = seq!['"'] + u + seq!['\\', c] + w + seq!['"'];
    let body = cs.drop_first();
    assert(cs[0] == '"');
    assert(body =~= u + (seq!['\\', c] + w + seq!['"']));
    let tail = seq!['\\', c] + w + seq!['"'];
    lemma_scan_plain(u, tail, seq![], 0);
    assert(Seq::<char>::empty() + u =~= u);
    assert(tail[0] == '\\');
    assert(tail.drop_first() =~= seq![c] + w + seq!['"']);
    let t2 = seq![c] + w + seq!['"'];
    assert(t2[0] == c);
    assert(t2.drop_first() =~= w + seq!['"']);
    let m = resolve_escape(c);
    lemma_scan_plain(w, seq!['"'], u.push(m), u.len() + 2);
    assert(u.push(m) + w =~= u + seq![m] + w);
    assert((seq!['"'])[0] == '"');
    reveal_with_fuel(scan_str, 2);
    assert(scan_str(seq!['"'], false, u + seq![m] + w, u.len() + 2 + w.len()) == (
        true,
        (u.len() + 2 + w.len() + 1) as nat,
        u + seq![m] + w,
    ));
    // nothing is skipped before the literal
    assert(run_len(cs, CharClass::WhiteSpace) == 0);
    assert(cs.skip(0) =~= cs);
    assert(skip_len(cs) == 0);
}

/// The location of a lexer item.
pub open spec fn item_loc(it: LexItem) -> Loc {
    match it {
        LexItem::Tok(_, l) => l,
        LexItem::Fail(_, l) => l,
    }
}

/// An item with its location moved `k` bytes further into its source.
pub open spec fn shift_item(it: LexItem, k: int) -> LexItem {
    match it {
        LexItem::Tok(t, l) => LexItem::Tok(
            t,
            Loc { src: l.src, start: (l.start + k) as usize, end: (l.end + k) as usize },
        ),
        LexItem::Fail(e, l) => LexItem::Fail(
            e,
            Loc { src: l.src, start: (l.start + k) as usize, end: (l.end + k) as usize },
        ),
    }
}

/// The facts of one lexer step from the byte offset `pos`: the item's span
/// starts after the skipped text, ends where the step ends, and a name is the
/// text it spans.
proof fn lemma_lex_step_span(cs: Seq<char>, pos: int, src: Source)
    requires
        0 <= pos,
        pos + utf8_len(cs) <= usize::MAX,
        lex_step(cs, pos, src).0 is Some,
    ensures
        ({
            let (item, k) = lex_step(cs, pos, src);
            let l = item_loc(item->0);
            &&& 1 <= k <= cs.len()
            &&& pos <= l.start < l.end
            &&& l.end == pos + utf8_len(cs.take(k as int))
            &&& l.end - pos <= utf8_len(cs)
            &&& (item->0 matches LexItem::Tok(TokenView::Name(n), _) ==> encode_utf8(n) == encode_utf8(
                cs,
            ).subrange(l.start - pos, l.end - pos))
        }),
{
    lemma_lex_step(cs, pos, src);
    lemma_skip_len(cs);
    let ks = skip_len(cs) as int;
    let rest = cs.skip(ks);
    assert(rest[0] == cs[ks]);
    lemma_token_at_len(rest);
    let n = token_at(rest).0 as int;
    let mid = rest.take(n);
    assert(cs.take(ks + n) =~= cs.take(ks) + mid);
    lemma_encode_concat(cs.take(ks), mid);
    lemma_utf8_len_ge(mid);
    lemma_utf8_len_split(cs, ks + n);
    lemma_utf8_len_split(cs, ks);
    assert(cs =~= cs.take(ks) + mid + cs.skip(ks + n));
    lemma_encode_concat(cs.take(ks) + mid, cs.skip(ks + n));
    let c0 = cs[ks];
    if !(c0 == '"') && !(is_alphabetic_char(c0) || c0 == '_') && !is_numeric_char(c0) && is_single_char_op(c0) {
        assert(rest.take(1) =~= mid);
    }
    assert(encode_utf8(cs).subrange(utf8_len(cs.take(ks)) as int, utf8_len(cs.take(ks + n)) as int)
        =~= encode_utf8(mid));
}

/// Over successive calls, a lexer's items lie in its text and its source, in
/// order and without overlap; each takes at least one byte; a name is exactly the text
/// it spans; and there are no more items than characters.
pub proof fn lemma_lex_all_spans(cs: Seq<char>, pos: int, src: Source)
    requires
        0 <= pos,
        pos + utf8_len(cs) <= usize::MAX,
    ensures
        ({
            let s = lex_all(cs, pos, src);
            &&& s.len() <= cs.len()
            &&& forall|i: int|
                0 <= i < s.len() ==> pos <= (#[trigger] item_loc(s[i])).start < item_loc(s[i]).end
                    <= pos + utf8_len(cs) && item_loc(s[i]).src == src
            &&& forall|i: int, j: int|
                0 <= i < j < s.len() ==> (#[trigger] item_loc(s[i])).end <= (#[trigger] item_loc(s[j])).start
            &&& forall|i: int|
                0 <= i < s.len() ==> ((#[trigger] s[i]) matches LexItem::Tok(TokenView::Name(n), l)
                    ==> encode_utf8(n) == encode_utf8(cs).subrange(l.start - pos, l.end - pos))
        }),
    decreases cs.len(),
{
    lemma_lex_step(cs, pos, src);
    let (item, k) = lex_step(cs, pos, src);
    let s = lex_all(cs, pos, src);
    match item {
        Some(it) => {
            lemma_lex_step_span(cs, pos, src);
            let cs2 = cs.skip(k as int);
            let pos2 = pos + utf8_len(cs.take(k as int));
            lemma_utf8_len_split(cs, k as int);
            lemma_lex_all_spans(cs2, pos2, src);
            let rest = lex_all(cs2, pos2, src);
            assert(s == seq![it] + rest);
            assert(cs =~= cs.take(k as int) + cs2);
            lemma_encode_concat(cs.take(k as int), cs2);
            lemma_lex_all_source(cs, pos, src);
            assert forall|i: int| 0 <= i < s.len() implies pos <= (#[trigger] item_loc(s[i])).start
                < item_loc(s[i]).end <= pos + utf8_len(cs) && item_loc(s[i]).src == src by {
                assert(item_source(s[i]) == src);
                if i > 0 {
                    assert(s[i] == rest[i - 1]);
                }
            }
            assert forall|i: int, j: int| 0 <= i < j < s.len() implies (#[trigger] item_loc(s[i])).end <= (
            #[trigger] item_loc(s[j])).start by {
                assert(s[j] == rest[j - 1]);
                if i > 0 {
                    assert(s[i] == rest[i - 1]);
                }
            }
            assert forall|i: int| 0 <= i < s.len() implies ((#[trigger] s[i]) matches LexItem::Tok(
                TokenView::Name(n),
                l,
            ) ==> encode_utf8(n) == encode_utf8(cs).subrange(l.start - pos, l.end - pos)) by {
                if i > 0 {
                    assert(s[i] == rest[i - 1]);
                    let l = item_loc(rest[i - 1]);
                    assert(pos2 <= l.start < l.end <= pos2 + utf8_len(cs2));
                    assert(encode_utf8(cs2).subrange(l.start - pos2, l.end - pos2) =~= encode_utf8(
                        cs,
                    ).subrange(l.start - pos, l.end - pos));
                }
            }
        },
        None => {},
    }
}

/// A lexer started `k` bytes further into its source yields the same items,
/// each located `k` bytes further.
pub proof fn lemma_lex_all_shift(cs: Seq<char>, pos: int, k: int, src: Source)
    requires
        0 <= pos,
        0 <= k,
        pos + k + utf8_len(cs) <= usize::MAX,
    ensures
        lex_all(cs, pos + k, src) == lex_all(cs, pos, src).map_values(|it: LexItem| shift_item(it, k)),
    decreases cs.len(),
{
    lemma_lex_step(cs, pos, src);
    let (item, n) = lex_step(cs, pos, src);
    let s = lex_all(cs, pos, src);
    let t = lex_all(cs, pos + k, src);
    match item {
        Some(it) => {
            lemma_lex_step_span(cs, pos, src);
            let cs2 = cs.skip(n as int);
            let u = utf8_len(cs.take(n as int));
            lemma_utf8_len_split(cs, n as int);
            lemma_lex_all_shift(cs2, pos + u, k, src);
            let ks = skip_len(cs) as int;
            let rest = cs.skip(ks);
            let m = token_at(rest).0 as int;
            let st = pos + utf8_len(cs.take(ks));
            let en = st + utf8_len(rest.take(m));
            lemma_utf8_len_split(cs, ks);
            lemma_skip_len(cs);
            assert(cs.take(ks + m) =~= cs.take(ks) + rest.take(m));
            lemma_encode_concat(cs.take(ks), rest.take(m));
            assert(en == item_loc(it).end);
            assert(0 <= st <= en <= pos + utf8_len(cs));
            assert((st as usize) as int == st);
            assert((en as usize) as int == en);
            assert(((st + k) as usize) as int == st + k);
            assert(((en + k) as usize) as int == en + k);
            assert(lex_step(cs, pos + k, src).0 == Some(shift_item(it, k)));
            assert(s == seq![it] + lex_all(cs2, pos + u, src));
            assert(t == seq![shift_item(it, k)] + lex_all(cs2, pos + k + u, src));
            assert(t =~= s.map_values(|it: LexItem| shift_item(it, k)));
        },
        None => {
            assert(t =~= s.map_values(|it: LexItem| shift_item(it, k)));
        },
    }
}

/// The source an item's location lies in.
pub open spec fn item_source(it: LexItem) -> Source {
    match it {
        LexItem::Tok(_, l) => l.src,
        LexItem::Fail(_, l) => l.src,
    }
}

/// Every item the lexer yields from a text lies in that text's source.
pub proof fn lemma_lex_all_source(cs: Seq<char>, pos: int, src: Source)
    ensures
        forall|i: int|
            0 <= i < lex_all(cs, pos, src).len() ==> item_source(#[trigger] lex_all(cs, pos, src)[i]) == src,
    decreases cs.len(),
{
    lemma_lex_step(cs, pos, src);
    let (item, k) = lex_step(cs, pos, src);
    match item {
        Some(it) => {
            let rest = lex_all(cs.skip(k as int), pos + utf8_len(cs.take(k as int)), src);
            lemma_lex_all_source(cs.skip(k as int), pos + utf8_len(cs.take(k as int)), src);
            assert(lex_all(cs, pos, src) == seq![it] + rest);
            assert forall|i: int| 0 <= i < lex_all(cs, pos, src).len() implies item_source(
                #[trigger] lex_all(cs, pos, src)[i],
            ) == src by {
                if i > 0 {
                    assert(lex_all(cs, pos, src)[i] == rest[i - 1]);
                }
            }
        },
        None => {},
    }
}

/// The result a lexer call gives for one step's item.
pub open spec fn lex_result_matches(r: LexRes<Option<Located<Token>>>, item: Option<LexItem>) -> bool {
    match item {
        None => r matches Ok(None),
        Some(LexItem::Tok(t, l)) => r matches Ok(Some(x)) && x.value@ == t && x.loc == l,
        Some(LexItem::Fail(e, l)) => r matches Err(x) && x.value == e && x.loc == l,
    }
}

#[derive(Debug, Clone, Copy)]
pub struct BasicLexer<'a> {
    cur_str: &'a str,
    cur_start: usize,
    src: Source,
}

impl<'a> BasicLexer<'a> {
    /// The text still to be lexed.
    pub closed spec fn text(self) -> Seq<char> {
        self.cur_str@
    }

    /// Byte offset of the text still to be lexed in its source.
    pub closed spec fn pos(self) -> int {
        self.cur_start as int
    }

    pub closed spec fn source(self) -> Source {
        self.src
    }

    /// The offsets of the rest of the text fit in a `usize`.
    pub open spec fn wf(self) -> bool {
        self.pos() + utf8_len(self.text()) <= usize::MAX
    }

    /// Everything this lexer will yield.
    pub open spec fn stream(self) -> Seq<LexItem> {
        lex_all(self.text(), self.pos(), self.source())
    }

    pub fn new(cur_str: &'a str, src: Source) -> (r: Self)
        ensures
            r.text() == cur_str@,
            r.pos() == 0,
            r.source() == src,
            r.wf(),
    {
        let _ = byte_len(cur_str);
        Self { cur_str, cur_start: 0, src }
    }

    pub fn new_at(cur_str: &'a str, src: Source, cur_start: usize) -> (r: Self)
        requires
            cur_start + utf8_len(cur_str@) <= usize::MAX,
        ensures
            r.text() == cur_str@,
            r.pos() == cur_start,
            r.source() == src,
            r.wf(),
    {
        Self { cur_str, cur_start, src }
    }

    /// Takes the first `k` characters (`size` bytes) of the text.
    fn yeild_next(&mut self, Ghost(k): Ghost<int>, size: usize) -> (r: Located<&'a str>)
        requires
            old(self).wf(),
            0 <= k <= old(self).text().len(),
            size == utf8_len(old(self).text().take(k)),
        ensures
            final(self).wf(),
            final(self).text() == old(self).text().skip(k),
            final(self).pos() == old(self).pos() + size,
            final(self).source() == old(self).source(),
            r.value@ == old(self).text().take(k),
            r.loc == (Loc {
                src: old(self).source(),
                start: old(self).cur_start,
                end: (old(self).cur_start + size) as usize,
            }),
    {
        proof {
            lemma_utf8_len_split(self.cur_str@, k);
        }
        let (value, rest) = split_chars(self.cur_str, Ghost(k), size);
        let end = self.cur_start + size;
        let loc = Loc { src: self.src, start: self.cur_start, end };
        self.cur_str = rest;
        self.cur_start = end;
        Located::new(value, loc)
    }

    /// Consumes `k` characters (`size` bytes).
    fn advance(&mut self, Ghost(k): Ghost<int>, size: usize)
        requires
            old(self).wf(),
            0 <= k <= old(self).text().len(),
            size == utf8_len(old(self).text().take(k)),
        ensures
            final(self).wf(),
            final(self).text() == old(self).text().skip(k),
            final(self).pos() == old(self).pos() + size,
            final(self).source() == old(self).source(),
    {
        let _ = self.yeild_next(Ghost(k), size);
    }

    fn skip_whitespace(&mut self)
        requires
            old(self).wf(),
        ensures
            final(self).wf(),
            final(self).source() == old(self).source(),
            final(self).text() == old(self).text().skip(
                run_len(old(self).text(), CharClass::WhiteSpace) as int,
            ),
            final(self).pos() == old(self).pos() + utf8_len(
                old(self).text().take(run_len(old(self).text(), CharClass::WhiteSpace) as int),
            ),
    {
        let (k, size) = scan_run(self.cur_str, CharClass::WhiteSpace);
        self.advance(Ghost(k as int), size);
    }

    /// The first two characters of the text, when there are two.
    fn starts_with_comment(&self) -> (r: bool)
        ensures
            r == (self.text().len() >= 2 && self.text()[0] == '/' && self.text()[1] == '/'),
    {
        let mut it = self.cur_str.chars();
        let a = it.next();
        let b = it.next();
        proof {
            if self.cur_str@.len() >= 2 {
                assert(self.cur_str@.drop_first()[0] == self.cur_str@[1]);
            }
        }
        match (a, b) {
            (Some(x), Some(y)) => x == '/' && y == '/',
            _ => false,
        }
    }

    fn skip_comments(&mut self)
        requires
            old(self).wf(),
        ensures
            final(self).wf(),
            final(self).source() == old(self).source(),
            final(self).text() == old(self).text().skip(skip_len(old(self).text()) as int),
            final(self).pos() == old(self).pos() + utf8_len(
                old(self).text().take(skip_len(old(self).text()) as int),
            ),
    {
        let ghost orig = self.cur_str@;
        let ghost orig_pos = self.cur_start as int;
        let ghost mut c: int = 0;
        proof {
            lemma_skip_len(orig);
            assert(orig.skip(0) =~= orig);
            assert(orig.take(0) =~= Seq::<char>::empty());
        }
        loop
            invariant
                self.wf(),
                self.source() == old(self).source(),
                orig == old(self).text(),
                orig_pos == old(self).pos(),
                0 <= c <= orig.len(),
                self.text() == orig.skip(c),
                self.pos() == orig_pos + utf8_len(orig.take(c)),
                c + skip_len(orig.skip(c)) == skip_len(orig),
            decreases orig.len() - c,
        {
            let ghost cur = self.cur_str@;
            let ghost w = run_len(cur, CharClass::WhiteSpace);
            proof {
                lemma_run_len_bound(cur, CharClass::WhiteSpace);
            }
            self.skip_whitespace();
            if !self.starts_with_comment() {
                proof {
                    assert(skip_len(cur) == w);
                    assert(orig.skip(c).skip(w as int) =~= orig.skip(c + w));
                    assert(orig.take(c + w) =~= orig.take(c) + cur.take(w as int));
                    lemma_encode_concat(orig.take(c), cur.take(w as int));
                    lemma_utf8_len_split(orig.skip(c + w), 0);
                }
                return;
            }
            let ghost after_ws = self.cur_str@;
            proof {
                assert(after_ws =~= cur.skip(w as int));
                lemma_char_utf8_len('/');
                assert(after_ws.take(2) =~= seq!['/'] + seq!['/']);
                lemma_encode_concat(seq!['/'], seq!['/']);
            }
            self.advance(Ghost(2), 2);
            let ghost body = self.cur_str@;
            let (n, size) = scan_run(self.cur_str, CharClass::NotNewline);
            self.advance(Ghost(n as int), size);
            proof {
                let k = w + 2 + n;
                assert(body =~= cur.skip(w as int).skip(2));
                assert(skip_len(cur) == k + skip_len(cur.skip(k as int)));
                assert(cur.take(k as int) =~= cur.take(w as int) + after_ws.take(2) + body.take(n as int));
                lemma_encode_concat(cur.take(w as int), after_ws.take(2));
                lemma_encode_concat(cur.take(w as int) + after_ws.take(2), body.take(n as int));
                assert(utf8_len(cur.take(k as int)) == utf8_len(cur.take(w as int)) + 2 + size);
                assert(orig.take(c + k) =~= orig.take(c) + cur.take(k as int));
                lemma_encode_concat(orig.take(c), cur.take(k as int));
                assert(utf8_len(orig.take(c + k)) == utf8_len(orig.take(c)) + utf8_len(cur.take(k as int)));
                assert(self.cur_str@ =~= orig.skip(c + k));
                assert(cur.skip(k as int) =~= orig.skip(c + k));
                c = c + k;
            }
        }
    }

    /// Where the token at the front of the text ends, as a location.
    pub open spec fn token_loc(self, n: nat) -> Loc {
        Loc {
            src: self.source(),
            start: self.pos() as usize,
            end: (self.pos() + utf8_len(self.text().take(n as int))) as usize,
        }
    }

    /// The lexer after the token at the front of its text, `n` characters long.
    pub open spec fn after(self, old: Self, n: nat) -> bool {
        &&& self.wf()
        &&& self.source() == old.source()
        &&& self.text() == old.text().skip(n as int)
        &&& self.pos() == old.pos() + utf8_len(old.text().take(n as int))
    }

    fn parse_name(&mut self) -> (r: Located<Token<'a>>)
        requires
            old(self).wf(),
            old(self).text().len() > 0,
            old(self).text()[0] != '"',
            is_alphabetic_char(old(self).text()[0]) || old(self).text()[0] == '_',
        ensures
            final(self).after(*old(self), token_at(old(self).text()).0),
            token_at(old(self).text()).1 matches Ok(t) && r.value@ == t,
            r.loc == old(self).token_loc(token_at(old(self).text()).0),
    {
        let (k, size) = scan_run(self.cur_str, CharClass::NameChar);
        let t = self.yeild_next(Ghost(k as int), size);
        Located::new(Token::Name(t.value), t.loc)
    }

    fn parse_number(&mut self) -> (r: LexRes<Located<Token<'a>>>)
        requires
            old(self).wf(),
            old(self).text().len() > 0,
            old(self).text()[0] != '"',
            !(is_alphabetic_char(old(self).text()[0]) || old(self).text()[0] == '_'),
            is_numeric_char(old(self).text()[0]),
        ensures
            final(self).after(*old(self), token_at(old(self).text()).0),
            match token_at(old(self).text()).1 {
                Ok(t) => r matches Ok(x) && x.value@ == t && x.loc == old(self).token_loc(
                    token_at(old(self).text()).0,
                ),
                Err(e) => r matches Err(x) && x.value == e && x.loc == old(self).token_loc(
                    token_at(old(self).text()).0,
                ),
            },
    {
        let ghost cs = self.cur_str@;
        let (n, size) = scan_run(self.cur_str, CharClass::NumberChar);
        let total = byte_len(self.cur_str);
        proof {
            lemma_run_len_bound(cs, CharClass::NumberChar);
            lemma_utf8_len_split(cs, n as int);
        }
        if size < total {
            let (_, rest) = split_chars(self.cur_str, Ghost(n as int), size);
            let mut it = rest.chars();
            if let Some(d) = it.next() {
                assert(d == cs[n as int]);
                if !char_is_whitespace(d) && char_is_alphabetic(d) {
                    let w = char_len_utf8(d);
                    proof {
                        lemma_utf8_len_take_step(cs, n as int);
                        lemma_utf8_len_split(cs, n + 1);
                    }
                    let tok = self.yeild_next(Ghost(n + 1), size + w);
                    return Err(tok.with(LexError::WeirdNumberEnd(d)));
                }
            }
        }
        proof {
            if n < cs.len() {
                lemma_utf8_len_split(cs, n as int);
                lemma_utf8_len_ge(cs.skip(n as int));
            }
        }
        let tok = self.yeild_next(Ghost(n as int), size);
        let bytes = tok.value.as_bytes();
        let mut num: u64 = 0;
        let mut i: usize = 0;
        proof {
            assert(bytes@.take(0) =~= Seq::<u8>::empty());
        }
        while i < bytes.len()
            invariant
                0 <= i <= bytes@.len(),
                num == number_value(bytes@.take(i as int)),
            decreases bytes@.len() - i,
        {
            let c = bytes[i];
            proof {
                assert(bytes@.take(i + 1).drop_last() =~= bytes@.take(i as int));
                assert(bytes@.take(i + 1).last() == c);
            }
            if c != 95u8 {
                num = num.wrapping_mul(10).wrapping_add(c.wrapping_sub(48u8) as u64);
            }
            i = i + 1;
        }
        proof {
            assert(bytes@.take(bytes@.len() as int) =~= bytes@);
        }
        Ok(tok.with(Token::Num(num)))
    }

    fn parse_string(&mut self) -> (r: LexRes<Located<Token<'a>>>)
        requires
            old(self).wf(),
            old(self).text().len() > 0,
            old(self).text()[0] == '"',
        ensures
            final(self).after(*old(self), token_at(old(self).text()).0),
            match token_at(old(self).text()).1 {
                Ok(t) => r matches Ok(x) && x.value@ == t && x.loc == old(self).token_loc(
                    token_at(old(self).text()).0,
                ),
                Err(e) => r matches Err(x) && x.value == e && x.loc == old(self).token_loc(
                    token_at(old(self).text()).0,
                ),
            },
    {
        let ghost cs = self.cur_str@;
        let ghost body = cs.drop_first();
        let total = byte_len(self.cur_str);
        let mut it = self.cur_str.chars();
        let _ = it.next();
        let mut size: usize = 1;
        let mut s = String::new();
        let mut skip = false;
        let ghost mut k: int = 0;
        proof {
            lemma_char_utf8_len('"');
            assert(cs.take(1) =~= seq!['"']);
            assert(body.skip(0) =~= body);
        }
        loop
            invariant_except_break
                scan_str(body, false, seq![], 0) == scan_str(body.skip(k), skip, s@, k as nat),
            invariant
                cs == self.cur_str@,
                *self == *old(self),
                self.wf(),
                cs.len() > 0,
                cs[0] == '"',
                body == cs.drop_first(),
                total == utf8_len(cs),
                0 <= k <= body.len(),
                it.remaining() == body.skip(k),
                size == utf8_len(cs.take(1 + k)),
            ensures
                scan_str(body, false, seq![], 0) == (false, k as nat, s@),
                0 <= k <= body.len(),
                size == utf8_len(cs.take(1 + k)),
            decreases body.len() - k,
        {
            let ghost rem = body.skip(k);
            let ghost old_s = s@;
            let ghost old_skip = skip;
            let ghost old_k = k;
            proof {
                lemma_utf8_len_split(cs, 1 + k);
            }
            match it.next() {
                Some(c) => {
                    assert(c == rem[0]);
                    assert(c == body[k]);
                    assert(rem.drop_first() =~= body.skip(k + 1));
                    assert(c == cs[1 + k]);
                    let w = char_len_utf8(c);
                    proof {
                        lemma_utf8_len_take_step(cs, 1 + k);
                        lemma_utf8_len_split(cs, 2 + k);
                    }
                    size = size + w;
                    proof {
                        k = k + 1;
                    }
                    if c == '\n' {
                        assert(scan_str(rem, old_skip, old_s, old_k as nat) == (false, k as nat, s@));
                        break;
                    }
                    if skip {
                        skip = false;
                        let resolved = match c {
                            'n' => '\n',
                            'r' => '\r',
                            't' => '\t',
                            '\\' => '\\',
                            '"' => '"',
                            '\'' => '\'',
                            '0' => '\0',
                            _ => c,
                        };
                        string_push(&mut s, resolved);
                        assert(resolved == resolve_escape(c));
                        continue;
                    }
                    if c == '"' {
                        assert(scan_str(rem, old_skip, old_s, old_k as nat) == (true, k as nat, s@));
                        assert(scan_str(body, false, seq![], 0) == (true, k as nat, s@));
                        let t = self.yeild_next(Ghost(1 + k), size);
                        return Ok(t.with(Token::Str(s)));
                    }
                    if c == '\\' {
                        skip = true;
                        continue;
                    }
                    string_push(&mut s, c);
                },
                None => {
                    assert(rem.len() == 0);
                    break;
                },
            }
        }
        let t = self.yeild_next(Ghost(1 + k), size);
        Err(t.with(LexError::MissingStringClose))
    }

    fn parse_operator(&mut self) -> (r: Option<Located<Token<'a>>>)
        requires
            old(self).wf(),
            old(self).text().len() > 0,
            old(self).text()[0] != '"',
            !(is_alphabetic_char(old(self).text()[0]) || old(self).text()[0] == '_'),
            !is_numeric_char(old(self).text()[0]),
            !is_white_space(old(self).text()[0]),
        ensures
            final(self).after(*old(self), token_at(old(self).text()).0),
            r matches Some(x) && token_at(old(self).text()).1 matches Ok(t) && x.value@ == t
                && x.loc == old(self).token_loc(token_at(old(self).text()).0),
    {
        let mut it = self.cur_str.chars();
        let first = it.next();
        let c = match first {
            Some(c) => c,
            None => {
                return None;
            },
        };
        if c == '?' || c == '!' || c == '.' || c == ',' || c == '*' || c == ';' || c == '\''
            || c == '(' || c == ')' || c == '[' || c == ']' || c == '{' || c == '}' {
            proof {
                lemma_char_utf8_len(c);
                assert(self.cur_str@.take(1) =~= seq![c]);
            }
            let t = self.yeild_next(Ghost(1), 1);
            return Some(Located::new(Token::Name(t.value), t.loc));
        }
        let (k, size) = scan_run(self.cur_str, CharClass::OperatorChar);
        let t = self.yeild_next(Ghost(k as int), size);
        Some(Located::new(Token::Name(t.value), t.loc))
    }

    pub fn next(&mut self) -> (r: LexRes<Option<Located<Token<'a>>>>)
        requires
            old(self).wf(),
        ensures
            final(self).after(*old(self), lex_step(old(self).text(), old(self).pos(), old(self).source()).1),
            lex_result_matches(r, lex_step(old(self).text(), old(self).pos(), old(self).source()).0),
            final(self).stream() == (if r matches Ok(None) { seq![] } else { old(self).stream().drop_first() }),
            r matches Ok(None) <==> old(self).stream().len() == 0,
    {
        let ghost cs = self.cur_str@;
        let ghost pos = self.cur_start as int;
        self.skip_comments();
        let ghost k = skip_len(cs);
        let ghost rest = self.cur_str@;
        proof {
            lemma_skip_len(cs);
            lemma_lex_step(cs, pos, self.src);
            if rest.len() > 0 {
                assert(rest[0] == cs[k as int]);
            }
        }
        let mut it = self.cur_str.chars();
        let first = it.next();
        let c = match first {
            Some(c) => c,
            None => {
                proof {
                    assert(cs.skip(cs.len() as int) =~= Seq::<char>::empty());
                    assert(cs.take(cs.len() as int) =~= cs);
                    assert(lex_step(Seq::<char>::empty(), pos + utf8_len(cs), self.src).0 is None);
                }
                return Ok(None);
            },
        };
        let ghost mid = *self;
        let r = if c == '"' {
            match self.parse_string() {
                Ok(t) => Ok(Some(t)),
                Err(e) => Err(e),
            }
        } else if char_is_alphabetic(c) || c == '_' {
            Ok(Some(self.parse_name()))
        } else if char_is_numeric(c) {
            match self.parse_number() {
                Ok(t) => Ok(Some(t)),
                Err(e) => Err(e),
            }
        } else {
            Ok(self.parse_operator())
        };
        proof {
            let n = token_at(rest).0;
            lemma_token_at_len(rest);
            assert(cs.skip(k as int).skip(n as int) =~= cs.skip((k + n) as int));
            assert(cs.take((k + n) as int) =~= cs.take(k as int) + rest.take(n as int));
            lemma_encode_concat(cs.take(k as int), rest.take(n as int));
        }
        r
    }
}

/// The stream a parser reads: a lexer item per token or error.
pub open spec fn parse_result_matches<'a>(
    r: ParseOpRes<'a, Located<Token<'a>>>,
    item: Option<LexItem>,
) -> bool {
    match item {
        None => r matches Ok(None),
        Some(LexItem::Tok(t, l)) => r matches Ok(Some(x)) && x.value@ == t && x.loc == l,
        Some(LexItem::Fail(e, l)) => r matches Err(x) && x.value@ == ParseErrorView::Lex(e) && x.loc
            == l,
    }
}

/// The first item of a stream, if any.
pub open spec fn first_item(s: Seq<LexItem>) -> Option<LexItem> {
    if s.len() == 0 {
        None
    } else {
        Some(s[0])
    }
}

/// Everything a stack of lexers yields: the top (last) one first.
pub open spec fn stack_stream<'a>(stack: Seq<BasicLexer<'a>>) -> Seq<LexItem>
    decreases stack.len(),
{
    if stack.len() == 0 {
        seq![]
    } else {
        stack.last().stream() + stack_stream(stack.drop_last())
    }
}

pub open spec fn peek_items<'a>(p: Option<Located<Token<'a>>>) -> Seq<LexItem> {
    match p {
        Some(t) => seq![LexItem::Tok(t.value@, t.loc)],
        None => seq![],
    }
}

#[derive(Debug)]
pub struct Lexer<'a> {
    pub stack: Vec<BasicLexer<'a>>,
    pub saved_peek: Option<Located<Token<'a>>>,
}

impl<'a> Default for Lexer<'a> {
    fn default() -> (r: Self)
        ensures
            r.stack@.len() == 0,
            r.saved_peek is None,
    {
        Lexer { stack: Vec::new(), saved_peek: None }
    }
}

impl<'a> Lexer<'a> {
    pub closed spec fn wf(self) -> bool {
        forall|i: int| 0 <= i < self.stack@.len() ==> (#[trigger] self.stack@[i]).wf()
    }

    /// Everything this lexer will yield: the peeked token, then the stacked texts,
    /// the most recently pushed first.
    pub closed spec fn stream(self) -> Seq<LexItem> {
        peek_items(self.saved_peek) + stack_stream(self.stack@)
    }

    /// What a lexer yields is its peeked token, then what its stacked lexers
    /// yield, the top one first.
    pub proof fn lemma_stream(self)
        ensures
            self.stream() == peek_items(self.saved_peek) + stack_stream(self.stack@),
            self.wf() <==> forall|i: int| 0 <= i < self.stack@.len() ==> (#[trigger] self.stack@[i]).wf(),
    {
    }

    /// Puts `text` on top of the stack: it is lexed before what was there.
    pub fn push(&mut self, text: &'a str, src: Source)
        requires
            old(self).wf(),
        ensures
            final(self).wf(),
            final(self).saved_peek == old(self).saved_peek,
            final(self).stack@.len() == old(self).stack@.len() + 1,
            final(self).stack@.drop_last() == old(self).stack@,
            final(self).stack@.last().text() == text@,
            final(self).stack@.last().pos() == 0,
            final(self).stack@.last().source() == src,
            final(self).stream() == peek_items(old(self).saved_peek) + lex_all(text@, 0, src)
                + stack_stream(old(self).stack@),
            old(self).saved_peek is None ==> final(self).stream() == lex_all(text@, 0, src) + old(self).stream(),
    {
        self.stack.push(BasicLexer::new(text, src));
        proof {
            assert(self.stack@.drop_last() =~= old(self).stack@);
            if old(self).saved_peek is None {
                assert(peek_items(old(self).saved_peek) =~= Seq::<LexItem>::empty());
                assert(self.stream() =~= lex_all(text@, 0, src) + old(self).stream());
            }
        }
    }

    pub fn new(cur_str: &'a str, src: Source) -> (r: Self)
        ensures
            r.wf(),
            r.saved_peek is None,
            r.stack@.len() == 1,
            r.stream() == lex_all(cur_str@, 0, src),
    {
        let mut ans = Self::default();
        ans.push(cur_str, src);
        proof {
            assert(stack_stream(ans.stack@.drop_last()) =~= Seq::<LexItem>::empty());
            assert(ans.stream() =~= lex_all(cur_str@, 0, src));
        }
        ans
    }

    pub fn peek(&mut self) -> (r: ParseOpRes<'a, &Located<Token<'a>>>)
        requires
            old(self).wf(),
        ensures
            final(self).wf(),
            parse_result_matches(
                match r {
                    Ok(Some(x)) => Ok(Some(*x)),
                    Ok(None) => Ok(None),
                    Err(e) => Err(e),
                },
                first_item(old(self).stream()),
            ),
            r matches Ok(Some(x)) ==> final(self).saved_peek == Some(*x),
            r is Ok ==> final(self).stream() == old(self).stream(),
            r is Err ==> final(self).stream() == old(self).stream().drop_first(),
    {
        if self.saved_peek.is_none() {
            match self.next() {
                Ok(t) => {
                    self.saved_peek = t;
                    proof {
                        assert(self.stream() =~= old(self).stream());
                    }
                },
                Err(e) => {
                    return Err(e);
                },
            }
        }
        Ok(self.saved_peek.as_ref())
    }

    pub fn next(&mut self) -> (r: ParseOpRes<'a, Located<Token<'a>>>)
        requires
            old(self).wf(),
        ensures
            final(self).wf(),
            final(self).saved_peek is None,
            parse_result_matches(r, first_item(old(self).stream())),
            final(self).stream() == (if old(self).stream().len() == 0 {
                old(self).stream()
            } else {
                old(self).stream().drop_first()
            }),
            old(self).saved_peek is Some ==> final(self).stack@ == old(self).stack@,
            r matches Ok(None) ==> final(self).stack@.len() == 0,
            final(self).stack@.len() <= old(self).stack@.len(),
            final(self).stack@.len() > 0 ==> final(self).stack@.drop_last() == old(self).stack@.take(
                final(self).stack@.len() - 1,
            ),
            r is Err ==> final(self).stack@.len() > 0 && final(self).stack@.last().source() == old(
                self,
            ).stack@[final(self).stack@.len() - 1].source(),
    {
        if self.saved_peek.is_some() {
            let t = self.saved_peek.take();
            proof {
                assert(self.stream() =~= old(self).stream().drop_first());
            }
            return Ok(t);
        }
        loop
            invariant
                self.wf(),
                self.saved_peek is None,
                self.stream() == old(self).stream(),
                old(self).saved_peek is None,
                self.stack@.len() <= old(self).stack@.len(),
                self.stack@ == old(self).stack@.take(self.stack@.len() as int),
            decreases self.stack@.len(),
        {
            let ghost before = self.stack@;
            let top = self.stack.pop();
            match top {
                None => {
                    return Ok(None);
                },
                Some(mut lex) => {
                    assert(before.last() == lex);
                    assert(self.stack@ == before.drop_last());
                    assert(lex.wf());
                    match lex.next() {
                        Ok(Some(t)) => {
                            self.stack.push(lex);
                            proof {
                                assert(self.stack@.drop_last() =~= before.drop_last());
                                assert(self.stream() =~= old(self).stream().drop_first());
                            }
                            return Ok(Some(t));
                        },
                        Ok(None) => {
                            proof {
                                assert(self.stream() =~= old(self).stream());
                            }
                        },
                        Err(e) => {
                            self.stack.push(lex);
                            proof {
                                assert(self.stack@.drop_last() =~= before.drop_last());
                                assert(self.stream() =~= old(self).stream().drop_first());
                            }
                            return Err(Located::new(ParseError::Lex(e.value), e.loc));
                        },
                    }
                },
            }
        }
    }
}

} // verus!
