//! Text primitives shared by the lexer and the line maps: the UTF-8 facts that
//! connect a string's characters to its byte offsets, the Unicode character
//! classes the lexer reads, and scanning of character runs.
use vstd::prelude::*;
use vstd::utf8::*;
use vstd::std_specs::iter::IteratorSpec;
use vstd::string::StringSliceAdditionalSpecFns;

verus! {

broadcast use vstd::string::group_string_axioms;

/// Number of bytes of the UTF-8 encoding of `cs`.
pub open spec fn utf8_len(cs: Seq<char>) -> nat {
    encode_utf8(cs).len()
}

/// Whether `c` has the Unicode `White_Space` property, which is what
/// `char::is_whitespace` reports: tab through carriage return, space, next line,
/// no-break space, ogham space mark, en quad through hair space, line and
/// paragraph separators, narrow no-break space, medium mathematical space and
/// ideographic space.
pub open spec fn is_white_space(c: char) -> bool {
    let u = c as u32;
    ||| 0x09 <= u <= 0x0D
    ||| u == 0x20
    ||| u == 0x85
    ||| u == 0xA0
    ||| u == 0x1680
    ||| 0x2000 <= u <= 0x200A
    ||| u == 0x2028
    ||| u == 0x2029
    ||| u == 0x202F
    ||| u == 0x205F
    ||| u == 0x3000
}

/// Whether `c` has the Unicode `Alphabetic` property (what `char::is_alphabetic` reports).
pub uninterp spec fn is_alphabetic_char(c: char) -> bool;

/// Whether `c` is in one of the Unicode numeric categories Nd, Nl, No
/// (what `char::is_numeric` reports).
pub uninterp spec fn is_numeric_char(c: char) -> bool;

/// Whether `c` is white space (see `is_white_space`).
pub(crate) fn char_is_whitespace(c: char) -> (r: bool)
    ensures
        r == is_white_space(c),
{
    let u = c as u32;
    (0x09 <= u && u <= 0x0D) || u == 0x20 || u == 0x85 || u == 0xA0 || u == 0x1680 || (0x2000 <= u && u
        <= 0x200A) || u == 0x2028 || u == 0x2029 || u == 0x202F || u == 0x205F || u == 0x3000
}

/// Calls `char::is_alphabetic`; the result is the Unicode `Alphabetic` property of `c`,
/// named `is_alphabetic_char`.
#[verifier::external_body]
pub(crate) fn char_is_alphabetic(c: char) -> (r: bool)
    ensures
        r == is_alphabetic_char(c),
{
    c.is_alphabetic()
}

/// Calls `char::is_numeric`; the result is whether `c` is in a numeric Unicode category,
/// named `is_numeric_char`.
#[verifier::external_body]
pub(crate) fn char_is_numeric(c: char) -> (r: bool)
    ensures
        r == is_numeric_char(c),
{
    c.is_numeric()
}

/// Whether `c` is alphabetic or numeric, which is how std documents
/// `char::is_alphanumeric`.
pub(crate) fn char_is_alphanumeric(c: char) -> (r: bool)
    ensures
        r == (is_alphabetic_char(c) || is_numeric_char(c)),
{
    char_is_alphabetic(c) || char_is_numeric(c)
}

/// The number of bytes `c` takes in UTF-8, by the range its code point lies in.
pub(crate) fn char_len_utf8(c: char) -> (r: usize)
    ensures
        r == utf8_len(seq![c]),
{
    proof {
        char_is_scalar(c);
        let cs = seq![c];
        assert(cs.drop_first() =~= Seq::<char>::empty());
        assert(encode_utf8(cs) =~= encode_scalar(c as u32) + encode_utf8(cs.drop_first()));
        assert(encode_utf8(cs) =~= encode_scalar(c as u32));
    }
    let u = c as u32;
    if u < 0x80 {
        1
    } else if u < 0x800 {
        2
    } else if u < 0x10000 {
        3
    } else {
        4
    }
}

/// Calls `String::push`, which appends one character.
#[verifier::external_body]
pub(crate) fn string_push(s: &mut String, c: char)
    ensures
        final(s)@ == old(s)@.push(c),
{
    s.push(c)
}

/// Calls `str::index` with a byte range; std returns the bytes `start..end`
/// and panics unless both ends are character boundaries with `start <= end <= len`.
#[verifier::external_body]
pub(crate) fn str_range(s: &str, start: usize, end: usize) -> (r: &str)
    requires
        start <= end <= s.spec_bytes().len(),
        is_char_boundary(s.spec_bytes(), start as int),
        is_char_boundary(s.spec_bytes(), end as int),
    ensures
        r.spec_bytes() == s.spec_bytes().subrange(start as int, end as int),
{
    &s[start..end]
}

/// The classes of characters the lexer scans runs of.
#[derive(Clone, Copy, PartialEq, Eq, Structural)]
pub enum CharClass {
    WhiteSpace,
    NameChar,
    NumberChar,
    OperatorChar,
    NotNewline,
}

pub open spec fn class_holds(cl: CharClass, c: char) -> bool {
    match cl {
        CharClass::WhiteSpace => is_white_space(c),
        CharClass::NameChar => is_alphabetic_char(c) || is_numeric_char(c) || c == '_',
        CharClass::NumberChar => !is_white_space(c) && (is_numeric_char(c) || c == '_'),
        CharClass::OperatorChar => !(is_alphabetic_char(c) || is_numeric_char(c) || c == '_' || c
            == '"' || is_white_space(c)),
        CharClass::NotNewline => c != '\n',
    }
}

pub fn class_test(cl: CharClass, c: char) -> (r: bool)
    ensures
        r == class_holds(cl, c),
{
    match cl {
        CharClass::WhiteSpace => char_is_whitespace(c),
        CharClass::NameChar => char_is_alphanumeric(c) || c == '_',
        CharClass::NumberChar => !char_is_whitespace(c) && (char_is_numeric(c) || c == '_'),
        CharClass::OperatorChar => !(char_is_alphanumeric(c) || c == '_' || c == '"'
            || char_is_whitespace(c)),
        CharClass::NotNewline => c != '\n',
    }
}

/// Length of the longest prefix of `cs` whose characters all belong to `cl`.
pub open spec fn run_len(cs: Seq<char>, cl: CharClass) -> nat
    decreases cs.len(),
{
    if cs.len() > 0 && class_holds(cl, cs[0]) {
        1 + run_len(cs.drop_first(), cl)
    } else {
        0
    }
}

pub proof fn lemma_run_len_bound(cs: Seq<char>, cl: CharClass)
    ensures
        run_len(cs, cl) <= cs.len(),
        forall|i: int| 0 <= i < run_len(cs, cl) ==> class_holds(cl, #[trigger] cs[i]),
        run_len(cs, cl) < cs.len() ==> !class_holds(cl, cs[run_len(cs, cl) as int]),
    decreases cs.len(),
{
    if cs.len() > 0 && class_holds(cl, cs[0]) {
        lemma_run_len_bound(cs.drop_first(), cl);
        assert forall|i: int| 0 <= i < run_len(cs, cl) implies class_holds(cl, #[trigger] cs[i]) by {
            if i > 0 {
                assert(cs[i] == cs.drop_first()[i - 1]);
            }
        }
    }
}

pub proof fn lemma_run_len_unique(cs: Seq<char>, cl: CharClass, k: int)
    requires
        0 <= k <= cs.len(),
        forall|i: int| 0 <= i < k ==> class_holds(cl, #[trigger] cs[i]),
        k < cs.len() ==> !class_holds(cl, cs[k]),
    ensures
        run_len(cs, cl) == k,
    decreases k,
{
    if k > 0 {
        assert(class_holds(cl, cs[0]));
        assert forall|i: int| 0 <= i < k - 1 implies class_holds(
            cl,
            #[trigger] cs.drop_first()[i],
        ) by {
            assert(cs.drop_first()[i] == cs[i + 1]);
        }
        lemma_run_len_unique(cs.drop_first(), cl, k - 1);
    }
}

pub proof fn lemma_encode_concat(a: Seq<char>, b: Seq<char>)
    ensures
        encode_utf8(a + b) == encode_utf8(a) + encode_utf8(b),
    decreases a.len(),
{
    if a.len() == 0 {
        assert(a + b =~= b);
        assert(encode_utf8(a) + encode_utf8(b) =~= encode_utf8(b));
    } else {
        lemma_encode_concat(a.drop_first(), b);
        assert((a + b).drop_first() =~= a.drop_first() + b);
        assert(encode_utf8(a + b) =~= encode_utf8(a) + encode_utf8(b));
    }
}

/// The byte length of a prefix grows by the length of the next character.
pub proof fn lemma_utf8_len_take_step(cs: Seq<char>, k: int)
    requires
        0 <= k < cs.len(),
    ensures
        utf8_len(cs.take(k + 1)) == utf8_len(cs.take(k)) + utf8_len(seq![cs[k]]),
{
    assert(cs.take(k + 1) =~= cs.take(k) + seq![cs[k]]);
    lemma_encode_concat(cs.take(k), seq![cs[k]]);
}

pub proof fn lemma_utf8_len_split(cs: Seq<char>, k: int)
    requires
        0 <= k <= cs.len(),
    ensures
        utf8_len(cs) == utf8_len(cs.take(k)) + utf8_len(cs.skip(k)),
        utf8_len(cs.take(k)) <= utf8_len(cs),
{
    assert(cs =~= cs.take(k) + cs.skip(k));
    lemma_encode_concat(cs.take(k), cs.skip(k));
}

/// Every character takes at least one byte.
pub proof fn lemma_utf8_len_ge(cs: Seq<char>)
    ensures
        utf8_len(cs) >= cs.len(),
        cs.len() > 0 ==> utf8_len(cs) > 0,
    decreases cs.len(),
{
    if cs.len() > 0 {
        lemma_utf8_len_ge(cs.drop_first());
    }
}

/// A single character's encoding length is between one and four bytes.
pub proof fn lemma_char_utf8_len(c: char)
    ensures
        1 <= utf8_len(seq![c]) <= 4,
        c == '\n' ==> encode_utf8(seq![c]) == seq![10u8],
        (c as u32) < 0x80 ==> utf8_len(seq![c]) == 1,
        (c as u32) < 0x80 ==> encode_utf8(seq![c]) == seq![c as u8],
{
    let s = seq![c];
    assert(s.drop_first() =~= Seq::<char>::empty());
    assert(encode_utf8(s) =~= encode_scalar(c as u32) + encode_utf8(s.drop_first()));
    if c == '\n' {
        assert(c as u32 == 10);
        assert(has_width_1_encoding(10u32));
        assert(leading_byte_width_1(10u32) == 10u8) by (bit_vector);
        assert(encode_utf8(s) =~= seq![10u8]);
    }
    if (c as u32) < 0x80 {
        let u = c as u32;
        assert(has_width_1_encoding(u));
        assert(u < 0x80 ==> leading_byte_width_1(u) == u as u8) by (bit_vector);
        assert(encode_utf8(s) =~= seq![c as u8]);
    }
}

pub proof fn lemma_boundary(a: Seq<char>, b: Seq<char>)
    ensures
        is_char_boundary(encode_utf8(a + b), encode_utf8(a).len() as int),
    decreases a.len(),
{
    broadcast use encode_utf8_valid_utf8;

    if a.len() == 0 {
    } else {
        let ab = a + b;
        encode_utf8_first_scalar(ab);
        lemma_boundary(a.drop_first(), b);
        assert(ab.drop_first() =~= a.drop_first() + b);
        let bytes = encode_utf8(ab);
        assert(pop_first_scalar(bytes) =~= encode_utf8(ab.drop_first()));
        lemma_encode_concat(a, b);
    }
}

/// A byte below `0x80` in UTF-8 text is a character of its own: its position,
/// and the position after it, are character boundaries.
pub proof fn lemma_ascii_byte_boundary(cs: Seq<char>, p: int)
    requires
        0 <= p < encode_utf8(cs).len(),
        encode_utf8(cs)[p] < 0x80,
    ensures
        is_char_boundary(encode_utf8(cs), p),
        is_char_boundary(encode_utf8(cs), p + 1),
    decreases cs.len(),
{
    broadcast use encode_utf8_valid_utf8;

    let bytes = encode_utf8(cs);
    let c = cs[0];
    let first = encode_scalar(c as u32);
    let rest = cs.drop_first();
    encode_utf8_first_scalar(cs);
    assert(pop_first_scalar(bytes) =~= encode_utf8(rest));
    assert(bytes =~= first + encode_utf8(rest));
    if p < first.len() {
        assert(forall|x: u8| #[trigger] (0x80u8 | x) >= 0x80u8) by (bit_vector);
        assert(forall|x: u8| #[trigger] (0xC0u8 | x) >= 0x80u8) by (bit_vector);
        assert(forall|x: u8| #[trigger] (0xE0u8 | x) >= 0x80u8) by (bit_vector);
        assert(forall|x: u8| #[trigger] (0xF0u8 | x) >= 0x80u8) by (bit_vector);
        assert(has_width_1_encoding(c as u32));
        assert(p == 0);
        lemma_boundary(seq![c], rest);
        assert(seq![c] + rest =~= cs);
        assert(encode_utf8(seq![c]) =~= first + encode_utf8(Seq::<char>::empty())) by {
            assert(seq![c].drop_first() =~= Seq::<char>::empty());
        }
    } else {
        assert(encode_utf8(rest)[p - first.len()] == bytes[p]);
        lemma_ascii_byte_boundary(rest, p - first.len());
    }
}

pub proof fn lemma_encode_injective(a: Seq<char>, b: Seq<char>)
    requires
        encode_utf8(a) == encode_utf8(b),
    ensures
        a == b,
{
    encode_utf8_decode_utf8(a);
    encode_utf8_decode_utf8(b);
}

/// Number of bytes of `s`.
pub fn byte_len(s: &str) -> (n: usize)
    ensures
        n == s.spec_bytes().len(),
        n == utf8_len(s@),
{
    let b = s.as_bytes();
    b.len()
}

/// Splits `s` after its first `k` characters, given the byte length `k_bytes` of that prefix.
pub fn split_chars(s: &str, Ghost(k): Ghost<int>, k_bytes: usize) -> (r: (&str, &str))
    requires
        0 <= k <= s@.len(),
        k_bytes == utf8_len(s@.take(k)),
    ensures
        r.0@ == s@.take(k),
        r.1@ == s@.skip(k),
{
    let ghost a = s@.take(k);
    let ghost b = s@.skip(k);
    proof {
        assert(s@ =~= a + b);
        lemma_boundary(a, b);
        lemma_encode_concat(a, b);
    }
    let r = s.split_at(k_bytes);
    proof {
        assert(encode_utf8(s@).subrange(0, k_bytes as int) =~= encode_utf8(a));
        assert(encode_utf8(s@).subrange(k_bytes as int, encode_utf8(s@).len() as int)
            =~= encode_utf8(b));
        lemma_encode_injective(r.0@, a);
        lemma_encode_injective(r.1@, b);
    }
    r
}

/// Scans the longest prefix of `s` made of characters of class `cl`; returns its
/// length in characters and in bytes.
pub fn scan_run(s: &str, cl: CharClass) -> (r: (usize, usize))
    ensures
        r.0 == run_len(s@, cl),
        r.1 == utf8_len(s@.take(r.0 as int)),
        r.0 <= s@.len(),
{
    let total_bytes = byte_len(s);
    let ghost cs = s@;
    let mut it = s.chars();
    let mut k: usize = 0;
    let mut nbytes: usize = 0;
    proof {
        assert(cs.take(0) =~= Seq::<char>::empty());
    }
    loop
        invariant
            cs == s@,
            0 <= k <= cs.len(),
            it.remaining() == cs.skip(k as int),
            nbytes == utf8_len(cs.take(k as int)),
            total_bytes == utf8_len(cs),
            forall|i: int| 0 <= i < k ==> class_holds(cl, #[trigger] cs[i]),
        decreases cs.len() - k,
    {
        let ghost before = it.remaining();
        match it.next() {
            Some(c) => {
                assert(c == cs[k as int]);
                if !class_test(cl, c) {
                    proof {
                        lemma_run_len_unique(cs, cl, k as int);
                    }
                    return (k, nbytes);
                }
                let w = char_len_utf8(c);
                proof {
                    lemma_utf8_len_take_step(cs, k as int);
                    lemma_utf8_len_split(cs, k + 1);
                    lemma_utf8_len_ge(cs.take(k + 1));
                    assert(cs.skip(k as int).drop_first() =~= cs.skip(k + 1));
                }
                k = k + 1;
                nbytes = nbytes + w;
            },
            None => {
                proof {
                    lemma_run_len_unique(cs, cl, k as int);
                }
                return (k, nbytes);
            },
        }
    }
}

/// Whether two strings hold the same characters.
pub fn str_eq(a: &str, b: &str) -> (r: bool)
    ensures
        r == (a@ == b@),
{
    let x = a.as_bytes();
    let y = b.as_bytes();
    if x.len() != y.len() {
        proof {
            if a@ == b@ {
                assert(x@ == y@);
            }
        }
        return false;
    }
    let mut i: usize = 0;
    while i < x.len()
        invariant
            x@ == a.spec_bytes(),
            y@ == b.spec_bytes(),
            x.len() == y.len(),
            0 <= i <= x.len(),
            forall|j: int| 0 <= j < i ==> x@[j] == y@[j],
        decreases x.len() - i,
    {
        if x[i] != y[i] {
            return false;
        }
        i = i + 1;
    }
    proof {
        assert(x@ =~= y@);
        lemma_encode_injective(a@, b@);
    }
    true
}

} // verus!
