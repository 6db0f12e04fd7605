//! Sources of text (files and macro expansions), the context that owns them,
//! and line maps that turn byte offsets into lines.
use vstd::prelude::*;
use vstd::utf8::*;
use vstd::string::StringSliceAdditionalSpecFns;
use crate::text::{lemma_ascii_byte_boundary, str_eq, str_range, string_push, utf8_len};
use vstd::string::StringExecFns;
use crate::parse::{span_hull, Loc, Located};

verus! {

broadcast use vstd::string::group_string_axioms;

/// Where a piece of text comes from: a file or a macro expansion.
#[derive(Clone, Copy, PartialEq, Eq, Debug, Hash, Structural)]
pub enum Source {
    File(FileId),
    Macro(MacroId),
}

#[derive(Clone, Copy, PartialEq, Eq, Debug, Hash, Structural)]
pub struct FileId(pub u32);

#[derive(Clone, Copy, PartialEq, Eq, Debug, Hash, Structural)]
pub struct MacroId(pub u32);

/// 1 indexed line number
#[derive(Debug, Clone, Copy, PartialEq, Eq, Hash, Structural)]
pub struct LineNum(pub usize);

/// Byte offsets of the line breaks of a text: `-1`, then the offset of every
/// `'\n'` byte in order, then the length of the text.  Line `n` (1 indexed) spans
/// the bytes strictly between entries `n - 1` and `n`.
pub struct LineMap(Vec<isize>);

/// Offsets of the newline bytes of `bs`, in increasing order.
pub open spec fn newline_offsets(bs: Seq<u8>) -> Seq<int>
    decreases bs.len(),
{
    if bs.len() == 0 {
        seq![]
    } else if bs.last() == 10u8 {
        newline_offsets(bs.drop_last()).push(bs.len() - 1)
    } else {
        newline_offsets(bs.drop_last())
    }
}

/// The entries of the line map of a text whose UTF-8 bytes are `bs`.
pub open spec fn line_breaks(bs: Seq<u8>) -> Seq<int> {
    seq![-1int] + newline_offsets(bs) + seq![bs.len() as int]
}

/// Number of entries of `v` strictly below `x`.
pub open spec fn count_below(v: Seq<int>, x: int) -> nat
    decreases v.len(),
{
    if v.len() == 0 {
        0
    } else {
        (if v[0] < x { 1nat } else { 0nat }) + count_below(v.drop_first(), x)
    }
}

pub open spec fn strictly_increasing(v: Seq<int>) -> bool {
    forall|i: int, j: int| 0 <= i < j < v.len() ==> v[i] < v[j]
}

pub proof fn lemma_newline_offsets(bs: Seq<u8>)
    ensures
        strictly_increasing(newline_offsets(bs)),
        forall|i: int|
            0 <= i < newline_offsets(bs).len() ==> 0 <= #[trigger] newline_offsets(bs)[i]
                < bs.len() && bs[newline_offsets(bs)[i]] == 10u8,
        forall|p: int| 0 <= p < bs.len() && bs[p] == 10u8 ==> newline_offsets(bs).contains(p),
    decreases bs.len(),
{
    if bs.len() > 0 {
        let pre = bs.drop_last();
        lemma_newline_offsets(pre);
        assert forall|p: int| 0 <= p < bs.len() && bs[p] == 10u8 implies newline_offsets(
            bs,
        ).contains(p) by {
            if p < bs.len() - 1 {
                assert(pre[p] == bs[p]);
                let k = choose|k: int| 0 <= k < newline_offsets(pre).len() && newline_offsets(pre)[k] == p;
                if bs.last() == 10u8 {
                    assert(newline_offsets(bs)[k] == p);
                }
            } else {
                assert(newline_offsets(bs).last() == p);
            }
        }
    }
}

pub proof fn lemma_line_breaks(bs: Seq<u8>)
    ensures
        strictly_increasing(line_breaks(bs)),
        line_breaks(bs).len() >= 2,
        line_breaks(bs)[0] == -1,
        line_breaks(bs).last() == bs.len(),
        forall|i: int|
            0 < i < line_breaks(bs).len() - 1 ==> bs[#[trigger] line_breaks(bs)[i]] == 10u8,
        forall|i: int| 0 <= i < line_breaks(bs).len() ==> -1 <= #[trigger] line_breaks(bs)[i] <= bs.len(),
{
    lemma_newline_offsets(bs);
    let n = newline_offsets(bs);
    let v = line_breaks(bs);
    assert forall|i: int| 0 < i < v.len() - 1 implies bs[#[trigger] v[i]] == 10u8 by {
        assert(v[i] == n[i - 1]);
    }
    assert forall|i: int, j: int| 0 <= i < j < v.len() implies v[i] < v[j] by {
        if i > 0 && j < v.len() - 1 {
            assert(v[i] == n[i - 1] && v[j] == n[j - 1]);
        } else if i > 0 {
            assert(v[i] == n[i - 1]);
        } else if j < v.len() - 1 {
            assert(v[j] == n[j - 1]);
        }
    }
    assert forall|i: int| 0 <= i < v.len() implies -1 <= #[trigger] v[i] <= bs.len() by {
        if 0 < i < v.len() - 1 {
            assert(v[i] == n[i - 1]);
        }
    }
}

/// In a strictly increasing sequence, the entries below `x` are exactly the first
/// `count_below` ones.
pub proof fn lemma_count_below_prefix(v: Seq<int>, x: int, k: int)
    requires
        strictly_increasing(v),
        0 <= k <= v.len(),
        forall|j: int| 0 <= j < k ==> v[j] < x,
        forall|j: int| k <= j < v.len() ==> v[j] >= x,
    ensures
        count_below(v, x) == k,
    decreases v.len(),
{
    if v.len() > 0 {
        let t = v.drop_first();
        if k > 0 {
            lemma_count_below_prefix(t, x, k - 1);
        } else {
            lemma_count_below_prefix(t, x, 0);
        }
    }
}


/// Line `line` (1 indexed) of a text whose line map is `line_breaks(b)` starts at
/// this byte.
pub open spec fn line_start_of(b: Seq<u8>, line: int) -> int {
    line_breaks(b)[line - 1] + 1
}

/// Line `line` of such a text ends (exclusive) at this byte: its newline, or the
/// end of the text.
pub open spec fn line_end_of(b: Seq<u8>, line: int) -> int {
    line_breaks(b)[line]
}

/// The line that holds byte `p` of such a text.
pub open spec fn line_of(b: Seq<u8>, p: int) -> int {
    count_below(line_breaks(b), p) as int
}

/// Every line of a text starts and ends on character boundaries, within the text.
pub proof fn lemma_line_bounds(cs: Seq<char>, line: int)
    requires
        1 <= line < line_breaks(encode_utf8(cs)).len(),
    ensures
        0 <= line_start_of(encode_utf8(cs), line) <= line_end_of(encode_utf8(cs), line) <= encode_utf8(cs).len(),
        is_char_boundary(encode_utf8(cs), line_start_of(encode_utf8(cs), line)),
        is_char_boundary(encode_utf8(cs), line_end_of(encode_utf8(cs), line)),
{
    broadcast use encode_utf8_valid_utf8, is_char_boundary_start_end_of_seq;

    let b = encode_utf8(cs);
    let v = line_breaks(b);
    lemma_line_breaks(b);
    assert(v[line - 1] < v[line]);
    if line - 1 > 0 {
        lemma_ascii_byte_boundary(cs, v[line - 1]);
    }
    if line < v.len() - 1 {
        lemma_ascii_byte_boundary(cs, v[line]);
    }
}

/// The line of a byte within a text is a line of it, and the byte lies between
/// that line's start and its end.
pub proof fn lemma_line_of(b: Seq<u8>, p: int)
    requires
        0 <= p <= b.len(),
    ensures
        1 <= line_of(b, p) < line_breaks(b).len(),
        line_start_of(b, line_of(b, p)) <= p <= line_end_of(b, line_of(b, p)),
{
    let v = line_breaks(b);
    lemma_line_breaks(b);
    lemma_count_below_split(v, p);
    let k = count_below(v, p) as int;
    assert(v[0] < p);
    assert(v[v.len() - 1] >= p);
}

/// In a strictly increasing sequence the entries below `x` come first.
pub proof fn lemma_count_below_split(v: Seq<int>, x: int)
    requires
        strictly_increasing(v),
    ensures
        count_below(v, x) <= v.len(),
        forall|j: int| 0 <= j < count_below(v, x) ==> v[j] < x,
        forall|j: int| count_below(v, x) <= j < v.len() ==> v[j] >= x,
    decreases v.len(),
{
    if v.len() > 0 {
        let t = v.drop_first();
        lemma_count_below_split(t, x);
        assert forall|j: int| 0 <= j < count_below(v, x) implies v[j] < x by {
            if j > 0 {
                assert(v[j] == t[j - 1]);
            } else if v[0] >= x {
                if t.len() > 0 {
                    assert(v[1] == t[0]);
                    assert(v[0] < v[1]);
                }
            }
        }
        assert forall|j: int| count_below(v, x) <= j < v.len() implies v[j] >= x by {
            if j > 0 {
                assert(v[j] == t[j - 1]);
                if v[0] >= x {
                    assert(v[0] < v[j]);
                }
            }
        }
    }
}

/// Number of newline bytes in `bs`.
pub open spec fn newline_count(bs: Seq<u8>) -> nat
    decreases bs.len(),
{
    if bs.len() == 0 {
        0
    } else {
        newline_count(bs.drop_last()) + if bs.last() == 10u8 {
            1nat
        } else {
            0nat
        }
    }
}

/// The pieces of `bs` between its newline bytes, in order: one more than it has
/// newlines, none of them holding a newline.
pub open spec fn split_lines(bs: Seq<u8>) -> Seq<Seq<u8>>
    decreases bs.len(),
{
    if bs.len() == 0 {
        seq![Seq::<u8>::empty()]
    } else {
        let p = split_lines(bs.drop_last());
        if bs.last() == 10u8 {
            p.push(Seq::<u8>::empty())
        } else {
            p.update(p.len() - 1, p.last().push(bs.last()))
        }
    }
}

pub proof fn lemma_count_below_concat(a: Seq<int>, b: Seq<int>, x: int)
    ensures
        count_below(a + b, x) == count_below(a, x) + count_below(b, x),
    decreases a.len(),
{
    if a.len() > 0 {
        assert((a + b).drop_first() =~= a.drop_first() + b);
        lemma_count_below_concat(a.drop_first(), b, x);
    } else {
        assert(a + b =~= b);
    }
}

pub proof fn lemma_count_below_mono(v: Seq<int>, x: int, y: int)
    requires
        x <= y,
    ensures
        count_below(v, x) <= count_below(v, y),
    decreases v.len(),
{
    if v.len() > 0 {
        lemma_count_below_mono(v.drop_first(), x, y);
    }
}

proof fn lemma_count_below_one(y: int, x: int)
    ensures
        count_below(seq![y], x) == (if y < x { 1nat } else { 0nat }),
{
    reveal_with_fuel(count_below, 2);
    assert(seq![y].drop_first() =~= Seq::<int>::empty());
}

proof fn lemma_count_below_all(v: Seq<int>, x: int)
    requires
        forall|i: int| 0 <= i < v.len() ==> v[i] < x,
    ensures
        count_below(v, x) == v.len(),
    decreases v.len(),
{
    if v.len() > 0 {
        assert forall|i: int| 0 <= i < v.len() - 1 implies v.drop_first()[i] < x by {
            assert(v.drop_first()[i] == v[i + 1]);
        }
        lemma_count_below_all(v.drop_first(), x);
    }
}

proof fn lemma_newline_offsets_count(bs: Seq<u8>)
    ensures
        newline_offsets(bs).len() == newline_count(bs),
    decreases bs.len(),
{
    if bs.len() > 0 {
        lemma_newline_offsets_count(bs.drop_last());
    }
}

proof fn lemma_newline_offsets_below(bs: Seq<u8>, b: int)
    requires
        0 <= b <= bs.len(),
    ensures
        count_below(newline_offsets(bs), b) == newline_count(bs.take(b)),
    decreases bs.len(),
{
    lemma_newline_offsets(bs);
    if b == bs.len() {
        assert(bs.take(b) =~= bs);
        lemma_count_below_all(newline_offsets(bs), b);
        lemma_newline_offsets_count(bs);
    } else {
        let pre = bs.drop_last();
        lemma_newline_offsets_below(pre, b);
        assert(pre.take(b) =~= bs.take(b));
        if bs.last() == 10u8 {
            lemma_count_below_concat(newline_offsets(pre), seq![bs.len() - 1], b);
            assert(newline_offsets(pre).push(bs.len() - 1) =~= newline_offsets(pre) + seq![bs.len() - 1]);
            lemma_count_below_one(bs.len() - 1, b);
        }
    }
}

/// A byte lies on the line numbered one more than the newlines before it, and
/// later bytes lie on the same line or later ones.
pub proof fn lemma_line_num_counts(bs: Seq<u8>, a: int, b: int)
    requires
        0 <= a <= b <= bs.len(),
    ensures
        line_of(bs, b) == 1 + newline_count(bs.take(b)),
        line_of(bs, a) <= line_of(bs, b),
{
    let offs = newline_offsets(bs);
    lemma_count_below_concat(seq![-1int] + offs, seq![bs.len() as int], b);
    lemma_count_below_concat(seq![-1int], offs, b);
    lemma_count_below_one(-1, b);
    lemma_count_below_one(bs.len() as int, b);
    lemma_newline_offsets_below(bs, b);
    lemma_count_below_mono(line_breaks(bs), a, b);
}

proof fn lemma_split_lines_len(bs: Seq<u8>)
    ensures
        split_lines(bs).len() == newline_count(bs) + 1,
    decreases bs.len(),
{
    if bs.len() > 0 {
        lemma_split_lines_len(bs.drop_last());
    }
}

/// Line `k` of a text is the `k`-th piece of the text split at its newlines:
/// the bytes from the line's start to its end.
pub proof fn lemma_line_pieces(bs: Seq<u8>)
    ensures
        split_lines(bs).len() == line_breaks(bs).len() - 1,
        forall|k: int|
            1 <= k < line_breaks(bs).len() ==> #[trigger] bs.subrange(line_start_of(bs, k), line_end_of(bs, k))
                == split_lines(bs)[k - 1],
    decreases bs.len(),
{
    lemma_line_breaks(bs);
    lemma_split_lines_len(bs);
    lemma_newline_offsets_count(bs);
    if bs.len() == 0 {
        assert(bs.subrange(0, 0) =~= Seq::<u8>::empty());
    } else {
        let pre = bs.drop_last();
        let n = bs.len() as int;
        let c = bs.last();
        lemma_line_pieces(pre);
        lemma_line_breaks(pre);
        let lp = line_breaks(pre);
        let lb = line_breaks(bs);
        let p = split_lines(pre);
        if c == 10u8 {
            assert(lb =~= lp.push(n));
            assert forall|k: int| 1 <= k < lb.len() implies #[trigger] bs.subrange(
                line_start_of(bs, k),
                line_end_of(bs, k),
            ) == split_lines(bs)[k - 1] by {
                if k < lp.len() {
                    assert(lp[k] <= n - 1);
                    assert(bs.subrange(line_start_of(bs, k), line_end_of(bs, k)) =~= pre.subrange(
                        line_start_of(pre, k),
                        line_end_of(pre, k),
                    ));
                } else {
                    assert(bs.subrange(line_start_of(bs, k), line_end_of(bs, k)) =~= Seq::<u8>::empty());
                }
            }
        } else {
            assert(lb =~= lp.update(lp.len() - 1, n));
            assert forall|k: int| 1 <= k < lb.len() implies #[trigger] bs.subrange(
                line_start_of(bs, k),
                line_end_of(bs, k),
            ) == split_lines(bs)[k - 1] by {
                if k < lp.len() - 1 {
                    assert(lp[k] < lp[lp.len() - 1]);
                    assert(bs.subrange(line_start_of(bs, k), line_end_of(bs, k)) =~= pre.subrange(
                        line_start_of(pre, k),
                        line_end_of(pre, k),
                    ));
                } else {
                    assert(bs.subrange(line_start_of(bs, k), line_end_of(bs, k)) =~= pre.subrange(
                        line_start_of(pre, k),
                        line_end_of(pre, k),
                    ).push(c));
                }
            }
        }
    }
}

impl View for LineMap {
    type V = Seq<int>;

    closed spec fn view(&self) -> Seq<int> {
        self.0@.map_values(|x: isize| x as int)
    }
}

impl LineMap {
    #[verifier::type_invariant]
    closed spec fn well_formed(self) -> bool {
        &&& self.0@.len() >= 2
        &&& self.0@[0] == -1
        &&& forall|i: int, j: int| 0 <= i < j < self.0@.len() ==> self.0@[i] < self.0@[j]
    }

    proof fn lemma_shape(v: Seq<isize>)
        requires
            v.len() >= 2,
            v[0] == -1,
            forall|i: int, j: int| 0 <= i < j < v.len() ==> v[i] < v[j],
        ensures
            v.map_values(|x: isize| x as int).len() >= 2,
            v.map_values(|x: isize| x as int)[0] == -1,
            strictly_increasing(v.map_values(|x: isize| x as int)),
            forall|i: int| 0 <= i < v.len() ==> -1 <= #[trigger] v[i] <= isize::MAX,
    {
        assert forall|i: int| 0 <= i < v.len() implies -1 <= #[trigger] v[i] by {
            if i > 0 {
                assert(v[0] < v[i]);
            }
        }
    }

    pub fn new(text: &str) -> (r: Self)
        requires
            text.spec_bytes().len() <= isize::MAX,
        ensures
            r@ == line_breaks(text.spec_bytes()),
    {
        let bs = text.as_bytes();
        let n = bs.len();
        let mut v: Vec<isize> = Vec::new();
        v.push(-1);
        let mut i: usize = 0;
        proof {
            assert(bs@.take(0) =~= Seq::<u8>::empty());
        }
        while i < n
            invariant
                n == bs@.len(),
                bs@ == text.spec_bytes(),
                n <= isize::MAX,
                0 <= i <= n,
                v@.map_values(|x: isize| x as int) == seq![-1int] + newline_offsets(bs@.take(i as int)),
            decreases n - i,
        {
            let ghost old_v = v@;
            proof {
                assert(bs@.take(i + 1).drop_last() =~= bs@.take(i as int));
                assert(bs@.take(i + 1).last() == bs@[i as int]);
            }
            if bs[i] == 10u8 {
                v.push(i as isize);
                proof {
                    assert(v@.map_values(|x: isize| x as int) =~= old_v.map_values(|x: isize| x as int).push(i as int));
                    assert(v@.map_values(|x: isize| x as int) =~= seq![-1int] + newline_offsets(bs@.take(i + 1)));
                }
            }
            i = i + 1;
        }
        v.push(n as isize);
        proof {
            assert(bs@.take(n as int) =~= bs@);
            lemma_line_breaks(bs@);
            assert(v@.map_values(|x: isize| x as int) =~= line_breaks(bs@));
            assert forall|a: int, b: int| 0 <= a < b < v@.len() implies v@[a] < v@[b] by {
                assert(v@[a] as int == line_breaks(bs@)[a]);
                assert(v@[b] as int == line_breaks(bs@)[b]);
            }
        }
        LineMap(v)
    }

    /// The line holding byte offset `byte`: the number of entries strictly below it
    /// (the offset is compared as an `isize`, as the entries are stored).
    pub fn line_num(&self, byte: usize) -> (r: LineNum)
        ensures
            r.0 == count_below(self@, (#[verifier::truncate] (byte as isize)) as int),
            r.0 <= self@.len(),
            byte <= isize::MAX ==> 1 <= r.0,
            byte <= isize::MAX ==> r.0 == count_below(self@, byte as int),
    {
        proof {
            use_type_invariant(self);
            Self::lemma_shape(self.0@);
        }
        #[verifier::truncate]
        let x = byte as isize;
        let ghost v = self@;
        let ghost w = self.0@;
        let mut lo: usize = 0;
        let mut hi: usize = self.0.len();
        while lo < hi
            invariant
                w == self.0@,
                x == #[verifier::truncate] (byte as isize),
                0 <= lo <= hi <= w.len(),
                forall|j: int| 0 <= j < lo ==> w[j] < x,
                forall|j: int| hi <= j < w.len() ==> w[j] >= x,
                forall|i: int, j: int| 0 <= i < j < w.len() ==> w[i] < w[j],
            decreases hi - lo,
        {
            let mid = lo + (hi - lo) / 2;
            if self.0[mid] < x {
                lo = mid + 1;
            } else {
                hi = mid;
            }
        }
        proof {
            assert forall|j: int| 0 <= j < lo implies v[j] < x as int by { assert(v[j] == w[j] as int); }
            assert forall|j: int| lo <= j < v.len() implies v[j] >= x as int by { assert(v[j] == w[j] as int); }
            lemma_count_below_prefix(v, x as int, lo as int);
            if byte <= isize::MAX {
                assert((#[verifier::truncate] (byte as isize)) as int == byte as int);
            }
        }
        LineNum(lo)
    }

    /// First byte of `line`.
    pub fn line_start(&self, line: LineNum) -> (r: usize)
        requires
            1 <= line.0 <= self@.len(),
            self@[line.0 - 1] < isize::MAX,
        ensures
            r == self@[line.0 - 1] + 1,
    {
        proof {
            use_type_invariant(self);
            Self::lemma_shape(self.0@);
        }
        (self.0[line.0 - 1] + 1) as usize
    }

    /// End (exclusive) of `line`: the offset of its newline, or the text's length
    /// for the last line.  Line `0` has no end; it gives `usize::MAX`.
    pub fn line_end(&self, line: LineNum) -> (r: usize)
        requires
            line.0 < self@.len(),
        ensures
            line.0 >= 1 ==> r == self@[line.0 as int],
            line.0 == 0 ==> r == usize::MAX,
    {
        proof {
            use_type_invariant(self);
            Self::lemma_shape(self.0@);
        }
        let e = self.0[line.0];
        if e < 0 {
            usize::MAX
        } else {
            e as usize
        }
    }

    /// The text of `line`, without its newline.
    pub fn line_text<'a>(&self, line: LineNum, text: &'a str) -> (r: &'a str)
        requires
            1 <= line.0 < self@.len(),
            self@[line.0 - 1] + 1 <= self@[line.0 as int] <= text.spec_bytes().len(),
            is_char_boundary(text.spec_bytes(), self@[line.0 - 1] + 1),
            is_char_boundary(text.spec_bytes(), self@[line.0 as int]),
        ensures
            r.spec_bytes() == text.spec_bytes().subrange(
                self@[line.0 - 1] + 1,
                self@[line.0 as int],
            ),
    {
        let start = self.line_start(line);
        let end = self.line_end(line);
        str_range(text, start, end)
    }
}


/// A file that could not be read: its path and the reason.
#[derive(Debug, Clone)]
pub struct FileError {
    pub path: String,
    pub inner: String,
}

pub struct FileInfo {
    pub id: FileId,
    pub path: String,
    /// The file's text once it has been loaded, or why it could not be.
    pub text: Option<Result<String, FileError>>,
    /// The line map of the text, present once the text is.
    pub line_map: Option<LineMap>,
}

impl FileInfo {
    pub open spec fn wf(self) -> bool {
        match self.text {
            Some(Ok(t)) => {
                &&& self.line_map matches Some(m)
                &&& m@ == line_breaks(encode_utf8(t@))
                &&& encode_utf8(t@).len() <= isize::MAX
            },
            _ => self.line_map is None,
        }
    }

    pub fn get_line_map(&self) -> (r: &LineMap)
        requires
            self.wf(),
            self.text matches Some(Ok(_)),
        ensures
            self.line_map == Some(*r),
    {
        match &self.line_map {
            Some(m) => m,
            None => {
                vstd::pervasive::unreached()
            },
        }
    }

    /// The text `loc` spans in this file.
    pub fn get_text(&self, loc: Loc) -> (r: &str)
        requires
            loc.src == Source::File(self.id),
            self.text matches Some(Ok(t)) && loc.start <= loc.end <= encode_utf8(t@).len()
                && is_char_boundary(encode_utf8(t@), loc.start as int)
                && is_char_boundary(encode_utf8(t@), loc.end as int),
        ensures
            self.text matches Some(Ok(t)) && r.spec_bytes() == encode_utf8(t@).subrange(
                loc.start as int,
                loc.end as int,
            ),
    {
        match &self.text {
            Some(Ok(t)) => str_range(t.as_str(), loc.start, loc.end),
            _ => {
                vstd::pervasive::unreached()
            },
        }
    }
}

pub struct MacroCall {
    pub depth: usize,
    pub id: MacroId,
    pub src: Loc,
    pub text: String,  //not sure yet if tokens or not
    pub line_map: LineMap,
}

impl MacroCall {
    pub fn get_line_map(&self) -> (r: &LineMap)
        ensures
            *r == self.line_map,
    {
        &self.line_map
    }
}

/// Rank of a source in the macro tree: a macro's call site lies in a source of
/// lower rank.
pub open spec fn src_rank(s: Source) -> nat {
    match s {
        Source::File(_) => 0,
        Source::Macro(m) => m.0 as nat + 1,
    }
}

/// Where the macro `id` was called, if it exists.
pub open spec fn macro_site(macros: Seq<MacroCall>, id: MacroId) -> Option<Loc> {
    if (id.0 as int) < macros.len() {
        Some(macros[id.0 as int].src)
    } else {
        None
    }
}

/// The file a source is ultimately expanded from.
pub open spec fn root_file(macros: Seq<MacroCall>, s: Source) -> Option<FileId>
    decreases src_rank(s),
{
    match s {
        Source::File(f) => Some(f),
        Source::Macro(m) => match macro_site(macros, m) {
            Some(site) => if src_rank(site.src) < src_rank(s) {
                root_file(macros, site.src)
            } else {
                None
            },
            None => None,
        },
    }
}

/// Whether a source is a file or a recorded macro.
pub open spec fn src_exists(macros: Seq<MacroCall>, s: Source) -> bool {
    match s {
        Source::File(_) => true,
        Source::Macro(m) => (m.0 as int) < macros.len(),
    }
}

/// Depth of a source as `add_macro` records it: a file is at depth 0 and a macro
/// at the depth recorded for it.
pub open spec fn depth_of(macros: Seq<MacroCall>, s: Source) -> int {
    match s {
        Source::File(_) => 0,
        Source::Macro(m) => macros[m.0 as int].depth as int,
    }
}

/// Two locations joined in the innermost source both are expanded into: the two
/// are lifted to their call sites together until they lie in the same source,
/// then their hull is taken.  `None` when they never meet (different files) or a
/// macro is missing.
pub open spec fn combine_spec(macros: Seq<MacroCall>, a: Loc, b: Loc) -> Option<Loc>
    decreases src_rank(a.src) + src_rank(b.src),
{
    if a.src == b.src {
        Some(span_hull(a, b))
    } else {
        match (a.src, b.src) {
            (Source::File(_), Source::File(_)) => None,
            (Source::File(_), Source::Macro(m)) => match macro_site(macros, m) {
                Some(pb) => if src_rank(pb.src) < src_rank(b.src) {
                    combine_spec(macros, a, pb)
                } else {
                    None
                },
                None => None,
            },
            (Source::Macro(m), Source::File(_)) => match macro_site(macros, m) {
                Some(pa) => if src_rank(pa.src) < src_rank(a.src) {
                    combine_spec(macros, pa, b)
                } else {
                    None
                },
                None => None,
            },
            (Source::Macro(ma), Source::Macro(mb)) => match (
                macro_site(macros, ma),
                macro_site(macros, mb),
            ) {
                (Some(pa), Some(pb)) => if src_rank(pa.src) < src_rank(a.src) && src_rank(pb.src)
                    < src_rank(b.src) {
                    combine_spec(macros, pa, pb)
                } else {
                    None
                },
                _ => None,
            },
        }
    }
}

pub struct SourceContext {
    pub files: Vec<FileInfo>,
    pub macros: Vec<MacroCall>,
}

impl SourceContext {
    pub open spec fn macros_wf(macros: Seq<MacroCall>) -> bool {
        &&& macros.len() <= u32::MAX
        &&& forall|i: int|
            #![trigger macros[i]]
            0 <= i < macros.len() ==> {
                &&& macros[i].id == MacroId(i as u32)
                &&& (macros[i].src.src matches Source::Macro(p) ==> (p.0 as int) < i)
                &&& macros[i].depth == depth_of(macros, macros[i].src.src)
                &&& macros[i].line_map@ == line_breaks(encode_utf8(macros[i].text@))
                &&& encode_utf8(macros[i].text@).len() <= isize::MAX
            }
    }

    pub open spec fn files_wf(files: Seq<FileInfo>) -> bool {
        &&& files.len() <= u32::MAX
        &&& forall|i: int|
            #![trigger files[i]]
            0 <= i < files.len() ==> files[i].id == FileId(i as u32) && files[i].wf()
        &&& forall|i: int, j: int|
            0 <= i < j < files.len() ==> (#[trigger] files[i]).path@ != (#[trigger] files[j]).path@
    }

    /// Files are numbered in order and have distinct paths; every macro is
    /// numbered in order, was called from a file or an earlier macro, and has the
    /// line map of its text.
    pub closed spec fn wf(self) -> bool {
        &&& Self::files_wf(self.files@)
        &&& Self::macros_wf(self.macros@)
    }

    pub fn new() -> (r: Self)
        ensures
            r.wf(),
            r.files@.len() == 0,
            r.macros@.len() == 0,
    {
        SourceContext { files: Vec::new(), macros: Vec::new() }
    }

    pub fn get_file(&self, id: FileId) -> (r: Option<&FileInfo>)
        ensures
            r == (if (id.0 as int) < self.files@.len() {
                Some(&self.files@[id.0 as int])
            } else {
                None
            }),
    {
        let i = id.0 as usize;
        if i < self.files.len() {
            Some(&self.files[i])
        } else {
            None
        }
    }

    pub fn get_macro(&self, id: MacroId) -> (r: Option<&MacroCall>)
        ensures
            r == (if (id.0 as int) < self.macros@.len() {
                Some(&self.macros@[id.0 as int])
            } else {
                None
            }),
    {
        let i = id.0 as usize;
        if i < self.macros.len() {
            Some(&self.macros[i])
        } else {
            None
        }
    }

    /// The file registered under `path`, registering a new one (with no text yet)
    /// when there is none.
    pub fn get_for_path(&mut self, path: String) -> (r: &FileInfo)
        requires
            old(self).wf(),
            (exists|i: int| 0 <= i < old(self).files@.len() && old(self).files@[i].path@ == path@)
                || old(self).files@.len() < u32::MAX,
        ensures
            final(self).wf(),
            final(self).macros@ == old(self).macros@,
            r.path@ == path@,
            (r.id.0 as int) < final(self).files@.len(),
            final(self).files@[r.id.0 as int] == *r,
            (exists|i: int| 0 <= i < old(self).files@.len() && old(self).files@[i].path@ == path@)
                ==> final(self).files@ == old(self).files@,
            !(exists|i: int| 0 <= i < old(self).files@.len() && old(self).files@[i].path@ == path@)
                ==> final(self).files@ == old(self).files@.push(
                FileInfo { id: FileId(old(self).files@.len() as u32), path, text: None, line_map: None },
            ),
    {
        let mut i: usize = 0;
        let mut found = false;
        while i < self.files.len()
            invariant_except_break
                forall|j: int| 0 <= j < i ==> self.files@[j].path@ != path@,
                !found,
            invariant
                *self == *old(self),
                0 <= i <= self.files@.len(),
            ensures
                found ==> i < self.files@.len() && self.files@[i as int].path@ == path@,
                !found ==> i == self.files@.len() && forall|j: int| 0 <= j < i ==> self.files@[j].path@ != path@,
            decreases self.files@.len() - i,
        {
            if str_eq(self.files[i].path.as_str(), path.as_str()) {
                found = true;
                break;
            }
            i = i + 1;
        }
        if !found {
            self.files.push(FileInfo { id: FileId(i as u32), path, text: None, line_map: None });
            proof {
                assert(forall|j: int| 0 <= j < i ==> self.files@[j] == old(self).files@[j]);
            }
        }
        &self.files[i]
    }

    /// Gives the file `id` its text, or the error that kept it from being read,
    /// unless it has one already; then the value is handed back.
    pub fn set_file_text(&mut self, id: FileId, text: Result<String, FileError>) -> (r: Result<
        (),
        Result<String, FileError>,
    >)
        requires
            old(self).wf(),
            (id.0 as int) < old(self).files@.len(),
            text matches Ok(t) ==> encode_utf8(t@).len() <= isize::MAX,
        ensures
            final(self).wf(),
            final(self).macros@ == old(self).macros@,
            final(self).files@.len() == old(self).files@.len(),
            old(self).files@[id.0 as int].text is Some ==> r == Err::<(), _>(text) && final(self).files@
                == old(self).files@,
            old(self).files@[id.0 as int].text is None ==> r is Ok && final(self).files@[id.0 as int].text
                == Some(text) && final(self).files@[id.0 as int].path == old(self).files@[id.0 as int].path
                && forall|j: int|
                0 <= j < old(self).files@.len() && j != id.0 ==> final(self).files@[j] == old(
                    self,
                ).files@[j],
    {
        let i = id.0 as usize;
        if self.files[i].text.is_some() {
            return Err(text);
        }
        let line_map = match &text {
            Ok(t) => Some(LineMap::new(t.as_str())),
            Err(_) => None,
        };
        let old_info = self.files.remove(i);
        let info = FileInfo { id: old_info.id, path: old_info.path, text: Some(text), line_map };
        self.files.insert(i, info);
        proof {
            assert forall|j: int| 0 <= j < self.files@.len() && j != i implies self.files@[j] == old(self).files@[j] by {}
            assert forall|a: int, b: int| 0 <= a < b < self.files@.len() implies (#[trigger] self.files@[a]).path@ != (#[trigger] self.files@[b]).path@ by {
                assert(old(self).files@[a].path@ != old(self).files@[b].path@);
            }
        }
        Ok(())
    }

    /// The recorded depth of `loc`'s source.
    pub fn get_depth(&self, loc: Loc) -> (r: usize)
        requires
            loc.src matches Source::Macro(id) ==> (id.0 as int) < self.macros@.len(),
        ensures
            r == depth_of(self.macros@, loc.src),
    {
        match loc.src {
            Source::File(_) => 0,
            Source::Macro(id) => self.macros[id.0 as usize].depth,
        }
    }

    /// Records a macro expanded at `src` with the text `text`.
    pub fn add_macro(&mut self, src: Loc, text: String) -> (r: MacroId)
        requires
            old(self).wf(),
            src.src matches Source::Macro(id) ==> (id.0 as int) < old(self).macros@.len(),
            old(self).macros@.len() < u32::MAX,
            encode_utf8(text@).len() <= isize::MAX,
        ensures
            final(self).wf(),
            final(self).files@ == old(self).files@,
            r == MacroId(old(self).macros@.len() as u32),
            final(self).macros@.len() == old(self).macros@.len() + 1,
            final(self).macros@.drop_last() == old(self).macros@,
            final(self).macros@.last().src == src,
            final(self).macros@.last().text@ == text@,
            final(self).macros@.last().depth == depth_of(old(self).macros@, src.src),
    {
        let depth = self.get_depth(src);
        let id = self.macros.len();
        let line_map = LineMap::new(text.as_str());
        self.macros.push(MacroCall { depth, id: MacroId(id as u32), src, text, line_map });
        proof {
            assert(self.macros@.drop_last() =~= old(self).macros@);
            let m = self.macros@;
            assert forall|i: int| 0 <= i < m.len() implies depth_of(m, (#[trigger] m[i]).src.src) == depth_of(old(self).macros@, m[i].src.src) by {
                if i < id {
                    assert(m[i] == old(self).macros@[i]);
                }
            }
        }
        MacroId(id as u32)
    }

    /// Joins two locations into one span in the innermost source both are
    /// expanded into (see `combine_spec`).
    pub fn combine_locs(&self, a: Loc, b: Loc) -> (r: Option<Loc>)
        requires
            self.wf(),
        ensures
            r == combine_spec(self.macros@, a, b),
    {
        if let Some(ans) = a.simple_combine(&b) {
            return Some(ans);
        }
        self.combine_locs_slow(a, b)
    }

    /// The slow path of `combine_locs`: like it, except that two locations in the
    /// same missing macro give `None`.
    #[verifier::rlimit(30)]
    pub fn combine_locs_slow(&self, a: Loc, b: Loc) -> (r: Option<Loc>)
        requires
            self.wf(),
        ensures
            r == (if a.src == b.src && !src_exists(self.macros@, a.src) {
                None
            } else {
                combine_spec(self.macros@, a, b)
            }),
    {
        let ghost m = self.macros@;
        let ghost target = if a.src == b.src && !src_exists(m, a.src) {
            None
        } else {
            combine_spec(m, a, b)
        };
        proof {
            lemma_depths_zero(m);
        }
        let mut x = a;
        let mut y = b;
        loop
            invariant
                self.wf(),
                m == self.macros@,
                forall|i: int| 0 <= i < m.len() ==> (#[trigger] m[i]).depth == 0,
                target == (if x.src == y.src && !src_exists(m, x.src) {
                    None
                } else {
                    combine_spec(m, x, y)
                }),
                target == (if a.src == b.src && !src_exists(m, a.src) {
                    None
                } else {
                    combine_spec(m, a, b)
                }),
            decreases src_rank(x.src) + src_rank(y.src),
        {
            match (x.src, y.src) {
                (Source::File(_), Source::File(_)) => {
                    return x.simple_combine(&y);
                },
                (Source::File(_), Source::Macro(mb)) => {
                    y = self.get_macro(mb)?.src;
                },
                (Source::Macro(ma), Source::File(_)) => {
                    x = self.get_macro(ma)?.src;
                },
                (Source::Macro(aid), Source::Macro(bid)) => {
                    let mut macro_a = self.get_macro(aid)?;
                    let mut macro_b = self.get_macro(bid)?;
                    let ghost x0 = x;
                    let ghost y0 = y;
                    // 1. bring both to the same depth.  `add_macro` records the
                    // depth of a macro's call site, and files are at depth 0, so
                    // every recorded depth is 0 (`lemma_depths_zero`) and these two
                    // loops never run; the join then goes by `combine_spec`.
                    while macro_a.depth < macro_b.depth
                        invariant
                            macro_a.depth == 0,
                            macro_b.depth == 0,
                            x == x0,
                            y == y0,
                        decreases 0nat,
                    {
                        x = macro_a.src;
                        match x.src {
                            Source::Macro(id) => {
                                macro_a = self.get_macro(id)?;
                            },
                            Source::File(_) => vstd::pervasive::unreached(),
                        }
                    }
                    while macro_b.depth < macro_a.depth
                        invariant
                            macro_a.depth == 0,
                            macro_b.depth == 0,
                            x == x0,
                            y == y0,
                        decreases 0nat,
                    {
                        y = macro_b.src;
                        match y.src {
                            Source::Macro(id) => {
                                macro_b = self.get_macro(id)?;
                            },
                            Source::File(_) => vstd::pervasive::unreached(),
                        }
                    }
                    //2. bubble up until both are in the same scope
                    let ghost mut moved = false;
                    loop
                        invariant
                            !moved ==> x == x0 && y == y0,
                            x0.src is Macro,
                            moved ==> src_rank(x.src) + src_rank(y.src) < src_rank(x0.src) + src_rank(y0.src),
                            self.wf(),
                            m == self.macros@,
                            src_exists(m, x.src),
                            src_exists(m, y.src),
                            combine_spec(m, x, y) == target,
                            target == (if a.src == b.src && !src_exists(m, a.src) {
                                None
                            } else {
                                combine_spec(m, a, b)
                            }),
                        ensures
                            moved,
                        decreases src_rank(x.src) + src_rank(y.src),
                    {
                        if let Some(ans) = x.simple_combine(&y) {
                            return Some(ans);
                        }
                        let ghost a0 = x;
                        match x.src {
                            Source::Macro(id) => {
                                x = self.get_macro(id)?.src;
                            },
                            Source::File(_) => {
                                break;
                            },
                        }
                        proof {
                            moved = true;
                        }
                        match y.src {
                            Source::Macro(id) => {
                                y = self.get_macro(id)?.src;
                            },
                            Source::File(_) => {
                                assert(combine_spec(m, a0, y) == combine_spec(m, x, y));
                                break;
                            },
                        }
                    }
                },
            }
        }
    }
}


/// An error with the lines it points at: the location itself first, then each
/// macro call site it was expanded from, out to the file.
#[derive(Debug)]
pub struct MappedError<'a, E> {
    pub inner: E,
    pub spans: Vec<MappedSpan<'a>>,
}

/// A location mapped to a line of its source's text.
#[derive(Debug, Clone, Copy)]
pub struct MappedSpan<'a> {
    pub src: Source,
    pub line: LineNum,
    pub line_text: &'a str,
    pub col_start: usize,
    pub col_end: usize,
}

/// A location, then the call sites of the macros it lies in, out to a file (or to
/// a macro that is not recorded).
pub open spec fn macro_chain(macros: Seq<MacroCall>, loc: Loc) -> Seq<Loc>
    decreases src_rank(loc.src),
{
    match loc.src {
        Source::Macro(id) => match macro_site(macros, id) {
            Some(site) => if src_rank(site.src) < src_rank(loc.src) {
                seq![loc] + macro_chain(macros, site)
            } else {
                seq![loc]
            },
            None => seq![loc],
        },
        Source::File(_) => seq![loc],
    }
}

impl SourceContext {
    /// The characters of a source's text: a recorded macro's text, or a
    /// registered file's text once it was read.
    pub open spec fn source_text(self, s: Source) -> Option<Seq<char>> {
        match s {
            Source::File(id) => if (id.0 as int) < self.files@.len() {
                match self.files@[id.0 as int].text {
                    Some(Ok(t)) => Some(t@),
                    _ => None,
                }
            } else {
                None
            },
            Source::Macro(id) => if (id.0 as int) < self.macros@.len() {
                Some(self.macros@[id.0 as int].text@)
            } else {
                None
            },
        }
    }

    /// A location can be mapped to a line: its source's text is there, it starts
    /// within that text, and it does not end before its line starts.
    #[verifier::opaque]
    pub open spec fn mappable(self, loc: Loc) -> bool {
        match self.source_text(loc.src) {
            Some(cs) => {
                let b = encode_utf8(cs);
                &&& loc.start <= b.len()
                &&& line_start_of(b, line_of(b, loc.start as int)) <= loc.end
            },
            None => false,
        }
    }

    /// `sp` is what `loc` maps to: its source, the line its start lies on, the
    /// text of that line, and the columns (in bytes) it spans on it.
    #[verifier::opaque]
    pub open spec fn maps_to(self, loc: Loc, sp: MappedSpan) -> bool {
        match self.source_text(loc.src) {
            Some(cs) => {
                let b = encode_utf8(cs);
                let line = line_of(b, loc.start as int);
                let ls = line_start_of(b, line);
                let le = line_end_of(b, line);
                &&& sp.src == loc.src
                &&& sp.line.0 == line
                &&& sp.line_text.spec_bytes() == b.subrange(ls, le)
                &&& sp.col_start == loc.start - ls
                &&& sp.col_end == (if loc.end < le { loc.end as int } else { le }) - ls
            },
            None => false,
        }
    }

    proof fn lemma_text_bound(self, s: Source)
        requires
            self.wf(),
            self.source_text(s) is Some,
        ensures
            encode_utf8(self.source_text(s)->0).len() <= isize::MAX,
    {
        match s {
            Source::File(id) => {
                assert(self.files@[id.0 as int].wf());
            },
            Source::Macro(id) => {
                assert(self.macros@[id.0 as int].id == id);
            },
        }
    }

    /// The line map and the text of `loc`'s source.
    pub fn get_line_map_and_full_text<'a>(&'a self, loc: Loc) -> (r: (&'a LineMap, &'a str))
        requires
            self.wf(),
            self.source_text(loc.src) is Some,
        ensures
            r.1@ == self.source_text(loc.src)->0,
            r.0@ == line_breaks(encode_utf8(r.1@)),
    {
        match loc.src {
            Source::File(id) => {
                let info = match self.get_file(id) {
                    Some(i) => i,
                    None => vstd::pervasive::unreached(),
                };
                proof {
                    assert(info.wf());
                }
                let text = match &info.text {
                    Some(Ok(t)) => t.as_str(),
                    _ => vstd::pervasive::unreached(),
                };
                (info.get_line_map(), text)
            },
            Source::Macro(id) => {
                let info = match self.get_macro(id) {
                    Some(i) => i,
                    None => vstd::pervasive::unreached(),
                };
                proof {
                    assert(info.id == id);
                }
                (info.get_line_map(), info.text.as_str())
            },
        }
    }

    /// Maps `loc` to its line and columns.
    fn map_loc_to_span<'a>(&'a self, loc: Loc) -> (r: MappedSpan<'a>)
        requires
            self.wf(),
            self.mappable(loc),
        ensures
            self.maps_to(loc, r),
    {
        reveal(SourceContext::mappable);
        reveal(SourceContext::maps_to);
        let (map, text) = self.get_line_map_and_full_text(loc);
        let ghost cs = text@;
        let ghost b = encode_utf8(cs);
        proof {
            self.lemma_text_bound(loc.src);
            lemma_line_of(b, loc.start as int);
            lemma_line_bounds(cs, line_of(b, loc.start as int));
            lemma_line_breaks(b);
            assert(text.spec_bytes() == b);
        }
        let line = map.line_num(loc.start);
        proof {
            assert((#[verifier::truncate] (loc.start as isize)) as int == loc.start as int);
        }
        let line_text = map.line_text(line, text);
        let start_of_line = map.line_start(line);
        let end_of_line = map.line_end(line);
        let col_start = loc.start - start_of_line;
        let stop = if loc.end < end_of_line {
            loc.end
        } else {
            end_of_line
        };
        let col_end = stop - start_of_line;
        MappedSpan { src: loc.src, line, line_text, col_start, col_end }
    }

    /// The source has a macro chain that ends in a file, as every chain does once
    /// the context is well formed.
    proof fn lemma_chain_step(self, loc: Loc)
        requires
            self.wf(),
            loc.src matches Source::Macro(id) && (id.0 as int) < self.macros@.len(),
        ensures
            loc.src matches Source::Macro(id) && macro_chain(self.macros@, loc) == seq![loc] + macro_chain(
                self.macros@,
                self.macros@[id.0 as int].src,
            ),
    {
        match loc.src {
            Source::Macro(id) => {
                let site = self.macros@[id.0 as int].src;
                assert(self.macros@[id.0 as int].id == id);
                assert(src_rank(site.src) < src_rank(loc.src));
            },
            _ => {},
        }
    }

    /// `error` with the lines it points at: its own location, then the call site
    /// of each macro it was expanded from.
    #[verifier::rlimit(30)]
    pub fn add_context<'a, E>(&'a self, error: Located<E>) -> (r: MappedError<'a, E>)
        requires
            self.wf(),
            forall|i: int|
                0 <= i < macro_chain(self.macros@, error.loc).len() ==> self.mappable(
                    #[trigger] macro_chain(self.macros@, error.loc)[i],
                ),
        ensures
            r.inner == error.value,
            r.spans@.len() == macro_chain(self.macros@, error.loc).len(),
            forall|i: int|
                0 <= i < r.spans@.len() ==> self.maps_to(
                    macro_chain(self.macros@, error.loc)[i],
                    #[trigger] r.spans@[i],
                ),
    {
        let ghost full = macro_chain(self.macros@, error.loc);
        let mut loc = error.loc;
        let mut spans: Vec<MappedSpan<'a>> = Vec::new();
        proof {
            assert(full.skip(0) =~= full);
        }
        loop
            invariant
                self.wf(),
                full == macro_chain(self.macros@, error.loc),
                forall|i: int| 0 <= i < full.len() ==> self.mappable(#[trigger] full[i]),
                spans@.len() < full.len(),
                macro_chain(self.macros@, loc) == full.skip(spans@.len() as int),
                forall|i: int| 0 <= i < spans@.len() ==> self.maps_to(full[i], #[trigger] spans@[i]),
            ensures
                loc.src is File,
            decreases src_rank(loc.src),
        {
            reveal(SourceContext::mappable);
            let ghost k = spans@.len() as int;
            assert(macro_chain(self.macros@, loc)[0] == loc);
            assert(full[k] == loc);
            match loc.src {
                Source::Macro(id) => {
                    let sp = self.map_loc_to_span(loc);
                    spans.push(sp);
                    let site = match self.get_macro(id) {
                        Some(mc) => mc.src,
                        None => vstd::pervasive::unreached(),
                    };
                    proof {
                        self.lemma_chain_step(loc);
                        assert(full.skip(k + 1) =~= full.skip(k).drop_first());
                        assert(self.macros@[id.0 as int].id == id);
                    }
                    loc = site;
                },
                Source::File(_) => {
                    break;
                },
            }
        }
        let ghost k = spans@.len() as int;
        proof {
            assert(macro_chain(self.macros@, loc).len() == 1);
            assert(macro_chain(self.macros@, loc)[0] == loc);
            assert(full.skip(k)[0] == full[k]);
        }
        let sp = self.map_loc_to_span(loc);
        spans.push(sp);
        MappedError { inner: error.value, spans }
    }
}


/// The character of a decimal digit.
pub open spec fn digit_char(d: nat) -> char {
    (48 + d) as char
}

/// The decimal digits of `n`, most significant first.
pub open spec fn decimal(n: nat) -> Seq<char>
    decreases n,
{
    if n < 10 {
        seq![digit_char(n)]
    } else {
        decimal(n / 10).push(digit_char(n % 10))
    }
}

/// The number a run of decimal digits stands for, read most significant first.
pub open spec fn digits_value(ds: Seq<char>) -> int
    decreases ds.len(),
{
    if ds.len() == 0 {
        0
    } else {
        digits_value(ds.drop_last()) * 10 + ((ds.last() as u32) as int - 48)
    }
}

/// Every character of `ds` is one of `0` to `9`.
pub open spec fn all_digits(ds: Seq<char>) -> bool {
    forall|i: int| 0 <= i < ds.len() ==> '0' <= #[trigger] ds[i] <= '9'
}

/// The decimal digits of `n` are digits, at least one of them, and read back
/// as `n`.
pub proof fn lemma_decimal_reads_back(n: nat)
    ensures
        decimal(n).len() >= 1,
        all_digits(decimal(n)),
        digits_value(decimal(n)) == n,
    decreases n,
{
    let d = (n % 10) as nat;
    assert((digit_char(d) as u32) as int == 48 + d);
    if n < 10 {
        let ds = decimal(n);
        assert(ds.drop_last() =~= Seq::<char>::empty());
        assert(digits_value(Seq::<char>::empty()) == 0);
        assert(ds.last() == digit_char(d));
        assert(digits_value(ds) == 0 * 10 + d);
    } else {
        lemma_decimal_reads_back(n / 10);
        let ds = decimal(n);
        assert(ds.drop_last() =~= decimal(n / 10));
        assert(ds.last() == digit_char(d));
        assert(digits_value(ds) == (n / 10) * 10 + d);
        assert((n / 10) * 10 + n % 10 == n) by (nonlinear_arith);
        assert forall|i: int| 0 <= i < ds.len() implies '0' <= #[trigger] ds[i] <= '9' by {
            if i < ds.len() - 1 {
                assert(ds[i] == decimal(n / 10)[i]);
            }
        }
    }
}

/// `n` copies of `c`.
pub open spec fn repeat_char(c: char, n: nat) -> Seq<char> {
    Seq::new(n, |i: int| c)
}

/// How a source is named in a mapped error: as it is debug-printed.
pub open spec fn source_label(s: Source) -> Seq<char> {
    match s {
        Source::File(f) => "File(FileId("@ + decimal(f.0 as nat) + "))"@,
        Source::Macro(m) => "Macro(MacroId("@ + decimal(m.0 as nat) + "))"@,
    }
}

/// The lines shown for one span: its line number, the line's text, and a
/// marker under the columns it spans (at least one `^`).
pub open spec fn span_lines(sp: MappedSpan) -> Seq<char> {
    let width: nat = if sp.col_end > sp.col_start { (sp.col_end - sp.col_start) as nat } else { 1 };
    " --> line "@ + decimal(sp.line.0 as nat) + "\n"@ + "  | "@ + sp.line_text@ + "\n"@ + "  | "@
        + repeat_char(' ', sp.col_start as nat) + repeat_char('^', width) + "\n"@
}

/// A span's lines start with its line number in full: ` --> line `, then
/// decimal digits that read back as the line number, then a newline.
pub proof fn lemma_span_line_header(sp: MappedSpan)
    ensures
        exists|k: int|
            #![trigger span_lines(sp).subrange(10, 10 + k)]
            1 <= k && 10 + k < span_lines(sp).len() && span_lines(sp).subrange(0, 10) == seq![
                ' ',
                '-',
                '-',
                '>',
                ' ',
                'l',
                'i',
                'n',
                'e',
                ' ',
            ] && all_digits(span_lines(sp).subrange(10, 10 + k)) && digits_value(
                span_lines(sp).subrange(10, 10 + k),
            ) == sp.line.0 && span_lines(sp)[10 + k] == '\n',
{
    reveal_strlit(" --> line ");
    reveal_strlit("\n");
    let ds = decimal(sp.line.0 as nat);
    lemma_decimal_reads_back(sp.line.0 as nat);
    let k = ds.len() as int;
    let text = span_lines(sp);
    let head = " --> line "@;
    assert(head.len() == 10);
    assert(text.subrange(0, 10) =~= head);
    assert(head =~= seq![' ', '-', '-', '>', ' ', 'l', 'i', 'n', 'e', ' ']);
    assert(text.subrange(10, 10 + k) =~= ds);
    assert(text[10 + k] == "\n"@[0]);
}

/// The text shown for a run of spans, each source named before its first span
/// in a run of spans from it; `last` is the source of the span shown before.
pub open spec fn spans_text(spans: Seq<MappedSpan>, last: Option<Source>) -> Seq<char>
    decreases spans.len(),
{
    if spans.len() == 0 {
        seq![]
    } else {
        let sp = spans[0];
        span_head(last, sp.src) + span_lines(sp) + spans_text(spans.drop_first(), Some(sp.src))
    }
}

/// Appends the decimal digits of `n`.
fn push_decimal(s: &mut String, n: usize)
    ensures
        final(s)@ == old(s)@ + decimal(n as nat),
    decreases n,
{
    if n >= 10 {
        push_decimal(s, n / 10);
    }
    let d = (n % 10) as u8;
    let c = (48u8 + d) as char;
    proof {
        assert(c == digit_char((n % 10) as nat));
    }
    string_push(s, c);
    proof {
        if n >= 10 {
            assert(final(s)@ =~= old(s)@ + decimal(n as nat));
        } else {
            assert(final(s)@ =~= old(s)@ + decimal(n as nat));
        }
    }
}

/// Appends `n` copies of `c`.
fn push_repeated(s: &mut String, c: char, n: usize)
    ensures
        final(s)@ == old(s)@ + repeat_char(c, n as nat),
{
    let mut i: usize = 0;
    while i < n
        invariant
            0 <= i <= n,
            s@ == old(s)@ + repeat_char(c, i as nat),
        decreases n - i,
    {
        let ghost before = s@;
        string_push(s, c);
        proof {
            assert(repeat_char(c, (i + 1) as nat) =~= repeat_char(c, i as nat).push(c));
            assert(s@ =~= old(s)@ + repeat_char(c, (i + 1) as nat));
        }
        i = i + 1;
    }
}

/// Appends the name of a source.
fn push_source_label(s: &mut String, src: Source)
    ensures
        final(s)@ == old(s)@ + source_label(src),
{
    match src {
        Source::File(f) => {
            s.append("File(FileId(");
            push_decimal(s, f.0 as usize);
            s.append("))");
        },
        Source::Macro(m) => {
            s.append("Macro(MacroId(");
            push_decimal(s, m.0 as usize);
            s.append("))");
        },
    }
    proof {
        assert(final(s)@ =~= old(s)@ + source_label(src));
    }
}

/// What comes before a span's lines: the name of its source, unless the span
/// shown before it lies in the same source.
pub open spec fn span_head(last: Option<Source>, src: Source) -> Seq<char> {
    if last == Some(src) {
        Seq::<char>::empty()
    } else {
        "\nIn "@ + source_label(src) + ":\n"@
    }
}

/// Appends the lines shown for one span.
fn push_span_lines(out: &mut String, sp: &MappedSpan)
    ensures
        final(out)@ == old(out)@ + span_lines(*sp),
{
    out.append(" --> line ");
    push_decimal(out, sp.line.0);
    out.append("\n");
    out.append("  | ");
    out.append(sp.line_text);
    out.append("\n");
    out.append("  | ");
    push_repeated(out, ' ', sp.col_start);
    let width: usize = if sp.col_end > sp.col_start {
        sp.col_end - sp.col_start
    } else {
        1
    };
    push_repeated(out, '^', width);
    out.append("\n");
    proof {
        assert(out@ =~= old(out)@ + span_lines(*sp));
    }
}

/// Appends what is shown for one span.
fn push_span(out: &mut String, sp: &MappedSpan, last: Option<Source>)
    ensures
        final(out)@ == old(out)@ + span_head(last, sp.src) + span_lines(*sp),
{
    let same = match last {
        Some(l) => l == sp.src,
        None => false,
    };
    if !same {
        out.append("\nIn ");
        push_source_label(out, sp.src);
        out.append(":\n");
    }
    let ghost mid = out@;
    push_span_lines(out, sp);
    proof {
        assert(mid =~= old(out)@ + span_head(last, sp.src));
    }
}

impl<'a, E> MappedError<'a, E> {
    /// The whole text shown for the error, given its message: the message on a
    /// line of its own, then the lines it points at.
    pub fn render(&self, msg: &str) -> (r: String)
        ensures
            r@ == msg@ + "\n"@ + spans_text(self.spans@, None),
    {
        let mut out = String::from_str(msg);
        out.append("\n");
        let rest = self.render_spans();
        out.append(rest.as_str());
        out
    }

    /// The lines the error points at, as they are shown under its message:
    /// each source is named before its spans, then each span's line is shown
    /// with a marker under the columns it covers.
    pub fn render_spans(&self) -> (r: String)
        ensures
            r@ == spans_text(self.spans@, None),
    {
        let mut out = String::new();
        let mut last: Option<Source> = None;
        let mut i: usize = 0;
        proof {
            assert(self.spans@.skip(0) =~= self.spans@);
        }
        while i < self.spans.len()
            invariant
                0 <= i <= self.spans@.len(),
                spans_text(self.spans@, None) == out@ + spans_text(self.spans@.skip(i as int), last),
            decreases self.spans@.len() - i,
        {
            let ghost before = out@;
            let ghost rest = self.spans@.skip(i as int);
            let sp = &self.spans[i];
            push_span(&mut out, sp, last);
            proof {
                assert(rest[0] == *sp);
                assert(rest.drop_first() =~= self.spans@.skip(i + 1));
                assert(spans_text(rest, last) == span_head(last, sp.src) + span_lines(*sp) + spans_text(
                    rest.drop_first(),
                    Some(sp.src),
                ));
                assert(before + spans_text(rest, last) =~= out@ + spans_text(rest.drop_first(), Some(sp.src)));
            }
            last = Some(sp.src);
            i = i + 1;
        }
        proof {
            assert(self.spans@.skip(i as int) =~= Seq::<MappedSpan>::empty());
            assert(out@ =~= out@ + Seq::<char>::empty());
        }
        out
    }
}

/// Every macro's recorded depth is 0: a macro records the depth of its call
/// site, and a file is at depth 0.
pub proof fn lemma_depths_zero(macros: Seq<MacroCall>)
    requires
        SourceContext::macros_wf(macros),
    ensures
        forall|i: int| 0 <= i < macros.len() ==> (#[trigger] macros[i]).depth == 0,
{
    assert forall|i: int| 0 <= i < macros.len() implies (#[trigger] macros[i]).depth == 0 by {
        lemma_depth_zero_at(macros, i);
    }
}

proof fn lemma_depth_zero_at(macros: Seq<MacroCall>, i: int)
    requires
        SourceContext::macros_wf(macros),
        0 <= i < macros.len(),
    ensures
        macros[i].depth == 0,
    decreases i,
{
    match macros[i].src.src {
        Source::File(_) => {},
        Source::Macro(p) => {
            lemma_depth_zero_at(macros, p.0 as int);
        },
    }
}

/// Two locations expanded from the same file always combine, into a location
/// expanded from that file.
pub proof fn lemma_combine_same_root(macros: Seq<MacroCall>, a: Loc, b: Loc, f: FileId)
    requires
        SourceContext::macros_wf(macros),
        root_file(macros, a.src) == Some(f),
        root_file(macros, b.src) == Some(f),
    ensures
        combine_spec(macros, a, b) is Some,
        root_file(macros, combine_spec(macros, a, b)->0.src) == Some(f),
    decreases src_rank(a.src) + src_rank(b.src),
{
    if a.src == b.src {
    } else {
        match (a.src, b.src) {
            (Source::File(_), Source::File(_)) => {},
            (Source::File(_), Source::Macro(mb)) => {
                lemma_combine_same_root(macros, a, macros[mb.0 as int].src, f);
            },
            (Source::Macro(ma), Source::File(_)) => {
                lemma_combine_same_root(macros, macros[ma.0 as int].src, b, f);
            },
            (Source::Macro(ma), Source::Macro(mb)) => {
                lemma_combine_same_root(macros, macros[ma.0 as int].src, macros[mb.0 as int].src, f);
            },
        }
    }
}

impl SourceContext {
    /// Two locations in text expanded from the same file can be joined, and
    /// the join lies in that file too.
    pub proof fn lemma_same_root_joins(&self, a: Loc, b: Loc, f: FileId)
        requires
            self.wf(),
            root_file(self.macros@, a.src) == Some(f),
            root_file(self.macros@, b.src) == Some(f),
        ensures
            combine_spec(self.macros@, a, b) is Some,
            root_file(self.macros@, combine_spec(self.macros@, a, b)->0.src) == Some(f),
    {
        lemma_combine_same_root(self.macros@, a, b, f);
    }
}

/// Combining locations does not depend on their order.
pub proof fn lemma_combine_symmetric(macros: Seq<MacroCall>, a: Loc, b: Loc)
    ensures
        combine_spec(macros, a, b) == combine_spec(macros, b, a),
    decreases src_rank(a.src) + src_rank(b.src),
{
    if a.src == b.src {
    } else {
        match (a.src, b.src) {
            (Source::File(_), Source::File(_)) => {},
            (Source::File(_), Source::Macro(mb)) => {
                if let Some(pb) = macro_site(macros, mb) {
                    if src_rank(pb.src) < src_rank(b.src) {
                        lemma_combine_symmetric(macros, a, pb);
                    }
                }
            },
            (Source::Macro(ma), Source::File(_)) => {
                if let Some(pa) = macro_site(macros, ma) {
                    if src_rank(pa.src) < src_rank(a.src) {
                        lemma_combine_symmetric(macros, pa, b);
                    }
                }
            },
            (Source::Macro(ma), Source::Macro(mb)) => {
                if let (Some(pa), Some(pb)) = (macro_site(macros, ma), macro_site(macros, mb)) {
                    if src_rank(pa.src) < src_rank(a.src) && src_rank(pb.src) < src_rank(b.src) {
                        lemma_combine_symmetric(macros, pa, pb);
                    }
                }
            },
        }
    }
}

/// A location combined with itself is itself.
pub proof fn lemma_combine_self(macros: Seq<MacroCall>, a: Loc)
    ensures
        combine_spec(macros, a, a) == Some(a),
{
}

/// Locations in the same source combine into their hull, which covers both.
pub proof fn lemma_combine_covers(macros: Seq<MacroCall>, a: Loc, b: Loc)
    requires
        a.src == b.src,
    ensures
        combine_spec(macros, a, b) == Some(span_hull(a, b)),
        span_hull(a, b).start <= a.start && span_hull(a, b).start <= b.start,
        span_hull(a, b).end >= a.end && span_hull(a, b).end >= b.end,
{
}

} // verus!
