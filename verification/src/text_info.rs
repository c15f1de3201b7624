//! Per-chunk text metrics: byte count, scalar count, and line-break count.
//!
//! `TextInfo` forms a commutative monoid under elementwise addition with
//! identity zero; for a chunk `t` the triple is `(utf8 bytes, scalars,
//! line breaks)` of `t`.  The line-break classifier counts LF, VT, FF,
//! NEL, LS and PS; a CRLF pair therefore counts once (for its LF), so the
//! count is additive over concatenation.

use vstd::prelude::*;

verus! {

use vstd::utf8::{encode_utf8, encode_scalar, char_is_scalar, is_scalar};

/// Byte length of the UTF-8 encoding of a scalar sequence.
pub open spec fn byte_len(s: Seq<char>) -> int {
    encode_utf8(s).len() as int
}

/// Byte width of one scalar's UTF-8 encoding.
pub open spec fn char_width(c: char) -> int {
    encode_scalar(c as u32).len() as int
}

/// The line-break scalars: LF, VT, FF, NEL, LS, PS.
pub open spec fn is_line_break(c: char) -> bool {
    ||| c == '\n'
    ||| c == '\u{000B}'
    ||| c == '\u{000C}'
    ||| c == '\u{0085}'
    ||| c == '\u{2028}'
    ||| c == '\u{2029}'
}

/// Number of line breaks in a scalar sequence.
pub open spec fn line_breaks(s: Seq<char>) -> int
    decreases s.len(),
{
    if s.len() == 0 {
        0
    } else {
        line_breaks(s.drop_last()) + if is_line_break(s.last()) {
            1int
        } else {
            0int
        }
    }
}

/// Scalar index of the start of line `k`: 0 for `k == 0`, else the index
/// just after the `k`-th line break; the sequence length when there is no
/// such break.
pub open spec fn line_start(s: Seq<char>, k: int) -> int
    decreases s.len(),
{
    if k <= 0 || s.len() == 0 {
        0
    } else if is_line_break(s[0]) {
        1 + line_start(s.drop_first(), k - 1)
    } else {
        1 + line_start(s.drop_first(), k)
    }
}

/// Number of whole scalars of `s` whose encodings fit in the first `b` bytes.
pub open spec fn chars_in_bytes(s: Seq<char>, b: int) -> int
    decreases s.len(),
{
    if s.len() == 0 {
        0
    } else if char_width(s[0]) > b {
        0
    } else {
        1 + chars_in_bytes(s.drop_first(), b - char_width(s[0]))
    }
}

pub proof fn lemma_char_width(c: char)
    ensures
        1 <= char_width(c) <= 4,
{
    char_is_scalar(c);
}

pub proof fn lemma_byte_len_first(s: Seq<char>)
    requires
        s.len() > 0,
    ensures
        byte_len(s) == char_width(s[0]) + byte_len(s.drop_first()),
{
}

pub broadcast proof fn lemma_byte_len_additive(a: Seq<char>, b: Seq<char>)
    ensures
        #[trigger] byte_len(a + b) == byte_len(a) + byte_len(b),
    decreases a.len(),
{
    if a.len() == 0 {
        assert(a + b =~= b);
    } else {
        lemma_byte_len_additive(a.drop_first(), b);
        assert((a + b).drop_first() =~= a.drop_first() + b);
        assert((a + b)[0] == a[0]);
        lemma_byte_len_first(a + b);
        lemma_byte_len_first(a);
    }
}

pub proof fn lemma_byte_len_bounds(s: Seq<char>)
    ensures
        s.len() <= byte_len(s) <= 4 * s.len(),
    decreases s.len(),
{
    if s.len() > 0 {
        lemma_byte_len_first(s);
        lemma_char_width(s[0]);
        lemma_byte_len_bounds(s.drop_first());
    }
}

/// One more scalar adds exactly its width.
pub proof fn lemma_byte_len_take_succ(s: Seq<char>, i: int)
    requires
        0 <= i < s.len(),
    ensures
        byte_len(s.take(i + 1)) == byte_len(s.take(i)) + char_width(s[i]),
{
    assert(s.take(i + 1) =~= s.take(i) + seq![s[i]]);
    lemma_byte_len_additive(s.take(i), seq![s[i]]);
    lemma_byte_len_first(seq![s[i]]);
    assert(seq![s[i]].drop_first() =~= Seq::empty());
}

/// Byte offsets of scalar boundaries are strictly increasing in the index.
pub proof fn lemma_byte_len_take_mono(s: Seq<char>, i: int, j: int)
    requires
        0 <= i <= j <= s.len(),
    ensures
        byte_len(s.take(i)) <= byte_len(s.take(j)),
        i < j ==> byte_len(s.take(i)) + (j - i) <= byte_len(s.take(j)),
    decreases j - i,
{
    if i < j {
        lemma_byte_len_take_succ(s, j - 1);
        lemma_char_width(s[j - 1]);
        lemma_byte_len_take_mono(s, i, j - 1);
    }
}

pub proof fn lemma_line_breaks_take_succ(s: Seq<char>, i: int)
    requires
        0 <= i < s.len(),
    ensures
        line_breaks(s.take(i + 1)) == line_breaks(s.take(i)) + if is_line_break(s[i]) {
            1int
        } else {
            0int
        },
{
    assert(s.take(i + 1).drop_last() =~= s.take(i));
    assert(s.take(i + 1).last() == s[i]);
}

pub broadcast proof fn lemma_line_breaks_additive(a: Seq<char>, b: Seq<char>)
    ensures
        #[trigger] line_breaks(a + b) == line_breaks(a) + line_breaks(b),
    decreases b.len(),
{
    if b.len() == 0 {
        assert(a + b =~= a);
    } else {
        lemma_line_breaks_additive(a, b.drop_last());
        assert((a + b).drop_last() =~= a + b.drop_last());
        assert((a + b).last() == b.last());
    }
}

pub proof fn lemma_line_breaks_bounds(s: Seq<char>)
    ensures
        0 <= line_breaks(s) <= s.len(),
    decreases s.len(),
{
    if s.len() > 0 {
        lemma_line_breaks_bounds(s.drop_last());
    }
}

/// Unfolding a sequence's metrics at its first scalar.
pub proof fn lemma_line_breaks_first(s: Seq<char>)
    requires
        s.len() > 0,
    ensures
        line_breaks(s) == line_breaks(s.drop_first()) + if is_line_break(s[0]) {
            1int
        } else {
            0int
        },
{
    broadcast use lemma_line_breaks_additive;

    assert(s =~= seq![s[0]] + s.drop_first());
    assert(seq![s[0]].drop_last() =~= Seq::<char>::empty());
    assert(seq![s[0]].last() == s[0]);
    assert(line_breaks(seq![s[0]].drop_last()) == 0);
    assert(line_breaks(seq![s[0]]) == if is_line_break(s[0]) {
        1int
    } else {
        0int
    });
    assert(line_breaks(seq![s[0]] + s.drop_first()) == line_breaks(seq![s[0]]) + line_breaks(
        s.drop_first(),
    ));
}

/// A take-prefix steps over the first scalar.
pub proof fn lemma_take_shift(s: Seq<char>, c: int)
    requires
        1 <= c <= s.len(),
    ensures
        byte_len(s.take(c)) == char_width(s[0]) + byte_len(s.drop_first().take(c - 1)),
        line_breaks(s.take(c)) == line_breaks(s.drop_first().take(c - 1)) + if is_line_break(
            s[0],
        ) {
            1int
        } else {
            0int
        },
{
    assert(s.take(c).len() > 0);
    assert(s.take(c)[0] == s[0]);
    assert(s.take(c).drop_first() =~= s.drop_first().take(c - 1));
    lemma_byte_len_first(s.take(c));
    lemma_line_breaks_first(s.take(c));
}

/// `chars_in_bytes` is pinned down by the two bracketing byte offsets.
pub proof fn lemma_cib_exact(s: Seq<char>, b: int, c: int)
    requires
        0 <= c <= s.len(),
        byte_len(s.take(c)) <= b,
        c == s.len() || byte_len(s.take(c + 1)) > b,
    ensures
        chars_in_bytes(s, b) == c,
    decreases c,
{
    if c == 0 {
        if s.len() > 0 {
            lemma_byte_len_take_succ(s, 0);
            assert(s.take(0) =~= Seq::empty());
            assert(char_width(s[0]) > b);
        }
    } else {
        lemma_byte_len_take_mono(s, 1, c);
        lemma_byte_len_take_succ(s, 0);
        assert(s.take(0) =~= Seq::empty());
        assert(char_width(s[0]) <= b);
        lemma_take_shift(s, c);
        if c < s.len() {
            lemma_take_shift(s, c + 1);
        }
        lemma_cib_exact(s.drop_first(), b - char_width(s[0]), c - 1);
    }
}

/// Reading past a whole prefix: the prefix contributes all its scalars.
pub proof fn lemma_cib_concat_hi(a: Seq<char>, c: Seq<char>, t: int)
    requires
        t >= 0,
    ensures
        chars_in_bytes(a + c, byte_len(a) + t) == a.len() + chars_in_bytes(c, t),
    decreases a.len(),
{
    if a.len() == 0 {
        assert(a + c =~= c);
    } else {
        lemma_byte_len_first(a);
        lemma_char_width(a[0]);
        lemma_byte_len_bounds(a.drop_first());
        assert((a + c)[0] == a[0]);
        assert((a + c).drop_first() =~= a.drop_first() + c);
        lemma_cib_concat_hi(a.drop_first(), c, t);
    }
}

/// Reading within a prefix: the suffix does not matter.
pub proof fn lemma_cib_concat_lo(a: Seq<char>, c: Seq<char>, b: int)
    requires
        0 <= b <= byte_len(a),
    ensures
        chars_in_bytes(a + c, b) == chars_in_bytes(a, b),
    decreases a.len(),
{
    if a.len() == 0 {
        assert(a + c =~= c);
        if c.len() > 0 {
            lemma_char_width(c[0]);
        }
    } else {
        assert((a + c)[0] == a[0]);
        assert((a + c).drop_first() =~= a.drop_first() + c);
        if char_width(a[0]) <= b {
            lemma_byte_len_first(a);
            lemma_cib_concat_lo(a.drop_first(), c, b - char_width(a[0]));
        }
    }
}

/// A line starts within the prefix holding its break.
pub proof fn lemma_ls_concat_lo(a: Seq<char>, c: Seq<char>, k: int)
    requires
        0 <= k <= line_breaks(a),
    ensures
        line_start(a + c, k) == line_start(a, k),
    decreases a.len(),
{
    if k <= 0 {
    } else if a.len() == 0 {
        lemma_line_breaks_bounds(a);
    } else {
        lemma_line_breaks_first(a);
        lemma_line_breaks_bounds(a.drop_first());
        assert((a + c)[0] == a[0]);
        assert((a + c).drop_first() =~= a.drop_first() + c);
        if is_line_break(a[0]) {
            lemma_ls_concat_lo(a.drop_first(), c, k - 1);
        } else {
            lemma_ls_concat_lo(a.drop_first(), c, k);
        }
    }
}

/// A line starting past a whole prefix: offset by the prefix.
pub proof fn lemma_ls_concat_hi(a: Seq<char>, c: Seq<char>, k: int)
    requires
        k > line_breaks(a),
    ensures
        line_start(a + c, k) == a.len() + line_start(c, k - line_breaks(a)),
    decreases a.len(),
{
    if a.len() == 0 {
        assert(a + c =~= c);
    } else {
        lemma_line_breaks_first(a);
        lemma_line_breaks_bounds(a);
        assert((a + c)[0] == a[0]);
        assert((a + c).drop_first() =~= a.drop_first() + c);
        if is_line_break(a[0]) {
            lemma_ls_concat_hi(a.drop_first(), c, k - 1);
        } else {
            lemma_ls_concat_hi(a.drop_first(), c, k);
        }
    }
}

/// The scalar count for a byte budget never overshoots the budget, and
/// one more scalar would.
pub proof fn lemma_cib_inverse(s: Seq<char>, b: int)
    requires
        0 <= b,
    ensures
        byte_len(s.take(chars_in_bytes(s, b))) <= b,
        chars_in_bytes(s, b) < s.len() ==> byte_len(s.take(chars_in_bytes(s, b) + 1)) > b,
    decreases s.len(),
{
    lemma_cib_bounds(s, b);
    if s.len() == 0 {
        assert(s.take(0) =~= Seq::empty());
    } else if char_width(s[0]) > b {
        assert(s.take(0) =~= Seq::empty());
        lemma_byte_len_take_succ(s, 0);
    } else {
        let c = chars_in_bytes(s, b);
        lemma_cib_inverse(s.drop_first(), b - char_width(s[0]));
        lemma_cib_bounds(s.drop_first(), b - char_width(s[0]));
        lemma_take_shift(s, c);
        if c < s.len() {
            lemma_take_shift(s, c + 1);
        }
    }
}

pub proof fn lemma_cib_bounds(s: Seq<char>, b: int)
    ensures
        0 <= chars_in_bytes(s, b) <= s.len(),
    decreases s.len(),
{
    if s.len() > 0 && char_width(s[0]) <= b {
        lemma_cib_bounds(s.drop_first(), b - char_width(s[0]));
    }
}

pub proof fn lemma_line_start_bounds(s: Seq<char>, k: int)
    ensures
        0 <= line_start(s, k) <= s.len(),
    decreases s.len(),
{
    if k > 0 && s.len() > 0 {
        if is_line_break(s[0]) {
            lemma_line_start_bounds(s.drop_first(), k - 1);
        } else {
            lemma_line_start_bounds(s.drop_first(), k);
        }
    }
}

/// The metric triple over a chunk of text.
#[derive(Clone, Copy, PartialEq, Eq, Structural, Debug)]
pub struct TextInfo {
    pub bytes: usize,
    pub chars: usize,
    pub line_breaks: usize,
}

impl TextInfo {
    /// The triple is exactly the metrics of `s`.
    pub open spec fn summarizes(self, s: Seq<char>) -> bool {
        &&& self.bytes == byte_len(s)
        &&& self.chars == s.len()
        &&& self.line_breaks == line_breaks(s)
    }

    /// The identity of the combine monoid.
    pub fn new() -> (r: TextInfo)
        ensures
            r.summarizes(Seq::empty()),
            r.bytes == 0 && r.chars == 0 && r.line_breaks == 0,
    {
        TextInfo { bytes: 0, chars: 0, line_breaks: 0 }
    }

    /// Elementwise sum; the summary of a concatenation.
    pub fn combine(&self, other: &TextInfo) -> (r: TextInfo)
        requires
            self.bytes + other.bytes <= usize::MAX,
            self.chars + other.chars <= usize::MAX,
            self.line_breaks + other.line_breaks <= usize::MAX,
        ensures
            r.bytes == self.bytes + other.bytes,
            r.chars == self.chars + other.chars,
            r.line_breaks == self.line_breaks + other.line_breaks,
    {
        TextInfo {
            bytes: self.bytes + other.bytes,
            chars: self.chars + other.chars,
            line_breaks: self.line_breaks + other.line_breaks,
        }
    }

    /// Scan `s` once, computing the three counts.
    pub fn from_str(s: &str) -> (r: TextInfo)
        requires
            byte_len(s@) <= usize::MAX,
        ensures
            r.summarizes(s@),
    {
        let bytes = s.len();
        let chars = s.unicode_len();
        proof {
            lemma_byte_len_bounds(s@);
        }
        let line_brks = count_line_breaks(s);
        TextInfo { bytes, chars, line_breaks: line_brks }
    }
}

pub fn is_line_break_char(c: char) -> (r: bool)
    ensures
        r == is_line_break(c),
{
    c == '\n' || c == '\u{000B}' || c == '\u{000C}' || c == '\u{0085}' || c == '\u{2028}' || c
        == '\u{2029}'
}

/// Byte width of one scalar's UTF-8 encoding.
pub fn char_width_of(c: char) -> (r: usize)
    ensures
        r == char_width(c),
{
    let u = c as u32;
    proof {
        char_is_scalar(c);
    }
    if u < 0x80 {
        1
    } else if u < 0x800 {
        2
    } else if u < 0x10000 {
        3
    } else {
        4
    }
}

pub fn count_line_breaks(s: &str) -> (r: usize)
    requires
        s@.len() <= usize::MAX,
    ensures
        r == line_breaks(s@),
{
    let n = s.unicode_len();
    let mut count: usize = 0;
    let mut i: usize = 0;
    proof {
        assert(s@.take(0) =~= Seq::empty());
        lemma_line_breaks_bounds(s@);
    }
    while i < n
        invariant
            i <= n,
            n == s@.len(),
            count == line_breaks(s@.take(i as int)),
            count <= i,
        decreases n - i,
    {
        let c = s.get_char(i);
        proof {
            lemma_line_breaks_take_succ(s@, i as int);
            lemma_line_breaks_bounds(s@.take(i as int));
        }
        if is_line_break_char(c) {
            count = count + 1;
        }
        i = i + 1;
    }
    proof {
        assert(s@.take(n as int) =~= s@);
    }
    count
}

/// Byte offset of the `char_idx`-th scalar of `s`.
pub fn str_char_to_byte(s: &str, char_idx: usize) -> (r: usize)
    requires
        char_idx <= s@.len(),
        byte_len(s@) <= usize::MAX,
    ensures
        r == byte_len(s@.take(char_idx as int)),
{
    let sub = s.substring_char(0, char_idx);
    proof {
        assert(sub@ =~= s@.take(char_idx as int));
        lemma_byte_len_take_mono(s@, char_idx as int, s@.len() as int);
        assert(s@.take(s@.len() as int) =~= s@);
    }
    sub.len()
}

/// Number of whole scalars of `s` in its first `b` bytes.
pub fn str_byte_to_char(s: &str, b: usize) -> (r: usize)
    requires
        b <= byte_len(s@),
    ensures
        r == chars_in_bytes(s@, b as int),
{
    let n = s.unicode_len();
    let mut c: usize = 0;
    let mut acc: usize = 0;
    proof {
        assert(s@.take(0) =~= Seq::empty());
        lemma_byte_len_bounds(s@);
    }
    loop
        invariant
            c <= n,
            n == s@.len(),
            b <= byte_len(s@),
            acc == byte_len(s@.take(c as int)),
            acc <= b,
        decreases n - c,
    {
        if c == n {
            proof {
                lemma_cib_exact(s@, b as int, c as int);
            }
            return c;
        }
        let ch = s.get_char(c);
        let w = char_width_of(ch);
        proof {
            lemma_byte_len_take_succ(s@, c as int);
            lemma_char_width(s@[c as int]);
        }
        if w > b - acc {
            proof {
                lemma_cib_exact(s@, b as int, c as int);
            }
            return c;
        }
        acc = acc + w;
        c = c + 1;
    }
}

/// Scalar index of the start of line `k` of `s`.
pub fn str_line_to_char(s: &str, k: usize) -> (r: usize)
    requires
        k <= line_breaks(s@),
    ensures
        r == line_start(s@, k as int),
{
    let n = s.unicode_len();
    let mut j: usize = 0;
    let mut count: usize = 0;
    proof {
        assert(s@.take(0) =~= Seq::empty());
        assert(s@.skip(0) =~= s@);
        lemma_line_breaks_bounds(s@);
    }
    while count < k
        invariant
            j <= n,
            n == s@.len(),
            k <= line_breaks(s@),
            count == line_breaks(s@.take(j as int)),
            count <= k,
            line_start(s@, k as int) == j + line_start(s@.skip(j as int), k - count),
        decreases n - j,
    {
        proof {
            broadcast use lemma_line_breaks_additive;

            assert(s@.take(j as int) + s@.skip(j as int) =~= s@);
            assert(line_breaks(s@.take(j as int) + s@.skip(j as int)) == line_breaks(
                s@.take(j as int),
            ) + line_breaks(s@.skip(j as int)));
            lemma_line_breaks_bounds(s@.skip(j as int));
            assert(j < n);
        }
        let ch = s.get_char(j);
        proof {
            lemma_line_breaks_take_succ(s@, j as int);
            assert(s@.skip(j as int).drop_first() =~= s@.skip(j + 1));
            assert(s@.skip(j as int)[0] == s@[j as int]);
            lemma_line_breaks_bounds(s@.take(j as int));
        }
        if is_line_break_char(ch) {
            count = count + 1;
        }
        j = j + 1;
    }
    j
}

pub proof fn lemma_line_start_mono(s: Seq<char>, k1: int, k2: int)
    requires
        k1 <= k2,
    ensures
        line_start(s, k1) <= line_start(s, k2),
    decreases s.len(),
{
    if k1 > 0 && s.len() > 0 {
        if is_line_break(s[0]) {
            lemma_line_start_mono(s.drop_first(), k1 - 1, k2 - 1);
        } else {
            lemma_line_start_mono(s.drop_first(), k1, k2);
        }
    } else if s.len() > 0 && k2 > 0 {
        lemma_line_start_bounds(s.drop_first(), k2 - 1);
        lemma_line_start_bounds(s.drop_first(), k2);
    }
}

/// The start of the line containing scalar `i` is at or before `i`, and
/// at `i` exactly when `i` is a line start: the document start or the
/// position just after a break.
pub proof fn lemma_line_roundtrip(s: Seq<char>, i: int)
    requires
        0 <= i <= s.len(),
    ensures
        line_start(s, line_breaks(s.take(i))) <= i,
        line_start(s, line_breaks(s.take(i))) == i <==> (i == 0 || is_line_break(s[i - 1])),
    decreases s.len(),
{
    broadcast use lemma_line_breaks_additive;

    if i == 0 {
        assert(s.take(0) =~= Seq::empty());
    } else {
        let d = s.drop_first();
        let k = line_breaks(s.take(i));
        let b0: int = if is_line_break(s[0]) {
            1
        } else {
            0
        };
        assert(s.take(i) =~= seq![s[0]] + d.take(i - 1));
        assert(seq![s[0]].drop_last() =~= Seq::<char>::empty());
        assert(seq![s[0]].last() == s[0]);
        assert(line_breaks(seq![s[0]].drop_last()) == 0);
        assert(line_breaks(seq![s[0]]) == b0);
        assert(line_breaks(seq![s[0]] + d.take(i - 1)) == b0 + line_breaks(d.take(i - 1)));
        let kp = line_breaks(d.take(i - 1));
        lemma_line_breaks_bounds(d.take(i - 1));
        lemma_line_roundtrip(d, i - 1);
        if k == 0 {
            assert(b0 == 0);
            lemma_line_breaks_take_succ(s, i - 1);
            lemma_line_breaks_bounds(s.take(i - 1));
            assert(!is_line_break(s[i - 1]));
        } else {
            assert(line_start(s, k) == 1 + line_start(d, kp));
            if i == 1 {
                assert(kp == 0);
                assert(d.take(0) =~= Seq::empty());
            } else {
                assert(d[i - 2] == s[i - 1]);
            }
        }
    }
}

} // verus!
