//! An immutable view into part of a rope: a handle to the deepest
//! subtree wholly containing the requested char range, together with the
//! range's byte, char and line-break bounds local to that subtree.

use vstd::prelude::*;

verus! {

use std::sync::Arc;
use crate::child_array::{ChildArray, Metric, prefix_metric};
use crate::node::{Node, arc_clone, node_text, node_depth, node_wf_lo, seq_text, child_text,
    lemma_internal_setup, lemma_wf_sums_fit, lemma_full_metrics, lemma_text_decompose};
use crate::rope::Rope;
use crate::text_info::{byte_len, line_breaks, line_start, lemma_byte_len_additive,
    lemma_line_breaks_additive, lemma_byte_len_bounds, lemma_line_breaks_bounds,
    lemma_ls_concat_lo, lemma_ls_concat_hi, lemma_line_roundtrip, lemma_line_start_mono,
    lemma_line_start_bounds};
use crate::grapheme::grapheme_break_at;

broadcast use lemma_byte_len_additive, lemma_line_breaks_additive;

/// An immutable view into part of a rope.
pub struct RopeSlice {
    pub node: Arc<Node>,
    pub start_byte: usize,
    pub end_byte: usize,
    pub start_char: usize,
    pub end_char: usize,
    pub start_line_break: usize,
    pub end_line_break: usize,
}

impl RopeSlice {
    /// The text of the whole subtree the view hangs on.
    pub open spec fn full(self) -> Seq<char> {
        node_text(*self.node)
    }

    /// The text the view presents.
    pub open spec fn stext(self) -> Seq<char> {
        self.full().subrange(self.start_char as int, self.end_char as int)
    }

    /// The subtree is well-formed and the six bounds are the range's
    /// byte, char and line-break offsets in it.
    pub open spec fn wf(self) -> bool {
        &&& node_wf_lo(*self.node, 0)
        &&& byte_len(self.full()) < usize::MAX
        &&& self.start_char <= self.end_char <= self.full().len()
        &&& self.start_byte == byte_len(self.full().take(self.start_char as int))
        &&& self.end_byte == byte_len(self.full().take(self.end_char as int))
        &&& self.start_line_break == line_breaks(self.full().take(self.start_char as int))
        &&& self.end_line_break == line_breaks(self.full().take(self.end_char as int))
    }

    /// No single child of the view's node wholly contains the range: the
    /// chosen subtree is the deepest one.
    pub open spec fn is_deepest(self) -> bool {
        match *self.node {
            Node::Internal(ca) => forall|j: int|
                0 <= j < ca.nodes@.len() ==> !(seq_text(#[trigger] ca.nodes@.take(j)).len()
                    <= self.start_char && self.end_char < seq_text(ca.nodes@.take(j)).len()
                    + child_text(ca.nodes@, j).len()),
            _ => true,
        }
    }

    /// A view of a whole subtree.
    pub fn new(node: &Arc<Node>) -> (r: RopeSlice)
        requires
            node_wf_lo(**node, 0),
            byte_len(node_text(**node)) < usize::MAX,
        ensures
            r.wf(),
            r.stext() == node_text(**node),
    {
        let n: &Node = node;
        let info = n.text_info();
        proof {
            let t = node_text(*n);
            assert(t.take(0) =~= Seq::<char>::empty());
            assert(t.take(t.len() as int) =~= t);
            assert(t.subrange(0, t.len() as int) =~= t);
        }
        RopeSlice {
            node: arc_clone(node),
            start_byte: 0,
            end_byte: info.bytes,
            start_char: 0,
            end_char: info.chars,
            start_line_break: 0,
            end_line_break: info.line_breaks,
        }
    }

    /// A view of the char range `[start, end)` of a subtree, hung on the
    /// deepest node that wholly contains the range.
    pub fn new_with_range(node: &Arc<Node>, start: usize, end: usize) -> (r: RopeSlice)
        requires
            node_wf_lo(**node, 0),
            byte_len(node_text(**node)) < usize::MAX,
            start <= end <= node_text(**node).len(),
        ensures
            r.wf(),
            r.is_deepest(),
            r.stext() == node_text(**node).subrange(start as int, end as int),
    {
        let mut cur: Arc<Node> = arc_clone(node);
        let mut s = start;
        let mut e = end;
        loop
            invariant
                node_wf_lo(*cur, 0),
                byte_len(node_text(*cur)) < usize::MAX,
                s <= e <= node_text(*cur).len(),
                node_text(*cur).subrange(s as int, e as int) == node_text(**node).subrange(
                    start as int,
                    end as int,
                ),
            decreases node_depth(*cur),
        {
            let cur_ref: &Node = &cur;
            let ghost d0: int = node_depth(*cur_ref);
            proof {
                lemma_depth_nonneg(*cur_ref);
            }
            let descend: Option<usize> = match cur_ref {
                Node::Internal(ca) => {
                    proof {
                        lemma_wf_sums_fit(*ca);
                        lemma_full_metrics(*ca);
                    }
                    find_containing_child(ca, s, e)
                },
                _ => None,
            };
            match descend {
                Some(j) => {
                    let cur2 = match cur_ref {
                        Node::Internal(ca) => {
                            let inf = ca.info[j];
                            proof {
                                lemma_internal_setup(*ca, j as int);
                                let pre = seq_text(ca.nodes@.take(j as int));
                                let ct = child_text(ca.nodes@, j as int);
                                assert(node_text(*cur).subrange(s as int, e as int) =~= ct.subrange(
                                    s - pre.len(),
                                    e - pre.len(),
                                ));
                                assert(node_depth(*ca.nodes@[j as int]) == node_depth(
                                    *ca.nodes@[0],
                                ));
                                assert(node_depth(*cur) == 1 + node_depth(*ca.nodes@[0]));
                            }
                            let c0 = prefix_chars_exec(ca, j);
                            let nxt = arc_clone(&ca.nodes[j]);
                            s = s - c0;
                            e = e - c0;
                            nxt
                        },
                        _ => {
                            proof {
                                assert(false);
                            }
                            arc_clone(&cur)
                        },
                    };
                    cur = cur2;
                    let nr: &Node = &cur;
                    proof {
                        lemma_depth_nonneg(*nr);
                        assert(node_depth(*cur) == d0 - 1);
                    }
                },
                None => {
                    let cur_node: &Node = &cur;
                    let start_byte = cur_node.char_to_byte(s);
                    let end_byte = cur_node.char_to_byte(e);
                    let start_line_break = cur_node.char_to_line(s);
                    let end_line_break = cur_node.char_to_line(e);
                    return RopeSlice {
                        node: cur,
                        start_byte,
                        end_byte,
                        start_char: s,
                        end_char: e,
                        start_line_break,
                        end_line_break,
                    };
                },
            }
        }
    }

    /// Total number of bytes in the view.
    pub fn len_bytes(&self) -> (r: usize)
        requires
            self.wf(),
        ensures
            r == byte_len(self.stext()),
    {
        proof {
            self.lemma_bounds();
        }
        self.end_byte - self.start_byte
    }

    /// Total number of chars in the view.
    pub fn len_chars(&self) -> (r: usize)
        requires
            self.wf(),
        ensures
            r == self.stext().len(),
    {
        self.end_char - self.start_char
    }

    /// Total number of lines in the view: line breaks plus one.
    pub fn len_lines(&self) -> (r: usize)
        requires
            self.wf(),
        ensures
            r == line_breaks(self.stext()) + 1,
    {
        proof {
            self.lemma_bounds();
            lemma_byte_len_bounds(self.full());
            lemma_line_breaks_bounds(self.full());
            lemma_byte_len_bounds(self.full().take(self.end_char as int));
            lemma_line_breaks_bounds(self.full().take(self.end_char as int));
        }
        self.end_line_break - self.start_line_break + 1
    }

    /// The range's metrics are differences of the stored bounds.
    proof fn lemma_bounds(self)
        requires
            self.wf(),
        ensures
            byte_len(self.stext()) == self.end_byte - self.start_byte,
            line_breaks(self.stext()) == self.end_line_break - self.start_line_break,
            self.start_byte <= self.end_byte,
            self.start_line_break <= self.end_line_break,
    {
        let f = self.full();
        let a = self.start_char as int;
        let b = self.end_char as int;
        assert(f.take(a) + f.subrange(a, b) =~= f.take(b));
        assert(byte_len(f.take(a) + f.subrange(a, b)) == byte_len(f.take(a)) + byte_len(
            f.subrange(a, b),
        ));
        assert(line_breaks(f.take(a) + f.subrange(a, b)) == line_breaks(f.take(a)) + line_breaks(
            f.subrange(a, b),
        ));
        lemma_byte_len_bounds(f.subrange(a, b));
        lemma_line_breaks_bounds(f.subrange(a, b));
    }

    /// Returns the line index of the given char: the number of line
    /// breaks before it, or the line count at the very end of the view.
    pub fn char_to_line(&self, char_idx: usize) -> (r: usize)
        requires
            self.wf(),
            char_idx <= self.stext().len(),
        ensures
            char_idx < self.stext().len() ==> r == line_breaks(self.stext().take(char_idx as int)),
            char_idx == self.stext().len() ==> r == line_breaks(self.stext()) + 1,
    {
        let n = self.len_chars();
        if char_idx == n {
            self.len_lines()
        } else {
            let raw = self.node.char_to_line(self.start_char + char_idx);
            proof {
                self.lemma_bounds();
                let f = self.full();
                let a = self.start_char as int;
                assert(f.take(a) + self.stext().take(char_idx as int) =~= f.take(
                    a + char_idx,
                ));
                assert(line_breaks(f.take(a) + self.stext().take(char_idx as int)) == line_breaks(
                    f.take(a),
                ) + line_breaks(self.stext().take(char_idx as int)));
                lemma_line_breaks_bounds(self.stext().take(char_idx as int));
            }
            raw - self.start_line_break
        }
    }

    /// Returns the char index of the start of the given line; line
    /// `len_lines()` maps to the end of the view.
    pub fn line_to_char(&self, line_idx: usize) -> (r: usize)
        requires
            self.wf(),
            line_idx <= line_breaks(self.stext()) + 1,
        ensures
            line_idx <= line_breaks(self.stext()) ==> r == line_start(
                self.stext(),
                line_idx as int,
            ),
            line_idx == line_breaks(self.stext()) + 1 ==> r == self.stext().len(),
    {
        let nl = self.len_lines();
        if line_idx == nl {
            return self.len_chars();
        }
        proof {
            self.lemma_bounds();
            lemma_line_breaks_bounds(self.full());
            lemma_byte_len_bounds(self.full());
            lemma_line_breaks_bounds(self.full().take(self.start_char as int));
            let f = self.full();
            let a = self.start_char as int;
            assert(f.take(a) + f.skip(a) =~= f);
            assert(line_breaks(f.take(a) + f.skip(a)) == line_breaks(f.take(a)) + line_breaks(
                f.skip(a),
            ));
            assert(self.stext() + f.skip(self.end_char as int) =~= f.skip(a));
            assert(line_breaks(self.stext() + f.skip(self.end_char as int)) == line_breaks(
                self.stext(),
            ) + line_breaks(f.skip(self.end_char as int)));
            lemma_line_breaks_bounds(f.skip(self.end_char as int));
        }
        let raw = self.node.line_to_char(self.start_line_break + line_idx);
        proof {
            let f = self.full();
            let a = self.start_char as int;
            let k = line_idx as int;
            if k == 0 {
                lemma_line_roundtrip(f, a);
                lemma_line_start_mono(f, line_breaks(f.take(a)), line_breaks(f.take(a)));
            } else {
                lemma_ls_concat_hi(f.take(a), f.skip(a), self.start_line_break + k);
                assert(f.take(a) + f.skip(a) =~= f);
                lemma_ls_concat_lo(self.stext(), f.skip(self.end_char as int), k);
                assert(self.stext() + f.skip(self.end_char as int) =~= f.skip(a));
                lemma_line_start_bounds(self.stext(), k);
            }
        }
        if raw < self.start_char {
            proof {
                assert(line_idx == 0);
            }
            0
        } else {
            raw - self.start_char
        }
    }

    /// Returns the char at `char_idx`.
    pub fn char(&self, char_idx: usize) -> (r: char)
        requires
            self.wf(),
            char_idx < self.stext().len(),
        ensures
            r == self.stext()[char_idx as int],
    {
        let p = self.start_char + char_idx;
        let one = self.node.to_string_range(p, p + 1);
        proof {
            assert(one@.len() == 1);
            assert(one@[0] == self.stext()[char_idx as int]);
        }
        one.as_str().get_char(0)
    }

    /// Returns the line at `line_idx`, as a sub-view ending just after
    /// its break (or at the end of the view for the last line).
    pub fn line(&self, line_idx: usize) -> (r: RopeSlice)
        requires
            self.wf(),
            line_idx <= line_breaks(self.stext()),
        ensures
            r.wf(),
            r.stext() == self.stext().subrange(
                line_start(self.stext(), line_idx as int),
                if line_idx == line_breaks(self.stext()) {
                    self.stext().len() as int
                } else {
                    line_start(self.stext(), line_idx + 1)
                },
            ),
    {
        proof {
            self.lemma_bounds();
            lemma_line_breaks_bounds(self.stext());
            lemma_byte_len_bounds(self.stext());
            crate::text_info::lemma_byte_len_take_mono(
                self.full(),
                self.end_char as int,
                self.full().len() as int,
            );
            assert(self.full().take(self.full().len() as int) =~= self.full());
        }
        let a = self.line_to_char(line_idx);
        let b = self.line_to_char(line_idx + 1);
        proof {
            lemma_line_start_bounds(self.stext(), line_idx as int);
            lemma_line_start_bounds(self.stext(), line_idx + 1);
            lemma_line_start_mono(self.stext(), line_idx as int, line_idx + 1);
        }
        self.slice(a, b)
    }

    /// Whether `char_idx` is a grapheme cluster boundary; the ends of
    /// the view count as boundaries.
    pub fn is_grapheme_boundary(&self, char_idx: usize) -> (r: bool)
        requires
            self.wf(),
            char_idx <= self.stext().len(),
        ensures
            0 < char_idx < self.stext().len() ==> r == grapheme_break_at(
                self.full(),
                self.start_char + char_idx,
            ),
            char_idx == 0 || char_idx == self.stext().len() ==> r,
    {
        let n = self.len_chars();
        if char_idx == 0 || char_idx == n {
            true
        } else {
            self.node.is_grapheme_boundary(self.start_char + char_idx)
        }
    }

    /// The boundary to the left of `char_idx`, clamped to the start of
    /// the view.
    pub fn prev_grapheme_boundary(&self, char_idx: usize) -> (r: usize)
        requires
            self.wf(),
            char_idx <= self.stext().len(),
        ensures
            char_idx == 0 ==> r == 0,
            char_idx > 0 ==> r < char_idx,
            char_idx > 0 ==> r == 0 || grapheme_break_at(self.full(), self.start_char + r),
            forall|j: int|
                r < j < char_idx ==> !(#[trigger] grapheme_break_at(
                    self.full(),
                    self.start_char + j,
                )),
    {
        let b = self.node.prev_grapheme_boundary(self.start_char + char_idx);
        if b < self.start_char {
            0
        } else {
            b - self.start_char
        }
    }

    /// The boundary to the right of `char_idx`, clamped to the end of
    /// the view.
    pub fn next_grapheme_boundary(&self, char_idx: usize) -> (r: usize)
        requires
            self.wf(),
            char_idx <= self.stext().len(),
        ensures
            char_idx == self.stext().len() ==> r == char_idx,
            char_idx < self.stext().len() ==> char_idx < r <= self.stext().len(),
            char_idx < self.stext().len() ==> r == self.stext().len() || grapheme_break_at(
                self.full(),
                self.start_char + r,
            ),
            forall|j: int|
                char_idx < j < r ==> !(#[trigger] grapheme_break_at(
                    self.full(),
                    self.start_char + j,
                )),
    {
        let n = self.len_chars();
        if char_idx == n {
            return char_idx;
        }
        let b = self.node.next_grapheme_boundary(self.start_char + char_idx);
        if b >= self.end_char {
            n
        } else {
            b - self.start_char
        }
    }

    /// A sub-view of the char range `[start, end)` of this view.
    pub fn slice(&self, start: usize, end: usize) -> (r: RopeSlice)
        requires
            self.wf(),
            start <= end <= self.stext().len(),
        ensures
            r.wf(),
            r.is_deepest(),
            r.stext() == self.stext().subrange(start as int, end as int),
    {
        let r = RopeSlice::new_with_range(&self.node, self.start_char + start, self.start_char
            + end);
        proof {
            assert(self.full().subrange(
                self.start_char + start,
                self.start_char + end,
            ) =~= self.stext().subrange(start as int, end as int));
        }
        r
    }

    /// The leaf chunks covering the view; their concatenation is its
    /// text.
    pub fn chunks(&self) -> (r: Vec<String>)
        requires
            self.wf(),
        ensures
            crate::node::concat_strs(r@) == self.stext(),
    {
        let mut out: Vec<String> = Vec::new();
        self.node.collect_chunks(self.start_char, self.end_char, &mut out);
        proof {
            assert(crate::node::concat_strs(Seq::<String>::empty()) + self.stext() =~= self.stext());
        }
        out
    }

    /// The view's scalars, in order.
    pub fn chars(&self) -> (r: Vec<char>)
        requires
            self.wf(),
        ensures
            r@ == self.stext(),
    {
        let t = self.to_string();
        let n = t.as_str().unicode_len();
        let mut out: Vec<char> = Vec::new();
        let mut i: usize = 0;
        while i < n
            invariant
                i <= n,
                n == t@.len(),
                out@ == t@.take(i as int),
            decreases n - i,
        {
            out.push(t.as_str().get_char(i));
            proof {
                assert(out@ =~= t@.take(i + 1));
            }
            i = i + 1;
        }
        proof {
            assert(t@.take(n as int) =~= t@);
        }
        out
    }

    /// The view's extended grapheme clusters, in order: nonempty pieces
    /// whose concatenation is the text, cut exactly at the cluster
    /// boundaries with none inside a piece.
    pub fn graphemes(&self) -> (r: Vec<String>)
        requires
            self.wf(),
        ensures
            crate::node::concat_strs(r@) == self.stext(),
            forall|k: int| 0 <= k < r@.len() ==> (#[trigger] r@[k])@.len() > 0,
            forall|k: int|
                0 < k < r@.len() ==> grapheme_break_at(
                    self.stext(),
                    crate::node::concat_strs(#[trigger] r@.take(k)).len() as int,
                ),
            forall|k: int, j: int|
                #![trigger r@.take(k), grapheme_break_at(self.stext(), j)]
                0 <= k < r@.len() && crate::node::concat_strs(r@.take(k)).len() < j
                    < crate::node::concat_strs(r@.take(k + 1)).len() ==> !grapheme_break_at(
                    self.stext(),
                    j,
                ),
    {
        let t = self.to_string();
        let n = t.as_str().unicode_len();
        let mut out: Vec<String> = Vec::new();
        let mut p: usize = 0;
        proof {
            assert(t@.take(0) =~= Seq::<char>::empty());
        }
        while p < n
            invariant
                p <= n,
                n == t@.len(),
                crate::node::concat_strs(out@) == t@.take(p as int),
                out@.len() > 0 ==> p > 0,
                p == 0 || grapheme_break_at(t@, p as int),
                forall|k: int| 0 <= k < out@.len() ==> (#[trigger] out@[k])@.len() > 0,
                forall|k: int|
                    0 < k < out@.len() ==> grapheme_break_at(
                        t@,
                        crate::node::concat_strs(#[trigger] out@.take(k)).len() as int,
                    ),
                forall|k: int, j: int|
                    #![trigger out@.take(k), grapheme_break_at(t@, j)]
                    0 <= k < out@.len() && crate::node::concat_strs(out@.take(k)).len() < j
                        < crate::node::concat_strs(out@.take(k + 1)).len() ==> !grapheme_break_at(
                        t@,
                        j,
                    ),
                crate::node::concat_strs(out@.take(out@.len() as int)) == t@.take(p as int),
            decreases n - p,
        {
            let q = crate::grapheme::str_next_grapheme_boundary(t.as_str(), p);
            let piece = t.as_str().substring_char(p, q).to_owned();
            let ghost prev = out@;
            out.push(piece);
            proof {
                crate::node::lemma_concat_strs_push(prev, out@.last());
                assert(out@ =~= prev.push(out@.last()));
                assert(t@.take(p as int) + t@.subrange(p as int, q as int) =~= t@.take(q as int));
                assert(forall|k: int|
                    0 <= k <= prev.len() ==> #[trigger] out@.take(k) =~= prev.take(k));
                assert(out@.take(out@.len() as int) =~= out@);
                assert(prev.take(prev.len() as int) =~= prev);
                assert(crate::node::concat_strs(out@.take(prev.len() as int)).len() == p);
            }
            p = q;
        }
        proof {
            assert(t@.take(n as int) =~= t@);
            assert(forall|k: int| 0 <= k <= out@.len() ==> #[trigger] out@.take(k) =~= out@.take(k));
        }
        out
    }

    /// The view's lines, in order: every piece but the last ends with its
    /// one line break, the last holds none; their concatenation is the
    /// text.
    pub fn lines(&self) -> (r: Vec<String>)
        requires
            self.wf(),
        ensures
            crate::node::concat_strs(r@) == self.stext(),
            r@.len() == line_breaks(self.stext()) + 1,
            forall|k: int|
                0 <= k < r@.len() - 1 ==> (#[trigger] r@[k])@.len() > 0 && crate::text_info::is_line_break(
                    r@[k]@.last(),
                ) && line_breaks(r@[k]@) == 1,
            line_breaks(r@[r@.len() - 1]@) == 0,
    {
        let t = self.to_string();
        let n = t.as_str().unicode_len();
        let mut out: Vec<String> = Vec::new();
        let mut begin: usize = 0;
        let mut i: usize = 0;
        proof {
            assert(t@.take(0) =~= Seq::<char>::empty());
            crate::text_info::lemma_line_breaks_bounds(t@);
        }
        while i < n
            invariant
                begin <= i <= n,
                n == t@.len(),
                crate::node::concat_strs(out@) == t@.take(begin as int),
                out@.len() == line_breaks(t@.take(i as int)),
                line_breaks(t@.take(begin as int)) == line_breaks(t@.take(i as int)),
                forall|k: int|
                    0 <= k < out@.len() ==> (#[trigger] out@[k])@.len() > 0
                        && crate::text_info::is_line_break(out@[k]@.last()) && line_breaks(
                        out@[k]@,
                    ) == 1,
            decreases n - i,
        {
            let c = t.as_str().get_char(i);
            proof {
                crate::text_info::lemma_line_breaks_take_succ(t@, i as int);
            }
            if crate::text_info::is_line_break_char(c) {
                let piece = t.as_str().substring_char(begin, i + 1).to_owned();
                let ghost prev = out@;
                out.push(piece);
                proof {
                    crate::node::lemma_concat_strs_push(prev, out@.last());
                    assert(out@ =~= prev.push(out@.last()));
                    assert(t@.take(begin as int) + t@.subrange(begin as int, i + 1) =~= t@.take(
                        i + 1,
                    ));
                    // the piece holds exactly its trailing break
                    assert(line_breaks(t@.take(begin as int)) + line_breaks(
                        t@.subrange(begin as int, i + 1),
                    ) == line_breaks(t@.take(i + 1)));
                    assert(out@.last()@.last() == t@[i as int]);
                    assert(forall|k: int|
                        0 <= k < prev.len() ==> #[trigger] out@[k] == prev[k]);
                }
                begin = i + 1;
            }
            i = i + 1;
        }
        let last = t.as_str().substring_char(begin, n).to_owned();
        let ghost prev = out@;
        out.push(last);
        proof {
            crate::node::lemma_concat_strs_push(prev, out@.last());
            assert(out@ =~= prev.push(out@.last()));
            assert(t@.take(begin as int) + t@.subrange(begin as int, n as int) =~= t@.take(
                n as int,
            ));
            assert(t@.take(n as int) =~= t@);
            // the final piece holds no break
            assert(line_breaks(t@.take(begin as int)) + line_breaks(
                t@.subrange(begin as int, n as int),
            ) == line_breaks(t@.take(n as int)));
            assert(forall|k: int| 0 <= k < prev.len() ==> #[trigger] out@[k] == prev[k]);
        }
        out
    }

    /// The view's UTF-8 bytes, in order.
    pub fn bytes(&self) -> (r: Vec<u8>)
        requires
            self.wf(),
        ensures
            r@ == vstd::utf8::encode_utf8(self.stext()),
    {
        let t = self.to_string();
        t.as_str().as_bytes_vec()
    }

    /// The entire text of the view as a newly allocated string.
    pub fn to_string(&self) -> (r: String)
        requires
            self.wf(),
        ensures
            r@ == self.stext(),
    {
        self.node.to_string_range(self.start_char, self.end_char)
    }

    /// A new rope holding the view's text.
    pub fn to_rope(&self) -> (r: Rope)
        requires
            self.wf(),
        ensures
            r.wf(),
            r.text() == self.stext(),
    {
        let t = self.to_string();
        proof {
            self.lemma_bounds();
            lemma_byte_len_bounds(self.full());
            crate::text_info::lemma_byte_len_take_mono(
                self.full(),
                self.end_char as int,
                self.full().len() as int,
            );
            assert(self.full().take(self.full().len() as int) =~= self.full());
        }
        Rope::from_str(t.as_str())
    }

    /// Content equality with another view, regardless of leaf layout.
    pub fn eq_slice(&self, other: &RopeSlice) -> (r: bool)
        requires
            self.wf(),
            other.wf(),
        ensures
            r == (self.stext() == other.stext()),
    {
        if self.len_bytes() != other.len_bytes() {
            proof {
                if self.stext() == other.stext() {
                    assert(byte_len(self.stext()) == byte_len(other.stext()));
                }
            }
            return false;
        }
        let a = self.to_string();
        let b = other.to_string();
        a == b
    }

    /// Content equality with a string.
    pub fn eq_str(&self, other: &str) -> (r: bool)
        requires
            self.wf(),
        ensures
            r == (self.stext() == other@),
    {
        let a = self.to_string();
        let b = other.to_owned();
        a == b
    }

    /// Content equality with a rope.
    pub fn eq_rope(&self, other: &Rope) -> (r: bool)
        requires
            self.wf(),
            other.wf(),
        ensures
            r == (self.stext() == other.text()),
    {
        let a = self.to_string();
        let b = other.to_string();
        a == b
    }
}

impl Rope {
    /// A view of the char range `[start, end)`.
    pub fn slice(&self, start: usize, end: usize) -> (r: RopeSlice)
        requires
            self.wf(),
            start <= end <= self.text().len(),
        ensures
            r.wf(),
            r.is_deepest(),
            r.stext() == self.text().subrange(start as int, end as int),
    {
        RopeSlice::new_with_range(&self.root, start, end)
    }

    /// A view of the whole rope.
    pub fn to_slice(&self) -> (r: RopeSlice)
        requires
            self.wf(),
        ensures
            r.wf(),
            r.stext() == self.text(),
    {
        RopeSlice::new(&self.root)
    }
}

/// Depths are never negative.
pub proof fn lemma_depth_nonneg(n: Node)
    ensures
        node_depth(n) >= 0,
    decreases n,
{
    match n {
        Node::Internal(ca) => {
            if ca.nodes@.len() > 0 {
                assert(node_depth(*ca.nodes@[0]) >= 0) by {
                    lemma_depth_nonneg(*ca.nodes@[0]);
                }
            }
        },
        _ => {},
    }
}

/// The index of the unique child whose char range wholly contains
/// `[s, e)`, if any.
fn find_containing_child(ca: &ChildArray, s: usize, e: usize) -> (r: Option<usize>)
    requires
        node_wf_lo(Node::Internal(*ca), 0),
        s <= e,
    ensures
        match r {
            Some(j) => {
                &&& 0 <= j < ca.nodes@.len()
                &&& seq_text(ca.nodes@.take(j as int)).len() <= s
                &&& e < seq_text(ca.nodes@.take(j as int)).len() + child_text(
                    ca.nodes@,
                    j as int,
                ).len()
            },
            None => forall|j: int|
                0 <= j < ca.nodes@.len() ==> !(seq_text(#[trigger] ca.nodes@.take(j)).len() <= s
                    && e < seq_text(ca.nodes@.take(j)).len() + child_text(ca.nodes@, j).len()),
        },
{
    let n = ca.len();
    let mut j: usize = 0;
    let mut c0: usize = 0;
    proof {
        lemma_wf_sums_fit(*ca);
        lemma_full_metrics(*ca);
        crate::node::lemma_prefix_metrics(*ca, 0);
    }
    while j < n
        invariant
            j <= n,
            n == ca.nodes@.len(),
            node_wf_lo(Node::Internal(*ca), 0),
            s <= e,
            c0 == seq_text(ca.nodes@.take(j as int)).len(),
            forall|t: int|
                0 <= t < j ==> !(seq_text(#[trigger] ca.nodes@.take(t)).len() <= s && e < seq_text(
                    ca.nodes@.take(t),
                ).len() + child_text(ca.nodes@, t).len()),
        decreases n - j,
    {
        proof {
            lemma_internal_setup(*ca, j as int);
            crate::node::lemma_prefix_metrics(*ca, j as int);
            crate::node::lemma_prefix_metrics(*ca, j + 1);
            assert(ca.nodes@.take(j + 1).drop_last() =~= ca.nodes@.take(j as int));
            assert(*ca.nodes@.take(j + 1).last() == *ca.nodes@[j as int]);
            assert(seq_text(ca.nodes@.take(j + 1)) == seq_text(ca.nodes@.take(j as int))
                + child_text(ca.nodes@, j as int));
        }
        proof {
            crate::child_array::lemma_prefix_metric_mono(
                Metric::Chars,
                ca.info@,
                j + 1,
                ca.nodes@.len() as int,
            );
        }
        let inf = ca.info[j];
        if s >= c0 && e < c0 + inf.chars {
            return Some(j);
        }
        c0 = c0 + inf.chars;
        j = j + 1;
    }
    None
}

/// The char offset of child `j`: the chars of the children before it.
fn prefix_chars_exec(ca: &ChildArray, j: usize) -> (r: usize)
    requires
        node_wf_lo(Node::Internal(*ca), 0),
        j <= ca.nodes@.len(),
    ensures
        r == seq_text(ca.nodes@.take(j as int)).len(),
{
    let mut i: usize = 0;
    let mut c0: usize = 0;
    proof {
        lemma_wf_sums_fit(*ca);
        lemma_full_metrics(*ca);
        crate::node::lemma_prefix_metrics(*ca, 0);
    }
    while i < j
        invariant
            i <= j <= ca.nodes@.len(),
            node_wf_lo(Node::Internal(*ca), 0),
            c0 == seq_text(ca.nodes@.take(i as int)).len(),
        decreases j - i,
    {
        proof {
            lemma_internal_setup(*ca, i as int);
            crate::node::lemma_prefix_metrics(*ca, i as int);
            crate::node::lemma_prefix_metrics(*ca, i + 1);
            crate::child_array::lemma_prefix_metric_mono(
                Metric::Chars,
                ca.info@,
                i + 1,
                ca.nodes@.len() as int,
            );
            assert(ca.nodes@.take(i + 1).drop_last() =~= ca.nodes@.take(i as int));
            assert(*ca.nodes@.take(i + 1).last() == *ca.nodes@[i as int]);
            assert(seq_text(ca.nodes@.take(i + 1)) == seq_text(ca.nodes@.take(i as int))
                + child_text(ca.nodes@, i as int));
        }
        c0 = c0 + ca.info[i].chars;
        i = i + 1;
    }
    c0
}

} // verus!
