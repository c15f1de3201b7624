//! The rope: a shared handle to the tree root, with edits, queries and
//! slicing.  Cloning is O(1); edits are copy-on-write, so clones and
//! slices keep their snapshot.

use vstd::prelude::*;

verus! {

use std::sync::Arc;
use crate::child_array::ChildArray;
use crate::node::{Node, arc_clone, node_copy, node_text, node_depth, node_wf, node_wf_lo, root_wf, spliced,
    seq_text, lemma_text_decompose, lemma_wf_integrity, summaries_consistent, concat_strs,
    chunk_boundary, cb_seq, lemma_cb_lift, MAX_CHILDREN};
use crate::text_info::{byte_len, line_breaks, lemma_byte_len_additive, lemma_byte_len_bounds,
    lemma_byte_len_take_mono, lemma_line_breaks_bounds};

broadcast use lemma_byte_len_additive;

/// How many scalars of the source each builder step inserts; small enough
/// that a step's bytes stay within one leaf split.
pub const BUILD_STEP: usize = 83;

#[derive(Debug)]
pub struct Rope {
    pub root: Arc<Node>,
}

impl Rope {
    /// The text this rope stores.
    pub open spec fn text(self) -> Seq<char> {
        node_text(*self.root)
    }

    /// A usable rope: a well-formed root whose total bytes fit the
    /// machine.
    pub open spec fn wf(self) -> bool {
        &&& root_wf(*self.root)
        &&& byte_len(self.text()) < usize::MAX
    }

    /// Creates an empty rope.
    pub fn new() -> (r: Rope)
        ensures
            r.wf(),
            r.text() == Seq::<char>::empty(),
    {
        Rope { root: Arc::new(Node::new()) }
    }

    /// A cheap second handle to the same snapshot.
    pub fn fork(&self) -> (r: Rope)
        ensures
            r.wf() == self.wf(),
            r.text() == self.text(),
    {
        Rope { root: arc_clone(&self.root) }
    }

    /// Total number of chars.
    pub fn len_chars(&self) -> (r: usize)
        requires
            self.wf(),
        ensures
            r == self.text().len(),
    {
        self.root.char_count()
    }

    /// Total number of bytes.
    pub fn len_bytes(&self) -> (r: usize)
        requires
            self.wf(),
        ensures
            r == byte_len(self.text()),
    {
        self.root.byte_count()
    }

    /// Total number of lines: one more than the number of line breaks.
    pub fn len_lines(&self) -> (r: usize)
        requires
            self.wf(),
        ensures
            r == line_breaks(self.text()) + 1,
    {
        proof {
            lemma_line_breaks_bounds(self.text());
            lemma_byte_len_bounds(self.text());
        }
        self.root.line_break_count() + 1
    }

    /// Inserts `text` at char index `char_idx`, splitting the root and
    /// growing the tree by one level when the root overflows.
    pub fn insert(&mut self, char_idx: usize, text: &str)
        requires
            old(self).wf(),
            char_idx <= old(self).text().len(),
            byte_len(old(self).text()) + byte_len(text@) < usize::MAX,
        ensures
            final(self).wf(),
            final(self).text() == spliced(old(self).text(), char_idx as int, text@),
    {
        let ghost target = spliced(old(self).text(), char_idx as int, text@);
        proof {
            let ot = old(self).text();
            assert(ot.take(char_idx as int) + ot.skip(char_idx as int) =~= ot);
            assert(byte_len(ot.take(char_idx as int)) + byte_len(ot.skip(char_idx as int))
                == byte_len(ot));
            assert(byte_len(ot.take(char_idx as int) + text@) == byte_len(
                ot.take(char_idx as int),
            ) + byte_len(text@));
            assert(byte_len((ot.take(char_idx as int) + text@) + ot.skip(char_idx as int))
                == byte_len(ot.take(char_idx as int) + text@) + byte_len(
                ot.skip(char_idx as int),
            ));
            assert(byte_len(target) == byte_len(ot) + byte_len(text@));
        }
        let r: &Node = &self.root;
        let mut owned = node_copy(r);
        let (residual, seam) = owned.insert(char_idx, text);
        proof {
            lemma_byte_len_bounds(node_text(owned));
        }
        match residual {
            None => {
                self.root = Arc::new(owned);
                proof {
                    if seam is Some {
                        assert(chunk_boundary(*self.root, seam->0 as int));
                    }
                }
            },
            Some(res) => {
                let ghost resv = res;
                proof {
                    lemma_byte_len_bounds(node_text(res));
                    assert(byte_len(node_text(owned) + node_text(resv)) == byte_len(
                        node_text(owned),
                    ) + byte_len(node_text(resv)));
                }
                let left_info = owned.text_info();
                let right_info = res.text_info();
                let mut ca = ChildArray::new();
                let ghost ownedv = owned;
                ca.push((left_info, Arc::new(owned)));
                ca.push((right_info, Arc::new(res)));
                proof {
                    let ns = ca.nodes@;
                    assert(ns.len() == 2);
                    assert(*ns[0] == ownedv);
                    assert(*ns[1] == resv);
                    lemma_text_decompose(ns, 0);
                    assert(ns.take(0) =~= Seq::empty());
                    assert(ns.skip(1).drop_last() =~= Seq::empty());
                    assert(*ns.skip(1).last() == *ns[1]);
                    assert(seq_text(ns.skip(1)) == seq_text(Seq::empty()) + node_text(*ns[1]));
                    assert(seq_text(ns) =~= node_text(ownedv) + node_text(resv));
                    assert(seq_text(ns) == target);
                    assert(byte_len(seq_text(ns)) <= usize::MAX);
                    assert(node_wf_lo(*ns[0], crate::node::MIN_CHILDREN as int));
                    assert(node_wf_lo(*ns[1], crate::node::MIN_CHILDREN as int));
                    assert(!(*ns[0] is Empty));
                    assert(!(*ns[1] is Empty));
                    assert(node_depth(*ns[0]) == node_depth(*ns[0]));
                    assert(node_depth(*ns[1]) == node_depth(*ns[0]));
                    assert(ca.info@[0].summarizes(node_text(*ns[0])));
                    assert(ca.info@[1].summarizes(node_text(*ns[1])));
                    assert(node_wf_lo(Node::Internal(ca), 2));
                    if seam is Some {
                        let b = seam->0 as int;
                        if chunk_boundary(ownedv, b) {
                            lemma_cb_lift(ns, 0, b);
                            assert(ns.take(0) =~= Seq::empty());
                            assert(seq_text(ns.take(0)) == Seq::<char>::empty());
                        } else {
                            assert(byte_len(node_text(ownedv)) <= b && chunk_boundary(
                                resv,
                                b - byte_len(node_text(ownedv)),
                            ));
                            lemma_cb_lift(ns, 1, b - byte_len(node_text(ownedv)));
                            assert(ns.take(1).drop_last() =~= Seq::empty());
                            assert(*ns.take(1).last() == *ns[0]);
                            assert(seq_text(ns.take(1)) == seq_text(Seq::empty()) + node_text(
                                ownedv,
                            ));
                            assert(seq_text(ns.take(1)) =~= node_text(ownedv));
                        }
                        assert(cb_seq(ns, b));
                    }
                }
                self.root = Arc::new(Node::Internal(ca));
            },
        }
        if let Some(b) = seam {
            proof {
                assert(chunk_boundary(*self.root, b as int));
            }
            let r2: &Node = &self.root;
            let mut owned2 = node_copy(r2);
            owned2.fix_grapheme_seam(b);
            self.root = Arc::new(owned2);
        }
    }

    /// Removes the char range `[start, end)`.
    pub fn remove(&mut self, start: usize, end: usize)
        requires
            old(self).wf(),
            start <= end <= old(self).text().len(),
        ensures
            final(self).wf(),
            final(self).text() == old(self).text().take(start as int) + old(self).text().skip(
                end as int,
            ),
    {
        let ghost orig = self.text();
        let n = self.len_chars();
        let mut keep = self.root.to_string_range(0, start);
        let tail = self.root.to_string_range(end, n);
        keep.append(tail.as_str());
        proof {
            assert(orig.subrange(0, start as int) =~= orig.take(start as int));
            assert(orig.subrange(end as int, orig.len() as int) =~= orig.skip(end as int));
            assert(orig.take(start as int) + orig.skip(end as int) =~= keep@);
            lemma_remove_bytes(orig, start as int, end as int);
        }
        let rebuilt = Rope::from_str(keep.as_str());
        self.root = rebuilt.root;
    }

    /// Builds a rope over `s` by successive appends of short steps.
    pub fn from_str(s: &str) -> (r: Rope)
        requires
            byte_len(s@) < usize::MAX,
        ensures
            r.wf(),
            r.text() == s@,
    {
        let total = s.unicode_len();
        let mut rope = Rope::new();
        let mut pos: usize = 0;
        proof {
            assert(s@.take(0) =~= Seq::<char>::empty());
            lemma_byte_len_bounds(s@);
        }
        while pos < total
            invariant
                pos <= total,
                total == s@.len(),
                byte_len(s@) < usize::MAX,
                rope.wf(),
                rope.text() == s@.take(pos as int),
            decreases total - pos,
        {
            let end = if total - pos > BUILD_STEP {
                pos + BUILD_STEP
            } else {
                total
            };
            let chunk = s.substring_char(pos, end);
            proof {
                assert(chunk@ =~= s@.subrange(pos as int, end as int));
                assert(s@.take(pos as int) + chunk@ =~= s@.take(end as int));
                lemma_byte_len_take_mono(s@, end as int, total as int);
                assert(s@.take(total as int) =~= s@);
                assert(byte_len(s@.take(pos as int) + chunk@) == byte_len(s@.take(pos as int))
                    + byte_len(chunk@));
                assert(spliced(s@.take(pos as int), pos as int, chunk@) =~= s@.take(pos as int)
                    + chunk@);
            }
            let cur = rope.len_chars();
            rope.insert(cur, chunk);
            pos = end;
        }
        proof {
            assert(s@.take(total as int) =~= s@);
        }
        rope
    }

    /// The whole text as an owned string.
    pub fn to_string(&self) -> (r: String)
        requires
            self.wf(),
        ensures
            r@ == self.text(),
    {
        let n = self.len_chars();
        let r = self.root.to_string_range(0, n);
        proof {
            assert(self.text().subrange(0, self.text().len() as int) =~= self.text());
        }
        r
    }

    /// The leaf chunks, left to right; their concatenation is the text.
    pub fn chunks(&self) -> (r: Vec<String>)
        requires
            self.wf(),
        ensures
            concat_strs(r@) == self.text(),
    {
        let n = self.len_chars();
        let mut out: Vec<String> = Vec::new();
        self.root.collect_chunks(0, n, &mut out);
        proof {
            assert(self.text().subrange(0, self.text().len() as int) =~= self.text());
            assert(concat_strs(Seq::<String>::empty()) + self.text() =~= self.text());
        }
        out
    }

    /// Content equality with another rope, regardless of leaf layout.
    pub fn eq_rope(&self, other: &Rope) -> (r: bool)
        requires
            self.wf(),
            other.wf(),
        ensures
            r == (self.text() == other.text()),
    {
        let a = self.to_string();
        let b = other.to_string();
        a == b
    }

    /// Content equality with a string.
    pub fn eq_str(&self, other: &str) -> (r: bool)
        requires
            self.wf(),
        ensures
            r == (self.text() == other@),
    {
        let a = self.to_string();
        let b = other.to_owned();
        a == b
    }

    /// Re-checks the stored summaries against the actual subtree metrics.
    pub fn verify_integrity(&self) -> (r: bool)
        requires
            self.wf(),
        ensures
            r == summaries_consistent(*self.root),
    {
        self.root.verify_integrity()
    }
}

/// Total bytes only shrink when a range is removed.
proof fn lemma_remove_bytes(s: Seq<char>, start: int, end: int)
    requires
        0 <= start <= end <= s.len(),
    ensures
        byte_len(s.take(start) + s.skip(end)) <= byte_len(s),
{
    broadcast use lemma_byte_len_additive;

    assert(s.take(start) + s.skip(start) =~= s);
    assert(s.skip(start).take(end - start) + s.skip(start).skip(end - start) =~= s.skip(start));
    assert(s.skip(start).skip(end - start) =~= s.skip(end));
    lemma_byte_len_bounds(s.skip(start).take(end - start));
    assert(byte_len(s.take(start) + s.skip(end)) == byte_len(s.take(start)) + byte_len(
        s.skip(end),
    ));
    assert(byte_len(s.take(start)) + byte_len(s.skip(start)) == byte_len(s));
    assert(byte_len(s.skip(start).take(end - start)) + byte_len(s.skip(start).skip(end - start))
        == byte_len(s.skip(start)));
}


} // verus!
