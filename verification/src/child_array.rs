//! Fixed-capacity parallel arrays of per-child summaries and shared child
//! handles, the slot container of internal tree nodes.
//!
//! The capacity bound is `MAX_CHILDREN`; an explicit length is carried by
//! the vectors themselves.  Contracts are positional, over the views of
//! the two arrays; what they mean for the stored text is derived at the
//! node layer.

use vstd::prelude::*;

verus! {

use std::sync::Arc;
use crate::node::{Node, arc_clone, node_text, node_depth, node_wf_lo, seq_text, child_text, fanout_of,
    lemma_text_decompose, lemma_seq_text_cat, MAX_CHILDREN, MIN_CHILDREN, MAX_BYTES};
use crate::text_info::{byte_len, chars_in_bytes, lemma_byte_len_additive, lemma_byte_len_bounds,
    str_byte_to_char, lemma_cib_bounds};

broadcast use lemma_byte_len_additive;

use crate::text_info::TextInfo;

#[derive(Debug)]
pub struct ChildArray {
    pub info: Vec<TextInfo>,
    pub nodes: Vec<Arc<Node>>,
}

/// Which of the three metrics a combined search scans.
pub enum Metric {
    Bytes,
    Chars,
    LineBreaks,
}

/// The selected field of a summary, as a mathematical integer.
pub open spec fn metric_of(m: Metric, i: TextInfo) -> int {
    match m {
        Metric::Bytes => i.bytes as int,
        Metric::Chars => i.chars as int,
        Metric::LineBreaks => i.line_breaks as int,
    }
}

/// Sum of the selected metric over the first `k` summaries.
pub open spec fn prefix_metric(m: Metric, infos: Seq<TextInfo>, k: int) -> int
    decreases k,
{
    if k <= 0 {
        0
    } else {
        prefix_metric(m, infos, k - 1) + metric_of(m, infos[k - 1])
    }
}

pub proof fn lemma_prefix_metric_mono(m: Metric, infos: Seq<TextInfo>, i: int, j: int)
    requires
        0 <= i <= j,
    ensures
        prefix_metric(m, infos, i) <= prefix_metric(m, infos, j),
    decreases j - i,
{
    if i < j {
        lemma_prefix_metric_mono(m, infos, i, j - 1);
    }
}

impl ChildArray {
    /// Lengths agree and stay within the fan-out capacity.
    pub open spec fn cwf(self) -> bool {
        &&& self.info@.len() == self.nodes@.len()
        &&& self.nodes@.len() <= MAX_CHILDREN
    }

    pub open spec fn spec_len(self) -> int {
        self.nodes@.len() as int
    }

    /// Creates a new empty array.
    pub fn new() -> (r: ChildArray)
        ensures
            r.cwf(),
            r.info@.len() == 0,
            r.nodes@.len() == 0,
    {
        ChildArray { info: Vec::new(), nodes: Vec::new() }
    }

    /// Current length of the array.
    pub fn len(&self) -> (r: usize)
        ensures
            r == self.nodes@.len(),
    {
        self.nodes.len()
    }

    /// Returns whether the array is full or not.
    pub fn is_full(&self) -> (r: bool)
        ensures
            r == (self.nodes@.len() == MAX_CHILDREN),
    {
        self.nodes.len() == MAX_CHILDREN
    }

    /// Returns the info array.
    pub fn info(&self) -> (r: &Vec<TextInfo>)
        ensures
            r@ == self.info@,
    {
        &self.info
    }

    /// Returns the nodes array.
    pub fn nodes(&self) -> (r: &Vec<Arc<Node>>)
        ensures
            r@ == self.nodes@,
    {
        &self.nodes
    }

    /// Gets the `n`-th item's info and a handle to its node.
    pub fn i(&self, n: usize) -> (r: (TextInfo, Arc<Node>))
        requires
            n < self.nodes@.len(),
            n < self.info@.len(),
        ensures
            r.0 == self.info@[n as int],
            r.1 == self.nodes@[n as int],
    {
        (self.info[n], arc_clone(&self.nodes[n]))
    }

    /// Pushes an item onto the end of the array.
    pub fn push(&mut self, item: (TextInfo, Arc<Node>))
        requires
            old(self).nodes@.len() < MAX_CHILDREN,
        ensures
            final(self).info@ == old(self).info@.push(item.0),
            final(self).nodes@ == old(self).nodes@.push(item.1),
    {
        self.info.push(item.0);
        self.nodes.push(item.1);
    }

    /// Pops the last item off the array.
    pub fn pop(&mut self) -> (r: (TextInfo, Arc<Node>))
        requires
            old(self).cwf(),
            old(self).nodes@.len() > 0,
        ensures
            r.0 == old(self).info@.last(),
            r.1 == old(self).nodes@.last(),
            final(self).info@ == old(self).info@.drop_last(),
            final(self).nodes@ == old(self).nodes@.drop_last(),
    {
        let inf = self.info.pop().unwrap();
        let nd = self.nodes.pop().unwrap();
        (inf, nd)
    }

    /// Inserts an item at `idx`, shifting later items right.
    pub fn insert(&mut self, idx: usize, item: (TextInfo, Arc<Node>))
        requires
            old(self).cwf(),
            idx <= old(self).nodes@.len(),
            old(self).nodes@.len() < MAX_CHILDREN,
        ensures
            final(self).info@ == old(self).info@.insert(idx as int, item.0),
            final(self).nodes@ == old(self).nodes@.insert(idx as int, item.1),
    {
        self.info.insert(idx, item.0);
        self.nodes.insert(idx, item.1);
    }

    /// Removes the item at `idx`, shifting later items left.
    pub fn remove(&mut self, idx: usize) -> (r: (TextInfo, Arc<Node>))
        requires
            old(self).cwf(),
            idx < old(self).nodes@.len(),
        ensures
            r.0 == old(self).info@[idx as int],
            r.1 == old(self).nodes@[idx as int],
            final(self).info@ == old(self).info@.remove(idx as int),
            final(self).nodes@ == old(self).nodes@.remove(idx as int),
    {
        let inf = self.info.remove(idx);
        let nd = self.nodes.remove(idx);
        (inf, nd)
    }

    /// Replaces the item at `idx`.
    pub fn set(&mut self, idx: usize, item: (TextInfo, Arc<Node>))
        requires
            old(self).cwf(),
            idx < old(self).nodes@.len(),
        ensures
            final(self).info@ == old(self).info@.update(idx as int, item.0),
            final(self).nodes@ == old(self).nodes@.update(idx as int, item.1),
    {
        vstd::pervasive::VecAdditionalExecFns::set(&mut self.info, idx, item.0);
        vstd::pervasive::VecAdditionalExecFns::set(&mut self.nodes, idx, item.1);
    }

    /// Splits at `idx`, returning the right part.
    pub fn split_off(&mut self, idx: usize) -> (r: ChildArray)
        requires
            old(self).cwf(),
            idx <= old(self).nodes@.len(),
        ensures
            final(self).info@ == old(self).info@.take(idx as int),
            final(self).nodes@ == old(self).nodes@.take(idx as int),
            r.info@ == old(self).info@.skip(idx as int),
            r.nodes@ == old(self).nodes@.skip(idx as int),
    {
        let info_r = self.info.split_off(idx);
        let nodes_r = self.nodes.split_off(idx);
        proof {
            assert(self.info@ =~= old(self).info@.take(idx as int));
            assert(self.nodes@ =~= old(self).nodes@.take(idx as int));
            assert(info_r@ =~= old(self).info@.skip(idx as int));
            assert(nodes_r@ =~= old(self).nodes@.skip(idx as int));
        }
        ChildArray { info: info_r, nodes: nodes_r }
    }

    /// Pushes an item and splits the result in half, returning the right
    /// half; works even when the array is full.
    pub fn push_split(&mut self, new_child: (TextInfo, Arc<Node>)) -> (r: ChildArray)
        requires
            old(self).cwf(),
            old(self).nodes@.len() > 0,
        ensures
            final(self).nodes@ + r.nodes@ == old(self).nodes@.push(new_child.1),
            final(self).info@ + r.info@ == old(self).info@.push(new_child.0),
            final(self).nodes@.len() == old(self).nodes@.len() + 1 - (old(self).nodes@.len()
                + 1) / 2,
            r.nodes@.len() == (old(self).nodes@.len() + 1) / 2,
            final(self).cwf(),
            r.cwf(),
            final(self).info@.len() == final(self).nodes@.len(),
    {
        let r_count = (self.len() + 1) / 2;
        let l_count = (self.len() + 1) - r_count;
        let mut right = self.split_off(l_count);
        right.push(new_child);
        proof {
            assert(self.nodes@ + right.nodes@ =~= old(self).nodes@.push(new_child.1));
            assert(self.info@ + right.info@ =~= old(self).info@.push(new_child.0));
        }
        right
    }

    /// Inserts an item at `idx` and splits in half, returning the right
    /// half; works even when the array is full.  The relative order of
    /// items is preserved: the two halves concatenated equal the array
    /// with the item inserted at `idx`.
    pub fn insert_split(&mut self, idx: usize, item: (TextInfo, Arc<Node>)) -> (r: ChildArray)
        requires
            old(self).cwf(),
            old(self).nodes@.len() > 0,
            idx <= old(self).nodes@.len(),
        ensures
            final(self).nodes@ + r.nodes@ == old(self).nodes@.insert(idx as int, item.1),
            final(self).info@ + r.info@ == old(self).info@.insert(idx as int, item.0),
            final(self).nodes@.len() == old(self).nodes@.len() + 1 - (old(self).nodes@.len()
                + 1) / 2,
            r.nodes@.len() == (old(self).nodes@.len() + 1) / 2,
            final(self).cwf(),
            r.cwf(),
            final(self).info@.len() == final(self).nodes@.len(),
    {
        let ghost orig = *self;
        let extra = if idx < self.len() {
            let extra = self.pop();
            self.insert(idx, item);
            extra
        } else {
            item
        };
        let r = self.push_split(extra);
        proof {
            if idx < orig.nodes@.len() {
                assert(self.nodes@ + r.nodes@ =~= orig.nodes@.insert(idx as int, item.1));
                assert(self.info@ + r.info@ =~= orig.info@.insert(idx as int, item.0));
            } else {
                assert(orig.nodes@.push(item.1) =~= orig.nodes@.insert(idx as int, item.1));
                assert(orig.info@.push(item.0) =~= orig.info@.insert(idx as int, item.0));
            }
        }
        r
    }

    /// All three prefix sums over the whole array fit in `usize`.
    pub open spec fn sums_fit(self) -> bool {
        &&& prefix_metric(Metric::Bytes, self.info@, self.spec_len()) <= usize::MAX
        &&& prefix_metric(Metric::Chars, self.info@, self.spec_len()) <= usize::MAX
        &&& prefix_metric(Metric::LineBreaks, self.info@, self.spec_len()) <= usize::MAX
    }

    /// Combine all slot infos.
    pub fn combined_info(&self) -> (r: TextInfo)
        requires
            self.cwf(),
            self.sums_fit(),
        ensures
            r.bytes == prefix_metric(Metric::Bytes, self.info@, self.spec_len()),
            r.chars == prefix_metric(Metric::Chars, self.info@, self.spec_len()),
            r.line_breaks == prefix_metric(Metric::LineBreaks, self.info@, self.spec_len()),
    {
        let mut acc = TextInfo::new();
        let mut i: usize = 0;
        let n = self.len();
        while i < n
            invariant
                i <= n,
                n == self.info@.len(),
                self.cwf(),
                self.sums_fit(),
                acc.bytes == prefix_metric(Metric::Bytes, self.info@, i as int),
                acc.chars == prefix_metric(Metric::Chars, self.info@, i as int),
                acc.line_breaks == prefix_metric(Metric::LineBreaks, self.info@, i as int),
            decreases n - i,
        {
            proof {
                lemma_prefix_metric_mono(Metric::Bytes, self.info@, i + 1, self.spec_len());
                lemma_prefix_metric_mono(Metric::Chars, self.info@, i + 1, self.spec_len());
                lemma_prefix_metric_mono(Metric::LineBreaks, self.info@, i + 1, self.spec_len());
            }
            acc = acc.combine(&self.info[i]);
            i = i + 1;
        }
        acc
    }

    /// Scan left to right, accumulating the combined prefix; returns the
    /// first index `i` such that `target <= prefix(i + 1)` on the chosen
    /// metric, together with the combined prefix before `i`.  The caller
    /// must guarantee such an index exists.
    pub fn search_combine_info(&self, m: Metric, target: usize) -> (r: (usize, TextInfo))
        requires
            self.cwf(),
            self.sums_fit(),
            target <= prefix_metric(m, self.info@, self.spec_len()),
            self.nodes@.len() > 0,
        ensures
            r.0 < self.nodes@.len(),
            prefix_metric(m, self.info@, r.0 as int) < target || r.0 == 0,
            target <= prefix_metric(m, self.info@, r.0 + 1),
            r.1.bytes == prefix_metric(Metric::Bytes, self.info@, r.0 as int),
            r.1.chars == prefix_metric(Metric::Chars, self.info@, r.0 as int),
            r.1.line_breaks == prefix_metric(Metric::LineBreaks, self.info@, r.0 as int),
    {
        let mut acc = TextInfo::new();
        let mut i: usize = 0;
        let n = self.len();
        loop
            invariant
                i < n,
                n == self.info@.len(),
                n == self.nodes@.len(),
                self.cwf(),
                self.sums_fit(),
                target <= prefix_metric(m, self.info@, n as int),
                prefix_metric(m, self.info@, i as int) < target || i == 0,
                acc.bytes == prefix_metric(Metric::Bytes, self.info@, i as int),
                acc.chars == prefix_metric(Metric::Chars, self.info@, i as int),
                acc.line_breaks == prefix_metric(Metric::LineBreaks, self.info@, i as int),
            decreases n - i,
        {
            proof {
                lemma_prefix_metric_mono(Metric::Bytes, self.info@, i + 1, self.spec_len());
                lemma_prefix_metric_mono(Metric::Chars, self.info@, i + 1, self.spec_len());
                lemma_prefix_metric_mono(Metric::LineBreaks, self.info@, i + 1, self.spec_len());
            }
            let inf = self.info[i];
            let next = acc.combine(&inf);
            let reached = match m {
                Metric::Bytes => target <= next.bytes,
                Metric::Chars => target <= next.chars,
                Metric::LineBreaks => target <= next.line_breaks,
            };
            if reached {
                return (i, acc);
            }
            proof {
                lemma_prefix_metric_mono(m, self.info@, i + 1, n as int);
            }
            acc = next;
            i = i + 1;
        }
    }
}

impl Clone for ChildArray {
    /// Duplicates the summaries and clones each child handle; subtrees
    /// stay shared.
    fn clone(&self) -> (r: ChildArray)
        ensures
            r.info@ == self.info@,
            r.nodes@ == self.nodes@,
    {
        let mut info: Vec<TextInfo> = Vec::new();
        let mut nodes: Vec<Arc<Node>> = Vec::new();
        let n = self.info.len();
        let mut i: usize = 0;
        while i < n
            invariant
                i <= n,
                n == self.info@.len(),
                info@ == self.info@.take(i as int),
            decreases n - i,
        {
            info.push(self.info[i]);
            proof {
                assert(info@ =~= self.info@.take(i + 1));
            }
            i = i + 1;
        }
        let m = self.nodes.len();
        let mut j: usize = 0;
        while j < m
            invariant
                j <= m,
                m == self.nodes@.len(),
                nodes@ == self.nodes@.take(j as int),
            decreases m - j,
        {
            nodes.push(arc_clone(&self.nodes[j]));
            proof {
                assert(nodes@ =~= self.nodes@.take(j + 1));
            }
            j = j + 1;
        }
        proof {
            assert(info@ =~= self.info@);
            assert(nodes@ =~= self.nodes@);
        }
        ChildArray { info, nodes }
    }
}

/// Copies the slots of two arrays into one pair of vectors, in order.
fn concat_slots(a: &ChildArray, b: &ChildArray) -> (r: (Vec<TextInfo>, Vec<Arc<Node>>))
    ensures
        r.0@ == a.info@ + b.info@,
        r.1@ == a.nodes@ + b.nodes@,
{
    let mut iv: Vec<TextInfo> = Vec::new();
    let mut nv: Vec<Arc<Node>> = Vec::new();
    let n1 = a.info.len();
    let mut i: usize = 0;
    while i < n1
        invariant
            i <= n1,
            n1 == a.info@.len(),
            iv@ == a.info@.take(i as int),
        decreases n1 - i,
    {
        iv.push(a.info[i]);
        proof {
            assert(iv@ =~= a.info@.take(i + 1));
        }
        i = i + 1;
    }
    let n2 = b.info.len();
    let mut j: usize = 0;
    proof {
        assert(a.info@.take(n1 as int) =~= a.info@);
        assert(b.info@.take(0) =~= Seq::empty());
        assert(iv@ =~= a.info@ + b.info@.take(0));
    }
    while j < n2
        invariant
            j <= n2,
            n2 == b.info@.len(),
            iv@ == a.info@ + b.info@.take(j as int),
        decreases n2 - j,
    {
        iv.push(b.info[j]);
        proof {
            assert(iv@ =~= a.info@ + b.info@.take(j + 1));
        }
        j = j + 1;
    }
    let m1 = a.nodes.len();
    let mut k: usize = 0;
    while k < m1
        invariant
            k <= m1,
            m1 == a.nodes@.len(),
            nv@ == a.nodes@.take(k as int),
        decreases m1 - k,
    {
        nv.push(arc_clone(&a.nodes[k]));
        proof {
            assert(nv@ =~= a.nodes@.take(k + 1));
        }
        k = k + 1;
    }
    let m2 = b.nodes.len();
    let mut t: usize = 0;
    proof {
        assert(a.nodes@.take(m1 as int) =~= a.nodes@);
        assert(b.nodes@.take(0) =~= Seq::empty());
        assert(nv@ =~= a.nodes@ + b.nodes@.take(0));
    }
    while t < m2
        invariant
            t <= m2,
            m2 == b.nodes@.len(),
            nv@ == a.nodes@ + b.nodes@.take(t as int),
        decreases m2 - t,
    {
        nv.push(arc_clone(&b.nodes[t]));
        proof {
            assert(nv@ =~= a.nodes@ + b.nodes@.take(t + 1));
        }
        t = t + 1;
    }
    proof {
        assert(iv@ =~= a.info@ + b.info@);
        assert(nv@ =~= a.nodes@ + b.nodes@);
    }
    (iv, nv)
}

impl ChildArray {
    /// Attempts to merge children `idx1` and `idx2 == idx1 + 1` into
    /// one; when the combined content is too much for one node, it is
    /// instead equidistributed between the two.  The concatenated text
    /// of the array never changes; slots outside the pair keep their
    /// place (shifted down by one after a merge).
    ///
    /// Returns true when the pair was merged (and slot `idx2` removed),
    /// false when it was redistributed.
    #[verifier::rlimit(100)]
    #[verifier::spinoff_prover]
    pub fn merge_distribute(&mut self, idx1: usize, idx2: usize) -> (r: bool)
        requires
            old(self).cwf(),
            idx1 + 1 == idx2,
            idx2 < old(self).nodes@.len(),
            node_wf_lo(*old(self).nodes@[idx1 as int], 0),
            node_wf_lo(*old(self).nodes@[idx2 as int], 0),
            (*old(self).nodes@[idx1 as int] is Leaf && *old(self).nodes@[idx2 as int] is Leaf)
                || (*old(self).nodes@[idx1 as int] is Internal && *old(self).nodes@[idx2 as int] is Internal),
            node_depth(*old(self).nodes@[idx1 as int]) == node_depth(
                *old(self).nodes@[idx2 as int],
            ),
            byte_len(child_text(old(self).nodes@, idx1 as int)) + byte_len(
                child_text(old(self).nodes@, idx2 as int),
            ) <= usize::MAX,
        ensures
            final(self).cwf(),
            r ==> final(self).nodes@.len() == old(self).nodes@.len() - 1,
            !r ==> final(self).nodes@.len() == old(self).nodes@.len(),
            seq_text(final(self).nodes@) == seq_text(old(self).nodes@),
            forall|j: int|
                #![trigger final(self).nodes@[j]]
                0 <= j < idx1 ==> *final(self).nodes@[j] == *old(self).nodes@[j] && final(self).info@[j] == old(self).info@[j],
            r ==> forall|j: int|
                #![trigger final(self).nodes@[j]]
                idx1 < j < final(self).nodes@.len() ==> *final(self).nodes@[j] == *old(self).nodes@[j + 1] && final(self).info@[j] == old(self).info@[j + 1],
            !r ==> forall|j: int|
                #![trigger final(self).nodes@[j]]
                idx2 < j < final(self).nodes@.len() ==> *final(self).nodes@[j] == *old(self).nodes@[j] && final(self).info@[j] == old(self).info@[j],
            node_wf_lo(*final(self).nodes@[idx1 as int], 0),
            final(self).info@[idx1 as int].summarizes(child_text(final(self).nodes@, idx1 as int)),
            node_depth(*final(self).nodes@[idx1 as int]) == node_depth(
                *old(self).nodes@[idx1 as int],
            ),
            !r ==> node_wf_lo(*final(self).nodes@[idx2 as int], 0) && final(self).info@[idx2 as int].summarizes(child_text(final(self).nodes@, idx2 as int))
                && node_depth(*final(self).nodes@[idx2 as int]) == node_depth(
                *old(self).nodes@[idx1 as int],
            ),
            child_text(final(self).nodes@, idx1 as int) + (if r {
                Seq::<char>::empty()
            } else {
                child_text(final(self).nodes@, idx2 as int)
            }) == child_text(old(self).nodes@, idx1 as int) + child_text(
                old(self).nodes@,
                idx2 as int,
            ),
            *old(self).nodes@[idx1 as int] is Leaf ==> r == (byte_len(
                child_text(old(self).nodes@, idx1 as int) + child_text(
                    old(self).nodes@,
                    idx2 as int,
                ),
            ) <= MAX_BYTES || crate::grapheme::no_interior_boundary(
                child_text(old(self).nodes@, idx1 as int) + child_text(
                    old(self).nodes@,
                    idx2 as int,
                ),
            )),
            r && *old(self).nodes@[idx1 as int] is Leaf ==> *final(self).nodes@[idx1 as int] is Leaf,
            !r && *old(self).nodes@[idx1 as int] is Leaf ==> ({
                let t = child_text(old(self).nodes@, idx1 as int) + child_text(
                    old(self).nodes@,
                    idx2 as int,
                );
                let cl = child_text(final(self).nodes@, idx1 as int).len() as int;
                &&& *final(self).nodes@[idx1 as int] is Leaf
                &&& *final(self).nodes@[idx2 as int] is Leaf
                &&& 0 < cl < t.len()
                &&& crate::grapheme::grapheme_break_at(t, cl)
                &&& crate::grapheme::split_near_midpoint(t, cl)
            }),
            *old(self).nodes@[idx1 as int] is Internal ==> r == (fanout_of(
                *old(self).nodes@[idx1 as int],
            ) + fanout_of(*old(self).nodes@[idx2 as int]) < MAX_CHILDREN),
            r && *old(self).nodes@[idx1 as int] is Internal ==> fanout_of(
                *final(self).nodes@[idx1 as int],
            ) == fanout_of(*old(self).nodes@[idx1 as int]) + fanout_of(
                *old(self).nodes@[idx2 as int],
            ),
            !r && *old(self).nodes@[idx1 as int] is Internal ==> ({
                let total = fanout_of(*old(self).nodes@[idx1 as int]) + fanout_of(
                    *old(self).nodes@[idx2 as int],
                );
                fanout_of(*final(self).nodes@[idx1 as int]) == total - total / 2 && fanout_of(
                    *final(self).nodes@[idx2 as int],
                ) == total / 2
            }),
    {
        let ghost orig = *old(self);
        let ghost t1 = child_text(old(self).nodes@, idx1 as int);
        let ghost t2 = child_text(old(self).nodes@, idx2 as int);
        let n1ref: &Node = &self.nodes[idx1];
        let (merged_or_left, right_opt): (Node, Option<Node>) = match n1ref {
            Node::Leaf(text1) => {
                let l = text1.clone();
                let n2ref: &Node = &self.nodes[idx2];
                let joined: String = match n2ref {
                    Node::Leaf(text2) => l.concat(text2.as_str()),
                    _ => {
                        proof {
                            assert(false);
                        }
                        l
                    },
                };
                proof {
                    lemma_byte_len_bounds(joined@);
                }
                if joined.as_str().len() <= MAX_BYTES {
                    (Node::Leaf(joined), None)
                } else {
                    let nchars = joined.as_str().unicode_len();
                    let mid = joined.as_str().len() - joined.as_str().len() / 2;
                    let cmid = str_byte_to_char(joined.as_str(), mid);
                    proof {
                        lemma_cib_bounds(joined@, mid as int);
                        // the midpoint scalar is strictly interior
                        lemma_byte_len_bounds(joined@);
                        assert(joined@.len() > 0);
                        crate::text_info::lemma_char_width(joined@[0]);
                        assert(crate::text_info::char_width(joined@[0]) <= mid as int);
                        crate::text_info::lemma_cib_bounds(
                            joined@.drop_first(),
                            mid - crate::text_info::char_width(joined@[0]),
                        );
                        assert(chars_in_bytes(joined@, mid as int) >= 1);
                        crate::text_info::lemma_cib_inverse(joined@, mid as int);
                        if chars_in_bytes(joined@, mid as int) == joined@.len() {
                            assert(joined@.take(joined@.len() as int) =~= joined@);
                            assert(false);
                        }
                    }
                    let c = crate::grapheme::str_nearest_interior_boundary(joined.as_str(), cmid);
                    if c == 0 || c >= nchars {
                        // no interior cluster boundary: keep one
                        // oversized leaf
                        proof {
                            assert(crate::grapheme::no_interior_boundary(joined@));
                        }
                        (Node::Leaf(joined), None)
                    } else {
                        let lh = joined.as_str().substring_char(0, c).to_owned();
                        let rh = joined.as_str().substring_char(c, nchars).to_owned();
                        proof {
                            assert(lh@ + rh@ =~= joined@);
                        }
                        (Node::Leaf(lh), Some(Node::Leaf(rh)))
                    }
                }
            },
            Node::Internal(ca1) => {
                let n2ref: &Node = &self.nodes[idx2];
                match n2ref {
                    Node::Internal(ca2) => {
                        let (mut iv, mut nv) = concat_slots(ca1, ca2);
                        proof {
                            lemma_seq_text_cat(ca1.nodes@, ca2.nodes@);
                            assert(seq_text(nv@) == t1 + t2);
                            assert(byte_len(t1 + t2) == byte_len(t1) + byte_len(t2));
                            assert(forall|k: int|
                                #![trigger nv@[k]]
                                0 <= k < nv@.len() ==> *nv@[k] == *(if k < ca1.nodes@.len() {
                                    ca1.nodes@[k]
                                } else {
                                    ca2.nodes@[k - ca1.nodes@.len()]
                                }));
                            assert(forall|k: int|
                                #![trigger iv@[k]]
                                0 <= k < iv@.len() ==> iv@[k] == (if k < ca1.info@.len() {
                                    ca1.info@[k]
                                } else {
                                    ca2.info@[k - ca1.info@.len()]
                                }));
                        }
                        if nv.len() < MAX_CHILDREN {
                            let m = Node::Internal(ChildArray { info: iv, nodes: nv });
                            proof {
                                assert(node_wf_lo(m, 0));
                            }
                            (m, None)
                        } else {
                            let r_target = nv.len() / 2;
                            let left_n = nv.len() - r_target;
                            let r_iv = iv.split_off(left_n);
                            let r_nv = nv.split_off(left_n);
                            let ghost all_n = nv@ + r_nv@;
                            let ghost all_i = iv@ + r_iv@;
                            proof {
                                assert(all_n =~= nv@ + r_nv@);
                                lemma_seq_text_cat(nv@, r_nv@);
                                assert(seq_text(nv@) + seq_text(r_nv@) == t1 + t2) by {
                                    assert(nv@ + r_nv@ =~= ca1.nodes@ + ca2.nodes@);
                                }
                                lemma_byte_len_bounds(seq_text(nv@));
                                lemma_byte_len_bounds(seq_text(r_nv@));
                                assert(byte_len(seq_text(nv@) + seq_text(r_nv@)) == byte_len(
                                    seq_text(nv@),
                                ) + byte_len(seq_text(r_nv@)));
                            }
                            let lnode = Node::Internal(ChildArray { info: iv, nodes: nv });
                            let rnode = Node::Internal(ChildArray { info: r_iv, nodes: r_nv });
                            proof {
                                assert(node_wf_lo(lnode, 0));
                                assert(node_wf_lo(rnode, 0));
                            }
                            (lnode, Some(rnode))
                        }
                    },
                    _ => {
                        proof {
                            assert(false);
                        }
                        (Node::Empty, None)
                    },
                }
            },
            Node::Empty => {
                proof {
                    assert(false);
                }
                (Node::Empty, None)
            },
        };
        proof {
            lemma_byte_len_bounds(node_text(merged_or_left));
            if right_opt is Some {
                lemma_byte_len_bounds(node_text(right_opt->0));
                assert(byte_len(node_text(merged_or_left) + node_text(right_opt->0)) == byte_len(
                    node_text(merged_or_left),
                ) + byte_len(node_text(right_opt->0)));
            }
        }
        match right_opt {
            None => {
                let minfo = merged_or_left.text_info();
                let ghost mv = merged_or_left;
                self.set(idx1, (minfo, Arc::new(merged_or_left)));
                self.remove(idx2);
                proof {
                    let ghost fin = self.nodes@;
                    assert(fin =~= orig.nodes@.update(idx1 as int, fin[idx1 as int]).remove(
                        idx2 as int,
                    ));
                    assert(*fin[idx1 as int] == mv);
                    lemma_merge_text(orig.nodes@, fin, idx1 as int, mv);
                    assert(node_text(mv) + Seq::<char>::empty() =~= node_text(mv));
                }
                true
            },
            Some(rnode) => {
                let minfo = merged_or_left.text_info();
                let rinfo = rnode.text_info();
                let ghost mv = merged_or_left;
                let ghost rv = rnode;
                self.set(idx1, (minfo, Arc::new(merged_or_left)));
                self.set(idx2, (rinfo, Arc::new(rnode)));
                proof {
                    let ghost fin = self.nodes@;
                    assert(*fin[idx1 as int] == mv);
                    assert(*fin[idx2 as int] == rv);
                    lemma_distribute_text(orig.nodes@, fin, idx1 as int, mv, rv);
                }
                false
            },
        }
    }
}

/// After merging slots `i` and `i + 1` into one node carrying both
/// texts, the array's concatenated text is unchanged.
proof fn lemma_merge_text(ns: Seq<Arc<Node>>, fin: Seq<Arc<Node>>, i: int, m: Node)
    requires
        0 <= i,
        i + 1 < ns.len(),
        fin.len() == ns.len() - 1,
        *fin[i] == m,
        node_text(m) == child_text(ns, i) + child_text(ns, i + 1),
        forall|j: int| #![trigger fin[j]] 0 <= j < i ==> *fin[j] == *ns[j],
        forall|j: int| #![trigger fin[j]] i < j < fin.len() ==> *fin[j] == *ns[j + 1],
    ensures
        seq_text(fin) == seq_text(ns),
{
    lemma_text_decompose(fin, i);
    lemma_text_decompose(ns, i);
    lemma_text_decompose(ns.skip(i + 1), 0);
    assert(ns.skip(i + 1).take(0) =~= Seq::empty());
    assert(ns.skip(i + 1).skip(1) =~= ns.skip(i + 2));
    assert(*ns.skip(i + 1)[0] == *ns[i + 1]);
    assert(seq_text(ns.skip(i + 1)) == seq_text(Seq::empty()) + child_text(ns, i + 1) + seq_text(
        ns.skip(i + 2),
    ));
    assert(seq_text(Seq::empty()) + child_text(ns, i + 1) =~= child_text(ns, i + 1));
    assert(fin.take(i) =~= ns.take(i));
    assert(fin.skip(i + 1) =~= ns.skip(i + 2));
    assert(seq_text(ns.take(i)) + node_text(m) + seq_text(ns.skip(i + 2)) =~= seq_text(
        ns.take(i),
    ) + (child_text(ns, i) + child_text(ns, i + 1)) + seq_text(ns.skip(i + 2)));
    assert(seq_text(ns.take(i)) + (child_text(ns, i) + child_text(ns, i + 1)) + seq_text(
        ns.skip(i + 2),
    ) =~= seq_text(ns.take(i)) + child_text(ns, i) + (child_text(ns, i + 1) + seq_text(
        ns.skip(i + 2),
    )));
    assert(seq_text(fin) =~= seq_text(ns));
}

/// After redistributing slots `i` and `i + 1` so the pair carries the
/// same two texts, the array's concatenated text is unchanged.
proof fn lemma_distribute_text(ns: Seq<Arc<Node>>, fin: Seq<Arc<Node>>, i: int, m: Node, r: Node)
    requires
        0 <= i,
        i + 1 < ns.len(),
        fin.len() == ns.len(),
        *fin[i] == m,
        *fin[i + 1] == r,
        node_text(m) + node_text(r) == child_text(ns, i) + child_text(ns, i + 1),
        forall|j: int| #![trigger fin[j]] 0 <= j < ns.len() && j != i && j != i + 1 ==> *fin[j]
            == *ns[j],
    ensures
        seq_text(fin) == seq_text(ns),
{
    lemma_text_decompose(fin, i);
    lemma_text_decompose(ns, i);
    lemma_text_decompose(ns.skip(i + 1), 0);
    lemma_text_decompose(fin.skip(i + 1), 0);
    assert(ns.skip(i + 1).take(0) =~= Seq::empty());
    assert(ns.skip(i + 1).skip(1) =~= ns.skip(i + 2));
    assert(*ns.skip(i + 1)[0] == *ns[i + 1]);
    assert(fin.skip(i + 1).take(0) =~= Seq::empty());
    assert(fin.skip(i + 1).skip(1) =~= fin.skip(i + 2));
    assert(*fin.skip(i + 1)[0] == *fin[i + 1]);
    assert(fin.take(i) =~= ns.take(i));
    assert(fin.skip(i + 2) =~= ns.skip(i + 2));
    assert(seq_text(Seq::empty()) + child_text(ns, i + 1) =~= child_text(ns, i + 1));
    assert(seq_text(Seq::empty()) + node_text(r) =~= node_text(r));
    assert(seq_text(fin) == seq_text(fin.take(i)) + node_text(m) + (node_text(r) + seq_text(
        fin.skip(i + 2),
    )));
    assert(seq_text(ns) == seq_text(ns.take(i)) + child_text(ns, i) + (child_text(ns, i + 1)
        + seq_text(ns.skip(i + 2))));
    assert(seq_text(ns.take(i)) + node_text(m) + (node_text(r) + seq_text(ns.skip(i + 2)))
        =~= seq_text(ns.take(i)) + (node_text(m) + node_text(r)) + seq_text(ns.skip(i + 2)));
    assert(seq_text(ns.take(i)) + (child_text(ns, i) + child_text(ns, i + 1)) + seq_text(
        ns.skip(i + 2),
    ) =~= seq_text(ns.take(i)) + child_text(ns, i) + (child_text(ns, i + 1) + seq_text(
        ns.skip(i + 2),
    )));
    assert(seq_text(fin) =~= seq_text(ns));
}

} // verus!
